use archbench::manifest::FileEntry;
use archbench::manifest::ManifestBuilder;
use archbench::manifest::read_entry;
use archbench::Error;

fn build_dataset(contents: &[Vec<u8>]) -> (ManifestBuilder, Vec<u8>) {
    let mut builder = ManifestBuilder::new();
    let mut archive: Vec<u8> = Vec::new();
    for (i, content) in contents.iter().enumerate() {
        archive.extend_from_slice(content);
        builder.push(format!("{}.txt", i).into_bytes(), content).unwrap();
    }
    (builder, archive)
}

#[test]
fn offsets_are_contiguous() {
    let contents = vec![vec![1u8; 10], vec![2u8; 25], vec![3u8; 7]];
    let (builder, _) = build_dataset(&contents);
    let entries = &builder.entries;
    assert_eq!(entries.len(), 3);
    assert_eq!(entries[0].start, 0);
    assert_eq!(entries[1].start, 10);
    assert_eq!(entries[2].start, 35);
    assert_eq!(entries[0].size, 10);
    assert_eq!(entries[1].size, 25);
    assert_eq!(entries[2].size, 7);
    for pair in entries.windows(2) {
        assert_eq!(pair[1].start, pair[0].start + pair[0].size);
    }
}

#[test]
fn archive_length_is_the_sum_of_sizes() {
    let contents = vec![vec![9u8; 100], vec![8u8; 1], vec![7u8; 42]];
    let (builder, archive) = build_dataset(&contents);
    let total: usize = builder.entries.iter().map(|e| e.size).sum();
    assert_eq!(archive.len(), total);
    let last = builder.entries.last().unwrap();
    assert_eq!(archive.len(), last.start + last.size);
    assert_eq!(builder.next_start, total);
}

#[test]
fn empty_builder_has_no_entries() {
    let builder = ManifestBuilder::new();
    assert_eq!(builder.entries.len(), 0);
    assert_eq!(builder.next_start, 0);
}

#[test]
fn paths_are_recorded_in_order() {
    let contents = vec![vec![0u8; 2], vec![0u8; 3]];
    let (builder, _) = build_dataset(&contents);
    assert_eq!(builder.entries[0].path, b"0.txt".to_vec());
    assert_eq!(builder.entries[1].path, b"1.txt".to_vec());
}

#[test]
fn read_entry_returns_each_file_exactly() {
    let contents = vec![b"first".to_vec(), b"second!".to_vec(), b"x".to_vec()];
    let (builder, archive) = build_dataset(&contents);
    for (i, content) in contents.iter().enumerate() {
        let bytes = read_entry(&archive, &builder.entries[i]).unwrap();
        assert_eq!(&bytes, content);
    }
}

#[test]
fn read_entry_rejects_a_range_past_the_end() {
    let archive = vec![0u8; 10];
    let entry = FileEntry { path: b"x".to_vec(), size: 5, start: 6 };
    assert_eq!(read_entry(&archive, &entry), Err(Error::RangeOutOfBounds));
}

#[test]
fn read_entry_rejects_an_overflowing_range() {
    let archive = vec![0u8; 10];
    let entry = FileEntry { path: b"x".to_vec(), size: usize::MAX, start: 2 };
    assert_eq!(read_entry(&archive, &entry), Err(Error::RangeOutOfBounds));
}

#[test]
fn read_entry_of_an_empty_file_is_empty() {
    let archive = b"abc".to_vec();
    let entry = FileEntry { path: b"x".to_vec(), size: 0, start: 3 };
    assert_eq!(read_entry(&archive, &entry), Ok(vec![]));
}
