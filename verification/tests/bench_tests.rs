use archbench::bench::Benchmark;
use archbench::checksum::super_fast_hash;
use archbench::codec::load_manifest;
use archbench::codec::save_manifest;
use archbench::manifest::ManifestBuilder;
use archbench::manifest::read_entry;
use archbench::sample::random_index;
use archbench::sample::random_size;
use archbench::sample::shuffled_indexes;
use archbench::Error;

fn dataset(sizes: &[usize]) -> (ManifestBuilder, Vec<u8>, Vec<Vec<u8>>) {
    let mut builder = ManifestBuilder::new();
    let mut archive: Vec<u8> = Vec::new();
    let mut contents: Vec<Vec<u8>> = Vec::new();
    for (i, &size) in sizes.iter().enumerate() {
        let content = vec![(i as u8).wrapping_mul(37); size];
        archive.extend_from_slice(&content);
        builder.push(format!("{}.txt", i).into_bytes(), &content).unwrap();
        contents.push(content);
    }
    (builder, archive, contents)
}

#[test]
fn sampling_more_files_than_exist_fails() {
    let (builder, _, _) = dataset(&[4, 4]);
    let r = Benchmark::new(builder.entries, 1, 3);
    assert!(matches!(r, Err(Error::SampleTooLarge)));
}

#[test]
fn sampling_exactly_the_manifest_length_is_allowed() {
    let (builder, _, _) = dataset(&[4, 4]);
    let bench = Benchmark::new(builder.entries, 1, 2).unwrap();
    assert_eq!(bench.comparisons, 0);
    assert_eq!(bench.total_disk_ns, 0);
    assert_eq!(bench.total_archive_ns, 0);
}

#[test]
fn planned_comparisons_is_the_product() {
    let (builder, _, _) = dataset(&[1, 1, 1]);
    let bench = Benchmark::new(builder.entries, 5, 2).unwrap();
    assert_eq!(bench.planned_comparisons(), Some(10));
}

#[test]
fn a_mismatch_is_fatal_and_leaves_totals_unchanged() {
    let (builder, _, _) = dataset(&[3]);
    let mut bench = Benchmark::new(builder.entries, 1, 1).unwrap();
    let r = bench.record_comparison(&vec![1, 2, 3], &vec![1, 2, 4], 10, 10);
    assert_eq!(r, Err(Error::ChecksumMismatch));
    assert_eq!(bench.comparisons, 0);
    assert_eq!(bench.total_disk_ns, 0);
    assert_eq!(bench.total_archive_ns, 0);
}

#[test]
fn matching_buffers_accumulate_counts_and_times() {
    let (builder, _, _) = dataset(&[3]);
    let mut bench = Benchmark::new(builder.entries, 2, 1).unwrap();
    bench.record_comparison(&vec![1, 2, 3], &vec![1, 2, 3], 10, 4).unwrap();
    bench.record_comparison(&vec![9], &vec![9], 30, 8).unwrap();
    assert_eq!(bench.comparisons, 2);
    assert_eq!(bench.total_disk_ns, 40);
    assert_eq!(bench.total_archive_ns, 12);
    assert_eq!(bench.average_disk_ns(), 20);
    assert_eq!(bench.average_archive_ns(), 6);
}

#[test]
fn reordered_buffers_pass_the_checksum() {
    // The XOR-fold cannot tell reordered bytes apart, so the benchmark's
    // verification accepts them: the check is a cheap sanity check only.
    let (builder, _, _) = dataset(&[2]);
    let mut bench = Benchmark::new(builder.entries, 1, 1).unwrap();
    bench.record_comparison(&vec![1, 2], &vec![2, 1], 1, 1).unwrap();
    assert_eq!(bench.comparisons, 1);
}

#[test]
fn random_index_stays_below_the_bound() {
    let mut rng = rand::thread_rng();
    for n in 1..20usize {
        for _ in 0..50 {
            assert!(random_index(&mut rng, n) < n);
        }
    }
}

#[test]
fn random_size_stays_in_the_half_open_range() {
    let mut rng = rand::thread_rng();
    for _ in 0..200 {
        let size = random_size(&mut rng, 1024, 2048);
        assert!((1024..2048).contains(&size));
    }
}

#[test]
fn shuffled_indexes_is_a_permutation() {
    let mut rng = rand::thread_rng();
    let mut indexes = shuffled_indexes(&mut rng, 50);
    indexes.sort();
    let expected: Vec<usize> = (0..50).collect();
    assert_eq!(indexes, expected);
}

#[test]
fn end_to_end_scenario() {
    // Setup: three files, each sized in [1024, 2048) bytes.
    let mut rng = rand::thread_rng();
    let sizes: Vec<usize> =
        (0..3).map(|_| random_size(&mut rng, 1 * 1024, 2 * 1024)).collect();
    let (builder, archive, contents) = dataset(&sizes);

    // The manifest has three entries with starts 0, size0, size0 + size1,
    // and the archive holds exactly the sum of the sizes.
    assert_eq!(builder.entries.len(), 3);
    assert_eq!(builder.entries[0].start, 0);
    assert_eq!(builder.entries[1].start, sizes[0]);
    assert_eq!(builder.entries[2].start, sizes[0] + sizes[1]);
    assert_eq!(archive.len(), sizes.iter().sum::<usize>());

    // The manifest survives being stored and loaded.
    let stored = save_manifest(&builder.entries);
    let loaded = load_manifest(&stored).unwrap();
    assert_eq!(loaded, builder.entries);

    // Test: two iterations over three sampled files makes six comparisons,
    // and every one of them passes.
    let mut bench = Benchmark::new(loaded, 2, 3).unwrap();
    for _ in 0..bench.num_iterations {
        for _ in 0..bench.num_files_to_test {
            let idx = bench.pick_index(&mut rng);
            let entry = bench.entry(idx).clone();
            let archive_bytes = read_entry(&archive, &entry).unwrap();
            let disk_bytes = contents[idx].clone();
            assert_eq!(super_fast_hash(&disk_bytes), super_fast_hash(&archive_bytes));
            bench.record_comparison(&disk_bytes, &archive_bytes, 3, 2).unwrap();
        }
    }
    assert_eq!(bench.comparisons, 6);
    assert_eq!(bench.planned_comparisons(), Some(6));
    assert_eq!(bench.average_disk_ns(), 3);
    assert_eq!(bench.average_archive_ns(), 2);
}
