use archbench::codec::load_manifest;
use archbench::codec::save_manifest;
use archbench::manifest::FileEntry;
use archbench::Error;

fn entry(path: &str, size: usize, start: usize) -> FileEntry {
    FileEntry { path: path.as_bytes().to_vec(), size, start }
}

#[test]
fn canonical_form_of_one_entry() {
    let saved = save_manifest(&vec![entry("x", 3, 0)]);
    assert_eq!(
        String::from_utf8(saved).unwrap(),
        "{\"entries\":[{\"path\":\"x\",\"size\":3,\"start\":0}]}"
    );
}

#[test]
fn canonical_form_of_empty_manifest() {
    let saved = save_manifest(&vec![]);
    assert_eq!(String::from_utf8(saved).unwrap(), "{\"entries\":[]}");
}

#[test]
fn round_trip_empty() {
    let saved = save_manifest(&vec![]);
    assert_eq!(load_manifest(&saved), Ok(vec![]));
}

#[test]
fn round_trip_three_entries() {
    let entries = vec![
        entry("data/0.txt", 1024, 0),
        entry("data/1.txt", 2000, 1024),
        entry("data/2.txt", 1, 3024),
    ];
    let saved = save_manifest(&entries);
    assert_eq!(load_manifest(&saved), Ok(entries));
}

#[test]
fn round_trip_duplicate_paths_and_sizes() {
    let entries = vec![entry("same", 5, 0), entry("same", 5, 5), entry("same", 5, 10)];
    let saved = save_manifest(&entries);
    assert_eq!(load_manifest(&saved), Ok(entries));
}

#[test]
fn round_trip_path_with_quote_and_backslash() {
    let entries = vec![entry("a\"b\\c", 7, 0)];
    let saved = save_manifest(&entries);
    let text = String::from_utf8(saved.clone()).unwrap();
    assert_eq!(text, "{\"entries\":[{\"path\":\"a\\\"b\\\\c\",\"size\":7,\"start\":0}]}");
    assert_eq!(load_manifest(&saved), Ok(entries));
}

#[test]
fn round_trip_large_numbers() {
    let entries = vec![entry("big", usize::MAX, 0), entry("big2", 0, usize::MAX)];
    let saved = save_manifest(&entries);
    assert_eq!(load_manifest(&saved), Ok(entries));
}

#[test]
fn garbage_is_a_parse_error() {
    assert_eq!(load_manifest(&b"not a manifest".to_vec()), Err(Error::Parse));
}

#[test]
fn empty_input_is_a_parse_error() {
    assert_eq!(load_manifest(&vec![]), Err(Error::Parse));
}

#[test]
fn truncated_document_is_a_parse_error() {
    let mut saved = save_manifest(&vec![entry("x", 3, 0)]);
    saved.pop();
    assert_eq!(load_manifest(&saved), Err(Error::Parse));
}

#[test]
fn trailing_bytes_are_a_parse_error() {
    let mut saved = save_manifest(&vec![entry("x", 3, 0)]);
    saved.push(b' ');
    assert_eq!(load_manifest(&saved), Err(Error::Parse));
}

#[test]
fn missing_field_is_a_parse_error() {
    let text = b"{\"entries\":[{\"path\":\"x\",\"size\":3}]}".to_vec();
    assert_eq!(load_manifest(&text), Err(Error::Parse));
}

#[test]
fn oversized_number_is_an_overflow_error() {
    let text =
        b"{\"entries\":[{\"path\":\"x\",\"size\":99999999999999999999999999,\"start\":0}]}"
            .to_vec();
    assert_eq!(load_manifest(&text), Err(Error::Overflow));
}
