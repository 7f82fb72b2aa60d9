use package_checker::read::{bounded, is_small_enough, manifest, MAX_MANIFEST_BYTES};

/// A file as it is on disk: its size, and its text where it is text.
fn file(contents: &[u8]) -> (Option<u64>, Option<String>) {
    (Some(contents.len() as u64), String::from_utf8(contents.to_vec()).ok())
}

#[test]
fn a_file_under_the_cap_reads_whole() {
    let (size, text) = file(b"module example.com/x\n");
    assert_eq!(bounded(size, text, 64).as_deref(), Some("module example.com/x\n"));
}

#[test]
fn a_file_over_the_cap_is_skipped() {
    let (size, text) = file(b"123456789");
    assert_eq!(bounded(size, text.clone(), 8), None);
    // One byte under is the boundary that must still succeed.
    assert!(bounded(size, text, 9).is_some());
}

#[test]
fn the_shipped_cap_rejects_an_oversized_file() {
    assert_eq!(manifest(Some(MAX_MANIFEST_BYTES + 1), Some(String::new())), None);
    assert!(!is_small_enough(MAX_MANIFEST_BYTES + 1, MAX_MANIFEST_BYTES));
}

#[test]
fn a_file_that_grows_past_the_cap_after_the_stat_is_rejected() {
    // The stat sees nine bytes; by the time the read runs there are more.
    let (size, _) = file(b"123456789");
    let (_, grown) = file(b"1234567890123456789");
    assert_eq!(bounded(size, grown, 9), None);
}

#[test]
fn a_file_that_is_not_utf8_is_skipped() {
    let (size, text) = file(&[0xff, 0xfe, 0x00]);
    assert_eq!(manifest(size, text), None);
}

#[test]
fn a_missing_file_is_skipped() {
    assert_eq!(manifest(None, None), None);
}
