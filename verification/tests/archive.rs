use package_checker::archive::{
    advisory_at, advisory_named, count, open, open_file, sort_out, stretch, Found, Opened, Raw,
};
use package_checker::load::LoadError;
use package_checker::model::Ecosystem;
use std::io::{Cursor, Write};

/// An archive of some files, each deflated.
fn archive(files: &[(&str, &str)]) -> Vec<u8> {
    let mut zip = zip::ZipWriter::new(Cursor::new(Vec::new()));
    for (name, text) in files {
        zip.start_file(*name, zip::write::SimpleFileOptions::default()).unwrap();
        zip.write_all(text.as_bytes()).unwrap();
    }
    zip.finish().unwrap().into_inner()
}

/// What was found, in words.
fn told(found: &Found) -> String {
    match found {
        Found::Other => "other".to_owned(),
        Found::Unreadable => "unreadable".to_owned(),
        Found::Bytes(bytes) => String::from_utf8(bytes.clone()).unwrap(),
    }
}

const FILES: &[(&str, &str)] =
    &[("GHSA-1.json", "{\"id\":1}"), ("readme.txt", "hello"), ("GHSA-2.json", "{\"id\":2}")];

#[test]
fn the_advisories_of_an_archive_are_found_in_order() {
    let bytes = archive(FILES);
    let mut zip = open("all.zip", &bytes).unwrap();
    assert_eq!(count(&zip), 3);
    let told_of: Vec<String> = (0..3).map(|i| told(&advisory_at(&mut zip, i))).collect();
    assert_eq!(told_of, ["{\"id\":1}", "other", "{\"id\":2}"]);
}

#[test]
fn pieces_of_an_archive_make_the_whole() {
    let bytes = archive(FILES);
    let mut zip = open("all.zip", &bytes).unwrap();
    let whole: Vec<String> = stretch(&mut zip, 0, 3).iter().map(told).collect();
    for at in 0..=3 {
        let mut first = zip.clone();
        let mut pieces = stretch(&mut first, 0, at);
        pieces.extend(stretch(&mut zip, at, 3));
        assert_eq!(pieces.iter().map(told).collect::<Vec<_>>(), whole);
    }
}

#[test]
fn what_is_no_archive_is_refused_by_name() {
    match open("/db/all.zip", b"not a zip") {
        Err(LoadError::Zip { path, .. }) => assert_eq!(path, "/db/all.zip"),
        _ => panic!("some text was taken for an archive"),
    }
    let empty = archive(&[]);
    assert_eq!(count(&open("all.zip", &empty).unwrap()), 0);
}

#[test]
fn a_damaged_entry_is_unreadable() {
    let mut bytes = archive(&[("GHSA-1.json", &"{\"id\": \"GHSA-1\"}".repeat(40))]);
    let name = b"GHSA-1.json";
    let at = bytes.windows(name.len()).position(|w| w == name).unwrap() + name.len();
    for byte in &mut bytes[at..at + 8] {
        *byte = 0xff;
    }
    let mut zip = open("all.zip", &bytes).unwrap();
    assert_eq!(told(&advisory_at(&mut zip, 0)), "unreadable");
}

#[test]
fn an_entry_is_sorted_out_by_its_name_first() {
    let raw = |name: &str, bytes| Some(Raw { name: Some(name.to_owned()), bytes });
    assert_eq!(told(&sort_out(raw("a.json", Ok(b"x".to_vec())))), "x");
    assert_eq!(told(&sort_out(raw("a.json", Err("damaged".to_owned())))), "unreadable");
    assert_eq!(told(&sort_out(raw("a.txt", Err("damaged".to_owned())))), "other");
    assert_eq!(told(&sort_out(Some(Raw { name: None, bytes: Ok(vec![]) }))), "other");
    assert_eq!(told(&sort_out(None)), "other");
}

#[test]
fn an_advisory_is_found_by_its_id() {
    let bytes = archive(FILES);
    let named = |id: &str| advisory_named("all.zip", Ecosystem::Npm, id, &bytes);
    assert_eq!(named("GHSA-2").unwrap(), b"{\"id\":2}");
    assert!(named("readme").is_err());
}

#[test]
fn a_file_that_cannot_be_opened_is_named() {
    for file in [Opened::Missing("why".to_owned()), Opened::Unreadable("why".to_owned())] {
        assert_eq!(
            open_file("/db/all.zip", file).err(),
            Some(LoadError::Open { path: "/db/all.zip".to_owned(), message: "why".to_owned() })
        );
    }
    let bytes = archive(FILES);
    assert_eq!(count(&open_file("all.zip", Opened::Bytes(&bytes)).unwrap()), 3);
    assert!(matches!(
        open_file("all.zip", Opened::Bytes(b"no")),
        Err(LoadError::Zip { .. })
    ));
}
