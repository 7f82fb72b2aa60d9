use package_checker::diagnostics::file_uri;
use package_checker::extract::is_manifest_name;
use package_checker::lsp::{
    is_manifest, manifests, negotiate_encoding, percent_decode, unescape, uri_to_path,
    watched_globs, workspace_root, Documents,
};
use package_checker::span::Encoding;

#[test]
fn every_parsed_manifest_is_watched() {
    for name in [
        "package.json",
        "package-lock.json",
        "npm-shrinkwrap.json",
        "go.mod",
        "Cargo.toml",
        "Cargo.lock",
        "requirements.txt",
        "requirements-dev.txt",
    ] {
        assert!(is_manifest_name(name), "{name:?} is in this list but no parser reads it");
        assert!(
            is_manifest(name),
            "{name:?} is parsed but not watched, so editing it would change nothing"
        );
    }
}

#[test]
fn manifests_and_watcher_globs_agree() {
    assert_eq!(watched_globs().len(), manifests().len() + 1);
    for pattern in watched_globs() {
        let name = pattern.trim_start_matches("**/");
        // The wildcard pattern stands for the requirements files.
        let sample = name.replace('*', "-dev");
        assert!(
            is_manifest(&sample),
            "{sample:?} is watched but not recognised as a manifest"
        );
    }
}

#[test]
fn uris_become_paths() {
    assert_eq!(
        uri_to_path("file:///Users/me/my%20project/package.json", false).unwrap(),
        "/Users/me/my project/package.json"
    );
    assert!(uri_to_path("http://example.com/package.json", false).is_none());
}

#[test]
fn a_drive_letter_loses_its_slash() {
    assert_eq!(uri_to_path("file:///C:/p/go.mod", true).as_deref(), Some("C:/p/go.mod"));
    assert_eq!(uri_to_path("file:///C:/p/go.mod", false).as_deref(), Some("/C:/p/go.mod"));
}

#[test]
fn only_manifests_trigger_a_scan_on_save() {
    assert!(is_manifest("/p/package.json"));
    assert!(is_manifest("/p/requirements-dev.txt"));
    assert!(!is_manifest("/p/index.js"));
    assert!(!is_manifest("/p/requirements.md"));
}

#[test]
fn the_workspace_root_prefers_folders_over_root_uri() {
    let folder = Some(vec!["file:///from/folder".to_owned()]);
    let root = Some("file:///from/rooturi".to_owned());
    assert_eq!(workspace_root(&folder, &root, false).as_deref(), Some("/from/folder"));
    assert_eq!(workspace_root(&None, &root, false).as_deref(), Some("/from/rooturi"));
    assert_eq!(workspace_root(&None, &None, false), None);
}

#[test]
fn utf8_is_taken_when_offered_and_utf16_otherwise() {
    let offered = |list: &[&str]| Some(list.iter().map(|s| s.to_string()).collect::<Vec<_>>());
    assert_eq!(negotiate_encoding(&offered(&["utf-16", "utf-8"])), Encoding::Utf8);
    assert_eq!(negotiate_encoding(&offered(&[])), Encoding::Utf16);
    // A minimal client may omit "general" entirely.
    assert_eq!(negotiate_encoding(&None), Encoding::Utf16);
}

#[test]
fn an_escape_stands_for_one_byte() {
    assert_eq!(percent_decode("caf%C3%A9"), "caf\u{e9}");
    assert_eq!(percent_decode("100%"), "100%");
    assert_eq!(percent_decode("%zz"), "%zz");
    // A sign is no digit.
    assert_eq!(percent_decode("/a%20b%+5"), "/a b%+5");
    // What is no text is replaced rather than dropped.
    assert_eq!(percent_decode("a%FFb"), "a\u{fffd}b");
    assert_eq!(unescape(b"%41%4a"), b"AJ");
}

#[test]
fn an_open_document_has_its_last_text() {
    let mut documents = Documents::new();
    documents.track("/p/go.mod", 1, "module a\n".to_owned());
    documents.track("/p/go.mod", 2, "module b\n".to_owned());
    // What is no manifest is not kept.
    documents.track("/p/main.go", 1, "package main\n".to_owned());
    assert_eq!(documents.get("/p/go.mod"), Some((2, "module b\n".to_owned())));
    assert_eq!(documents.get("/p/main.go"), None);
    documents.close("/p/go.mod");
    assert_eq!(documents.get("/p/go.mod"), None);
}

#[test]
fn a_path_has_a_uri_of_its_own() {
    assert_eq!(file_uri("/p/caf\u{e9}/go.mod"), "file:///p/caf\u{e9}/go.mod");
    assert_eq!(
        uri_to_path(&file_uri("/p/caf\u{e9}/go.mod"), false).as_deref(),
        Some("/p/caf\u{e9}/go.mod")
    );
}

#[test]
fn the_spelling_of_a_document_does_not_count() {
    let mut documents = Documents::new();
    documents.track("/p//go.mod", 1, "module a\n".to_owned());
    assert_eq!(documents.get("/p/./go.mod"), Some((1, "module a\n".to_owned())));
    documents.close("/p/go.mod");
    assert_eq!(documents.get("/p//go.mod"), None);
}
