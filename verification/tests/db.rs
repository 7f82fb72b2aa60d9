use package_checker::db::{
    after_peer, answer, base64_decode, crc32c_from_header, default_root, ensured, landed,
    needs_validation, ordered, peer_pause, rename_pause, validate_entries, validator,
    verify_checksum, Answer, Checksum, Database, DbError, Meta, Platform, ARCHIVE_HOST,
};
use package_checker::model::Ecosystem;

#[test]
fn crc32c_is_read_from_the_header() {
    let cases: &[(&str, &[&str], Option<u32>)] = &[
        ("absent", &[], None),
        ("md5 only", &["md5=6bBQJ2rnE5o/rJZDYqgAew=="], None),
        ("crc32c alone", &["crc32c=W3hLNw=="], Some(0x5b78_4b37)),
        (
            "repeated headers",
            &["md5=6bBQJ2rnE5o/rJZDYqgAew==", "crc32c=W3hLNw=="],
            Some(0x5b78_4b37),
        ),
        (
            "comma separated",
            &["md5=6bBQJ2rnE5o/rJZDYqgAew==, crc32c=W3hLNw=="],
            Some(0x5b78_4b37),
        ),
        ("malformed base64", &["crc32c=!!!"], None),
        ("wrong length", &["crc32c=AAA="], None),
    ];
    for (name, values, want) in cases {
        let values: Vec<String> = values.iter().map(|v| v.to_string()).collect();
        assert_eq!(crc32c_from_header(&values), *want, "{name}");
    }
}

#[test]
fn archive_url_uses_the_ecosystem_name_verbatim() {
    let db = Database::new("unused");
    for (ecosystem, suffix) in [
        (Ecosystem::Npm, "/npm/all.zip"),
        (Ecosystem::Go, "/Go/all.zip"),
        (Ecosystem::PyPI, "/PyPI/all.zip"),
        (Ecosystem::CratesIo, "/crates.io/all.zip"),
    ] {
        assert_eq!(db.archive_url(ecosystem), format!("{ARCHIVE_HOST}{suffix}"));
    }
}

#[test]
fn every_ecosystem_that_failed_is_named() {
    let failures = vec!["npm: 404".to_owned(), "Go: 404".to_owned()];
    let message = ensured(&failures).unwrap_err().describe();
    assert_eq!(message, "advisory database not ready: npm: 404; Go: 404");
    assert!(ensured(&vec![]).is_ok());
}

#[test]
fn a_checksum_that_differs_is_refused() {
    let bytes = b"an archive";
    let mut sum = Checksum::new();
    sum.update(bytes);
    assert!(verify_checksum("/db/all.zip", Some(sum.crc), sum.crc).is_ok());
    assert!(verify_checksum("/db/all.zip", None, sum.crc).is_ok());
    let refused = verify_checksum("/db/all.zip", Some(sum.crc ^ 1), sum.crc);
    assert!(matches!(refused, Err(DbError::Fetch { .. })));
}

#[test]
fn a_checksum_does_not_depend_on_the_pieces() {
    // The check value of CRC-32C.
    let mut whole = Checksum::new();
    whole.update(b"123456789");
    assert_eq!(whole.crc, 0xe306_9283);
    let mut pieces = Checksum::new();
    pieces.update(b"1234");
    pieces.update(b"");
    pieces.update(b"56789");
    assert_eq!(pieces.crc, whole.crc);
}

#[test]
fn base64_is_read_with_its_padding() {
    assert_eq!(base64_decode("W3hLNw=="), Some(vec![0x5b, 0x78, 0x4b, 0x37]));
    assert_eq!(base64_decode(""), Some(vec![]));
    assert_eq!(base64_decode("!!!!"), None);
}

#[test]
fn an_archive_is_stale_after_its_lifetime() {
    let db = Database::new("/db").with_ttl(60);
    let meta = Some(Meta { etag: "\"v1\"".into(), fetched_at: 1_000, crc32c: 7 });
    assert!(!db.stale(true, &meta, Some(1_059)));
    assert!(db.stale(true, &meta, Some(1_060)));
    assert!(db.stale(false, &meta, Some(1_000)), "there is nothing to be fresh");
    assert!(db.stale(true, &None, Some(1_000)), "nothing says when it was fetched");
    assert_eq!(validator(&meta, true).as_deref(), Some("\"v1\""));
    assert_eq!(validator(&meta, false), None);
}

#[test]
fn an_answer_decides_what_happens() {
    let meta = Meta { etag: "\"v1\"".into(), fetched_at: 1, crc32c: 7 };
    match answer(304, Some(meta), 50, "u") {
        Answer::Current(m) => {
            assert_eq!((m.etag.as_str(), m.fetched_at, m.crc32c), ("\"v1\"", 50, 7));
        }
        _ => panic!("a matching validator keeps the archive"),
    }
    assert!(matches!(answer(200, None, 50, "u"), Answer::Download));
    match answer(404, None, 50, "u") {
        Answer::Refused(e) => assert_eq!(e.describe(), "fetch u: unexpected status 404"),
        _ => panic!("a 404 was accepted"),
    }
    let m = landed(Some("\"v2\""), 9, None);
    assert_eq!((m.etag.as_str(), m.fetched_at, m.crc32c), ("\"v2\"", 9, 0));
}

#[test]
fn every_failure_is_described() {
    assert_eq!(
        DbError::Io { context: "open x".into(), message: "denied".into() }.describe(),
        "open x: denied"
    );
    assert!(after_peer(Ecosystem::Go, true).is_ok());
    assert!(matches!(after_peer(Ecosystem::Go, false), Err(DbError::NotReady(_))));
    assert!(validate_entries("/db/all.zip", Ok(1)).is_ok());
    assert!(validate_entries("/db/all.zip", Ok(0)).is_err());
    assert!(validate_entries("/db/all.zip", Err("not a zip".into())).is_err());
}

#[test]
fn small_archives_are_fetched_first_and_none_is_lost() {
    let all = Ecosystem::all();
    let order = ordered(&all);
    assert_eq!(order.len(), all.len());
    assert_eq!(order[0], Ecosystem::CratesIo);
    assert_eq!(order.last(), Some(&Ecosystem::Npm));
}

#[test]
fn an_unchanged_archive_is_not_read_again() {
    assert!(!needs_validation(true, Some(5), Some(5)));
    assert!(needs_validation(true, Some(6), Some(5)));
    assert!(needs_validation(true, None, None));
    assert!(!needs_validation(false, Some(6), Some(5)), "a directory is no archive");
}

#[test]
fn everything_lies_below_the_root() {
    let db = Database::new("/db").with_archive_host("http://localhost");
    assert_eq!(db.root(), "/db");
    let archive = db.archive_path(Ecosystem::Npm);
    assert!(archive.starts_with("/db/") && archive.ends_with("/npm/all.zip"), "{archive}");
    assert_eq!(db.lock_path(Ecosystem::Npm), format!("{archive}.lock"));
    assert_eq!(db.archives(&vec![Ecosystem::Npm]), [(Ecosystem::Npm, archive)]);
    assert_eq!(db.archive_url(Ecosystem::Npm), "http://localhost/npm/all.zip");
}

#[test]
fn default_root_is_under_the_user_cache() {
    let home = || Some("/home/me".to_owned());
    assert_eq!(
        default_root(Platform::Other, home(), None, None).as_deref(),
        Some("/home/me/.cache/zed-package-checker/db")
    );
    assert_eq!(
        default_root(Platform::Other, home(), None, Some("/xdg".to_owned())).as_deref(),
        Some("/xdg/zed-package-checker/db")
    );
    assert_eq!(
        default_root(Platform::MacOs, home(), None, None).as_deref(),
        Some("/home/me/Library/Caches/zed-package-checker/db")
    );
    assert_eq!(
        default_root(Platform::Windows, home(), Some("C:/L".to_owned()), None).as_deref(),
        Some("C:/L/zed-package-checker/db")
    );
    assert_eq!(default_root(Platform::Windows, home(), None, None), None);
    assert_eq!(default_root(Platform::MacOs, None, None, None), None);
}

#[test]
fn a_refused_rename_is_tried_again_on_windows_alone() {
    let pauses: Vec<Option<u64>> = (1..=6).map(|tries| rename_pause(tries, true)).collect();
    assert_eq!(pauses, [Some(20), Some(40), Some(80), Some(160), None, None]);
    assert_eq!(rename_pause(1, false), None);
}

#[test]
fn a_peer_is_waited_for_a_quarter_of_an_hour() {
    assert_eq!(peer_pause(0), Some(250));
    assert_eq!(peer_pause(15 * 60 * 1000 - 1), Some(250));
    assert_eq!(peer_pause(15 * 60 * 1000), None);
}
