//! Bringing an archive up to date, with a disk and a server that are held in
//! memory.
use package_checker::archive::Opened;
use package_checker::db::{
    answer, described, landed, validate_zip, validator, verify_archive, Answer, Checksum,
    Database, DbError, Meta, Seen, Task,
};
use package_checker::model::Ecosystem;
use std::io::{Cursor, Write};

fn fake_archive(files: &[(&str, &str)]) -> Vec<u8> {
    let mut zip = zip::ZipWriter::new(Cursor::new(Vec::new()));
    for (name, text) in files {
        zip.start_file(*name, zip::write::SimpleFileOptions::default()).unwrap();
        zip.write_all(text.as_bytes()).unwrap();
    }
    zip.finish().unwrap().into_inner()
}

fn one_entry_archive() -> Vec<u8> {
    fake_archive(&[("GHSA-1.json", "{\"id\":\"GHSA-1\"}")])
}

/// What is on disk where an archive should be.
enum Held {
    Nothing,
    Directory,
    File(Vec<u8>, u64),
}

/// One ecosystem's archive, its server, and what is done to it.
struct World {
    held: Held,
    meta: Option<Meta>,
    validated: Option<u64>,
    body: Vec<u8>,
    want: Option<u32>,
    now: u64,
    /// Whether another process holds the lock.
    peer: bool,
    requests: usize,
    not_modified: usize,
    done: Vec<Task>,
}

impl World {
    fn new(body: Vec<u8>) -> World {
        let mut sum = Checksum::new();
        sum.update(&body);
        World {
            held: Held::Nothing,
            meta: None,
            validated: None,
            body,
            want: Some(sum.crc),
            now: 1_000_000,
            peer: false,
            requests: 0,
            not_modified: 0,
            done: Vec::new(),
        }
    }

    fn present(&self) -> bool {
        !matches!(self.held, Held::Nothing)
    }

    fn modified(&self) -> Option<u64> {
        match self.held {
            Held::File(_, at) => Some(at),
            _ => None,
        }
    }

    fn fetch(&mut self) -> Result<(), DbError> {
        self.requests += 1;
        let offered = validator(&self.meta, self.present());
        let status = if offered.as_deref() == Some("v1") { 304 } else { 200 };
        match answer(status, self.meta.clone(), self.now, "url") {
            Answer::Current(meta) => {
                self.not_modified += 1;
                self.meta = Some(meta);
            }
            Answer::Refused(error) => return Err(error),
            Answer::Download => {
                verify_archive("tmp", self.want, &self.body)?;
                self.held = Held::File(self.body.clone(), 100 + self.requests as u64);
                self.validated = self.modified();
                self.meta = Some(landed(Some("v1"), self.now, self.want));
            }
        }
        Ok(())
    }

    fn ensure(&mut self, db: &Database) -> Result<(), DbError> {
        let mut result = Ok(());
        self.done.clear();
        let mut task = Task::Inspect;
        while task != Task::Finish {
            self.done.push(task);
            let seen = match task {
                Task::Inspect => Seen::Entry {
                    is_file: matches!(self.held, Held::File(..)),
                    modified: self.modified(),
                    validated: self.validated,
                },
                Task::Validate => Seen::Readable(match &self.held {
                    Held::File(bytes, _) => validate_zip("all.zip", bytes).is_ok(),
                    _ => false,
                }),
                Task::Remember => {
                    self.validated = self.modified();
                    Seen::Done
                }
                Task::Discard => {
                    self.held = Held::Nothing;
                    self.meta = None;
                    Seen::Done
                }
                Task::Look | Task::LookAgain => Seen::Known {
                    present: self.present(),
                    meta: self.meta.clone(),
                    now: Some(self.now),
                },
                Task::Lock => Seen::Locked(!self.peer),
                Task::Fetch => {
                    result = self.fetch();
                    Seen::Done
                }
                Task::Wait | Task::Finish => Seen::Done,
            };
            task = db.after(task, &seen);
        }
        result
    }

    fn bytes(&self) -> &[u8] {
        match &self.held {
            Held::File(bytes, _) => bytes,
            _ => panic!("no archive"),
        }
    }
}

#[test]
fn ensure_downloads_then_reuses_cache() {
    let db = Database::new("/cache");
    let mut world = World::new(one_entry_archive());
    assert!(!world.present(), "ready before any download");
    world.ensure(&db).unwrap();
    assert!(world.present(), "not ready after a successful download");
    assert_eq!(world.requests, 1);

    // Within the TTL nothing should touch the network at all.
    world.ensure(&db).unwrap();
    assert_eq!(world.requests, 1, "a warm start made a request");
    assert_eq!(world.done, [Task::Inspect, Task::Look]);
}

#[test]
fn ensure_revalidates_when_stale() {
    let db = Database::new("/cache").with_ttl(3600);
    let mut world = World::new(one_entry_archive());
    world.ensure(&db).unwrap();

    // Past the TTL the server is asked, but an unchanged ETag means a 304 and no
    // re-download.
    world.now += 2 * 3600;
    world.ensure(&db).unwrap();
    assert_eq!(world.requests, 2);
    assert_eq!(world.not_modified, 1);

    // And the freshness check must be recorded, or every scan would re-ask.
    world.now += 30 * 60;
    world.ensure(&db).unwrap();
    assert_eq!(world.requests, 2, "a 304 did not refresh the timestamp");
}

#[test]
fn ensure_rejects_corrupt_download() {
    let db = Database::new("/cache");
    let mut world = World::new(b"<html>502 Bad Gateway</html>".to_vec());
    assert!(world.ensure(&db).is_err(), "a non-zip body was accepted");
    assert!(!world.present(), "a corrupt archive was published");
}

#[test]
fn ensure_rejects_checksum_mismatch() {
    let db = Database::new("/cache");
    let mut world = World::new(one_entry_archive());
    world.want = Some(0xdead_beef);
    let err = world.ensure(&db).expect_err("a checksum mismatch was accepted");
    assert!(err.describe().contains("checksum mismatch"), "{}", err.describe());
    assert!(!world.present(), "published despite a bad checksum");
}

#[test]
fn heal_recovers_from_truncated_archive() {
    let db = Database::new("/cache");
    let mut world = World::new(one_entry_archive());
    world.ensure(&db).unwrap();

    let half = world.bytes()[..world.bytes().len() / 2].to_vec();
    assert!(
        validate_zip("all.zip", &half).is_err(),
        "truncation left a valid zip; nothing exercised"
    );
    world.held = Held::File(half, 7);

    world.ensure(&db).unwrap();
    validate_zip("all.zip", world.bytes()).expect("archive still unreadable after recovery");
    assert_eq!(world.requests, 2, "the corrupt copy must be re-fetched");
    assert_eq!(
        world.done,
        [
            Task::Inspect,
            Task::Validate,
            Task::Discard,
            Task::Look,
            Task::Lock,
            Task::LookAgain,
            Task::Fetch
        ]
    );
}

#[test]
fn heal_does_not_reread_an_unchanged_archive() {
    let db = Database::new("/cache").with_ttl(0);
    let mut world = World::new(one_entry_archive());
    world.ensure(&db).unwrap();
    let before = world.modified().unwrap();
    world.held = Held::File(b"not a zip".to_vec(), before);
    world.ensure(&db).unwrap();
    assert_eq!(
        world.bytes(),
        b"not a zip",
        "an archive whose modification time did not change was re-read and discarded"
    );
}

#[test]
fn heal_still_catches_corruption_that_changes_the_file() {
    let db = Database::new("/cache").with_ttl(0);
    let mut world = World::new(one_entry_archive());
    world.ensure(&db).unwrap();
    world.held = Held::File(b"not a zip".to_vec(), 7);
    world.ensure(&db).unwrap();
    validate_zip("all.zip", world.bytes()).expect("a corrupted archive was left in place");
}

#[test]
fn heal_ignores_a_directory_where_the_archive_should_be() {
    let db = Database::new("/cache");
    let mut world = World::new(one_entry_archive());
    world.held = Held::Directory;
    world.peer = true;
    world.ensure(&db).unwrap();
    assert!(
        matches!(world.held, Held::Directory),
        "heal removed something that was not an archive"
    );
}

#[test]
fn an_archive_that_opens_is_remembered_and_one_that_is_refreshed_elsewhere_is_waited_for() {
    let db = Database::new("/cache");
    let mut world = World::new(one_entry_archive());
    world.held = Held::File(one_entry_archive(), 7);
    world.peer = true;
    world.ensure(&db).unwrap();
    assert_eq!(
        world.done,
        [Task::Inspect, Task::Validate, Task::Remember, Task::Look, Task::Lock, Task::Wait]
    );
    assert_eq!(world.validated, Some(7));
    assert_eq!(world.requests, 0);
}

#[test]
fn only_an_archive_with_entries_is_valid() {
    assert!(validate_zip("all.zip", &one_entry_archive()).is_ok());
    assert_eq!(
        validate_zip("all.zip", &fake_archive(&[])).unwrap_err(),
        DbError::NotReady("all.zip: zip archive is empty".to_owned())
    );
    match validate_zip("all.zip", b"not a zip") {
        Err(DbError::NotReady(text)) => {
            assert!(text.starts_with("all.zip: not a readable zip: "), "{text}");
        }
        _ => panic!("some text was taken for an archive"),
    }
}

#[test]
fn a_download_is_held_to_its_checksum_first() {
    let body = one_entry_archive();
    let mut sum = Checksum::new();
    sum.update(&body);
    assert!(verify_archive("tmp", Some(sum.crc), &body).is_ok());
    assert!(verify_archive("tmp", None, &body).is_ok());
    match verify_archive("tmp", Some(1), b"123456789") {
        Err(DbError::Fetch { url, message }) => {
            assert_eq!(url, "tmp");
            assert_eq!(message, "checksum mismatch: got e3069283, want 00000001");
        }
        _ => panic!("a wrong checksum was accepted"),
    }
    assert!(matches!(
        verify_archive("tmp", Some(0xe306_9283), b"123456789"),
        Err(DbError::NotReady(_))
    ));
}

/// The text of an advisory, as an archive holds it.
fn details(db: &Database, id: &str, bytes: &[u8]) -> Result<String, DbError> {
    let raw = db.details(Ecosystem::Npm, id, Opened::Bytes(bytes))?;
    let parsed: Result<serde_json::Value, _> = serde_json::from_slice(&raw);
    let text = parsed
        .map(|v| v.get("details").and_then(|d| d.as_str()).unwrap_or_default().to_owned())
        .map_err(|e| e.to_string());
    described(id, text)
}

#[test]
fn details_are_read_back_from_the_archive() {
    let db = Database::new("/cache");
    let bytes = fake_archive(&[
        (
            "GHSA-1.json",
            r#"{"id":"GHSA-1","details":"the full prose description","affected":[]}"#,
        ),
        ("GHSA-2.json", "]]]"),
    ]);
    assert_eq!(details(&db, "GHSA-1", &bytes).unwrap(), "the full prose description");
    assert!(details(&db, "GHSA-absent", &bytes).is_err());
    assert_eq!(
        details(&db, "GHSA-absent", &bytes).unwrap_err(),
        DbError::NotReady(
            "GHSA-absent in npm: specified file not found in archive".to_owned()
        )
    );
    match details(&db, "GHSA-2", &bytes) {
        Err(DbError::NotReady(text)) => assert!(text.starts_with("decode GHSA-2: "), "{text}"),
        _ => panic!("garbage was parsed"),
    }
}

#[test]
fn details_of_an_archive_that_is_not_there_are_not_ready() {
    let db = Database::new("/cache");
    let get = |file: Opened<'_>| db.details(Ecosystem::Go, "GO-1", file).unwrap_err();
    let path = "/cache/osv-scalibr/Go/all.zip";
    assert_eq!(
        get(Opened::Missing("no such file".to_owned())),
        DbError::NotReady(format!("{path}: no such file"))
    );
    assert_eq!(
        get(Opened::Unreadable("denied".to_owned())),
        DbError::Io { context: format!("open {path}"), message: "denied".to_owned() }
    );
    match get(Opened::Bytes(b"not a zip")) {
        DbError::NotReady(text) => assert!(text.starts_with(&format!("{path}: ")), "{text}"),
        _ => panic!("some text was taken for an archive"),
    }
}

#[test]
fn an_advisory_that_cannot_be_inflated_is_an_io_error() {
    let mut bytes = fake_archive(&[("GHSA-1.json", &"{\"id\": \"GHSA-1\"}".repeat(40))]);
    let name = b"GHSA-1.json";
    let at = bytes.windows(name.len()).position(|w| w == name).unwrap() + name.len();
    for byte in &mut bytes[at..at + 8] {
        *byte = 0xff;
    }
    match Database::new("/cache").details(Ecosystem::Npm, "GHSA-1", Opened::Bytes(&bytes)) {
        Err(DbError::Io { context, .. }) => assert_eq!(context, "read advisory"),
        _ => panic!("a damaged entry was read"),
    }
}
