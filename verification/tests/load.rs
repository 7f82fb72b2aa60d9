use package_checker::archive::Found;
use package_checker::load::{
    conclude, decode, is_advisory_name, load, Contribution, Decoded, LoadError, Loading,
};
use package_checker::model::{Ecosystem, PackageKey};
use package_checker::osv::{OsvAdvisory, OsvAffected, OsvEvent, OsvRange};

fn osv(id: &str, name: &str) -> OsvAdvisory {
    OsvAdvisory {
        id: id.into(),
        withdrawn: String::new(),
        aliases: vec![],
        summary: String::new(),
        severity: vec![],
        affected: vec![OsvAffected {
            ecosystem: "npm".into(),
            name: name.into(),
            ranges: vec![OsvRange {
                kind: "SEMVER".into(),
                events: vec![OsvEvent {
                    introduced: "0".into(),
                    fixed: String::new(),
                    last_affected: String::new(),
                }],
            }],
            versions: vec![],
        }],
        references: vec![],
    }
}

fn withdrawn() -> OsvAdvisory {
    OsvAdvisory { withdrawn: "2023-01-01T00:00:00Z".into(), ..osv("GHSA-gone", "lodash") }
}

/// What comes of the entries of an archive: a name, and an advisory where the
/// entry could be read as one.
fn entries(list: Vec<(&str, Option<OsvAdvisory>)>) -> Vec<Decoded> {
    list.into_iter()
        .map(|(name, parsed)| {
            if is_advisory_name(name) {
                decode(parsed, Ecosystem::Npm)
            } else {
                Decoded::Other
            }
        })
        .collect()
}

#[test]
fn an_archive_becomes_an_index() {
    let mut loading = Loading::new();
    loading
        .archive(
            Ecosystem::Npm,
            "all.zip",
            entries(vec![
                ("GHSA-1.json", Some(osv("GHSA-1", "lodash"))),
                ("GHSA-2.json", Some(osv("GHSA-2", "express"))),
                ("GHSA-gone.json", Some(withdrawn())),
                ("not-json.txt", None),
            ]),
        )
        .unwrap();
    let (index, stats) = loading.finish(12, Some(34));
    assert_eq!(index.advisories(), 2, "the withdrawn one is excluded");
    assert_eq!(index.packages(), 2);

    let lodash = index.lookup(&PackageKey::new(Ecosystem::Npm, "lodash"));
    assert_eq!(lodash.len(), 1);
    assert_eq!(&*lodash[0].id, "GHSA-1");
    assert_eq!(index.lookup(&PackageKey::new(Ecosystem::Npm, "absent")).len(), 0);

    assert!(index.covers(&[Ecosystem::Npm]));
    assert!(!index.covers(&[Ecosystem::Go]), "claims to cover Go, never loaded");
    assert_eq!((index.load_time(), index.built_at()), (12, Some(34)));

    let (_, s) = stats[0];
    assert_eq!((s.entries, s.indexed, s.skipped), (3, 2, 0));
}

#[test]
fn an_archive_nothing_decodes_from_is_rejected() {
    let mut loading = Loading::new();
    let refused = loading.archive(
        Ecosystem::Npm,
        "all.zip",
        entries(vec![("GHSA-1.json", None), ("GHSA-2.json", None)]),
    );
    match refused {
        Err(e) => assert_eq!(
            e.describe(),
            "advisory database not ready: all 2 advisories in all.zip failed to decode"
        ),
        Ok(()) => panic!("an archive of garbage was accepted"),
    }
    assert!(loading.ecosystems.is_empty(), "a refused archive covers nothing");
}

#[test]
fn one_unreadable_advisory_does_not_lose_the_rest() {
    let mut loading = Loading::new();
    loading
        .archive(
            Ecosystem::Npm,
            "all.zip",
            entries(vec![
                ("GHSA-broken.json", None),
                ("GHSA-2.json", Some(osv("GHSA-2", "express"))),
            ]),
        )
        .unwrap();
    let (index, stats) = loading.finish(0, None);
    assert_eq!(index.advisories(), 1);
    assert_eq!(stats[0].1.skipped, 1, "the skip must be counted");
}

#[test]
fn an_archive_of_only_withdrawn_advisories_is_an_empty_index() {
    let mut loading = Loading::new();
    loading
        .archive(Ecosystem::Npm, "all.zip", entries(vec![("GHSA-gone.json", Some(withdrawn()))]))
        .unwrap();
    let (index, _) = loading.finish(0, None);
    assert_eq!(index.advisories(), 0);
}

#[test]
fn an_archive_that_cannot_be_opened_is_named() {
    let e = LoadError::Open { path: "/db/all.zip".into(), message: "no such file".into() };
    assert!(e.describe().contains("/db/all.zip"));
}

#[test]
fn the_order_of_the_workers_does_not_count() {
    let list = || {
        entries(vec![
            ("GHSA-1.json", Some(osv("GHSA-1", "lodash"))),
            ("GHSA-broken.json", None),
            ("GHSA-gone.json", Some(withdrawn())),
            ("notes.txt", None),
            ("GHSA-2.json", Some(osv("GHSA-2", "lodash"))),
        ])
    };
    let load = |decoded: Vec<Decoded>| {
        let mut loading = Loading::new();
        loading.archive(Ecosystem::Npm, "all.zip", decoded).unwrap();
        loading.finish(0, None)
    };
    // The share of each of two workers, put together in the order of the entries.
    let mut pieces = list();
    let tail = pieces.split_off(2);
    pieces.extend(tail);
    let (whole, stats) = load(list());
    let (joined, joined_stats) = load(pieces);
    let key = PackageKey::new(Ecosystem::Npm, "lodash");
    let ids = |index: &package_checker::index::Index| -> Vec<String> {
        index.lookup(&key).iter().map(|a| a.id.to_string()).collect()
    };
    assert_eq!(ids(&whole), ["GHSA-1", "GHSA-2"]);
    assert_eq!(ids(&joined), ids(&whole));
    assert_eq!(joined_stats[0].1.indexed, stats[0].1.indexed);
    // The lookups of all keys account for all entries.
    assert_eq!(whole.lookup(&key).len(), whole.advisories());
}

#[test]
fn an_entry_is_concluded_from_what_was_found() {
    let bytes = Found::Bytes(b"{}".to_vec());
    let parsed = Some(osv("GHSA-1", "lodash"));
    assert!(matches!(conclude(&bytes, parsed.clone(), Ecosystem::Npm), Decoded::Indexed(_)));
    assert!(matches!(conclude(&bytes, None, Ecosystem::Npm), Decoded::Failed));
    assert!(matches!(conclude(&Found::Unreadable, None, Ecosystem::Npm), Decoded::Failed));
    assert!(matches!(conclude(&Found::Other, parsed, Ecosystem::Npm), Decoded::Other));
}

fn read(ecosystem: Ecosystem, path: &str, entries: Result<Vec<Decoded>, LoadError>) -> Contribution {
    Contribution { ecosystem, path: path.to_owned(), entries }
}

fn unopened(path: &str) -> LoadError {
    LoadError::Open { path: path.to_owned(), message: "no such file".to_owned() }
}

#[test]
fn a_missing_archive_is_an_error_not_an_empty_index() {
    let archives = vec![read(Ecosystem::Npm, "all.zip", Err(unopened("all.zip")))];
    assert!(matches!(load(archives, 0, None), Err(LoadError::Open { .. })));
}

#[test]
fn several_archives_make_one_index_in_order() {
    let good = |id: &str| Ok(entries(vec![("a.json", Some(osv(id, "lodash")))]));
    let archives =
        vec![read(Ecosystem::Npm, "1", good("GHSA-2")), read(Ecosystem::Npm, "2", good("GHSA-1"))];
    let (index, stats) = load(archives, 5, Some(6)).unwrap();
    let ids: Vec<String> = index.iter().iter().map(|a| a.id.to_string()).collect();
    assert_eq!(ids, ["GHSA-2", "GHSA-1"]);
    assert_eq!(stats.len(), 2);
    assert_eq!((index.load_time(), index.built_at()), (5, Some(6)));
}

#[test]
fn the_first_archive_that_fails_decides() {
    let good = || Ok(entries(vec![("a.json", Some(osv("GHSA-1", "lodash")))]));
    let bad = || Ok(entries(vec![("a.json", None)]));
    let archives = vec![
        read(Ecosystem::Npm, "good.zip", good()),
        read(Ecosystem::Go, "bad.zip", bad()),
        read(Ecosystem::PyPI, "gone.zip", Err(unopened("gone.zip"))),
    ];
    match load(archives, 0, None) {
        Err(LoadError::NotReady(text)) => {
            assert_eq!(text, "all 1 advisories in bad.zip failed to decode");
        }
        _ => panic!("an archive of garbage was accepted"),
    }
    let archives = vec![
        read(Ecosystem::PyPI, "gone.zip", Err(unopened("gone.zip"))),
        read(Ecosystem::Go, "bad.zip", bad()),
    ];
    assert_eq!(load(archives, 0, None).err(), Some(unopened("gone.zip")));
    let archives =
        vec![read(Ecosystem::Npm, "old.zip", Ok(entries(vec![("a.json", Some(withdrawn()))])))];
    assert_eq!(load(archives, 0, None).unwrap().0.advisories(), 0);
}
