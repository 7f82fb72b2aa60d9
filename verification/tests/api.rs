use package_checker::api::{
    batches, cache_path, check_status, fallback_url, first_action, group_by_ecosystem,
    is_valid_osv_id, partial, query_url, questions, read_batch, record_ids, record_path, record_url, resolve, sets_answered,
    ttl_seconds, versions_answered, wanted, Action, ApiError, Asked, BatchResult, Cache,
    QueryResult,
};
use package_checker::config::{Config, Online};
use package_checker::model::{Ecosystem, ExtractedPackage, Package, PackageKey, Range, Site};

fn extracted(ecosystem: Ecosystem, name: &str, version: &str) -> ExtractedPackage {
    ExtractedPackage {
        package: Package::new(ecosystem, name, version),
        evidence: Site::new("/p/package.json", Range::whole_line(1)),
        declared: None,
        dep_groups: Vec::new(),
        from_range: false,
        version_span: None,
        paths: Vec::new(),
    }
}

fn asked(name: &str, version: &str) -> Asked {
    Asked { name: name.to_owned(), version: version.to_owned() }
}

fn result(ids: &[&str], truncated: bool) -> QueryResult {
    QueryResult { ids: ids.iter().map(|s| s.to_string()).collect(), truncated }
}

#[test]
fn an_id_that_would_escape_the_cache_directory_is_refused() {
    assert!(!is_valid_osv_id(".."));
    assert!(!is_valid_osv_id("."));
    assert!(!is_valid_osv_id("../../etc/passwd"));
    assert!(!is_valid_osv_id("a/b"));
    assert!(!is_valid_osv_id("a\\b"));
    assert!(!is_valid_osv_id(""));
    assert!(!is_valid_osv_id(&"A".repeat(129)));
    assert!(!is_valid_osv_id("GHSA-abc?query=1"));

    assert!(is_valid_osv_id("GHSA-35jh-r3h4-6jhm"));
    assert!(is_valid_osv_id("MAL-2026-1380"));
    assert!(is_valid_osv_id("PYSEC-2018-28"));
    assert!(is_valid_osv_id("RUSTSEC-2020-0071"));
    assert!(is_valid_osv_id("GO-2023-2041"));
}

#[test]
fn excluded_packages_are_never_sent() {
    let packages = [
        extracted(Ecosystem::Npm, "@acme/internal", "1.0.0"),
        extracted(Ecosystem::Npm, "lodash", "4.17.15"),
        extracted(Ecosystem::Go, "github.com/acme/tool", "1.0.0"),
    ];
    let mut config = Config::default();
    config.online.exclude = vec!["@acme/".to_owned(), "Go:github.com/acme/".to_owned()];

    let grouped = group_by_ecosystem(&packages, &config);
    let npm: Vec<&str> = grouped
        .iter()
        .find(|g| g.ecosystem == Ecosystem::Npm)
        .unwrap()
        .packages
        .iter()
        .map(|p| p.name.as_str())
        .collect();
    assert_eq!(npm, ["lodash"], "an excluded name must not be queried");
    assert!(
        !grouped.iter().any(|g| g.ecosystem == Ecosystem::Go),
        "excluding every package of an ecosystem must not query it at all"
    );
}

#[test]
fn the_same_package_is_asked_about_once() {
    let packages = [
        extracted(Ecosystem::Npm, "lodash", "4.17.15"),
        extracted(Ecosystem::Npm, "lodash", "4.17.15"),
        extracted(Ecosystem::Npm, "lodash", "4.17.21"),
    ];
    let grouped = group_by_ecosystem(&packages, &Config::default());
    assert_eq!(grouped.len(), 1);
    assert_eq!(grouped[0].packages.len(), 2, "distinct versions, not rows");
}

#[test]
fn a_clean_answer_does_not_carry_over_to_another_version() {
    let mut cache = Cache::new();
    let now = 1_000_000;
    let ttl = 3600;
    cache.mark_clean("lodash", "4.17.21", now);

    assert!(cache.fresh_clean("lodash", "4.17.21", now, ttl));
    assert!(!cache.fresh_clean("lodash", "4.17.15", now, ttl));
}

#[test]
fn an_entry_past_its_ttl_is_asked_about_again() {
    let mut cache = Cache::new();
    let ttl = 3600;
    cache.mark_clean("lodash", "4.17.21", 0);
    cache.mark_affected("evil", vec!["GHSA-1".into()], 0);

    assert!(cache.fresh_clean("lodash", "4.17.21", 3599, ttl));
    assert!(!cache.fresh_clean("lodash", "4.17.21", 3600, ttl));
    assert!(cache.fresh_affected("evil", 3599, ttl));
    assert!(!cache.fresh_affected("evil", 3600, ttl));
}

#[test]
fn a_package_that_becomes_clean_loses_its_advisories() {
    let mut cache = Cache::new();
    cache.mark_affected("lodash", vec!["GHSA-1".into()], 0);
    cache.mark_clean("lodash", "5.0.0", 10);
    assert!(!cache.is_affected("lodash"));
}

#[test]
fn every_ecosystem_name_is_a_safe_file_name() {
    for ecosystem in Ecosystem::all() {
        let path = cache_path("/cache", ecosystem);
        assert_eq!(
            std::path::Path::new(&path).parent(),
            Some(std::path::Path::new("/cache/api")),
            "{ecosystem:?} escaped the cache directory"
        );
    }
}

#[test]
fn a_query_runs_from_versions_to_sets_to_records() {
    let packages = vec![asked("clean", "1.0"), asked("evil", "2.0"), asked("held", "3.0")];
    let mut cache = Cache::new();
    cache.mark_clean("held", "3.0", 90);

    let ask = match first_action(&packages, &cache, 100, 60) {
        Action::AskVersions(ask) => ask,
        _ => panic!("two packages are unanswered"),
    };
    assert_eq!(ask.iter().map(|a| a.name.as_str()).collect::<Vec<_>>(), ["clean", "evil"]);

    let names = match versions_answered(
        &mut cache,
        &ask,
        &vec![result(&[], false), result(&["GHSA-1"], false)],
        100,
    ) {
        Action::AskSets(names) => names,
        _ => panic!("one of them has advisories"),
    };
    assert_eq!(names, ["evil"]);
    assert!(cache.fresh_clean("clean", "1.0", 100, 60));

    let partial =
        sets_answered(&mut cache, &names, &vec![result(&["GHSA-1", "GHSA-2"], false)], 100);
    assert!(partial.is_empty());
    assert_eq!(record_ids(&names, &cache), ["GHSA-1", "GHSA-2"]);
    assert_eq!(
        wanted(&packages, &cache, Ecosystem::Npm),
        [PackageKey::new(Ecosystem::Npm, "evil")]
    );
    assert!(matches!(first_action(&packages, &cache, 100, 60), Action::Nothing));
}

#[test]
fn a_truncated_set_names_the_package() {
    let mut cache = Cache::new();
    let names = vec!["a".to_owned(), "b".to_owned()];
    let partial = sets_answered(
        &mut cache,
        &names,
        &vec![result(&["GHSA-1"], true), result(&["GHSA-2"], false)],
        5,
    );
    assert_eq!(partial, ["a"]);
}

#[test]
fn batches_hold_at_most_a_thousand() {
    let packages: Vec<Asked> = (0..2_001).map(|i| asked(&format!("p{i}"), "1.0")).collect();
    let sent = batches(&packages, Ecosystem::PyPI, true);
    assert_eq!(sent.iter().map(|b| b.len()).collect::<Vec<_>>(), [1000, 1000, 1]);
    assert_eq!(sent[2][0].name, "p2000");
    assert_eq!(sent[2][0].ecosystem, "PyPI");
    assert_eq!(sent[2][0].version.as_deref(), Some("1.0"));
    let sets = batches(&packages, Ecosystem::PyPI, false);
    assert!(sets.iter().flatten().all(|q| q.version.is_none()));
}

#[test]
fn every_error_says_what_happened() {
    assert_eq!(ApiError::Query("timed out".into()).describe(), "query osv.dev: timed out");
    let refused = check_status(503).unwrap_err();
    assert_eq!(refused.describe(), format!("osv.dev returned 503 for {}", query_url()));
    assert!(check_status(200).is_ok());
    match read_batch(2, &vec![]) {
        Err(ApiError::Malformed(_)) => {}
        _ => panic!("an answer that is too short is malformed"),
    }
    let one = vec![BatchResult { ids: vec!["GHSA-1".into()], more: true }];
    let read = read_batch(1, &one).unwrap();
    assert!(read[0].truncated);
    assert_eq!(read[0].ids, ["GHSA-1"]);
}

#[test]
fn records_have_a_bucket_a_fallback_and_a_file() {
    assert_eq!(query_url(), "https://api.osv.dev/v1/querybatch");
    assert_eq!(
        record_url(Ecosystem::CratesIo, "RUSTSEC-1"),
        "https://osv-vulnerabilities.storage.googleapis.com/crates.io/RUSTSEC-1.json"
    );
    assert_eq!(fallback_url("GO-1"), "https://api.osv.dev/v1/vulns/GO-1");
    assert_eq!(record_path("/cache", "GO-1"), "/cache/api/records/GO-1.json");
}

#[test]
fn a_lifetime_in_hours_becomes_seconds() {
    let hours = |h: u64| Config {
        online: Online { enabled: true, exclude: vec![], ttl_hours: h },
        offline: false,
    };
    assert_eq!(ttl_seconds(&hours(12)), 43_200);
    assert_eq!(ttl_seconds(&hours(u64::MAX)), u64::MAX);
}

#[test]
fn the_last_answer_stands() {
    let mut cache = Cache::new();
    cache.mark_clean("lodash", "1.0.0", 10);
    cache.mark_affected("lodash", vec!["GHSA-1".into()], 20);
    cache.mark_affected("lodash", vec!["GHSA-2".into()], 30);
    assert!(cache.is_affected("lodash"));
    assert_eq!(record_ids(&vec!["lodash".to_owned()], &cache), ["GHSA-2"]);
    assert!(cache.fresh_affected("lodash", 35, 10));
}

#[test]
fn a_truncated_set_is_partial_for_as_long_as_it_is_held() {
    let packages = vec![asked("a", "1.0"), asked("b", "1.0")];
    let mut cache = Cache::new();
    let names = vec!["a".to_owned(), "b".to_owned()];
    let answers = vec![result(&["GHSA-1"], true), result(&["GHSA-2"], false)];
    sets_answered(&mut cache, &names, &answers, 5);
    let key = [PackageKey::new(Ecosystem::Npm, "a")];
    assert_eq!(partial(&packages, &cache, Ecosystem::Npm), key);

    // Nothing is asked while the answer is fresh, and it is no more complete.
    assert!(matches!(first_action(&packages, &cache, 6, 60), Action::Nothing));
    assert_eq!(partial(&packages, &cache, Ecosystem::Npm), key);
    assert!(cache.is_truncated("a") && !cache.is_truncated("b"));

    sets_answered(&mut cache, &names, &vec![result(&["GHSA-1"], false); 2], 70);
    assert!(partial(&packages, &cache, Ecosystem::Npm).is_empty());
}

#[test]
fn a_round_asks_versions_then_sets_then_records() {
    let packages = vec![asked("clean", "1.0"), asked("evil", "2.0")];
    let mut cache = Cache::new();
    let first = first_action(&packages, &cache, 100, 60);
    let (ask, versioned) = questions(&first).unwrap();
    assert_eq!((ask, versioned), (packages.clone(), true));

    let hits = vec![result(&[], false), result(&["GHSA-1"], false)];
    let (second, truncated) = resolve(&mut cache, &first, &hits, 100);
    assert!(truncated.is_empty());
    assert_eq!(questions(&second), Some((vec![asked("evil", "")], false)));

    let (third, truncated) = resolve(&mut cache, &second, &vec![result(&["GHSA-1"], true)], 100);
    assert_eq!(truncated, ["evil"]);
    assert!(matches!(&third, Action::FetchRecords(names) if names == &["evil"]));
    assert!(questions(&third).is_none());
    let (last, _) = resolve(&mut cache, &third, &vec![], 100);
    assert!(matches!(last, Action::Nothing));

    // Another package is asked about later: the truncated set stays partial.
    let more = vec![asked("evil", "2.0"), asked("other", "1.0")];
    let first = first_action(&more, &cache, 120, 60);
    assert_eq!(questions(&first), Some((vec![asked("other", "1.0")], true)));
    resolve(&mut cache, &first, &vec![result(&[], false)], 120);
    assert_eq!(
        partial(&more, &cache, Ecosystem::Npm),
        [PackageKey::new(Ecosystem::Npm, "evil")]
    );
}
