use package_checker::config::Config;
use package_checker::index::Index;
use package_checker::model::{
    ecosystems_of, Advisory, Affected, AffectedRange, Ecosystem, ExtractedPackage, Fix, Package,
    PackageKey, Range, Report, Site, Source,
};
use package_checker::scan::{
    after_online, archive_report, checkable, online_report, partial_report, plan, refresh_due,
    Plan, ScanError, Warming, REFRESH_CHECK_EVERY,
};

fn config(enabled: bool, offline: bool) -> Config {
    let mut config = Config::default();
    config.online.enabled = enabled;
    config.offline = offline;
    config
}

fn extracted(ecosystem: Ecosystem, name: &str, version: &str) -> ExtractedPackage {
    ExtractedPackage {
        package: Package::new(ecosystem, name, version),
        evidence: Site::new("/p/package.json", Range::whole_line(1)),
        declared: None,
        dep_groups: vec![],
        from_range: false,
        version_span: None,
        paths: vec![],
    }
}

fn index() -> Index {
    let advisory = Advisory {
        id: "GHSA-1".into(),
        aliases: vec![],
        summary: String::new(),
        cvss_score: 72,
        cvss_vector: String::new(),
        affected: vec![Affected {
            package: PackageKey::new(Ecosystem::Npm, "lodash"),
            ranges: vec![AffectedRange {
                introduced: "0".into(),
                fixed: "4.17.21".into(),
                last_affected: String::new(),
            }],
            versions: vec![],
        }],
        references: vec![],
    };
    Index::build(vec![advisory], vec![Ecosystem::Npm], 0, None)
}

#[test]
fn without_dependencies_there_is_nothing_to_do() {
    assert!(matches!(plan(&vec![], &vec![], &config(true, false)), Plan::Nothing));
}

#[test]
fn offline_without_archives_is_refused() {
    let npm = vec![Ecosystem::Npm];
    assert!(matches!(plan(&npm, &vec![], &config(true, true)), Plan::Refuse));
    assert!(matches!(plan(&npm, &vec![], &config(false, true)), Plan::Refuse));
    assert_eq!(ScanError::NotReady.describe(), "advisory database not ready");
}

#[test]
fn offline_downloads_nothing_whatever_is_there() {
    let both = vec![Ecosystem::Npm, Ecosystem::Go];
    let offline = config(true, true);
    assert!(matches!(plan(&both, &both, &offline), Plan::Archives { refresh: false }));
    assert!(matches!(
        plan(&both, &vec![Ecosystem::Go], &offline),
        Plan::Partly { fetch: false, .. }
    ));
}

#[test]
fn what_is_there_decides_what_a_scan_does() {
    let both = vec![Ecosystem::Npm, Ecosystem::Go];
    assert!(matches!(plan(&both, &both, &config(true, false)), Plan::Archives { refresh: true }));
    match plan(&both, &vec![Ecosystem::Go], &config(true, false)) {
        Plan::Partly { ready, missing, fetch } => {
            assert!(fetch);
            assert_eq!(ready, [Ecosystem::Go]);
            assert_eq!(missing, [Ecosystem::Npm]);
        }
        other => panic!("{other:?}"),
    }
    assert!(matches!(plan(&both, &vec![], &config(true, false)), Plan::Online));
    assert!(matches!(plan(&both, &vec![], &config(false, false)), Plan::Download));
}

#[test]
fn one_download_runs_at_a_time() {
    let mut warming = Warming::new();
    assert!(warming.begin());
    for _ in 0..4 {
        assert!(!warming.begin());
    }
    warming.end();
    assert!(warming.begin());
}

#[test]
fn an_archive_that_did_not_change_is_no_news() {
    let mut warming = Warming::new();
    assert!(!warming.is_news(Some(5), Some(5)));
    assert!(warming.is_news(Some(5), Some(6)));
    assert!(warming.is_news(None, Some(6)));
    warming.stop();
    assert!(!warming.is_news(None, Some(6)));
}

#[test]
fn nothing_begins_once_stopped() {
    let mut warming = Warming::new();
    warming.stop();
    warming.stop();
    assert!(!warming.begin());
}

#[test]
fn a_refresh_is_due_once_an_hour() {
    assert!(refresh_due(None));
    assert!(!refresh_due(Some(REFRESH_CHECK_EVERY - 1)));
    assert!(refresh_due(Some(REFRESH_CHECK_EVERY)));
}

#[test]
fn a_scan_of_the_archives_finds_the_advisory() {
    let packages = vec![extracted(Ecosystem::Npm, "lodash", "4.17.15")];
    assert_eq!(ecosystems_of(&packages), [Ecosystem::Npm]);
    let report = archive_report("/p", &index(), &packages);
    assert_eq!(report.findings.len(), 1);
    assert_eq!(report.findings[0].package.name(), "lodash");
    assert_eq!(report.findings[0].fix, Fix::Clears("4.17.21".into()));
    assert_eq!(report.source, Source::Archive);
    let files = report.by_file();
    assert_eq!(files.len(), 1);
    assert_eq!(files[0].path, "/p/package.json");
}

#[test]
fn a_partial_scan_names_what_it_did_not_check() {
    let packages = vec![
        extracted(Ecosystem::Npm, "lodash", "4.17.15"),
        extracted(Ecosystem::Go, "example.com/m", "1.0.0"),
    ];
    assert_eq!(checkable(&packages, &vec![Ecosystem::Npm]).len(), 1);
    let report = partial_report(
        "/p",
        &index(),
        &packages,
        &vec![Ecosystem::Npm],
        vec![Ecosystem::Go],
    );
    assert_eq!(report.findings.len(), 1);
    assert_eq!(report.source, Source::PartialArchive { missing: vec![Ecosystem::Go] });
}

#[test]
fn a_truncated_set_claims_no_fix() {
    let packages = vec![extracted(Ecosystem::Npm, "lodash", "4.17.15")];
    let report = online_report("/p", &index(), &packages, &vec![]);
    assert_eq!(report.findings[0].fix, Fix::Clears("4.17.21".into()));
    assert_eq!(report.source, Source::Api { checked: 1 });
    let key = PackageKey::new(Ecosystem::Npm, "lodash");
    let report = online_report("/p", &index(), &packages, &vec![key]);
    assert_eq!(report.findings[0].fix, Fix::Absent);
}

#[test]
fn a_failed_question_falls_back_on_the_archives() {
    let (report, download) = after_online(Ok(Report::new("/p", vec![])));
    assert!(report.is_ok() && !download);
    let failed = ScanError::Api(package_checker::api::ApiError::Query("timed out".to_owned()));
    let (report, download) = after_online(Err(failed));
    assert_eq!(report.err(), Some(ScanError::NotReady));
    assert!(download);
}
