use package_checker::engine::{Effect, Engine, Event, Reason, DEFAULT_DEBOUNCE};
use package_checker::model::{
    Advisory, Ecosystem, Finding, Fix, Package, Range, Report, Site,
};

fn finding(path: &str) -> Finding {
    Finding {
        package: Package::new(Ecosystem::Npm, "lodash", "4.17.15"),
        advisories: vec![Advisory {
            id: "GHSA-1".into(),
            aliases: vec![],
            summary: String::new(),
            cvss_score: 72,
            cvss_vector: String::new(),
            affected: vec![],
            references: vec![],
        }],
        evidence: Site::new(path, Range::whole_line(1)),
        declared: None,
        paths: vec![],
        from_range: false,
        dep_groups: vec![],
        fix: Fix::Absent,
    }
}

/// How a scan ends, given its number.
type End<'a> = &'a dyn Fn(u64) -> Event;

fn report(scan: u64, paths: &[&str]) -> Event {
    Event::Reported(scan, Report::new("/project", paths.iter().map(|p| finding(p)).collect()))
}

/// What was published: each file, and how many findings.
fn published(effects: &[Effect]) -> Vec<(String, usize)> {
    effects
        .iter()
        .filter_map(|e| match e {
            Effect::Publish(f) => Some((f.path.clone(), f.findings.len())),
            _ => None,
        })
        .collect()
}

fn notices(effects: &[Effect]) -> Vec<String> {
    effects
        .iter()
        .filter_map(|e| match e {
            Effect::Notice(m) => Some(m.clone()),
            _ => None,
        })
        .collect()
}

/// The numbers of the scans that were started.
fn started(effects: &[Effect]) -> Vec<u64> {
    effects
        .iter()
        .filter_map(|e| match e {
            Effect::Scan(scan) => Some(*scan),
            _ => None,
        })
        .collect()
}

fn scans(effects: &[Effect]) -> usize {
    started(effects).len()
}

/// A scan that is asked for, runs, and ends with an event.
fn scan(engine: &mut Engine, end: End) -> Vec<Effect> {
    let mut effects = engine.step(Event::Requested(Reason::Startup));
    effects.extend(engine.step(Event::Elapsed));
    let number = started(&effects)[0];
    effects.extend(engine.step(end(number)));
    effects
}

#[test]
fn many_requests_inside_the_window_cause_one_scan() {
    let mut engine = Engine::new();
    let mut effects = Vec::new();
    for _ in 0..40 {
        effects.extend(engine.step(Event::Requested(Reason::FileChanged)));
    }
    assert_eq!(scans(&effects), 0);
    effects.extend(engine.step(Event::Elapsed));
    assert_eq!(scans(&effects), 1);
}

#[test]
fn a_report_is_published_per_file() {
    let mut engine = Engine::new();
    let effects = scan(&mut engine, &|n| report(n, &["/project/package.json", "/project/go.mod"]));
    let published = published(&effects);
    assert_eq!(published.len(), 2);
    assert!(published.iter().all(|(_, n)| *n == 1));
}

#[test]
fn a_file_that_becomes_clean_is_published_empty() {
    let mut engine = Engine::new();
    scan(&mut engine, &|n| report(n, &["/project/package.json"]));
    let effects = scan(&mut engine, &|n| report(n, &[]));
    assert_eq!(
        published(&effects).last(),
        Some(&("/project/package.json".to_owned(), 0)),
        "the last publish must clear the file"
    );
}

#[test]
fn a_deleted_manifest_is_cleared_without_waiting_for_a_scan() {
    let mut engine = Engine::new();
    scan(&mut engine, &|n| report(n, &["/project/package.json"]));
    let effects = engine.step(Event::Cleared("/project/package.json".to_owned()));
    assert_eq!(published(&effects), [("/project/package.json".to_owned(), 0)]);
}

#[test]
fn findings_are_readable_without_rescanning() {
    let mut engine = Engine::new();
    scan(&mut engine, &|n| report(n, &["/project/package.json"]));
    assert_eq!(engine.findings("/project/package.json").len(), 1);
    assert!(engine.findings("/project/go.mod").is_empty());
}

#[test]
fn a_superseded_scan_never_publishes() {
    let mut engine = Engine::new();
    engine.step(Event::Requested(Reason::Startup));
    engine.step(Event::Elapsed);
    // The first scan is running when it is superseded.
    let effects = engine.step(Event::Requested(Reason::FileChanged));
    assert!(effects.iter().any(|e| matches!(e, Effect::Abort)), "{effects:?}");
    let effects = engine.step(Event::Elapsed);
    assert_eq!(scans(&effects), 1);
    let winner = started(&effects)[0];
    let effects = engine.step(report(winner, &["/project/package.json"]));
    assert_eq!(published(&effects).len(), 1, "only the winning scan publishes");
}

#[test]
fn a_report_that_comes_after_its_scan_was_superseded_is_dropped() {
    let mut engine = Engine::new();
    engine.step(Event::Requested(Reason::Startup));
    let loser = started(&engine.step(Event::Elapsed))[0];
    engine.step(Event::Requested(Reason::FileChanged));
    assert!(engine.step(report(loser, &["/project/old.json"])).is_empty());
    let winner = started(&engine.step(Event::Elapsed))[0];
    assert_ne!(winner, loser);
    assert!(engine.step(report(loser, &["/project/old.json"])).is_empty());
    assert!(engine.step(Event::Failed(loser, "late".to_owned())).is_empty());
    assert!(engine.step(Event::Lost(loser)).is_empty());
    assert!(engine.findings("/project/old.json").is_empty());
    let effects = engine.step(report(winner, &["/project/package.json"]));
    assert_eq!(published(&effects), [("/project/package.json".to_owned(), 1)]);
}

#[test]
fn a_failed_scan_keeps_the_previous_diagnostics() {
    let mut engine = Engine::new();
    scan(&mut engine, &|n| report(n, &["/project/package.json"]));
    let effects = scan(&mut engine, &|n| Event::Failed(n, "no database".to_owned()));
    assert_eq!(scans(&effects), 1, "the failing scan ran");
    assert!(published(&effects).is_empty(), "a failed scan published something");
    assert_eq!(
        engine.findings("/project/package.json").len(),
        1,
        "findings were dropped on failure"
    );
}

#[test]
fn each_condition_is_said_once() {
    let mut engine = Engine::new();
    let asked = |n| Event::Reported(n, Report::new("/project", vec![]).from_api(2));
    let first = notices(&scan(&mut engine, &asked));
    assert_eq!(
        first,
        ["Checked 2 dependencies against osv.dev — names and versions only. Set online.enabled to false to use the offline database instead."]
    );
    assert!(notices(&scan(&mut engine, &asked)).is_empty());

    let missing = |n| {
        Event::Reported(
            n,
            Report::new("/project", vec![]).missing(vec![Ecosystem::Go, Ecosystem::PyPI]),
        )
    };
    let first = notices(&scan(&mut engine, &missing));
    assert_eq!(first.len(), 1);
    assert!(first[0].starts_with("Not checked yet: Go, PyPI"), "{}", first[0]);
    assert!(notices(&scan(&mut engine, &missing)).is_empty());
}

#[test]
fn every_reason_has_a_name() {
    assert_eq!(Reason::Startup.as_str(), "startup");
    assert_eq!(Reason::FileSaved.as_str(), "file saved");
    assert!(DEFAULT_DEBOUNCE > 0);
}

#[test]
fn a_history_shows_its_last_report() {
    let mut engine = Engine::new();
    scan(&mut engine, &|n| report(n, &["/project/package.json", "/project/go.mod"]));
    scan(&mut engine, &|n| Event::Failed(n, "no database".to_owned()));
    scan(&mut engine, &Event::Lost);
    engine.step(Event::Cleared("/project/./go.mod".to_owned()));
    assert_eq!(engine.findings("/project//package.json").len(), 1);
    assert!(engine.findings("/project/go.mod").is_empty());
}
