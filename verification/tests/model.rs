use package_checker::model::{
    Advisory, Ecosystem, Finding, Fix, Package, PackageKey, Position, Range, Report, Severity,
    Site,
};
use package_checker::span::{self, Encoding, LineIndex};
use package_checker::version::ParseError;

fn advisory(id: &str, score: u16) -> Advisory {
    Advisory {
        id: id.into(),
        aliases: vec![],
        summary: String::new(),
        cvss_score: score,
        cvss_vector: String::new(),
        affected: vec![],
        references: vec![],
    }
}

fn chain(names: &[&str]) -> Vec<PackageKey> {
    names.iter().map(|n| PackageKey::new(Ecosystem::Npm, n)).collect()
}

fn finding(paths: Vec<Vec<PackageKey>>) -> Finding {
    Finding {
        package: Package::new(Ecosystem::Npm, "lodash", "1.0.0"),
        advisories: vec![advisory("GHSA-1", 50)],
        evidence: Site::new("/p/package-lock.json", Range::whole_line(3)),
        declared: Some(Site::new("/p/package.json", Range::whole_line(1))),
        paths,
        from_range: false,
        dep_groups: vec![],
        fix: Fix::Absent,
    }
}

#[test]
fn a_score_falls_in_a_band() {
    for (tenths, want) in [
        (0, Severity::Unknown),
        (1, Severity::Low),
        (39, Severity::Low),
        (40, Severity::Medium),
        (69, Severity::Medium),
        (70, Severity::High),
        (89, Severity::High),
        (90, Severity::Critical),
        (100, Severity::Critical),
    ] {
        assert_eq!(Severity::of_score(tenths), want, "{tenths}");
    }
    assert!(Severity::Low < Severity::Critical);
}

#[test]
fn malware_is_critical_without_a_score() {
    let mut a = advisory("MAL-2024-1", 0);
    assert!(a.malicious());
    assert_eq!(a.severity(), Severity::Critical);
    a.id = "GHSA-1".into();
    assert!(!a.malicious());
    a.aliases = vec!["CVE-1".into(), "MAL-2024-2".into()];
    assert!(a.malicious());
}

#[test]
fn an_advisory_links_to_what_it_cites() {
    let mut a = advisory("GHSA-1", 0);
    assert_eq!(a.url(), "https://osv.dev/vulnerability/GHSA-1");
    a.references = vec!["https://example.com/a".into(), "https://example.com/b".into()];
    assert_eq!(a.url(), "https://example.com/a");
}

#[test]
fn a_finding_is_direct_where_its_shortest_chain_is_itself() {
    assert!(finding(vec![]).direct());
    assert!(!finding(vec![chain(&["a", "lodash"])]).direct());
    let f = finding(vec![chain(&["a", "b", "lodash"]), chain(&["c", "lodash"])]);
    assert_eq!(f.shortest_path(), Some(&chain(&["c", "lodash"])));
}

#[test]
fn a_report_groups_by_the_file_a_finding_is_shown_in() {
    let report = Report::new("/p", vec![finding(vec![]), finding(vec![])]);
    let files = report.by_file();
    assert_eq!(files.len(), 1);
    assert_eq!(files[0].path, "/p/package.json");
    assert_eq!(files[0].findings.len(), 2);
}

#[test]
fn an_offset_has_a_line_and_a_byte_column() {
    let lines = LineIndex::new("a\u{e9}\nbc");
    assert_eq!(lines.position(0), Position { line: 0, column: 0 });
    assert_eq!(lines.position(3), Position { line: 0, column: 3 });
    assert_eq!(lines.position(5), Position { line: 1, column: 1 });
    assert_eq!(lines.range(4, 6), Range::on_line(1, 0, 2));
}

#[test]
fn a_column_is_counted_in_the_negotiated_units() {
    let line = "a\u{1f980}\u{e9}b";
    assert_eq!(span::column(line, 7, Encoding::Utf8), 7);
    assert_eq!(span::column(line, 5, Encoding::Utf16), 3);
    assert_eq!(span::column(line, 7, Encoding::Utf16), 4);
}

#[test]
fn a_whole_line_is_named_from_one() {
    assert_eq!(Range::whole_line(5).start, Position { line: 4, column: 0 });
    assert_eq!(Range::whole_line(0).start, Position { line: 0, column: 0 });
}

#[test]
fn a_version_that_cannot_be_read_is_named() {
    let e = ParseError { version: "x".into(), ecosystem: Ecosystem::Npm };
    assert_eq!(e.describe(), "parse npm version \"x\"");
}

#[test]
fn a_position_names_one_offset() {
    let text = "ab\n\ncd\n";
    let lines = LineIndex::new(text);
    for i in 0..=text.len() {
        for j in 0..=text.len() {
            assert_eq!(lines.position(i) == lines.position(j), i == j, "{i} {j}");
        }
    }
}

#[test]
fn a_file_that_is_spelled_in_two_ways_is_one() {
    let mut other = finding(vec![]);
    other.declared = Some(Site::new("/p/./package.json", Range::whole_line(2)));
    let files = Report::new("/p", vec![finding(vec![]), other]).by_file();
    assert_eq!(files.len(), 1);
    assert_eq!(files[0].path, "/p/package.json");
    assert_eq!(files[0].findings.len(), 2);
}
