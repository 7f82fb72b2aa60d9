use package_checker::diagnostics::{
    describe, finding_diagnostic, for_file, message_for, pulled_in_by, reencode, severity_for,
    summary, summary_anchor_line, Data, Level,
};
use package_checker::model::{
    Advisory, Ecosystem, Finding, Fix, Package, PackageKey, Position, Range, Severity, Site,
    DEV_GROUP,
};
use package_checker::span::Encoding;

const FIX_KEY: &str = "Ctrl+.";

fn advisory(id: &str, score: f64) -> Advisory {
    Advisory {
        id: id.into(),
        aliases: vec![],
        summary: String::new(),
        cvss_score: (score * 10.0).round() as u16,
        cvss_vector: String::new(),
        affected: vec![],
        references: vec![],
    }
}

/// One npm finding on `lodash`, with everything optional left off.
fn finding() -> Finding {
    Finding {
        package: Package::new(Ecosystem::Npm, "lodash", "4.17.15"),
        advisories: vec![advisory("GHSA-1", 7.2)],
        evidence: Site::new("/p/package.json", Range::whole_line(1)),
        declared: None,
        paths: Vec::new(),
        from_range: false,
        dep_groups: Vec::new(),
        fix: Fix::Absent,
    }
}

/// The same, resolved in a lockfile and anchored on the manifest.
fn lockfile_resolved() -> Finding {
    Finding {
        evidence: Site::new("/p/package-lock.json", Range::whole_line(9)),
        declared: Some(Site::new("/p/package.json", Range::whole_line(1))),
        ..finding()
    }
}

/// A finding reached through `chain`, which ends with the package itself,
/// anchored on the direct dependency's line in the manifest.
fn transitive(chain: &[&str]) -> Finding {
    let package = Package::new(Ecosystem::Npm, chain[chain.len() - 1], "1.2.0");
    Finding {
        package,
        paths: vec![chain.iter().map(|name| PackageKey::new(Ecosystem::Npm, name)).collect()],
        ..lockfile_resolved()
    }
}

fn with(name: &str, score: f64, line: u32) -> Finding {
    Finding {
        package: Package::new(Ecosystem::Npm, name, "1.0.0"),
        advisories: vec![advisory("GHSA-1", score)],
        evidence: Site::new("/p/package.json", Range::whole_line(line)),
        ..finding()
    }
}

fn message(f: &Finding, fixable: bool) -> String {
    message_for(f, fixable, FIX_KEY)
}

// ---- messages ----

#[test]
fn a_verified_fix_is_named() {
    let f = Finding { fix: Fix::Clears("4.18.0".into()), ..finding() };
    assert!(message(&f, false).ends_with(". Fixed in 4.18.0"), "{}", message(&f, false));
}

#[test]
fn no_clearing_version_is_said_rather_than_guessed() {
    let one = Finding { fix: Fix::Partial, ..finding() };
    let text = message(&one, false);
    assert!(text.contains(". No published version clears it"), "{text}");
    assert!(!text.contains("Fixed in"), "{text}");

    let several = Finding {
        fix: Fix::Partial,
        advisories: vec![advisory("GHSA-1", 7.2), advisory("GHSA-2", 5.0)],
        ..finding()
    };
    let text = message(&several, false);
    assert!(text.contains(". No single version clears all of them"), "{text}");
}

#[test]
fn an_unfixed_finding_says_nothing_about_a_fix() {
    let text = message(&finding(), false);
    assert!(!text.contains("Fixed in"), "{text}");
    assert!(!text.contains("clears"), "{text}");
}

#[test]
fn the_go_toolchain_names_a_verified_fix() {
    let f = Finding {
        package: Package::new(Ecosystem::Go, "stdlib", "1.21"),
        advisories: vec![advisory("GO-1", 0.0), advisory("GO-2", 0.0)],
        fix: Fix::Clears("1.25.13".into()),
        ..finding()
    };
    assert!(message(&f, false).contains(". Fixed in 1.25.13"));
}

#[test]
fn a_lockfile_resolved_finding_says_the_manifest_is_not_enough() {
    let text = message(&lockfile_resolved(), false);
    assert!(
        text.contains(
            ". Version comes from the lockfile, so editing this file alone will not clear it"
        ),
        "{text}"
    );
}

#[test]
fn a_manifest_only_finding_does_not() {
    assert!(!message(&finding(), false).contains("lockfile"));
    let ranged = Finding { from_range: true, ..finding() };
    assert!(!message(&ranged, false).contains("lockfile"));
}

#[test]
fn the_lockfile_clause_and_the_related_link_agree_for_a_direct_finding() {
    for f in [finding(), lockfile_resolved()] {
        let says = message(&f, false).contains("lockfile");
        let links = finding_diagnostic(&f, None, FIX_KEY)
            .expect("a finding with advisories renders")
            .related
            .is_some();
        assert_eq!(says, links, "{}", message(&f, false));
    }
}

#[test]
fn a_transitive_finding_never_claims_the_line_holds_its_version() {
    let text = message(&transitive(&["mkdirp", "minimist"]), false);
    assert!(!text.contains("lockfile"), "{text}");
    assert!(text.contains("Pulled in by mkdirp"), "{text}");
}

#[test]
fn a_deeper_chain_names_every_hop() {
    let text = message(&transitive(&["mkdirp", "minipass", "minimist"]), false);
    assert!(text.contains("Pulled in by mkdirp → minipass"), "{text}");
}

#[test]
fn a_very_deep_chain_is_elided_rather_than_read_out() {
    let text = message(&transitive(&["a", "b", "c", "d", "e", "target"]), false);
    assert!(text.contains("Pulled in by a → b → c → d → …"), "{text}");
}

#[test]
fn other_ways_in_are_counted_rather_than_listed() {
    let mut f = transitive(&["express", "body-parser", "qs"]);
    f.paths.push(vec![
        PackageKey::new(Ecosystem::Npm, "other"),
        PackageKey::new(Ecosystem::Npm, "qs"),
    ]);
    let text = message(&f, false);
    assert!(text.contains("and 1 other path"), "{text}");
}

#[test]
fn a_direct_finding_is_told_nothing_about_a_chain() {
    assert!(!message(&finding(), false).contains("Pulled in by"));
    assert_eq!(pulled_in_by(&finding()), None);
}

#[test]
fn a_transitive_finding_still_links_to_where_it_resolved() {
    let d = finding_diagnostic(&transitive(&["mkdirp", "minimist"]), None, FIX_KEY)
        .expect("a finding with advisories renders");
    assert!(d.related.is_some());
}

// ---- spans ----

/// `"lodash"` sits at columns 5..11 of line 2, its version at 16..22.
const MANIFEST: &str = "{\n  \"dependencies\": {\n    \"lodash\": \"^4.17.0\"\n  }\n}\n";

/// The text that one finding's diagnostic underlines.
fn underlined(finding: Finding) -> String {
    let rendered =
        for_file("/p/package.json", &vec![finding], Some(MANIFEST), Encoding::Utf8, FIX_KEY);
    let diagnostic =
        rendered.iter().find(|d| d.code != "summary").expect("the finding renders");
    let line = MANIFEST
        .lines()
        .nth(diagnostic.range.start.line as usize)
        .expect("the span names a line that exists");
    line[diagnostic.range.start.column as usize..diagnostic.range.end.column as usize].to_owned()
}

/// A finding anchored on `lodash`'s name, as the parser reports it.
fn on_lodash() -> Site {
    Site::new("/p/package.json", Range::on_line(2, 5, 11))
}

#[test]
fn a_direct_finding_underlines_the_version() {
    assert_eq!(
        underlined(Finding { evidence: on_lodash(), declared: None, ..finding() }),
        "4.17.0"
    );
}

#[test]
fn the_operator_is_left_outside_the_span() {
    assert!(
        !underlined(Finding { evidence: on_lodash(), declared: None, ..finding() }).contains('^')
    );
}

#[test]
fn replacing_the_underlined_text_is_what_the_quick_fix_does() {
    let text = underlined(Finding { evidence: on_lodash(), declared: None, ..finding() });
    let updated = MANIFEST.replacen(&text, "4.18.0", 1);
    assert!(updated.contains("\"^4.18.0\""), "{updated}");
}

#[test]
fn a_transitive_finding_underlines_the_dependency_that_reaches_it() {
    assert_eq!(
        underlined(Finding {
            declared: Some(on_lodash()),
            evidence: Site::new("/p/package-lock.json", Range::whole_line(9)),
            ..transitive(&["lodash", "minimist"])
        }),
        "lodash"
    );
}

#[test]
fn a_transitive_finding_points_at_the_lockfile_line_it_resolved_on() {
    let finding = Finding {
        declared: Some(on_lodash()),
        evidence: Site::new("/p/package-lock.json", Range::whole_line(9)),
        ..transitive(&["lodash", "minimist"])
    };
    let rendered =
        for_file("/p/package.json", &vec![finding], Some(MANIFEST), Encoding::Utf8, FIX_KEY);
    let linked = rendered
        .iter()
        .find_map(|d| d.related.as_ref())
        .expect("a transitive finding links to its lockfile line");
    assert!(linked.path.ends_with("package-lock.json"), "{:?}", linked.path);
    assert_eq!(linked.range.start.line, 8, "the lockfile line");
}

#[test]
fn a_summary_says_how_many_are_transitive() {
    let findings = vec![
        Finding { evidence: Site::new("/p/package.json", Range::whole_line(3)), ..finding() },
        transitive(&["lodash", "minimist"]),
    ];
    let rendered =
        summary("/p/package.json", &findings, Some(MANIFEST)).expect("two findings summarise");
    assert!(rendered.message.contains("1 of them transitive"), "{}", rendered.message);
}

#[test]
fn a_fixable_finding_says_which_key_applies_it() {
    let f = Finding { fix: Fix::Clears("4.18.0".into()), ..finding() };
    let text = message(&f, true);
    assert!(text.ends_with(&format!(". Press {FIX_KEY} to update to 4.18.0")), "{text}");
    assert!(text.contains(". Fixed in 4.18.0"), "{text}");
}

#[test]
fn a_finding_with_nowhere_to_write_the_version_promises_nothing() {
    let f = Finding { fix: Fix::Clears("4.18.0".into()), ..finding() };
    let text = message(&f, false);
    assert!(!text.contains("Press"), "{text}");
    assert!(text.contains(". Fixed in 4.18.0"), "{text}");
}

#[test]
fn no_verified_fix_means_no_instruction_even_where_the_version_is_writable() {
    for fix in [Fix::Partial, Fix::Absent] {
        let f = Finding { fix, ..finding() };
        let text = message(&f, true);
        assert!(!text.contains("Press"), "{text}");
    }
}

#[test]
fn a_message_reads_as_one_sentence_after_another() {
    assert_eq!(message(&finding(), false), "npm:lodash@4.17.15 — High (CVSS 7.2)");
    let many = Finding {
        advisories: vec![advisory("GHSA-1", 7.2); 6],
        fix: Fix::Clears("4.17.21".into()),
        ..finding()
    };
    assert_eq!(
        message(&many, false),
        "npm:lodash@4.17.15 — 6 advisories, worst High (CVSS 7.2). Fixed in 4.17.21"
    );
}

// ---- severity ----

#[test]
fn a_malicious_finding_is_never_demoted() {
    let f = Finding {
        advisories: vec![advisory("MAL-2024-1", 0.0)],
        dep_groups: vec![DEV_GROUP.to_owned()],
        ..finding()
    };
    assert!(message(&f, false).starts_with("MALICIOUS: "));
    assert_eq!(severity_for(&f), Level::Error);
}

#[test]
fn a_development_dependency_is_demoted_and_labelled() {
    let f = Finding { dep_groups: vec![DEV_GROUP.to_owned()], ..finding() };
    assert!(message(&f, false).ends_with(". Development dependency"));
    assert_ne!(severity_for(&f), severity_for(&finding()));
}

#[test]
fn severity_follows_the_score_and_dev_demotes_one_step() {
    let cases: &[(&str, f64, bool, Level)] = &[
        ("critical is an error", 9.8, false, Level::Error),
        ("high is an error", 7.5, false, Level::Error),
        ("medium is a warning", 5.0, false, Level::Warning),
        ("low is a warning", 2.0, false, Level::Warning),
        ("unscored is a warning", 0.0, false, Level::Warning),
        ("a dev dependency is demoted", 9.8, true, Level::Warning),
        ("a low dev dependency is demoted further", 2.0, true, Level::Information),
    ];
    for (name, score, dev, want) in cases {
        let f = Finding {
            advisories: vec![advisory("GHSA-1", *score)],
            dep_groups: if *dev { vec![DEV_GROUP.to_owned()] } else { Vec::new() },
            ..finding()
        };
        assert_eq!(severity_for(&f), *want, "{name}");
    }
}

#[test]
fn a_score_is_shown_where_there_is_one() {
    assert_eq!(describe(Severity::Critical, 98), "Critical (CVSS 9.8)");
    assert_eq!(describe(Severity::Unknown, 0), "Unknown");
}

// ---- the summary ----

#[test]
fn the_summary_anchors_on_a_line_the_manifest_must_have() {
    let source = "{\n  \"name\": \"x\",\n  \"dependencies\": {}\n}\n";
    assert_eq!(summary_anchor_line("/p/package.json", Some(source)), 2);
    // With nothing to read, line 1 is the honest fallback.
    assert_eq!(summary_anchor_line("/p/package.json", None), 1);
}

#[test]
fn a_summary_leads_when_more_than_one_thing_is_wrong() {
    let findings = vec![with("a", 9.8, 3), with("b", 7.5, 4), with("c", 5.0, 5)];
    let diagnostics = for_file("/p/package.json", &findings, None, Encoding::Utf8, FIX_KEY);
    assert_eq!(diagnostics.len(), 4, "three findings plus a summary");

    let summary = &diagnostics[0];
    assert_eq!(summary.code, "summary");
    for want in ["3 vulnerable dependencies", "1 critical", "1 high", "1 medium"] {
        assert!(summary.message.contains(want), "{:?} lacks {want}", summary.message);
    }
    // Nothing to read at that path, so the first line is the anchor.
    assert_eq!(summary.range.start.line, 0);
    assert!(matches!(summary.data, Data::Summary { .. }));
}

#[test]
fn one_finding_is_its_own_summary() {
    let diagnostics =
        for_file("/p/package.json", &vec![with("a", 9.8, 3)], None, Encoding::Utf8, FIX_KEY);
    assert_eq!(diagnostics.len(), 1);
    assert_ne!(diagnostics[0].code, "summary");
}

// ---- what a diagnostic carries ----

fn fixed_version(f: &Finding) -> Option<String> {
    match finding_diagnostic(f, None, FIX_KEY).expect("a finding with advisories renders").data {
        Data::Finding { fixed_version, .. } => fixed_version,
        Data::Summary { .. } => panic!("expected a finding"),
    }
}

#[test]
fn fixed_version_is_omitted_rather_than_null() {
    for fix in [Fix::Absent, Fix::Partial] {
        assert_eq!(fixed_version(&Finding { fix, ..finding() }), None);
    }
    assert_eq!(
        fixed_version(&Finding { fix: Fix::Clears("4.18.0".into()), ..finding() }),
        Some("4.18.0".to_owned())
    );
}

#[test]
fn a_lockfile_resolved_finding_sits_on_the_manifest_line() {
    let f = Finding {
        declared: Some(Site::new("/p/package.json", Range::whole_line(5))),
        ..lockfile_resolved()
    };
    let d = finding_diagnostic(&f, None, FIX_KEY).expect("a finding with advisories renders");
    assert_eq!(d.range.start.line, 4, "want the manifest line");
    let related = d.related.expect("a link to the lockfile");
    assert!(related.path.ends_with("/p/package-lock.json"));
}

#[test]
fn finding_data_round_trips_what_a_code_action_needs() {
    let fixed = Finding { fix: Fix::Clears("9.9.9".into()), ..finding() };
    let d = finding_diagnostic(&fixed, Some(Range::on_line(3, 4, 11)), FIX_KEY)
        .expect("a finding with advisories renders");
    let Data::Finding { ecosystem, name, version, advisories, direct, fixed_version: fix } = d.data
    else {
        panic!("expected a finding");
    };
    assert_eq!(ecosystem, "npm");
    assert_eq!(name, "lodash");
    assert_eq!(version, "4.17.15");
    assert_eq!(fix, Some("9.9.9".to_owned()));
    assert!(direct);
    assert_eq!(advisories, ["GHSA-1"]);

    assert_eq!(fixed_version(&finding()), None);
}

#[test]
fn a_range_is_counted_in_the_units_of_the_client() {
    let lines = vec!["a\u{1f980}b".to_owned()];
    let bytes = Range::on_line(0, 5, 6);
    assert_eq!(reencode(bytes, &lines, Encoding::Utf16), Range::on_line(0, 3, 4));
    assert_eq!(reencode(bytes, &lines, Encoding::Utf8), bytes);
    let past = Range {
        start: Position { line: 7, column: 1 },
        end: Position { line: 7, column: 2 },
    };
    assert_eq!(reencode(past, &lines, Encoding::Utf16), past);
}
