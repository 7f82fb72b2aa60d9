use package_checker::action::{selects, title, upgrades, Asking, Sent, Upgrade};
use package_checker::config::NAME;
use package_checker::manifest::npm::package_json;
use package_checker::model::{Advisory, Ecosystem, Finding, Fix, Package, Position, Range, Site};
use package_checker::span::Encoding;

const MANIFEST: &str = "{\n  \"dependencies\": {\n    \"lodash\": \"^4.17.0\"\n  },\n  \"devDependencies\": {\n    \"left-pad\": \"1.0.0\"\n  }\n}\n";

/// The finding for a package in [`MANIFEST`], anchored where the parser puts it.
fn finding(name: &str, fix: Fix) -> Finding {
    let sighting = package_json(MANIFEST, "/p/package.json")
        .into_iter()
        .find(|s| s.package.name() == name)
        .expect("sample names it");
    Finding {
        package: Package::new(Ecosystem::Npm, name, "4.17.15"),
        advisories: vec![Advisory {
            id: "GHSA-1".into(),
            aliases: vec![],
            summary: String::new(),
            cvss_score: 72,
            cvss_vector: String::new(),
            affected: vec![],
            references: vec![],
        }],
        evidence: sighting.evidence,
        declared: None,
        paths: Vec::new(),
        from_range: true,
        dep_groups: Vec::new(),
        fix,
    }
}

/// A request naming our diagnostic, which is how a real client asks.
fn params(finding: &Finding) -> Asking {
    let anchor = finding.anchor_site().range;
    Asking {
        first_line: anchor.start.line,
        last_line: anchor.end.line,
        diagnostics: vec![Sent {
            source: Some(NAME.to_owned()),
            code: Some("GHSA-1".to_owned()),
        }],
    }
}

/// An edit applied to the source it was computed from.
fn applied(source: &str, action: &Upgrade) -> String {
    let mut out = source.to_owned();
    // Byte columns, since the tests negotiate UTF-8.
    let offset = |p: Position| {
        source.split_inclusive('\n').take(p.line as usize).map(str::len).sum::<usize>()
            + p.column as usize
    };
    out.replace_range(offset(action.range.start)..offset(action.range.end), &action.new_text);
    out
}

fn act(source: &str, finding: &Finding, asking: &Asking) -> Vec<Upgrade> {
    upgrades("/p/package.json", source, Some(7), &vec![finding.clone()], asking, Encoding::Utf8)
}

#[test]
fn the_edit_bumps_the_version_and_leaves_the_operator_alone() {
    let f = finding("lodash", Fix::Clears("4.18.0".into()));
    let actions = act(MANIFEST, &f, &params(&f));
    assert_eq!(actions.len(), 1);
    assert_eq!(applied(MANIFEST, &actions[0]), MANIFEST.replace("^4.17.0", "^4.18.0"));
}

#[test]
fn the_edited_manifest_reparses_at_the_new_version() {
    let f = finding("lodash", Fix::Clears("4.18.0".into()));
    let actions = act(MANIFEST, &f, &params(&f));
    let after = applied(MANIFEST, &actions[0]);
    let reparsed = package_json(&after, "/p/package.json");
    let lodash = reparsed.iter().find(|s| s.package.name() == "lodash").expect("still declared");
    assert_eq!(&*lodash.package.version, "4.18.0");
    // Nothing else moved.
    let left_pad =
        reparsed.iter().find(|s| s.package.name() == "left-pad").expect("still declared");
    assert_eq!(&*left_pad.package.version, "1.0.0");
}

#[test]
fn the_edit_names_the_document_version_it_was_computed_against() {
    let f = finding("lodash", Fix::Clears("4.18.0".into()));
    let actions = act(MANIFEST, &f, &params(&f));
    assert_eq!(actions[0].document_version, Some(7));
}

#[test]
fn a_finding_with_no_verified_fix_offers_nothing() {
    for fix in [Fix::Partial, Fix::Absent] {
        let f = finding("lodash", fix);
        assert!(act(MANIFEST, &f, &params(&f)).is_empty());
    }
}

#[test]
fn a_lockfile_anchor_offers_nothing_because_it_is_never_rewritten() {
    let mut f = finding("lodash", Fix::Clears("4.18.0".into()));
    f.evidence = Site::new("/p/package-lock.json", Range::whole_line(9));
    f.declared = None;
    let lock = "{\n  \"lockfileVersion\": 3,\n  \"packages\": {\n    \"node_modules/lodash\": {\n      \"version\": \"4.17.15\"\n    }\n  }\n}\n";
    let actions = upgrades(
        "/p/package-lock.json",
        lock,
        None,
        &vec![f.clone()],
        &params(&f),
        Encoding::Utf8,
    );
    assert!(actions.is_empty());
}

#[test]
fn a_lockfile_resolved_finding_edits_the_manifest_and_says_the_lockfile_is_stale() {
    let mut f = finding("lodash", Fix::Clears("4.18.0".into()));
    let declared = f.evidence.clone();
    f.evidence = Site::new("/p/package-lock.json", Range::whole_line(9));
    f.declared = Some(declared);

    let actions = act(MANIFEST, &f, &params(&f));
    assert_eq!(
        actions[0].title,
        "Update lodash to 4.18.0 in package.json (lockfile not updated)"
    );
    assert_eq!(applied(MANIFEST, &actions[0]), MANIFEST.replace("^4.17.0", "^4.18.0"));
}

#[test]
fn a_dirty_buffer_is_edited_where_it_now_says_the_version() {
    let f = finding("lodash", Fix::Clears("4.18.0".into()));
    let edited = format!("\n{MANIFEST}");
    let actions = act(&edited, &f, &params(&f));
    assert_eq!(actions.len(), 1);
    assert_eq!(applied(&edited, &actions[0]), edited.replace("^4.17.0", "^4.18.0"));
}

#[test]
fn a_name_in_two_sections_is_only_edited_where_it_ships() {
    let src = "{\n  \"dependencies\": {\n    \"lodash\": \"4.17.15\"\n  },\n  \"devDependencies\": {\n    \"lodash\": \"3.0.0\"\n  }\n}\n";
    let sightings = package_json(src, "/p/package.json");
    assert_eq!(sightings.len(), 1);

    let mut f = finding("lodash", Fix::Clears("4.18.0".into()));
    f.evidence = sightings[0].evidence.clone();
    let actions = act(src, &f, &params(&f));
    assert_eq!(applied(src, &actions[0]), src.replace("4.17.15", "4.18.0"));
}

#[test]
fn an_unmatched_diagnostic_offers_nothing() {
    let f = finding("lodash", Fix::Clears("4.18.0".into()));
    let mut p = params(&f);
    p.diagnostics[0].code = Some("GHSA-other".to_owned());
    assert!(act(MANIFEST, &f, &p).is_empty());
}

#[test]
fn positions_use_the_negotiated_encoding() {
    let src = "{\n  \"dependencies\": {\n    \"l\u{1F980}dash\": \"1.0.0\"\n  }\n}\n";
    let sightings = package_json(src, "/p/package.json");
    let name = sightings[0].package.name().to_string();
    let mut f = finding("lodash", Fix::Clears("4.18.0".into()));
    f.package = Package::new(Ecosystem::Npm, name.as_str(), "1.0.0");
    f.evidence = sightings[0].evidence.clone();

    for encoding in [Encoding::Utf8, Encoding::Utf16] {
        let actions =
            upgrades("/p/package.json", src, None, &vec![f.clone()], &params(&f), encoding);
        assert_eq!(actions[0].document_version, None);
        let expected = match encoding {
            Encoding::Utf8 => 18,
            Encoding::Utf16 => 16,
        };
        assert_eq!(actions[0].range.start.column, expected, "{encoding:?}");
    }
}

#[test]
fn without_a_diagnostic_of_ours_the_selected_lines_decide() {
    let f = finding("lodash", Fix::Clears("4.18.0".into()));
    let line = f.anchor_site().range.start.line;
    let on = Asking { first_line: line, last_line: line, diagnostics: vec![] };
    assert_eq!(selects(&on, &f), Some(None));
    let off = Asking { first_line: line + 1, last_line: line + 2, diagnostics: vec![] };
    assert_eq!(selects(&off, &f), None);
    assert_eq!(selects(&params(&f), &f), Some(Some(0)));
}

#[test]
fn the_title_names_the_package_and_the_version() {
    let f = finding("lodash", Fix::Clears("4.18.0".into()));
    assert_eq!(title(&f, "4.18.0", "/p/package.json"), "Update lodash to 4.18.0");
}
