use package_checker::index::Index;
use package_checker::matcher::Matcher;
use package_checker::model::{
    Advisory, Affected, AffectedRange, Ecosystem, ExtractedPackage, Fix, Package, PackageKey,
    Range, Severity, Site, DEV_GROUP,
};

fn advisory(id: &str, score: f64, affected: Vec<Affected>) -> Advisory {
    Advisory {
        id: id.into(),
        aliases: vec![],
        summary: String::new(),
        cvss_score: (score * 10.0).round() as u16,
        cvss_vector: String::new(),
        affected,
        references: vec![],
    }
}

fn npm(name: &str, ranges: Vec<AffectedRange>, versions: Vec<&str>) -> Affected {
    Affected {
        package: PackageKey::new(Ecosystem::Npm, name),
        ranges,
        versions: versions.into_iter().map(String::from).collect(),
    }
}

fn range(introduced: &str, fixed: &str) -> AffectedRange {
    AffectedRange {
        introduced: introduced.into(),
        fixed: fixed.into(),
        last_affected: String::new(),
    }
}

fn index_of(advisories: Vec<Advisory>) -> Index {
    Index::build(advisories, vec![Ecosystem::Npm], 0, None)
}

fn extracted(name: &str, version: &str) -> ExtractedPackage {
    ExtractedPackage {
        package: Package::new(Ecosystem::Npm, name, version),
        evidence: Site::new("/p/package.json", Range::whole_line(1)),
        declared: None,
        dep_groups: Vec::new(),
        from_range: false,
        version_span: None,
        paths: Vec::new(),
    }
}

fn matches(index: &Index, name: &str, version: &str) -> Vec<String> {
    Matcher::new(index)
        .findings(&[extracted(name, version)])
        .into_iter()
        .flat_map(|f| f.advisories)
        .map(|a| a.id.to_string())
        .collect()
}

/// The `Fix` the matcher decides for one package against one index.
fn fix_of(index: &Index, name: &str, version: &str) -> Fix {
    Matcher::new(index)
        .findings(&[extracted(name, version)])
        .into_iter()
        .next()
        .map_or(Fix::Absent, |f| f.fix)
}

// ---- ranges ----

#[test]
fn ranges_are_half_open() {
    let index = index_of(vec![advisory(
        "GHSA-1",
        5.0,
        vec![npm("lodash", vec![range("4.0.0", "4.17.21")], vec![])],
    )]);

    // Below the introduction: unaffected.
    assert!(matches(&index, "lodash", "3.9.9").is_empty());
    // Exactly the introduced version: affected.
    assert_eq!(matches(&index, "lodash", "4.0.0"), ["GHSA-1"]);
    assert_eq!(matches(&index, "lodash", "4.17.20"), ["GHSA-1"]);
    // Exactly the fixed version: not affected. That is the point of a fix.
    assert!(matches(&index, "lodash", "4.17.21").is_empty());
    assert!(matches(&index, "lodash", "5.0.0").is_empty());
}

#[test]
fn introduced_zero_is_a_sentinel_not_a_version() {
    let index = index_of(vec![advisory(
        "GHSA-1",
        5.0,
        vec![npm("lodash", vec![range("0", "4.17.21")], vec![])],
    )]);
    assert_eq!(matches(&index, "lodash", "0.0.1"), ["GHSA-1"]);
}

#[test]
fn an_open_range_has_no_fix_yet() {
    let index = index_of(vec![advisory(
        "GHSA-1",
        5.0,
        vec![npm("lodash", vec![range("4.0.0", "")], vec![])],
    )]);
    assert_eq!(matches(&index, "lodash", "99.0.0"), ["GHSA-1"]);
}

#[test]
fn last_affected_is_inclusive() {
    let index = index_of(vec![advisory(
        "GHSA-1",
        5.0,
        vec![npm(
            "lodash",
            vec![AffectedRange {
                introduced: "4.0.0".into(),
                fixed: String::new(),
                last_affected: "4.17.20".into(),
            }],
            vec![],
        )],
    )]);
    assert_eq!(matches(&index, "lodash", "4.17.20"), ["GHSA-1"]);
    assert!(matches(&index, "lodash", "4.17.21").is_empty());
}

#[test]
fn backported_fixes_are_disjoint_windows() {
    // Fixed in 1.2.3 and again in 2.0.1; 1.2.3 through 2.0.0 is clean.
    let index = index_of(vec![advisory(
        "GHSA-1",
        5.0,
        vec![npm(
            "lodash",
            vec![range("1.0.0", "1.2.3"), range("2.0.0", "2.0.1")],
            vec![],
        )],
    )]);
    assert_eq!(matches(&index, "lodash", "1.2.2"), ["GHSA-1"]);
    assert!(matches(&index, "lodash", "1.5.0").is_empty());
    assert_eq!(matches(&index, "lodash", "2.0.0"), ["GHSA-1"]);
    assert!(matches(&index, "lodash", "2.0.1").is_empty());
}

#[test]
fn matcher_prereleases_sort_below_their_release() {
    let index = index_of(vec![advisory(
        "GHSA-1",
        5.0,
        vec![npm("lodash", vec![range("1.0.0", "2.0.0")], vec![])],
    )]);
    // 2.0.0-rc1 is below 2.0.0, so it is still affected.
    assert_eq!(matches(&index, "lodash", "2.0.0-rc1"), ["GHSA-1"]);
    assert!(matches(&index, "lodash", "2.0.0").is_empty());
}

#[test]
fn an_explicit_version_list_is_authoritative() {
    let index = index_of(vec![advisory(
        "GHSA-1",
        5.0,
        vec![npm("lodash", vec![], vec!["1.0.0", "1.0.2"])],
    )]);
    assert_eq!(matches(&index, "lodash", "1.0.0"), ["GHSA-1"]);
    assert!(matches(&index, "lodash", "1.0.1").is_empty());
    assert_eq!(matches(&index, "lodash", "1.0.2"), ["GHSA-1"]);
}

// ---- severity ----

#[test]
fn advisories_are_sorted_by_severity_then_id() {
    let index = index_of(vec![
        advisory(
            "GHSA-low",
            2.0,
            vec![npm("lodash", vec![range("0", "")], vec![])],
        ),
        advisory(
            "GHSA-crit",
            9.5,
            vec![npm("lodash", vec![range("0", "")], vec![])],
        ),
        advisory(
            "GHSA-b-high",
            7.5,
            vec![npm("lodash", vec![range("0", "")], vec![])],
        ),
        advisory(
            "GHSA-a-high",
            7.5,
            vec![npm("lodash", vec![range("0", "")], vec![])],
        ),
    ]);
    assert_eq!(
        matches(&index, "lodash", "1.0.0"),
        ["GHSA-crit", "GHSA-a-high", "GHSA-b-high", "GHSA-low"]
    );
}

#[test]
fn a_malicious_advisory_outranks_a_scored_one() {
    let index = index_of(vec![
        advisory(
            "GHSA-crit",
            9.8,
            vec![npm("evil", vec![range("0", "")], vec![])],
        ),
        advisory(
            "MAL-2024-1",
            0.0,
            vec![npm("evil", vec![range("0", "")], vec![])],
        ),
    ]);
    let findings = Matcher::new(&index).findings(&[extracted("evil", "1.0.0")]);
    assert_eq!(findings.len(), 1);
    assert!(findings[0].malicious());
    assert_eq!(findings[0].severity(), Severity::Critical);
    // Ties on Critical fall back to the id, so the MAL- entry sorts second.
    assert_eq!(&*findings[0].worst().unwrap().id, "GHSA-crit");
}

#[test]
fn an_advisory_aliased_to_a_mal_id_is_malicious() {
    // `Finding::malicious()` is an `any`, so a sibling MAL- record usually
    // rescues this. Here there is none, which is the case the per-advisory
    // predicate has to get right on its own.
    let index = index_of(vec![Advisory {
        aliases: vec!["MAL-2026-1380".to_owned()],
        ..advisory(
            "GHSA-9ppg-jx86-fqw7",
            0.0,
            vec![npm("cline", vec![range("0", "")], vec![])],
        )
    }]);
    let findings = Matcher::new(&index).findings(&[extracted("cline", "1.0.0")]);
    assert_eq!(findings.len(), 1);
    assert!(findings[0].malicious());
    assert_eq!(findings[0].severity(), Severity::Critical);
}

// ---- fixes ----

#[test]
fn the_fix_is_the_lowest_version_clearing_every_advisory() {
    // Shaped on lodash@4.17.15: the worst advisory is fixed in 4.17.21,
    // but another is still open until 4.18.0.
    let index = index_of(vec![
        advisory(
            "GHSA-worst",
            7.2,
            vec![npm("lodash", vec![range("0", "4.17.21")], vec![])],
        ),
        advisory(
            "GHSA-later",
            5.0,
            vec![npm("lodash", vec![range("0", "4.18.0")], vec![])],
        ),
    ]);
    assert_eq!(
        fix_of(&index, "lodash", "4.17.15"),
        Fix::Clears("4.18.0".into())
    );
}

#[test]
fn a_fix_another_advisory_still_affects_is_rejected() {
    // The reason the verification step exists. A is fixed in 1.5.0, but B
    // covers everything below 2.0.0 — so 1.5.0 is no fix at all, and the
    // answer has to be the next candidate up.
    let index = index_of(vec![
        advisory(
            "GHSA-a",
            9.0,
            vec![npm("evil", vec![range("1.0.0", "1.5.0")], vec![])],
        ),
        advisory(
            "GHSA-b",
            5.0,
            vec![npm("evil", vec![range("0", "2.0.0")], vec![])],
        ),
    ]);
    assert_eq!(
        fix_of(&index, "evil", "1.2.0"),
        Fix::Clears("2.0.0".into()),
        "1.5.0 is itself affected by GHSA-b"
    );
}

#[test]
fn disjoint_release_lines_have_no_single_fix() {
    // One advisory is fixed in 2.0.0; another opened at 1.0.0 and never
    // closed, so nothing published clears both.
    let index = index_of(vec![
        advisory(
            "GHSA-fixed",
            7.0,
            vec![npm("pkg", vec![range("0", "2.0.0")], vec![])],
        ),
        advisory(
            "GHSA-open",
            7.0,
            vec![npm("pkg", vec![range("1.0.0", "")], vec![])],
        ),
    ]);
    assert_eq!(fix_of(&index, "pkg", "1.5.0"), Fix::Partial);
}

#[test]
fn an_advisory_with_only_last_affected_names_no_fix() {
    let index = index_of(vec![advisory(
        "GHSA-1",
        7.0,
        vec![npm(
            "pkg",
            vec![AffectedRange {
                introduced: "0".into(),
                fixed: String::new(),
                last_affected: "2.0.0".into(),
            }],
            vec![],
        )],
    )]);
    assert_eq!(fix_of(&index, "pkg", "1.0.0"), Fix::Absent);
}

#[test]
fn candidates_are_ordered_by_the_ecosystem_not_the_archive() {
    // Lexicographically "10.0.0" sorts below "9.0.0", so a string sort
    // would answer 9.0.0 here and leave the other advisory unresolved.
    let index = index_of(vec![
        advisory(
            "GHSA-a",
            7.0,
            vec![npm("pkg", vec![range("0", "9.0.0")], vec![])],
        ),
        advisory(
            "GHSA-b",
            7.0,
            vec![npm("pkg", vec![range("0", "10.0.0")], vec![])],
        ),
    ]);
    assert_eq!(fix_of(&index, "pkg", "1.0.0"), Fix::Clears("10.0.0".into()));
}

#[test]
fn a_fix_named_in_an_explicit_versions_list_is_rejected() {
    // OSV uses `versions` where ordering is unreliable, and `affects`
    // already honours it — so the verification has to as well.
    let index = index_of(vec![
        advisory(
            "GHSA-a",
            7.0,
            vec![npm("pkg", vec![range("0", "2.0.0")], vec![])],
        ),
        advisory("GHSA-b", 7.0, vec![npm("pkg", vec![], vec!["2.0.0"])]),
    ]);
    assert_eq!(fix_of(&index, "pkg", "1.0.0"), Fix::Partial);
}

#[test]
fn affected_at_agrees_with_findings() {
    let index = index_of(vec![advisory(
        "GHSA-1",
        7.0,
        vec![npm("pkg", vec![range("1.0.0", "2.0.0")], vec![])],
    )]);
    let matcher = Matcher::new(&index);
    let key = PackageKey::new(Ecosystem::Npm, "pkg");
    for version in ["0.9.0", "1.0.0", "1.9.9", "2.0.0", "3.0.0"] {
        assert_eq!(
            matcher.affected_at(&key, version),
            !matches(&index, "pkg", version).is_empty(),
            "the two must share one definition of affected, at {version}"
        );
    }
}

#[test]
fn a_backported_fix_is_never_offered_as_a_downgrade() {
    // One advisory patched on two release lines at once. 1.2.3 is
    // genuinely unaffected, and genuinely useless to a project on 2.0.0.
    let index = index_of(vec![advisory(
        "GHSA-1",
        7.0,
        vec![npm(
            "pkg",
            vec![range("1.0.0", "1.2.3"), range("2.0.0", "2.0.1")],
            vec![],
        )],
    )]);
    assert_eq!(fix_of(&index, "pkg", "2.0.0"), Fix::Clears("2.0.1".into()));
    // The lower line still gets the lower fix, which is right for it.
    assert_eq!(fix_of(&index, "pkg", "1.1.0"), Fix::Clears("1.2.3".into()));
}

#[test]
fn a_fix_at_or_below_the_installed_version_is_not_a_fix() {
    // Everything published is behind us and something is still open, so
    // there is nothing to upgrade to.
    let index = index_of(vec![
        advisory(
            "GHSA-old",
            7.0,
            vec![npm("pkg", vec![range("0", "1.0.0")], vec![])],
        ),
        advisory(
            "GHSA-open",
            7.0,
            vec![npm("pkg", vec![range("2.0.0", "")], vec![])],
        ),
    ]);
    assert_eq!(fix_of(&index, "pkg", "3.0.0"), Fix::Absent);
}

// ---- findings ----

#[test]
fn the_chain_that_reaches_a_package_survives_into_the_finding() {
    // Without this the graph's work stops at the extractor and every
    // finding claims to be direct, which is what `direct()` reports.
    let index = index_of(vec![advisory(
        "GHSA-1",
        5.0,
        vec![npm("minimist", vec![range("1.0.0", "1.2.6")], vec![])],
    )]);
    let chain = vec![
        PackageKey::new(Ecosystem::Npm, "tar"),
        PackageKey::new(Ecosystem::Npm, "minimist"),
    ];
    let reached = extracted("minimist", "1.2.0").with_paths(vec![chain.clone()]);
    let found = Matcher::new(&index).findings(&[reached]);
    assert_eq!(found[0].paths, vec![chain]);
    assert!(!found[0].direct());
}

#[test]
fn an_advisory_for_another_package_never_matches() {
    let index = index_of(vec![advisory(
        "GHSA-1",
        5.0,
        vec![npm("other", vec![range("0", "")], vec![])],
    )]);
    assert!(matches(&index, "lodash", "1.0.0").is_empty());
}

#[test]
fn a_package_with_no_advisories_produces_no_finding() {
    let index = index_of(vec![advisory(
        "GHSA-1",
        5.0,
        vec![npm("lodash", vec![range("4.0.0", "4.17.21")], vec![])],
    )]);
    assert!(
        Matcher::new(&index)
            .findings(&[extracted("lodash", "4.17.21")])
            .is_empty()
    );
}

#[test]
fn findings_carry_evidence_and_declaration() {
    // The manifest line is what the diagnostic anchors on, so it must
    // survive matching rather than being rediscovered later.
    let index = index_of(vec![advisory(
        "GHSA-1",
        5.0,
        vec![npm("lodash", vec![range("0", "")], vec![])],
    )]);
    let declared = Site::new("/proj/package.json", Range::whole_line(5));
    let evidence = Site::new("/proj/package-lock.json", Range::whole_line(14));
    let extracted = ExtractedPackage {
        evidence: evidence.clone(),
        declared: Some(declared.clone()),
        from_range: true,
        dep_groups: vec![DEV_GROUP.to_owned()],
        ..extracted("lodash", "4.17.15")
    };

    let findings = Matcher::new(&index).findings(&[extracted]);
    let f = &findings[0];
    assert_eq!(f.evidence, evidence);
    assert_eq!(
        f.anchor_site(),
        &declared,
        "the manifest declaration is the anchor"
    );
    assert!(f.from_range, "from_range was lost");
    assert!(f.dev(), "dependency groups were lost");
}

#[test]
fn an_unparsable_bound_skips_one_advisory_not_the_scan() {
    // A bound the ecosystem's rules cannot read must not cost the user
    // every other finding in the project.
    let index = index_of(vec![
        advisory(
            "GHSA-bad",
            5.0,
            vec![npm("p", vec![range("0", "not a version")], vec![])],
        ),
        advisory(
            "GHSA-good",
            5.0,
            vec![npm("q", vec![range("0", "")], vec![])],
        ),
    ]);
    let findings =
        Matcher::new(&index).findings(&[extracted("p", "1.0.0"), extracted("q", "1.0.0")]);
    let names: Vec<&str> = findings.iter().map(|f| f.package.name()).collect();
    assert_eq!(names, ["q"], "{findings:?}");
}

#[test]
fn two_sources_that_agree_give_the_same_findings() {
    let shared = || {
        vec![
            advisory("GHSA-a", 5.0, vec![npm("pkg", vec![range("0", "2.0.0")], vec![])]),
            advisory("GHSA-b", 9.0, vec![npm("pkg", vec![range("0", "3.0.0")], vec![])]),
        ]
    };
    let one = index_of(shared());
    let mut other: Vec<Advisory> = shared().into_iter().rev().collect();
    other.insert(
        1,
        advisory("GHSA-c", 9.9, vec![npm("unrelated", vec![range("0", "")], vec![])]),
    );
    let other = index_of(other);
    let packages = [extracted("pkg", "1.0.0")];
    assert_eq!(
        Matcher::new(&one).findings(&packages),
        Matcher::new(&other).findings(&packages)
    );
}
