use package_checker::model::{Advisory, Ecosystem, PackageKey};
use package_checker::osv::{
    cvss, preferred, read_score, OsvAdvisory, OsvAffected, OsvEvent, OsvRange, OsvSeverity, Scored,
};

fn introduced(v: &str) -> OsvEvent {
    OsvEvent { introduced: v.into(), fixed: String::new(), last_affected: String::new() }
}

fn fixed(v: &str) -> OsvEvent {
    OsvEvent { introduced: String::new(), fixed: v.into(), last_affected: String::new() }
}

fn last_affected(v: &str) -> OsvEvent {
    OsvEvent { introduced: String::new(), fixed: String::new(), last_affected: v.into() }
}

fn range(kind: &str, events: Vec<OsvEvent>) -> OsvRange {
    OsvRange { kind: kind.into(), events }
}

fn affected(ecosystem: &str, name: &str, ranges: Vec<OsvRange>) -> OsvAffected {
    OsvAffected { ecosystem: ecosystem.into(), name: name.into(), ranges, versions: vec![] }
}

fn advisory(id: &str, affected: Vec<OsvAffected>) -> OsvAdvisory {
    OsvAdvisory {
        id: id.into(),
        withdrawn: String::new(),
        aliases: vec![],
        summary: String::new(),
        severity: vec![],
        affected,
        references: vec![],
    }
}

fn decode(osv: OsvAdvisory, want: Ecosystem) -> Option<Advisory> {
    osv.into_model(want)
}

/// Carries both kinds of range for the same package: a commit hash and a
/// version.
fn both_range_kinds() -> OsvAdvisory {
    advisory(
        "PYSEC-2018-28",
        vec![affected(
            "PyPI",
            "requests",
            vec![
                range(
                    "GIT",
                    vec![
                        introduced("0"),
                        fixed("c45d7c49ea75133e52ab22a8e9e13173938e36ff"),
                    ],
                ),
                range("ECOSYSTEM", vec![introduced("0"), fixed("2.20.0")]),
            ],
        )],
    )
}

#[test]
fn a_git_range_is_dropped_and_the_version_range_kept() {
    let advisory = decode(both_range_kinds(), Ecosystem::PyPI).expect("indexed");
    let ranges = &advisory.affected[0].ranges;
    assert_eq!(ranges.len(), 1, "the GIT range must not be indexed");
    assert_eq!(&*ranges[0].fixed, "2.20.0");

    // A commit hash can never be offered as a fixed version.
    let key = PackageKey::new(Ecosystem::PyPI, "requests");
    assert_eq!(advisory.fixed_versions_for(&key), ["2.20.0"]);
}

#[test]
fn a_range_with_no_type_is_still_indexed() {
    let advisory = decode(
        advisory(
            "GHSA-x",
            vec![affected(
                "npm",
                "lodash",
                vec![range("", vec![introduced("0"), fixed("4.17.21")])],
            )],
        ),
        Ecosystem::Npm,
    )
    .expect("indexed");
    assert_eq!(advisory.affected[0].ranges.len(), 1);
}

#[test]
fn an_affected_entry_with_only_a_git_range_keeps_no_ranges() {
    let advisory = decode(
        advisory(
            "OSV-2021-449",
            vec![affected(
                "PyPI",
                "tensorflow",
                vec![range("GIT", vec![introduced("0"), fixed("abc123")])],
            )],
        ),
        Ecosystem::PyPI,
    )
    .expect("indexed");
    assert!(advisory.affected[0].ranges.is_empty());
    assert!(advisory.affected[0].versions.is_empty());
}

#[test]
fn a_withdrawn_advisory_is_not_indexed() {
    let mut osv = advisory("GHSA-withdrawn", vec![affected("npm", "lodash", vec![])]);
    osv.withdrawn = "2023-01-01T00:00:00Z".into();
    assert!(decode(osv, Ecosystem::Npm).is_none());
}

#[test]
fn an_advisory_without_an_id_is_not_indexed() {
    let osv = advisory("", vec![affected("npm", "lodash", vec![])]);
    assert!(decode(osv, Ecosystem::Npm).is_none());
}

#[test]
fn only_the_requested_ecosystem_is_kept() {
    let multi = advisory(
        "GHSA-multi",
        vec![
            affected("npm", "lodash", vec![]),
            affected("PyPI", "requests", vec![]),
            affected("Go", "example.com/x", vec![]),
        ],
    );

    let advisory = decode(multi.clone(), Ecosystem::Npm).expect("indexed");
    assert_eq!(advisory.affected.len(), 1);
    assert_eq!(&*advisory.affected[0].package.name, "lodash");

    // And an advisory touching nothing in this ecosystem is dropped entirely.
    assert!(decode(multi, Ecosystem::CratesIo).is_none());
}

#[test]
fn range_events_are_paired_along_the_timeline() {
    let cases: Vec<(&str, Vec<OsvEvent>, Vec<(&str, &str, &str)>)> = vec![
        (
            "introduced and fixed",
            vec![introduced("0"), fixed("4.17.21")],
            vec![("0", "4.17.21", "")],
        ),
        (
            "last_affected instead of fixed",
            vec![introduced("0"), last_affected("0.3.24")],
            vec![("0", "", "0.3.24")],
        ),
        (
            "introduced with no fix is still affected",
            vec![introduced("6.0.0")],
            vec![("6.0.0", "", "")],
        ),
        (
            "backported fixes make disjoint ranges",
            vec![introduced("0"), fixed("1.2.3"), introduced("2.0.0"), fixed("2.0.5")],
            vec![("0", "1.2.3", ""), ("2.0.0", "2.0.5", "")],
        ),
        (
            "an unclosed range after a closed one survives",
            vec![introduced("0"), fixed("1.2.3"), introduced("2.0.0")],
            vec![("0", "1.2.3", ""), ("2.0.0", "", "")],
        ),
    ];
    for (name, events, want) in cases {
        let osv = advisory("GHSA-x", vec![affected("npm", "p", vec![range("SEMVER", events)])]);
        let advisory = decode(osv, Ecosystem::Npm).expect("indexed");
        let got: Vec<(&str, &str, &str)> = advisory.affected[0]
            .ranges
            .iter()
            .map(|r| (&*r.introduced, &*r.fixed, &*r.last_affected))
            .collect();
        assert_eq!(got, want, "{name}");
    }
}

const V3: &str = "CVSS:3.1/AV:N/AC:L/PR:N/UI:N/S:U/C:H/I:H/A:H";
const V4: &str = "CVSS:4.0/AV:N/AC:L/AT:N/PR:N/UI:N/VC:H/VI:H/VA:H/SC:N/SI:N/SA:N";

fn severity(kind: &str, score: &str) -> OsvSeverity {
    OsvSeverity { kind: kind.into(), score: score.into() }
}

#[test]
fn cvss_prefers_v3_and_tolerates_absence() {
    let cases: Vec<(&str, Vec<OsvSeverity>, Option<f64>)> = vec![
        ("no severity is not an error", vec![], None),
        ("cvss v3 is parsed", vec![severity("CVSS_V3", V3)], Some(9.8)),
        ("cvss v4 is used when it is all there is", vec![severity("CVSS_V4", V4)], Some(9.3)),
        (
            "v3 is preferred when both are present",
            vec![severity("CVSS_V4", V4), severity("CVSS_V3", V3)],
            Some(9.8),
        ),
        (
            "a malformed vector is ignored rather than fatal",
            vec![severity("CVSS_V3", "not-a-vector")],
            None,
        ),
    ];
    for (name, severity, want) in cases {
        let mut osv = advisory("GHSA-x", vec![affected("npm", "p", vec![])]);
        osv.severity = severity;
        let advisory = decode(osv, Ecosystem::Npm).expect("indexed");
        match want {
            None => {
                assert_eq!(advisory.cvss_score, 0, "{name}");
                assert!(advisory.cvss_vector.is_empty(), "{name}");
            }
            Some(score) => {
                assert_eq!(f64::from(advisory.cvss_score) / 10.0, score, "{name}");
                assert!(!advisory.cvss_vector.is_empty(), "{name}");
            }
        }
    }
}

#[test]
fn a_vector_is_scored_by_the_rules_of_its_kind() {
    // The kind is matched without case, and a vector of the other kind is not valid.
    assert_eq!(cvss(&vec![severity("cvss_v3", V3)]), (98, V3.to_owned()));
    assert_eq!(cvss(&vec![severity("CVSS_V3", V4)]), (0, String::new()));
    assert_eq!(cvss(&vec![severity("CVSS_V2", V3)]), (0, String::new()));
    // A v3 vector that does not parse leaves the choice to v4.
    assert_eq!(
        cvss(&vec![severity("CVSS_V3", "nonsense"), severity("CVSS_V4", V4)]),
        (93, V4.to_owned())
    );
    // Only the first v4 vector is tried.
    assert_eq!(
        cvss(&vec![severity("CVSS_V4", "nonsense"), severity("CVSS_V4", V4)]),
        (0, String::new())
    );
    let full = "CVSS:3.1/AV:N/AC:L/PR:N/UI:N/S:C/C:H/I:H/A:H";
    assert_eq!(cvss(&vec![severity("CVSS_V3", full)]), (100, full.to_owned()));
    let none = "CVSS:3.1/AV:N/AC:L/PR:N/UI:N/S:U/C:N/I:N/A:N";
    assert_eq!(cvss(&vec![severity("CVSS_V3", none)]), (0, none.to_owned()));
}

#[test]
fn the_first_valid_v3_is_preferred() {
    let scored = |kind: &str, vector: &str, tenths| Scored {
        kind: kind.into(),
        vector: vector.into(),
        tenths,
    };
    let all = vec![
        scored("CVSS_V4", "a", Some(91)),
        scored("CVSS_V3", "b", None),
        scored("CVSS_V3", "c", Some(52)),
        scored("CVSS_V3", "d", Some(99)),
    ];
    assert_eq!(preferred(&all), (52, "c".to_owned()));
}

#[test]
fn a_score_is_read_in_tenths() {
    assert_eq!(read_score("9.8"), Some(98));
    assert_eq!(read_score("0.0"), Some(0));
    assert_eq!(read_score("10.0"), Some(100));
    assert_eq!(read_score("10.1"), None);
    assert_eq!(read_score("9.85"), None);
    assert_eq!(read_score(""), None);
}
