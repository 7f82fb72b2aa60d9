use package_checker::extract::{
    is_manifest_name, parser_for, reconcile, skip_dirs, version_span, Extractor, Format, DEFAULT_MAX_FILES,
};
use package_checker::model::{
    Ecosystem, ExtractedPackage, Finding, Fix, Package, Range, Site,
};

/// Walks a tree that is given as its files, in the order of their paths.
fn extract_with(extractor: &Extractor, files: &[(&str, &str)]) -> Vec<ExtractedPackage> {
    let mut files: Vec<(&str, &str)> = files.to_vec();
    files.sort();
    let mut extraction = extractor.begin();
    for (path, source) in &files {
        let mut parts: Vec<&str> = path.split('/').collect();
        parts.pop();
        if parts.iter().any(|dir| extractor.skips(dir)) {
            continue;
        }
        if !extraction.count_file() {
            break;
        }
        extraction.file(path, source);
    }
    while let Some(path) = extraction.next_target() {
        if let Some((_, source)) = files.iter().find(|(p, _)| *p == path) {
            extraction.target(&path, source);
        }
    }
    extraction.finish()
}

fn extract(files: &[(&str, &str)]) -> Vec<ExtractedPackage> {
    extract_with(&Extractor::new(), files)
}

/// Three manifests in one directory, each naming one dependency.
const TREE: &[(&str, &str)] = &[
    ("/t/a/go.mod", "module example.com/a\n\nrequire example.com/dep-a v1.0.0\n"),
    ("/t/b/go.mod", "module example.com/b\n\nrequire example.com/dep-b v1.0.0\n"),
    ("/t/c/go.mod", "module example.com/c\n\nrequire example.com/dep-c v1.0.0\n"),
];

fn names(found: &[ExtractedPackage]) -> Vec<&str> {
    found.iter().map(|p| p.package.name()).collect()
}

fn versions_of(found: &[ExtractedPackage], name: &str) -> Vec<String> {
    found
        .iter()
        .filter(|p| p.package.name() == name)
        .map(|p| p.package.version.to_string())
        .collect()
}

fn parent(path: &str) -> &str {
    path.rsplit_once('/').unwrap().0
}

#[test]
fn every_manifest_is_found_when_the_walk_is_not_capped() {
    assert_eq!(Extractor::default().max_files, DEFAULT_MAX_FILES);
    assert_eq!(extract(TREE).len(), 3);
}

#[test]
fn the_walk_stops_at_max_files() {
    let found = extract_with(&Extractor::new().with_max_files(2), TREE);
    assert!(found.len() < 3, "the cap must actually truncate, got {} packages", found.len());
}

#[test]
fn an_empty_directory_yields_nothing() {
    assert!(extract(&[]).is_empty());
}

#[test]
fn exclude_removes_exactly_that_directory() {
    let found = extract_with(&Extractor::new().with_exclude(vec!["b".to_owned()]), TREE);
    let names = names(&found);
    assert_eq!(names.len(), 2, "{names:?}");
    assert!(!names.contains(&"example.com/dep-b"), "{names:?}");
}

#[test]
fn exclusion_matches_whole_names_not_substrings() {
    let found = extract(&[
        ("/t/dist/go.mod", "module m\n\nrequire example.com/dist v1.0.0\n"),
        ("/t/district/go.mod", "module m\n\nrequire example.com/district v1.0.0\n"),
    ]);
    assert_eq!(names(&found), ["example.com/district"]);
}

#[test]
fn several_locked_versions_of_one_package_are_all_kept() {
    let found = extract(&[(
        "/t/package-lock.json",
        r#"{"lockfileVersion":3,"packages":{
            "node_modules/lodash":{"version":"4.17.21"},
            "node_modules/x/node_modules/lodash":{"version":"3.10.1"}}}"#,
    )]);
    let mut versions = versions_of(&found, "lodash");
    versions.sort();
    assert_eq!(versions, ["3.10.1", "4.17.21"]);
}

#[test]
fn reconciliation_is_scoped_to_one_project() {
    let found = extract(&[
        (
            "/t/locked/package.json",
            r#"{"name":"locked","version":"1.0.0","dependencies":{"lodash":"^4.17.0"}}"#,
        ),
        (
            "/t/locked/package-lock.json",
            r#"{"name":"locked","lockfileVersion":3,"packages":{
            "":{"name":"locked","version":"1.0.0"},
            "node_modules/lodash":{"version":"4.17.21"}}}"#,
        ),
        (
            "/t/unlocked/package.json",
            r#"{"name":"unlocked","version":"1.0.0","dependencies":{"lodash":"^3.0.0"}}"#,
        ),
    ]);
    let in_dir = |name: &str| {
        found
            .iter()
            .find(|p| parent(&p.evidence.path).ends_with(&format!("/{name}")))
            .unwrap_or_else(|| panic!("the {name} project produced no package: {found:?}"))
    };
    assert_eq!(in_dir("locked").package.version, "4.17.21");
    let unlocked = in_dir("unlocked");
    assert!(unlocked.from_range, "the lockfile-free version is inferred from its range");
    assert_ne!(unlocked.package.version, "4.17.21", "took another project's lockfile");

    for p in &found {
        let declared = p.declared.as_ref().map_or(&p.evidence.path, |d| &d.path);
        assert_eq!(parent(declared), parent(&p.evidence.path), "reconciliation crossed projects");
    }
}

#[test]
fn a_workspace_lockfile_supersedes_its_members() {
    let found = extract(&[
        (
            "/t/package.json",
            r#"{"name":"ws","version":"1.0.0","workspaces":["packages/*"]}"#,
        ),
        (
            "/t/package-lock.json",
            r#"{"name":"ws","lockfileVersion":3,"packages":{
            "":{"name":"ws","version":"1.0.0"},
            "node_modules/lodash":{"version":"4.17.21"}}}"#,
        ),
        (
            "/t/packages/app/package.json",
            r#"{"name":"app","version":"1.0.0","dependencies":{"lodash":"^4.17.0"}}"#,
        ),
    ]);
    assert_eq!(
        versions_of(&found, "lodash"),
        ["4.17.21"],
        "the root lockfile governs the member"
    );
}

#[test]
fn a_workspace_root_keeps_its_members() {
    let found = extract(&[
        ("/t/Cargo.toml", "[workspace]\nmembers = [\"app\"]\n"),
        (
            "/t/Cargo.lock",
            "version = 3\n\n[[package]]\nname = \"time\"\nversion = \"0.1.44\"\n",
        ),
    ]);
    assert_eq!(names(&found), ["time"]);
}

#[test]
fn a_requirements_include_is_followed() {
    let found = extract(&[
        ("/t/requirements.txt", "-r base.txt\nflask==1.0\n"),
        ("/t/base.txt", "requests==2.19.1\n"),
    ]);
    let mut names = names(&found);
    names.sort_unstable();
    assert_eq!(names, ["flask", "requests"]);
}

#[test]
fn a_requirements_include_cycle_terminates() {
    let found = extract(&[
        ("/t/requirements.txt", "-r other.txt\n"),
        ("/t/other.txt", "-r requirements.txt\nrequests==2.0\n"),
    ]);
    assert_eq!(versions_of(&found, "requests"), ["2.0"]);
}

#[test]
fn what_ships_in_one_place_is_not_grouped() {
    let site = |line| Site::new("/p/package-lock.json", Range::whole_line(line));
    let seen = |line, groups: Vec<String>| ExtractedPackage {
        package: Package::new(Ecosystem::Npm, "lodash", "4.17.15"),
        evidence: site(line),
        declared: None,
        dep_groups: groups,
        from_range: false,
        version_span: None,
        paths: vec![],
    };
    let dev = || vec!["dev".to_owned()];
    for (first, second) in [(vec![], dev()), (dev(), vec![])] {
        let found = reconcile(&vec![seen(1, first), seen(2, second)]);
        assert_eq!(found.len(), 1);
        assert_eq!(found[0].evidence, site(1));
        assert!(found[0].dep_groups.is_empty());
    }
    let found = reconcile(&vec![seen(1, dev()), seen(2, vec!["optional".to_owned()])]);
    assert_eq!(found[0].dep_groups, ["dev"]);
}

#[test]
fn a_file_that_is_spelled_in_two_ways_is_read_once() {
    let found = extract(&[
        ("/t/requirements.txt", "-r ./requirements-base.txt\n-r .//requirements-base.txt\n"),
        ("/t/requirements-base.txt", "requests==2.19.1\n"),
    ]);
    assert_eq!(versions_of(&found, "requests"), ["2.19.1"]);
    assert_eq!(found[0].evidence.path, "/t/requirements-base.txt");
}

#[test]
fn the_report_is_in_the_order_of_ecosystem_name_version_and_path() {
    let found = extract(&[
        ("/t/b/requirements.txt", "zlib==2.0\nalpha==1.0\n"),
        ("/t/a/requirements.txt", "zlib==10.0\nalpha==1.0\n"),
        ("/t/a/go.mod", "require example.com/m v1.0.0\n"),
    ]);
    let order: Vec<String> = found
        .iter()
        .map(|p| format!("{} {}", p.package.describe(), parent(&p.evidence.path)))
        .collect();
    assert_eq!(
        order,
        [
            "Go:example.com/m@1.0.0 /t/a",
            "PyPI:alpha@1.0 /t/a",
            "PyPI:alpha@1.0 /t/b",
            "PyPI:zlib@10.0 /t/a",
            "PyPI:zlib@2.0 /t/b",
        ]
    );
}

#[test]
fn a_file_is_known_by_its_name() {
    assert_eq!(parser_for("/p/npm-shrinkwrap.json"), Some(Format::PackageLock));
    assert_eq!(parser_for("/p/requirements-dev.txt"), Some(Format::Requirements));
    assert_eq!(parser_for("/p/requirements-dev.in"), None);
    assert!(is_manifest_name("go.mod"));
    assert!(!is_manifest_name("go.sum"));
}

#[test]
fn a_span_is_found_again_for_a_finding() {
    let src = "{\n  \"dependencies\": {\n    \"lodash\": \"^4.17.0\"\n  }\n}\n";
    let sightings = Format::PackageJson.parse(src, "/p/package.json");
    let mut finding = Finding {
        package: Package::new(Ecosystem::Npm, "lodash", "4.17.0"),
        advisories: vec![],
        evidence: sightings[0].evidence.clone(),
        declared: None,
        paths: vec![],
        from_range: true,
        dep_groups: vec![],
        fix: Fix::Absent,
    };
    assert_eq!(version_span(&sightings, &finding), Some(Range::on_line(2, 16, 22)));
    finding.package = Package::new(Ecosystem::Npm, "other", "4.17.0");
    assert_eq!(version_span(&sightings, &finding), None);
}

// ---- whole projects, with the exact span of every dependency ----

/// One extracted package, flattened to what a reader can check by eye:
/// `ecosystem:name@version file line start-end [via=a>b] [flags]`.
fn describe(p: &ExtractedPackage) -> String {
    let rel = |path: &str| path.strip_prefix("/t/").unwrap_or(path).to_owned();
    let r = p.evidence.range;
    let mut line = format!(
        "{} {} {} {}-{}",
        p.package.describe(),
        rel(&p.evidence.path),
        r.start.line,
        r.start.column,
        r.end.column
    );
    if let Some(declared) = &p.declared {
        line.push_str(&format!(
            " declared={} {} {}-{}",
            rel(&declared.path),
            declared.range.start.line,
            declared.range.start.column,
            declared.range.end.column
        ));
    }
    if let Some(path) = p.paths.iter().min_by_key(|path| path.len()) {
        // The chain ends with the package itself, which the line already names.
        let hops: Vec<&str> = path
            .split_last()
            .map(|(_, hops)| hops.iter().map(|key| &*key.name).collect())
            .unwrap_or_default();
        line.push_str(&format!(" via={}", hops.join(">")));
    }
    if p.from_range {
        line.push_str(" [from-range]");
    }
    if !p.dep_groups.is_empty() {
        line.push_str(&format!(" [{}]", p.dep_groups.join(",")));
    }
    line
}

fn described(files: &[(&str, &str)]) -> Vec<String> {
    extract(files).iter().map(describe).collect()
}

const GO_MOD: &[(&str, &str)] = &[(
    "/t/go.mod",
    "module example.com/fixture

go 1.21

require (
\tgithub.com/gin-gonic/gin v1.6.0
\tgopkg.in/yaml.v2 v2.2.2 // indirect
)
",
)];

const NPM_DIRECT: &[(&str, &str)] = &[
    (
        "/t/package.json",
        r#"{
  "name": "npm-direct-fixture",
  "version": "1.0.0",
  "dependencies": {
    "lodash": "4.17.15"
  }
}
"#,
    ),
    (
        "/t/package-lock.json",
        r#"{
  "name": "npm-direct-fixture",
  "version": "1.0.0",
  "lockfileVersion": 3,
  "requires": true,
  "packages": {
    "": {
      "name": "npm-direct-fixture",
      "version": "1.0.0",
      "dependencies": {
        "lodash": "4.17.15"
      }
    },
    "node_modules/lodash": {
      "version": "4.17.15"
    }
  }
}
"#,
    ),
];

const NPM_NOLOCK: &[(&str, &str)] = &[(
    "/t/package.json",
    r#"{
  "name": "npm-nolock-fixture",
  "version": "1.0.0",
  "dependencies": {
    "lodash": "^4.17.15"
  }
}
"#,
)];

const NPM_RANGE_VS_LOCK: &[(&str, &str)] = &[
    (
        "/t/package.json",
        r#"{
  "name": "npm-range-vs-lock-fixture",
  "version": "1.0.0",
  "dependencies": {
    "lodash": "^4.17.0"
  }
}
"#,
    ),
    (
        "/t/package-lock.json",
        r#"{
  "name": "npm-range-vs-lock-fixture",
  "lockfileVersion": 3,
  "packages": {
    "": {
      "name": "npm-range-vs-lock-fixture",
      "dependencies": {
        "lodash": "^4.17.0"
      }
    },
    "node_modules/lodash": {
      "version": "4.17.21"
    }
  }
}
"#,
    ),
];

const RUST_CARGO: &[(&str, &str)] = &[
    (
        "/t/Cargo.toml",
        "[package]
name = \"rust-cargo-fixture\"
version = \"0.1.0\"
edition = \"2021\"

[dependencies]
time = \"0.1.44\"
",
    ),
    (
        "/t/Cargo.lock",
        "version = 3

[[package]]
name = \"rust-cargo-fixture\"
version = \"0.1.0\"
dependencies = [\"time\"]

[[package]]
name = \"time\"
version = \"0.1.44\"
",
    ),
];

const NPM_TRANSITIVE: &[(&str, &str)] = &[
    (
        "/t/package.json",
        r#"{
  "name": "npm-transitive-fixture",
  "version": "1.0.0",
  "dependencies": {
    "tar": "4.4.0"
  }
}
"#,
    ),
    (
        "/t/package-lock.json",
        r#"{
  "name": "npm-transitive-fixture",
  "version": "1.0.0",
  "lockfileVersion": 3,
  "requires": true,
  "packages": {
    "": {
      "name": "npm-transitive-fixture",
      "version": "1.0.0",
      "dependencies": {
        "tar": "4.4.0"
      }
    },
    "node_modules/tar": {
      "version": "4.4.0",
      "dependencies": {
        "mkdirp": "^0.5.0"
      }
    },
    "node_modules/mkdirp": {
      "version": "0.5.1",
      "dependencies": {
        "minimist": "^1.2.0"
      }
    },
    "node_modules/minimist": {
      "version": "1.2.0"
    }
  }
}
"#,
    ),
];

const NPM_WORKSPACES: &[(&str, &str)] = &[
    (
        "/t/package.json",
        r#"{
  "name": "npm-workspaces-fixture",
  "workspaces": ["packages/*"]
}
"#,
    ),
    (
        "/t/packages/api/package.json",
        r#"{
  "name": "api",
  "version": "1.0.0",
  "dependencies": {
    "express": "^4.17.0"
  }
}
"#,
    ),
    (
        "/t/packages/web/package.json",
        r#"{
  "name": "web",
  "version": "1.0.0",
  "dependencies": {
    "lodash": "^4.17.0"
  }
}
"#,
    ),
    (
        "/t/package-lock.json",
        r#"{
  "name": "npm-workspaces-fixture",
  "version": "1.0.0",
  "lockfileVersion": 3,
  "requires": true,
  "packages": {
    "": {
      "name": "npm-workspaces-fixture",
      "version": "1.0.0",
      "workspaces": [
        "packages/*"
      ]
    },
    "packages/api": {
      "name": "api",
      "version": "1.0.0",
      "dependencies": {
        "express": "^4.17.0"
      }
    },
    "packages/web": {
      "name": "web",
      "version": "1.0.0",
      "dependencies": {
        "lodash": "^4.17.0"
      }
    },
    "node_modules/api": {
      "resolved": "packages/api",
      "link": true
    },
    "node_modules/web": {
      "resolved": "packages/web",
      "link": true
    },
    "node_modules/cookie": {
      "version": "0.4.0"
    },
    "node_modules/express": {
      "version": "4.17.1",
      "dependencies": {
        "cookie": "0.4.0"
      }
    },
    "node_modules/lodash": {
      "version": "4.17.15"
    }
  }
}
"#,
    ),
];

const NPM_LOCK_V1: &[(&str, &str)] = &[
    (
        "/t/package.json",
        r#"{
  "name": "npm-lock-v1-fixture",
  "version": "1.0.0",
  "dependencies": {
    "mkdirp": "0.5.1"
  }
}
"#,
    ),
    (
        "/t/package-lock.json",
        r#"{
  "name": "npm-lock-v1-fixture",
  "version": "1.0.0",
  "lockfileVersion": 1,
  "requires": true,
  "dependencies": {
    "mkdirp": {
      "version": "0.5.1",
      "requires": {
        "minimist": "1.2.0"
      }
    },
    "minimist": {
      "version": "1.2.0"
    }
  }
}
"#,
    ),
];

const PY_REQUIREMENTS: &[(&str, &str)] = &[(
    "/t/requirements.txt",
    "# pinned\nrequests==2.19.1\n# ranged\nurllib3>=1.24\n",
)];

#[test]
fn go_mod() {
    assert_eq!(
        described(GO_MOD),
        [
            "Go:github.com/gin-gonic/gin@1.6.0 go.mod 5 1-25",
            "Go:gopkg.in/yaml.v2@2.2.2 go.mod 6 1-17",
            // The toolchain is anchored on the version in the `go` directive.
            "Go:stdlib@1.21 go.mod 2 3-7",
        ]
    );
}

#[test]
fn npm_with_a_lockfile_reports_the_locked_version_and_keeps_the_declaration() {
    assert_eq!(
        described(NPM_DIRECT),
        ["npm:lodash@4.17.15 package-lock.json 13 18-24 declared=package.json 4 5-11"]
    );
}

#[test]
fn npm_without_a_lockfile_infers_from_the_range() {
    assert_eq!(
        described(NPM_NOLOCK),
        ["npm:lodash@4.17.15 package.json 4 5-11 [from-range]"]
    );
}

#[test]
fn a_lockfile_supersedes_the_range_in_the_manifest() {
    assert_eq!(
        described(NPM_RANGE_VS_LOCK),
        ["npm:lodash@4.17.21 package-lock.json 10 18-24 declared=package.json 4 5-11"]
    );
}

#[test]
fn cargo_reports_the_locked_version_and_keeps_the_declaration() {
    assert_eq!(
        described(RUST_CARGO),
        ["crates.io:time@0.1.44 Cargo.lock 8 8-12 declared=Cargo.toml 6 0-4"]
    );
}

#[test]
fn a_transitive_dependency_is_anchored_on_what_pulled_it_in() {
    assert_eq!(
        described(NPM_TRANSITIVE),
        [
            "npm:minimist@1.2.0 package-lock.json 25 18-26 \
             declared=package.json 4 5-8 via=tar>mkdirp",
            "npm:mkdirp@0.5.1 package-lock.json 19 18-24 \
             declared=package.json 4 5-8 via=tar",
            "npm:tar@4.4.0 package-lock.json 13 18-21 declared=package.json 4 5-8",
        ]
    );
}

#[test]
fn a_workspace_member_owns_what_it_reaches_rather_than_the_root() {
    assert_eq!(
        described(NPM_WORKSPACES),
        [
            "npm:cookie@0.4.0 package-lock.json 35 18-24 \
             declared=packages/api/package.json 4 5-12 via=express",
            "npm:express@4.17.1 package-lock.json 38 18-25 \
             declared=packages/api/package.json 4 5-12",
            "npm:lodash@4.17.15 package-lock.json 44 18-24 \
             declared=packages/web/package.json 4 5-11",
        ]
    );
}

#[test]
fn a_version_one_lockfile_attributes_from_its_requires_map() {
    assert_eq!(
        described(NPM_LOCK_V1),
        [
            "npm:minimist@1.2.0 package-lock.json 12 5-13 \
             declared=package.json 4 5-11 via=mkdirp",
            "npm:mkdirp@0.5.1 package-lock.json 6 5-11 declared=package.json 4 5-11",
        ]
    );
}

#[test]
fn a_crate_is_not_a_dependency_of_itself() {
    assert!(
        !described(RUST_CARGO).iter().any(|p| p.contains("rust-cargo-fixture")),
        "the project's own crate must not be reported"
    );
}

#[test]
fn requirements_get_exact_spans() {
    assert_eq!(
        described(PY_REQUIREMENTS),
        [
            "PyPI:requests@2.19.1 requirements.txt 1 0-8",
            "PyPI:urllib3@1.24 requirements.txt 3 0-7 [from-range]",
        ]
    );
}

#[test]
fn a_project_is_not_a_dependency_of_itself() {
    assert!(
        !extract(NPM_DIRECT).iter().any(|p| p.package.name().contains("fixture")),
        "the manifest's own package must not be reported"
    );
}

#[test]
fn every_fixture_yields_only_supported_ecosystems() {
    for files in
        [GO_MOD, NPM_DIRECT, NPM_NOLOCK, NPM_RANGE_VS_LOCK, PY_REQUIREMENTS, RUST_CARGO]
    {
        for p in extract(files) {
            assert!(
                matches!(
                    p.package.ecosystem(),
                    Ecosystem::Npm | Ecosystem::Go | Ecosystem::PyPI | Ecosystem::CratesIo
                ),
                "unexpected ecosystem for {}",
                p.package.describe()
            );
        }
    }
}

#[test]
fn the_directories_that_are_skipped_are_listed() {
    assert_eq!(
        skip_dirs(),
        ["node_modules", ".git", ".venv", "venv", "vendor", "target", "dist"]
    );
    for dir in skip_dirs() {
        assert!(Extractor::new().skips(&dir), "{dir}");
    }
    assert!(!Extractor::new().skips("src"));
}

#[test]
fn a_trailing_slash_does_not_hide_the_format() {
    assert_eq!(parser_for("/p/go.mod/"), Some(Format::GoMod));
    assert_eq!(parser_for("/p/go.mod/.."), None);
}

#[test]
fn a_backslash_separates_where_paths_are_written_as_on_windows() {
    let mut extraction = Extractor::new().with_windows(true).begin();
    extraction.file(
        "C:\\t\\requirements.txt",
        "-r sub\\base.txt\n-r D:\\shared\\more.txt\n-r sub\\requirements-dev.txt\n",
    );
    assert_eq!(extraction.next_target().as_deref(), Some("D:/shared/more.txt"));
    assert_eq!(extraction.next_target().as_deref(), Some("C:/t/sub/base.txt"));
    // The walk finds the third by its name.
    assert_eq!(extraction.next_target(), None);
    extraction.target("C:\\t\\sub\\base.txt", "requests==2.0\n");
    let found = extraction.finish();
    assert_eq!(found[0].evidence.path, "C:/t/sub/base.txt");
}
