use package_checker::manifest::npm::{declarations, lock, package_json, package_lock, DepKind, Lock};
use package_checker::model::ExtractedPackage;

fn at(name: &str) -> String {
    format!("/p/{name}")
}

fn names_and_versions(found: &[ExtractedPackage]) -> Vec<(String, String)> {
    found
        .iter()
        .map(|f| (f.package.name().to_owned(), f.package.version.to_string()))
        .collect()
}

#[test]
fn package_json_production_wins_over_dev() {
    let src = "{\n  \"dependencies\": {\n    \"lodash\": \"^4.17.0\"\n  },\n  \"devDependencies\": {\n    \"lodash\": \"^3.0.0\"\n  }\n}\n";
    let found = package_json(src, &at("package.json"));
    assert_eq!(found.len(), 1, "{found:?}");
    assert_eq!(found[0].evidence.range.start.line, 2);
    assert!(found[0].dep_groups.is_empty(), "the production declaration has no group");
}

#[test]
fn an_aliased_entry_is_reported_under_its_published_name() {
    let src = "{\n  \"packages\": {\n    \"node_modules/h3-v2\": {\n      \"name\": \"h3\",\n      \"version\": \"2.0.0\"\n    }\n  }\n}\n";
    let found = package_lock(src, &at("package-lock.json"));
    assert_eq!(names_and_versions(&found), [("h3".into(), "2.0.0".into())]);
}

#[test]
fn an_aliased_entry_keeps_its_span_on_the_alias() {
    let src = "{\n  \"packages\": {\n    \"node_modules/h3-v2\": {\n      \"name\": \"h3\",\n      \"version\": \"2.0.0\"\n    }\n  }\n}\n";
    let found = package_lock(src, &at("package-lock.json"));
    let span = found[0].evidence.range;
    assert_eq!(
        &src.lines().nth(2).unwrap()[span.start.column as usize..span.end.column as usize],
        "h3-v2"
    );
}

#[test]
fn an_unaliased_entry_is_unaffected_by_its_own_name_field() {
    let src = "{\n  \"packages\": {\n    \"node_modules/lodash\": {\n      \"name\": \"lodash\",\n      \"version\": \"4.17.15\"\n    }\n  }\n}\n";
    let found = package_lock(src, &at("package-lock.json"));
    assert_eq!(names_and_versions(&found), [("lodash".into(), "4.17.15".into())]);
}

#[test]
fn a_v1_alias_is_read_out_of_the_version_field() {
    let src = "{\n  \"dependencies\": {\n    \"h3-v2\": {\n      \"version\": \"npm:h3@2.0.0\"\n    }\n  }\n}\n";
    let found = package_lock(src, &at("package-lock.json"));
    assert_eq!(names_and_versions(&found), [("h3".into(), "2.0.0".into())]);
}

#[test]
fn a_scoped_alias_target_keeps_its_leading_at() {
    let src = "{\n  \"dependencies\": {\n    \"api\": {\n      \"version\": \"npm:@acme/api@1.2.3\"\n    }\n  }\n}\n";
    let found = package_lock(src, &at("package-lock.json"));
    assert_eq!(names_and_versions(&found), [("@acme/api".into(), "1.2.3".into())]);
}

#[test]
fn a_plain_v1_version_is_not_mistaken_for_an_alias() {
    let src = "{\n  \"dependencies\": {\n    \"lodash\": {\n      \"version\": \"4.17.15\"\n    }\n  }\n}\n";
    let found = package_lock(src, &at("package-lock.json"));
    assert_eq!(names_and_versions(&found), [("lodash".into(), "4.17.15".into())]);
}

#[test]
fn dev_optional_demotes_like_both_groups_it_stands_for() {
    let src = "{\n  \"packages\": {\n    \"node_modules/lodash\": {\n      \"version\": \"4.17.15\",\n      \"devOptional\": true\n    }\n  }\n}\n";
    let found = package_lock(src, &at("package-lock.json"));
    assert_eq!(found[0].dep_groups, ["dev", "optional"]);
}

/// A v3 lockfile with the given `(install path, entry body)` pairs.
fn v3(entries: &[(&str, &str)]) -> String {
    let body: Vec<String> =
        entries.iter().map(|(key, entry)| format!("    {key:?}: {entry}")).collect();
    format!(
        "{{\n  \"lockfileVersion\": 3,\n  \"packages\": {{\n{}\n  }}\n}}\n",
        body.join(",\n")
    )
}

fn version_at(tree: &Lock, index: usize) -> String {
    tree.nodes[index].version.clone().unwrap()
}

#[test]
fn the_nearest_placement_wins_over_a_hoisted_one() {
    let src = v3(&[
        ("node_modules/lodash", r#"{"version": "4.0.0"}"#),
        (
            "node_modules/a",
            r#"{"version": "1.0.0", "dependencies": {"lodash": "^3"}}"#,
        ),
        ("node_modules/a/node_modules/lodash", r#"{"version": "3.0.0"}"#),
    ]);
    let tree = lock(&src).unwrap();
    let found = tree.resolve("node_modules/a", "lodash").unwrap();
    assert_eq!(version_at(&tree, found), "3.0.0");
}

#[test]
fn the_walk_reaches_the_root_when_nothing_is_nested() {
    let src = v3(&[
        ("node_modules/lodash", r#"{"version": "4.0.0"}"#),
        ("node_modules/a", r#"{"version": "1.0.0"}"#),
    ]);
    let tree = lock(&src).unwrap();
    let found = tree.resolve("node_modules/a", "lodash").unwrap();
    assert_eq!(version_at(&tree, found), "4.0.0");
}

#[test]
fn a_scoped_name_resolves_like_any_other() {
    let src = v3(&[
        ("node_modules/@acme/api", r#"{"version": "1.0.0"}"#),
        ("node_modules/a", r#"{"version": "1.0.0"}"#),
    ]);
    let tree = lock(&src).unwrap();
    assert!(tree.resolve("node_modules/a", "@acme/api").is_some());
}

#[test]
fn a_scoped_package_nested_under_another_resolves() {
    let src = v3(&[
        ("node_modules/a/node_modules/@acme/api", r#"{"version": "2.0.0"}"#),
        ("node_modules/@acme/api", r#"{"version": "1.0.0"}"#),
    ]);
    let tree = lock(&src).unwrap();
    let found = tree.resolve("node_modules/a", "@acme/api").unwrap();
    assert_eq!(version_at(&tree, found), "2.0.0");
}

#[test]
fn a_package_named_node_modules_cannot_be_reached_by_a_bogus_candidate() {
    let src = v3(&[
        ("node_modules/@scope/node_modules", r#"{"version": "1.0.0"}"#),
        ("node_modules/a", r#"{"version": "1.0.0"}"#),
    ]);
    let tree = lock(&src).unwrap();
    assert!(tree.resolve("node_modules/@scope/a", "x").is_none());
}

#[test]
fn a_link_resolves_to_what_it_points_at() {
    let src = v3(&[
        ("", r#"{"name": "root"}"#),
        ("packages/api", r#"{"version": "9.9.9"}"#),
        (
            "node_modules/api",
            r#"{"link": true, "resolved": "packages/api"}"#,
        ),
    ]);
    let tree = lock(&src).unwrap();
    let found = tree.resolve("", "api").unwrap();
    assert_eq!(&*tree.nodes[found].path, "packages/api");
}

#[test]
fn a_dangling_link_dead_ends_rather_than_failing() {
    let src = v3(&[(
        "node_modules/api",
        r#"{"link": true, "resolved": "packages/gone"}"#,
    )]);
    let tree = lock(&src).unwrap();
    assert!(tree.resolve("", "api").is_none());
}

#[test]
fn a_cycle_of_links_dead_ends() {
    let src = v3(&[
        ("node_modules/a", r#"{"link": true, "resolved": "x"}"#),
        ("x", r#"{"link": true, "resolved": "y"}"#),
        ("y", r#"{"link": true, "resolved": "x"}"#),
    ]);
    assert!(lock(&src).unwrap().resolve("", "a").is_none());
}

#[test]
fn a_name_nothing_installed_resolves_to_nothing() {
    let src = v3(&[("node_modules/a", r#"{"version": "1.0.0"}"#)]);
    let tree = lock(&src).unwrap();
    assert!(tree.resolve("node_modules/a", "missing").is_none());
}

#[test]
fn every_section_becomes_an_edge_of_its_own_kind() {
    let src = v3(&[(
        "node_modules/a",
        r#"{"version": "1.0.0", "dependencies": {"r": "1"}, "optionalDependencies": {"o": "1"}, "devDependencies": {"d": "1"}, "peerDependencies": {"p": "1"}}"#,
    )]);
    let tree = lock(&src).unwrap();
    let kinds: Vec<_> =
        tree.nodes[0].deps.iter().map(|dep| (dep.name.to_string(), dep.kind)).collect();
    assert_eq!(
        kinds,
        [
            ("r".to_owned(), DepKind::Runtime),
            ("o".to_owned(), DepKind::Runtime),
            ("d".to_owned(), DepKind::Dev),
            ("p".to_owned(), DepKind::Peer),
        ]
    );
}

#[test]
fn a_v1_tree_becomes_install_paths() {
    let src = r#"{
  "dependencies": {
    "a": {
      "version": "1.0.0",
      "requires": {"b": "^2"},
      "dependencies": {
        "b": {"version": "2.0.0"}
      }
    },
    "b": {"version": "3.0.0"}
  }
}
"#;
    let tree = lock(src).unwrap();
    let paths: Vec<&str> = tree.nodes.iter().map(|node| &*node.path).collect();
    assert_eq!(
        paths,
        [
            // The project itself, which v1 writes no entry for.
            "",
            "node_modules/a",
            "node_modules/a/node_modules/b",
            "node_modules/b"
        ]
    );
    // The nested placement is what `a` resolves to, not the hoisted one.
    let found = tree.resolve("node_modules/a", "b").unwrap();
    assert_eq!(version_at(&tree, found), "2.0.0");
}

#[test]
fn a_v1_tree_has_a_root_to_walk_from() {
    let src = r#"{"dependencies": {"a": {"version": "1.0.0"}}}"#;
    let tree = lock(src).unwrap();
    assert_eq!(&*tree.nodes[0].path, "");
    assert!(tree.resolve("", "a").is_some());
}

#[test]
fn the_root_requires_boolean_is_not_read_as_edges() {
    let src = r#"{"requires": true, "dependencies": {"a": {"version": "1.0.0"}}}"#;
    let tree = lock(src).unwrap();
    let a = tree.at("node_modules/a").unwrap();
    assert!(tree.nodes[a].deps.is_empty());
    assert!(!tree.has_edges);
}

#[test]
fn a_nested_dependencies_map_is_a_placement_not_an_edge() {
    let src = r#"{"dependencies": {"a": {"version": "1.0.0", "dependencies": {"b": {"version": "2.0.0"}}}}}"#;
    let tree = lock(src).unwrap();
    let a = tree.at("node_modules/a").unwrap();
    assert!(tree.nodes[a].deps.is_empty(), "{:?}", tree.nodes[a].deps);
    assert!(
        tree.at("node_modules/a/node_modules/b").is_some(),
        "the placement is still a node"
    );
}

#[test]
fn a_v1_lockfile_recording_no_requires_anywhere_reports_no_edges() {
    let src = r#"{"dependencies": {"a": {"version": "1.0.0"}}}"#;
    assert!(!lock(src).unwrap().has_edges);
}

#[test]
fn packages_takes_precedence_over_the_v2_compatibility_tree() {
    let src = r#"{
  "lockfileVersion": 2,
  "packages": {"node_modules/a": {"version": "1.0.0"}},
  "dependencies": {"a": {"version": "1.0.0"}}
}
"#;
    assert_eq!(lock(src).unwrap().nodes.len(), 1);
}

#[test]
fn a_workspace_member_is_a_node_but_not_a_sighting() {
    let src = v3(&[
        ("", r#"{"name": "root", "version": "1.0.0"}"#),
        ("packages/api", r#"{"version": "9.9.9"}"#),
        ("node_modules/lodash", r#"{"version": "4.17.15"}"#),
    ]);
    let tree = lock(&src).unwrap();
    assert_eq!(tree.nodes.len(), 3);
    let found = tree.sightings(&at("package-lock.json"));
    assert_eq!(found.len(), 1);
    assert_eq!(found[0].1.package.name(), "lodash");
}

#[test]
fn a_spec_no_version_can_be_read_from_still_declares_the_name() {
    let src = "{\n  \"dependencies\": {\n    \"api\": \"workspace:*\",\n    \"shared\": \"file:../shared\"\n  }\n}\n";
    assert!(package_json(src, &at("package.json")).is_empty());
    let found = declarations(src, &at("package.json"));
    let names: Vec<&str> = found.iter().map(|d| &*d.name).collect();
    assert_eq!(names, ["api", "shared"]);
}

#[test]
fn the_site_covers_the_name_alone() {
    let src = "{\n  \"dependencies\": {\n    \"lodash\": \"^4.17.0\"\n  }\n}\n";
    let found = declarations(src, &at("package.json"));
    let span = found[0].site.range;
    assert_eq!(
        &src.lines().nth(2).unwrap()[span.start.column as usize..span.end.column as usize],
        "lodash"
    );
}

#[test]
fn a_name_in_two_sections_is_declared_once_where_it_ships() {
    let src = "{\n  \"dependencies\": {\n    \"lodash\": \"^4.17.0\"\n  },\n  \"devDependencies\": {\n    \"lodash\": \"^3.0.0\"\n  }\n}\n";
    let found = declarations(src, &at("package.json"));
    assert_eq!(found.len(), 1);
    assert!(found[0].groups.is_empty());
}

#[test]
fn package_json_non_dependency_sections_are_ignored() {
    let src = "{\n  \"scripts\": {\n    \"lodash\": \"echo not a dependency\"\n  },\n  \"engines\": {\n    \"node\": \">=18\"\n  }\n}\n";
    assert!(package_json(src, &at("package.json")).is_empty());
}

#[test]
fn comments_and_trailing_commas_are_read_past() {
    let src = "{\n  // a comment\n  \"dependencies\": {\n    \"lodash\": \"4.17.15\",\n  },\n}\n";
    let found = package_json(src, &at("package.json"));
    assert_eq!(names_and_versions(&found), [("lodash".into(), "4.17.15".into())]);
}
