use package_checker::graph::{attribute, nearest_lock_dir, Manifest, Workspace};
use package_checker::manifest::npm::lock;
use package_checker::model::{Declaration, Range, Site};

/// A v3 lockfile with the given `(install path, entry body)` pairs.
fn v3(entries: &[(&str, &str)]) -> String {
    let body: Vec<String> = entries
        .iter()
        .map(|(key, entry)| format!("    {key:?}: {entry}"))
        .collect();
    format!(
        "{{\n  \"lockfileVersion\": 3,\n  \"packages\": {{\n{}\n  }}\n}}\n",
        body.join(",\n")
    )
}

/// Attribution over one lockfile, flattened to what a reader can check by
/// eye: `package via a > b @ manifest:line`.
///
/// `members` gives each manifest the walk read as `(directory relative to
/// the lockfile, the names it declares)`; `""` is the root. `extra_locks`
/// names directories that hold a lockfile of their own.
fn attributions(src: &str, members: &[(&str, &[&str])], extra_locks: &[&str]) -> Vec<String> {
    let tree = lock(src).expect("the fixture is a lockfile");

    let mut manifests = Vec::new();
    for (dir, names) in members {
        let path =
            if dir.is_empty() { "/p/package.json".to_owned() } else { format!("/p/{dir}/package.json") };
        let declarations = names
            .iter()
            .enumerate()
            .map(|(line, name)| Declaration {
                name: (*name).into(),
                // One per line, so two members are told apart by where they
                // anchor and not only by which file.
                site: Site::new(&path, Range::on_line(line as u32, 0, 1)),
                groups: Vec::new(),
            })
            .collect();
        manifests.push(Manifest { path, declarations });
    }

    let mut lock_dirs = vec!["/p".to_owned()];
    lock_dirs.extend(extra_locks.iter().map(|dir| format!("/p/{dir}")));

    let seen = Workspace { manifests, lock_dirs };
    attribute(&tree, "/p", &seen)
        .iter()
        .map(|found| {
            let chains: Vec<String> = found
                .paths
                .iter()
                .map(|path| {
                    path.iter().map(|key| key.name.to_string()).collect::<Vec<_>>().join(" > ")
                })
                .collect();
            format!(
                "{} via {} @ {}:{}",
                tree.nodes[found.node].registry_name,
                chains.join(" | "),
                found.declared.path.strip_prefix("/p/").unwrap_or(&found.declared.path),
                found.declared.range.start.line
            )
        })
        .collect()
}

#[test]
fn a_three_deep_chain_names_every_hop() {
    let src = v3(&[
        (
            "",
            r#"{"name": "root", "dependencies": {"mkdirp": "^0.5.1"}}"#,
        ),
        (
            "node_modules/mkdirp",
            r#"{"version": "0.5.1", "dependencies": {"minipass": "^2"}}"#,
        ),
        (
            "node_modules/minipass",
            r#"{"version": "2.9.0", "dependencies": {"minimist": "^1"}}"#,
        ),
        ("node_modules/minimist", r#"{"version": "1.2.0"}"#),
    ]);
    assert_eq!(
        attributions(&src, &[("", &["mkdirp"])], &[]),
        [
            "minipass via mkdirp > minipass @ package.json:0",
            "minimist via mkdirp > minipass > minimist @ package.json:0",
        ]
    );
}

#[test]
fn a_dependency_the_manifest_declares_is_left_to_reconcile() {
    // It already anchors a direct dependency by name; a second answer here
    // would only collide with that one.
    let src = v3(&[
        ("", r#"{"name": "root"}"#),
        ("node_modules/lodash", r#"{"version": "4.17.15"}"#),
    ]);
    assert!(attributions(&src, &[("", &["lodash"])], &[]).is_empty());
}

#[test]
fn a_cycle_terminates() {
    let src = v3(&[
        ("", r#"{"name": "root"}"#),
        (
            "node_modules/a",
            r#"{"version": "1.0.0", "dependencies": {"b": "1"}}"#,
        ),
        (
            "node_modules/b",
            r#"{"version": "1.0.0", "dependencies": {"a": "1"}}"#,
        ),
    ]);
    assert_eq!(
        attributions(&src, &[("", &["a"])], &[]),
        ["b via a > b @ package.json:0"]
    );
}

#[test]
fn a_nested_duplicate_is_attributed_through_the_parent_that_resolves_to_it() {
    // Two versions of one package. `a` resolves to the nested 3.0.0 and
    // must not be blamed for the hoisted 4.0.0 that `b` reaches.
    let src = v3(&[
        ("", r#"{"name": "root"}"#),
        (
            "node_modules/a",
            r#"{"version": "1.0.0", "dependencies": {"lodash": "^3"}}"#,
        ),
        ("node_modules/a/node_modules/lodash", r#"{"version": "3.0.0"}"#),
        (
            "node_modules/b",
            r#"{"version": "1.0.0", "dependencies": {"lodash": "^4"}}"#,
        ),
        ("node_modules/lodash", r#"{"version": "4.0.0"}"#),
    ]);
    assert_eq!(
        attributions(&src, &[("", &["a", "b"])], &[]),
        [
            "lodash via a > lodash @ package.json:0",
            "lodash via b > lodash @ package.json:1",
        ]
    );
}

#[test]
fn a_workspace_member_is_answerable_for_what_it_reaches() {
    let src = v3(&[
        ("", r#"{"name": "root"}"#),
        (
            "packages/api",
            r#"{"version": "1.0.0", "dependencies": {"express": "^4"}}"#,
        ),
        (
            "node_modules/api",
            r#"{"link": true, "resolved": "packages/api"}"#,
        ),
        (
            "node_modules/express",
            r#"{"version": "4.17.1", "dependencies": {"cookie": "^0.4"}}"#,
        ),
        ("node_modules/cookie", r#"{"version": "0.4.0"}"#),
    ]);
    assert_eq!(
        attributions(&src, &[("", &[]), ("packages/api", &["express"])], &[]),
        ["cookie via express > cookie @ packages/api/package.json:0"]
    );
}

#[test]
fn a_file_target_outside_the_tree_is_not_a_root() {
    // `{"link": true, "resolved": "../shared"}` is a `file:` dependency,
    // not a member. Attributing to it would publish diagnostics for a
    // manifest outside the project the walk never visited.
    let src = v3(&[
        ("", r#"{"name": "root"}"#),
        (
            "../shared",
            r#"{"version": "1.0.0", "dependencies": {"lodash": "^4"}}"#,
        ),
        ("node_modules/lodash", r#"{"version": "4.17.15"}"#),
    ]);
    assert!(
        attributions(&src, &[("", &[]), ("../shared", &["lodash"])], &[]).is_empty(),
        "nothing outside the lockfile's own tree may be a root"
    );
}

#[test]
fn a_member_with_its_own_lockfile_is_not_claimed_by_the_root() {
    // Its own lockfile governs it; claiming it here would report the same
    // package twice, at two different versions.
    let src = v3(&[
        ("", r#"{"name": "root"}"#),
        (
            "packages/app",
            r#"{"version": "1.0.0", "dependencies": {"a": "^1"}}"#,
        ),
        (
            "node_modules/a",
            r#"{"version": "1.0.0", "dependencies": {"b": "1"}}"#,
        ),
        ("node_modules/b", r#"{"version": "1.0.0"}"#),
    ]);
    assert!(
        attributions(
            &src,
            &[("", &[]), ("packages/app", &["a"])],
            &["packages/app"],
        )
        .is_empty()
    );
}

#[test]
fn a_manifest_the_walk_did_not_read_is_not_a_root() {
    // Excluded by the skip list, or lost to the file cap. The graph and the
    // report have to agree about which members exist.
    let src = v3(&[
        ("", r#"{"name": "root"}"#),
        (
            "packages/api",
            r#"{"version": "1.0.0", "dependencies": {"a": "^1"}}"#,
        ),
        (
            "node_modules/a",
            r#"{"version": "1.0.0", "dependencies": {"b": "1"}}"#,
        ),
        ("node_modules/b", r#"{"version": "1.0.0"}"#),
    ]);
    assert!(attributions(&src, &[("", &[])], &[]).is_empty());
}

#[test]
fn dev_dependencies_are_followed_only_out_of_the_manifest() {
    // npm strips them from everything under `node_modules`, and a linked
    // member entered from a sibling must not lend its test tooling to the
    // sibling's production line.
    let src = v3(&[
        ("", r#"{"name": "root"}"#),
        (
            "node_modules/a",
            r#"{"version": "1.0.0", "devDependencies": {"tooling": "1"}, "dependencies": {"b": "1"}}"#,
        ),
        ("node_modules/tooling", r#"{"version": "1.0.0"}"#),
        ("node_modules/b", r#"{"version": "1.0.0"}"#),
    ]);
    assert_eq!(
        attributions(&src, &[("", &["a"])], &[]),
        ["b via a > b @ package.json:0"]
    );
}

#[test]
fn a_peer_edge_only_carries_what_nothing_else_reaches() {
    // A peer edge is a shorter route than the real install reason, so the
    // honest chain through `b` has to win for `shared`.
    let src = v3(&[
        ("", r#"{"name": "root"}"#),
        (
            "node_modules/plugin",
            r#"{"version": "1.0.0", "peerDependencies": {"shared": "1", "lonely": "1"}}"#,
        ),
        (
            "node_modules/b",
            r#"{"version": "1.0.0", "dependencies": {"shared": "1"}}"#,
        ),
        ("node_modules/shared", r#"{"version": "1.0.0"}"#),
        ("node_modules/lonely", r#"{"version": "1.0.0"}"#),
    ]);
    assert_eq!(
        attributions(&src, &[("", &["plugin", "b"])], &[]),
        [
            "shared via b > shared @ package.json:1",
            "lonely via plugin > lonely @ package.json:0",
        ]
    );
}

#[test]
fn an_entry_nothing_reaches_is_attributed_to_nobody() {
    // An extraneous install. It keeps its lockfile line, which is the
    // honest answer when no manifest is responsible for it.
    let src = v3(&[
        ("", r#"{"name": "root"}"#),
        ("node_modules/a", r#"{"version": "1.0.0"}"#),
        ("node_modules/orphan", r#"{"version": "1.0.0"}"#),
    ]);
    assert!(attributions(&src, &[("", &["a"])], &[]).is_empty());
}

#[test]
fn a_lockfile_recording_no_edges_attributes_nothing() {
    // npm 5.0-5.1. Guessing here would anchor every transitive finding on
    // whichever dependency happened to be declared first.
    let src = r#"{"dependencies": {"a": {"version": "1.0.0"}, "b": {"version": "2.0.0"}}}"#;
    assert!(attributions(src, &[("", &["a"])], &[]).is_empty());
}

#[test]
fn one_parent_reaching_a_package_by_two_names_is_counted_once() {
    // `a` depends on `shared` and on an alias that links to the same entry,
    // and `q` got there first. Without a guard `a` is recorded as an
    // alternate way in twice, and the message says "2 other paths" when
    // there is only one.
    let src = v3(&[
        ("", r#"{"name": "root"}"#),
        (
            "node_modules/q",
            r#"{"version": "1.0.0", "dependencies": {"shared": "1"}}"#,
        ),
        (
            "node_modules/a",
            r#"{"version": "1.0.0", "dependencies": {"shared": "1", "alias": "1"}}"#,
        ),
        ("node_modules/shared", r#"{"version": "1.0.0"}"#),
        (
            "node_modules/alias",
            r#"{"link": true, "resolved": "node_modules/shared"}"#,
        ),
    ]);
    assert_eq!(
        attributions(&src, &[("", &["q", "a"])], &[]),
        ["shared via q > shared | a > shared @ package.json:0"]
    );
}

#[test]
fn two_equally_short_chains_are_both_reported() {
    let src = v3(&[
        ("", r#"{"name": "root"}"#),
        (
            "node_modules/a",
            r#"{"version": "1.0.0", "dependencies": {"shared": "1"}}"#,
        ),
        (
            "node_modules/b",
            r#"{"version": "1.0.0", "dependencies": {"shared": "1"}}"#,
        ),
        ("node_modules/shared", r#"{"version": "1.0.0"}"#),
    ]);
    assert_eq!(
        attributions(&src, &[("", &["a", "b"])], &[]),
        ["shared via a > shared | b > shared @ package.json:0"]
    );
}

#[test]
fn no_more_than_three_chains_are_kept() {
    let names = ["a", "b", "c", "d"];
    let mut entries = vec![("".to_owned(), r#"{"name": "root"}"#.to_owned())];
    for name in names {
        entries.push((
            format!("node_modules/{name}"),
            r#"{"version": "1.0.0", "dependencies": {"shared": "1"}}"#.to_owned(),
        ));
    }
    entries.push(("node_modules/shared".to_owned(), r#"{"version": "1.0.0"}"#.to_owned()));
    let pairs: Vec<(&str, &str)> =
        entries.iter().map(|(k, v)| (k.as_str(), v.as_str())).collect();
    assert_eq!(
        attributions(&v3(&pairs), &[("", &names)], &[]),
        ["shared via a > shared | b > shared | c > shared @ package.json:0"]
    );
}

#[test]
fn the_nearest_lockfile_governs() {
    let dirs = vec!["/p".to_owned(), "/p/packages/app".to_owned()];
    assert_eq!(nearest_lock_dir("/p/packages/app/src", &dirs).as_deref(), Some("/p/packages/app"));
    assert_eq!(nearest_lock_dir("/p/packages/api", &dirs).as_deref(), Some("/p"));
    assert_eq!(nearest_lock_dir("/elsewhere", &dirs), None);
    // The spelling of a path does not count.
    let dirs = vec!["/p//packages/./app".to_owned()];
    assert_eq!(
        nearest_lock_dir("/p/packages/app//src", &dirs).as_deref(),
        Some("/p/packages/app")
    );
}
