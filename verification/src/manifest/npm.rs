//! `package.json` and `package-lock.json`.
use crate::json::{
    entries, flag, is_true, json_of, object, object_of, parse, string, string_of, tree, Entry, Json,
    Property, Tree,
};
use crate::manifest::{first_of_each, first_per_name, lowest_of, lowest_satisfying, seen, sighting};
use crate::model::{
    Declaration, DeclarationView, Ecosystem, ExtractedPackage, ExtractedView, Range, Site,
    SiteView, DEV_GROUP,
};
use crate::span::{range_of, LineIndex};
use crate::table::{first_index, Table};
use crate::text::{
    byte_len, chars, clamp, copy_strings, find, find_of, part, rfind, rfind_of, same, same_bytes,
    starts_with, utf8_len,
};
use vstd::prelude::*;
use vstd::utf8::encode_utf8;

verus! {

// ---- the manifest ----

/// Dependency sections, in the order a dependency is attributed to them: a
/// package in both `dependencies` and `devDependencies` ships.
pub open spec fn section_name(i: int) -> Seq<char> {
    if i == 0 {
        "dependencies"@
    } else if i == 1 {
        "optionalDependencies"@
    } else if i == 2 {
        "peerDependencies"@
    } else {
        "devDependencies"@
    }
}

/// The dependency group of a section; what ships has none.
pub open spec fn section_groups(i: int) -> Seq<Seq<char>> {
    if i == 0 {
        seq![]
    } else if i == 1 {
        seq!["optional"@]
    } else if i == 2 {
        seq!["peer"@]
    } else {
        seq![DEV_GROUP@]
    }
}

/// Where a name itself is written: inside its quotes.
pub open spec fn name_start(e: Entry) -> int {
    if e.quoted {
        clamp(e.start + 1)
    } else {
        e.start
    }
}

pub open spec fn name_end(e: Entry) -> int {
    if e.quoted && e.end > 0 {
        e.end - 1
    } else {
        e.end
    }
}

/// One dependency as `package.json` writes it.
pub struct DeclaredView {
    pub name: Seq<char>,
    /// Where the name is written.
    pub start: int,
    pub end: int,
    /// The constraint, decoded, and where its first byte is.
    pub spec: Seq<char>,
    pub spec_at: int,
    pub section: int,
}

/// The dependencies a section names: its properties that are strings.
pub open spec fn section_deps(es: Seq<Entry>, section: int) -> Seq<DeclaredView>
    decreases es.len(),
{
    if es.len() == 0 {
        seq![]
    } else {
        let e = es.last();
        match e.value {
            Tree::Text(spec, at) => section_deps(es.drop_last(), section).push(
                DeclaredView {
                    name: e.name,
                    start: name_start(e),
                    end: name_end(e),
                    spec,
                    spec_at: clamp(at + 1),
                    section,
                },
            ),
            _ => section_deps(es.drop_last(), section),
        }
    }
}

/// The dependencies the first sections name, in attribution order.
pub open spec fn declared_of(root: Seq<Entry>, sections: nat) -> Seq<DeclaredView>
    decreases sections,
{
    if sections == 0 {
        seq![]
    } else {
        let i = sections - 1;
        let before = declared_of(root, i as nat);
        match object_of(root, section_name(i)) {
            Some(es) => before + section_deps(es, i),
            None => before,
        }
    }
}

/// What a dependency says, where its constraint names a version.
///
/// The constraint is decoded text, so an escape in it would put the span
/// somewhere else in the file. There is a span only where the file holds the
/// version right there.
pub open spec fn dependency_of(
    bytes: Seq<u8>,
    path: Seq<char>,
    d: DeclaredView,
) -> Option<ExtractedView> {
    match lowest_of(d.spec) {
        None => None,
        Some(l) => {
            let at = clamp(d.spec_at + clamp(l.start as int));
            let to = clamp(d.spec_at + clamp(l.end as int));
            Some(
                ExtractedView {
                    version_span: if 0 <= at <= to <= bytes.len() && bytes.subrange(at, to)
                        == encode_utf8(l.version) {
                        Some(range_of(bytes, at, to))
                    } else {
                        None
                    },
                    ..seen(
                        Ecosystem::Npm,
                        d.name,
                        l.version,
                        path,
                        range_of(bytes, d.start, d.end),
                        section_groups(d.section),
                        // A manifest states a constraint, never an installed
                        // version.
                        true,
                    )
                },
            )
        },
    }
}

pub open spec fn dependencies_of(
    bytes: Seq<u8>,
    path: Seq<char>,
    ds: Seq<DeclaredView>,
) -> Seq<ExtractedView>
    decreases ds.len(),
{
    if ds.len() == 0 {
        seq![]
    } else {
        match dependency_of(bytes, path, ds.last()) {
            Some(x) => dependencies_of(bytes, path, ds.drop_last()).push(x),
            None => dependencies_of(bytes, path, ds.drop_last()),
        }
    }
}

/// What the root of a `package.json` declares: each package once.
pub open spec fn manifest_of(root: Tree, src: Seq<char>, path: Seq<char>) -> Seq<ExtractedView> {
    match root {
        Tree::Object(es) => first_of_each(
            dependencies_of(encode_utf8(src), path, declared_of(es, 4)),
        ),
        _ => seq![],
    }
}

/// What a `package.json` declares; nothing where it does not parse.
pub open spec fn package_json_of(src: Seq<char>, path: Seq<char>) -> Seq<ExtractedView> {
    match json_of(src) {
        Some(root) => manifest_of(root, src, path),
        None => seq![],
    }
}

/// The names of some declarations.
pub open spec fn names_of(ds: Seq<DeclarationView>) -> Seq<Seq<char>> {
    Seq::new(ds.len(), |i: int| ds[i].name)
}

/// Every dependency by name, the first of each.
pub open spec fn named_once(
    bytes: Seq<u8>,
    path: Seq<char>,
    ds: Seq<DeclaredView>,
) -> Seq<DeclarationView>
    decreases ds.len(),
{
    if ds.len() == 0 {
        seq![]
    } else {
        let d = ds.last();
        let before = named_once(bytes, path, ds.drop_last());
        if d.name.len() == 0 || names_of(before).contains(d.name) {
            before
        } else {
            before.push(
                DeclarationView {
                    name: d.name,
                    site: SiteView { path, range: range_of(bytes, d.start, d.end) },
                    groups: section_groups(d.section),
                },
            )
        }
    }
}

pub open spec fn declarations_in(root: Tree, src: Seq<char>, path: Seq<char>) -> Seq<
    DeclarationView,
> {
    match root {
        Tree::Object(es) => named_once(encode_utf8(src), path, declared_of(es, 4)),
        _ => seq![],
    }
}

/// Every dependency a `package.json` names, one per name.
pub open spec fn declarations_of(src: Seq<char>, path: Seq<char>) -> Seq<DeclarationView> {
    match json_of(src) {
        Some(root) => declarations_in(root, src, path),
        None => seq![],
    }
}

// ---- the lockfile ----

/// How many `link` hops are followed before giving up.
pub const MAX_LINK_HOPS: usize = 8;

/// Which section declared an edge, which decides when it is followed.
#[derive(Clone, Copy, PartialEq, Eq, Debug, Structural)]
pub enum DepKind {
    /// `dependencies` and `optionalDependencies`: installed under this node.
    Runtime,
    /// `devDependencies`, followed only out of the node a walk started from.
    Dev,
    /// `peerDependencies`, followed only where nothing else reaches the node.
    Peer,
}

/// One name an entry depends on, and the section that named it.
#[derive(Clone, Debug)]
pub struct Dep {
    /// The name as the requirer writes it: an alias, where one is used.
    pub name: String,
    pub kind: DepKind,
}

/// What a [`Dep`] says.
pub struct DepView {
    pub name: Seq<char>,
    pub kind: DepKind,
}

impl DeepView for Dep {
    type V = DepView;

    open spec fn deep_view(&self) -> DepView {
        DepView { name: self.name@, kind: self.kind }
    }
}

/// One entry of a lockfile: a package at an install path.
#[derive(Clone, Debug)]
pub struct LockNode {
    /// The install path, verbatim: `""`, `"packages/api"`,
    /// `"node_modules/a/node_modules/b"`.
    pub path: String,
    /// The name the registry published it under, which an alias hides. This is
    /// the one advisories are keyed by.
    pub registry_name: String,
    /// Absent on a link entry, which records only where its target lives.
    pub version: Option<String>,
    /// What it depends on, in file order.
    pub deps: Vec<Dep>,
    /// The `resolved` path of a `"link": true` entry.
    pub link: Option<String>,
    /// Where the name is written, for a sighting's evidence.
    pub span: Range,
    /// Groups the lockfile records.
    pub groups: Vec<String>,
}

/// What a [`LockNode`] says.
pub struct NodeView {
    pub path: Seq<char>,
    pub registry_name: Seq<char>,
    pub version: Option<Seq<char>>,
    pub deps: Seq<DepView>,
    pub link: Option<Seq<char>>,
    pub span: Range,
    pub groups: Seq<Seq<char>>,
}

impl DeepView for LockNode {
    type V = NodeView;

    open spec fn deep_view(&self) -> NodeView {
        NodeView {
            path: self.path@,
            registry_name: self.registry_name@,
            version: self.version.deep_view(),
            deps: self.deps.deep_view(),
            link: self.link.deep_view(),
            span: self.span,
            groups: self.groups.deep_view(),
        }
    }
}

/// The install tree a lockfile describes.
pub struct LockView {
    pub nodes: Seq<NodeView>,
    pub has_edges: bool,
}

/// The groups an entry records. `devOptional` is written *instead of* the
/// other two for a package reachable only through dev and optional paths.
pub open spec fn groups_of(es: Seq<Entry>) -> Seq<Seq<char>> {
    let dev = is_true(es, "dev"@) || is_true(es, "devOptional"@);
    let optional = is_true(es, "optional"@) || is_true(es, "devOptional"@);
    let first: Seq<Seq<char>> = if dev { seq![DEV_GROUP@] } else { seq![] };
    if optional {
        first.push("optional"@)
    } else {
        first
    }
}

/// Dependency sections inside a lockfile entry.
pub open spec fn lock_section(i: int) -> (Seq<char>, DepKind) {
    if i == 0 {
        ("dependencies"@, DepKind::Runtime)
    } else if i == 1 {
        ("optionalDependencies"@, DepKind::Runtime)
    } else if i == 2 {
        ("devDependencies"@, DepKind::Dev)
    } else {
        ("peerDependencies"@, DepKind::Peer)
    }
}

pub open spec fn dep_names(deps: Seq<DepView>) -> Seq<Seq<char>> {
    Seq::new(deps.len(), |i: int| deps[i].name)
}

/// Edges with those that a section adds: the names not there yet.
pub open spec fn with_section(deps: Seq<DepView>, es: Seq<Entry>, kind: DepKind) -> Seq<DepView>
    decreases es.len(),
{
    if es.len() == 0 {
        deps
    } else {
        let before = with_section(deps, es.drop_last(), kind);
        let name = es.last().name;
        if name.len() == 0 || dep_names(before).contains(name) {
            before
        } else {
            before.push(DepView { name, kind })
        }
    }
}

/// The names an entry depends on, deduplicated, in section then file order.
pub open spec fn edges_of(es: Seq<Entry>, sections: nat) -> Seq<DepView>
    decreases sections,
{
    if sections == 0 {
        seq![]
    } else {
        let (name, kind) = lock_section(sections - 1);
        let before = edges_of(es, (sections - 1) as nat);
        match object_of(es, name) {
            Some(map) => with_section(before, map, kind),
            None => before,
        }
    }
}

pub open spec fn or_else(a: Option<Seq<char>>, b: Seq<char>) -> Seq<char> {
    match a {
        Some(x) => x,
        None => b,
    }
}

/// How much of an install path comes before the package's own name.
pub open spec fn prefix_len(key: Seq<char>) -> int {
    match rfind_of(key, "node_modules/"@) {
        Some(at) => at as int + 13,
        None => 0,
    }
}

/// The name an entry is installed under: the end of its install path, or for
/// the project's own packages the name their manifest gives.
pub open spec fn install_name(key: Seq<char>, published: Option<Seq<char>>) -> Seq<char> {
    match rfind_of(key, "node_modules/"@) {
        Some(at) => key.skip(at as int + 13),
        None => or_else(published, key),
    }
}

/// One entry of the flat map of lockfile versions 2 and 3.
///
/// An alias installs under a name the registry never published, and advisories
/// are keyed by the published one. The span covers the package's name inside
/// the install path.
pub open spec fn package_node(bytes: Seq<u8>, e: Entry) -> Option<NodeView> {
    match e.value {
        Tree::Object(es) => {
            let published = string_of(es, "name"@);
            let name = install_name(e.name, published);
            if name.len() == 0 && e.name.len() > 0 {
                None
            } else {
                Some(
                    NodeView {
                        path: e.name,
                        registry_name: or_else(published, name),
                        version: string_of(es, "version"@),
                        deps: edges_of(es, 4),
                        link: if is_true(es, "link"@) { string_of(es, "resolved"@) } else { None },
                        span: range_of(
                            bytes,
                            clamp(name_start(e) + utf8_len(e.name.take(prefix_len(e.name)))),
                            name_end(e),
                        ),
                        groups: groups_of(es),
                    },
                )
            }
        },
        _ => None,
    }
}

pub open spec fn package_nodes(bytes: Seq<u8>, es: Seq<Entry>) -> Seq<NodeView>
    decreases es.len(),
{
    if es.len() == 0 {
        seq![]
    } else {
        match package_node(bytes, es.last()) {
            Some(n) => package_nodes(bytes, es.drop_last()).push(n),
            None => package_nodes(bytes, es.drop_last()),
        }
    }
}

/// Whether any entry records an edge.
pub open spec fn any_edges(nodes: Seq<NodeView>) -> bool {
    exists|i: int| 0 <= i < nodes.len() && (#[trigger] nodes[i]).deps.len() > 0
}

/// The published name and version hidden behind an alias, as lockfile version
/// 1 writes it: `npm:<name>@<version>`, split at the last `@`.
pub open spec fn alias_of(version: Seq<char>) -> Option<(Seq<char>, Seq<char>)> {
    if "npm:"@.is_prefix_of(version) {
        let rest = version.skip(4);
        match rfind_of(rest, "@"@) {
            Some(at) => if at > 0 && at + 1 < rest.len() {
                Some((rest.take(at as int), rest.skip(at as int + 1)))
            } else {
                None
            },
            None => None,
        }
    } else {
        None
    }
}

/// The names of a `requires` map, as they stand.
pub open spec fn required(es: Seq<Entry>) -> Seq<DepView> {
    Seq::new(es.len(), |i: int| DepView { name: es[i].name, kind: DepKind::Runtime })
}

/// The install path of a name nested under another.
pub open spec fn nested_path(prefix: Seq<char>, name: Seq<char>) -> Seq<char> {
    if prefix.len() == 0 {
        "node_modules/"@ + name
    } else {
        prefix + "/"@ + "node_modules/"@ + name
    }
}

/// One entry of the nested tree of lockfile version 1. Its edges come from
/// `requires` and nowhere else: the nesting is a placement.
pub open spec fn tree_node(
    bytes: Seq<u8>,
    e: Entry,
    es: Seq<Entry>,
    prefix: Seq<char>,
) -> NodeView {
    let raw = string_of(es, "version"@);
    let alias = match raw {
        Some(v) => alias_of(v),
        None => None,
    };
    NodeView {
        path: nested_path(prefix, e.name),
        registry_name: match alias {
            Some((name, _)) => name,
            None => e.name,
        },
        version: match alias {
            Some((_, version)) => Some(version),
            None => raw,
        },
        deps: match object_of(es, "requires"@) {
            Some(map) => required(map),
            None => seq![],
        },
        link: None,
        span: range_of(bytes, name_start(e), name_end(e)),
        groups: groups_of(es),
    }
}

/// The property of an object is smaller than the object.
pub proof fn lemma_smaller(es: Seq<Entry>, name: Seq<char>)
    ensures
        object_of(es, name) is Some ==> decreases_to!(es => object_of(es, name)->Some_0),
    decreases es.len(),
{
    if es.len() > 0 {
        if es[0].name == name {
            assert(decreases_to!(es => es[0]));
            assert(decreases_to!(es[0] => es[0].value));
        } else {
            lemma_smaller(es.skip(1), name);
            assert(decreases_to!(es => es.skip(1)));
        }
    }
}

/// The nested tree flattened into install paths: each entry, then what is
/// nested under it.
pub open spec fn tree_nodes(bytes: Seq<u8>, es: Seq<Entry>, prefix: Seq<char>) -> LockView
    decreases es,
{
    if es.len() == 0 {
        LockView { nodes: seq![], has_edges: false }
    } else {
        let before = tree_nodes(bytes, es.drop_last(), prefix);
        let e = es.last();
        match e.value {
            Tree::Object(inner) => if e.name.len() == 0 {
                before
            } else {
                proof {
                    assert(decreases_to!(es => es[es.len() - 1]));
                    assert(decreases_to!(es[es.len() - 1] => es[es.len() - 1].value));
                    lemma_smaller(inner, "dependencies"@);
                }
                let node = tree_node(bytes, e, inner, prefix);
                let under = match object_of(inner, "dependencies"@) {
                    Some(nested) => tree_nodes(bytes, nested, node.path),
                    None => LockView { nodes: seq![], has_edges: false },
                };
                LockView {
                    nodes: before.nodes.push(node) + under.nodes,
                    has_edges: before.has_edges || object_of(inner, "requires"@) is Some
                        || under.has_edges,
                }
            },
            _ => before,
        }
    }
}

/// The entry lockfile version 1 does not write: where a walk starts.
pub open spec fn project_node(bytes: Seq<u8>) -> NodeView {
    NodeView {
        path: seq![],
        registry_name: seq![],
        version: None,
        deps: seq![],
        link: None,
        span: range_of(bytes, 0, 0),
        groups: seq![],
    }
}

/// The install tree the root of a lockfile describes. `packages` takes
/// precedence over `dependencies`: version 2 carries both.
pub open spec fn lock_in(root: Tree, src: Seq<char>) -> Option<LockView> {
    let bytes = encode_utf8(src);
    match root {
        Tree::Object(es) => match object_of(es, "packages"@) {
            Some(packages) => {
                let nodes = package_nodes(bytes, packages);
                Some(LockView { nodes, has_edges: any_edges(nodes) })
            },
            None => match object_of(es, "dependencies"@) {
                Some(deps) => {
                    let flat = tree_nodes(bytes, deps, seq![]);
                    Some(
                        LockView {
                            nodes: seq![project_node(bytes)] + flat.nodes,
                            has_edges: flat.has_edges,
                        },
                    )
                },
                None => None,
            },
        },
        _ => None,
    }
}

/// The install tree, or nothing where the file describes none.
pub open spec fn lock_of(src: Seq<char>) -> Option<LockView> {
    match json_of(src) {
        Some(root) => lock_in(root, src),
        None => None,
    }
}

/// The install paths of a tree.
pub open spec fn paths_of(nodes: Seq<NodeView>) -> Seq<Seq<char>> {
    Seq::new(nodes.len(), |i: int| nodes[i].path)
}

/// Where the directory above is: nothing above the first segment.
pub open spec fn above(path: Seq<char>) -> Seq<char> {
    match rfind_of(path, "/"@) {
        Some(at) => path.take(at as int),
        None => seq![],
    }
}

/// Walks a link entry to the package it stands for. A dangling target is a
/// dead end.
pub open spec fn follow_of(nodes: Seq<NodeView>, at: nat, hops: nat) -> Option<nat>
    decreases hops,
{
    if hops == 0 {
        None
    } else {
        match nodes[at as int].link {
            None => Some(at),
            Some(target) => match first_index(paths_of(nodes), target) {
                Some(next) => follow_of(nodes, next, (hops - 1) as nat),
                None => None,
            },
        }
    }
}

/// Where a name would be installed for a directory.
pub open spec fn candidate(dir: Seq<char>, name: Seq<char>) -> Seq<char> {
    if dir.len() == 0 {
        "node_modules/"@ + name
    } else {
        dir + "/"@ + "node_modules/"@ + name
    }
}

/// The node a name resolves to for an entry installed at `from`: the nearest
/// placement in `from` and the directories above it.
pub open spec fn resolve_of(nodes: Seq<NodeView>, from: Seq<char>, name: Seq<char>) -> Option<nat>
    decreases from.len(),
{
    match first_index(paths_of(nodes), candidate(from, name)) {
        Some(found) => follow_of(nodes, found, MAX_LINK_HOPS as nat),
        None => if from.len() == 0 {
            None
        } else {
            proof {
                crate::text::lemma_rfind(from, "/"@, from.len() - "/"@.len());
                reveal_strlit("/");
            }
            resolve_of(nodes, above(from), name)
        },
    }
}

/// Whether an entry is a dependency rather than one of the project's own
/// packages.
pub open spec fn is_dependency_path(path: Seq<char>) -> bool {
    find_of(path, "node_modules/"@) is Some
}

/// What an entry says as a sighting: nothing for the project's own packages
/// and for entries without a version.
pub open spec fn node_sighting(n: NodeView, path: Seq<char>) -> Option<ExtractedView> {
    if is_dependency_path(n.path) && n.version is Some {
        Some(
            seen(
                Ecosystem::Npm,
                n.registry_name,
                n.version->Some_0,
                path,
                n.span,
                n.groups,
                false,
            ),
        )
    } else {
        None
    }
}

/// A sighting for each dependency, with the entry it came from.
pub open spec fn sightings_of(nodes: Seq<NodeView>, path: Seq<char>) -> Seq<(nat, ExtractedView)>
    decreases nodes.len(),
{
    if nodes.len() == 0 {
        seq![]
    } else {
        match node_sighting(nodes.last(), path) {
            Some(x) => sightings_of(nodes.drop_last(), path).push(((nodes.len() - 1) as nat, x)),
            None => sightings_of(nodes.drop_last(), path),
        }
    }
}

pub open spec fn just_sightings(found: Seq<(nat, ExtractedView)>) -> Seq<ExtractedView> {
    Seq::new(found.len(), |i: int| found[i].1)
}

/// Every dependency a lockfile records.
pub open spec fn package_lock_of(src: Seq<char>, path: Seq<char>) -> Seq<ExtractedView> {
    match lock_of(src) {
        Some(lock) => just_sightings(sightings_of(lock.nodes, path)),
        None => seq![],
    }
}

// ---- code: the manifest ----

fn section(i: usize) -> (r: &'static str)
    ensures
        r@ == section_name(i as int),
{
    if i == 0 {
        "dependencies"
    } else if i == 1 {
        "optionalDependencies"
    } else if i == 2 {
        "peerDependencies"
    } else {
        "devDependencies"
    }
}

fn groups_for(i: usize) -> (r: Vec<String>)
    ensures
        r.deep_view() == section_groups(i as int),
{
    let mut out: Vec<String> = Vec::new();
    if i == 1 {
        out.push("optional".to_owned());
    } else if i == 2 {
        out.push("peer".to_owned());
    } else if i != 0 {
        out.push(DEV_GROUP.to_owned());
    }
    proof {
        assert(out.deep_view() =~= section_groups(i as int));
    }
    out
}

/// Where a property's name itself is written, inside its quotes.
fn name_place(p: &Property) -> (r: (usize, usize))
    ensures
        r.0 == name_start(crate::json::entry(*p)),
        r.1 == name_end(crate::json::entry(*p)),
{
    if p.quoted {
        (p.start.saturating_add(1), p.end.saturating_sub(1))
    } else {
        (p.start, p.end)
    }
}

/// One dependency as `package.json` writes it.
struct Declared<'a> {
    name: &'a str,
    start: usize,
    end: usize,
    spec: &'a str,
    spec_at: usize,
    section: usize,
}

spec fn declared_view(d: Declared) -> DeclaredView {
    DeclaredView {
        name: d.name@,
        start: d.start as int,
        end: d.end as int,
        spec: d.spec@,
        spec_at: d.spec_at as int,
        section: d.section as int,
    }
}

spec fn declared_views(v: Seq<Declared>) -> Seq<DeclaredView> {
    Seq::new(v.len(), |i: int| declared_view(v[i]))
}

/// Every dependency the four sections name, in attribution order.
///
/// Shared by [`package_json`] and [`declarations`]. Deliberately not
/// deduplicated: the two callers disagree about what a duplicate is, since
/// only one of them drops a constraint it cannot read a version from.
fn declared<'a>(root: &'a Vec<Property>) -> (r: Vec<Declared<'a>>)
    ensures
        declared_views(r@) == declared_of(entries(root@), 4),
{
    let ghost es = entries(root@);
    let mut out: Vec<Declared<'a>> = Vec::new();
    let mut s: usize = 0;
    proof {
        assert(declared_views(out@) =~= seq![]);
    }
    while s < 4
        invariant
            s <= 4,
            es == entries(root@),
            declared_views(out@) == declared_of(es, s as nat),
        decreases 4 - s,
    {
        let ghost before = declared_views(out@);
        if let Some(deps) = object(root, section(s)) {
            let ghost inner = entries(deps@);
            let mut i: usize = 0;
            proof {
                assert(before + section_deps(inner.take(0), s as int) =~= before);
            }
            while i < deps.len()
                invariant
                    i <= deps@.len(),
                    inner == entries(deps@),
                    declared_views(out@) == before + section_deps(inner.take(i as int), s as int),
                decreases deps@.len() - i,
            {
                let p = &deps[i];
                let ghost so_far = declared_views(out@);
                proof {
                    assert(inner.take(i + 1).drop_last() =~= inner.take(i as int));
                    assert(inner.take(i + 1).last() == crate::json::entry(*p));
                    crate::json::lemma_object(p.value);
                }
                if let Json::Text(spec, at) = &p.value {
                    let (start, end) = name_place(p);
                    let d = Declared {
                        name: p.name.as_str(),
                        start,
                        end,
                        spec: spec.as_str(),
                        // The literal starts with its quote; the value is one
                        // byte in.
                        spec_at: at.saturating_add(1),
                        section: s,
                    };
                    out.push(d);
                    proof {
                        assert(declared_views(out@) =~= so_far.push(declared_view(d)));
                        assert(declared_views(out@) =~= before + section_deps(
                            inner.take(i + 1),
                            s as int,
                        ));
                    }
                }
                i += 1;
            }
            proof {
                assert(inner.take(i as int) =~= inner);
            }
        }
        s += 1;
    }
    out
}

/// Where a version can be rewritten: where the source holds it.
fn span_of_version(
    src: &str,
    version: &[char],
    at: usize,
    to: usize,
    lines: &LineIndex,
) -> (r: Option<Range>)
    requires
        lines.wf(),
        lines.bytes@ == encode_utf8(src@),
    ensures
        r == (if at <= to <= encode_utf8(src@).len() && encode_utf8(src@).subrange(
            at as int,
            to as int,
        ) == encode_utf8(version@) {
            Some(range_of(encode_utf8(src@), at as int, to as int))
        } else {
            None
        }),
{
    let bytes = src.as_bytes();
    let text = crate::text::string(version);
    if at <= to && to <= bytes.len() && same_bytes(
        vstd::slice::slice_subrange(bytes, at, to),
        text.as_str().as_bytes(),
    ) {
        Some(lines.range(at, to))
    } else {
        None
    }
}

/// Dependencies declared in the root of a `package.json`.
pub fn package_json_from(root: &Json, src: &str, path: &str) -> (r: Vec<ExtractedPackage>)
    ensures
        r.deep_view() == manifest_of(tree(*root), src@, path@),
{
    proof {
        crate::json::lemma_object(*root);
    }
    let mut out: Vec<ExtractedPackage> = Vec::new();
    proof {
        assert(out.deep_view() =~= seq![]);
    }
    let properties = match root {
        Json::Object(ps) => ps,
        _ => return out,
    };
    let lines = LineIndex::new(src);
    let ghost bytes = encode_utf8(src@);
    let deps = declared(properties);
    let ghost ds = declared_views(deps@);
    let mut i: usize = 0;
    while i < deps.len()
        invariant
            i <= deps@.len(),
            lines.wf(),
            lines.bytes@ == bytes,
            bytes == encode_utf8(src@),
            ds == declared_views(deps@),
            out.deep_view() == dependencies_of(bytes, path@, ds.take(i as int)),
        decreases deps@.len() - i,
    {
        let d = &deps[i];
        let ghost before = out.deep_view();
        proof {
            assert(ds.take(i + 1).drop_last() =~= ds.take(i as int));
            assert(ds.take(i + 1).last() == declared_view(*d));
        }
        let spec = chars(d.spec);
        if let Some((version, a, b)) = lowest_satisfying(spec.as_slice()) {
            let at: usize = d.spec_at.saturating_add(a);
            let to: usize = d.spec_at.saturating_add(b);
            let version_span = span_of_version(src, version.as_slice(), at, to, &lines);
            let text = crate::text::string(version.as_slice());
            let found = sighting(
                Ecosystem::Npm,
                d.name,
                text.as_str(),
                path,
                lines.range(d.start, d.end),
                groups_for(d.section),
                true,
            ).with_version_span(version_span);
            out.push(found);
            proof {
                assert(out.deep_view() =~= before.push(found.deep_view()));
            }
        }
        i += 1;
    }
    proof {
        assert(ds.take(i as int) =~= ds);
    }
    first_per_name(out)
}

/// Dependencies declared in a `package.json`.
pub fn package_json(src: &str, path: &str) -> (r: Vec<ExtractedPackage>)
    ensures
        r.deep_view() == package_json_of(src@, path@),
{
    match parse(src) {
        Some(root) => package_json_from(&root, src, path),
        None => {
            let none: Vec<ExtractedPackage> = Vec::new();
            proof {
                assert(none.deep_view() =~= seq![]);
            }
            none
        },
    }
}

/// Every dependency the root of a `package.json` names, one per name.
pub fn declarations_from(root: &Json, src: &str, path: &str) -> (r: Vec<Declaration>)
    ensures
        r.deep_view() == declarations_in(tree(*root), src@, path@),
{
    proof {
        crate::json::lemma_object(*root);
    }
    let mut out: Vec<Declaration> = Vec::new();
    proof {
        assert(out.deep_view() =~= seq![]);
    }
    let properties = match root {
        Json::Object(ps) => ps,
        _ => return out,
    };
    let lines = LineIndex::new(src);
    let ghost bytes = encode_utf8(src@);
    let deps = declared(properties);
    let ghost ds = declared_views(deps@);
    let mut i: usize = 0;
    while i < deps.len()
        invariant
            i <= deps@.len(),
            lines.wf(),
            lines.bytes@ == bytes,
            ds == declared_views(deps@),
            out.deep_view() == named_once(bytes, path@, ds.take(i as int)),
        decreases deps@.len() - i,
    {
        let d = &deps[i];
        let ghost before = out.deep_view();
        proof {
            assert(ds.take(i + 1).drop_last() =~= ds.take(i as int));
            assert(ds.take(i + 1).last() == declared_view(*d));
        }
        if !d.name.is_empty() && !is_named(&out, d.name) {
            let found = Declaration {
                name: d.name.to_owned(),
                site: Site::new(path, lines.range(d.start, d.end)),
                groups: groups_for(d.section),
            };
            out.push(found);
            proof {
                assert(out.deep_view() =~= before.push(found.deep_view()));
            }
        }
        i += 1;
    }
    proof {
        assert(ds.take(i as int) =~= ds);
    }
    out
}

fn is_named(ds: &Vec<Declaration>, name: &str) -> (r: bool)
    ensures
        r == names_of(ds.deep_view()).contains(name@),
{
    let mut i: usize = 0;
    while i < ds.len()
        invariant
            i <= ds@.len(),
            forall|j: int| 0 <= j < i ==> #[trigger] names_of(ds.deep_view())[j] != name@,
        decreases ds@.len() - i,
    {
        if same(ds[i].name.as_str(), name) {
            proof {
                assert(names_of(ds.deep_view())[i as int] == name@);
            }
            return true;
        }
        i += 1;
    }
    false
}

/// Every dependency `package.json` names, one per name.
///
/// Unlike [`package_json`], a constraint no version can be read from
/// (`workspace:*`, `file:../shared`, a git URL) still yields a declaration.
/// The graph needs the edge, and somewhere to anchor what it reaches.
pub fn declarations(src: &str, path: &str) -> (r: Vec<Declaration>)
    ensures
        r.deep_view() == declarations_of(src@, path@),
{
    match parse(src) {
        Some(root) => declarations_from(&root, src, path),
        None => {
            let none: Vec<Declaration> = Vec::new();
            proof {
                assert(none.deep_view() =~= seq![]);
            }
            none
        },
    }
}

// ---- code: the lockfile ----

fn lock_groups(ps: &Vec<Property>) -> (r: Vec<String>)
    ensures
        r.deep_view() == groups_of(entries(ps@)),
{
    let dev_optional = flag(ps, "devOptional");
    let mut out: Vec<String> = Vec::new();
    if flag(ps, "dev") || dev_optional {
        out.push(DEV_GROUP.to_owned());
    }
    if flag(ps, "optional") || dev_optional {
        out.push("optional".to_owned());
    }
    proof {
        assert(out.deep_view() =~= groups_of(entries(ps@)));
    }
    out
}

fn has_dep(deps: &Vec<Dep>, name: &str) -> (r: bool)
    ensures
        r == dep_names(deps.deep_view()).contains(name@),
{
    let mut i: usize = 0;
    while i < deps.len()
        invariant
            i <= deps@.len(),
            forall|j: int| 0 <= j < i ==> #[trigger] dep_names(deps.deep_view())[j] != name@,
        decreases deps@.len() - i,
    {
        if same(deps[i].name.as_str(), name) {
            proof {
                assert(dep_names(deps.deep_view())[i as int] == name@);
            }
            return true;
        }
        i += 1;
    }
    false
}

fn add_section(deps: &mut Vec<Dep>, map: &Vec<Property>, kind: DepKind)
    ensures
        final(deps).deep_view() == with_section(old(deps).deep_view(), entries(map@), kind),
{
    let ghost start = deps.deep_view();
    let ghost es = entries(map@);
    let mut i: usize = 0;
    while i < map.len()
        invariant
            i <= map@.len(),
            es == entries(map@),
            deps.deep_view() == with_section(start, es.take(i as int), kind),
        decreases map@.len() - i,
    {
        let name = map[i].name.as_str();
        let ghost before = deps.deep_view();
        proof {
            assert(es.take(i + 1).drop_last() =~= es.take(i as int));
            assert(es.take(i + 1).last().name == name@);
        }
        if !name.is_empty() && !has_dep(deps, name) {
            let d = Dep { name: name.to_owned(), kind };
            deps.push(d);
            proof {
                assert(deps.deep_view() =~= before.push(d.deep_view()));
            }
        }
        i += 1;
    }
    proof {
        assert(es.take(i as int) =~= es);
    }
}

/// The names one entry depends on, deduplicated, in section then file order.
fn edges(ps: &Vec<Property>) -> (r: Vec<Dep>)
    ensures
        r.deep_view() == edges_of(entries(ps@), 4),
{
    let ghost es = entries(ps@);
    let mut deps: Vec<Dep> = Vec::new();
    proof {
        assert(deps.deep_view() =~= seq![]);
        assert(deps.deep_view() == edges_of(es, 0));
    }
    if let Some(map) = object(ps, "dependencies") {
        add_section(&mut deps, map, DepKind::Runtime);
    }
    proof {
        assert(deps.deep_view() == edges_of(es, 1));
    }
    if let Some(map) = object(ps, "optionalDependencies") {
        add_section(&mut deps, map, DepKind::Runtime);
    }
    proof {
        assert(deps.deep_view() == edges_of(es, 2));
    }
    if let Some(map) = object(ps, "devDependencies") {
        add_section(&mut deps, map, DepKind::Dev);
    }
    proof {
        assert(deps.deep_view() == edges_of(es, 3));
    }
    if let Some(map) = object(ps, "peerDependencies") {
        add_section(&mut deps, map, DepKind::Peer);
    }
    deps
}

/// Text that may be absent, as an owned copy.
fn owned(s: Option<&str>) -> (r: Option<String>)
    ensures
        r.deep_view() == (match s {
            Some(t) => Some(t@),
            None => None,
        }),
{
    match s {
        Some(t) => Some(t.to_owned()),
        None => None,
    }
}

/// One entry of the flat `packages` map.
fn read_package(p: &Property, lines: &LineIndex) -> (r: Option<LockNode>)
    requires
        lines.wf(),
    ensures
        r.deep_view() == package_node(lines.bytes@, crate::json::entry(*p)),
{
    let ghost e = crate::json::entry(*p);
    proof {
        crate::json::lemma_object(p.value);
        reveal_strlit("node_modules/");
    }
    let ps = match &p.value {
        Json::Object(ps) => ps,
        _ => return None,
    };
    let (start, end) = name_place(p);
    let key = chars(p.name.as_str());
    let marker = chars("node_modules/");
    let published = string(ps, "name");
    let len: usize = key.len();
    let at: Option<usize> = rfind(key.as_slice(), marker.as_slice());
    let prefix: usize = match at {
        Some(i) => i + 13,
        None => 0,
    };
    let name: String = match at {
        Some(i) => {
            proof {
                assert(key@.subrange(prefix as int, key@.len() as int) =~= key@.skip(i + 13));
            }
            crate::text::string(part(key.as_slice(), prefix, len))
        },
        None => match published {
            Some(n) => n.to_owned(),
            None => p.name.clone(),
        },
    };
    proof {
        assert(key@.subrange(0, prefix as int) =~= key@.take(prefix as int));
    }
    if name.as_str().is_empty() && key.len() > 0 {
        return None;
    }
    let name_at: usize = byte_len(part(key.as_slice(), 0, prefix));
    let link = if flag(ps, "link") { owned(string(ps, "resolved")) } else { None };
    Some(
        LockNode {
            path: p.name.clone(),
            registry_name: match published {
                Some(n) => n.to_owned(),
                None => name,
            },
            version: owned(string(ps, "version")),
            deps: edges(ps),
            link,
            span: lines.range(start.saturating_add(name_at), end),
            groups: lock_groups(ps),
        },
    )
}

fn push_node(nodes: &mut Vec<LockNode>, node: LockNode)
    ensures
        final(nodes).deep_view() == old(nodes).deep_view().push(node.deep_view()),
{
    let ghost before = nodes.deep_view();
    nodes.push(node);
    proof {
        assert(nodes.deep_view() =~= before.push(node.deep_view()));
    }
}

/// The flat `packages` map of lockfile versions 2 and 3.
fn from_packages(packages: &Vec<Property>, lines: &LineIndex) -> (r: (Vec<LockNode>, bool))
    requires
        lines.wf(),
    ensures
        r.0.deep_view() == package_nodes(lines.bytes@, entries(packages@)),
        r.1 == any_edges(r.0.deep_view()),
{
    let ghost es = entries(packages@);
    let mut nodes: Vec<LockNode> = Vec::new();
    let mut has_edges = false;
    let mut i: usize = 0;
    proof {
        assert(nodes.deep_view() =~= seq![]);
    }
    while i < packages.len()
        invariant
            i <= packages@.len(),
            lines.wf(),
            es == entries(packages@),
            nodes.deep_view() == package_nodes(lines.bytes@, es.take(i as int)),
            has_edges == any_edges(nodes.deep_view()),
        decreases packages@.len() - i,
    {
        let ghost before = nodes.deep_view();
        proof {
            assert(es.take(i + 1).drop_last() =~= es.take(i as int));
            assert(es.take(i + 1).last() == crate::json::entry(packages@[i as int]));
        }
        if let Some(node) = read_package(&packages[i], lines) {
            let edged = node.deps.len() > 0;
            let ghost view = node.deep_view();
            push_node(&mut nodes, node);
            proof {
                let after = nodes.deep_view();
                assert(view.deps.len() > 0 <==> edged);
                if any_edges(before) {
                    let k = choose|k: int|
                        0 <= k < before.len() && (#[trigger] before[k]).deps.len() > 0;
                    assert(after[k] == before[k]);
                }
                if edged {
                    assert(after[before.len() as int].deps.len() > 0);
                }
                if any_edges(after) && !edged {
                    let k = choose|k: int|
                        0 <= k < after.len() && (#[trigger] after[k]).deps.len() > 0;
                    assert(after[k] == before[k]);
                }
            }
            has_edges = has_edges || edged;
        }
        i += 1;
    }
    proof {
        assert(es.take(i as int) =~= es);
    }
    (nodes, has_edges)
}

/// The published name and version hidden behind an alias, if this is one.
///
/// `"h3-v2": "npm:h3@^2"` installs under `h3-v2` but is published as `h3`.
/// Lockfile version 1 folds that into the version field.
fn alias_target(version: &str) -> (r: Option<(String, String)>)
    ensures
        match r {
            Some(a) => alias_of(version@) == Some((a.0@, a.1@)),
            None => alias_of(version@) is None,
        },
{
    let all = chars(version);
    proof {
        reveal_strlit("npm:");
        reveal_strlit("@");
    }
    if !starts_with(all.as_slice(), "npm:") {
        return None;
    }
    let rest = part(all.as_slice(), 4, all.len());
    let len: usize = rest.len();
    let mark = chars("@");
    // Split on the last `@`, so that a scoped target keeps its own leading one.
    let at: usize = match rfind(rest, mark.as_slice()) {
        Some(i) => i,
        None => return None,
    };
    proof {
        assert(rest@ =~= version@.skip(4));
        assert(rest@.subrange(0, at as int) =~= rest@.take(at as int));
        assert(rest@.subrange(at + 1, rest@.len() as int) =~= rest@.skip(at + 1));
    }
    if at > 0 && at + 1 < len {
        Some((crate::text::string(part(rest, 0, at)), crate::text::string(part(rest, at + 1, len))))
    } else {
        None
    }
}

fn path_under(prefix: &str, name: &str) -> (r: String)
    ensures
        r@ == nested_path(prefix@, name@),
{
    let mut s = String::new();
    if !prefix.is_empty() {
        s.append(prefix);
        s.append("/");
    }
    s.append("node_modules/");
    s.append(name);
    proof {
        assert(s@ =~= nested_path(prefix@, name@));
    }
    s
}

/// The names of a `requires` map.
fn required_deps(map: &Vec<Property>) -> (r: Vec<Dep>)
    ensures
        r.deep_view() == required(entries(map@)),
{
    let mut deps: Vec<Dep> = Vec::new();
    let mut i: usize = 0;
    while i < map.len()
        invariant
            i <= map@.len(),
            deps@.len() == i,
            forall|j: int|
                0 <= j < i ==> (#[trigger] deps@[j]).deep_view() == required(entries(map@))[j],
        decreases map@.len() - i,
    {
        deps.push(Dep { name: map[i].name.clone(), kind: DepKind::Runtime });
        i += 1;
    }
    proof {
        assert(deps.deep_view() =~= required(entries(map@)));
    }
    deps
}

/// One entry of the nested tree.
fn read_nested(p: &Property, ps: &Vec<Property>, prefix: &str, lines: &LineIndex) -> (r: LockNode)
    requires
        lines.wf(),
    ensures
        r.deep_view() == tree_node(
            lines.bytes@,
            crate::json::entry(*p),
            entries(ps@),
            prefix@,
        ),
{
    let raw = string(ps, "version");
    let alias = match raw {
        Some(v) => alias_target(v),
        None => None,
    };
    let (registry_name, version) = match alias {
        Some((name, version)) => (name, Some(version)),
        None => (p.name.clone(), owned(raw)),
    };
    let deps = match object(ps, "requires") {
        Some(map) => required_deps(map),
        None => Vec::new(),
    };
    let (start, end) = name_place(p);
    let r = LockNode {
        path: path_under(prefix, p.name.as_str()),
        registry_name,
        version,
        deps,
        link: None,
        span: lines.range(start, end),
        groups: lock_groups(ps),
    };
    proof {
        if object_of(entries(ps@), "requires"@) is None {
            assert(r.deps.deep_view() =~= seq![]);
        }
    }
    r
}

/// The nested tree of lockfile version 1, flattened into install paths.
fn from_tree(
    deps: &Vec<Property>,
    prefix: &str,
    lines: &LineIndex,
    nodes: &mut Vec<LockNode>,
) -> (has_edges: bool)
    requires
        lines.wf(),
    ensures
        final(nodes).deep_view() == old(nodes).deep_view() + tree_nodes(
            lines.bytes@,
            entries(deps@),
            prefix@,
        ).nodes,
        has_edges == tree_nodes(lines.bytes@, entries(deps@), prefix@).has_edges,
    decreases entries(deps@),
{
    let ghost start = nodes.deep_view();
    let ghost es = entries(deps@);
    let ghost bytes = lines.bytes@;
    let mut has_edges = false;
    let mut i: usize = 0;
    proof {
        assert(start + tree_nodes(bytes, es.take(0), prefix@).nodes =~= start);
    }
    while i < deps.len()
        invariant
            i <= deps@.len(),
            lines.wf(),
            bytes == lines.bytes@,
            es == entries(deps@),
            nodes.deep_view() == start + tree_nodes(bytes, es.take(i as int), prefix@).nodes,
            has_edges == tree_nodes(bytes, es.take(i as int), prefix@).has_edges,
        decreases deps@.len() - i,
    {
        let p = &deps[i];
        let ghost so_far = tree_nodes(bytes, es.take(i as int), prefix@);
        proof {
            assert(es.take(i + 1).drop_last() =~= es.take(i as int));
            assert(es.take(i + 1).last() == crate::json::entry(*p));
            crate::json::lemma_object(p.value);
            assert(es[i as int] == crate::json::entry(*p));
            assert(decreases_to!(es => es[i as int]));
            assert(decreases_to!(es[i as int] => es[i as int].value));
        }
        if let Json::Object(ps) = &p.value {
            if !p.name.as_str().is_empty() {
                let node = read_nested(p, ps, prefix, lines);
                let path = node.path.clone();
                let ghost view = node.deep_view();
                let edged = object(ps, "requires").is_some();
                push_node(nodes, node);
                proof {
                    assert(tree(p.value) == Tree::Object(entries(ps@)));
                    assert(decreases_to!(tree(p.value) => tree(p.value)->Object_0));
                }
                let mut under = false;
                let nested = object(ps, "dependencies");
                if let Some(inner) = nested {
                    under = from_tree(inner, path.as_str(), lines, nodes);
                }
                proof {
                    let more = match object_of(entries(ps@), "dependencies"@) {
                        Some(n) => tree_nodes(bytes, n, view.path),
                        None => LockView { nodes: seq![], has_edges: false },
                    };
                    assert(nodes.deep_view() =~= start + (so_far.nodes.push(view) + more.nodes));
                }
                has_edges = has_edges || edged || under;
            }
        }
        i += 1;
    }
    proof {
        assert(es.take(i as int) =~= es);
    }
    has_edges
}

/// The install tree a `package-lock.json` describes.
///
/// Built once per lockfile and read by the graph, which is the only thing that
/// needs the edges; [`package_lock`] takes only the sightings.
#[derive(Debug)]
pub struct Lock {
    /// Every entry, in lockfile order. Order is load-bearing: a scan of an
    /// unchanged tree has to publish an unchanged report.
    pub nodes: Vec<LockNode>,
    pub by_path: Table,
    /// Whether the file recorded any edges at all. Early version 1 lockfiles
    /// have no `requires`, and an edgeless graph is indistinguishable from one
    /// where everything is a direct dependency.
    pub has_edges: bool,
}

impl DeepView for Lock {
    type V = LockView;

    open spec fn deep_view(&self) -> LockView {
        LockView { nodes: self.nodes.deep_view(), has_edges: self.has_edges }
    }
}

impl Lock {
    /// Entries are found by the paths they have.
    pub closed spec fn wf(self) -> bool {
        self.by_path.wf() && self.by_path.keys() == paths_of(self.nodes.deep_view())
    }

    pub fn new(nodes: Vec<LockNode>, has_edges: bool) -> (r: Lock)
        ensures
            r.wf(),
            r.deep_view() == (LockView { nodes: nodes.deep_view(), has_edges }),
    {
        let mut paths: Vec<String> = Vec::new();
        let mut i: usize = 0;
        while i < nodes.len()
            invariant
                i <= nodes@.len(),
                paths@.len() == i,
                forall|j: int| 0 <= j < i ==> (#[trigger] paths@[j])@ == nodes@[j].path@,
            decreases nodes@.len() - i,
        {
            paths.push(nodes[i].path.clone());
            i += 1;
        }
        proof {
            assert(paths.deep_view() =~= paths_of(nodes.deep_view()));
        }
        Lock { nodes, by_path: Table::new(paths), has_edges }
    }

    /// The entry at an exact install path: the first where there are several.
    pub fn at(&self, path: &str) -> (r: Option<usize>)
        requires
            self.wf(),
        ensures
            match r {
                Some(i) => first_index(paths_of(self.deep_view().nodes), path@) == Some(i as nat)
                    && i < self.nodes@.len(),
                None => first_index(paths_of(self.deep_view().nodes), path@) is None,
            },
    {
        self.by_path.find(path)
    }

    /// Walks a link entry to the package it stands for.
    fn follow(&self, found: usize) -> (r: Option<usize>)
        requires
            self.wf(),
            found < self.nodes@.len(),
        ensures
            match r {
                Some(i) => follow_of(
                    self.deep_view().nodes,
                    found as nat,
                    MAX_LINK_HOPS as nat,
                ) == Some(i as nat) && i < self.nodes@.len(),
                None => follow_of(
                    self.deep_view().nodes,
                    found as nat,
                    MAX_LINK_HOPS as nat,
                ) is None,
            },
    {
        let ghost nodes = self.deep_view().nodes;
        let mut at: usize = found;
        let mut hops: usize = MAX_LINK_HOPS;
        while hops > 0
            invariant
                self.wf(),
                nodes == self.deep_view().nodes,
                at < self.nodes@.len(),
                follow_of(nodes, found as nat, MAX_LINK_HOPS as nat) == follow_of(
                    nodes,
                    at as nat,
                    hops as nat,
                ),
            decreases hops,
        {
            proof {
                assert(nodes[at as int] == self.nodes@[at as int].deep_view());
            }
            match &self.nodes[at].link {
                None => return Some(at),
                Some(target) => match self.at(target.as_str()) {
                    Some(next) => {
                        at = next;
                    },
                    None => return None,
                },
            }
            hops -= 1;
        }
        None
    }

    /// The node npm would resolve `name` to, for an entry installed at `from`.
    ///
    /// Node consults `<dir>/node_modules/<name>` for `from` and every ancestor
    /// directory, **nearest first, stopping at the first hit**: the nearest
    /// placement is the one that satisfies the requirer's range, and a farther
    /// one may be a different major.
    pub fn resolve(&self, from: &str, name: &str) -> (r: Option<usize>)
        requires
            self.wf(),
        ensures
            match r {
                Some(i) => resolve_of(self.deep_view().nodes, from@, name@) == Some(i as nat) && i
                    < self.nodes@.len(),
                None => resolve_of(self.deep_view().nodes, from@, name@) is None,
            },
    {
        let ghost nodes = self.deep_view().nodes;
        let slash = chars("/");
        proof {
            reveal_strlit("/");
        }
        let mut dir: Vec<char> = chars(from);
        loop
            invariant
                self.wf(),
                nodes == self.deep_view().nodes,
                slash@ == "/"@,
                slash@.len() == 1,
                resolve_of(nodes, from@, name@) == resolve_of(nodes, dir@, name@),
            decreases dir@.len(),
        {
            let at = crate::text::string(dir.as_slice());
            let path = path_under(at.as_str(), name);
            proof {
                assert(path@ == candidate(dir@, name@));
            }
            if let Some(found) = self.at(path.as_str()) {
                return self.follow(found);
            }
            if dir.len() == 0 {
                return None;
            }
            let end: usize = match rfind(dir.as_slice(), slash.as_slice()) {
                Some(i) => i,
                None => 0,
            };
            let up = vstd::slice::slice_to_vec(part(dir.as_slice(), 0, end));
            proof {
                assert(up@ =~= above(dir@));
            }
            dir = up;
        }
    }

    /// One sighting per entry that is a dependency and records a version,
    /// paired with the node it came from so that attribution can find its way
    /// back.
    ///
    /// No version span: rewriting a lockfile means rewriting integrity hashes
    /// and resolved URLs, so no edit is ever offered against one.
    pub fn sightings(&self, path: &str) -> (r: Vec<(usize, ExtractedPackage)>)
        ensures
            pairs(r@) == sightings_of(self.deep_view().nodes, path@),
            forall|i: int| 0 <= i < r@.len() ==> (#[trigger] r@[i]).0 < self.nodes@.len(),
    {
        let ghost all = self.nodes.deep_view();
        let mut out: Vec<(usize, ExtractedPackage)> = Vec::new();
        let marker = chars("node_modules/");
        let mut i: usize = 0;
        proof {
            assert(pairs(out@) =~= seq![]);
        }
        while i < self.nodes.len()
            invariant
                i <= self.nodes@.len(),
                marker@ == "node_modules/"@,
                all == self.nodes.deep_view(),
                pairs(out@) == sightings_of(all.take(i as int), path@),
                forall|j: int| 0 <= j < out@.len() ==> (#[trigger] out@[j]).0 < self.nodes@.len(),
            decreases self.nodes@.len() - i,
        {
            let node = &self.nodes[i];
            let ghost before = pairs(out@);
            proof {
                assert(all.take(i + 1).drop_last() =~= all.take(i as int));
                assert(all.take(i + 1).last() == node.deep_view());
            }
            let key = chars(node.path.as_str());
            if find(key.as_slice(), marker.as_slice()).is_some() {
                if let Some(version) = &node.version {
                    let found = sighting(
                        Ecosystem::Npm,
                        node.registry_name.as_str(),
                        version.as_str(),
                        path,
                        node.span,
                        copy_strings(&node.groups),
                        false,
                    );
                    out.push((i, found));
                    proof {
                        assert(pairs(out@) =~= before.push((i as nat, found.deep_view())));
                    }
                }
            }
            i += 1;
        }
        proof {
            assert(all.take(i as int) =~= all);
        }
        out
    }
}

/// Sightings and the entries they came from, by what they say.
pub open spec fn pairs(v: Seq<(usize, ExtractedPackage)>) -> Seq<(nat, ExtractedView)> {
    Seq::new(v.len(), |i: int| (v[i].0 as nat, v[i].1.deep_view()))
}

/// The install tree that the root of a lockfile describes.
pub fn lock_from(root: &Json, src: &str) -> (r: Option<Lock>)
    ensures
        match r {
            Some(l) => l.wf() && lock_in(tree(*root), src@) == Some(l.deep_view()),
            None => lock_in(tree(*root), src@) is None,
        },
{
    proof {
        crate::json::lemma_object(*root);
    }
    let ps = match root {
        Json::Object(ps) => ps,
        _ => return None,
    };
    let lines = LineIndex::new(src);
    if let Some(packages) = object(ps, "packages") {
        let (nodes, has_edges) = from_packages(packages, &lines);
        return Some(Lock::new(nodes, has_edges));
    }
    if let Some(deps) = object(ps, "dependencies") {
        // Version 1 writes no entry for the project itself, but a walk has to
        // start somewhere: this is where the manifest's own names resolve from.
        let none: Vec<Dep> = Vec::new();
        let empty: Vec<String> = Vec::new();
        let project = LockNode {
            path: String::new(),
            registry_name: String::new(),
            version: None,
            deps: none,
            link: None,
            span: lines.range(0, 0),
            groups: empty,
        };
        proof {
            assert(project.deps.deep_view() =~= seq![]);
            assert(project.groups.deep_view() =~= seq![]);
            assert(project.deep_view() == project_node(lines.bytes@));
        }
        let mut nodes: Vec<LockNode> = Vec::new();
        proof {
            assert(nodes.deep_view() =~= seq![]);
        }
        push_node(&mut nodes, project);
        let root_path = String::new();
        proof {
            assert(nodes.deep_view() =~= seq![project_node(lines.bytes@)]);
        }
        let has_edges = from_tree(deps, root_path.as_str(), &lines, &mut nodes);
        return Some(Lock::new(nodes, has_edges));
    }
    None
}

/// The install tree, or `None` where the file describes none.
pub fn lock(src: &str) -> (r: Option<Lock>)
    ensures
        match r {
            Some(l) => l.wf() && lock_of(src@) == Some(l.deep_view()),
            None => lock_of(src@) is None,
        },
{
    match parse(src) {
        Some(root) => lock_from(&root, src),
        None => None,
    }
}

/// Every dependency a lockfile records.
pub fn package_lock(src: &str, path: &str) -> (r: Vec<ExtractedPackage>)
    ensures
        r.deep_view() == package_lock_of(src@, path@),
{
    let mut out: Vec<ExtractedPackage> = Vec::new();
    match lock(src) {
        Some(tree) => {
            let found = tree.sightings(path);
            let mut i: usize = 0;
            while i < found.len()
                invariant
                    i <= found@.len(),
                    out@.len() == i,
                    forall|j: int|
                        0 <= j < i ==> (#[trigger] out@[j]).deep_view() == found@[j].1.deep_view(),
                decreases found@.len() - i,
            {
                out.push(found[i].1.copy());
                i += 1;
            }
            proof {
                assert(out.deep_view() =~= just_sightings(pairs(found@)));
            }
        },
        None => {
            proof {
                assert(out.deep_view() =~= seq![]);
            }
        },
    }
    out
}

} // verus!
