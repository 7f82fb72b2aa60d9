//! Who is answerable for a transitive npm dependency.
//!
//! A lockfile entry carries no parent links, so the resolution npm performed
//! has to be reconstructed: [`crate::manifest::npm::Lock`] holds the install
//! paths and the names each entry asked for, and this module walks them.
//!
//! npm only. `pnpm-lock.yaml`, `yarn.lock` and `bun.lock` record different
//! structures and each needs its own builder; until one exists, their
//! transitive dependencies keep their lockfile anchoring.
use crate::manifest::npm::{
    above, candidate, follow_of, is_dependency_path, paths_of, resolve_of, DepKind, DepView, Lock,
    LockView, NodeView, MAX_LINK_HOPS,
};
use crate::model::{
    copy_paths, Declaration, DeclarationView, Ecosystem, KeyView, PackageKey, Site, SiteView,
};
use crate::order::Order;
use crate::path::{
    compare_paths, join, join_of, lemma_parent_shorter, normal, normal_of, parent, parent_of,
    path_order,
};
use crate::table::first_index;
use crate::text::{chars, contains, find, same, split, split_of, Class};
use vstd::prelude::*;

verus! {

/// The most lock entries a graph is built for.
///
/// Above this the attribution is abandoned wholesale rather than truncated. A
/// partial graph does not merely omit findings, it anchors them on the wrong
/// line.
pub const MAX_NODES: usize = 100_000;

/// How many distinct chains one finding reports.
///
/// The message names the first and counts the rest, so a fourth buys nothing.
pub const MAX_CHAINS: usize = 3;

/// A manifest that was read: where it is and what it declares.
#[derive(Clone, Debug)]
pub struct Manifest {
    pub path: String,
    pub declarations: Vec<Declaration>,
}

/// What a [`Manifest`] says.
pub struct ManifestView {
    pub path: Seq<char>,
    pub declarations: Seq<DeclarationView>,
}

impl DeepView for Manifest {
    type V = ManifestView;

    open spec fn deep_view(&self) -> ManifestView {
        ManifestView { path: self.path@, declarations: self.declarations.deep_view() }
    }
}

/// What the walk saw. The graph is allowed to see nothing else, or it would
/// attribute findings to manifests the report says do not exist.
pub struct Workspace {
    /// Every `package.json` the walk read.
    pub manifests: Vec<Manifest>,
    /// Every directory holding a lockfile, so that a member with one of its
    /// own is not claimed by the lockfile above it.
    pub lock_dirs: Vec<String>,
}

/// What a [`Workspace`] says.
pub struct WorkspaceView {
    pub manifests: Seq<ManifestView>,
    pub lock_dirs: Seq<Seq<char>>,
}

impl DeepView for Workspace {
    type V = WorkspaceView;

    open spec fn deep_view(&self) -> WorkspaceView {
        WorkspaceView {
            manifests: self.manifests.deep_view(),
            lock_dirs: self.lock_dirs.deep_view(),
        }
    }
}

/// One lock entry, and the manifest declaration answerable for it.
#[derive(Clone, Debug)]
pub struct Attribution {
    /// Which entry of the lockfile this is about.
    pub node: usize,
    /// Where the user can act: the direct dependency that reaches it.
    pub declared: Site,
    /// The chains from the manifest to the package, shortest first. Never
    /// empty: a package the manifest declares itself has none.
    pub paths: Vec<Vec<PackageKey>>,
}

/// What an [`Attribution`] says.
pub struct AttributionView {
    pub node: nat,
    pub declared: SiteView,
    pub paths: Seq<Seq<KeyView>>,
}

impl DeepView for Attribution {
    type V = AttributionView;

    open spec fn deep_view(&self) -> AttributionView {
        AttributionView {
            node: self.node as nat,
            declared: self.declared.deep_view(),
            paths: self.paths.deep_view(),
        }
    }
}

// ---- edges ----

/// An edge, once the name it names has been resolved to an entry.
pub struct EdgeView {
    pub to: nat,
    pub kind: DepKind,
}

/// The names an entry asked for, resolved. A name that resolves to nothing is
/// normal: an optional peer that was not installed, or a bundled dependency.
pub open spec fn edges_from(nodes: Seq<NodeView>, from: Seq<char>, deps: Seq<DepView>) -> Seq<
    EdgeView,
>
    decreases deps.len(),
{
    if deps.len() == 0 {
        seq![]
    } else {
        let before = edges_from(nodes, from, deps.drop_last());
        match resolve_of(nodes, from, deps.last().name) {
            Some(to) => before.push(EdgeView { to, kind: deps.last().kind }),
            None => before,
        }
    }
}

/// Every edge of a tree, by the entry it starts from.
pub open spec fn edges_of(nodes: Seq<NodeView>) -> Seq<Seq<EdgeView>> {
    Seq::new(nodes.len(), |i: int| edges_from(nodes, nodes[i].path, nodes[i].deps))
}

/// Whether a pass follows an edge.
///
/// Dev edges are followed only out of the manifest a walk starts from, which
/// seeding does directly: they are stripped from everything installed.
pub open spec fn follows(kind: DepKind, peers: bool) -> bool {
    match kind {
        DepKind::Runtime => true,
        DepKind::Dev => false,
        DepKind::Peer => peers,
    }
}

// ---- the walk ----

/// A breadth-first walk: for each entry, whether and how it was met.
pub struct WalkView {
    pub seen: Seq<bool>,
    /// The entry it was first met from; none for what the manifest names.
    pub predecessor: Seq<Option<nat>>,
    /// Other entries it was met from, exactly as close.
    pub alternates: Seq<Seq<nat>>,
    /// Which declaration the walk to it began at.
    pub origin: Seq<Option<nat>>,
    pub depth: Seq<nat>,
    pub queue: Seq<nat>,
}

pub open spec fn walk_start(n: nat) -> WalkView {
    WalkView {
        seen: Seq::new(n, |i: int| false),
        predecessor: Seq::new(n, |i: int| None::<nat>),
        alternates: Seq::new(n, |i: int| Seq::<nat>::empty()),
        origin: Seq::new(n, |i: int| None::<nat>),
        depth: Seq::new(n, |i: int| 0nat),
        queue: seq![],
    }
}

/// A declaration starts the walk at the entry it resolves to, the first that
/// does.
pub open spec fn seed_step(
    nodes: Seq<NodeView>,
    from: Seq<char>,
    w: WalkView,
    which: nat,
    name: Seq<char>,
) -> WalkView {
    match resolve_of(nodes, from, name) {
        None => w,
        Some(node) => if w.seen[node as int] {
            w
        } else {
            WalkView {
                seen: w.seen.update(node as int, true),
                origin: w.origin.update(node as int, Some(which)),
                depth: w.depth.update(node as int, 1),
                queue: w.queue.push(node),
                ..w
            }
        },
    }
}

pub open spec fn seeded(
    nodes: Seq<NodeView>,
    from: Seq<char>,
    declarations: Seq<DeclarationView>,
) -> WalkView
    decreases declarations.len(),
{
    if declarations.len() == 0 {
        walk_start(nodes.len())
    } else {
        seed_step(
            nodes,
            from,
            seeded(nodes, from, declarations.drop_last()),
            (declarations.len() - 1) as nat,
            declarations.last().name,
        )
    }
}

/// One edge out of the entry that is being visited.
pub open spec fn edge_step(w: WalkView, at: nat, e: EdgeView, peers: bool) -> WalkView {
    let to = e.to as int;
    if !follows(e.kind, peers) {
        w
    } else if !w.seen[to] {
        WalkView {
            seen: w.seen.update(to, true),
            predecessor: w.predecessor.update(to, Some(at)),
            alternates: w.alternates,
            origin: w.origin.update(to, w.origin[at as int]),
            depth: w.depth.update(to, w.depth[at as int] + 1),
            queue: w.queue.push(e.to),
        }
    } else if w.depth[to] == w.depth[at as int] + 1 && w.predecessor[to] != Some(at)
        && !w.alternates[to].contains(at) && w.alternates[to].len() < MAX_CHAINS - 1 {
        WalkView { alternates: w.alternates.update(to, w.alternates[to].push(at)), ..w }
    } else {
        w
    }
}

pub open spec fn edges_step(w: WalkView, at: nat, es: Seq<EdgeView>, peers: bool) -> WalkView
    decreases es.len(),
{
    if es.len() == 0 {
        w
    } else {
        edge_step(edges_step(w, at, es.drop_last(), peers), at, es.last(), peers)
    }
}

/// The walk once it has visited the entry at the front of its queue.
pub open spec fn visit(edges: Seq<Seq<EdgeView>>, w: WalkView, peers: bool) -> WalkView {
    let at = w.queue[0];
    edges_step(WalkView { queue: w.queue.skip(1), ..w }, at, edges[at as int], peers)
}

/// The walk once its queue is empty, or after so many visits.
pub open spec fn run(edges: Seq<Seq<EdgeView>>, w: WalkView, peers: bool, visits: nat) -> WalkView
    decreases visits,
{
    if visits == 0 || w.queue.len() == 0 {
        w
    } else {
        run(edges, visit(edges, w, peers), peers, (visits - 1) as nat)
    }
}

/// An entry and those it was met from, up to where the walk began.
pub open spec fn ancestry(predecessor: Seq<Option<nat>>, node: nat, most: nat) -> Seq<nat>
    decreases most,
{
    match predecessor[node as int] {
        Some(p) => if most == 0 {
            seq![node]
        } else {
            seq![node] + ancestry(predecessor, p, (most - 1) as nat)
        },
        None => seq![node],
    }
}

pub open spec fn key_at(nodes: Seq<NodeView>, node: nat) -> KeyView {
    KeyView { ecosystem: Ecosystem::Npm, name: nodes[node as int].registry_name }
}

/// The packages of some entries, last first.
pub open spec fn keys_back(nodes: Seq<NodeView>, back: Seq<nat>) -> Seq<KeyView> {
    Seq::new(back.len(), |i: int| key_at(nodes, back[back.len() - 1 - i]))
}

/// The chain from the manifest down to an entry: without the manifest itself,
/// and with the package.
pub open spec fn chain_to(
    nodes: Seq<NodeView>,
    predecessor: Seq<Option<nat>>,
    node: nat,
) -> Seq<KeyView> {
    keys_back(nodes, ancestry(predecessor, node, MAX_NODES as nat))
}

/// The chain by which an entry was first met, then the others as short.
pub open spec fn chains_to(nodes: Seq<NodeView>, w: WalkView, node: nat) -> Seq<Seq<KeyView>> {
    let others = w.alternates[node as int];
    seq![chain_to(nodes, w.predecessor, node)] + Seq::new(
        others.len(),
        |i: int| chain_to(nodes, w.predecessor, others[i]).push(key_at(nodes, node)),
    )
}

/// What the walk says of an entry: nothing where it did not meet it, and where
/// the manifest names it itself.
pub open spec fn attribution_of(
    nodes: Seq<NodeView>,
    declarations: Seq<DeclarationView>,
    w: WalkView,
    node: nat,
) -> Option<AttributionView> {
    let i = node as int;
    if w.seen[i] && w.predecessor[i] is Some && w.origin[i] is Some {
        Some(
            AttributionView {
                node,
                declared: declarations[w.origin[i]->Some_0 as int].site,
                paths: chains_to(nodes, w, node),
            },
        )
    } else {
        None
    }
}

/// What the walk says of the first entries.
pub open spec fn attributions_to(
    nodes: Seq<NodeView>,
    declarations: Seq<DeclarationView>,
    w: WalkView,
    n: nat,
) -> Seq<AttributionView>
    decreases n,
{
    if n == 0 {
        seq![]
    } else {
        let before = attributions_to(nodes, declarations, w, (n - 1) as nat);
        match attribution_of(nodes, declarations, w, (n - 1) as nat) {
            Some(a) => before.push(a),
            None => before,
        }
    }
}

/// A manifest a lockfile answers for, and where its walk begins.
pub struct RootView {
    pub node: nat,
    pub declarations: Seq<DeclarationView>,
}

pub open spec fn walked(nodes: Seq<NodeView>, root: RootView, peers: bool) -> WalkView {
    run(
        edges_of(nodes),
        seeded(nodes, nodes[root.node as int].path, root.declarations),
        peers,
        nodes.len(),
    )
}

pub open spec fn walk_of(nodes: Seq<NodeView>, root: RootView, peers: bool) -> Seq<
    AttributionView,
> {
    attributions_to(nodes, root.declarations, walked(nodes, root, peers), nodes.len())
}

pub open spec fn nodes_in(found: Seq<AttributionView>) -> Seq<nat> {
    Seq::new(found.len(), |i: int| found[i].node)
}

/// Some attributions, and those of a second list that are about other entries.
pub open spec fn completed(found: Seq<AttributionView>, extra: Seq<AttributionView>) -> Seq<
    AttributionView,
>
    decreases extra.len(),
{
    if extra.len() == 0 {
        found
    } else {
        let before = completed(found, extra.drop_last());
        if nodes_in(before).contains(extra.last().node) {
            before
        } else {
            before.push(extra.last())
        }
    }
}

/// Everything one manifest reaches. Peer edges are real, but a shorter route
/// than the reason a package is there, so that they only carry what nothing
/// else reaches.
pub open spec fn reach_of(nodes: Seq<NodeView>, root: RootView) -> Seq<AttributionView> {
    completed(walk_of(nodes, root, false), walk_of(nodes, root, true))
}

// ---- roots ----

/// The directory of the nearest lockfile at or above a directory, all of them
/// in their one spelling.
pub open spec fn nearest_of(dir: Seq<char>, lock_dirs: Seq<Seq<char>>) -> Option<Seq<char>>
    decreases dir.len(),
{
    if lock_dirs.contains(dir) {
        Some(dir)
    } else {
        match parent_of(dir) {
            Some(up) => {
                proof {
                    lemma_parent_shorter(dir);
                }
                nearest_of(up, lock_dirs)
            },
            None => None,
        }
    }
}

/// The one spelling of each of some paths.
pub open spec fn normals(paths: Seq<Seq<char>>) -> Seq<Seq<char>> {
    Seq::new(paths.len(), |i: int| normal_of(paths[i]))
}

/// What the manifest at a path in its one spelling declares, where it was read.
pub open spec fn manifest_at(manifests: Seq<ManifestView>, path: Seq<char>) -> Option<
    Seq<DeclarationView>,
>
    decreases manifests.len(),
{
    if manifests.len() == 0 {
        None
    } else if normal_of(manifests[0].path) == path {
        Some(manifests[0].declarations)
    } else {
        manifest_at(manifests.skip(1), path)
    }
}

/// The directory of one of the project's own packages.
pub open spec fn member_dir(lock_dir: Seq<char>, path: Seq<char>) -> Seq<char> {
    if path.len() == 0 {
        lock_dir
    } else {
        join_of(lock_dir, path)
    }
}

/// The manifest an entry stands for, if the lockfile answers for it.
///
/// The entry is one of the project's own packages, and inside the tree: a path
/// with `..` is a `file:` dependency. Its manifest was read. And no nearer
/// lockfile governs it, or it would be reported twice.
pub open spec fn root_of(
    nodes: Seq<NodeView>,
    i: nat,
    lock_dir: Seq<char>,
    seen: WorkspaceView,
) -> Option<RootView> {
    let path = nodes[i as int].path;
    let dir = member_dir(lock_dir, path);
    if is_dependency_path(path) || split_of(path, Class::One('/')).contains(".."@) {
        None
    } else if nearest_of(normal_of(dir), normals(seen.lock_dirs)) != Some(normal_of(lock_dir)) {
        None
    } else {
        match manifest_at(seen.manifests, join_of(dir, "package.json"@)) {
            Some(declarations) => Some(RootView { node: i, declarations }),
            None => None,
        }
    }
}

/// The manifests among the first entries that a lockfile answers for.
pub open spec fn roots_of(
    nodes: Seq<NodeView>,
    n: nat,
    lock_dir: Seq<char>,
    seen: WorkspaceView,
) -> Seq<RootView>
    decreases n,
{
    if n == 0 {
        seq![]
    } else {
        let before = roots_of(nodes, (n - 1) as nat, lock_dir, seen);
        match root_of(nodes, (n - 1) as nat, lock_dir, seen) {
            Some(r) => before.push(r),
            None => before,
        }
    }
}

pub open spec fn reached(nodes: Seq<NodeView>, roots: Seq<RootView>) -> Seq<AttributionView>
    decreases roots.len(),
{
    if roots.len() == 0 {
        seq![]
    } else {
        reached(nodes, roots.drop_last()) + reach_of(nodes, roots.last())
    }
}

// ---- order ----

/// Whether one of two attributions of an entry is listed first: by the file
/// and then the line of the declaration.
pub open spec fn listed_before(a: AttributionView, b: AttributionView) -> bool {
    let paths = path_order(a.declared.path, b.declared.path);
    paths == Order::Less || (paths == Order::Equal && a.declared.range.start.line
        < b.declared.range.start.line)
}

pub open spec fn listed_with(sorted: Seq<AttributionView>, x: AttributionView) -> Seq<
    AttributionView,
>
    decreases sorted.len(),
{
    if sorted.len() > 0 && listed_before(x, sorted.last()) {
        listed_with(sorted.drop_last(), x).push(sorted.last())
    } else {
        sorted.push(x)
    }
}

/// The attributions of one entry, in order.
pub open spec fn about(found: Seq<AttributionView>, node: nat) -> Seq<AttributionView>
    decreases found.len(),
{
    if found.len() == 0 {
        seq![]
    } else if found.last().node == node {
        listed_with(about(found.drop_last(), node), found.last())
    } else {
        about(found.drop_last(), node)
    }
}

/// Attributions by entry, in lockfile order.
pub open spec fn in_order(found: Seq<AttributionView>, n: nat) -> Seq<AttributionView>
    decreases n,
{
    if n == 0 {
        seq![]
    } else {
        in_order(found, (n - 1) as nat) + about(found, (n - 1) as nat)
    }
}

/// Which manifests a lockfile answers for, and what each of them reaches.
/// Nothing where the lockfile records no edges, since that cannot be told
/// apart from one where every dependency is direct.
pub open spec fn attribute_of(lock: LockView, lock_dir: Seq<char>, seen: WorkspaceView) -> Seq<
    AttributionView,
> {
    if !lock.has_edges || lock.nodes.len() > MAX_NODES {
        seq![]
    } else {
        in_order(
            reached(lock.nodes, roots_of(lock.nodes, lock.nodes.len(), lock_dir, seen)),
            lock.nodes.len(),
        )
    }
}

// ---- code ----

/// An edge, once the name it names has been resolved to an entry.
#[derive(Clone, Copy)]
struct Edge {
    to: usize,
    kind: DepKind,
}

spec fn edge_view(e: Edge) -> EdgeView {
    EdgeView { to: e.to as nat, kind: e.kind }
}

spec fn edge_views(v: Seq<Edge>) -> Seq<EdgeView> {
    Seq::new(v.len(), |i: int| edge_view(v[i]))
}

spec fn all_edges(v: Seq<Vec<Edge>>) -> Seq<Seq<EdgeView>> {
    Seq::new(v.len(), |i: int| edge_views(v[i]@))
}

/// Every name every entry asked for, resolved to the entry npm would have used.
fn resolve_edges(tree: &Lock) -> (r: Vec<Vec<Edge>>)
    requires
        tree.wf(),
    ensures
        all_edges(r@) == edges_of(tree.deep_view().nodes),
        forall|i: int, j: int|
            0 <= i < r@.len() && 0 <= j < r@[i]@.len() ==> (#[trigger] r@[i]@[j]).to
                < tree.nodes@.len(),
{
    let ghost nodes = tree.deep_view().nodes;
    let mut out: Vec<Vec<Edge>> = Vec::new();
    let mut i: usize = 0;
    while i < tree.nodes.len()
        invariant
            i <= tree.nodes@.len(),
            tree.wf(),
            nodes == tree.deep_view().nodes,
            out@.len() == i,
            forall|k: int|
                0 <= k < i ==> edge_views((#[trigger] out@[k])@) == edges_from(
                    nodes,
                    nodes[k].path,
                    nodes[k].deps,
                ),
            forall|k: int, j: int|
                0 <= k < i && 0 <= j < out@[k]@.len() ==> (#[trigger] out@[k]@[j]).to
                    < tree.nodes@.len(),
        decreases tree.nodes@.len() - i,
    {
        let node = &tree.nodes[i];
        let ghost deps = nodes[i as int].deps;
        let mut edges: Vec<Edge> = Vec::new();
        let mut j: usize = 0;
        proof {
            assert(nodes[i as int] == node.deep_view());
            assert(edge_views(edges@) =~= seq![]);
        }
        while j < node.deps.len()
            invariant
                j <= node.deps@.len(),
                tree.wf(),
                nodes == tree.deep_view().nodes,
                i < tree.nodes@.len(),
                nodes[i as int] == node.deep_view(),
                deps == nodes[i as int].deps,
                deps == node.deps.deep_view(),
                edge_views(edges@) == edges_from(nodes, nodes[i as int].path, deps.take(j as int)),
                forall|k: int| 0 <= k < edges@.len() ==> (#[trigger] edges@[k]).to < tree.nodes@.len(),
            decreases node.deps@.len() - j,
        {
            let ghost before = edge_views(edges@);
            proof {
                assert(deps.take(j + 1).drop_last() =~= deps.take(j as int));
                assert(deps.take(j + 1).last() == node.deps@[j as int].deep_view());
            }
            if let Some(to) = tree.resolve(node.path.as_str(), node.deps[j].name.as_str()) {
                let e = Edge { to, kind: node.deps[j].kind };
                edges.push(e);
                proof {
                    assert(edge_views(edges@) =~= before.push(edge_view(e)));
                }
            }
            j += 1;
        }
        proof {
            assert(deps.take(j as int) =~= deps);
        }
        out.push(edges);
        i += 1;
    }
    proof {
        assert(all_edges(out@) =~= edges_of(nodes));
    }
    out
}

fn allows(kind: DepKind, peers: bool) -> (r: bool)
    ensures
        r == follows(kind, peers),
{
    match kind {
        DepKind::Runtime => true,
        DepKind::Dev => false,
        DepKind::Peer => peers,
    }
}

/// A breadth-first walk under way.
struct Walk {
    seen: Vec<bool>,
    predecessor: Vec<Option<usize>>,
    alternates: Vec<Vec<usize>>,
    origin: Vec<Option<usize>>,
    depth: Vec<usize>,
    queue: Vec<usize>,
    /// How much of the queue has been visited.
    head: usize,
}

spec fn optional(v: Option<usize>) -> Option<nat> {
    match v {
        Some(x) => Some(x as nat),
        None => None,
    }
}

spec fn numbers(v: Seq<usize>) -> Seq<nat> {
    Seq::new(v.len(), |i: int| v[i] as nat)
}

spec fn optionals(v: Seq<Option<usize>>) -> Seq<Option<nat>> {
    Seq::new(v.len(), |i: int| optional(v[i]))
}

spec fn lists(v: Seq<Vec<usize>>) -> Seq<Seq<nat>> {
    Seq::new(v.len(), |i: int| numbers(v[i]@))
}

impl Walk {
    spec fn view(self) -> WalkView {
        WalkView {
            seen: self.seen@,
            predecessor: optionals(self.predecessor@),
            alternates: lists(self.alternates@),
            origin: optionals(self.origin@),
            depth: numbers(self.depth@),
            queue: numbers(self.queue@.skip(self.head as int)),
        }
    }

    /// How many entries are listed as seen.
    spec fn sized(self, n: nat) -> bool {
        &&& self.seen@.len() == n
        &&& self.predecessor@.len() == n
        &&& self.alternates@.len() == n
        &&& self.origin@.len() == n
        &&& self.depth@.len() == n
        &&& self.head <= self.queue@.len()
        &&& self.queue@.no_duplicates()
        &&& forall|i: int| 0 <= i < self.queue@.len() ==> (#[trigger] self.queue@[i]) < n
            && self.seen@[self.queue@[i] as int]
        &&& forall|i: int| 0 <= i < n ==> (#[trigger] self.depth@[i]) <= self.head + 1
        &&& forall|i: int|
            0 <= i < n ==> (#[trigger] self.predecessor@[i] matches Some(p) ==> p < n)
        &&& forall|i: int, j: int|
            0 <= i < n && 0 <= j < self.alternates@[i]@.len() ==> (
            #[trigger] self.alternates@[i]@[j]) < n
    }

    fn new(n: usize) -> (r: Walk)
        ensures
            r.sized(n as nat),
            r.head == 0,
            r.view() == walk_start(n as nat),
    {
        let mut seen: Vec<bool> = Vec::new();
        let mut predecessor: Vec<Option<usize>> = Vec::new();
        let mut alternates: Vec<Vec<usize>> = Vec::new();
        let mut origin: Vec<Option<usize>> = Vec::new();
        let mut depth: Vec<usize> = Vec::new();
        while seen.len() < n
            invariant
                seen@.len() <= n,
                predecessor@.len() == seen@.len(),
                alternates@.len() == seen@.len(),
                origin@.len() == seen@.len(),
                depth@.len() == seen@.len(),
                forall|i: int| 0 <= i < seen@.len() ==> !(#[trigger] seen@[i]),
                forall|i: int| 0 <= i < seen@.len() ==> (#[trigger] predecessor@[i]) is None,
                forall|i: int| 0 <= i < seen@.len() ==> (#[trigger] alternates@[i])@.len() == 0,
                forall|i: int| 0 <= i < seen@.len() ==> (#[trigger] origin@[i]) is None,
                forall|i: int| 0 <= i < seen@.len() ==> (#[trigger] depth@[i]) == 0,
            decreases n - seen@.len(),
        {
            seen.push(false);
            predecessor.push(None);
            alternates.push(Vec::new());
            origin.push(None);
            depth.push(0);
        }
        let r = Walk { seen, predecessor, alternates, origin, depth, queue: Vec::new(), head: 0 };
        proof {
            let w = walk_start(n as nat);
            assert(r.view().seen =~= w.seen);
            assert(r.view().predecessor =~= w.predecessor);
            assert forall|i: int| 0 <= i < n implies r.view().alternates[i] =~= w.alternates[i] by {
                assert(r.alternates@[i]@.len() == 0);
            }
            assert(r.view().alternates =~= w.alternates);
            assert(r.view().origin =~= w.origin);
            assert(r.view().depth =~= w.depth);
            assert(r.view().queue =~= w.queue);
        }
        r
    }

    fn seed(&mut self, which: usize, node: usize)
        requires
            old(self).sized(old(self).seen@.len()),
            node < old(self).seen@.len(),
        ensures
            final(self).sized(old(self).seen@.len()),
            final(self).seen@.len() == old(self).seen@.len(),
            final(self).head == old(self).head,
            final(self).view() == (if old(self).seen@[node as int] {
                old(self).view()
            } else {
                WalkView {
                    seen: old(self).view().seen.update(node as int, true),
                    origin: old(self).view().origin.update(node as int, Some(which as nat)),
                    depth: old(self).view().depth.update(node as int, 1),
                    queue: old(self).view().queue.push(node as nat),
                    ..old(self).view()
                }
            }),
    {
        if self.seen[node] {
            return ;
        }
        let ghost before = *self;
        let ghost w = self.view();
        self.seen.set(node, true);
        self.origin.set(node, Some(which));
        self.depth.set(node, 1);
        self.queue.push(node);
        proof {
            let v = self.view();
            assert(v.origin =~= w.origin.update(node as int, Some(which as nat)));
            assert(v.depth =~= w.depth.update(node as int, 1));
            assert(self.queue@.skip(self.head as int) =~= before.queue@.skip(
                self.head as int,
            ).push(node));
            assert(v.queue =~= w.queue.push(node as nat));
            assert forall|i: int| 0 <= i < self.queue@.len() implies (#[trigger] self.queue@[i])
                < self.seen@.len() && self.seen@[self.queue@[i] as int] by {
                if i < before.queue@.len() {
                    assert(self.queue@[i] == before.queue@[i]);
                }
            }
            assert(self.queue@.no_duplicates()) by {
                assert forall|i: int, j: int|
                    0 <= i < self.queue@.len() && 0 <= j < self.queue@.len() && i
                        != j implies self.queue@[i] != self.queue@[j] by {
                    if i < before.queue@.len() && j < before.queue@.len() {
                        assert(self.queue@[i] == before.queue@[i]);
                        assert(self.queue@[j] == before.queue@[j]);
                    } else if i < before.queue@.len() {
                        assert(before.seen@[before.queue@[i] as int]);
                    } else {
                        assert(before.seen@[before.queue@[j] as int]);
                    }
                }
            }
        }
    }

    /// One edge out of the entry at the end of what has been visited.
    fn step(&mut self, at: usize, e: Edge, peers: bool)
        requires
            old(self).sized(old(self).seen@.len()),
            old(self).seen@.len() <= MAX_NODES,
            at < old(self).seen@.len(),
            e.to < old(self).seen@.len(),
            old(self).head > 0,
            old(self).depth@[at as int] <= old(self).head,
        ensures
            final(self).sized(old(self).seen@.len()),
            final(self).seen@.len() == old(self).seen@.len(),
            final(self).head == old(self).head,
            old(self).seen@[at as int] ==> final(self).depth@[at as int] == old(self).depth@[at as int],
            old(self).seen@[at as int] ==> final(self).seen@[at as int],
            final(self).view() == edge_step(old(self).view(), at as nat, edge_view(e), peers),
    {
        if !allows(e.kind, peers) {
            return ;
        }
        let ghost before = *self;
        let ghost w = self.view();
        proof {
            assert(w.depth[at as int] == self.depth@[at as int] as nat);
            assert(w.depth[e.to as int] == self.depth@[e.to as int] as nat);
            assert(self.depth@[at as int] <= self.head);
            assert(self.head <= MAX_NODES) by {
                lemma_queue_bound(self.queue@, self.seen@.len());
            }
        }
        let next: usize = self.depth[at] + 1;
        if !self.seen[e.to] {
            self.seen.set(e.to, true);
            self.predecessor.set(e.to, Some(at));
            let o = self.origin[at];
            self.origin.set(e.to, o);
            self.depth.set(e.to, next);
            self.queue.push(e.to);
            proof {
                let v = self.view();
                let want = edge_step(w, at as nat, edge_view(e), peers);
                assert(v.predecessor =~= want.predecessor);
                assert(v.origin =~= want.origin);
                assert(v.depth =~= want.depth);
                assert(v.alternates =~= want.alternates);
                assert(self.queue@.skip(self.head as int) =~= before.queue@.skip(
                    self.head as int,
                ).push(e.to));
                assert(v.queue =~= want.queue);
                assert forall|i: int| 0 <= i < self.queue@.len() implies (
                #[trigger] self.queue@[i]) < self.seen@.len()
                    && self.seen@[self.queue@[i] as int] by {
                    if i < before.queue@.len() {
                        assert(self.queue@[i] == before.queue@[i]);
                    }
                }
                assert(self.queue@.no_duplicates()) by {
                    assert forall|i: int, j: int|
                        0 <= i < self.queue@.len() && 0 <= j < self.queue@.len() && i
                            != j implies self.queue@[i] != self.queue@[j] by {
                        if i < before.queue@.len() && j < before.queue@.len() {
                            assert(self.queue@[i] == before.queue@[i]);
                            assert(self.queue@[j] == before.queue@[j]);
                        } else if i < before.queue@.len() {
                            assert(before.seen@[before.queue@[i] as int]);
                        } else {
                            assert(before.seen@[before.queue@[j] as int]);
                        }
                    }
                }
            }
        } else if self.depth[e.to] == next && !is_some_of(self.predecessor[e.to], at) {
            let known = holds(&self.alternates[e.to], at);
            if !known && self.alternates[e.to].len() < MAX_CHAINS - 1 {
                let mut list: Vec<usize> = Vec::new();
                core::mem::swap(&mut self.alternates[e.to], &mut list);
                let ghost had = list@;
                list.push(at);
                self.alternates.set(e.to, list);
                proof {
                    let v = self.view();
                    let want = edge_step(w, at as nat, edge_view(e), peers);
                    assert(numbers(list@) =~= numbers(had).push(at as nat));
                    assert(v.alternates =~= want.alternates);
                    assert forall|i: int, j: int|
                        0 <= i < self.seen@.len() && 0 <= j < self.alternates@[i]@.len() implies (
                    #[trigger] self.alternates@[i]@[j]) < self.seen@.len() by {
                        if i == e.to {
                            if j < had.len() {
                                assert(before.alternates@[i]@[j] == had[j]);
                            }
                        } else {
                            assert(self.alternates@[i] == before.alternates@[i]);
                        }
                    }
                }
            }
        }
    }
}

fn is_some_of(v: Option<usize>, x: usize) -> (r: bool)
    ensures
        r == (optional(v) == Some(x as nat)),
{
    match v {
        Some(y) => y == x,
        None => false,
    }
}

fn holds(v: &Vec<usize>, x: usize) -> (r: bool)
    ensures
        r == numbers(v@).contains(x as nat),
{
    let mut i: usize = 0;
    while i < v.len()
        invariant
            i <= v@.len(),
            forall|j: int| 0 <= j < i ==> #[trigger] numbers(v@)[j] != x,
        decreases v@.len() - i,
    {
        if v[i] == x {
            proof {
                assert(numbers(v@)[i as int] == x as nat);
            }
            return true;
        }
        i += 1;
    }
    false
}

/// Distinct entries are no more than there are.
proof fn lemma_queue_bound(queue: Seq<usize>, n: nat)
    requires
        queue.no_duplicates(),
        forall|i: int| 0 <= i < queue.len() ==> (#[trigger] queue[i]) < n,
    ensures
        queue.len() <= n,
{
    let numbers = Set::new(|x: usize| x < n);
    lemma_below(n);
    queue.unique_seq_to_set();
    assert(queue.to_set().subset_of(Set::new(|x: usize| x < n)));
    vstd::set_lib::lemma_len_subset(queue.to_set(), Set::new(|x: usize| x < n));
}

proof fn lemma_below(n: nat)
    ensures
        Set::new(|x: usize| x < n).finite(),
        Set::new(|x: usize| x < n).len() <= n,
    decreases n,
{
    let all = Set::new(|x: usize| x < n);
    if n == 0 {
        assert(all =~= Set::empty());
    } else {
        lemma_below((n - 1) as nat);
        let fewer = Set::new(|x: usize| x < (n - 1) as nat);
        if n - 1 <= usize::MAX {
            assert(all =~= fewer.insert((n - 1) as usize));
        } else {
            assert(all =~= fewer);
        }
    }
}

/// A manifest a lockfile answers for, and where its walk begins.
struct Root<'a> {
    node: usize,
    declarations: &'a Vec<Declaration>,
}

spec fn root_view(r: Root) -> RootView {
    RootView { node: r.node as nat, declarations: r.declarations.deep_view() }
}

spec fn root_views(v: Seq<Root>) -> Seq<RootView> {
    Seq::new(v.len(), |i: int| root_view(v[i]))
}

fn seed_all(tree: &Lock, root: &Root) -> (r: Walk)
    requires
        tree.wf(),
        root.node < tree.nodes@.len(),
    ensures
        r.sized(tree.nodes@.len()),
        r.head == 0,
        r.view() == seeded(
            tree.deep_view().nodes,
            tree.deep_view().nodes[root.node as int].path,
            root.declarations.deep_view(),
        ),
{
    let ghost nodes = tree.deep_view().nodes;
    let ghost ds = root.declarations.deep_view();
    let from = tree.nodes[root.node].path.as_str();
    let mut walk = Walk::new(tree.nodes.len());
    let mut i: usize = 0;
    proof {
        assert(nodes[root.node as int].path == from@);
    }
    while i < root.declarations.len()
        invariant
            i <= root.declarations@.len(),
            tree.wf(),
            nodes == tree.deep_view().nodes,
            ds == root.declarations.deep_view(),
            walk.sized(tree.nodes@.len()),
            walk.head == 0,
            walk.view() == seeded(nodes, from@, ds.take(i as int)),
        decreases root.declarations@.len() - i,
    {
        proof {
            assert(ds.take(i + 1).drop_last() =~= ds.take(i as int));
            assert(ds.take(i + 1).last() == root.declarations@[i as int].deep_view());
        }
        if let Some(node) = tree.resolve(from, root.declarations[i].name.as_str()) {
            walk.seed(i, node);
        }
        i += 1;
    }
    proof {
        assert(ds.take(i as int) =~= ds);
    }
    walk
}

fn run_walk(walk: &mut Walk, edges: &Vec<Vec<Edge>>, peers: bool)
    requires
        old(walk).sized(edges@.len()),
        old(walk).head == 0,
        edges@.len() <= MAX_NODES,
        forall|i: int, j: int|
            0 <= i < edges@.len() && 0 <= j < edges@[i]@.len() ==> (#[trigger] edges@[i]@[j]).to
                < edges@.len(),
    ensures
        final(walk).sized(edges@.len()),
        final(walk).view() == run(all_edges(edges@), old(walk).view(), peers, edges@.len()),
{
    let ghost start = walk.view();
    let ghost es = all_edges(edges@);
    let n: usize = edges.len();
    while walk.head < walk.queue.len()
        invariant
            walk.sized(n as nat),
            n == edges@.len(),
            n <= MAX_NODES,
            es == all_edges(edges@),
            forall|i: int, j: int|
                0 <= i < edges@.len() && 0 <= j < edges@[i]@.len() ==> (
                #[trigger] edges@[i]@[j]).to < edges@.len(),
            walk.head <= n,
            run(es, start, peers, n as nat) == run(es, walk.view(), peers, (n - walk.head) as nat),
        decreases n - walk.head,
    {
        proof {
            lemma_queue_bound(walk.queue@, n as nat);
        }
        let ghost w = walk.view();
        let h: usize = walk.head;
        let at: usize = walk.queue[h];
        let ghost skipped = WalkView { queue: w.queue.skip(1), ..w };
        proof {
            assert(w.queue[0] == at as nat);
            assert(walk.queue@.skip(walk.head as int).skip(1) =~= walk.queue@.skip(walk.head + 1));
            assert(numbers(walk.queue@.skip(walk.head + 1)) =~= w.queue.skip(1));
        }
        walk.head = h + 1;
        let out = &edges[at];
        let ghost views = edge_views(out@);
        let mut j: usize = 0;
        proof {
            assert(es[at as int] == views);
            assert(walk.view() == skipped);
        }
        while j < out.len()
            invariant
                j <= out@.len(),
                n == edges@.len(),
                n <= MAX_NODES,
                at < n,
                out == &edges@[at as int],
                views == edge_views(out@),
                forall|i: int, j: int|
                    0 <= i < edges@.len() && 0 <= j < edges@[i]@.len() ==> (
                    #[trigger] edges@[i]@[j]).to < edges@.len(),
                walk.sized(n as nat),
                0 < walk.head <= n,
                walk.head == h + 1,
                walk.seen@[at as int],
                walk.depth@[at as int] <= walk.head,
                walk.view() == edges_step(skipped, at as nat, views.take(j as int), peers),
            decreases out@.len() - j,
        {
            proof {
                assert(views.take(j + 1).drop_last() =~= views.take(j as int));
                assert(views.take(j + 1).last() == edge_view(out@[j as int]));
                assert(edges@[at as int]@[j as int].to < n);
            }
            walk.step(at, out[j], peers);
            j += 1;
        }
        proof {
            assert(views.take(j as int) =~= views);
        }
    }
    proof {
        assert(walk.view().queue.len() == 0);
    }
}

fn key_of(tree: &Lock, node: usize) -> (r: PackageKey)
    requires
        node < tree.nodes@.len(),
    ensures
        r.deep_view() == key_at(tree.deep_view().nodes, node as nat),
{
    PackageKey::new(Ecosystem::Npm, tree.nodes[node].registry_name.as_str())
}

/// The chain from the manifest down to `node`, excluding the manifest and
/// including the package itself.
fn chain(tree: &Lock, predecessor: &Vec<Option<usize>>, node: usize) -> (r: Vec<PackageKey>)
    requires
        node < tree.nodes@.len(),
        predecessor@.len() == tree.nodes@.len(),
        forall|i: int|
            0 <= i < predecessor@.len() ==> (#[trigger] predecessor@[i] matches Some(p) ==> p
                < tree.nodes@.len()),
    ensures
        r.deep_view() == chain_to(
            tree.deep_view().nodes,
            optionals(predecessor@),
            node as nat,
        ),
{
    let ghost nodes = tree.deep_view().nodes;
    let ghost pred = optionals(predecessor@);
    let ghost whole = ancestry(pred, node as nat, MAX_NODES as nat);
    let mut back: Vec<usize> = Vec::new();
    back.push(node);
    let mut at: usize = node;
    proof {
        assert(numbers(back@).drop_last() + whole =~= whole);
    }
    loop
        invariant
            0 < back@.len() <= MAX_NODES + 1,
            back@.last() == at,
            at < tree.nodes@.len(),
            predecessor@.len() == tree.nodes@.len(),
            pred == optionals(predecessor@),
            forall|i: int|
                0 <= i < predecessor@.len() ==> (#[trigger] predecessor@[i] matches Some(p) ==> p
                    < tree.nodes@.len()),
            forall|i: int| 0 <= i < back@.len() ==> (#[trigger] back@[i]) < tree.nodes@.len(),
            whole == numbers(back@).drop_last() + ancestry(
                pred,
                at as nat,
                (MAX_NODES + 1 - back@.len()) as nat,
            ),
        ensures
            whole == numbers(back@),
        decreases MAX_NODES + 1 - back@.len(),
    {
        let ghost most = (MAX_NODES + 1 - back@.len()) as nat;
        let ghost had = numbers(back@);
        proof {
            assert(pred[at as int] == optional(predecessor@[at as int]));
        }
        let next = if back.len() > MAX_NODES { None } else { predecessor[at] };
        match next {
            Some(p) => {
                back.push(p);
                proof {
                    assert(predecessor@[at as int] == Some(p));
                    assert(numbers(back@).drop_last() =~= had);
                    assert(had.drop_last() + (seq![at as nat] + ancestry(
                        pred,
                        p as nat,
                        (most - 1) as nat,
                    )) =~= had + ancestry(pred, p as nat, (most - 1) as nat));
                }
                at = p;
            },
            None => {
                proof {
                    assert(ancestry(pred, at as nat, most) == seq![at as nat]);
                    assert(had.drop_last() + seq![at as nat] =~= had);
                }
                break;
            },
        }
    }
    let mut out: Vec<PackageKey> = Vec::new();
    let mut i: usize = back.len();
    let ghost want = keys_back(nodes, whole);
    while i > 0
        invariant
            i <= back@.len(),
            out@.len() == back@.len() - i,
            nodes == tree.deep_view().nodes,
            whole == numbers(back@),
            want == keys_back(nodes, whole),
            forall|k: int| 0 <= k < back@.len() ==> (#[trigger] back@[k]) < tree.nodes@.len(),
            forall|k: int| 0 <= k < out@.len() ==> (#[trigger] out@[k]).deep_view() == want[k],
        decreases i,
    {
        i -= 1;
        out.push(key_of(tree, back[i]));
    }
    proof {
        assert(out.deep_view() =~= want);
    }
    out
}

fn push_attribution(list: &mut Vec<Attribution>, a: Attribution)
    ensures
        final(list).deep_view() == old(list).deep_view().push(a.deep_view()),
{
    let ghost before = list.deep_view();
    list.push(a);
    proof {
        assert(list.deep_view() =~= before.push(a.deep_view()));
    }
}

/// The chain by which an entry was first met, then the others as short.
fn chains(tree: &Lock, w: &Walk, node: usize) -> (r: Vec<Vec<PackageKey>>)
    requires
        w.sized(tree.nodes@.len()),
        node < tree.nodes@.len(),
    ensures
        r.deep_view() == chains_to(tree.deep_view().nodes, w.view(), node as nat),
{
    let ghost nodes = tree.deep_view().nodes;
    let ghost want = chains_to(nodes, w.view(), node as nat);
    let mut paths: Vec<Vec<PackageKey>> = Vec::new();
    paths.push(chain(tree, &w.predecessor, node));
    let others = &w.alternates[node];
    let mut k: usize = 0;
    proof {
        assert(w.view().alternates[node as int] == numbers(others@));
    }
    while k < others.len()
        invariant
            k <= others@.len(),
            node < tree.nodes@.len(),
            w.sized(tree.nodes@.len()),
            others == &w.alternates@[node as int],
            nodes == tree.deep_view().nodes,
            want == chains_to(nodes, w.view(), node as nat),
            w.view().alternates[node as int] == numbers(others@),
            paths@.len() == k + 1,
            forall|i: int| 0 <= i < paths@.len() ==> (#[trigger] paths@[i]).deep_view() == want[i],
        decreases others@.len() - k,
    {
        proof {
            assert(w.alternates@[node as int]@[k as int] < tree.nodes@.len());
        }
        let mut path = chain(tree, &w.predecessor, others[k]);
        let ghost base = path.deep_view();
        path.push(key_of(tree, node));
        proof {
            assert(path.deep_view() =~= base.push(key_at(nodes, node as nat)));
            assert(want[k + 1] == base.push(key_at(nodes, node as nat)));
        }
        paths.push(path);
        k += 1;
    }
    proof {
        assert(paths.deep_view() =~= want);
    }
    paths
}

/// Breadth-first from one manifest, recording the first way each entry is met.
///
/// Seeded from the manifest rather than from the lock's own root entry, so
/// that every branch starts at a line the user can edit.
fn walk(tree: &Lock, edges: &Vec<Vec<Edge>>, root: &Root, peers: bool) -> (r: Vec<Attribution>)
    requires
        tree.wf(),
        tree.nodes@.len() <= MAX_NODES,
        root.node < tree.nodes@.len(),
        all_edges(edges@) == edges_of(tree.deep_view().nodes),
        forall|i: int, j: int|
            0 <= i < edges@.len() && 0 <= j < edges@[i]@.len() ==> (#[trigger] edges@[i]@[j]).to
                < edges@.len(),
    ensures
        r.deep_view() == walk_of(tree.deep_view().nodes, root_view(*root), peers),
{
    let ghost nodes = tree.deep_view().nodes;
    let ghost ds = root.declarations.deep_view();
    proof {
        assert(all_edges(edges@).len() == edges@.len());
    }
    let mut w = seed_all(tree, root);
    run_walk(&mut w, edges, peers);
    let n: usize = tree.nodes.len();
    let mut out: Vec<Attribution> = Vec::new();
    let mut i: usize = 0;
    proof {
        assert(out.deep_view() =~= seq![]);
        lemma_origins(nodes, root_view(*root), peers);
    }
    while i < n
        invariant
            i <= n,
            n == tree.nodes@.len(),
            nodes == tree.deep_view().nodes,
            ds == root.declarations.deep_view(),
            w.sized(n as nat),
            forall|k: int|
                0 <= k < n && #[trigger] w.view().seen[k] ==> (w.view().origin[k] matches Some(o)
                    ==> o < ds.len()),
            out.deep_view() == attributions_to(nodes, ds, w.view(), i as nat),
        decreases n - i,
    {
        proof {
            assert(w.view().seen[i as int] == w.seen@[i as int]);
            assert(w.view().origin[i as int] == optional(w.origin@[i as int]));
            assert(w.view().predecessor[i as int] == optional(w.predecessor@[i as int]));
        }
        if w.seen[i] && w.predecessor[i].is_some() {
            if let Some(which) = w.origin[i] {
                let a = Attribution {
                    node: i,
                    declared: root.declarations[which].site.copy(),
                    paths: chains(tree, &w, i),
                };
                push_attribution(&mut out, a);
            }
        }
        i += 1;
    }
    out
}

fn about_node(list: &Vec<Attribution>, node: usize) -> (r: bool)
    ensures
        r == nodes_in(list.deep_view()).contains(node as nat),
{
    let mut i: usize = 0;
    while i < list.len()
        invariant
            i <= list@.len(),
            forall|j: int| 0 <= j < i ==> #[trigger] nodes_in(list.deep_view())[j] != node,
        decreases list@.len() - i,
    {
        if list[i].node == node {
            proof {
                assert(nodes_in(list.deep_view())[i as int] == node as nat);
            }
            return true;
        }
        i += 1;
    }
    false
}

/// Everything one manifest reaches, and the chain that reaches it.
fn reach(tree: &Lock, edges: &Vec<Vec<Edge>>, root: &Root) -> (r: Vec<Attribution>)
    requires
        tree.wf(),
        tree.nodes@.len() <= MAX_NODES,
        root.node < tree.nodes@.len(),
        all_edges(edges@) == edges_of(tree.deep_view().nodes),
        forall|i: int, j: int|
            0 <= i < edges@.len() && 0 <= j < edges@[i]@.len() ==> (#[trigger] edges@[i]@[j]).to
                < edges@.len(),
    ensures
        r.deep_view() == reach_of(tree.deep_view().nodes, root_view(*root)),
{
    let mut found = walk(tree, edges, root, false);
    let extra = walk(tree, edges, root, true);
    let ghost first = found.deep_view();
    let ghost second = extra.deep_view();
    let mut i: usize = 0;
    while i < extra.len()
        invariant
            i <= extra@.len(),
            second == extra.deep_view(),
            found.deep_view() == completed(first, second.take(i as int)),
        decreases extra@.len() - i,
    {
        proof {
            assert(second.take(i + 1).drop_last() =~= second.take(i as int));
            assert(second.take(i + 1).last() == extra@[i as int].deep_view());
        }
        if !about_node(&found, extra[i].node) {
            push_attribution(&mut found, copy_attribution(&extra[i]));
        }
        i += 1;
    }
    proof {
        assert(second.take(i as int) =~= second);
    }
    found
}

fn copy_attribution(a: &Attribution) -> (r: Attribution)
    ensures
        r.deep_view() == a.deep_view(),
{
    Attribution { node: a.node, declared: a.declared.copy(), paths: copy_paths(&a.paths) }
}

/// The directory of the nearest lockfile at or above `dir`, in its one spelling.
pub fn nearest_lock_dir(dir: &str, lock_dirs: &Vec<String>) -> (r: Option<String>)
    ensures
        r.deep_view() == nearest_of(normal_of(dir@), normals(lock_dirs.deep_view())),
{
    nearest_in(normal(dir).as_str(), &normal_each(lock_dirs))
}

fn normal_each(paths: &Vec<String>) -> (r: Vec<String>)
    ensures
        r.deep_view() == normals(paths.deep_view()),
{
    let mut out: Vec<String> = Vec::new();
    let mut i: usize = 0;
    while i < paths.len()
        invariant
            i <= paths@.len(),
            out@.len() == i,
            forall|j: int| 0 <= j < i ==> (#[trigger] out@[j])@ == normal_of(paths@[j]@),
        decreases paths@.len() - i,
    {
        out.push(normal(paths[i].as_str()));
        i += 1;
    }
    proof {
        assert(out.deep_view() =~= normals(paths.deep_view()));
    }
    out
}

fn nearest_in(dir: &str, lock_dirs: &Vec<String>) -> (r: Option<String>)
    ensures
        r.deep_view() == nearest_of(dir@, lock_dirs.deep_view()),
{
    let mut at: String = dir.to_owned();
    loop
        invariant
            nearest_of(dir@, lock_dirs.deep_view()) == nearest_of(at@, lock_dirs.deep_view()),
        decreases at@.len(),
    {
        if contains(lock_dirs, at.as_str()) {
            return Some(at);
        }
        proof {
            lemma_parent_shorter(at@);
        }
        match parent(at.as_str()) {
            Some(up) => {
                at = up;
            },
            None => return None,
        }
    }
}

fn find_manifest<'a>(manifests: &'a Vec<Manifest>, path: &str) -> (r: Option<&'a Vec<Declaration>>)
    ensures
        match r {
            Some(ds) => manifest_at(manifests.deep_view(), path@) == Some(ds.deep_view()),
            None => manifest_at(manifests.deep_view(), path@) is None,
        },
{
    let ghost all = manifests.deep_view();
    let mut i: usize = 0;
    proof {
        assert(all.skip(0) =~= all);
    }
    while i < manifests.len()
        invariant
            i <= manifests@.len(),
            all == manifests.deep_view(),
            manifest_at(all, path@) == manifest_at(all.skip(i as int), path@),
        decreases manifests@.len() - i,
    {
        proof {
            assert(all.skip(i as int)[0] == manifests@[i as int].deep_view());
            assert(all.skip(i as int).skip(1) =~= all.skip(i + 1));
        }
        if same(normal(manifests[i].path.as_str()).as_str(), path) {
            return Some(&manifests[i].declarations);
        }
        i += 1;
    }
    None
}

/// The manifests this lockfile governs.
fn roots<'a>(tree: &Lock, lock_dir: &str, seen: &'a Workspace) -> (r: Vec<Root<'a>>)
    ensures
        root_views(r@) == roots_of(
            tree.deep_view().nodes,
            tree.nodes@.len(),
            lock_dir@,
            seen.deep_view(),
        ),
        forall|i: int| 0 <= i < r@.len() ==> (#[trigger] r@[i]).node < tree.nodes@.len(),
{
    let ghost nodes = tree.deep_view().nodes;
    let marker = chars("node_modules/");
    let lock_dirs = normal_each(&seen.lock_dirs);
    let own = normal(lock_dir);
    let mut out: Vec<Root<'a>> = Vec::new();
    let mut i: usize = 0;
    proof {
        assert(root_views(out@) =~= seq![]);
    }
    while i < tree.nodes.len()
        invariant
            i <= tree.nodes@.len(),
            marker@ == "node_modules/"@,
            lock_dirs.deep_view() == normals(seen.deep_view().lock_dirs),
            own@ == normal_of(lock_dir@),
            nodes == tree.deep_view().nodes,
            root_views(out@) == roots_of(nodes, i as nat, lock_dir@, seen.deep_view()),
            forall|k: int| 0 <= k < out@.len() ==> (#[trigger] out@[k]).node < tree.nodes@.len(),
        decreases tree.nodes@.len() - i,
    {
        let path = tree.nodes[i].path.as_str();
        let ghost before = root_views(out@);
        proof {
            assert(nodes[i as int].path == path@);
        }
        let all = chars(path);
        let segments = split(all.as_slice(), Class::One('/'));
        if !find(all.as_slice(), marker.as_slice()).is_some() && !contains(&segments, "..") {
            let dir = if path.is_empty() { lock_dir.to_owned() } else { join(lock_dir, path) };
            let governed = match nearest_in(normal(dir.as_str()).as_str(), &lock_dirs) {
                Some(nearest) => same(nearest.as_str(), own.as_str()),
                None => false,
            };
            if governed {
                let file = join(dir.as_str(), "package.json");
                if let Some(declarations) = find_manifest(&seen.manifests, file.as_str()) {
                    let r = Root { node: i, declarations };
                    out.push(r);
                    proof {
                        assert(root_views(out@) =~= before.push(root_view(r)));
                    }
                }
            }
        }
        i += 1;
    }
    out
}

fn is_listed_before(a: &Attribution, b: &Attribution) -> (r: bool)
    ensures
        r == listed_before(a.deep_view(), b.deep_view()),
{
    let paths = compare_paths(a.declared.path.as_str(), b.declared.path.as_str());
    paths == Order::Less || (paths == Order::Equal && a.declared.range.start.line
        < b.declared.range.start.line)
}

fn list_in(sorted: &mut Vec<Attribution>, x: Attribution)
    ensures
        final(sorted).deep_view() == listed_with(old(sorted).deep_view(), x.deep_view()),
{
    let ghost all = sorted.deep_view();
    let ghost it = x.deep_view();
    let mut at: usize = sorted.len();
    proof {
        assert(all.take(at as int) =~= all);
        assert(listed_with(all, it) =~= listed_with(all.take(at as int), it) + all.skip(at as int));
    }
    while at > 0 && is_listed_before(&x, &sorted[at - 1])
        invariant
            at <= sorted@.len(),
            all == sorted.deep_view(),
            it == x.deep_view(),
            listed_with(all, it) == listed_with(all.take(at as int), it) + all.skip(at as int),
        decreases at,
    {
        proof {
            assert(all.take(at as int).last() == sorted@[at - 1].deep_view());
            assert(all.take(at as int).drop_last() =~= all.take(at - 1));
            assert(listed_with(all.take(at - 1), it).push(all[at - 1]) + all.skip(at as int)
                =~= listed_with(all.take(at - 1), it) + all.skip(at - 1));
        }
        at -= 1;
    }
    proof {
        if at > 0 {
            assert(all.take(at as int).last() == sorted@[at - 1].deep_view());
        }
        assert(listed_with(all.take(at as int), it) == all.take(at as int).push(it));
    }
    sorted.insert(at, x);
    proof {
        assert(sorted.deep_view() =~= all.take(at as int).push(it) + all.skip(at as int));
    }
}

/// Attributions by entry, in lockfile order, so that an unchanged tree
/// republishes an unchanged report.
fn order_by_node(found: &Vec<Attribution>, n: usize) -> (r: Vec<Attribution>)
    requires
        forall|i: int| 0 <= i < found@.len() ==> (#[trigger] found@[i]).node < n,
    ensures
        r.deep_view() == in_order(found.deep_view(), n as nat),
{
    let ghost all = found.deep_view();
    let mut groups: Vec<Vec<Attribution>> = Vec::new();
    while groups.len() < n
        invariant
            groups@.len() <= n,
            forall|k: int|
                0 <= k < groups@.len() ==> (#[trigger] groups@[k]).deep_view() == about(
                    all.take(0),
                    k as nat,
                ),
        decreases n - groups@.len(),
    {
        let none: Vec<Attribution> = Vec::new();
        proof {
            assert(none.deep_view() =~= seq![]);
        }
        groups.push(none);
    }
    let mut i: usize = 0;
    while i < found.len()
        invariant
            i <= found@.len(),
            groups@.len() == n,
            all == found.deep_view(),
            forall|i: int| 0 <= i < found@.len() ==> (#[trigger] found@[i]).node < n,
            forall|k: int|
                0 <= k < n ==> (#[trigger] groups@[k]).deep_view() == about(
                    all.take(i as int),
                    k as nat,
                ),
        decreases found@.len() - i,
    {
        let node: usize = found[i].node;
        let ghost before = groups@;
        proof {
            assert(all.take(i + 1).drop_last() =~= all.take(i as int));
            assert(all.take(i + 1).last() == found@[i as int].deep_view());
        }
        let mut list: Vec<Attribution> = Vec::new();
        core::mem::swap(&mut groups[node], &mut list);
        list_in(&mut list, copy_attribution(&found[i]));
        groups.set(node, list);
        proof {
            assert forall|k: int| 0 <= k < n implies (#[trigger] groups@[k]).deep_view() == about(
                all.take(i + 1),
                k as nat,
            ) by {
                if k != node {
                    assert(groups@[k] == before[k]);
                }
            }
        }
        i += 1;
    }
    proof {
        assert(all.take(i as int) =~= all);
    }
    let mut out: Vec<Attribution> = Vec::new();
    let mut k: usize = 0;
    proof {
        assert(out.deep_view() =~= seq![]);
    }
    while k < n
        invariant
            k <= n,
            groups@.len() == n,
            forall|j: int|
                k <= j < n ==> (#[trigger] groups@[j]).deep_view() == about(all, j as nat),
            out.deep_view() == in_order(all, k as nat),
        decreases n - k,
    {
        let ghost before = out@;
        let ghost so_far = out.deep_view();
        let mut list: Vec<Attribution> = Vec::new();
        let ghost kept = groups@;
        core::mem::swap(&mut groups[k], &mut list);
        let ghost added = list@;
        proof {
            assert(list.deep_view() == about(all, k as nat));
        }
        out.append(&mut list);
        proof {
            assert forall|j: int| k + 1 <= j < n implies (#[trigger] groups@[j]).deep_view()
                == about(all, j as nat) by {
                assert(groups@[j] == kept[j]);
            }
            assert(out.deep_view() =~= so_far + about(all, k as nat)) by {
                assert forall|j: int| 0 <= j < out@.len() implies out.deep_view()[j] == (so_far
                    + about(all, k as nat))[j] by {
                    if j < before.len() {
                        assert(out@[j] == before[j]);
                        assert(so_far[j] == before[j].deep_view());
                    } else {
                        assert(out@[j] == added[j - before.len()]);
                        assert(about(all, k as nat)[j - before.len()] == added[j
                            - before.len()].deep_view());
                    }
                }
            }
        }
        k += 1;
    }
    out
}

fn append_all(out: &mut Vec<Attribution>, more: Vec<Attribution>)
    ensures
        final(out).deep_view() == old(out).deep_view() + more.deep_view(),
{
    let ghost before = out@;
    let ghost so_far = out.deep_view();
    let ghost added = more@;
    let ghost added_view = more.deep_view();
    let mut more = more;
    out.append(&mut more);
    proof {
        assert(out.deep_view() =~= so_far + added_view) by {
            assert forall|j: int| 0 <= j < out@.len() implies out.deep_view()[j] == (so_far
                + added_view)[j] by {
                if j < before.len() {
                    assert(out@[j] == before[j]);
                    assert(so_far[j] == before[j].deep_view());
                } else {
                    assert(out@[j] == added[j - before.len()]);
                    assert(added_view[j - before.len()] == added[j - before.len()].deep_view());
                }
            }
        }
    }
}

/// Which manifests a lockfile answers for, and what each of them reaches.
///
/// Returns nothing where the lockfile records no edges, since an edgeless
/// graph cannot be told apart from one where every dependency is direct, and
/// nothing where it has more entries than a graph is built for.
pub fn attribute(tree: &Lock, lock_dir: &str, seen: &Workspace) -> (r: Vec<Attribution>)
    requires
        tree.wf(),
    ensures
        r.deep_view() == attribute_of(tree.deep_view(), lock_dir@, seen.deep_view()),
{
    let n: usize = tree.nodes.len();
    if !tree.has_edges || n > MAX_NODES {
        let none: Vec<Attribution> = Vec::new();
        proof {
            assert(none.deep_view() =~= seq![]);
        }
        return none;
    }
    let ghost nodes = tree.deep_view().nodes;
    // Resolution depends only on where an entry sits and what it asked for,
    // never on which root a walk started from, so it is done once for the
    // whole tree rather than once per member.
    let edges = resolve_edges(tree);
    proof {
        assert(all_edges(edges@).len() == edges@.len());
    }
    let starts = roots(tree, lock_dir, seen);
    let ghost rs = root_views(starts@);
    let mut out: Vec<Attribution> = Vec::new();
    let mut i: usize = 0;
    proof {
        assert(out.deep_view() =~= seq![]);
    }
    while i < starts.len()
        invariant
            i <= starts@.len(),
            tree.wf(),
            n == tree.nodes@.len(),
            n <= MAX_NODES,
            nodes == tree.deep_view().nodes,
            all_edges(edges@) == edges_of(nodes),
            edges@.len() == n,
            forall|i: int, j: int|
                0 <= i < edges@.len() && 0 <= j < edges@[i]@.len() ==> (
                #[trigger] edges@[i]@[j]).to < n,
            rs == root_views(starts@),
            forall|i: int| 0 <= i < starts@.len() ==> (#[trigger] starts@[i]).node < n,
            out.deep_view() == reached(nodes, rs.take(i as int)),
        decreases starts@.len() - i,
    {
        proof {
            assert(rs.take(i + 1).drop_last() =~= rs.take(i as int));
            assert(rs.take(i + 1).last() == root_view(starts@[i as int]));
        }
        let found = reach(tree, &edges, &starts[i]);
        append_all(&mut out, found);
        i += 1;
    }
    proof {
        assert(rs.take(i as int) =~= rs);
        lemma_reached_nodes(nodes, rs);
        assert forall|k: int| 0 <= k < out@.len() implies (#[trigger] out@[k]).node < n by {
            assert(out.deep_view()[k].node == out@[k].node);
        }
    }
    order_by_node(&out, n)
}

/// Whether a manifest that a lockfile answers for declares an entry itself.
pub open spec fn is_direct_node(nodes: Seq<NodeView>, roots: Seq<RootView>, k: nat) -> bool {
    exists|i: int, which: nat|
        0 <= i < roots.len() && #[trigger] declares(nodes, roots[i], which, k)
}

/// Whether one of the first declarations of a manifest resolves to an entry.
pub open spec fn declares_any(nodes: Seq<NodeView>, root: RootView, upto: nat, k: nat) -> bool {
    exists|which: nat| which < upto && #[trigger] declares(nodes, root, which, k)
}

fn mark(tree: &Lock, root: &Root, flags: &mut Vec<bool>)
    requires
        tree.wf(),
        root.node < tree.nodes@.len(),
        old(flags)@.len() == tree.nodes@.len(),
    ensures
        final(flags)@.len() == tree.nodes@.len(),
        forall|k: int|
            0 <= k < final(flags)@.len() ==> #[trigger] final(flags)@[k] == (old(flags)@[k]
                || declares_any(
                tree.deep_view().nodes,
                root_view(*root),
                root.declarations@.len(),
                k as nat,
            )),
{
    let ghost nodes = tree.deep_view().nodes;
    let ghost r = root_view(*root);
    let ghost start = flags@;
    let from = tree.nodes[root.node].path.as_str();
    let mut i: usize = 0;
    proof {
        assert(nodes[root.node as int].path == from@);
    }
    while i < root.declarations.len()
        invariant
            i <= root.declarations@.len(),
            tree.wf(),
            nodes == tree.deep_view().nodes,
            r == root_view(*root),
            nodes[r.node as int].path == from@,
            flags@.len() == tree.nodes@.len(),
            start.len() == flags@.len(),
            forall|k: int|
                0 <= k < flags@.len() ==> #[trigger] flags@[k] == (start[k] || declares_any(
                    nodes,
                    r,
                    i as nat,
                    k as nat,
                )),
        decreases root.declarations@.len() - i,
    {
        let ghost before = flags@;
        proof {
            assert(r.declarations[i as int].name == root.declarations@[i as int].name@);
        }
        let found = tree.resolve(from, root.declarations[i].name.as_str());
        if let Some(node) = found {
            flags.set(node, true);
        }
        proof {
            assert forall|k: int| 0 <= k < flags@.len() implies #[trigger] flags@[k] == (start[k]
                || declares_any(nodes, r, (i + 1) as nat, k as nat)) by {
                assert(before[k] == (start[k] || declares_any(nodes, r, i as nat, k as nat)));
                if flags@[k] && !before[k] {
                    assert(declares(nodes, r, i as nat, k as nat));
                }
                if declares_any(nodes, r, i as nat, k as nat) {
                    let which = choose|which: nat|
                        which < i && #[trigger] declares(nodes, r, which, k as nat);
                    assert(which < i + 1 && declares(nodes, r, which, k as nat));
                }
                if declares_any(nodes, r, (i + 1) as nat, k as nat) {
                    let which = choose|which: nat|
                        which < i + 1 && #[trigger] declares(nodes, r, which, k as nat);
                    if which < i {
                        assert(declares_any(nodes, r, i as nat, k as nat));
                    } else {
                        assert(declares(nodes, r, i as nat, k as nat));
                    }
                }
            }
        }
        i += 1;
    }
}

/// Which entries of a lockfile some manifest it answers for declares itself.
pub fn direct_nodes(tree: &Lock, lock_dir: &str, seen: &Workspace) -> (r: Vec<bool>)
    requires
        tree.wf(),
    ensures
        r@.len() == tree.nodes@.len(),
        forall|k: int|
            0 <= k < r@.len() ==> #[trigger] r@[k] == (is_direct_node(
                tree.deep_view().nodes,
                roots_of(
                    tree.deep_view().nodes,
                    tree.nodes@.len(),
                    lock_dir@,
                    seen.deep_view(),
                ),
                k as nat,
            )),
{
    let ghost nodes = tree.deep_view().nodes;
    let n: usize = tree.nodes.len();
    let mut flags: Vec<bool> = Vec::new();
    while flags.len() < n
        invariant
            flags@.len() <= n,
            forall|k: int| 0 <= k < flags@.len() ==> !(#[trigger] flags@[k]),
        decreases n - flags@.len(),
    {
        flags.push(false);
    }
    let starts = roots(tree, lock_dir, seen);
    let ghost rs = root_views(starts@);
    let mut i: usize = 0;
    while i < starts.len()
        invariant
            i <= starts@.len(),
            tree.wf(),
            n == tree.nodes@.len(),
            nodes == tree.deep_view().nodes,
            rs == root_views(starts@),
            flags@.len() == n,
            forall|i: int| 0 <= i < starts@.len() ==> (#[trigger] starts@[i]).node < n,
            forall|k: int|
                0 <= k < n ==> #[trigger] flags@[k] == (is_direct_node(
                    nodes,
                    rs.take(i as int),
                    k as nat,
                )),
        decreases starts@.len() - i,
    {
        let ghost before = flags@;
        let ghost root = root_view(starts@[i as int]);
        mark(tree, &starts[i], &mut flags);
        proof {
            let x = rs.take(i as int);
            let y = rs.take(i + 1);
            assert(y =~= x.push(root));
            assert forall|k: int| 0 <= k < n implies #[trigger] flags@[k] == (is_direct_node(
                nodes,
                y,
                k as nat,
            )) by {
                assert(before[k] <==> is_direct_node(nodes, x, k as nat));
                if before[k] {
                    let (j, which) = choose|j: int, which: nat|
                        0 <= j < x.len() && #[trigger] declares(nodes, x[j], which, k as nat);
                    assert(declares(nodes, y[j], which, k as nat));
                }
                let m = starts@[i as int].declarations@.len();
                assert(flags@[k] == (before[k] || declares_any(nodes, root, m, k as nat)));
                if declares_any(nodes, root, m, k as nat) {
                    let which = choose|which: nat|
                        which < m && #[trigger] declares(nodes, root, which, k as nat);
                    assert(declares(nodes, y[i as int], which, k as nat));
                }
                if is_direct_node(nodes, y, k as nat) {
                    let (j, which) = choose|j: int, which: nat|
                        0 <= j < y.len() && #[trigger] declares(nodes, y[j], which, k as nat);
                    if j < i {
                        assert(declares(nodes, x[j], which, k as nat));
                    } else {
                        assert(declares(nodes, root, which, k as nat));
                        assert(declares_any(nodes, root, m, k as nat));
                    }
                }
            }
        }
        i += 1;
    }
    proof {
        assert(rs.take(i as int) =~= rs);
    }
    flags
}

// ---- facts about the walk ----

/// An edge that a pass follows.
pub open spec fn linked(edges: Seq<Seq<EdgeView>>, from: nat, to: nat, peers: bool) -> bool {
    exists|j: int|
        0 <= j < edges[from as int].len() && (#[trigger] edges[from as int][j]).to == to && follows(
            edges[from as int][j].kind,
            peers,
        )
}

/// Whether a declaration of the manifest resolves to an entry.
pub open spec fn declares(nodes: Seq<NodeView>, root: RootView, which: nat, node: nat) -> bool {
    which < root.declarations.len() && resolve_of(
        nodes,
        nodes[root.node as int].path,
        root.declarations[which as int].name,
    ) == Some(node)
}

spec fn unseen(seen: Seq<bool>) -> nat
    decreases seen.len(),
{
    if seen.len() == 0 {
        0
    } else {
        unseen(seen.drop_last()) + (if seen.last() {
            0nat
        } else {
            1nat
        })
    }
}

proof fn lemma_unseen_update(seen: Seq<bool>, i: int)
    requires
        0 <= i < seen.len(),
        !seen[i],
    ensures
        unseen(seen.update(i, true)) + 1 == unseen(seen),
    decreases seen.len(),
{
    if i == seen.len() - 1 {
        assert(seen.update(i, true).drop_last() =~= seen.drop_last());
    } else {
        assert(seen.update(i, true).drop_last() =~= seen.drop_last().update(i, true));
        lemma_unseen_update(seen.drop_last(), i);
    }
}

proof fn lemma_unseen_bound(seen: Seq<bool>)
    ensures
        unseen(seen) <= seen.len(),
    decreases seen.len(),
{
    if seen.len() > 0 {
        lemma_unseen_bound(seen.drop_last());
    }
}

proof fn lemma_unseen_start(n: nat)
    ensures
        unseen(Seq::new(n, |i: int| false)) == n,
    decreases n,
{
    if n > 0 {
        lemma_unseen_start((n - 1) as nat);
        assert(Seq::new(n, |i: int| false).drop_last() =~= Seq::new(
            (n - 1) as nat,
            |i: int| false,
        ));
    }
}

spec fn sizes(w: WalkView, n: nat) -> bool {
    &&& w.seen.len() == n
    &&& w.predecessor.len() == n
    &&& w.alternates.len() == n
    &&& w.origin.len() == n
    &&& w.depth.len() == n
    &&& forall|i: int| 0 <= i < w.queue.len() ==> (#[trigger] w.queue[i]) < n
        && w.seen[w.queue[i] as int]
}

/// How an entry was met: from the manifest, or along an edge from an entry
/// that was met one step earlier.
spec fn met(nodes: Seq<NodeView>, root: RootView, peers: bool, w: WalkView, k: int) -> bool {
    &&& w.origin[k] is Some
    &&& w.depth[k] >= 1
    &&& w.depth[k] + unseen(w.seen) <= nodes.len()
    &&& w.origin[k]->Some_0 < root.declarations.len()
    &&& match w.predecessor[k] {
        None => w.depth[k] == 1 && declares(nodes, root, w.origin[k]->Some_0, k as nat),
        Some(p) => p < nodes.len() && w.seen[p as int] && w.depth[k] == w.depth[p as int] + 1
            && w.origin[k] == w.origin[p as int] && linked(edges_of(nodes), p, k as nat, peers),
    }
    &&& forall|j: int|
        0 <= j < w.alternates[k].len() ==> {
            let a = #[trigger] w.alternates[k][j];
            a < nodes.len() && w.seen[a as int] && w.depth[k] == w.depth[a as int] + 1 && linked(
                edges_of(nodes),
                a,
                k as nat,
                peers,
            )
        }
}

spec fn all_met(nodes: Seq<NodeView>, root: RootView, peers: bool, w: WalkView) -> bool {
    forall|k: int|
        0 <= k < nodes.len() ==> if #[trigger] w.seen[k] {
            met(nodes, root, peers, w, k)
        } else {
            w.predecessor[k] is None && w.alternates[k].len() == 0
        }
}

/// Everything the manifest declares was met first.
spec fn declared_first(nodes: Seq<NodeView>, root: RootView, w: WalkView, upto: nat) -> bool {
    forall|which: nat, k: nat|
        which < upto && #[trigger] declares(nodes, root, which, k) ==> k < nodes.len()
            && w.seen[k as int] && w.depth[k as int] == 1
}

/// The queue is in order of depth, and nothing is deeper than one step below
/// anything in it, nor than one step below what is being visited.
spec fn level(w: WalkView, at: Option<nat>) -> bool {
    &&& forall|i: int, j: int|
        0 <= i < j < w.queue.len() ==> w.depth[#[trigger] w.queue[i] as int]
            <= w.depth[#[trigger] w.queue[j] as int]
    &&& forall|i: int, k: int|
        0 <= i < w.queue.len() && 0 <= k < w.seen.len() && #[trigger] w.seen[k]
            ==> w.depth[k] <= w.depth[#[trigger] w.queue[i] as int] + 1
    &&& at matches Some(a) ==> {
        &&& a < w.seen.len()
        &&& w.seen[a as int]
        &&& forall|k: int|
            0 <= k < w.seen.len() && #[trigger] w.seen[k] ==> w.depth[k] <= w.depth[a as int] + 1
        &&& forall|i: int|
            0 <= i < w.queue.len() ==> w.depth[a as int] <= w.depth[#[trigger] w.queue[i] as int]
    }
}

spec fn edge_done(w: WalkView, u: nat, e: EdgeView, peers: bool) -> bool {
    follows(e.kind, peers) ==> e.to < w.seen.len() && w.seen[e.to as int] && w.depth[e.to as int]
        <= w.depth[u as int] + 1
}

/// Everything that is no longer in the queue has had its edges followed.
spec fn done(edges: Seq<Seq<EdgeView>>, w: WalkView, at: Option<nat>, peers: bool) -> bool {
    forall|u: nat, j: int|
        u < w.seen.len() && #[trigger] w.seen[u as int] && at != Some(u) && !w.queue.contains(u) && 0
            <= j < edges[u as int].len() ==> edge_done(w, u, #[trigger] edges[u as int][j], peers)
}

spec fn bounded(edges: Seq<Seq<EdgeView>>, n: nat) -> bool {
    edges.len() == n && forall|i: int, j: int|
        0 <= i < n && 0 <= j < edges[i].len() ==> (#[trigger] edges[i][j]).to < n
}

spec fn sound(
    nodes: Seq<NodeView>,
    root: RootView,
    peers: bool,
    w: WalkView,
    at: Option<nat>,
) -> bool {
    &&& sizes(w, nodes.len())
    &&& all_met(nodes, root, peers, w)
    &&& declared_first(nodes, root, w, root.declarations.len())
    &&& level(w, at)
    &&& done(edges_of(nodes), w, at, peers)
}

proof fn lemma_first_index_bound(keys: Seq<Seq<char>>, key: Seq<char>)
    ensures
        first_index(keys, key) matches Some(i) ==> i < keys.len(),
{
    crate::table::lemma_first_index(keys, key);
}

proof fn lemma_follow_bound(nodes: Seq<NodeView>, at: nat, hops: nat)
    requires
        at < nodes.len(),
    ensures
        follow_of(nodes, at, hops) matches Some(i) ==> i < nodes.len(),
    decreases hops,
{
    if hops > 0 {
        if let Some(target) = nodes[at as int].link {
            lemma_first_index_bound(paths_of(nodes), target);
            if let Some(next) = first_index(paths_of(nodes), target) {
                lemma_follow_bound(nodes, next, (hops - 1) as nat);
            }
        }
    }
}

/// A name resolves to an entry of the tree.
pub proof fn lemma_resolve_bound(nodes: Seq<NodeView>, from: Seq<char>, name: Seq<char>)
    ensures
        resolve_of(nodes, from, name) matches Some(i) ==> i < nodes.len(),
    decreases from.len(),
{
    lemma_first_index_bound(paths_of(nodes), candidate(from, name));
    match first_index(paths_of(nodes), candidate(from, name)) {
        Some(found) => {
            lemma_follow_bound(nodes, found, MAX_LINK_HOPS as nat);
        },
        None => {
            if from.len() > 0 {
                crate::text::lemma_rfind(from, "/"@, from.len() - "/"@.len());
                reveal_strlit("/");
                lemma_resolve_bound(nodes, above(from), name);
            }
        },
    }
}

proof fn lemma_edges_bound(nodes: Seq<NodeView>, from: Seq<char>, deps: Seq<DepView>)
    ensures
        forall|j: int|
            0 <= j < edges_from(nodes, from, deps).len() ==> (#[trigger] edges_from(
                nodes,
                from,
                deps,
            )[j]).to < nodes.len(),
    decreases deps.len(),
{
    if deps.len() > 0 {
        lemma_edges_bound(nodes, from, deps.drop_last());
        lemma_resolve_bound(nodes, from, deps.last().name);
        let before = edges_from(nodes, from, deps.drop_last());
        let out = edges_from(nodes, from, deps);
        assert forall|j: int| 0 <= j < out.len() implies (#[trigger] out[j]).to < nodes.len() by {
            if j < before.len() {
                assert(out[j] == before[j]);
            }
        }
    }
}

proof fn lemma_bounded(nodes: Seq<NodeView>)
    ensures
        bounded(edges_of(nodes), nodes.len()),
{
    let es = edges_of(nodes);
    assert forall|i: int, j: int| 0 <= i < nodes.len() && 0 <= j < es[i].len() implies (
    #[trigger] es[i][j]).to < nodes.len() by {
        lemma_edges_bound(nodes, nodes[i].path, nodes[i].deps);
    }
}

proof fn lemma_seeded(nodes: Seq<NodeView>, root: RootView, peers: bool, upto: nat)
    requires
        upto <= root.declarations.len(),
    ensures
        ({
            let w = seeded(
                nodes,
                nodes[root.node as int].path,
                root.declarations.take(upto as int),
            );
            &&& sizes(w, nodes.len())
            &&& all_met(nodes, root, peers, w)
            &&& declared_first(nodes, root, w, upto)
            &&& w.queue.len() + unseen(w.seen) == nodes.len()
            &&& forall|k: int|
                0 <= k < nodes.len() && #[trigger] w.seen[k] ==> w.depth[k] == 1
                    && w.predecessor[k] is None && w.queue.contains(k as nat)
        }),
    decreases upto,
{
    let from = nodes[root.node as int].path;
    let ds = root.declarations.take(upto as int);
    let w = seeded(nodes, from, ds);
    if upto == 0 {
        lemma_unseen_start(nodes.len());
    } else {
        let prev = root.declarations.take(upto - 1);
        assert(ds.drop_last() =~= prev);
        lemma_seeded(nodes, root, peers, (upto - 1) as nat);
        let v = seeded(nodes, from, prev);
        let name = ds.last().name;
        assert(ds.last() == root.declarations[upto - 1]);
        lemma_resolve_bound(nodes, from, name);
        match resolve_of(nodes, from, name) {
            None => {
                assert(w == v);
                assert forall|which: nat, k: nat|
                    which < upto && #[trigger] declares(nodes, root, which, k) implies k
                    < nodes.len() && w.seen[k as int] && w.depth[k as int] == 1 by {
                    assert(which < upto - 1);
                }
            },
            Some(node) => {
                let i = node as int;
                if !v.seen[i] {
                    lemma_unseen_update(v.seen, i);
                    assert forall|k: int| 0 <= k < nodes.len() implies if #[trigger] w.seen[k] {
                        met(nodes, root, peers, w, k)
                    } else {
                        w.predecessor[k] is None && w.alternates[k].len() == 0
                    } by {
                        assert(v.seen[k] || !v.seen[k]);
                        if k == i {
                            assert(declares(nodes, root, (upto - 1) as nat, node));
                            lemma_unseen_bound(w.seen);
                        }
                    }
                    assert forall|k: int| 0 <= k < nodes.len() && #[trigger] w.seen[k] implies w.depth[k]
                        == 1 && w.predecessor[k] is None && w.queue.contains(k as nat) by {
                        assert(v.seen[k] || !v.seen[k]);
                        if k == i {
                            assert(w.queue[v.queue.len() as int] == node);
                        } else {
                            assert(v.queue.contains(k as nat));
                            let q = choose|q: int| 0 <= q < v.queue.len() && v.queue[q] == k as nat;
                            assert(w.queue[q] == k as nat);
                        }
                    }
                    assert forall|q: int| 0 <= q < w.queue.len() implies (#[trigger] w.queue[q])
                        < nodes.len() && w.seen[w.queue[q] as int] by {
                        if q < v.queue.len() {
                            assert(w.queue[q] == v.queue[q]);
                        }
                    }
                }
                assert forall|which: nat, k: nat|
                    which < upto && #[trigger] declares(nodes, root, which, k) implies k
                    < nodes.len() && w.seen[k as int] && w.depth[k as int] == 1 by {
                    if which == upto - 1 {
                        assert(k == node);
                    } else {
                        assert(v.seen[k as int]);
                    }
                }
            },
        }
    }
}

proof fn lemma_edge_step(
    nodes: Seq<NodeView>,
    root: RootView,
    peers: bool,
    w: WalkView,
    at: nat,
    e: EdgeView,
    j: int,
)
    requires
        sound(nodes, root, peers, w, Some(at)),
        bounded(edges_of(nodes), nodes.len()),
        at < nodes.len(),
        0 <= j < edges_of(nodes)[at as int].len(),
        e == edges_of(nodes)[at as int][j],
    ensures
        ({
            let v = edge_step(w, at, e, peers);
            &&& sound(nodes, root, peers, v, Some(at))
            &&& v.queue.len() + unseen(v.seen) == w.queue.len() + unseen(w.seen)
            &&& edge_done(v, at, e, peers)
            &&& forall|k: int|
                0 <= k < nodes.len() && #[trigger] w.seen[k] ==> v.seen[k] && v.depth[k] == w.depth[k]
        }),
{
    let es = edges_of(nodes);
    let v = edge_step(w, at, e, peers);
    let to = e.to as int;
    assert(es[at as int][j].to < nodes.len());
    assert(w.seen[at as int]);
    assert(met(nodes, root, peers, w, at as int));
    if follows(e.kind, peers) {
        assert(linked(es, at, e.to, peers)) by {
            assert(es[at as int][j].to == e.to);
        }
        if !w.seen[to] {
            lemma_unseen_update(w.seen, to);
            assert forall|k: int| 0 <= k < nodes.len() implies if #[trigger] v.seen[k] {
                met(nodes, root, peers, v, k)
            } else {
                v.predecessor[k] is None && v.alternates[k].len() == 0
            } by {
                assert(w.seen[k] || !w.seen[k]);
                if k != to && w.seen[k] {
                    assert(met(nodes, root, peers, w, k));
                    assert(met(nodes, root, peers, v, k));
                }
            }
            assert forall|i: int| 0 <= i < v.queue.len() implies (#[trigger] v.queue[i])
                < nodes.len() && v.seen[v.queue[i] as int] by {
                if i < w.queue.len() {
                    assert(v.queue[i] == w.queue[i]);
                }
            }
            assert forall|i: int, k: int| 0 <= i < k < v.queue.len() implies v.depth[
            #[trigger] v.queue[i] as int] <= v.depth[#[trigger] v.queue[k] as int] by {
                assert(v.queue[i] == w.queue[i]);
                assert(w.seen[w.queue[i] as int]);
                if k < w.queue.len() {
                    assert(v.queue[k] == w.queue[k]);
                    assert(w.seen[w.queue[k] as int]);
                }
            }
            assert forall|i: int, k: int|
                0 <= i < v.queue.len() && 0 <= k < v.seen.len() && #[trigger] v.seen[k] implies v.depth[k]
                <= v.depth[#[trigger] v.queue[i] as int] + 1 by {
                assert(w.seen[k] || !w.seen[k]);
                if i < w.queue.len() {
                    assert(v.queue[i] == w.queue[i]);
                    assert(w.seen[w.queue[i] as int]);
                }
            }
            assert forall|k: int| 0 <= k < v.seen.len() && #[trigger] v.seen[k] implies v.depth[k]
                <= v.depth[at as int] + 1 by {
                assert(w.seen[k] || !w.seen[k]);
            }
            assert forall|i: int| 0 <= i < v.queue.len() implies v.depth[at as int] <= v.depth[
            #[trigger] v.queue[i] as int] by {
                if i < w.queue.len() {
                    assert(v.queue[i] == w.queue[i]);
                    assert(w.seen[w.queue[i] as int]);
                }
            }
            assert forall|u: nat, q: int|
                u < v.seen.len() && #[trigger] v.seen[u as int] && Some(at) != Some(u)
                    && !v.queue.contains(u) && 0 <= q < es[u as int].len() implies edge_done(
                v,
                u,
                #[trigger] es[u as int][q],
                peers,
            ) by {
                if u == to {
                    assert(v.queue[w.queue.len() as int] == u);
                } else {
                    assert(w.seen[u as int]);
                    if w.queue.contains(u) {
                        let i = choose|i: int| 0 <= i < w.queue.len() && w.queue[i] == u;
                        assert(v.queue[i] == u);
                    }
                    assert(edge_done(w, u, es[u as int][q], peers));
                }
            }
            assert forall|which: nat, k: nat|
                which < root.declarations.len() && #[trigger] declares(
                    nodes,
                    root,
                    which,
                    k,
                ) implies k < nodes.len() && v.seen[k as int] && v.depth[k as int] == 1 by {
                assert(w.seen[k as int]);
            }
        } else {
            assert(w.depth[to] <= w.depth[at as int] + 1);
            if v != w {
                assert forall|k: int| 0 <= k < nodes.len() implies if #[trigger] v.seen[k] {
                    met(nodes, root, peers, v, k)
                } else {
                    v.predecessor[k] is None && v.alternates[k].len() == 0
                } by {
                    assert(w.seen[k] || !w.seen[k]);
                    if w.seen[k] {
                        assert(met(nodes, root, peers, w, k));
                        if k == to {
                            assert forall|q: int| 0 <= q < v.alternates[k].len() implies {
                                let a = #[trigger] v.alternates[k][q];
                                a < nodes.len() && v.seen[a as int] && v.depth[k]
                                    == v.depth[a as int] + 1 && linked(es, a, k as nat, peers)
                            } by {
                                if q < w.alternates[k].len() {
                                    assert(v.alternates[k][q] == w.alternates[k][q]);
                                }
                            }
                        } else {
                            assert(v.alternates[k] == w.alternates[k]);
                        }
                    }
                }
                assert(level(v, Some(at)));
                assert forall|u: nat, q: int|
                    u < v.seen.len() && #[trigger] v.seen[u as int] && Some(at) != Some(u)
                        && !v.queue.contains(u) && 0 <= q < es[u as int].len() implies edge_done(
                    v,
                    u,
                    #[trigger] es[u as int][q],
                    peers,
                ) by {
                    assert(w.seen[u as int]);
                    assert(edge_done(w, u, es[u as int][q], peers));
                }
            }
        }
    }
}

proof fn lemma_edges_step(
    nodes: Seq<NodeView>,
    root: RootView,
    peers: bool,
    w: WalkView,
    at: nat,
    m: nat,
)
    requires
        sound(nodes, root, peers, w, Some(at)),
        bounded(edges_of(nodes), nodes.len()),
        at < nodes.len(),
        m <= edges_of(nodes)[at as int].len(),
    ensures
        ({
            let es = edges_of(nodes)[at as int];
            let v = edges_step(w, at, es.take(m as int), peers);
            &&& sound(nodes, root, peers, v, Some(at))
            &&& v.queue.len() + unseen(v.seen) == w.queue.len() + unseen(w.seen)
            &&& forall|j: int| 0 <= j < m ==> edge_done(v, at, #[trigger] es[j], peers)
        }),
    decreases m,
{
    let es = edges_of(nodes)[at as int];
    if m == 0 {
        assert(es.take(0) =~= seq![]);
    } else {
        lemma_edges_step(nodes, root, peers, w, at, (m - 1) as nat);
        assert(es.take(m as int).drop_last() =~= es.take(m - 1));
        let u = edges_step(w, at, es.take(m - 1), peers);
        let v = edges_step(w, at, es.take(m as int), peers);
        assert(es.take(m as int).last() == es[m - 1]);
        assert(v == edge_step(u, at, es[m - 1], peers));
        lemma_edge_step(nodes, root, peers, u, at, es[m - 1], m - 1);
        assert(u.seen[at as int]);
        assert forall|j: int| 0 <= j < m implies edge_done(v, at, #[trigger] es[j], peers) by {
            if j < m - 1 {
                assert(edge_done(u, at, es[j], peers));
                assert(edges_of(nodes)[at as int][j].to < nodes.len());
                if follows(es[j].kind, peers) {
                    assert(u.seen[es[j].to as int]);
                }
            }
        }
    }
}

proof fn lemma_visit(nodes: Seq<NodeView>, root: RootView, peers: bool, w: WalkView)
    requires
        sound(nodes, root, peers, w, None),
        bounded(edges_of(nodes), nodes.len()),
        w.queue.len() > 0,
    ensures
        ({
            let v = visit(edges_of(nodes), w, peers);
            &&& sound(nodes, root, peers, v, None)
            &&& v.queue.len() + unseen(v.seen) + 1 == w.queue.len() + unseen(w.seen)
        }),
{
    let es = edges_of(nodes);
    let at = w.queue[0];
    let s = WalkView { queue: w.queue.skip(1), ..w };
    assert(w.seen[w.queue[0] as int]);
    assert forall|i: int| 0 <= i < s.queue.len() implies (#[trigger] s.queue[i]) < nodes.len()
        && s.seen[s.queue[i] as int] by {
        assert(s.queue[i] == w.queue[i + 1]);
    }
    assert forall|k: int| 0 <= k < nodes.len() implies if #[trigger] s.seen[k] {
        met(nodes, root, peers, s, k)
    } else {
        s.predecessor[k] is None && s.alternates[k].len() == 0
    } by {
        assert(w.seen[k] || !w.seen[k]);
        if w.seen[k] {
            assert(met(nodes, root, peers, w, k));
        }
    }
    assert forall|which: nat, k: nat|
        which < root.declarations.len() && #[trigger] declares(nodes, root, which, k) implies k
        < nodes.len() && s.seen[k as int] && s.depth[k as int] == 1 by {}
    assert(level(s, Some(at))) by {
        assert forall|i: int, j: int| 0 <= i < j < s.queue.len() implies s.depth[
        #[trigger] s.queue[i] as int] <= s.depth[#[trigger] s.queue[j] as int] by {
            assert(s.queue[i] == w.queue[i + 1] && s.queue[j] == w.queue[j + 1]);
        }
        assert forall|i: int, k: int|
            0 <= i < s.queue.len() && 0 <= k < s.seen.len() && #[trigger] s.seen[k] implies s.depth[k]
            <= s.depth[#[trigger] s.queue[i] as int] + 1 by {
            assert(s.queue[i] == w.queue[i + 1]);
            assert(w.seen[k]);
        }
        assert forall|k: int| 0 <= k < s.seen.len() && #[trigger] s.seen[k] implies s.depth[k]
            <= s.depth[at as int] + 1 by {
            assert(w.seen[k]);
            assert(w.depth[k] <= w.depth[w.queue[0] as int] + 1);
        }
        assert forall|i: int| 0 <= i < s.queue.len() implies s.depth[at as int] <= s.depth[
        #[trigger] s.queue[i] as int] by {
            assert(s.queue[i] == w.queue[i + 1]);
            assert(w.depth[w.queue[0] as int] <= w.depth[w.queue[i + 1] as int]);
        }
    }
    assert forall|u: nat, q: int|
        u < s.seen.len() && #[trigger] s.seen[u as int] && Some(at) != Some(u) && !s.queue.contains(
            u,
        ) && 0 <= q < es[u as int].len() implies edge_done(
        s,
        u,
        #[trigger] es[u as int][q],
        peers,
    ) by {
        assert(w.seen[u as int]);
        if w.queue.contains(u) {
            let i = choose|i: int| 0 <= i < w.queue.len() && w.queue[i] == u;
            assert(s.queue[i - 1] == u);
        }
        assert(edge_done(w, u, es[u as int][q], peers));
    }
    let m = es[at as int].len();
    lemma_edges_step(nodes, root, peers, s, at, m);
    assert(es[at as int].take(m as int) =~= es[at as int]);
    let v = visit(es, w, peers);
    assert forall|u: nat, q: int|
        u < v.seen.len() && #[trigger] v.seen[u as int] && !v.queue.contains(u) && 0 <= q
            < es[u as int].len() implies edge_done(v, u, #[trigger] es[u as int][q], peers) by {
        if u == at {
            assert(edge_done(v, at, es[at as int][q], peers));
        } else {
            assert(Some(at) != Some(u));
        }
    }
}

proof fn lemma_run(nodes: Seq<NodeView>, root: RootView, peers: bool, w: WalkView, visits: nat)
    requires
        sound(nodes, root, peers, w, None),
        bounded(edges_of(nodes), nodes.len()),
        w.queue.len() + unseen(w.seen) <= visits,
    ensures
        sound(nodes, root, peers, run(edges_of(nodes), w, peers, visits), None),
        run(edges_of(nodes), w, peers, visits).queue.len() == 0,
    decreases visits,
{
    if visits > 0 && w.queue.len() > 0 {
        lemma_visit(nodes, root, peers, w);
        lemma_run(nodes, root, peers, visit(edges_of(nodes), w, peers), (visits - 1) as nat);
    }
}

proof fn lemma_walked(nodes: Seq<NodeView>, root: RootView, peers: bool)
    ensures
        sound(nodes, root, peers, walked(nodes, root, peers), None),
        walked(nodes, root, peers).queue.len() == 0,
{
    let ds = root.declarations;
    let w = seeded(nodes, nodes[root.node as int].path, ds);
    lemma_bounded(nodes);
    lemma_seeded(nodes, root, peers, ds.len());
    assert(ds.take(ds.len() as int) =~= ds);
    assert(level(w, None)) by {
        assert forall|i: int, j: int| 0 <= i < j < w.queue.len() implies w.depth[
        #[trigger] w.queue[i] as int] <= w.depth[#[trigger] w.queue[j] as int] by {
            assert(w.seen[w.queue[i] as int]);
            assert(w.seen[w.queue[j] as int]);
        }
        assert forall|i: int, k: int|
            0 <= i < w.queue.len() && 0 <= k < w.seen.len() && #[trigger] w.seen[k] implies w.depth[k]
            <= w.depth[#[trigger] w.queue[i] as int] + 1 by {
            assert(w.seen[w.queue[i] as int]);
        }
    }
    assert(done(edges_of(nodes), w, None, peers));
    lemma_run(nodes, root, peers, w, nodes.len());
}

proof fn lemma_origins(nodes: Seq<NodeView>, root: RootView, peers: bool)
    ensures
        ({
            let w = walked(nodes, root, peers);
            &&& w.origin.len() == nodes.len()
            &&& forall|k: int|
                0 <= k < nodes.len() && #[trigger] w.seen[k] ==> (w.origin[k] matches Some(o) ==> o
                    < root.declarations.len())
        }),
{
    lemma_walked(nodes, root, peers);
}

proof fn lemma_attributions(
    nodes: Seq<NodeView>,
    ds: Seq<DeclarationView>,
    w: WalkView,
    n: nat,
)
    ensures
        forall|i: int|
            0 <= i < attributions_to(nodes, ds, w, n).len() ==> {
                let a = #[trigger] attributions_to(nodes, ds, w, n)[i];
                a.node < n && attribution_of(nodes, ds, w, a.node) == Some(a)
            },
        forall|k: nat|
            k < n && #[trigger] attribution_of(nodes, ds, w, k) is Some ==> attributions_to(
                nodes,
                ds,
                w,
                n,
            ).contains(attribution_of(nodes, ds, w, k)->Some_0),
    decreases n,
{
    if n > 0 {
        let m = (n - 1) as nat;
        lemma_attributions(nodes, ds, w, m);
        let before = attributions_to(nodes, ds, w, m);
        let out = attributions_to(nodes, ds, w, n);
        assert forall|i: int| 0 <= i < out.len() implies {
            let a = #[trigger] out[i];
            a.node < n && attribution_of(nodes, ds, w, a.node) == Some(a)
        } by {
            if i < before.len() {
                assert(out[i] == before[i]);
            }
        }
        assert forall|k: nat|
            k < n && #[trigger] attribution_of(nodes, ds, w, k) is Some implies out.contains(
            attribution_of(nodes, ds, w, k)->Some_0,
        ) by {
            let a = attribution_of(nodes, ds, w, k)->Some_0;
            if k < m {
                assert(before.contains(a));
                let i = choose|i: int| 0 <= i < before.len() && before[i] == a;
                assert(out[i] == a);
            } else {
                assert(out[before.len() as int] == a);
            }
        }
    }
}

proof fn lemma_completed_nodes(found: Seq<AttributionView>, extra: Seq<AttributionView>, n: nat)
    requires
        forall|i: int| 0 <= i < found.len() ==> (#[trigger] found[i]).node < n,
        forall|i: int| 0 <= i < extra.len() ==> (#[trigger] extra[i]).node < n,
    ensures
        forall|i: int|
            0 <= i < completed(found, extra).len() ==> (#[trigger] completed(found, extra)[i]).node
                < n,
    decreases extra.len(),
{
    if extra.len() > 0 {
        let front = extra.drop_last();
        assert forall|i: int| 0 <= i < front.len() implies (#[trigger] front[i]).node < n by {
            assert(front[i] == extra[i]);
        }
        lemma_completed_nodes(found, front, n);
        let before = completed(found, front);
        let out = completed(found, extra);
        assert(extra[extra.len() - 1].node < n);
        assert forall|i: int| 0 <= i < out.len() implies (#[trigger] out[i]).node < n by {
            if i < before.len() {
                assert(out[i] == before[i]);
            }
        }
    }
}

proof fn lemma_reached_nodes(nodes: Seq<NodeView>, roots: Seq<RootView>)
    ensures
        forall|i: int|
            0 <= i < reached(nodes, roots).len() ==> (#[trigger] reached(nodes, roots)[i]).node
                < nodes.len(),
    decreases roots.len(),
{
    if roots.len() > 0 {
        lemma_reached_nodes(nodes, roots.drop_last());
        let root = roots.last();
        lemma_attributions(nodes, root.declarations, walked(nodes, root, false), nodes.len());
        lemma_attributions(nodes, root.declarations, walked(nodes, root, true), nodes.len());
        lemma_completed_nodes(
            walk_of(nodes, root, false),
            walk_of(nodes, root, true),
            nodes.len(),
        );
        let before = reached(nodes, roots.drop_last());
        let more = reach_of(nodes, root);
        let out = reached(nodes, roots);
        assert forall|i: int| 0 <= i < out.len() implies (#[trigger] out[i]).node < nodes.len() by {
            if i < before.len() {
                assert(out[i] == before[i]);
            } else {
                assert(out[i] == more[i - before.len()]);
            }
        }
    }
}

// ---- laws ----

/// A real chain: it begins at an entry the manifest declares, and each entry
/// asks for the next along an edge the pass follows.
pub open spec fn is_chain(
    nodes: Seq<NodeView>,
    root: RootView,
    peers: bool,
    ns: Seq<nat>,
) -> bool {
    &&& ns.len() > 0
    &&& forall|i: int| 0 <= i < ns.len() ==> (#[trigger] ns[i]) < nodes.len()
    &&& exists|which: nat| declares(nodes, root, which, ns[0])
    &&& forall|i: int|
        0 <= i < ns.len() - 1 ==> linked(edges_of(nodes), #[trigger] ns[i], ns[i + 1], peers)
}

/// The packages along a chain.
pub open spec fn keys_along(nodes: Seq<NodeView>, ns: Seq<nat>) -> Seq<KeyView> {
    Seq::new(ns.len(), |i: int| key_at(nodes, ns[i]))
}

proof fn lemma_chain_depth(nodes: Seq<NodeView>, root: RootView, peers: bool, ns: Seq<nat>)
    requires
        is_chain(nodes, root, peers, ns),
    ensures
        walked(nodes, root, peers).seen[ns.last() as int],
        walked(nodes, root, peers).depth[ns.last() as int] <= ns.len(),
    decreases ns.len(),
{
    let w = walked(nodes, root, peers);
    let es = edges_of(nodes);
    lemma_walked(nodes, root, peers);
    lemma_bounded(nodes);
    let which = choose|which: nat| declares(nodes, root, which, ns[0]);
    assert(declares(nodes, root, which, ns[0]));
    if ns.len() > 1 {
        let front = ns.drop_last();
        assert forall|i: int| 0 <= i < front.len() implies (#[trigger] front[i]) < nodes.len() by {
            assert(front[i] == ns[i]);
        }
        assert(declares(nodes, root, which, front[0]));
        assert forall|i: int| 0 <= i < front.len() - 1 implies linked(
            es,
            #[trigger] front[i],
            front[i + 1],
            peers,
        ) by {
            assert(front[i] == ns[i] && front[i + 1] == ns[i + 1]);
        }
        lemma_chain_depth(nodes, root, peers, front);
        let u = front.last();
        assert(u == ns[ns.len() - 2]);
        assert(linked(es, ns[ns.len() - 2], ns[ns.len() - 1], peers));
        let j = choose|j: int|
            0 <= j < es[u as int].len() && (#[trigger] es[u as int][j]).to == ns.last() && follows(
                es[u as int][j].kind,
                peers,
            );
        assert(w.seen[u as int]);
        assert(!w.queue.contains(u));
        assert(edge_done(w, u, es[u as int][j], peers));
    }
}

/// The entries from the manifest down to one, in order.
spec fn forward(predecessor: Seq<Option<nat>>, node: nat, most: nat) -> Seq<nat> {
    ancestry(predecessor, node, most).reverse()
}

#[verifier::rlimit(40)]
proof fn lemma_ancestry(
    nodes: Seq<NodeView>,
    root: RootView,
    peers: bool,
    node: nat,
    most: nat,
)
    requires
        node < nodes.len(),
        walked(nodes, root, peers).seen[node as int],
        walked(nodes, root, peers).depth[node as int] <= most + 1,
    ensures
        ({
            let w = walked(nodes, root, peers);
            let ns = forward(w.predecessor, node, most);
            &&& is_chain(nodes, root, peers, ns)
            &&& ns.last() == node
            &&& ns.len() == w.depth[node as int]
            &&& w.origin[node as int] is Some
            &&& declares(nodes, root, w.origin[node as int]->Some_0, ns[0])
        }),
    decreases most,
{
    let w = walked(nodes, root, peers);
    lemma_walked(nodes, root, peers);
    assert(met(nodes, root, peers, w, node as int));
    let ns = forward(w.predecessor, node, most);
    match w.predecessor[node as int] {
        None => {
            assert(ns =~= seq![node]);
            assert(declares(nodes, root, w.origin[node as int]->Some_0, ns[0]));
        },
        Some(p) => {
            assert(met(nodes, root, peers, w, p as int));
            let m = (most - 1) as nat;
            lemma_ancestry(nodes, root, peers, p, m);
            let before = forward(w.predecessor, p, m);
            assert(ns =~= before.push(node)) by {
                let a = ancestry(w.predecessor, p, m);
                assert(ancestry(w.predecessor, node, most) =~= seq![node] + a);
                assert((seq![node] + a).reverse() =~= a.reverse().push(node));
            }
            lemma_longer_chain(nodes, root, peers, before, node);
            assert(ns[0] == before[0]);
        },
    }
}

proof fn lemma_depth_bound(nodes: Seq<NodeView>, root: RootView, peers: bool, node: nat)
    requires
        node < nodes.len(),
        walked(nodes, root, peers).seen[node as int],
    ensures
        walked(nodes, root, peers).depth[node as int] <= nodes.len(),
{
    lemma_walked(nodes, root, peers);
    assert(met(nodes, root, peers, walked(nodes, root, peers), node as int));
}

/// Every chain that is reported is real: it begins at what the manifest
/// declares, follows edges, and ends at the package. The first one begins at
/// the very declaration the finding is anchored on.
#[verifier::rlimit(60)]
#[verifier::spinoff_prover]
pub proof fn chains_are_real(
    nodes: Seq<NodeView>,
    root: RootView,
    peers: bool,
    a: AttributionView,
    j: int,
) -> (ns: Seq<nat>)
    requires
        nodes.len() <= MAX_NODES,
        walk_of(nodes, root, peers).contains(a),
        0 <= j < a.paths.len(),
    ensures
        is_chain(nodes, root, peers, ns),
        ns.last() == a.node,
        a.paths[j] == keys_along(nodes, ns),
        ns.len() == a.paths[0].len(),
        j == 0 ==> exists|which: nat|
            declares(nodes, root, which, ns[0]) && root.declarations[which as int].site
                == a.declared,
{
    let w = walked(nodes, root, peers);
    lemma_walked(nodes, root, peers);
    lemma_attributions(nodes, root.declarations, w, nodes.len());
    let i = choose|i: int|
        0 <= i < walk_of(nodes, root, peers).len() && walk_of(nodes, root, peers)[i] == a;
    assert(walk_of(nodes, root, peers)[i] == a);
    let node = a.node;
    assert(w.seen[node as int]);
    assert(met(nodes, root, peers, w, node as int));
    lemma_depth_bound(nodes, root, peers, node);
    let first = forward(w.predecessor, node, MAX_NODES as nat);
    lemma_ancestry(nodes, root, peers, node, MAX_NODES as nat);
    lemma_keys_back(nodes, ancestry(w.predecessor, node, MAX_NODES as nat));
    assert(a.paths[0] == keys_along(nodes, first));
    if j == 0 {
        let which = w.origin[node as int]->Some_0;
        assert(declares(nodes, root, which, first[0]) && root.declarations[which as int].site
            == a.declared);
        first
    } else {
        let other = w.alternates[node as int][j - 1];
        assert(w.seen[other as int]);
        lemma_depth_bound(nodes, root, peers, other);
        lemma_ancestry(nodes, root, peers, other, MAX_NODES as nat);
        lemma_keys_back(nodes, ancestry(w.predecessor, other, MAX_NODES as nat));
        let before = forward(w.predecessor, other, MAX_NODES as nat);
        let ns = before.push(node);
        assert(a.paths[j] == chain_to(nodes, w.predecessor, other).push(key_at(nodes, node)));
        assert(keys_along(nodes, ns) =~= keys_along(nodes, before).push(key_at(nodes, node)));
        lemma_longer_chain(nodes, root, peers, before, node);
        ns
    }
}

proof fn lemma_keys_back(nodes: Seq<NodeView>, back: Seq<nat>)
    ensures
        keys_back(nodes, back) == keys_along(nodes, back.reverse()),
{
    assert(keys_back(nodes, back) =~= keys_along(nodes, back.reverse()));
}

proof fn lemma_longer_chain(
    nodes: Seq<NodeView>,
    root: RootView,
    peers: bool,
    before: Seq<nat>,
    node: nat,
)
    requires
        is_chain(nodes, root, peers, before),
        node < nodes.len(),
        linked(edges_of(nodes), before.last(), node, peers),
    ensures
        is_chain(nodes, root, peers, before.push(node)),
{
    let ns = before.push(node);
    let which = choose|which: nat| declares(nodes, root, which, before[0]);
    assert(declares(nodes, root, which, ns[0]));
    assert forall|q: int| 0 <= q < ns.len() implies (#[trigger] ns[q]) < nodes.len() by {
        if q < before.len() {
            assert(ns[q] == before[q]);
        }
    }
    assert forall|q: int| 0 <= q < ns.len() - 1 implies linked(
        edges_of(nodes),
        #[trigger] ns[q],
        ns[q + 1],
        peers,
    ) by {
        assert(ns[q] == before[q]);
        if q + 1 < before.len() {
            assert(ns[q + 1] == before[q + 1]);
        }
    }
}

/// No chain that is reported is longer than any real chain to the package.
pub proof fn chains_are_shortest(
    nodes: Seq<NodeView>,
    root: RootView,
    peers: bool,
    a: AttributionView,
    j: int,
    ns: Seq<nat>,
)
    requires
        nodes.len() <= MAX_NODES,
        walk_of(nodes, root, peers).contains(a),
        0 <= j < a.paths.len(),
        is_chain(nodes, root, peers, ns),
        ns.last() == a.node,
    ensures
        a.paths[j].len() <= ns.len(),
{
    let w = walked(nodes, root, peers);
    lemma_chain_depth(nodes, root, peers, ns);
    lemma_walked(nodes, root, peers);
    lemma_attributions(nodes, root.declarations, w, nodes.len());
    let i = choose|i: int|
        0 <= i < walk_of(nodes, root, peers).len() && walk_of(nodes, root, peers)[i] == a;
    assert(walk_of(nodes, root, peers)[i] == a);
    lemma_depth_bound(nodes, root, peers, a.node);
    lemma_ancestry(nodes, root, peers, a.node, MAX_NODES as nat);
    let one = chains_are_real(nodes, root, peers, a, j);
    let first = chains_are_real(nodes, root, peers, a, 0);
    assert(a.paths[0].len() == w.depth[a.node as int]);
}

/// Whatever a real chain reaches is reported, unless the manifest declares it
/// itself.
pub proof fn everything_reached_is_attributed(
    nodes: Seq<NodeView>,
    root: RootView,
    peers: bool,
    ns: Seq<nat>,
)
    requires
        is_chain(nodes, root, peers, ns),
        forall|which: nat| !declares(nodes, root, which, ns.last()),
    ensures
        nodes_in(walk_of(nodes, root, peers)).contains(ns.last()),
{
    let w = walked(nodes, root, peers);
    let node = ns.last();
    lemma_chain_depth(nodes, root, peers, ns);
    lemma_walked(nodes, root, peers);
    assert(ns[ns.len() - 1] < nodes.len());
    assert(met(nodes, root, peers, w, node as int));
    assert(w.predecessor[node as int] is Some);
    lemma_attributions(nodes, root.declarations, w, nodes.len());
    let a = attribution_of(nodes, root.declarations, w, node);
    assert(a is Some);
    let found = walk_of(nodes, root, peers);
    assert(found.contains(a->Some_0));
    let i = choose|i: int| 0 <= i < found.len() && found[i] == a->Some_0;
    assert(nodes_in(found)[i] == node);
}

/// What the manifest declares is never reported as transitive.
pub proof fn a_declared_package_is_not_attributed(
    nodes: Seq<NodeView>,
    root: RootView,
    peers: bool,
    which: nat,
    node: nat,
)
    requires
        declares(nodes, root, which, node),
    ensures
        !nodes_in(walk_of(nodes, root, peers)).contains(node),
{
    let w = walked(nodes, root, peers);
    lemma_walked(nodes, root, peers);
    lemma_attributions(nodes, root.declarations, w, nodes.len());
    let found = walk_of(nodes, root, peers);
    if nodes_in(found).contains(node) {
        let i = choose|i: int| 0 <= i < nodes_in(found).len() && nodes_in(found)[i] == node;
        assert(found[i].node == node);
        assert(w.seen[node as int]);
        assert(met(nodes, root, peers, w, node as int));
        let p = w.predecessor[node as int]->Some_0;
        assert(met(nodes, root, peers, w, p as int));
    }
}

/// Where a package can be reached without peer edges, the chain that is
/// reported uses none.
pub proof fn peers_carry_only_what_nothing_else_reaches(
    nodes: Seq<NodeView>,
    root: RootView,
    a: AttributionView,
)
    requires
        reach_of(nodes, root).contains(a),
        nodes_in(walk_of(nodes, root, false)).contains(a.node),
    ensures
        walk_of(nodes, root, false).contains(a),
{
    lemma_completed(walk_of(nodes, root, false), walk_of(nodes, root, true), a);
}

proof fn lemma_completed(
    found: Seq<AttributionView>,
    extra: Seq<AttributionView>,
    a: AttributionView,
)
    requires
        completed(found, extra).contains(a),
        nodes_in(found).contains(a.node),
    ensures
        found.contains(a),
    decreases extra.len(),
{
    if extra.len() > 0 {
        let before = completed(found, extra.drop_last());
        let out = completed(found, extra);
        let i = choose|i: int| 0 <= i < out.len() && out[i] == a;
        lemma_completed_keeps(found, extra.drop_last());
        if i < before.len() {
            assert(before[i] == a);
            lemma_completed(found, extra.drop_last(), a);
        } else {
            let k = choose|k: int| 0 <= k < nodes_in(found).len() && nodes_in(found)[k] == a.node;
            assert(nodes_in(before)[k] == a.node);
        }
    }
}

proof fn lemma_completed_keeps(found: Seq<AttributionView>, extra: Seq<AttributionView>)
    ensures
        completed(found, extra).len() >= found.len(),
        forall|i: int| 0 <= i < found.len() ==> completed(found, extra)[i] == found[i],
    decreases extra.len(),
{
    if extra.len() > 0 {
        lemma_completed_keeps(found, extra.drop_last());
    }
}

/// Development dependencies of what is installed are never followed.
pub proof fn dev_edges_are_never_followed(
    edges: Seq<Seq<EdgeView>>,
    w: WalkView,
    at: nat,
    e: EdgeView,
    peers: bool,
)
    requires
        e.kind == DepKind::Dev,
    ensures
        edge_step(w, at, e, peers) == w,
{
}

} // verus!
