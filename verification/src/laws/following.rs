//! How files that others name are followed, and who answers for what is locked.
use crate::extract::{
    answered, attribution_for, next_of, unwalked, with_target, ExtractionView,
};
use crate::graph::{
    attribute_of, declares, edge_step, is_direct_node, roots_of, AttributionView, EdgeView,
    WalkView, WorkspaceView, MAX_CHAINS,
};
use crate::manifest::npm::{DepKind, LockView};
use crate::manifest::python::requirements_of;
use crate::model::ExtractedView;
use crate::path::{name_of, reached_of, spelled_of};
use vstd::prelude::*;

verus! {

// ---- files that others name ----

/// A file that a requirements file names is followed exactly where its own name
/// would not have it read anyway.
pub proof fn what_is_not_read_by_name_is_followed(
    dir: Seq<char>,
    targets: Seq<Seq<char>>,
    windows: bool,
    path: Seq<char>,
)
    ensures
        unwalked(dir, targets, windows).contains(path) <==> crate::extract::format_of(
            name_of(path),
        ) is None && exists|k: int|
            0 <= k < targets.len() && reached_of(dir, #[trigger] targets[k], windows) == path,
    decreases targets.len(),
{
    let out = unwalked(dir, targets, windows);
    if targets.len() > 0 {
        let front = targets.drop_last();
        let last = targets[targets.len() - 1];
        what_is_not_read_by_name_is_followed(dir, front, windows, path);
        let before = unwalked(dir, front, windows);
        if out.contains(path) {
            let j = choose|j: int| 0 <= j < out.len() && out[j] == path;
            if j < before.len() {
                assert(before[j] == path);
                assert(before.contains(path));
                let k = choose|k: int|
                    0 <= k < front.len() && reached_of(dir, #[trigger] front[k], windows) == path;
                assert(targets[k] == front[k]);
            } else {
                assert(reached_of(dir, last, windows) == path);
            }
        }
        if crate::extract::format_of(name_of(path)) is None && exists|k: int|
            0 <= k < targets.len() && reached_of(dir, #[trigger] targets[k], windows) == path {
            let k = choose|k: int|
                0 <= k < targets.len() && reached_of(dir, #[trigger] targets[k], windows) == path;
            if k < front.len() {
                assert(front[k] == targets[k]);
                assert(before.contains(path));
                let j = choose|j: int| 0 <= j < before.len() && before[j] == path;
                assert(out[j] == path);
            } else {
                assert(out[before.len() as int] == path);
            }
        }
    }
}

/// A file that is followed adds what it asks for and the files that it names in
/// turn, and nothing is lost.
pub proof fn a_followed_file_adds_what_it_asks_for(
    s: ExtractionView,
    path: Seq<char>,
    source: Seq<char>,
)
    ensures
        ({
            let t = with_target(s, path, source);
            let asked = requirements_of(source, spelled_of(path, s.windows));
            &&& t.sightings.len() == s.sightings.len() + asked.len()
            &&& t.sightings.take(s.sightings.len() as int) == s.sightings
            &&& t.sightings.skip(s.sightings.len() as int) == asked
            &&& t.targets.take(s.targets.len() as int) == s.targets
            &&& t.locks == s.locks && t.manifests == s.manifests && t.own == s.own && t.visited
                == s.visited
        }),
{
    let t = with_target(s, path, source);
    let asked = requirements_of(source, spelled_of(path, s.windows));
    assert(t.sightings.take(s.sightings.len() as int) =~= s.sightings);
    assert(t.sightings.skip(s.sightings.len() as int) =~= asked);
    assert(t.targets.take(s.targets.len() as int) =~= s.targets);
}

/// Every file that is named is given out before the walk ends, or was before:
/// none is given only where all were visited, and what is not given stays.
pub proof fn every_file_that_is_named_is_given(s: ExtractionView, path: Seq<char>)
    requires
        s.targets.contains(path),
        !s.visited.contains(path),
    ensures
        next_of(s).0 is Some,
        s.targets.contains(next_of(s).0->Some_0),
        next_of(s).0 == Some(path) || next_of(s).1.targets.contains(path),
        next_of(s).1.sightings == s.sightings,
    decreases s.targets.len(),
{
    let last = s.targets[s.targets.len() - 1];
    let left = ExtractionView { targets: s.targets.drop_last(), ..s };
    let k = choose|k: int| 0 <= k < s.targets.len() && s.targets[k] == path;
    if last != path {
        assert(left.targets[k] == path);
        assert(left.targets.contains(path));
    }
    if s.visited.contains(last) {
        every_file_that_is_named_is_given(left, path);
        let p = next_of(left).0->Some_0;
        let j = choose|j: int| 0 <= j < left.targets.len() && left.targets[j] == p;
        assert(s.targets[j] == p);
    } else {
        assert(s.targets.contains(last));
    }
}

// ---- who answers ----

proof fn lemma_attribution_for(found: Seq<AttributionView>, node: nat, k: int)
    requires
        0 <= k < found.len(),
        found[k].node == node,
        forall|j: int| 0 <= j < k ==> (#[trigger] found[j]).node != node,
    ensures
        attribution_for(found, node) == Some(found[k]),
    decreases k,
{
    if k > 0 {
        assert(found[0].node != node);
        let rest = found.skip(1);
        assert forall|j: int| 0 <= j < k - 1 implies (#[trigger] rest[j]).node != node by {
            assert(rest[j] == found[j + 1]);
        }
        lemma_attribution_for(rest, node, k - 1);
    }
}

/// What no manifest declares itself is shown on the declaration that leads to
/// it, the first that is listed, with its chains.
pub proof fn what_is_pulled_in_is_shown_where_it_is_asked_for(
    lock: LockView,
    dir: Seq<char>,
    seen: WorkspaceView,
    node: nat,
    found: ExtractedView,
    k: int,
)
    requires
        0 <= k < attribute_of(lock, dir, seen).len(),
        attribute_of(lock, dir, seen)[k].node == node,
        forall|j: int|
            0 <= j < k ==> (#[trigger] attribute_of(lock, dir, seen)[j]).node != node,
        forall|i: int, which: nat|
            0 <= i < roots_of(lock.nodes, lock.nodes.len(), dir, seen).len()
                ==> !#[trigger] declares(
                lock.nodes,
                roots_of(lock.nodes, lock.nodes.len(), dir, seen)[i],
                which,
                node,
            ),
    ensures
        ({
            let r = answered(lock, dir, seen, node, found);
            let a = attribute_of(lock, dir, seen)[k];
            &&& r.declared == Some(a.declared)
            &&& r.paths == a.paths
            &&& r.package == found.package && r.evidence == found.evidence
            &&& r.dep_groups == found.dep_groups && r.from_range == found.from_range
        }),
{
    lemma_attribution_for(attribute_of(lock, dir, seen), node, k);
    assert(!is_direct_node(
        lock.nodes,
        roots_of(lock.nodes, lock.nodes.len(), dir, seen),
        node,
    ));
}

/// What a manifest declares itself is left as it was seen.
pub proof fn what_is_declared_is_left_as_it_was_seen(
    lock: LockView,
    dir: Seq<char>,
    seen: WorkspaceView,
    node: nat,
    found: ExtractedView,
    i: int,
    which: nat,
)
    requires
        0 <= i < roots_of(lock.nodes, lock.nodes.len(), dir, seen).len(),
        declares(
            lock.nodes,
            roots_of(lock.nodes, lock.nodes.len(), dir, seen)[i],
            which,
            node,
        ),
    ensures
        answered(lock, dir, seen, node, found) == found,
{
}

/// A second way to a package that is as short as the first is kept too, as long
/// as there is room for it; a longer one is not, and the first stays.
pub proof fn as_short_a_way_is_kept_too(w: WalkView, at: nat, e: EdgeView, peers: bool)
    requires
        at < w.seen.len(),
        e.to < w.seen.len(),
        w.depth.len() == w.seen.len() && w.alternates.len() == w.seen.len()
            && w.predecessor.len() == w.seen.len(),
        e.kind == DepKind::Runtime || (peers && e.kind == DepKind::Peer),
        w.seen[e.to as int],
        w.predecessor[e.to as int] != Some(at),
        !w.alternates[e.to as int].contains(at),
    ensures
        ({
            let t = edge_step(w, at, e, peers);
            let to = e.to as int;
            let as_short = w.depth[to] == w.depth[at as int] + 1;
            &&& t.predecessor == w.predecessor && t.depth == w.depth && t.origin == w.origin
            &&& as_short && w.alternates[to].len() + 1 < MAX_CHAINS ==> t.alternates[to]
                == w.alternates[to].push(at)
            &&& !as_short ==> t.alternates == w.alternates
        }),
{
}

} // verus!
