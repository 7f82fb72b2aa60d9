//! Which manifests a lockfile answers for, and what it says of each.
use crate::graph::{
    about, attribute_of, completed, in_order, listed_before, listed_with,
    manifest_at, nearest_of, reach_of, reached, root_of, roots_of, walk_of, AttributionView,
    ManifestView, RootView, WorkspaceView,
};
use crate::manifest::npm::{LockView, NodeView};
use crate::path::{normal_of, parent_of};
use vstd::prelude::*;

verus! {

/// A directory so many steps up, where there is one.
pub open spec fn up(dir: Seq<char>, n: nat) -> Option<Seq<char>>
    decreases n,
{
    if n == 0 {
        Some(dir)
    } else {
        match parent_of(dir) {
            Some(parent) => up(parent, (n - 1) as nat),
            None => None,
        }
    }
}

/// The lockfile that governs a directory is the nearest one at or above it.
pub proof fn the_nearest_lockfile_governs(dir: Seq<char>, locks: Seq<Seq<char>>, n: nat)
    requires
        up(dir, n) is Some,
        locks.contains(up(dir, n)->Some_0),
        forall|j: nat|
            j < n ==> ((#[trigger] up(dir, j)) matches Some(d) ==> !locks.contains(d)),
    ensures
        nearest_of(dir, locks) == up(dir, n),
    decreases n,
{
    if n > 0 {
        assert(up(dir, 0) == Some(dir));
        let parent = parent_of(dir)->Some_0;
        assert forall|j: nat| j < n - 1 implies ((#[trigger] up(parent, j)) matches Some(d)
            ==> !locks.contains(d)) by {
            assert(up(dir, j + 1) == up(parent, j));
        }
        the_nearest_lockfile_governs(parent, locks, (n - 1) as nat);
    }
}

/// A directory with no lockfile at or above it is governed by none.
pub proof fn without_a_lockfile_nothing_governs(dir: Seq<char>, locks: Seq<Seq<char>>)
    requires
        forall|j: nat| (#[trigger] up(dir, j)) matches Some(d) ==> !locks.contains(d),
    ensures
        nearest_of(dir, locks) is None,
    decreases dir.len(),
{
    assert(up(dir, 0) == Some(dir));
    if let Some(parent) = parent_of(dir) {
        crate::path::lemma_parent_shorter(dir);
        assert forall|j: nat| (#[trigger] up(parent, j)) matches Some(d) implies !locks.contains(
            up(parent, j)->Some_0,
        ) by {
            assert(up(dir, j + 1) == up(parent, j));
        }
        without_a_lockfile_nothing_governs(parent, locks);
    }
}

/// A manifest that was read is found by its path, whatever was read besides.
pub proof fn a_manifest_that_was_read_is_found(ms: Seq<ManifestView>, path: Seq<char>, k: int)
    requires
        0 <= k < ms.len(),
        normal_of(ms[k].path) == path,
        forall|j: int| 0 <= j < k ==> normal_of((#[trigger] ms[j]).path) != path,
    ensures
        manifest_at(ms, path) == Some(ms[k].declarations),
    decreases k,
{
    if k > 0 {
        assert(normal_of(ms[0].path) != path);
        let rest = ms.skip(1);
        assert forall|j: int| 0 <= j < k - 1 implies normal_of((#[trigger] rest[j]).path)
            != path by {
            assert(rest[j] == ms[j + 1]);
        }
        a_manifest_that_was_read_is_found(rest, path, k - 1);
    }
}

proof fn lemma_roots(
    nodes: Seq<NodeView>,
    n: nat,
    dir: Seq<char>,
    seen: WorkspaceView,
    r: RootView,
)
    ensures
        roots_of(nodes, n, dir, seen).contains(r) <==> exists|i: nat|
            i < n && #[trigger] root_of(nodes, i, dir, seen) == Some(r),
    decreases n,
{
    let out = roots_of(nodes, n, dir, seen);
    if n > 0 {
        let m = (n - 1) as nat;
        lemma_roots(nodes, m, dir, seen, r);
        let before = roots_of(nodes, m, dir, seen);
        if out.contains(r) {
            let k = choose|k: int| 0 <= k < out.len() && out[k] == r;
            if k < before.len() {
                assert(before[k] == r);
                assert(before.contains(r));
            } else {
                assert(root_of(nodes, m, dir, seen) == Some(r));
            }
        }
        if exists|i: nat| i < n && #[trigger] root_of(nodes, i, dir, seen) == Some(r) {
            let i = choose|i: nat| i < n && #[trigger] root_of(nodes, i, dir, seen) == Some(r);
            if i < m {
                assert(before.contains(r));
                let k = choose|k: int| 0 <= k < before.len() && before[k] == r;
                assert(out[k] == r);
            } else {
                assert(out[before.len() as int] == r);
            }
        }
    }
}

proof fn lemma_reached(nodes: Seq<NodeView>, roots: Seq<RootView>, a: AttributionView)
    ensures
        reached(nodes, roots).contains(a) <==> exists|k: int|
            0 <= k < roots.len() && reach_of(nodes, #[trigger] roots[k]).contains(a),
    decreases roots.len(),
{
    let out = reached(nodes, roots);
    if roots.len() > 0 {
        let front = roots.drop_last();
        lemma_reached(nodes, front, a);
        let x = reached(nodes, front);
        let y = reach_of(nodes, roots[roots.len() - 1]);
        assert(out == x + y);
        if out.contains(a) {
            let k = choose|k: int| 0 <= k < out.len() && out[k] == a;
            if k < x.len() {
                assert(x[k] == a);
                assert(x.contains(a));
                let j = choose|j: int|
                    0 <= j < front.len() && reach_of(nodes, #[trigger] front[j]).contains(a);
                assert(roots[j] == front[j]);
            } else {
                assert(y[k - x.len()] == a);
                assert(y.contains(a));
            }
        }
        if exists|k: int|
            0 <= k < roots.len() && reach_of(nodes, #[trigger] roots[k]).contains(a) {
            let k = choose|k: int|
                0 <= k < roots.len() && reach_of(nodes, #[trigger] roots[k]).contains(a);
            if k < front.len() {
                assert(front[k] == roots[k]);
                assert(x.contains(a));
                let j = choose|j: int| 0 <= j < x.len() && x[j] == a;
                assert(out[j] == a);
            } else {
                let j = choose|j: int| 0 <= j < y.len() && y[j] == a;
                assert(out[x.len() + j] == a);
            }
        }
    }
}

proof fn lemma_listed_with(sorted: Seq<AttributionView>, x: AttributionView, a: AttributionView)
    ensures
        listed_with(sorted, x).contains(a) <==> sorted.contains(a) || a == x,
        listed_with(sorted, x).len() == sorted.len() + 1,
    decreases sorted.len(),
{
    let out = listed_with(sorted, x);
    if sorted.len() > 0 && listed_before(x, sorted.last()) {
        let front = sorted.drop_last();
        lemma_listed_with(front, x, a);
        let inner = listed_with(front, x);
        if out.contains(a) {
            let k = choose|k: int| 0 <= k < out.len() && out[k] == a;
            if k < inner.len() {
                assert(inner[k] == a);
                assert(inner.contains(a));
                if front.contains(a) {
                    let j = choose|j: int| 0 <= j < front.len() && front[j] == a;
                    assert(sorted[j] == a);
                }
            } else {
                assert(sorted[sorted.len() - 1] == a);
            }
        }
        if sorted.contains(a) || a == x {
            if a == x || front.contains(a) {
                assert(inner.contains(a));
                let k = choose|k: int| 0 <= k < inner.len() && inner[k] == a;
                assert(out[k] == a);
            } else {
                let j = choose|j: int| 0 <= j < sorted.len() && sorted[j] == a;
                if j < front.len() {
                    assert(front[j] == a);
                    assert(front.contains(a));
                }
                assert(out[inner.len() as int] == a);
            }
        }
    } else {
        if sorted.contains(a) {
            let j = choose|j: int| 0 <= j < sorted.len() && sorted[j] == a;
            assert(out[j] == a);
        }
        assert(out[sorted.len() as int] == x);
        if out.contains(a) {
            let k = choose|k: int| 0 <= k < out.len() && out[k] == a;
            if k < sorted.len() {
                assert(sorted[k] == a);
            }
        }
    }
}

proof fn lemma_about(found: Seq<AttributionView>, node: nat, a: AttributionView)
    ensures
        about(found, node).contains(a) <==> found.contains(a) && a.node == node,
    decreases found.len(),
{
    if found.len() > 0 {
        let front = found.drop_last();
        let x = found[found.len() - 1];
        lemma_about(front, node, a);
        if found.contains(a) {
            let k = choose|k: int| 0 <= k < found.len() && found[k] == a;
            if k < front.len() {
                assert(front[k] == a);
                assert(front.contains(a));
            }
        }
        if front.contains(a) {
            let k = choose|k: int| 0 <= k < front.len() && front[k] == a;
            assert(found[k] == a);
        }
        if x.node == node {
            lemma_listed_with(about(front, node), x, a);
        }
    }
}

proof fn lemma_in_order(found: Seq<AttributionView>, n: nat, a: AttributionView)
    ensures
        in_order(found, n).contains(a) <==> found.contains(a) && a.node < n,
    decreases n,
{
    if n > 0 {
        let m = (n - 1) as nat;
        lemma_in_order(found, m, a);
        lemma_about(found, m, a);
        let x = in_order(found, m);
        let y = about(found, m);
        let out = in_order(found, n);
        if out.contains(a) {
            let k = choose|k: int| 0 <= k < out.len() && out[k] == a;
            if k < x.len() {
                assert(x[k] == a);
                assert(x.contains(a));
            } else {
                assert(y[k - x.len()] == a);
                assert(y.contains(a));
            }
        }
        if x.contains(a) {
            let k = choose|k: int| 0 <= k < x.len() && x[k] == a;
            assert(out[k] == a);
        }
        if y.contains(a) {
            let k = choose|k: int| 0 <= k < y.len() && y[k] == a;
            assert(out[x.len() + k] == a);
        }
    }
}

/// What is attributed is what some manifest that the lockfile answers for
/// reaches, and all of that: every manifest has its say on a package.
pub proof fn what_a_manifest_reaches_is_attributed(
    lock: LockView,
    dir: Seq<char>,
    seen: WorkspaceView,
    a: AttributionView,
)
    requires
        lock.has_edges,
        lock.nodes.len() <= crate::graph::MAX_NODES,
    ensures
        attribute_of(lock, dir, seen).contains(a) <==> a.node < lock.nodes.len() && exists|
            i: nat,
        |
            i < lock.nodes.len() && root_of(lock.nodes, i, dir, seen) is Some && reach_of(
                lock.nodes,
                (#[trigger] root_of(lock.nodes, i, dir, seen))->Some_0,
            ).contains(a),
{
    let n = lock.nodes.len();
    let roots = roots_of(lock.nodes, n, dir, seen);
    let found = reached(lock.nodes, roots);
    lemma_in_order(found, n, a);
    lemma_reached(lock.nodes, roots, a);
    if found.contains(a) {
        let k = choose|k: int|
            0 <= k < roots.len() && reach_of(lock.nodes, #[trigger] roots[k]).contains(a);
        lemma_roots(lock.nodes, n, dir, seen, roots[k]);
        assert(roots.contains(roots[k]));
    }
    if exists|i: nat|
        i < n && root_of(lock.nodes, i, dir, seen) is Some && reach_of(
            lock.nodes,
            (#[trigger] root_of(lock.nodes, i, dir, seen))->Some_0,
        ).contains(a) {
        let i = choose|i: nat|
            i < n && root_of(lock.nodes, i, dir, seen) is Some && reach_of(
                lock.nodes,
                (#[trigger] root_of(lock.nodes, i, dir, seen))->Some_0,
            ).contains(a);
        let r = root_of(lock.nodes, i, dir, seen)->Some_0;
        lemma_roots(lock.nodes, n, dir, seen, r);
        let k = choose|k: int| 0 <= k < roots.len() && roots[k] == r;
        assert(reach_of(lock.nodes, roots[k]).contains(a));
    }
}

proof fn lemma_about_node(found: Seq<AttributionView>, node: nat)
    ensures
        forall|k: int|
            0 <= k < about(found, node).len() ==> (#[trigger] about(found, node)[k]).node == node,
{
    assert forall|k: int| 0 <= k < about(found, node).len() implies (
    #[trigger] about(found, node)[k]).node == node by {
        let a = about(found, node)[k];
        lemma_about(found, node, a);
        assert(about(found, node).contains(a));
    }
}

proof fn lemma_in_order_below(found: Seq<AttributionView>, n: nat)
    ensures
        forall|k: int|
            0 <= k < in_order(found, n).len() ==> (#[trigger] in_order(found, n)[k]).node < n,
        forall|i: int, j: int|
            0 <= i < j < in_order(found, n).len() ==> (#[trigger] in_order(found, n)[i]).node <= (
            #[trigger] in_order(found, n)[j]).node,
    decreases n,
{
    if n > 0 {
        let m = (n - 1) as nat;
        lemma_in_order_below(found, m);
        lemma_about_node(found, m);
        let x = in_order(found, m);
        let y = about(found, m);
        let out = in_order(found, n);
        assert(out == x + y);
        assert forall|k: int| 0 <= k < out.len() implies (#[trigger] out[k]).node < n && (k
            < x.len() ==> out[k] == x[k]) && (k >= x.len() ==> out[k].node == m) by {
            if k >= x.len() {
                assert(out[k] == y[k - x.len()]);
            }
        }
    }
}

/// Attributions come in the order of the lockfile's entries.
pub proof fn attributions_follow_the_lockfile(
    lock: LockView,
    dir: Seq<char>,
    seen: WorkspaceView,
    i: int,
    j: int,
)
    requires
        0 <= i < j < attribute_of(lock, dir, seen).len(),
    ensures
        attribute_of(lock, dir, seen)[i].node <= attribute_of(lock, dir, seen)[j].node,
{
    lemma_in_order_below(
        reached(lock.nodes, roots_of(lock.nodes, lock.nodes.len(), dir, seen)),
        lock.nodes.len(),
    );
}

/// A lockfile without edges attributes nothing.
pub proof fn without_edges_nothing_is_attributed(
    lock: LockView,
    dir: Seq<char>,
    seen: WorkspaceView,
)
    requires
        !lock.has_edges,
    ensures
        attribute_of(lock, dir, seen).len() == 0,
{
}

/// What a manifest reaches without peers it reaches, with the same chains, and
/// what only peers lead to it reaches too.
pub proof fn peers_add_to_what_is_reached(nodes: Seq<NodeView>, root: RootView, a: AttributionView)
    ensures
        walk_of(nodes, root, false).contains(a) ==> reach_of(nodes, root).contains(a),
        walk_of(nodes, root, true).contains(a) ==> exists|k: int|
            0 <= k < reach_of(nodes, root).len() && (#[trigger] reach_of(nodes, root)[k]).node
                == a.node,
{
    let plain = walk_of(nodes, root, false);
    let peers = walk_of(nodes, root, true);
    lemma_completed(plain, peers, a);
    let out = reach_of(nodes, root);
    assert(out == completed(plain, peers));
    if peers.contains(a) {
        let k = choose|k: int|
            0 <= k < completed(plain, peers).len() && (#[trigger] completed(plain, peers)[k]).node
                == a.node;
        assert(out[k].node == a.node);
    }
}

proof fn lemma_completed(
    found: Seq<AttributionView>,
    extra: Seq<AttributionView>,
    a: AttributionView,
)
    ensures
        found.contains(a) ==> completed(found, extra).contains(a),
        extra.contains(a) ==> exists|k: int|
            0 <= k < completed(found, extra).len() && (#[trigger] completed(found, extra)[k]).node
                == a.node,
    decreases extra.len(),
{
    let out = completed(found, extra);
    if extra.len() > 0 {
        let front = extra.drop_last();
        lemma_completed(found, front, a);
        let before = completed(found, front);
        let x = extra[extra.len() - 1];
        let known = crate::graph::nodes_in(before);
        if found.contains(a) {
            let k = choose|k: int| 0 <= k < before.len() && before[k] == a;
            assert(out[k] == a);
        }
        if extra.contains(a) {
            let j = choose|j: int| 0 <= j < extra.len() && extra[j] == a;
            if j < front.len() {
                assert(front[j] == a);
                assert(front.contains(a));
                let k = choose|k: int| 0 <= k < before.len() && (#[trigger] before[k]).node == a.node;
                assert(out[k] == before[k]);
            } else if known.contains(x.node) {
                let k = choose|k: int| 0 <= k < known.len() && known[k] == x.node;
                assert(out[k].node == a.node);
            } else {
                assert(out[before.len() as int] == a);
            }
        }
    }
}

} // verus!
