//! What holds of every manifest parser.
use crate::extract::{parsed_of, Format};
use crate::json::Tree;
use crate::manifest::cargo::{
    declared_of, dependency_of, lock_flush, lock_scan, toml_scan, uncommented, LockScan,
};
use crate::manifest::go::{
    all_replaced, applicable, code_of, replaced, require_of, scan_of, toolchain_of, GoScan,
    ReplaceView,
};
use crate::manifest::npm::{
    dependencies_of, dependency_of as npm_dependency_of, declared_of as npm_declared_of,
    just_sightings, lock_of, node_sighting, sightings_of, DeclaredView, NodeView,
};
use crate::manifest::python::{pip_scan, requirement_of, PipScan};
use crate::manifest::{first_of_each, keys_of};
use crate::model::{ExtractedView, SiteView};
use crate::text::{before, lines_of, trim_end_of, Class};
use vstd::prelude::*;
use vstd::utf8::encode_utf8;

verus! {

// ---- the path ----

/// A sighting in another file.
pub open spec fn moved(s: ExtractedView, path: Seq<char>) -> ExtractedView {
    ExtractedView { evidence: SiteView { path, range: s.evidence.range }, ..s }
}

pub open spec fn all_moved(found: Seq<ExtractedView>, path: Seq<char>) -> Seq<ExtractedView> {
    Seq::new(found.len(), |i: int| moved(found[i], path))
}

proof fn lemma_moved_push(found: Seq<ExtractedView>, x: ExtractedView, path: Seq<char>)
    ensures
        all_moved(found.push(x), path) == all_moved(found, path).push(moved(x, path)),
{
    assert(all_moved(found.push(x), path) =~= all_moved(found, path).push(moved(x, path)));
}

proof fn lemma_moved_first(found: Seq<ExtractedView>, path: Seq<char>)
    ensures
        first_of_each(all_moved(found, path)) == all_moved(first_of_each(found), path),
    decreases found.len(),
{
    let there = all_moved(found, path);
    if found.len() == 0 {
        assert(first_of_each(there) =~= all_moved(first_of_each(found), path));
    } else {
        lemma_moved_first(found.drop_last(), path);
        assert(there.drop_last() =~= all_moved(found.drop_last(), path));
        let kept = first_of_each(found.drop_last());
        assert(keys_of(all_moved(kept, path)) =~= keys_of(kept));
        lemma_moved_push(kept, found.last(), path);
    }
}

proof fn lemma_go_path(bytes: Seq<u8>, file: Seq<Seq<char>>, p: Seq<char>, q: Seq<char>)
    ensures
        scan_of(bytes, p, file) == (GoScan {
            required: all_moved(scan_of(bytes, q, file).required, p),
            ..scan_of(bytes, q, file)
        }),
    decreases file.len(),
{
    if file.len() == 0 {
        assert(scan_of(bytes, p, file).required =~= all_moved(
            scan_of(bytes, q, file).required,
            p,
        ));
    } else {
        lemma_go_path(bytes, file.drop_last(), p, q);
        let a = scan_of(bytes, p, file.drop_last());
        let b = scan_of(bytes, q, file.drop_last());
        let code = code_of(file.last());
        let x = require_of(bytes, q, code, b.offset as int);
        assert(require_of(bytes, p, code, a.offset as int) == (match x {
            Some(s) => Some(moved(s, p)),
            None => None,
        }));
        if x is Some {
            lemma_moved_push(b.required, x->Some_0, p);
        }
    }
}

proof fn lemma_applicable_moved(replaces: Seq<ReplaceView>, s: ExtractedView, p: Seq<char>)
    ensures
        applicable(replaces, moved(s, p)) == applicable(replaces, s),
    decreases replaces.len(),
{
    if replaces.len() > 0 {
        lemma_applicable_moved(replaces.skip(1), s, p);
    }
}

proof fn lemma_replaced_path(
    replaces: Seq<ReplaceView>,
    found: Seq<ExtractedView>,
    p: Seq<char>,
    q: Seq<char>,
)
    ensures
        all_replaced(replaces, all_moved(found, p), p) == all_moved(
            all_replaced(replaces, found, q),
            p,
        ),
    decreases found.len(),
{
    let there = all_moved(found, p);
    if found.len() == 0 {
        assert(all_replaced(replaces, there, p) =~= all_moved(all_replaced(replaces, found, q), p));
    } else {
        lemma_replaced_path(replaces, found.drop_last(), p, q);
        assert(there.drop_last() =~= all_moved(found.drop_last(), p));
        lemma_applicable_moved(replaces, found.last(), p);
        let x = replaced(replaces, found.last(), q);
        if x is Some {
            lemma_moved_push(all_replaced(replaces, found.drop_last(), q), x->Some_0, p);
        }
    }
}

proof fn lemma_toml_path(bytes: Seq<u8>, file: Seq<Seq<char>>, p: Seq<char>, q: Seq<char>)
    ensures
        ({
            let a = toml_scan(bytes, p, file);
            let b = toml_scan(bytes, q, file);
            &&& a.offset == b.offset
            &&& a.section == b.section
            &&& a.shipped == all_moved(b.shipped, p)
            &&& a.build == all_moved(b.build, p)
            &&& a.dev == all_moved(b.dev, p)
        }),
    decreases file.len(),
{
    let a = toml_scan(bytes, p, file);
    let b = toml_scan(bytes, q, file);
    if file.len() == 0 {
        assert(a.shipped =~= all_moved(b.shipped, p));
        assert(a.build =~= all_moved(b.build, p));
        assert(a.dev =~= all_moved(b.dev, p));
    } else {
        lemma_toml_path(bytes, file.drop_last(), p, q);
        let s = toml_scan(bytes, q, file.drop_last());
        let line = uncommented(file.last());
        if s.section is Some {
            let i = s.section->Some_0;
            let x = declared_of(bytes, q, line, s.offset as int, i);
            assert(declared_of(bytes, p, line, s.offset as int, i) == (match x {
                Some(d) => Some(moved(d, p)),
                None => None,
            }));
            if x is Some {
                lemma_moved_push(s.shipped, x->Some_0, p);
                lemma_moved_push(s.build, x->Some_0, p);
                lemma_moved_push(s.dev, x->Some_0, p);
            }
        }
    }
}

proof fn lemma_lock_path(bytes: Seq<u8>, file: Seq<Seq<char>>, p: Seq<char>, q: Seq<char>)
    ensures
        lock_scan(bytes, p, file) == (LockScan {
            found: all_moved(lock_scan(bytes, q, file).found, p),
            ..lock_scan(bytes, q, file)
        }),
    decreases file.len(),
{
    if file.len() == 0 {
        assert(lock_scan(bytes, p, file).found =~= all_moved(lock_scan(bytes, q, file).found, p));
    } else {
        lemma_lock_path(bytes, file.drop_last(), p, q);
        lemma_flush_path(
            bytes,
            lock_scan(bytes, p, file.drop_last()),
            lock_scan(bytes, q, file.drop_last()),
            p,
            q,
        );
    }
}

proof fn lemma_flush_path(bytes: Seq<u8>, a: LockScan, b: LockScan, p: Seq<char>, q: Seq<char>)
    requires
        a == (LockScan { found: all_moved(b.found, p), ..b }),
    ensures
        lock_flush(bytes, p, a) == (LockScan {
            found: all_moved(lock_flush(bytes, q, b).found, p),
            ..lock_flush(bytes, q, b)
        }),
{
    let out = lock_flush(bytes, q, b).found;
    if b.name is Some && b.version is Some {
        lemma_moved_push(b.found, out.last(), p);
    }
}

proof fn lemma_pip_path(bytes: Seq<u8>, file: Seq<Seq<char>>, p: Seq<char>, q: Seq<char>)
    ensures
        pip_scan(bytes, p, file) == (PipScan {
            found: all_moved(pip_scan(bytes, q, file).found, p),
            ..pip_scan(bytes, q, file)
        }),
    decreases file.len(),
{
    if file.len() == 0 {
        assert(pip_scan(bytes, p, file).found =~= all_moved(pip_scan(bytes, q, file).found, p));
    } else {
        lemma_pip_path(bytes, file.drop_last(), p, q);
        let s = pip_scan(bytes, q, file.drop_last());
        let text = trim_end_of(file.last(), Class::LineEnd);
        let whole = s.pending + text;
        let start = if s.pending.len() == 0 { s.offset } else { s.pending_start };
        let x = requirement_of(bytes, q, whole, start as int, start == s.offset);
        assert(requirement_of(bytes, p, whole, start as int, start == s.offset) == (match x {
            Some(d) => Some(moved(d, p)),
            None => None,
        }));
        if x is Some {
            lemma_moved_push(s.found, x->Some_0, p);
        }
    }
}

proof fn lemma_json_path(bytes: Seq<u8>, ds: Seq<DeclaredView>, p: Seq<char>, q: Seq<char>)
    ensures
        dependencies_of(bytes, p, ds) == all_moved(dependencies_of(bytes, q, ds), p),
    decreases ds.len(),
{
    if ds.len() == 0 {
        assert(dependencies_of(bytes, p, ds) =~= all_moved(dependencies_of(bytes, q, ds), p));
    } else {
        lemma_json_path(bytes, ds.drop_last(), p, q);
        let x = npm_dependency_of(bytes, q, ds.last());
        if x is Some {
            lemma_moved_push(dependencies_of(bytes, q, ds.drop_last()), x->Some_0, p);
        }
    }
}

proof fn lemma_sightings_path(nodes: Seq<NodeView>, p: Seq<char>, q: Seq<char>)
    ensures
        just_sightings(sightings_of(nodes, p)) == all_moved(
            just_sightings(sightings_of(nodes, q)),
            p,
        ),
    decreases nodes.len(),
{
    let a = sightings_of(nodes, p);
    let b = sightings_of(nodes, q);
    if nodes.len() > 0 {
        lemma_sightings_path(nodes.drop_last(), p, q);
        let fa = sightings_of(nodes.drop_last(), p);
        let fb = sightings_of(nodes.drop_last(), q);
        assert(just_sightings(fa).len() == just_sightings(fb).len());
        if node_sighting(nodes.last(), q) is Some {
            let x = node_sighting(nodes.last(), q)->Some_0;
            assert(just_sightings(a) =~= just_sightings(fa).push(moved(x, p)));
            assert(just_sightings(b) =~= just_sightings(fb).push(x));
            lemma_moved_push(just_sightings(fb), x, p);
        }
    } else {
        assert(just_sightings(a) =~= all_moved(just_sightings(b), p));
    }
}

/// The path is echoed and never inspected: the same text read under another
/// path says the same, under that path.
pub proof fn the_path_is_echoed_never_inspected(
    format: Format,
    src: Seq<char>,
    p: Seq<char>,
    q: Seq<char>,
)
    ensures
        parsed_of(format, src, p) == all_moved(parsed_of(format, src, q), p),
{
    let bytes = encode_utf8(src);
    let file = lines_of(src);
    match format {
        Format::PackageJson => {
            if let Some(Tree::Object(es)) = crate::json::json_of(src) {
                let ds = npm_declared_of(es, 4);
                lemma_json_path(bytes, ds, p, q);
                lemma_moved_first(dependencies_of(bytes, q, ds), p);
            }
            assert(crate::json::json_of(src) is None || !(crate::json::json_of(src)->Some_0
                is Object) ==> parsed_of(format, src, p) =~= all_moved(
                parsed_of(format, src, q),
                p,
            ));
        },
        Format::PackageLock => {
            if let Some(lock) = lock_of(src) {
                lemma_sightings_path(lock.nodes, p, q);
            } else {
                assert(parsed_of(format, src, p) =~= all_moved(parsed_of(format, src, q), p));
            }
        },
        Format::GoMod => {
            lemma_go_path(bytes, file, p, q);
            let s = scan_of(bytes, q, file);
            lemma_replaced_path(s.replaces, s.required, p, q);
            let modules = all_replaced(s.replaces, s.required, q);
            if let Some((v, at)) = s.toolchain {
                lemma_moved_push(modules, toolchain_of(bytes, q, v, at), p);
            } else if let Some((v, at)) = s.go {
                lemma_moved_push(modules, toolchain_of(bytes, q, v, at), p);
            }
        },
        Format::CargoToml => {
            lemma_toml_path(bytes, file, p, q);
            let s = toml_scan(bytes, q, file);
            assert(all_moved(s.shipped, p) + all_moved(s.build, p) + all_moved(s.dev, p)
                =~= all_moved(s.shipped + s.build + s.dev, p));
            lemma_moved_first(s.shipped + s.build + s.dev, p);
        },
        Format::CargoLock => {
            lemma_lock_path(bytes, file, p, q);
            lemma_flush_path(bytes, lock_scan(bytes, p, file), lock_scan(bytes, q, file), p, q);
        },
        Format::Requirements => {
            lemma_pip_path(bytes, file, p, q);
        },
    }
}

// ---- lockfiles ----

spec fn no_spans(found: Seq<ExtractedView>) -> bool {
    forall|i: int| 0 <= i < found.len() ==> (#[trigger] found[i]).version_span is None
}

proof fn lemma_lock_spans(bytes: Seq<u8>, path: Seq<char>, file: Seq<Seq<char>>)
    ensures
        no_spans(lock_scan(bytes, path, file).found),
        no_spans(lock_flush(bytes, path, lock_scan(bytes, path, file)).found),
    decreases file.len(),
{
    if file.len() > 0 {
        lemma_lock_spans(bytes, path, file.drop_last());
        let s = lock_scan(bytes, path, file.drop_last());
        let t = lock_scan(bytes, path, file);
        assert(t.found == s.found || t.found == lock_flush(bytes, path, s).found);
        let f = lock_flush(bytes, path, t).found;
        assert forall|i: int| 0 <= i < f.len() implies (#[trigger] f[i]).version_span is None by {
            if i < t.found.len() {
                assert(f[i] == t.found[i]);
            }
        }
    }
}

proof fn lemma_sighting_spans(nodes: Seq<NodeView>, path: Seq<char>)
    ensures
        no_spans(just_sightings(sightings_of(nodes, path))),
    decreases nodes.len(),
{
    if nodes.len() > 0 {
        lemma_sighting_spans(nodes.drop_last(), path);
        let before = just_sightings(sightings_of(nodes.drop_last(), path));
        let out = just_sightings(sightings_of(nodes, path));
        assert forall|i: int| 0 <= i < out.len() implies (#[trigger] out[i]).version_span is None by {
            if i < before.len() {
                assert(out[i] == before[i]);
            }
        }
    }
}

/// Lockfiles offer no version span: rewriting one means rewriting integrity
/// hashes and resolved URLs, so that no edit is ever offered against one.
pub proof fn lockfiles_offer_no_version_span(
    format: Format,
    src: Seq<char>,
    path: Seq<char>,
    i: int,
)
    requires
        format == Format::PackageLock || format == Format::CargoLock,
        0 <= i < parsed_of(format, src, path).len(),
    ensures
        parsed_of(format, src, path)[i].version_span is None,
        !parsed_of(format, src, path)[i].from_range,
{
    if format == Format::PackageLock {
        let lock = lock_of(src)->Some_0;
        lemma_sighting_spans(lock.nodes, path);
        lemma_sightings_locked(lock.nodes, path);
    } else {
        lemma_lock_spans(encode_utf8(src), path, lines_of(src));
        lemma_lock_locked(encode_utf8(src), path, lines_of(src));
    }
}

spec fn all_locked(found: Seq<ExtractedView>) -> bool {
    forall|i: int| 0 <= i < found.len() ==> !(#[trigger] found[i]).from_range
}

proof fn lemma_lock_locked(bytes: Seq<u8>, path: Seq<char>, file: Seq<Seq<char>>)
    ensures
        all_locked(lock_scan(bytes, path, file).found),
        all_locked(lock_flush(bytes, path, lock_scan(bytes, path, file)).found),
    decreases file.len(),
{
    if file.len() > 0 {
        lemma_lock_locked(bytes, path, file.drop_last());
        let s = lock_scan(bytes, path, file.drop_last());
        let t = lock_scan(bytes, path, file);
        assert(t.found == s.found || t.found == lock_flush(bytes, path, s).found);
        let f = lock_flush(bytes, path, t).found;
        assert forall|i: int| 0 <= i < f.len() implies !(#[trigger] f[i]).from_range by {
            if i < t.found.len() {
                assert(f[i] == t.found[i]);
            }
        }
    }
}

proof fn lemma_sightings_locked(nodes: Seq<NodeView>, path: Seq<char>)
    ensures
        all_locked(just_sightings(sightings_of(nodes, path))),
    decreases nodes.len(),
{
    if nodes.len() > 0 {
        lemma_sightings_locked(nodes.drop_last(), path);
        let before = just_sightings(sightings_of(nodes.drop_last(), path));
        let out = just_sightings(sightings_of(nodes, path));
        assert forall|i: int| 0 <= i < out.len() implies !(#[trigger] out[i]).from_range by {
            if i < before.len() {
                assert(out[i] == before[i]);
            }
        }
    }
}

} // verus!
