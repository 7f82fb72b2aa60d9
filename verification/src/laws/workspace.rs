//! What a whole workspace is reported to depend on.
use crate::extract::{
    declared_below, declared_here, extracted, foreign, format_of, governing, is_own, is_same_site,
    kept_of, lemma_place, lemma_sorted, locked_in, locked_packages, parsed_of, place_of, reconciled,
    same_place, sorted_of, superseded, with_declaration, with_file_at, ExtractionView, Format,
    LockFileView, OwnView,
};
use crate::graph::WorkspaceView;
use crate::manifest::npm::sightings_of;
use crate::model::{Ecosystem, ExtractedView, KeyView};
use crate::path::{dir_of, lemma_parent_shorter, parent_of};
use crate::text::{rfind_of, rfind_to};
use vstd::prelude::*;

verus! {

// ---- which files are read ----

/// Each file name is read as its format, and no other name is read.
pub proof fn a_file_is_read_by_its_name(name: Seq<char>)
    ensures
        format_of(name) == Some(Format::PackageJson) <==> name == "package.json"@,
        format_of(name) == Some(Format::PackageLock) <==> name == "package-lock.json"@ || name
            == "npm-shrinkwrap.json"@,
        format_of(name) == Some(Format::GoMod) <==> name == "go.mod"@,
        format_of(name) == Some(Format::CargoToml) <==> name == "Cargo.toml"@,
        format_of(name) == Some(Format::CargoLock) <==> name == "Cargo.lock"@,
        format_of(name) == Some(Format::Requirements) <==> exists|rest: Seq<char>| #[trigger]
            ("requirements"@ + rest) == name && name.len() >= 16 && name.skip(name.len() - 4)
                == ".txt"@,
{
    reveal_strlit("package.json");
    reveal_strlit("package-lock.json");
    reveal_strlit("npm-shrinkwrap.json");
    reveal_strlit("go.mod");
    reveal_strlit("Cargo.toml");
    reveal_strlit("Cargo.lock");
    reveal_strlit("requirements");
    reveal_strlit(".txt");
    assert("package.json"@.len() == 12 && "package.json"@[0] == 'p');
    assert("package-lock.json"@.len() == 17 && "package-lock.json"@[0] == 'p');
    assert("npm-shrinkwrap.json"@.len() == 19 && "npm-shrinkwrap.json"@[0] == 'n');
    assert("go.mod"@.len() == 6 && "go.mod"@[0] == 'g');
    assert("Cargo.toml"@.len() == 10 && "Cargo.toml"@[6] == 't');
    assert("Cargo.toml"@[0] == 'C' && "Cargo.lock"@[0] == 'C');
    assert("Cargo.lock"@.len() == 10 && "Cargo.lock"@[6] == 'l');
    assert("requirements"@.len() == 12 && "requirements"@[0] == 'r');
    if "requirements"@.is_prefix_of(name) {
        let rest = name.skip(12);
        assert("requirements"@ + rest =~= name);
        assert(name[0] == 'r');
        if name.len() >= 4 && name.skip(name.len() - 4) == ".txt"@ {
            let tail = name.skip(name.len() - 4);
            assert(tail[0] == '.');
            assert(tail[0] == name[name.len() - 4]);
            if name.len() < 16 {
                assert("requirements"@[name.len() - 4] == name[name.len() - 4]);
                assert(forall|i: int| 0 <= i < 12 ==> "requirements"@[i] != '.');
            }
        }
    }
    if exists|rest: Seq<char>| #[trigger] ("requirements"@ + rest) == name {
        let rest = choose|rest: Seq<char>| #[trigger] ("requirements"@ + rest) == name;
        assert(name.take(12) =~= "requirements"@);
        assert("requirements"@.is_prefix_of(name));
        assert(name[0] == 'r');
    }
}

/// A file adds what its parser says of it, under the path it has; what a
/// lockfile of npm says waits for the end.
pub proof fn a_file_adds_what_it_says(s: ExtractionView, path: Seq<char>, source: Seq<char>)
    ensures
        ({
            let t = with_file_at(s, path, source);
            match format_of(crate::path::name_of(path)) {
                None => t == s,
                Some(Format::PackageLock) => t.sightings == s.sightings && t.lock_dirs
                    == s.lock_dirs.push(dir_of(path)) && (match crate::manifest::npm::lock_of(
                    source,
                ) {
                    Some(lock) => t.locks == s.locks.push(LockFileView { path, lock }),
                    None => t.locks == s.locks,
                }),
                Some(format) => t.sightings == s.sightings + parsed_of(format, source, path)
                    && t.locks == s.locks && t.lock_dirs == s.lock_dirs,
            }
        }),
{
}

/// Some directories are never walked into, by their whole name: what is
/// installed, built or kept by other tools.
pub proof fn some_directories_are_passed_over(name: Seq<char>)
    ensures
        crate::extract::skipped_names().contains(name) <==> name == "node_modules"@ || name
            == ".git"@ || name == ".venv"@ || name == "venv"@ || name == "vendor"@ || name
            == "target"@ || name == "dist"@,
{
    let all = crate::extract::skipped_names();
    assert(all[0] == "node_modules"@ && all[1] == ".git"@ && all[2] == ".venv"@ && all[3]
        == "venv"@ && all[4] == "vendor"@ && all[5] == "target"@ && all[6] == "dist"@);
    if all.contains(name) {
        let i = choose|i: int| 0 <= i < all.len() && all[i] == name;
        assert(i == 0 || i == 1 || i == 2 || i == 3 || i == 4 || i == 5 || i == 6);
    }
}

/// Besides what is read, the lockfiles and manifests of other tools are watched.
pub proof fn other_lockfiles_are_watched()
    ensures
        forall|name: Seq<char>|
            #![trigger crate::lsp::is_watched_name(name)]
            crate::lsp::is_watched_name(name) <==> format_of(name) is Some || name == "yarn.lock"@
                || name == "pnpm-lock.yaml"@ || name == "bun.lock"@ || name == "go.sum"@ || name
                == "pyproject.toml"@ || name == "poetry.lock"@ || name == "uv.lock"@,
{
    let all = crate::lsp::watched_names();
    assert(all[3] == "yarn.lock"@ && all[4] == "pnpm-lock.yaml"@ && all[5] == "bun.lock"@ && all[7]
        == "go.sum"@ && all[8] == "pyproject.toml"@ && all[9] == "poetry.lock"@ && all[10]
        == "uv.lock"@);
    assert forall|name: Seq<char>|
        #![trigger crate::lsp::is_watched_name(name)]
        crate::lsp::is_watched_name(name) <==> format_of(name) is Some || name == "yarn.lock"@
            || name == "pnpm-lock.yaml"@ || name == "bun.lock"@ || name == "go.sum"@ || name
            == "pyproject.toml"@ || name == "poetry.lock"@ || name == "uv.lock"@ by {
        if format_of(name) is Some {
            crate::lsp::every_parsed_manifest_is_watched(name);
        }
        if all.contains(name) {
            let i = choose|i: int| 0 <= i < all.len() && all[i] == name;
            assert(i == 0 || i == 1 || i == 2 || i == 3 || i == 4 || i == 5 || i == 6 || i == 7 || i
                == 8 || i == 9 || i == 10 || i == 11 || i == 12);
            a_file_is_read_by_its_name(name);
        }
    }
}

// ---- directories ----

/// Whether a path is spelled in the one way that paths of a workspace are.
pub open spec fn is_tidy(dir: Seq<char>) -> bool {
    &&& forall|i: int| 0 <= i < dir.len() - 1 ==> !(#[trigger] dir[i] == '/' && dir[i + 1] == '/')
    &&& dir.len() > 1 ==> dir.last() != '/'
}

/// Whether a directory is another or holds it, however deep.
pub open spec fn holds(up: Seq<char>, dir: Seq<char>) -> bool {
    ||| up == dir
    ||| up.len() == 0 && dir.len() > 0 && dir[0] != '/'
    ||| up == seq!['/'] && dir.len() > 0 && dir[0] == '/'
    ||| up.len() > 0 && up != seq!['/'] && (up + seq!['/']).is_prefix_of(dir)
}

proof fn lemma_parent(dir: Seq<char>)
    requires
        is_tidy(dir),
    ensures
        match parent_of(dir) {
            None => dir.len() == 0 || dir == seq!['/'],
            Some(p) => {
                &&& is_tidy(p)
                &&& dir.len() > 0 && dir != seq!['/']
                &&& p.len() == 0 ==> forall|i: int| 0 <= i < dir.len() ==> #[trigger] dir[i] != '/'
                &&& p == seq!['/'] ==> dir[0] == '/' && forall|i: int|
                    0 < i < dir.len() ==> #[trigger] dir[i] != '/'
                &&& p.len() > 0 && p != seq!['/'] ==> (p + seq!['/']).is_prefix_of(dir) && forall|
                    i: int,
                |
                    p.len() < i < dir.len() ==> #[trigger] dir[i] != '/'
            },
        },
{
    reveal_strlit("/");
    assert("/"@ =~= seq!['/']);
    if dir.len() > 0 && dir != "/"@ {
        lemma_last_slash(dir, dir.len() - 1);
        match rfind_of(dir, "/"@) {
            Some(at) => {
                let p = dir.take(at as int);
                if at > 0 {
                    assert((p + seq!['/']) =~= dir.take(at as int + 1));
                    assert(p.len() > 1 ==> p.last() != '/') by {
                        if p.len() > 1 && p.last() == '/' {
                            assert(dir[at - 1] == '/' && dir[at as int] == '/');
                        }
                    }
                    assert(is_tidy(p)) by {
                        assert forall|i: int| 0 <= i < p.len() - 1 implies !(#[trigger] p[i] == '/'
                            && p[i + 1] == '/') by {
                            assert(p[i] == dir[i] && p[i + 1] == dir[i + 1]);
                        }
                    }
                    if p =~= seq!['/'] {
                        assert(p[0] == '/' && at == 1);
                        assert(dir[0] == '/' && dir[1] == '/');
                    }
                }
            },
            None => {},
        }
    }
}

proof fn lemma_last_slash(s: Seq<char>, to: int)
    requires
        to < s.len(),
    ensures
        match rfind_to(s, "/"@, to) {
            Some(at) => at <= to && s[at as int] == '/' && forall|j: int|
                at < j <= to ==> #[trigger] s[j] != '/',
            None => forall|j: int| 0 <= j <= to ==> #[trigger] s[j] != '/',
        },
    decreases to + 1,
{
    reveal_strlit("/");
    if to >= 0 {
        let part = s.subrange(to, to + "/"@.len());
        assert(part[0] == s[to]);
        assert("/"@[0] == '/');
        if s[to] == '/' {
            assert(part =~= "/"@);
        } else {
            assert(part != "/"@);
            lemma_last_slash(s, to - 1);
        }
    }
}

/// Going up one directory leaves those above it.
proof fn lemma_holds_up(up: Seq<char>, dir: Seq<char>)
    requires
        is_tidy(dir),
        is_tidy(up),
        up != dir,
    ensures
        match parent_of(dir) {
            Some(p) => holds(up, dir) == holds(up, p),
            None => !holds(up, dir),
        },
{
    lemma_parent(dir);
    let slash = seq!['/'];
    match parent_of(dir) {
        None => {
            if dir.len() == 0 {
                if up.len() == 0 {
                    assert(up =~= dir);
                }
                if (up + slash).is_prefix_of(dir) {
                    assert((up + slash).len() <= dir.len());
                }
            } else {
                if up.len() > 0 && (up + slash).is_prefix_of(dir) {
                    assert((up + slash).len() <= dir.len());
                }
            }
        },
        Some(p) => {
            if up.len() == 0 && p.len() == 0 {
                assert(up =~= p);
            }
            if up.len() == 0 && dir.len() > 0 && p == slash {
                assert(dir[0] == '/');
            }
            if p.len() == 0 && dir.len() > 0 {
                assert(dir[0] != '/');
                if up.len() > 0 && up != slash && (up + slash).is_prefix_of(dir) {
                    assert(dir[up.len() as int] == (up + slash)[up.len() as int]);
                }
            }
            if p == slash && up.len() > 0 && up != slash && (up + slash).is_prefix_of(dir) {
                assert(dir[up.len() as int] == (up + slash)[up.len() as int]);
            }
            if up.len() > 0 && up != slash {
                let u = up + slash;
                if u.is_prefix_of(dir) {
                    assert(dir[up.len() as int] == u[up.len() as int]);
                    if p.len() > 0 && p != slash {
                        assert(up.len() <= p.len());
                        if up.len() == p.len() {
                            assert(up =~= dir.take(up.len() as int)) by {
                                assert forall|i: int| 0 <= i < up.len() implies up[i] == dir[i] by {
                                    assert(u[i] == dir[i]);
                                }
                            }
                            assert(p =~= dir.take(p.len() as int)) by {
                                let q = p + slash;
                                assert forall|i: int| 0 <= i < p.len() implies p[i] == dir[i] by {
                                    assert(q[i] == dir[i]);
                                }
                            }
                            assert(up == p);
                        } else {
                            let q = p + slash;
                            assert(p.take(u.len() as int) =~= u) by {
                                assert forall|i: int| 0 <= i < u.len() implies p[i] == u[i] by {
                                    assert(q[i] == dir[i]);
                                    assert(u[i] == dir[i]);
                                }
                            }
                            assert(u.is_prefix_of(p));
                        }
                    }
                }
                if u.is_prefix_of(p) && p.len() > 0 && p != slash {
                    let q = p + slash;
                    assert(dir.take(u.len() as int) =~= u) by {
                        assert forall|i: int| 0 <= i < u.len() implies dir[i] == u[i] by {
                            assert(q[i] == dir[i]);
                            assert(u[i] == p[i]);
                        }
                    }
                    assert(u.is_prefix_of(dir));
                }
                if u.is_prefix_of(p) {
                    assert(u.len() <= p.len());
                    assert(u.len() >= 2);
                }
            }
            if p.len() > 0 && p != slash {
                let q = p + slash;
                assert(q[0] == dir[0]);
                assert(p[0] == dir[0]);
            }
        },
    }
}

proof fn lemma_governing(all: Seq<ExtractedView>, dir: Seq<char>, key: KeyView)
    requires
        is_tidy(dir),
        forall|i: int| 0 <= i < all.len() ==> is_tidy(dir_of((#[trigger] all[i]).evidence.path)),
    ensures
        governing(all, dir, key) is Some <==> exists|i: int|
            0 <= i < all.len() && !(#[trigger] all[i]).from_range && all[i].package.key == key
                && holds(dir_of(all[i].evidence.path), dir),
    decreases dir.len(),
{
    if locked_in(all, dir, key) {
        let i = choose|i: int|
            0 <= i < all.len() && !(#[trigger] all[i]).from_range && all[i].package.key == key
                && dir_of(all[i].evidence.path) == dir;
        assert(holds(dir_of(all[i].evidence.path), dir));
    } else {
        lemma_parent(dir);
        assert forall|i: int|
            0 <= i < all.len() && !(#[trigger] all[i]).from_range && all[i].package.key
                == key implies match parent_of(dir) {
            Some(p) => holds(dir_of(all[i].evidence.path), dir) == holds(
                dir_of(all[i].evidence.path),
                p,
            ),
            None => !holds(dir_of(all[i].evidence.path), dir),
        } by {
            lemma_holds_up(dir_of(all[i].evidence.path), dir);
        }
        if let Some(p) = parent_of(dir) {
            lemma_parent_shorter(dir);
            lemma_governing(all, p, key);
            if governing(all, p, key) is Some {
                let i = choose|i: int|
                    0 <= i < all.len() && !(#[trigger] all[i]).from_range && all[i].package.key
                        == key && holds(dir_of(all[i].evidence.path), p);
                assert(holds(dir_of(all[i].evidence.path), dir));
            }
            if exists|i: int|
                0 <= i < all.len() && !(#[trigger] all[i]).from_range && all[i].package.key == key
                    && holds(dir_of(all[i].evidence.path), dir) {
                let i = choose|i: int|
                    0 <= i < all.len() && !(#[trigger] all[i]).from_range && all[i].package.key
                        == key && holds(dir_of(all[i].evidence.path), dir);
                assert(holds(dir_of(all[i].evidence.path), p));
            }
        }
    }
}

/// A range gives way to what is installed exactly where a lockfile in the same
/// directory, or in one that holds it, pins the package.
pub proof fn a_range_gives_way_to_a_lockfile_above(all: Seq<ExtractedView>, s: ExtractedView)
    requires
        is_tidy(dir_of(s.evidence.path)),
        forall|i: int| 0 <= i < all.len() ==> is_tidy(dir_of((#[trigger] all[i]).evidence.path)),
    ensures
        superseded(all, s) <==> s.from_range && exists|i: int|
            0 <= i < all.len() && !(#[trigger] all[i]).from_range && all[i].package.key
                == s.package.key && holds(
                dir_of(all[i].evidence.path),
                dir_of(s.evidence.path),
            ),
{
    lemma_governing(all, dir_of(s.evidence.path), s.package.key);
}

// ---- one report for a package in a directory ----

/// Whether a sighting is of the package at the version and in the directory of
/// another.
pub open spec fn beside(a: ExtractedView, b: ExtractedView) -> bool {
    a.package == b.package && dir_of(a.evidence.path) == dir_of(b.evidence.path)
}

/// Whether a sighting is the first that counts for a report.
pub open spec fn is_first(found: Seq<ExtractedView>, n: int, r: ExtractedView, k: int) -> bool {
    &&& 0 <= k < n
    &&& beside(found[k], r)
    &&& !superseded(found, found[k])
    &&& forall|j: int|
        0 <= j < k ==> !(beside(#[trigger] found[j], r) && !superseded(found, found[j]))
}

/// Whether some sighting that counts for a report names no group.
pub open spec fn ships(found: Seq<ExtractedView>, n: int, r: ExtractedView) -> bool {
    exists|j: int|
        0 <= j < n && beside(#[trigger] found[j], r) && !superseded(found, found[j])
            && found[j].dep_groups.len() == 0
}

/// What is kept of a package: its first sighting, with where it is declared, and
/// without groups where some sighting names none.
pub open spec fn is_kept(found: Seq<ExtractedView>, n: int, r: ExtractedView, k: int) -> bool {
    let first = with_declaration(found, found[k]);
    &&& is_first(found, n, r, k)
    &&& r.package == first.package && r.evidence == first.evidence
    &&& r.declared == first.declared && r.paths == first.paths
    &&& r.from_range == first.from_range && r.version_span == first.version_span
    &&& ships(found, n, r) ==> r.dep_groups.len() == 0
    &&& !ships(found, n, r) ==> r.dep_groups == first.dep_groups
}

proof fn lemma_kept(found: Seq<ExtractedView>, n: int, i: int) -> (k: int)
    requires
        0 <= n <= found.len(),
        0 <= i < kept_of(found, found.take(n)).len(),
    ensures
        is_kept(found, n, kept_of(found, found.take(n))[i], k),
    decreases n,
{
    if n == 0 {
        assert(found.take(0) =~= seq![]);
        0
    } else {
        let m = n - 1;
        assert(found.take(n).drop_last() =~= found.take(m));
        let s = found[m];
        assert(found.take(n).last() == s);
        let kept = kept_of(found, found.take(m));
        let out = kept_of(found, found.take(n));
        lemma_place(kept, s);
        if superseded(found, s) {
            let k = lemma_kept(found, m, i);
            lemma_more(found, m, out[i], k);
            k
        } else {
            match place_of(kept, s) {
                Some(p) => {
                    let k = lemma_kept(found, m, i);
                    let r = kept[i];
                    let q = out[i];
                    assert(beside(s, kept[p as int]));
                    if i == p {
                        assert(is_first(found, n, q, k));
                        assert(beside(found[m], q));
                        if s.dep_groups.len() == 0 {
                            assert(ships(found, n, q));
                        } else {
                            lemma_ships(found, m, r);
                            assert(q == r);
                            assert(ships(found, n, q) == ships(found, m, r));
                        }
                    } else {
                        lemma_apart(found, m, i, p as int);
                        assert(!beside(s, r));
                        lemma_ships(found, m, r);
                        assert(q == r);
                    }
                    k
                },
                None => {
                    if i < kept.len() {
                        let k = lemma_kept(found, m, i);
                        let r = kept[i];
                        assert(out[i] == r);
                        assert(!same_place(kept[i], s));
                        lemma_ships(found, m, r);
                        k
                    } else {
                        let r = out[i];
                        assert(r == with_declaration(found, s));
                        assert(beside(found[m], r));
                        assert forall|j: int| 0 <= j < m implies !(beside(#[trigger] found[j], r)
                            && !superseded(found, found[j])) by {
                            if beside(found[j], r) && !superseded(found, found[j]) {
                                let p = lemma_listed(found, m, j);
                                assert(same_place(kept[p], s));
                            }
                        }
                        if ships(found, n, r) {
                            let j = choose|j: int|
                                0 <= j < n && beside(#[trigger] found[j], r) && !superseded(
                                    found,
                                    found[j],
                                ) && found[j].dep_groups.len() == 0;
                            assert(j == m);
                        }
                        m
                    }
                },
            }
        }
    }
}

/// One more sighting that does not count changes nothing.
proof fn lemma_more(found: Seq<ExtractedView>, m: int, r: ExtractedView, k: int)
    requires
        0 <= m < found.len(),
        superseded(found, found[m]),
        is_kept(found, m, r, k),
    ensures
        is_kept(found, m + 1, r, k),
{
    lemma_ships(found, m, r);
}

proof fn lemma_ships(found: Seq<ExtractedView>, m: int, r: ExtractedView)
    requires
        0 <= m < found.len(),
    ensures
        ships(found, m + 1, r) == (ships(found, m, r) || (beside(found[m], r) && !superseded(
            found,
            found[m],
        ) && found[m].dep_groups.len() == 0)),
{
    if ships(found, m, r) {
        let j = choose|j: int|
            0 <= j < m && beside(#[trigger] found[j], r) && !superseded(found, found[j])
                && found[j].dep_groups.len() == 0;
        assert(beside(found[j], r));
    }
}

proof fn lemma_listed(found: Seq<ExtractedView>, n: int, j: int) -> (p: int)
    requires
        0 <= j < n <= found.len(),
        !superseded(found, found[j]),
    ensures
        0 <= p < kept_of(found, found.take(n)).len(),
        same_place(kept_of(found, found.take(n))[p], found[j]),
    decreases n,
{
    let m = n - 1;
    assert(found.take(n).drop_last() =~= found.take(m));
    let s = found[m];
    assert(found.take(n).last() == s);
    let kept = kept_of(found, found.take(m));
    lemma_place(kept, s);
    if j < m {
        lemma_listed(found, m, j)
    } else {
        match place_of(kept, s) {
            Some(p) => p as int,
            None => kept.len() as int,
        }
    }
}

proof fn lemma_apart(found: Seq<ExtractedView>, n: int, i: int, j: int)
    requires
        0 <= n <= found.len(),
        0 <= i < kept_of(found, found.take(n)).len(),
        0 <= j < kept_of(found, found.take(n)).len(),
        i != j,
    ensures
        !same_place(
            kept_of(found, found.take(n))[i],
            kept_of(found, found.take(n))[j],
        ),
    decreases n,
{
    if n == 0 {
        assert(found.take(0) =~= seq![]);
    } else {
        let m = n - 1;
        assert(found.take(n).drop_last() =~= found.take(m));
        let s = found[m];
        assert(found.take(n).last() == s);
        let kept = kept_of(found, found.take(m));
        lemma_place(kept, s);
        if i < kept.len() && j < kept.len() {
            lemma_apart(found, m, i, j);
        } else if i < kept.len() {
            assert(!same_place(kept[i], s));
        } else if j < kept.len() {
            assert(!same_place(kept[j], s));
        }
    }
}

/// What is reported of a package in a directory is its first sighting that no
/// lockfile supersedes, with where it was asked for; and it is in no group where
/// some such sighting names none: what ships in one place ships.
pub proof fn the_first_sighting_is_reported(found: Seq<ExtractedView>, i: int) -> (k: int)
    requires
        0 <= i < reconciled(found).len(),
    ensures
        is_kept(found, found.len() as int, reconciled(found)[i], k),
{
    let kept = kept_of(found, found);
    lemma_sorted(kept);
    assert(kept.contains(sorted_of(kept)[i]));
    let j = choose|j: int| 0 <= j < kept.len() && kept[j] == sorted_of(kept)[i];
    assert(found.take(found.len() as int) =~= found);
    lemma_kept(found, found.len() as int, j)
}

// ---- where a package was asked for ----

proof fn lemma_declared_here(found: Seq<ExtractedView>, dir: Seq<char>, key: KeyView)
    ensures
        match declared_here(found, dir, key) {
            Some(site) => exists|i: int|
                0 <= i < found.len() && (#[trigger] found[i]).from_range && found[i].package.key
                    == key && dir_of(found[i].evidence.path) == dir && found[i].evidence == site,
            None => forall|i: int|
                0 <= i < found.len() ==> !((#[trigger] found[i]).from_range && found[i].package.key
                    == key && dir_of(found[i].evidence.path) == dir),
        },
    decreases found.len(),
{
    if found.len() > 0 {
        let s = found[0];
        let rest = found.skip(1);
        if s.from_range && s.package.key == key && dir_of(s.evidence.path) == dir {
            assert(found[0].evidence == s.evidence);
        } else {
            lemma_declared_here(rest, dir, key);
            match declared_here(rest, dir, key) {
                Some(site) => {
                    let i = choose|i: int|
                        0 <= i < rest.len() && (#[trigger] rest[i]).from_range
                            && rest[i].package.key == key && dir_of(rest[i].evidence.path) == dir
                            && rest[i].evidence == site;
                    assert(found[i + 1] == rest[i]);
                },
                None => {
                    assert forall|i: int| 0 <= i < found.len() implies !((
                    #[trigger] found[i]).from_range && found[i].package.key == key && dir_of(
                        found[i].evidence.path,
                    ) == dir) by {
                        if i > 0 {
                            assert(found[i] == rest[i - 1]);
                        }
                    }
                },
            }
        }
    }
}

proof fn lemma_declared_below(
    all: Seq<ExtractedView>,
    found: Seq<ExtractedView>,
    dir: Seq<char>,
    key: KeyView,
)
    ensures
        declared_below(all, found, dir, key) matches Some(site) ==> exists|i: int|
            0 <= i < found.len() && (#[trigger] found[i]).from_range && found[i].package.key == key
                && found[i].evidence == site,
    decreases found.len(),
{
    if found.len() > 0 {
        let s = found[0];
        let rest = found.skip(1);
        if s.from_range && s.package.key == key && governing(all, dir_of(s.evidence.path), key)
            == Some(dir) {
            assert(found[0].evidence == s.evidence);
        } else {
            lemma_declared_below(all, rest, dir, key);
            if let Some(site) = declared_below(all, rest, dir, key) {
                let i = choose|i: int|
                    0 <= i < rest.len() && (#[trigger] rest[i]).from_range && rest[i].package.key
                        == key && rest[i].evidence == site;
                assert(found[i + 1] == rest[i]);
            }
        }
    }
}

/// Where a package was asked for is where a manifest asks for it: a place that
/// is known already stands, else it is one of a range for the package, and one
/// in the same directory comes first.
pub proof fn a_package_is_declared_where_a_manifest_asks_for_it(
    all: Seq<ExtractedView>,
    s: ExtractedView,
)
    ensures
        ({
            let r = with_declaration(all, s);
            let dir = dir_of(s.evidence.path);
            &&& s.declared is Some ==> r == s
            &&& s.declared is None && r.declared is Some ==> exists|i: int|
                0 <= i < all.len() && (#[trigger] all[i]).from_range && all[i].package.key
                    == s.package.key && r.declared == Some(all[i].evidence) && !is_same_site(
                    all[i].evidence,
                    s.evidence,
                )
            &&& s.declared is None && (exists|i: int|
                0 <= i < all.len() && (#[trigger] all[i]).from_range && all[i].package.key
                    == s.package.key && dir_of(all[i].evidence.path) == dir) && (forall|i: int|
                0 <= i < all.len() && (#[trigger] all[i]).from_range && all[i].package.key
                    == s.package.key ==> !is_same_site(all[i].evidence, s.evidence)) ==> exists|
                i: int,
            |
                0 <= i < all.len() && (#[trigger] all[i]).from_range && all[i].package.key
                    == s.package.key && dir_of(all[i].evidence.path) == dir && r.declared == Some(
                    all[i].evidence,
                )
            &&& r.package == s.package && r.evidence == s.evidence && r.paths == s.paths
                && r.dep_groups == s.dep_groups
        }),
{
    let dir = dir_of(s.evidence.path);
    let key = s.package.key;
    lemma_declared_here(all, dir, key);
    lemma_declared_below(all, all, dir, key);
}

proof fn lemma_declared_below_first(
    all: Seq<ExtractedView>,
    found: Seq<ExtractedView>,
    dir: Seq<char>,
    key: KeyView,
    k: int,
)
    requires
        0 <= k < found.len(),
        asks_under(all, found[k], dir, key),
        forall|i: int| 0 <= i < k ==> !asks_under(all, #[trigger] found[i], dir, key),
    ensures
        declared_below(all, found, dir, key) == Some(found[k].evidence),
    decreases k,
{
    if k > 0 {
        assert(!asks_under(all, found[0], dir, key));
        let rest = found.skip(1);
        assert forall|i: int| 0 <= i < k - 1 implies !asks_under(
            all,
            #[trigger] rest[i],
            dir,
            key,
        ) by {
            assert(rest[i] == found[i + 1]);
        }
        lemma_declared_below_first(all, rest, dir, key, k - 1);
    }
}

/// Whether a manifest asks for a package that a lockfile in a directory, the
/// nearest at or above it, pins.
pub open spec fn asks_under(
    all: Seq<ExtractedView>,
    s: ExtractedView,
    dir: Seq<char>,
    key: KeyView,
) -> bool {
    s.from_range && s.package.key == key && governing(all, dir_of(s.evidence.path), key) == Some(
        dir,
    )
}

/// Where no manifest beside a lockfile asks for a package, it was asked for by
/// the first manifest below that the lockfile governs.
pub proof fn a_manifest_below_is_answered_for(all: Seq<ExtractedView>, s: ExtractedView, k: int)
    requires
        s.declared is None,
        0 <= k < all.len(),
        asks_under(all, all[k], dir_of(s.evidence.path), s.package.key),
        forall|i: int|
            0 <= i < k ==> !asks_under(
                all,
                #[trigger] all[i],
                dir_of(s.evidence.path),
                s.package.key,
            ),
        forall|i: int|
            0 <= i < all.len() && (#[trigger] all[i]).from_range && all[i].package.key
                == s.package.key ==> dir_of(all[i].evidence.path) != dir_of(s.evidence.path),
        !is_same_site(all[k].evidence, s.evidence),
    ensures
        with_declaration(all, s).declared == Some(all[k].evidence),
{
    let dir = dir_of(s.evidence.path);
    let key = s.package.key;
    lemma_declared_here(all, dir, key);
    if let Some(site) = declared_here(all, dir, key) {
        let i = choose|i: int|
            0 <= i < all.len() && (#[trigger] all[i]).from_range && all[i].package.key == key
                && dir_of(all[i].evidence.path) == dir && all[i].evidence == site;
        assert(dir_of(all[i].evidence.path) != dir);
    }
    lemma_declared_below_first(all, all, dir, key, k);
}

// ---- nothing is lost ----

proof fn lemma_foreign(found: Seq<ExtractedView>, own: Seq<OwnView>, k: int)
    requires
        0 <= k < found.len(),
        !is_own(found[k], own),
    ensures
        foreign(found, own).contains(found[k]),
    decreases found.len(),
{
    let front = found.drop_last();
    let out = foreign(found, own);
    if k < front.len() {
        lemma_foreign(front, own, k);
        assert(front[k] == found[k]);
        let before = foreign(front, own);
        let i = choose|i: int| 0 <= i < before.len() && before[i] == found[k];
        assert(out[i] == found[k]);
    } else {
        assert(out[out.len() - 1] == found[k]);
    }
}

/// What a file said is reported for its directory, unless a lockfile supersedes
/// it or it is the project's own crate.
pub proof fn what_was_seen_is_reported(s: ExtractionView, k: int) -> (i: int)
    requires
        0 <= k < s.sightings.len(),
        !is_own(s.sightings[k], s.own),
        ({
            let seen = WorkspaceView { manifests: s.manifests, lock_dirs: s.lock_dirs };
            let all = foreign(s.sightings + locked_packages(s.locks, seen), s.own);
            !superseded(all, s.sightings[k])
        }),
    ensures
        0 <= i < extracted(s).len(),
        beside(s.sightings[k], extracted(s)[i]),
{
    let seen = WorkspaceView { manifests: s.manifests, lock_dirs: s.lock_dirs };
    let whole = s.sightings + locked_packages(s.locks, seen);
    assert(whole[k] == s.sightings[k]);
    lemma_foreign(whole, s.own, k);
    let all = foreign(whole, s.own);
    let j = choose|j: int| 0 <= j < all.len() && all[j] == s.sightings[k];
    let i = crate::extract::everything_else_is_reported(all, j);
    i
}

/// Every package of a lockfile of npm is reported for its directory, at the
/// version it is locked at.
pub proof fn what_is_locked_is_reported(s: ExtractionView, l: int, n: int) -> (i: int)
    requires
        0 <= l < s.locks.len(),
        0 <= n < sightings_of(s.locks[l].lock.nodes, s.locks[l].path).len(),
    ensures
        0 <= i < extracted(s).len(),
        beside(
            sightings_of(s.locks[l].lock.nodes, s.locks[l].path)[n].1,
            extracted(s)[i],
        ),
{
    let seen = WorkspaceView { manifests: s.manifests, lock_dirs: s.lock_dirs };
    let locked = locked_packages(s.locks, seen);
    let whole = s.sightings + locked;
    let f = s.locks[l];
    let (node, x) = sightings_of(f.lock.nodes, f.path)[n];
    let k = lemma_locked(s.locks, seen, l, n);
    lemma_sighting_kind(f.lock.nodes, f.path, n);
    assert(whole[s.sightings.len() + k] == locked[k]);
    lemma_foreign(whole, s.own, s.sightings.len() + k);
    let all = foreign(whole, s.own);
    let j = choose|j: int| 0 <= j < all.len() && all[j] == locked[k];
    crate::extract::everything_else_is_reported(all, j)
}

proof fn lemma_locked(locks: Seq<LockFileView>, seen: WorkspaceView, l: int, n: int) -> (k: int)
    requires
        0 <= l < locks.len(),
        0 <= n < sightings_of(locks[l].lock.nodes, locks[l].path).len(),
    ensures
        0 <= k < locked_packages(locks, seen).len(),
        ({
            let x = sightings_of(locks[l].lock.nodes, locks[l].path)[n].1;
            let y = locked_packages(locks, seen)[k];
            y.package == x.package && y.evidence == x.evidence && y.from_range == x.from_range
        }),
    decreases locks.len(),
{
    let front = locks.drop_last();
    let before = locked_packages(front, seen);
    if l < front.len() {
        assert(front[l] == locks[l]);
        let k = lemma_locked(front, seen, l, n);
        assert(locked_packages(locks, seen)[k] == before[k]);
        k
    } else {
        before.len() + n
    }
}

proof fn lemma_sighting_kind(
    nodes: Seq<crate::manifest::npm::NodeView>,
    path: Seq<char>,
    n: int,
)
    requires
        0 <= n < sightings_of(nodes, path).len(),
    ensures
        sightings_of(nodes, path)[n].1.package.key.ecosystem == Ecosystem::Npm,
        !sightings_of(nodes, path)[n].1.from_range,
    decreases nodes.len(),
{
    if nodes.len() > 0 {
        let before = sightings_of(nodes.drop_last(), path);
        if n < before.len() {
            lemma_sighting_kind(nodes.drop_last(), path, n);
            assert(sightings_of(nodes, path)[n] == before[n]);
        }
    }
}

} // verus!
