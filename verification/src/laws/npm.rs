//! What `package.json` and `package-lock.json` that are parsed are read as.
use crate::json::{json_of, object_of, property_of, string_of, Entry, Tree};
use crate::laws::reports::{gist, gists, lemma_gists_add, lemma_gists_push, reported, Gist};
use crate::laws::toml::{names_in, once};
use crate::laws::writing::{lacks, lemma_find_none, lemma_found};
use crate::manifest::npm::{
    alias_of, candidate, declarations_of, declared_of, dep_names, dependencies_of, dependency_of,
    edges_of, follow_of, groups_of, is_dependency_path, just_sightings, lock_section, named_once,
    names_of, nested_path, node_sighting, package_json_of, package_lock_of, package_node,
    package_nodes, paths_of, project_node, resolve_of, section_deps, section_groups, section_name,
    sightings_of, tree_node, tree_nodes, with_section, DeclaredView, DepKind, DepView,
    MAX_LINK_HOPS, NodeView,
};
use crate::manifest::{first_of_each, keys_of, lowest_of};
use crate::model::{DeclarationView, Ecosystem, ExtractedView, SiteView};
use crate::span::range_of;
use crate::table::first_index;
use crate::text::{lemma_utf8_add, rfind_of, rfind_to, utf8_len};
use vstd::prelude::*;
use vstd::utf8::encode_utf8;

verus! {

// ---- objects ----

/// A property is the first of its name; later ones are not read.
pub proof fn a_property_is_the_first_of_its_name(es: Seq<Entry>, name: Seq<char>, k: int)
    requires
        0 <= k <= es.len(),
        forall|i: int| 0 <= i < k ==> (#[trigger] es[i]).name != name,
        k < es.len() ==> es[k].name == name,
    ensures
        property_of(es, name) == (if k < es.len() {
            Some(es[k].value)
        } else {
            None
        }),
    decreases es.len(),
{
    if es.len() > 0 && k > 0 {
        let rest = es.skip(1);
        assert(es[0].name != name);
        assert forall|i: int| 0 <= i < k - 1 implies (#[trigger] rest[i]).name != name by {
            assert(rest[i] == es[i + 1]);
        }
        if k < es.len() {
            assert(rest[k - 1] == es[k]);
        }
        a_property_is_the_first_of_its_name(rest, name, k - 1);
    }
}

// ---- the manifest ----

/// What one section of a manifest declares: each entry whose constraint names a
/// version, at the lowest that it names.
pub open spec fn declared_by(es: Seq<Entry>, groups: Seq<Seq<char>>, path: Seq<char>) -> Seq<Gist>
    decreases es.len(),
{
    if es.len() == 0 {
        seq![]
    } else {
        let before = declared_by(es.drop_last(), groups, path);
        match es.last().value {
            Tree::Text(constraint, _) => match lowest_of(constraint) {
                Some(l) => before.push(
                    reported(Ecosystem::Npm, es.last().name, l.version, path, groups, true),
                ),
                None => before,
            },
            _ => before,
        }
    }
}

/// What a section of a manifest declares, where there is one.
pub open spec fn section_by(
    es: Seq<Entry>,
    title: Seq<char>,
    groups: Seq<Seq<char>>,
    path: Seq<char>,
) -> Seq<Gist> {
    match object_of(es, title) {
        Some(inner) => declared_by(inner, groups, path),
        None => seq![],
    }
}

proof fn lemma_section(bytes: Seq<u8>, path: Seq<char>, es: Seq<Entry>, i: int)
    ensures
        gists(dependencies_of(bytes, path, section_deps(es, i))) == declared_by(
            es,
            section_groups(i),
            path,
        ),
    decreases es.len(),
{
    let ds = section_deps(es, i);
    if es.len() == 0 {
        assert(gists(dependencies_of(bytes, path, ds)) =~= declared_by(
            es,
            section_groups(i),
            path,
        ));
    } else {
        let front = es.drop_last();
        lemma_section(bytes, path, front, i);
        match es.last().value {
            Tree::Text(_, _) => {
                assert(ds.drop_last() =~= section_deps(front, i));
                let before = dependencies_of(bytes, path, ds.drop_last());
                if let Some(x) = dependency_of(bytes, path, ds.last()) {
                    lemma_gists_push(before, x);
                }
            },
            _ => {},
        }
    }
}

proof fn lemma_dependencies_add(
    bytes: Seq<u8>,
    path: Seq<char>,
    a: Seq<DeclaredView>,
    b: Seq<DeclaredView>,
)
    ensures
        dependencies_of(bytes, path, a + b) == dependencies_of(bytes, path, a) + dependencies_of(
            bytes,
            path,
            b,
        ),
    decreases b.len(),
{
    if b.len() == 0 {
        assert(a + b =~= a);
        assert(dependencies_of(bytes, path, a) + dependencies_of(bytes, path, b)
            =~= dependencies_of(bytes, path, a));
    } else {
        lemma_dependencies_add(bytes, path, a, b.drop_last());
        assert((a + b).drop_last() =~= a + b.drop_last());
        assert((a + b).last() == b.last());
        assert(dependencies_of(bytes, path, a + b) =~= dependencies_of(bytes, path, a)
            + dependencies_of(bytes, path, b));
    }
}

proof fn lemma_sections(bytes: Seq<u8>, path: Seq<char>, es: Seq<Entry>, n: nat)
    requires
        n < 4,
    ensures
        gists(dependencies_of(bytes, path, declared_of(es, n + 1))) == gists(
            dependencies_of(bytes, path, declared_of(es, n)),
        ) + section_by(es, section_name(n as int), section_groups(n as int), path),
{
    let before = declared_of(es, n);
    match object_of(es, section_name(n as int)) {
        Some(inner) => {
            let more = section_deps(inner, n as int);
            lemma_dependencies_add(bytes, path, before, more);
            lemma_section(bytes, path, inner, n as int);
            lemma_gists_add(
                dependencies_of(bytes, path, before),
                dependencies_of(bytes, path, more),
            );
        },
        None => {
            let g = gists(dependencies_of(bytes, path, before));
            assert(g + Seq::<Gist>::empty() =~= g);
        },
    }
}

proof fn lemma_once(all: Seq<ExtractedView>)
    ensures
        gists(first_of_each(all)) == once(gists(all)),
    decreases all.len(),
{
    let g = gists(all);
    if all.len() > 0 {
        lemma_once(all.drop_last());
        assert(gists(all.drop_last()) =~= g.drop_last());
        let kept = first_of_each(all.drop_last());
        assert(names_in(gists(kept)) =~= keys_of(kept));
        lemma_gists_push(kept, all.last());
    } else {
        assert(gists(first_of_each(all)) =~= once(g));
    }
}

/// A manifest declares what its sections declare, each package once: from the
/// first section in the order of what ships, what is optional, what a host
/// provides and what is needed to develop.
pub proof fn a_manifest_declares_what_its_sections_do(
    src: Seq<char>,
    es: Seq<Entry>,
    path: Seq<char>,
)
    requires
        json_of(src) == Some(Tree::Object(es)),
    ensures
        gists(package_json_of(src, path)) == once(
            section_by(es, "dependencies"@, seq![], path) + section_by(
                es,
                "optionalDependencies"@,
                seq!["optional"@],
                path,
            ) + section_by(es, "peerDependencies"@, seq!["peer"@], path) + section_by(
                es,
                "devDependencies"@,
                seq!["dev"@],
                path,
            ),
        ),
{
    let bytes = encode_utf8(src);
    lemma_sections(bytes, path, es, 0);
    lemma_sections(bytes, path, es, 1);
    lemma_sections(bytes, path, es, 2);
    lemma_sections(bytes, path, es, 3);
    let none = gists(dependencies_of(bytes, path, declared_of(es, 0)));
    assert(none =~= seq![]);
    let first = section_by(es, "dependencies"@, seq![], path);
    assert(none + first =~= first);
    lemma_once(dependencies_of(bytes, path, declared_of(es, 4)));
}

/// A text that is no JSON, or no object, declares nothing.
pub proof fn what_is_no_object_declares_nothing(src: Seq<char>, path: Seq<char>)
    requires
        !(json_of(src) matches Some(Tree::Object(_))),
    ensures
        package_json_of(src, path).len() == 0,
        package_lock_of(src, path).len() == 0,
{
}

// ---- the flat lockfile ----

/// The groups that an entry is marked with.
pub open spec fn marked(es: Seq<Entry>) -> Seq<Seq<char>> {
    let both = property_of(es, "devOptional"@) == Some(Tree::Flag(true));
    let dev = both || property_of(es, "dev"@) == Some(Tree::Flag(true));
    let optional = both || property_of(es, "optional"@) == Some(Tree::Flag(true));
    if dev && optional {
        seq!["dev"@, "optional"@]
    } else if dev {
        seq!["dev"@]
    } else if optional {
        seq!["optional"@]
    } else {
        seq![]
    }
}

proof fn lemma_marked(es: Seq<Entry>)
    ensures
        groups_of(es) == marked(es),
{
    assert(groups_of(es) =~= marked(es));
}

/// Where the packages of a lockfile are installed.
pub open spec fn folder() -> Seq<char> {
    "node_modules/"@
}

/// Whether a text is what an install path ends in behind its last folder.
pub open spec fn ends_in(key: Seq<char>, name: Seq<char>) -> bool {
    let p = key.len() - name.len();
    &&& p >= 13
    &&& key.skip(p) == name
    &&& key.subrange(p - 13, p) == folder()
    &&& forall|j: int|
        p - 13 < j && j + 13 <= key.len() ==> #[trigger] key.subrange(j, j + 13) != folder()
}

proof fn lemma_last_folder(key: Seq<char>, name: Seq<char>)
    requires
        ends_in(key, name),
    ensures
        rfind_of(key, folder()) == Some((key.len() - name.len() - 13) as nat),
        is_dependency_path(key),
{
    reveal_strlit("node_modules/");
    let at = key.len() - name.len() - 13;
    lemma_rfind_at(key, key.len() - 13, at);
    lemma_found(key, folder(), 0, at as nat);
}

proof fn lemma_rfind_at(key: Seq<char>, to: int, at: int)
    requires
        0 <= at <= to,
        to + 13 <= key.len(),
        key.subrange(at, at + 13) == folder(),
        forall|j: int| at < j <= to ==> #[trigger] key.subrange(j, j + 13) != folder(),
    ensures
        rfind_to(key, folder(), to) == Some(at as nat),
    decreases to,
{
    reveal_strlit("node_modules/");
    if to > at {
        assert(key.subrange(to, to + 13) != folder());
        lemma_rfind_at(key, to - 1, at);
    }
}

/// What a lockfile with a flat list of packages lists.
pub open spec fn listed(packages: Seq<Entry>, bytes: Seq<u8>, path: Seq<char>) -> Seq<Gist> {
    gists(just_sightings(sightings_of(package_nodes(bytes, packages), path)))
}

proof fn lemma_sightings_add(a: Seq<NodeView>, b: Seq<NodeView>, path: Seq<char>)
    ensures
        gists(just_sightings(sightings_of(a + b, path))) == gists(
            just_sightings(sightings_of(a, path)),
        ) + gists(just_sightings(sightings_of(b, path))),
    decreases b.len(),
{
    let all = a + b;
    if b.len() == 0 {
        assert(all =~= a);
        assert(gists(just_sightings(sightings_of(a, path))) + gists(
            just_sightings(sightings_of(b, path)),
        ) =~= gists(just_sightings(sightings_of(a, path))));
    } else {
        let front = b.drop_last();
        lemma_sightings_add(a, front, path);
        assert(all.drop_last() =~= a + front);
        assert(all.last() == b.last());
        if let Some(x) = node_sighting(b.last(), path) {
            let p = sightings_of(a + front, path);
            let q = sightings_of(front, path);
            assert(just_sightings(sightings_of(all, path)) =~= just_sightings(p).push(x));
            assert(just_sightings(sightings_of(b, path)) =~= just_sightings(q).push(x));
            lemma_gists_push(just_sightings(p), x);
            lemma_gists_push(just_sightings(q), x);
            assert(gists(just_sightings(sightings_of(all, path))) =~= gists(
                just_sightings(sightings_of(a, path)),
            ) + gists(just_sightings(sightings_of(b, path))));
        }
    }
}

proof fn lemma_nodes_add(bytes: Seq<u8>, a: Seq<Entry>, b: Seq<Entry>)
    ensures
        package_nodes(bytes, a + b) == package_nodes(bytes, a) + package_nodes(bytes, b),
    decreases b.len(),
{
    if b.len() == 0 {
        assert(a + b =~= a);
        assert(package_nodes(bytes, a) + package_nodes(bytes, b) =~= package_nodes(bytes, a));
    } else {
        lemma_nodes_add(bytes, a, b.drop_last());
        assert((a + b).drop_last() =~= a + b.drop_last());
        assert((a + b).last() == b.last());
        assert(package_nodes(bytes, a + b) =~= package_nodes(bytes, a) + package_nodes(bytes, b));
    }
}

/// A lockfile lists what its entries list, one for one and in order: a package
/// that is installed in two places is listed for both.
pub proof fn installed_packages_add_up(
    a: Seq<Entry>,
    b: Seq<Entry>,
    bytes: Seq<u8>,
    path: Seq<char>,
)
    ensures
        listed(a + b, bytes, path) == listed(a, bytes, path) + listed(b, bytes, path),
{
    lemma_nodes_add(bytes, a, b);
    lemma_sightings_add(package_nodes(bytes, a), package_nodes(bytes, b), path);
}

proof fn lemma_one_node(bytes: Seq<u8>, e: Entry)
    ensures
        package_nodes(bytes, seq![e]) == (match package_node(bytes, e) {
            Some(n) => seq![n],
            None => seq![],
        }),
{
    let one = seq![e];
    assert(one.drop_last() =~= seq![]);
    assert(package_nodes(bytes, one.drop_last()) =~= seq![]);
    assert(package_nodes(bytes, one) =~= (match package_node(bytes, e) {
        Some(n) => seq![n],
        None => seq![],
    }));
}

proof fn lemma_one_sighting(n: NodeView, path: Seq<char>)
    ensures
        gists(just_sightings(sightings_of(seq![n], path))) == (match node_sighting(n, path) {
            Some(x) => seq![gist(x)],
            None => seq![],
        }),
        just_sightings(sightings_of(Seq::<NodeView>::empty(), path)).len() == 0,
{
    let one = seq![n];
    let none = Seq::<NodeView>::empty();
    assert(one.drop_last() =~= none);
    assert(one.last() == n);
    assert(sightings_of(none, path) =~= seq![]);
    assert(sightings_of(one.drop_last(), path) =~= seq![]);
    assert(gists(just_sightings(sightings_of(one, path))) =~= (match node_sighting(n, path) {
        Some(x) => seq![gist(x)],
        None => seq![],
    }));
}

/// An entry is listed at the version it records, under the name it was
/// published under, which is the end of its install path unless it says
/// otherwise, and with the groups it is marked with.
pub proof fn an_installed_package_is_listed(
    e: Entry,
    es: Seq<Entry>,
    name: Seq<char>,
    bytes: Seq<u8>,
    path: Seq<char>,
)
    requires
        e.value == Tree::Object(es),
        ends_in(e.name, name),
        name.len() > 0,
    ensures
        listed(seq![e], bytes, path) == (match string_of(es, "version"@) {
            Some(version) => seq![
                reported(
                    Ecosystem::Npm,
                    match string_of(es, "name"@) {
                        Some(published) => published,
                        None => name,
                    },
                    version,
                    path,
                    marked(es),
                    false,
                ),
            ],
            None => seq![],
        }),
{
    lemma_last_folder(e.name, name);
    lemma_marked(es);
    let p = e.name.len() - name.len();
    assert(e.name.skip(p) == name);
    lemma_one_node(bytes, e);
    let n = package_node(bytes, e)->Some_0;
    lemma_one_sighting(n, path);
}

/// The project's own packages are not listed, and neither is what is no entry.
pub proof fn the_project_itself_is_not_listed(e: Entry, bytes: Seq<u8>, path: Seq<char>)
    requires
        !(e.value is Object) || forall|j: int|
            0 <= j && j + 13 <= e.name.len() ==> #[trigger] e.name.subrange(j, j + 13) != folder(),
    ensures
        listed(seq![e], bytes, path).len() == 0,
{
    reveal_strlit("node_modules/");
    lemma_one_node(bytes, e);
    if e.value is Object {
        lemma_find_none(e.name, folder(), 0);
        if let Some(n) = package_node(bytes, e) {
            lemma_one_sighting(n, path);
        } else {
            lemma_one_sighting(project_node(bytes), path);
        }
    } else {
        lemma_one_sighting(project_node(bytes), path);
        assert(package_nodes(bytes, seq![e]) =~= Seq::<NodeView>::empty());
    }
}

/// A flat list of packages decides, whatever else the lockfile holds.
pub proof fn a_flat_list_decides(
    src: Seq<char>,
    es: Seq<Entry>,
    packages: Seq<Entry>,
    path: Seq<char>,
)
    requires
        json_of(src) == Some(Tree::Object(es)),
        object_of(es, "packages"@) == Some(packages),
    ensures
        gists(package_lock_of(src, path)) == listed(packages, encode_utf8(src), path),
{
}

// ---- the nested lockfile ----

/// What a nested lockfile lists.
pub open spec fn nested(
    es: Seq<Entry>,
    prefix: Seq<char>,
    bytes: Seq<u8>,
    path: Seq<char>,
) -> Seq<Gist> {
    gists(just_sightings(sightings_of(tree_nodes(bytes, es, prefix).nodes, path)))
}

proof fn lemma_tree_add(bytes: Seq<u8>, a: Seq<Entry>, b: Seq<Entry>, prefix: Seq<char>)
    ensures
        tree_nodes(bytes, a + b, prefix).nodes == tree_nodes(bytes, a, prefix).nodes + tree_nodes(
            bytes,
            b,
            prefix,
        ).nodes,
    decreases b.len(),
{
    let (x, y) = (tree_nodes(bytes, a, prefix).nodes, tree_nodes(bytes, b, prefix).nodes);
    if b.len() == 0 {
        assert(a + b =~= a);
        assert(x + y =~= x);
    } else {
        lemma_tree_add(bytes, a, b.drop_last(), prefix);
        assert((a + b).drop_last() =~= a + b.drop_last());
        assert((a + b).last() == b.last());
        assert(tree_nodes(bytes, a + b, prefix).nodes =~= x + y);
    }
}

/// A nested lockfile lists what its entries list, one for one and in order.
pub proof fn nested_packages_add_up(
    a: Seq<Entry>,
    b: Seq<Entry>,
    prefix: Seq<char>,
    bytes: Seq<u8>,
    path: Seq<char>,
)
    ensures
        nested(a + b, prefix, bytes, path) == nested(a, prefix, bytes, path) + nested(
            b,
            prefix,
            bytes,
            path,
        ),
{
    lemma_tree_add(bytes, a, b, prefix);
    lemma_sightings_add(
        tree_nodes(bytes, a, prefix).nodes,
        tree_nodes(bytes, b, prefix).nodes,
        path,
    );
}

/// The package and the version that an entry of a nested lockfile stands for: an
/// alias stands for what it was published as.
pub open spec fn stands_for(name: Seq<char>, version: Seq<char>) -> (Seq<char>, Seq<char>) {
    match alias_of(version) {
        Some(a) => a,
        None => (name, version),
    }
}

/// An entry of a nested lockfile is listed, and then what is nested under it,
/// however deep.
pub proof fn a_nested_package_is_listed(
    e: Entry,
    es: Seq<Entry>,
    prefix: Seq<char>,
    bytes: Seq<u8>,
    path: Seq<char>,
)
    requires
        e.value == Tree::Object(es),
        e.name.len() > 0,
    ensures
        nested(seq![e], prefix, bytes, path) == (match string_of(es, "version"@) {
            Some(version) => seq![
                reported(
                    Ecosystem::Npm,
                    stands_for(e.name, version).0,
                    stands_for(e.name, version).1,
                    path,
                    marked(es),
                    false,
                ),
            ],
            None => seq![],
        }) + (match object_of(es, "dependencies"@) {
            Some(inner) => nested(inner, nested_path(prefix, e.name), bytes, path),
            None => seq![],
        }),
{
    reveal_strlit("node_modules/");
    reveal_strlit("/");
    let one = seq![e];
    let none = Seq::<Entry>::empty();
    assert(one.drop_last() =~= none);
    assert(one.last() == e);
    assert(tree_nodes(bytes, none, prefix).nodes =~= seq![]);
    let n = tree_node(bytes, e, es, prefix);
    let under = match object_of(es, "dependencies"@) {
        Some(inner) => tree_nodes(bytes, inner, n.path).nodes,
        None => seq![],
    };
    let before = tree_nodes(bytes, one.drop_last(), prefix);
    assert(before.nodes =~= seq![]);
    assert(tree_nodes(bytes, one, prefix).nodes == before.nodes.push(n) + under);
    assert(tree_nodes(bytes, one, prefix).nodes =~= seq![n] + under);
    lemma_sightings_add(seq![n], under, path);
    lemma_one_sighting(n, path);
    lemma_marked(es);
    let key = n.path;
    let at = (key.len() - e.name.len() - 13) as nat;
    assert(key.subrange(at as int, (at + 13) as int) =~= folder());
    lemma_found(key, folder(), 0, at);
}

/// An alias is split at its last `@`: what stands before it was published, at
/// the version behind it.
pub proof fn an_alias_stands_for_what_was_published(name: Seq<char>, version: Seq<char>)
    requires
        name.len() > 0,
        version.len() > 0,
        lacks(version, '@'),
    ensures
        alias_of("npm:"@ + name + "@"@ + version) == Some((name, version)),
{
    reveal_strlit("npm:");
    reveal_strlit("@");
    let s = "npm:"@ + name + "@"@ + version;
    assert(s.take(4) =~= "npm:"@);
    assert("npm:"@.is_prefix_of(s));
    let rest = s.skip(4);
    assert(rest =~= name + "@"@ + version);
    lemma_rfind_one(rest, rest.len() - 1, name.len() as int);
    assert(rest.take(name.len() as int) =~= name);
    assert(rest.skip(name.len() as int + 1) =~= version);
}

proof fn lemma_rfind_one(s: Seq<char>, to: int, at: int)
    requires
        0 <= at <= to < s.len(),
        s[at] == '@',
        forall|j: int| at < j <= to ==> #[trigger] s[j] != '@',
    ensures
        rfind_to(s, "@"@, to) == Some(at as nat),
    decreases to,
{
    reveal_strlit("@");
    let part = s.subrange(to, to + "@"@.len());
    if to > at {
        assert(part[0] == s[to]);
        lemma_rfind_one(s, to - 1, at);
    } else {
        assert(part =~= "@"@);
    }
}

// ---- what depends on what ----

/// Whether an entry's section names a package.
pub open spec fn names(es: Seq<Entry>, title: Seq<char>, name: Seq<char>) -> bool {
    object_of(es, title) matches Some(map) && exists|i: int|
        0 <= i < map.len() && (#[trigger] map[i]).name == name
}

proof fn lemma_with_section(deps: Seq<DepView>, map: Seq<Entry>, kind: DepKind, name: Seq<char>)
    requires
        name.len() > 0,
    ensures
        dep_names(with_section(deps, map, kind)).contains(name) <==> dep_names(deps).contains(name)
            || exists|i: int| 0 <= i < map.len() && (#[trigger] map[i]).name == name,
        forall|k: DepKind|
            #[trigger] with_section(deps, map, kind).contains(DepView { name, kind: k })
                <==> deps.contains(DepView { name, kind: k }) || (k == kind && !dep_names(
                deps,
            ).contains(name) && exists|i: int|
                0 <= i < map.len() && (#[trigger] map[i]).name == name),
    decreases map.len(),
{
    let out = with_section(deps, map, kind);
    if map.len() > 0 {
        let front = map.drop_last();
        lemma_with_section(deps, front, kind, name);
        let before = with_section(deps, front, kind);
        let last = map.last();
        let there = exists|i: int| 0 <= i < map.len() && (#[trigger] map[i]).name == name;
        let earlier = exists|i: int| 0 <= i < front.len() && (#[trigger] front[i]).name == name;
        if earlier {
            let i = choose|i: int| 0 <= i < front.len() && (#[trigger] front[i]).name == name;
            assert(map[i].name == name);
        }
        if there {
            let i = choose|i: int| 0 <= i < map.len() && (#[trigger] map[i]).name == name;
            if i < front.len() {
                assert(front[i].name == name);
            }
        }
        if last.name == name {
            assert(map[map.len() - 1].name == name);
        }
        assert(there == (earlier || last.name == name));
        if out != before {
            let d = DepView { name: last.name, kind };
            assert(out == before.push(d));
            assert(dep_names(out) =~= dep_names(before).push(last.name));
            lemma_pushed(before, d, name);
        } else {
            if last.name == name {
                assert(dep_names(before).contains(name));
            }
        }
    } else {
        assert(!(exists|i: int| 0 <= i < map.len() && (#[trigger] map[i]).name == name));
    }
}

proof fn lemma_pushed(before: Seq<DepView>, d: DepView, name: Seq<char>)
    ensures
        dep_names(before.push(d)).contains(name) <==> dep_names(before).contains(name) || d.name
            == name,
        forall|k: DepKind|
            #[trigger] before.push(d).contains(DepView { name, kind: k }) <==> before.contains(
                DepView { name, kind: k },
            ) || d == (DepView { name, kind: k }),
{
    let out = before.push(d);
    let (p, q) = (dep_names(before), dep_names(out));
    assert(q =~= p.push(d.name));
    if p.contains(name) {
        let i = choose|i: int| 0 <= i < p.len() && p[i] == name;
        assert(q[i] == name);
    }
    if d.name == name {
        assert(q[p.len() as int] == name);
    }
    assert forall|k: DepKind|
        #[trigger] out.contains(DepView { name, kind: k }) <==> before.contains(
            DepView { name, kind: k },
        ) || d == (DepView { name, kind: k }) by {
        let x = DepView { name, kind: k };
        if before.contains(x) {
            let i = choose|i: int| 0 <= i < before.len() && before[i] == x;
            assert(out[i] == x);
        }
        if d == x {
            assert(out[before.len() as int] == x);
        }
    }
}

/// What an entry asks for are the names of its sections, each by the first
/// section that names it: what it needs to run, then what it needs to be
/// developed, then what it expects its host to bring.
pub proof fn an_entry_asks_for_what_its_sections_name(es: Seq<Entry>, name: Seq<char>)
    requires
        name.len() > 0,
    ensures
        ({
            let run = names(es, "dependencies"@, name) || names(es, "optionalDependencies"@, name);
            let dev = names(es, "devDependencies"@, name);
            let peer = names(es, "peerDependencies"@, name);
            let deps = edges_of(es, 4);
            &&& deps.contains(DepView { name, kind: DepKind::Runtime }) <==> run
            &&& deps.contains(DepView { name, kind: DepKind::Dev }) <==> dev && !run
            &&& deps.contains(DepView { name, kind: DepKind::Peer }) <==> peer && !dev && !run
        }),
{
    assert(edges_of(es, 0) =~= seq![]);
    assert(dep_names(edges_of(es, 0)) =~= seq![]);
    lemma_edges(es, 1, name);
    lemma_edges(es, 2, name);
    lemma_edges(es, 3, name);
    lemma_edges(es, 4, name);
    let (run, dev, peer) = (
        DepView { name, kind: DepKind::Runtime },
        DepView { name, kind: DepKind::Dev },
        DepView { name, kind: DepKind::Peer },
    );
    assert(!edges_of(es, 0).contains(run) && !edges_of(es, 0).contains(dev) && !edges_of(
        es,
        0,
    ).contains(peer));
    assert(edges_of(es, 1).contains(run) == names(es, "dependencies"@, name));
    assert(edges_of(es, 2).contains(run) == (names(es, "dependencies"@, name) || names(
        es,
        "optionalDependencies"@,
        name,
    )));
    assert(edges_of(es, 4).contains(run) == edges_of(es, 2).contains(run));
    assert(edges_of(es, 4).contains(dev) == edges_of(es, 3).contains(dev));
}

proof fn lemma_edges(es: Seq<Entry>, n: nat, name: Seq<char>)
    requires
        1 <= n <= 4,
        name.len() > 0,
    ensures
        ({
            let (title, kind) = lock_section(n - 1);
            let before = edges_of(es, (n - 1) as nat);
            let there = names(es, title, name);
            &&& dep_names(edges_of(es, n)).contains(name) <==> dep_names(before).contains(name)
                || there
            &&& forall|k: DepKind|
                #[trigger] edges_of(es, n).contains(DepView { name, kind: k })
                    <==> before.contains(DepView { name, kind: k }) || (k == kind && !dep_names(
                    before,
                ).contains(name) && there)
        }),
{
    let (title, kind) = lock_section(n - 1);
    let before = edges_of(es, (n - 1) as nat);
    if let Some(map) = object_of(es, title) {
        lemma_with_section(before, map, kind, name);
    }
}

/// A name resolves to what is installed nearest: in the folder of the one that
/// asks, else as it would for the directory above.
pub proof fn a_name_resolves_to_the_nearest(
    nodes: Seq<NodeView>,
    dir: Seq<char>,
    last: Seq<char>,
    name: Seq<char>,
    k: int,
)
    requires
        lacks(last, '/'),
        0 <= k <= nodes.len(),
        forall|i: int|
            0 <= i < k ==> (#[trigger] nodes[i]).path != dir + "/"@ + last + "/node_modules/"@
                + name,
        k < nodes.len() ==> nodes[k].path == dir + "/"@ + last + "/node_modules/"@ + name
            && nodes[k].link is None,
    ensures
        resolve_of(nodes, dir + "/"@ + last, name) == (if k < nodes.len() {
            Some(k as nat)
        } else {
            resolve_of(nodes, dir, name)
        }),
{
    reveal_strlit("/");
    reveal_strlit("/node_modules/");
    reveal_strlit("node_modules/");
    let from = dir + "/"@ + last;
    let want = from + "/node_modules/"@ + name;
    assert(candidate(from, name) =~= want);
    lemma_first_index(paths_of(nodes), want, k);
    lemma_rfind_slash(from, from.len() - 1, dir.len() as int);
    assert(from.take(dir.len() as int) =~= dir);
}

/// A link stands for the entry it leads to, and for none where there is none.
pub proof fn a_link_stands_for_what_it_leads_to(
    nodes: Seq<NodeView>,
    from: Seq<char>,
    name: Seq<char>,
    k: int,
    target: Seq<char>,
    t: int,
)
    requires
        from.len() > 0,
        0 <= k < nodes.len(),
        nodes[k].path == from + "/node_modules/"@ + name,
        forall|i: int|
            0 <= i < k ==> (#[trigger] nodes[i]).path != from + "/node_modules/"@ + name,
        nodes[k].link == Some(target),
        0 <= t <= nodes.len(),
        forall|i: int| 0 <= i < t ==> (#[trigger] nodes[i]).path != target,
        t < nodes.len() ==> nodes[t].path == target && nodes[t].link is None,
    ensures
        resolve_of(nodes, from, name) == (if t < nodes.len() {
            Some(t as nat)
        } else {
            None
        }),
{
    reveal_strlit("/");
    reveal_strlit("/node_modules/");
    reveal_strlit("node_modules/");
    let want = from + "/node_modules/"@ + name;
    assert(candidate(from, name) =~= want);
    lemma_first_index(paths_of(nodes), want, k);
    lemma_first_index(paths_of(nodes), target, t);
    let hops = MAX_LINK_HOPS as nat;
    if t < nodes.len() {
        assert(follow_of(nodes, t as nat, (hops - 1) as nat) == Some(t as nat));
    }
    assert(follow_of(nodes, k as nat, hops) == (if t < nodes.len() {
        follow_of(nodes, t as nat, (hops - 1) as nat)
    } else {
        None
    }));
}

proof fn lemma_first_index(all: Seq<Seq<char>>, want: Seq<char>, k: int)
    requires
        0 <= k <= all.len(),
        forall|i: int| 0 <= i < k ==> #[trigger] all[i] != want,
        k < all.len() ==> all[k] == want,
    ensures
        first_index(all, want) == (if k < all.len() {
            Some(k as nat)
        } else {
            None
        }),
    decreases all.len(),
{
    if all.len() > 0 {
        let front = all.drop_last();
        if k < all.len() - 1 {
            assert(front[k] == all[k]);
            lemma_first_index(front, want, k);
        } else {
            lemma_first_index(front, want, front.len() as int);
        }
    }
}

proof fn lemma_rfind_slash(s: Seq<char>, to: int, at: int)
    requires
        0 <= at <= to < s.len(),
        s[at] == '/',
        forall|j: int| at < j <= to ==> #[trigger] s[j] != '/',
    ensures
        rfind_to(s, "/"@, to) == Some(at as nat),
    decreases to,
{
    reveal_strlit("/");
    let part = s.subrange(to, to + "/"@.len());
    if to > at {
        assert(part[0] == s[to]);
        lemma_rfind_slash(s, to - 1, at);
    } else {
        assert(part =~= "/"@);
    }
}

// ---- where packages are found ----

/// Whether a sighting is where an entry writes its name, inside the quotes, and
/// its version where the entry's constraint writes it, if it is written there as
/// it is.
pub open spec fn found_by(bytes: Seq<u8>, x: ExtractedView, e: Entry) -> bool {
    &&& e.name == x.package.key.name
    &&& e.value is Text
    &&& e.quoted && 0 <= e.start < usize::MAX && 0 < e.end ==> x.evidence.range == range_of(
        bytes,
        e.start + 1,
        e.end - 1,
    )
    &&& lowest_of(e.value->Text_0) is Some
    &&& ({
        let l = lowest_of(e.value->Text_0)->Some_0;
        let at = e.value->Text_1 + 1 + l.start;
        let to = e.value->Text_1 + 1 + l.end;
        0 <= e.value->Text_1 && at <= to <= bytes.len() <= usize::MAX && bytes.subrange(at, to)
            == encode_utf8(l.version) ==> x.version_span == Some(range_of(bytes, at, to))
    })
}

/// Whether some entry of an object accounts for a sighting.
pub open spec fn found_among(bytes: Seq<u8>, x: ExtractedView, es: Seq<Entry>) -> bool {
    exists|k: int| 0 <= k < es.len() && found_by(bytes, x, #[trigger] es[k])
}

/// Whether some section of a manifest accounts for a sighting.
pub open spec fn found_in_sections(bytes: Seq<u8>, x: ExtractedView, es: Seq<Entry>) -> bool {
    exists|i: int|
        0 <= i < 4 && (object_of(es, #[trigger] section_name(i)) matches Some(inner) && found_among(
            bytes,
            x,
            inner,
        ))
}

proof fn lemma_found_among(bytes: Seq<u8>, path: Seq<char>, es: Seq<Entry>, i: int)
    ensures
        ({
            let all = dependencies_of(bytes, path, section_deps(es, i));
            forall|k: int| 0 <= k < all.len() ==> found_among(bytes, #[trigger] all[k], es)
        }),
    decreases es.len(),
{
    if es.len() > 0 {
        let front = es.drop_last();
        lemma_found_among(bytes, path, front, i);
        let ds = section_deps(es, i);
        let all = dependencies_of(bytes, path, ds);
        let before = dependencies_of(bytes, path, section_deps(front, i));
        let e = es[es.len() - 1];
        if e.value is Text {
            assert(ds.drop_last() =~= section_deps(front, i));
        }
        assert forall|k: int| 0 <= k < all.len() implies found_among(
            bytes,
            #[trigger] all[k],
            es,
        ) by {
            if k < before.len() {
                assert(all[k] == before[k]);
                let j = choose|j: int|
                    0 <= j < front.len() && found_by(bytes, before[k], #[trigger] front[j]);
                assert(es[j] == front[j]);
            } else {
                assert(found_by(bytes, all[k], e));
            }
        }
    }
}

proof fn lemma_found_in_sections(bytes: Seq<u8>, path: Seq<char>, es: Seq<Entry>, n: nat)
    requires
        n <= 4,
    ensures
        ({
            let all = dependencies_of(bytes, path, declared_of(es, n));
            forall|k: int| 0 <= k < all.len() ==> found_in_sections(bytes, #[trigger] all[k], es)
        }),
    decreases n,
{
    if n > 0 {
        let m = (n - 1) as nat;
        lemma_found_in_sections(bytes, path, es, m);
        let before = declared_of(es, m);
        if let Some(inner) = object_of(es, section_name(m as int)) {
            let more = section_deps(inner, m as int);
            lemma_dependencies_add(bytes, path, before, more);
            lemma_found_among(bytes, path, inner, m as int);
            let a = dependencies_of(bytes, path, before);
            let b = dependencies_of(bytes, path, more);
            let all = dependencies_of(bytes, path, declared_of(es, n));
            assert forall|k: int| 0 <= k < all.len() implies found_in_sections(
                bytes,
                #[trigger] all[k],
                es,
            ) by {
                if k < a.len() {
                    assert(all[k] == a[k]);
                } else {
                    assert(all[k] == b[k - a.len()]);
                    assert(found_among(bytes, all[k], inner));
                }
            }
        }
    }
}

/// A declared package is found where its name is written, and its version
/// wherever that is written as it is.
pub proof fn a_declared_package_is_found_at_its_name(
    src: Seq<char>,
    es: Seq<Entry>,
    path: Seq<char>,
    i: int,
)
    requires
        json_of(src) == Some(Tree::Object(es)),
        0 <= i < package_json_of(src, path).len(),
    ensures
        found_in_sections(encode_utf8(src), package_json_of(src, path)[i], es),
{
    let bytes = encode_utf8(src);
    lemma_found_in_sections(bytes, path, es, 4);
    let all = dependencies_of(bytes, path, declared_of(es, 4));
    let found = package_json_of(src, path);
    crate::manifest::first_of_each_lists_each_once(all);
    assert(all.contains(found[i]));
    let k = choose|k: int| 0 <= k < all.len() && all[k] == found[i];
    assert(found_in_sections(bytes, all[k], es));
}

/// An installed package is found at the end of its install path, inside the
/// quotes; one of a nested lockfile at its name.
pub proof fn an_installed_package_is_found_at_its_name(
    e: Entry,
    es: Seq<Entry>,
    name: Seq<char>,
    prefix: Seq<char>,
    bytes: Seq<u8>,
)
    requires
        e.value == Tree::Object(es),
        ends_in(e.name, name),
        name.len() > 0,
        e.quoted,
        0 <= e.start,
        e.start + 1 + utf8_len(e.name) <= usize::MAX,
        0 < e.end,
    ensures
        package_node(bytes, e) is Some,
        package_node(bytes, e)->Some_0.span == range_of(
            bytes,
            e.start + 1 + utf8_len(e.name) - utf8_len(name),
            e.end - 1,
        ),
        tree_node(bytes, e, es, prefix).span == range_of(bytes, e.start + 1, e.end - 1),
{
    lemma_last_folder(e.name, name);
    let p = e.name.len() - name.len();
    assert(e.name =~= e.name.take(p) + name);
    lemma_utf8_add(e.name.take(p), name);
}

// ---- declarations ----

/// Whether a name is one that an entry gives to a text.
pub open spec fn gives(es: Seq<Entry>, name: Seq<char>) -> bool {
    exists|k: int| 0 <= k < es.len() && (#[trigger] es[k]).name == name && es[k].value is Text
}

/// Whether some section gives a name to a text.
pub open spec fn section_gives(es: Seq<Entry>, i: int, name: Seq<char>) -> bool {
    object_of(es, section_name(i)) matches Some(inner) && gives(inner, name)
}

pub open spec fn named_in(ds: Seq<DeclaredView>, name: Seq<char>) -> bool {
    exists|k: int| 0 <= k < ds.len() && (#[trigger] ds[k]).name == name
}

proof fn lemma_named_add(a: Seq<DeclaredView>, b: Seq<DeclaredView>, name: Seq<char>)
    ensures
        named_in(a + b, name) <==> named_in(a, name) || named_in(b, name),
{
    let all = a + b;
    if named_in(all, name) {
        let k = choose|k: int| 0 <= k < all.len() && (#[trigger] all[k]).name == name;
        if k < a.len() {
            assert(a[k].name == name);
        } else {
            assert(b[k - a.len()].name == name);
        }
    }
    if named_in(a, name) {
        let k = choose|k: int| 0 <= k < a.len() && (#[trigger] a[k]).name == name;
        assert(all[k].name == name);
    }
    if named_in(b, name) {
        let k = choose|k: int| 0 <= k < b.len() && (#[trigger] b[k]).name == name;
        assert(all[a.len() + k].name == name);
    }
}

proof fn lemma_section_gives(es: Seq<Entry>, i: int, name: Seq<char>)
    ensures
        named_in(section_deps(es, i), name) <==> gives(es, name),
    decreases es.len(),
{
    let ds = section_deps(es, i);
    if es.len() > 0 {
        let front = es.drop_last();
        let e = es[es.len() - 1];
        lemma_section_gives(front, i, name);
        let before = section_deps(front, i);
        if gives(front, name) {
            let k = choose|k: int|
                0 <= k < front.len() && (#[trigger] front[k]).name == name && front[k].value is Text;
            assert(es[k] == front[k]);
        }
        if gives(es, name) {
            let k = choose|k: int|
                0 <= k < es.len() && (#[trigger] es[k]).name == name && es[k].value is Text;
            if k < front.len() {
                assert(front[k] == es[k]);
            }
        }
        if e.value is Text {
            assert(ds.drop_last() =~= before);
            assert(ds[before.len() as int].name == e.name);
            if named_in(before, name) {
                let k = choose|k: int| 0 <= k < before.len() && (#[trigger] before[k]).name == name;
                assert(ds[k] == before[k]);
            }
            if named_in(ds, name) {
                let k = choose|k: int| 0 <= k < ds.len() && (#[trigger] ds[k]).name == name;
                if k < before.len() {
                    assert(before[k] == ds[k]);
                } else {
                    assert(es[es.len() - 1].name == name);
                }
            }
        } else {
            assert(ds == before);
        }
    }
}

proof fn lemma_all_given(es: Seq<Entry>, n: nat, name: Seq<char>)
    requires
        n <= 4,
    ensures
        named_in(declared_of(es, n), name) <==> exists|i: int|
            0 <= i < n && #[trigger] section_gives(es, i, name),
    decreases n,
{
    if n > 0 {
        let m = (n - 1) as nat;
        lemma_all_given(es, m, name);
        if let Some(inner) = object_of(es, section_name(m as int)) {
            lemma_named_add(declared_of(es, m), section_deps(inner, m as int), name);
            lemma_section_gives(inner, m as int, name);
        }
        if named_in(declared_of(es, n), name) && !named_in(declared_of(es, m), name) {
            assert(section_gives(es, m as int, name));
        }
    }
}

proof fn lemma_named_once(bytes: Seq<u8>, path: Seq<char>, ds: Seq<DeclaredView>, name: Seq<char>)
    ensures
        names_of(named_once(bytes, path, ds)).contains(name) <==> name.len() > 0 && named_in(
            ds,
            name,
        ),
    decreases ds.len(),
{
    let out = named_once(bytes, path, ds);
    if ds.len() > 0 {
        let front = ds.drop_last();
        let d = ds[ds.len() - 1];
        lemma_named_once(bytes, path, front, name);
        let before = named_once(bytes, path, front);
        if named_in(front, name) {
            let k = choose|k: int| 0 <= k < front.len() && (#[trigger] front[k]).name == name;
            assert(ds[k] == front[k]);
        }
        if named_in(ds, name) {
            let k = choose|k: int| 0 <= k < ds.len() && (#[trigger] ds[k]).name == name;
            if k < front.len() {
                assert(front[k] == ds[k]);
            }
        }
        if d.name.len() > 0 && !names_of(before).contains(d.name) {
            assert(names_of(out) =~= names_of(before).push(d.name));
            let (x, y) = (names_of(before), names_of(out));
            assert(y[x.len() as int] == d.name);
            if x.contains(name) {
                let k = choose|k: int| 0 <= k < x.len() && x[k] == name;
                assert(y[k] == name);
            }
            if y.contains(name) {
                let k = choose|k: int| 0 <= k < y.len() && y[k] == name;
                if k < x.len() {
                    assert(x[k] == name);
                    assert(x.contains(name));
                } else {
                    assert(ds[ds.len() - 1].name == name);
                }
            }
        }
    }
}

/// A manifest declares every name that one of its sections gives, and no other.
pub proof fn every_name_in_a_section_is_declared(
    src: Seq<char>,
    es: Seq<Entry>,
    path: Seq<char>,
    name: Seq<char>,
)
    requires
        json_of(src) == Some(Tree::Object(es)),
        name.len() > 0,
    ensures
        names_of(declarations_of(src, path)).contains(name) <==> exists|i: int|
            0 <= i < 4 && #[trigger] section_gives(es, i, name),
        section_name(0) == "dependencies"@ && section_name(1) == "optionalDependencies"@
            && section_name(2) == "peerDependencies"@ && section_name(3) == "devDependencies"@,
{
    lemma_named_once(encode_utf8(src), path, declared_of(es, 4), name);
    lemma_all_given(es, 4, name);
}

/// Whether a declaration is what an entry of a section says: its name, the
/// groups of the section, and the place inside the quotes.
pub open spec fn declared_as(
    bytes: Seq<u8>,
    path: Seq<char>,
    d: DeclarationView,
    e: Entry,
    i: int,
) -> bool {
    &&& e.name == d.name
    &&& e.value is Text
    &&& d.groups == (if i == 0 {
        seq![]
    } else if i == 1 {
        seq!["optional"@]
    } else if i == 2 {
        seq!["peer"@]
    } else {
        seq!["dev"@]
    })
    &&& d.site.path == path
    &&& e.quoted && 0 <= e.start < usize::MAX && 0 < e.end ==> d.site.range == range_of(
        bytes,
        e.start + 1,
        e.end - 1,
    )
}

/// Whether a declaration is what some entry of a section says.
pub open spec fn declared_among(
    bytes: Seq<u8>,
    path: Seq<char>,
    d: DeclarationView,
    es: Seq<Entry>,
    i: int,
) -> bool {
    exists|k: int| 0 <= k < es.len() && declared_as(bytes, path, d, #[trigger] es[k], i)
}

/// Whether a declaration is what some section says.
pub open spec fn declared_in_sections(
    bytes: Seq<u8>,
    path: Seq<char>,
    d: DeclarationView,
    es: Seq<Entry>,
) -> bool {
    exists|i: int|
        0 <= i < 4 && (object_of(es, #[trigger] section_name(i)) matches Some(inner)
            && declared_among(bytes, path, d, inner, i))
}

pub open spec fn as_declaration(bytes: Seq<u8>, path: Seq<char>, d: DeclaredView) -> DeclarationView {
    DeclarationView {
        name: d.name,
        site: SiteView { path, range: range_of(bytes, d.start, d.end) },
        groups: section_groups(d.section),
    }
}

proof fn lemma_declared_among(bytes: Seq<u8>, path: Seq<char>, es: Seq<Entry>, i: int)
    requires
        0 <= i < 4,
    ensures
        forall|k: int|
            0 <= k < section_deps(es, i).len() ==> declared_among(
                bytes,
                path,
                as_declaration(bytes, path, #[trigger] section_deps(es, i)[k]),
                es,
                i,
            ),
    decreases es.len(),
{
    if es.len() > 0 {
        let front = es.drop_last();
        let e = es[es.len() - 1];
        lemma_declared_among(bytes, path, front, i);
        let before = section_deps(front, i);
        let ds = section_deps(es, i);
        assert forall|k: int| 0 <= k < ds.len() implies declared_among(
            bytes,
            path,
            as_declaration(bytes, path, #[trigger] ds[k]),
            es,
            i,
        ) by {
            if k < before.len() {
                assert(ds[k] == before[k]);
                let d = as_declaration(bytes, path, before[k]);
                let j = choose|j: int|
                    0 <= j < front.len() && declared_as(bytes, path, d, #[trigger] front[j], i);
                assert(es[j] == front[j]);
            } else {
                assert(section_groups(i) =~= as_declaration(bytes, path, ds[k]).groups);
                assert(declared_as(bytes, path, as_declaration(bytes, path, ds[k]), e, i));
            }
        }
    }
}

proof fn lemma_declared_in_sections(bytes: Seq<u8>, path: Seq<char>, es: Seq<Entry>, n: nat)
    requires
        n <= 4,
    ensures
        forall|k: int|
            0 <= k < declared_of(es, n).len() ==> declared_in_sections(
                bytes,
                path,
                as_declaration(bytes, path, #[trigger] declared_of(es, n)[k]),
                es,
            ),
    decreases n,
{
    if n > 0 {
        let m = (n - 1) as nat;
        lemma_declared_in_sections(bytes, path, es, m);
        let before = declared_of(es, m);
        let all = declared_of(es, n);
        if let Some(inner) = object_of(es, section_name(m as int)) {
            lemma_declared_among(bytes, path, inner, m as int);
            let more = section_deps(inner, m as int);
            assert forall|k: int| 0 <= k < all.len() implies declared_in_sections(
                bytes,
                path,
                as_declaration(bytes, path, #[trigger] all[k]),
                es,
            ) by {
                if k < before.len() {
                    assert(all[k] == before[k]);
                } else {
                    assert(all[k] == more[k - before.len()]);
                    assert(declared_among(
                        bytes,
                        path,
                        as_declaration(bytes, path, all[k]),
                        inner,
                        m as int,
                    ));
                }
            }
        }
    }
}

proof fn lemma_from_declared(bytes: Seq<u8>, path: Seq<char>, ds: Seq<DeclaredView>, k: int) -> (j:
    int)
    requires
        0 <= k < named_once(bytes, path, ds).len(),
    ensures
        0 <= j < ds.len(),
        named_once(bytes, path, ds)[k] == as_declaration(bytes, path, ds[j]),
    decreases ds.len(),
{
    let front = ds.drop_last();
    let before = named_once(bytes, path, front);
    if k < before.len() {
        let j = lemma_from_declared(bytes, path, front, k);
        assert(front[j] == ds[j]);
        j
    } else {
        ds.len() - 1
    }
}

/// A declaration stands where its name is written in one of the sections, in the
/// groups of that section.
pub proof fn a_declaration_stands_where_it_is_written(
    src: Seq<char>,
    es: Seq<Entry>,
    path: Seq<char>,
    k: int,
)
    requires
        json_of(src) == Some(Tree::Object(es)),
        0 <= k < declarations_of(src, path).len(),
    ensures
        declared_in_sections(encode_utf8(src), path, declarations_of(src, path)[k], es),
{
    let bytes = encode_utf8(src);
    lemma_declared_in_sections(bytes, path, es, 4);
    let j = lemma_from_declared(bytes, path, declared_of(es, 4), k);
    assert(declared_in_sections(
        bytes,
        path,
        as_declaration(bytes, path, declared_of(es, 4)[j]),
        es,
    ));
}

} // verus!
