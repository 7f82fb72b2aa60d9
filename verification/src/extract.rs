//! Finding what a project depends on, and where it says so.
//!
//! Each parser keeps the spans of what it finds, so discovery and anchoring are
//! one pass over one file: no second read to narrow a whole-line anchor down to
//! the dependency's name.
use crate::graph::{
    attribute, attribute_of, direct_nodes, is_direct_node, roots_of, Attribution, AttributionView,
    Manifest, ManifestView, Workspace, WorkspaceView,
};
use crate::manifest::cargo::{
    cargo_lock, cargo_lock_of, cargo_self, cargo_toml, cargo_toml_of, own_name,
};
use crate::manifest::go::{go_mod, go_mod_of};
use crate::manifest::npm::{
    declarations, declarations_of, lock, lock_of, package_json, package_json_of, package_lock,
    package_lock_of, sightings_of, Lock, LockView,
};
use crate::manifest::python::{requirement_includes, requirements, requirements_of, targets_of};
use crate::model::{
    anchor_of, copy_paths, ecosystem_rank, Ecosystem, ExtractedPackage, ExtractedView, Finding,
    FindingView, KeyView, PackageKey, Range, Site, SiteView,
};
use crate::order::{chain, coherent, compare_text, flip, int_order, text_order, usize_order, Order};
use crate::path::{
    compare_paths, dir_of, directory, file_name, is_same_path, lemma_parent_shorter, name_of,
    normal_of, parent, parent_of, path_order, reached, reached_of, same_path, spelled, spelled_of,
};
use crate::text::{begins, chars, contains, copy_strings, equal, lines_of, part, same};
use vstd::prelude::*;

verus! {

// ---- which files ----

/// A format some parser reads.
#[derive(Clone, Copy, PartialEq, Eq, Debug, Structural)]
pub enum Format {
    PackageJson,
    PackageLock,
    GoMod,
    CargoToml,
    CargoLock,
    Requirements,
}

/// Whether a file name is one of a requirements file.
pub open spec fn is_requirements_name(name: Seq<char>) -> bool {
    "requirements"@.is_prefix_of(name) && name.len() >= 4 && name.skip(name.len() - 4) == ".txt"@
}

/// The format a file name stands for.
pub open spec fn format_of(name: Seq<char>) -> Option<Format> {
    if name == "package.json"@ {
        Some(Format::PackageJson)
    } else if name == "package-lock.json"@ || name == "npm-shrinkwrap.json"@ {
        Some(Format::PackageLock)
    } else if name == "go.mod"@ {
        Some(Format::GoMod)
    } else if name == "Cargo.toml"@ {
        Some(Format::CargoToml)
    } else if name == "Cargo.lock"@ {
        Some(Format::CargoLock)
    } else if is_requirements_name(name) {
        Some(Format::Requirements)
    } else {
        None
    }
}

/// What a file of a format says.
pub open spec fn parsed_of(format: Format, src: Seq<char>, path: Seq<char>) -> Seq<ExtractedView> {
    match format {
        Format::PackageJson => package_json_of(src, path),
        Format::PackageLock => package_lock_of(src, path),
        Format::GoMod => go_mod_of(src, path),
        Format::CargoToml => cargo_toml_of(src, path),
        Format::CargoLock => cargo_lock_of(src, path),
        Format::Requirements => requirements_of(src, path),
    }
}

impl Format {
    /// Reads a file of this format.
    pub fn parse(self, src: &str, path: &str) -> (r: Vec<ExtractedPackage>)
        ensures
            r.deep_view() == parsed_of(self, src@, path@),
    {
        match self {
            Format::PackageJson => package_json(src, path),
            Format::PackageLock => package_lock(src, path),
            Format::GoMod => go_mod(src, path),
            Format::CargoToml => cargo_toml(src, path),
            Format::CargoLock => cargo_lock(src, path),
            Format::Requirements => requirements(src, path),
        }
    }
}

fn named_requirements(name: &str) -> (r: bool)
    ensures
        r == is_requirements_name(name@),
{
    let all = chars(name);
    let tail = chars(".txt");
    if !begins(name, "requirements") || all.len() < 4 {
        return false;
    }
    proof {
        assert(all@.subrange(all@.len() - 4, all@.len() as int) =~= all@.skip(all@.len() - 4));
    }
    equal(part(all.as_slice(), all.len() - 4, all.len()), tail.as_slice())
}

/// The format a file name stands for.
pub fn parser_for_name(name: &str) -> (r: Option<Format>)
    ensures
        r == format_of(name@),
{
    if same(name, "package.json") {
        Some(Format::PackageJson)
    } else if same(name, "package-lock.json") || same(name, "npm-shrinkwrap.json") {
        Some(Format::PackageLock)
    } else if same(name, "go.mod") {
        Some(Format::GoMod)
    } else if same(name, "Cargo.toml") {
        Some(Format::CargoToml)
    } else if same(name, "Cargo.lock") {
        Some(Format::CargoLock)
    } else if named_requirements(name) {
        Some(Format::Requirements)
    } else {
        None
    }
}

/// The format of the file at a path.
pub fn parser_for(path: &str) -> (r: Option<Format>)
    ensures
        r == format_of(name_of(path@)),
{
    let name = file_name(path);
    parser_for_name(name.as_str())
}

/// Whether a filename is one some parser reads.
///
/// Exported so that nothing has to keep a second copy of the list.
pub fn is_manifest_name(name: &str) -> (r: bool)
    ensures
        r == (format_of(name@) is Some),
{
    parser_for_name(name).is_some()
}

/// Directories never worth walking into.
///
/// In code rather than in user-visible defaults: a manifest under
/// `node_modules` describes someone else's package, which is a correctness
/// property and not a preference.
pub open spec fn skipped_names() -> Seq<Seq<char>> {
    seq![
        "node_modules"@,
        ".git"@,
        ".venv"@,
        "venv"@,
        "vendor"@,
        "target"@,
        "dist"@,
    ]
}

/// Directories never worth walking into, by name.
pub fn skip_dirs() -> (r: Vec<String>)
    ensures
        r.deep_view() == skipped_names(),
{
    let r = vec![
        "node_modules".to_owned(),
        ".git".to_owned(),
        ".venv".to_owned(),
        "venv".to_owned(),
        "vendor".to_owned(),
        "target".to_owned(),
        "dist".to_owned(),
    ];
    proof {
        assert(r.deep_view() =~= skipped_names());
    }
    r
}

/// Stops a pathological tree from being walked forever.
pub const DEFAULT_MAX_FILES: usize = 100_000;

/// How a tree is walked.
pub struct Extractor {
    /// Added to the directories that are always skipped, never replacing them.
    pub exclude: Vec<String>,
    pub max_files: usize,
    /// Whether paths are written as on Windows, with backslashes too.
    pub windows: bool,
}

impl Default for Extractor {
    fn default() -> (r: Extractor)
        ensures
            r.exclude@.len() == 0,
            r.max_files == DEFAULT_MAX_FILES,
            !r.windows,
    {
        Extractor { exclude: Vec::new(), max_files: DEFAULT_MAX_FILES, windows: false }
    }
}

impl Extractor {
    pub fn new() -> (r: Extractor)
        ensures
            r.exclude@.len() == 0,
            r.max_files == DEFAULT_MAX_FILES,
            !r.windows,
    {
        Extractor { exclude: Vec::new(), max_files: DEFAULT_MAX_FILES, windows: false }
    }

    pub fn with_exclude(self, dirs: Vec<String>) -> (r: Extractor)
        ensures
            r.exclude@ == self.exclude@ + dirs@,
            r.max_files == self.max_files,
            r.windows == self.windows,
    {
        let mut exclude = self.exclude;
        let mut dirs = dirs;
        exclude.append(&mut dirs);
        Extractor { exclude, max_files: self.max_files, windows: self.windows }
    }

    /// Overridable so that truncation can be exercised without building a
    /// hundred thousand files. Not a setting: nothing reads it from the client.
    pub fn with_max_files(self, max: usize) -> (r: Extractor)
        ensures
            r.exclude@ == self.exclude@,
            r.max_files == max,
            r.windows == self.windows,
    {
        Extractor { exclude: self.exclude, max_files: max, windows: self.windows }
    }

    /// Whether paths are written as on Windows.
    pub fn with_windows(self, windows: bool) -> (r: Extractor)
        ensures
            r.exclude@ == self.exclude@,
            r.max_files == self.max_files,
            r.windows == windows,
    {
        Extractor { exclude: self.exclude, max_files: self.max_files, windows }
    }

    /// Whether a directory is not walked into. Matched by name, not by suffix:
    /// `dist` must not also exclude `district`.
    pub fn skips(&self, name: &str) -> (r: bool)
        ensures
            r == (skipped_names().contains(name@) || self.exclude.deep_view().contains(name@)),
    {
        contains(&skip_dirs(), name) || contains(&self.exclude, name)
    }

    /// An extraction that has seen nothing yet.
    pub fn begin(&self) -> (r: Extraction)
        ensures
            r.wf(),
            r.max_files == self.max_files,
            r.deep_view() == nothing_seen(self.windows),
    {
        let r = Extraction {
            max_files: self.max_files,
            windows: self.windows,
            files: 0,
            sightings: Vec::new(),
            own: Vec::new(),
            targets: Vec::new(),
            visited: Vec::new(),
            manifests: Vec::new(),
            lock_dirs: Vec::new(),
            locks: Vec::new(),
        };
        proof {
            assert(r.sightings.deep_view() =~= seq![]);
            assert(r.own.deep_view() =~= seq![]);
            assert(r.targets.deep_view() =~= seq![]);
            assert(r.visited.deep_view() =~= seq![]);
            assert(r.manifests.deep_view() =~= seq![]);
            assert(r.lock_dirs.deep_view() =~= seq![]);
            assert(r.locks.deep_view() =~= seq![]);
        }
        r
    }
}

// ---- what was seen ----

/// The crate a Cargo project calls itself.
#[derive(Clone, Debug)]
pub struct OwnCrate {
    pub dir: String,
    pub name: String,
}

/// What an [`OwnCrate`] says.
pub struct OwnView {
    pub dir: Seq<char>,
    pub name: Seq<char>,
}

impl DeepView for OwnCrate {
    type V = OwnView;

    open spec fn deep_view(&self) -> OwnView {
        OwnView { dir: self.dir@, name: self.name@ }
    }
}

/// A lockfile whose install tree was read.
pub struct LockFile {
    pub path: String,
    pub lock: Lock,
}

/// What a [`LockFile`] says.
pub struct LockFileView {
    pub path: Seq<char>,
    pub lock: LockView,
}

impl DeepView for LockFile {
    type V = LockFileView;

    open spec fn deep_view(&self) -> LockFileView {
        LockFileView { path: self.path@, lock: self.lock.deep_view() }
    }
}

/// An extraction under way: what the files read so far say.
pub struct Extraction {
    pub max_files: usize,
    pub windows: bool,
    pub files: usize,
    pub sightings: Vec<ExtractedPackage>,
    pub own: Vec<OwnCrate>,
    /// Files named by `-r` that no parser would pick up by name.
    pub targets: Vec<String>,
    pub visited: Vec<String>,
    pub manifests: Vec<Manifest>,
    pub lock_dirs: Vec<String>,
    pub locks: Vec<LockFile>,
}

/// What an [`Extraction`] has seen.
pub struct ExtractionView {
    pub windows: bool,
    pub files: nat,
    pub sightings: Seq<ExtractedView>,
    pub own: Seq<OwnView>,
    pub targets: Seq<Seq<char>>,
    pub visited: Seq<Seq<char>>,
    pub manifests: Seq<ManifestView>,
    pub lock_dirs: Seq<Seq<char>>,
    pub locks: Seq<LockFileView>,
}

impl DeepView for Extraction {
    type V = ExtractionView;

    open spec fn deep_view(&self) -> ExtractionView {
        ExtractionView {
            windows: self.windows,
            files: self.files as nat,
            sightings: self.sightings.deep_view(),
            own: self.own.deep_view(),
            targets: self.targets.deep_view(),
            visited: self.visited.deep_view(),
            manifests: self.manifests.deep_view(),
            lock_dirs: self.lock_dirs.deep_view(),
            locks: self.locks.deep_view(),
        }
    }
}

pub open spec fn nothing_seen(windows: bool) -> ExtractionView {
    ExtractionView {
        windows,
        files: 0,
        sightings: seq![],
        own: seq![],
        targets: seq![],
        visited: seq![],
        manifests: seq![],
        lock_dirs: seq![],
        locks: seq![],
    }
}

/// The files a requirements file names that no parser would find by name.
pub open spec fn unwalked(dir: Seq<char>, targets: Seq<Seq<char>>, windows: bool) -> Seq<
    Seq<char>,
>
    decreases targets.len(),
{
    if targets.len() == 0 {
        seq![]
    } else {
        let before = unwalked(dir, targets.drop_last(), windows);
        let path = reached_of(dir, targets.last(), windows);
        if format_of(name_of(path)) is None {
            before.push(path)
        } else {
            before
        }
    }
}

pub open spec fn unwalked_of(path: Seq<char>, source: Seq<char>, windows: bool) -> Seq<
    Seq<char>,
> {
    unwalked(dir_of(path), targets_of(lines_of(source)), windows)
}

/// What a file adds. A lockfile's packages wait for the end of the walk, since
/// who is answerable for them is told by manifests that may come later.
pub open spec fn with_file(
    s: ExtractionView,
    path: Seq<char>,
    source: Seq<char>,
) -> ExtractionView {
    with_file_at(s, spelled_of(path, s.windows), source)
}

/// What a file at a path adds, the path being in its one spelling.
pub open spec fn with_file_at(
    s: ExtractionView,
    path: Seq<char>,
    source: Seq<char>,
) -> ExtractionView {
    match format_of(name_of(path)) {
        None => s,
        Some(Format::PackageLock) => ExtractionView {
            lock_dirs: s.lock_dirs.push(dir_of(path)),
            locks: match lock_of(source) {
                Some(lock) => s.locks.push(LockFileView { path, lock }),
                None => s.locks,
            },
            ..s
        },
        Some(Format::PackageJson) => ExtractionView {
            manifests: s.manifests.push(
                ManifestView { path, declarations: declarations_of(source, path) },
            ),
            sightings: s.sightings + package_json_of(source, path),
            ..s
        },
        Some(Format::CargoToml) => ExtractionView {
            own: match own_name(lines_of(source), false) {
                Some(name) => s.own.push(OwnView { dir: dir_of(path), name }),
                None => s.own,
            },
            sightings: s.sightings + cargo_toml_of(source, path),
            ..s
        },
        Some(Format::Requirements) => ExtractionView {
            targets: s.targets + unwalked_of(path, source, s.windows),
            sightings: s.sightings + requirements_of(source, path),
            ..s
        },
        Some(format) => ExtractionView {
            sightings: s.sightings + parsed_of(format, source, path),
            ..s
        },
    }
}

/// What is left once the last target that was not visited has been taken.
pub open spec fn next_of(s: ExtractionView) -> (Option<Seq<char>>, ExtractionView)
    decreases s.targets.len(),
{
    if s.targets.len() == 0 {
        (None, s)
    } else {
        let path = s.targets.last();
        let left = ExtractionView { targets: s.targets.drop_last(), ..s };
        if s.visited.contains(path) {
            next_of(left)
        } else {
            (Some(path), ExtractionView { visited: s.visited.push(path), ..left })
        }
    }
}

/// What a file that another one names adds.
pub open spec fn with_target(
    s: ExtractionView,
    path: Seq<char>,
    source: Seq<char>,
) -> ExtractionView {
    ExtractionView {
        targets: s.targets + unwalked_of(spelled_of(path, s.windows), source, s.windows),
        sightings: s.sightings + requirements_of(source, spelled_of(path, s.windows)),
        ..s
    }
}

// ---- who is answerable ----

/// The first attribution of an entry.
pub open spec fn attribution_for(found: Seq<AttributionView>, node: nat) -> Option<
    AttributionView,
>
    decreases found.len(),
{
    if found.len() == 0 {
        None
    } else if found[0].node == node {
        Some(found[0])
    } else {
        attribution_for(found.skip(1), node)
    }
}

/// A locked package with the declaration that is answerable for it. What a
/// manifest declares itself is anchored by name, like everything else.
pub open spec fn answered(
    lock: LockView,
    dir: Seq<char>,
    seen: WorkspaceView,
    node: nat,
    found: ExtractedView,
) -> ExtractedView {
    let roots = roots_of(lock.nodes, lock.nodes.len(), dir, seen);
    if is_direct_node(lock.nodes, roots, node) {
        found
    } else {
        match attribution_for(attribute_of(lock, dir, seen), node) {
            Some(a) => ExtractedView { declared: Some(a.declared), paths: a.paths, ..found },
            None => found,
        }
    }
}

pub open spec fn all_answered(
    lock: LockView,
    dir: Seq<char>,
    seen: WorkspaceView,
    found: Seq<(nat, ExtractedView)>,
) -> Seq<ExtractedView> {
    Seq::new(found.len(), |i: int| answered(lock, dir, seen, found[i].0, found[i].1))
}

/// The packages of some lockfiles.
pub open spec fn locked_packages(locks: Seq<LockFileView>, seen: WorkspaceView) -> Seq<
    ExtractedView,
>
    decreases locks.len(),
{
    if locks.len() == 0 {
        seq![]
    } else {
        let l = locks.last();
        locked_packages(locks.drop_last(), seen) + all_answered(
            l.lock,
            dir_of(l.path),
            seen,
            sightings_of(l.lock.nodes, l.path),
        )
    }
}

/// Whether a sighting is a Cargo project's own crate. A lockfile lists every
/// crate including the local one, and nothing in the entry marks it as local.
pub open spec fn is_own(s: ExtractedView, own: Seq<OwnView>) -> bool {
    s.package.key.ecosystem == Ecosystem::CratesIo && own.contains(
        OwnView { dir: dir_of(s.evidence.path), name: s.package.key.name },
    )
}

pub open spec fn foreign(found: Seq<ExtractedView>, own: Seq<OwnView>) -> Seq<ExtractedView>
    decreases found.len(),
{
    if found.len() == 0 {
        seq![]
    } else if is_own(found.last(), own) {
        foreign(found.drop_last(), own)
    } else {
        foreign(found.drop_last(), own).push(found.last())
    }
}

// ---- the same package in more than one file ----

/// Whether a lockfile in a directory pins a package.
pub open spec fn locked_in(all: Seq<ExtractedView>, dir: Seq<char>, key: KeyView) -> bool {
    exists|i: int|
        0 <= i < all.len() && !(#[trigger] all[i]).from_range && all[i].package.key == key && dir_of(
            all[i].evidence.path,
        ) == dir
}

/// The nearest directory at or above one where a lockfile pins a package.
/// Walking upwards is what makes workspaces work: one lockfile at the root
/// governs the manifests below it.
pub open spec fn governing(all: Seq<ExtractedView>, dir: Seq<char>, key: KeyView) -> Option<
    Seq<char>,
>
    decreases dir.len(),
{
    if locked_in(all, dir, key) {
        Some(dir)
    } else {
        match parent_of(dir) {
            Some(up) => {
                proof {
                    lemma_parent_shorter(dir);
                }
                governing(all, up, key)
            },
            None => None,
        }
    }
}

/// Whether a lockfile says what is installed in place of a range.
pub open spec fn superseded(all: Seq<ExtractedView>, s: ExtractedView) -> bool {
    s.from_range && governing(all, dir_of(s.evidence.path), s.package.key) is Some
}

/// Where a manifest in the same directory asks for a package, the first that
/// does.
pub open spec fn declared_here(
    found: Seq<ExtractedView>,
    dir: Seq<char>,
    key: KeyView,
) -> Option<SiteView>
    decreases found.len(),
{
    if found.len() == 0 {
        None
    } else {
        let s = found[0];
        if s.from_range && s.package.key == key && dir_of(s.evidence.path) == dir {
            Some(s.evidence)
        } else {
            declared_here(found.skip(1), dir, key)
        }
    }
}

/// Where a manifest that a lockfile in a directory governs asks for a package,
/// the first that does.
pub open spec fn declared_below(
    all: Seq<ExtractedView>,
    found: Seq<ExtractedView>,
    dir: Seq<char>,
    key: KeyView,
) -> Option<SiteView>
    decreases found.len(),
{
    if found.len() == 0 {
        None
    } else {
        let s = found[0];
        if s.from_range && s.package.key == key && governing(
            all,
            dir_of(s.evidence.path),
            key,
        ) == Some(dir) {
            Some(s.evidence)
        } else {
            declared_below(all, found.skip(1), dir, key)
        }
    }
}

pub open spec fn declared_for(
    all: Seq<ExtractedView>,
    dir: Seq<char>,
    key: KeyView,
) -> Option<SiteView> {
    match declared_here(all, dir, key) {
        Some(site) => Some(site),
        None => declared_below(all, all, dir, key),
    }
}

/// Whether two sites are one place of one file.
pub open spec fn is_same_site(a: SiteView, b: SiteView) -> bool {
    a.range == b.range && is_same_path(a.path, b.path)
}

/// A sighting with where the user asked for the package, where that is
/// elsewhere and not known yet.
pub open spec fn with_declaration(all: Seq<ExtractedView>, s: ExtractedView) -> ExtractedView {
    match declared_for(all, dir_of(s.evidence.path), s.package.key) {
        Some(site) => if s.declared is None && !is_same_site(site, s.evidence) {
            ExtractedView { declared: Some(site), ..s }
        } else {
            s
        },
        None => s,
    }
}

/// Whether two sightings are of one package at one version in one directory.
pub open spec fn same_place(a: ExtractedView, b: ExtractedView) -> bool {
    a.package == b.package && dir_of(a.evidence.path) == dir_of(b.evidence.path)
}

/// Where a list holds the package of a sighting, the first place that does.
pub open spec fn place_of(kept: Seq<ExtractedView>, s: ExtractedView) -> Option<nat>
    decreases kept.len(),
{
    if kept.len() == 0 {
        None
    } else {
        match place_of(kept.drop_last(), s) {
            Some(i) => Some(i),
            None => if same_place(kept.last(), s) {
                Some((kept.len() - 1) as nat)
            } else {
                None
            },
        }
    }
}

/// What is kept once one more sighting was considered: nothing of a range that
/// a lockfile supersedes, and of a package seen before only that it ships, where
/// this sighting names no group.
pub open spec fn keep_step(
    all: Seq<ExtractedView>,
    kept: Seq<ExtractedView>,
    s: ExtractedView,
) -> Seq<ExtractedView> {
    if superseded(all, s) {
        kept
    } else {
        match place_of(kept, s) {
            Some(i) => if s.dep_groups.len() == 0 {
                kept.update(
                    i as int,
                    ExtractedView { dep_groups: s.dep_groups, ..kept[i as int] },
                )
            } else {
                kept
            },
            None => kept.push(with_declaration(all, s)),
        }
    }
}

pub open spec fn kept_of(all: Seq<ExtractedView>, found: Seq<ExtractedView>) -> Seq<ExtractedView>
    decreases found.len(),
{
    if found.len() == 0 {
        seq![]
    } else {
        keep_step(all, kept_of(all, found.drop_last()), found.last())
    }
}

/// Sightings by package, then version, then file.
pub open spec fn sight_order(a: ExtractedView, b: ExtractedView) -> Order {
    chain(
        int_order(
            ecosystem_rank(a.package.key.ecosystem),
            ecosystem_rank(b.package.key.ecosystem),
        ),
        chain(
            text_order(a.package.key.name, b.package.key.name),
            chain(
                text_order(a.package.version, b.package.version),
                path_order(a.evidence.path, b.evidence.path),
            ),
        ),
    )
}

pub open spec fn placed(sorted: Seq<ExtractedView>, x: ExtractedView) -> Seq<ExtractedView>
    decreases sorted.len(),
{
    if sorted.len() > 0 && sight_order(x, sorted.last()) == Order::Less {
        placed(sorted.drop_last(), x).push(sorted.last())
    } else {
        sorted.push(x)
    }
}

/// Sightings in order, equals staying as they were.
pub open spec fn sorted_of(found: Seq<ExtractedView>) -> Seq<ExtractedView>
    decreases found.len(),
{
    if found.len() == 0 {
        seq![]
    } else {
        placed(sorted_of(found.drop_last()), found.last())
    }
}

/// The same package seen in more than one file, resolved.
pub open spec fn reconciled(found: Seq<ExtractedView>) -> Seq<ExtractedView> {
    sorted_of(kept_of(found, found))
}

/// Everything an extraction found.
pub open spec fn extracted(s: ExtractionView) -> Seq<ExtractedView> {
    let seen = WorkspaceView { manifests: s.manifests, lock_dirs: s.lock_dirs };
    reconciled(foreign(s.sightings + locked_packages(s.locks, seen), s.own))
}

// ---- code: reading ----

fn push_text(list: &mut Vec<String>, s: String)
    ensures
        final(list).deep_view() == old(list).deep_view().push(s@),
{
    let ghost before = list.deep_view();
    list.push(s);
    proof {
        assert(list.deep_view() =~= before.push(s@));
    }
}

fn push_sighting(list: &mut Vec<ExtractedPackage>, s: ExtractedPackage)
    ensures
        final(list).deep_view() == old(list).deep_view().push(s.deep_view()),
{
    let ghost before = list.deep_view();
    list.push(s);
    proof {
        assert(list.deep_view() =~= before.push(s.deep_view()));
    }
}

fn append_sightings(list: &mut Vec<ExtractedPackage>, more: Vec<ExtractedPackage>)
    ensures
        final(list).deep_view() == old(list).deep_view() + more.deep_view(),
{
    let ghost before = list@;
    let ghost so_far = list.deep_view();
    let ghost added = more@;
    let ghost added_view = more.deep_view();
    let mut more = more;
    list.append(&mut more);
    proof {
        assert(list.deep_view() =~= so_far + added_view) by {
            assert forall|j: int| 0 <= j < list@.len() implies list.deep_view()[j] == (so_far
                + added_view)[j] by {
                if j < before.len() {
                    assert(list@[j] == before[j]);
                    assert(so_far[j] == before[j].deep_view());
                } else {
                    assert(list@[j] == added[j - before.len()]);
                    assert(added_view[j - before.len()] == added[j - before.len()].deep_view());
                }
            }
        }
    }
}

/// Adds the files a requirements file names that no parser would find.
fn add_targets(targets: &mut Vec<String>, path: &str, source: &str, windows: bool)
    ensures
        final(targets).deep_view() == old(targets).deep_view() + unwalked_of(
            path@,
            source@,
            windows,
        ),
{
    let dir = directory(path);
    let named = requirement_includes(source);
    let ghost start = targets.deep_view();
    let ghost all = named.deep_view();
    let mut i: usize = 0;
    proof {
        assert(start + unwalked(dir@, all.take(0), windows) =~= start);
    }
    while i < named.len()
        invariant
            i <= named@.len(),
            all == named.deep_view(),
            targets.deep_view() == start + unwalked(dir@, all.take(i as int), windows),
        decreases named@.len() - i,
    {
        let target = reached(dir.as_str(), named[i].as_str(), windows);
        proof {
            assert(all.take(i + 1).drop_last() =~= all.take(i as int));
            assert(all.take(i + 1).last() == named@[i as int]@);
        }
        let ghost so_far = targets.deep_view();
        let ghost text = target@;
        if parser_for(target.as_str()).is_none() {
            push_text(targets, target);
            proof {
                assert(so_far.push(text) =~= start + unwalked(
                    dir@,
                    all.take(i as int),
                    windows,
                ).push(text));
            }
        }
        i += 1;
    }
    proof {
        assert(all.take(i as int) =~= all);
    }
}

impl Extraction {
    /// Every lockfile's entries can be found by their paths.
    pub open spec fn wf(self) -> bool {
        forall|i: int| 0 <= i < self.locks@.len() ==> (#[trigger] self.locks@[i]).lock.wf()
    }

    /// Counts one more file. False once there are too many, and the rest of
    /// the tree is not walked.
    pub fn count_file(&mut self) -> (r: bool)
        requires
            old(self).wf(),
        ensures
            final(self).wf(),
            final(self).max_files == old(self).max_files,
            r == (old(self).files < old(self).max_files),
            final(self).deep_view() == (ExtractionView {
                files: if r { old(self).deep_view().files + 1 } else { old(self).deep_view().files },
                ..old(self).deep_view()
            }),
    {
        if self.files < self.max_files {
            self.files = self.files + 1;
            true
        } else {
            false
        }
    }

    /// Reads a file that was found by name.
    pub fn file(&mut self, path: &str, source: &str)
        requires
            old(self).wf(),
        ensures
            final(self).wf(),
            final(self).max_files == old(self).max_files,
            final(self).deep_view() == with_file(old(self).deep_view(), path@, source@),
    {
        let clean = spelled(path, self.windows);
        let path = clean.as_str();
        let format = match parser_for(path) {
            Some(format) => format,
            None => return ,
        };
        match format {
            Format::PackageLock => {
                push_text(&mut self.lock_dirs, directory(path));
                if let Some(tree) = lock(source) {
                    let ghost before = self.locks.deep_view();
                    let entry = LockFile { path: path.to_owned(), lock: tree };
                    self.locks.push(entry);
                    proof {
                        assert(self.locks.deep_view() =~= before.push(entry.deep_view()));
                    }
                }
            },
            Format::PackageJson => {
                let ghost before = self.manifests.deep_view();
                let entry = Manifest {
                    path: path.to_owned(),
                    declarations: declarations(source, path),
                };
                self.manifests.push(entry);
                proof {
                    assert(self.manifests.deep_view() =~= before.push(entry.deep_view()));
                }
                append_sightings(&mut self.sightings, package_json(source, path));
            },
            Format::CargoToml => {
                if let Some(name) = cargo_self(source) {
                    let ghost before = self.own.deep_view();
                    let entry = OwnCrate { dir: directory(path), name };
                    self.own.push(entry);
                    proof {
                        assert(self.own.deep_view() =~= before.push(entry.deep_view()));
                    }
                }
                append_sightings(&mut self.sightings, cargo_toml(source, path));
            },
            Format::Requirements => {
                add_targets(&mut self.targets, path, source, self.windows);
                append_sightings(&mut self.sightings, requirements(source, path));
            },
            Format::GoMod => append_sightings(&mut self.sightings, go_mod(source, path)),
            Format::CargoLock => append_sightings(&mut self.sightings, cargo_lock(source, path)),
        }
    }

    /// The next file to read that another one names. Each is given once, since
    /// they can name each other in a circle.
    pub fn next_target(&mut self) -> (r: Option<String>)
        requires
            old(self).wf(),
        ensures
            final(self).wf(),
            final(self).max_files == old(self).max_files,
            (r.deep_view(), final(self).deep_view()) == next_of(old(self).deep_view()),
    {
        while self.targets.len() > 0
            invariant
                self.wf(),
                self.max_files == old(self).max_files,
                next_of(old(self).deep_view()) == next_of(self.deep_view()),
            decreases self.targets@.len(),
        {
            let ghost before = self.deep_view();
            let path = match self.targets.pop() {
                Some(path) => path,
                None => return None,
            };
            proof {
                assert(self.targets.deep_view() =~= before.targets.drop_last());
                assert(before.targets.last() == path@);
            }
            if !contains(&self.visited, path.as_str()) {
                push_text(&mut self.visited, path.clone());
                return Some(path);
            }
        }
        None
    }

    /// Reads a file that another one names.
    pub fn target(&mut self, path: &str, source: &str)
        requires
            old(self).wf(),
        ensures
            final(self).wf(),
            final(self).max_files == old(self).max_files,
            final(self).deep_view() == with_target(old(self).deep_view(), path@, source@),
    {
        let clean = spelled(path, self.windows);
        add_targets(&mut self.targets, clean.as_str(), source, self.windows);
        append_sightings(&mut self.sightings, requirements(source, clean.as_str()));
    }
}

// ---- code: attribution ----

fn find_attribution(found: &Vec<Attribution>, node: usize) -> (r: Option<usize>)
    ensures
        match r {
            Some(i) => i < found@.len() && attribution_for(found.deep_view(), node as nat) == Some(
                found@[i as int].deep_view(),
            ),
            None => attribution_for(found.deep_view(), node as nat) is None,
        },
{
    let ghost all = found.deep_view();
    let mut i: usize = 0;
    proof {
        assert(all.skip(0) =~= all);
    }
    while i < found.len()
        invariant
            i <= found@.len(),
            all == found.deep_view(),
            attribution_for(all, node as nat) == attribution_for(all.skip(i as int), node as nat),
        decreases found@.len() - i,
    {
        proof {
            assert(all.skip(i as int)[0] == found@[i as int].deep_view());
            assert(all.skip(i as int).skip(1) =~= all.skip(i + 1));
        }
        if found[i].node == node {
            return Some(i);
        }
        i += 1;
    }
    None
}

/// The packages of one lockfile, each with the declaration answerable for it.
pub fn locked(file: &LockFile, seen: &Workspace) -> (r: Vec<ExtractedPackage>)
    requires
        file.lock.wf(),
    ensures
        r.deep_view() == all_answered(
            file.lock.deep_view(),
            dir_of(file.path@),
            seen.deep_view(),
            sightings_of(file.lock.deep_view().nodes, file.path@),
        ),
{
    let dir = directory(file.path.as_str());
    let ghost l = file.lock.deep_view();
    let ghost w = seen.deep_view();
    let found = file.lock.sightings(file.path.as_str());
    let ghost pairs = sightings_of(l.nodes, file.path@);
    let attributions = attribute(&file.lock, dir.as_str(), seen);
    let direct = direct_nodes(&file.lock, dir.as_str(), seen);
    let ghost want = all_answered(l, dir@, w, pairs);
    let mut out: Vec<ExtractedPackage> = Vec::new();
    let mut i: usize = 0;
    proof {
        assert(pairs == crate::manifest::npm::pairs(found@));
    }
    while i < found.len()
        invariant
            i <= found@.len(),
            out@.len() == i,
            l == file.lock.deep_view(),
            w == seen.deep_view(),
            direct@.len() == file.lock.nodes@.len(),
            forall|k: int|
                0 <= k < direct@.len() ==> #[trigger] direct@[k] == (is_direct_node(
                    l.nodes,
                    roots_of(l.nodes, file.lock.nodes@.len(), dir@, w),
                    k as nat,
                )),
            attributions.deep_view() == attribute_of(l, dir@, w),
            pairs == crate::manifest::npm::pairs(found@),
            forall|k: int| 0 <= k < found@.len() ==> (#[trigger] found@[k]).0
                < file.lock.nodes@.len(),
            want == all_answered(l, dir@, w, pairs),
            forall|k: int| 0 <= k < i ==> (#[trigger] out@[k]).deep_view() == want[k],
        decreases found@.len() - i,
    {
        let node: usize = found[i].0;
        let mut sighting = found[i].1.copy();
        proof {
            assert(pairs[i as int] == (node as nat, found@[i as int].1.deep_view()));
            assert(l.nodes.len() == file.lock.nodes@.len());
        }
        if !direct[node] {
            if let Some(k) = find_attribution(&attributions, node) {
                sighting.declared = Some(attributions[k].declared.copy());
                sighting.paths = copy_paths(&attributions[k].paths);
            }
        }
        out.push(sighting);
        i += 1;
    }
    proof {
        assert(out.deep_view() =~= want);
    }
    out
}

fn is_own_crate(s: &ExtractedPackage, own: &Vec<OwnCrate>) -> (r: bool)
    ensures
        r == is_own(s.deep_view(), own.deep_view()),
{
    if s.package.ecosystem() != Ecosystem::CratesIo {
        return false;
    }
    let dir = directory(s.evidence.path.as_str());
    let ghost all = own.deep_view();
    let ghost x = OwnView { dir: dir@, name: s.package.key.name@ };
    let mut i: usize = 0;
    while i < own.len()
        invariant
            i <= own@.len(),
            all == own.deep_view(),
            x == (OwnView { dir: dir@, name: s.package.key.name@ }),
            dir@ == dir_of(s.evidence.path@),
            s.package.key.ecosystem == Ecosystem::CratesIo,
            forall|j: int| 0 <= j < i ==> #[trigger] all[j] != x,
        decreases own@.len() - i,
    {
        if same(own[i].dir.as_str(), dir.as_str()) && same(
            own[i].name.as_str(),
            s.package.name(),
        ) {
            proof {
                assert(all[i as int] == x);
            }
            return true;
        }
        i += 1;
    }
    false
}

fn keep_foreign(found: &Vec<ExtractedPackage>, own: &Vec<OwnCrate>) -> (r: Vec<ExtractedPackage>)
    ensures
        r.deep_view() == foreign(found.deep_view(), own.deep_view()),
{
    let ghost all = found.deep_view();
    let mut out: Vec<ExtractedPackage> = Vec::new();
    let mut i: usize = 0;
    proof {
        assert(out.deep_view() =~= seq![]);
    }
    while i < found.len()
        invariant
            i <= found@.len(),
            all == found.deep_view(),
            out.deep_view() == foreign(all.take(i as int), own.deep_view()),
        decreases found@.len() - i,
    {
        proof {
            assert(all.take(i + 1).drop_last() =~= all.take(i as int));
            assert(all.take(i + 1).last() == found@[i as int].deep_view());
        }
        if !is_own_crate(&found[i], own) {
            push_sighting(&mut out, found[i].copy());
        }
        i += 1;
    }
    proof {
        assert(all.take(i as int) =~= all);
    }
    out
}

// ---- code: reconciling ----

/// The directory each sighting is in, so that none is worked out twice.
fn directories(found: &Vec<ExtractedPackage>) -> (r: Vec<String>)
    ensures
        r@.len() == found@.len(),
        forall|i: int| 0 <= i < r@.len() ==> (#[trigger] r@[i])@ == dir_of(found@[i].evidence.path@),
{
    let mut out: Vec<String> = Vec::new();
    let mut i: usize = 0;
    while i < found.len()
        invariant
            i <= found@.len(),
            out@.len() == i,
            forall|k: int|
                0 <= k < i ==> (#[trigger] out@[k])@ == dir_of(found@[k].evidence.path@),
        decreases found@.len() - i,
    {
        out.push(directory(found[i].evidence.path.as_str()));
        i += 1;
    }
    out
}

spec fn dirs_match(dirs: Seq<String>, found: Seq<ExtractedPackage>) -> bool {
    dirs.len() == found.len() && forall|i: int|
        0 <= i < dirs.len() ==> (#[trigger] dirs[i])@ == dir_of(found[i].evidence.path@)
}

fn is_locked_in(
    found: &Vec<ExtractedPackage>,
    dirs: &Vec<String>,
    dir: &str,
    key: &PackageKey,
) -> (r: bool)
    requires
        dirs_match(dirs@, found@),
    ensures
        r == locked_in(found.deep_view(), dir@, key.deep_view()),
{
    let ghost all = found.deep_view();
    let mut i: usize = 0;
    while i < found.len()
        invariant
            i <= found@.len(),
            all == found.deep_view(),
            dirs_match(dirs@, found@),
            forall|j: int|
                0 <= j < i ==> !(!(#[trigger] all[j]).from_range && all[j].package.key
                    == key.deep_view() && dir_of(all[j].evidence.path) == dir@),
        decreases found@.len() - i,
    {
        if !found[i].from_range && found[i].package.key.equals(key) && same(
            dirs[i].as_str(),
            dir,
        ) {
            proof {
                assert(!all[i as int].from_range);
            }
            return true;
        }
        i += 1;
    }
    false
}

/// The nearest directory at or above one where a lockfile pins a package.
fn locked_at_or_above(
    found: &Vec<ExtractedPackage>,
    dirs: &Vec<String>,
    dir: &str,
    key: &PackageKey,
) -> (r: Option<String>)
    requires
        dirs_match(dirs@, found@),
    ensures
        r.deep_view() == governing(found.deep_view(), dir@, key.deep_view()),
{
    let ghost all = found.deep_view();
    let ghost k = key.deep_view();
    let mut at: String = dir.to_owned();
    loop
        invariant
            dirs_match(dirs@, found@),
            all == found.deep_view(),
            k == key.deep_view(),
            governing(all, dir@, k) == governing(all, at@, k),
        decreases at@.len(),
    {
        if is_locked_in(found, dirs, at.as_str(), key) {
            return Some(at);
        }
        proof {
            lemma_parent_shorter(at@);
        }
        match parent(at.as_str()) {
            Some(up) => {
                at = up;
            },
            None => return None,
        }
    }
}

/// Which directory governs each sighting that was read off a range.
fn governors(found: &Vec<ExtractedPackage>, dirs: &Vec<String>) -> (r: Vec<Option<String>>)
    requires
        dirs_match(dirs@, found@),
    ensures
        governed(r@, found@),
{
    let ghost all = found.deep_view();
    let mut out: Vec<Option<String>> = Vec::new();
    let mut i: usize = 0;
    while i < found.len()
        invariant
            i <= found@.len(),
            out@.len() == i,
            dirs_match(dirs@, found@),
            all == found.deep_view(),
            forall|k: int|
                0 <= k < i && found@[k].from_range ==> (#[trigger] out@[k]).deep_view()
                    == governing(
                    all,
                    dir_of(found@[k].evidence.path@),
                    found@[k].package.key.deep_view(),
                ),
        decreases found@.len() - i,
    {
        let g = if found[i].from_range {
            locked_at_or_above(found, dirs, dirs[i].as_str(), &found[i].package.key)
        } else {
            None
        };
        out.push(g);
        i += 1;
    }
    proof {
        assert(all == views(found@));
    }
    out
}

spec fn views(found: Seq<ExtractedPackage>) -> Seq<ExtractedView> {
    Seq::new(found.len(), |i: int| found[i].deep_view())
}

spec fn governed(r: Seq<Option<String>>, found: Seq<ExtractedPackage>) -> bool {
    r.len() == found.len() && forall|k: int|
        0 <= k < found.len() && found[k].from_range ==> (#[trigger] r[k]).deep_view() == governing(
            views(found),
            dir_of(found[k].evidence.path@),
            found[k].package.key.deep_view(),
        )
}

/// Where the user asks for a package that is locked or written in a directory.
fn find_declaration(
    found: &Vec<ExtractedPackage>,
    dirs: &Vec<String>,
    governors: &Vec<Option<String>>,
    dir: &str,
    key: &PackageKey,
) -> (r: Option<usize>)
    requires
        dirs_match(dirs@, found@),
        governed(governors@, found@),
    ensures
        match r {
            Some(i) => i < found@.len() && declared_for(
                found.deep_view(),
                dir@,
                key.deep_view(),
            ) == Some(found@[i as int].evidence.deep_view()),
            None => declared_for(found.deep_view(), dir@, key.deep_view()) is None,
        },
{
    let ghost all = found.deep_view();
    let ghost k = key.deep_view();
    let mut i: usize = 0;
    proof {
        assert(all.skip(0) =~= all);
        assert(all == views(found@));
    }
    while i < found.len()
        invariant
            i <= found@.len(),
            dirs_match(dirs@, found@),
            all == found.deep_view(),
            k == key.deep_view(),
            declared_here(all, dir@, k) == declared_here(all.skip(i as int), dir@, k),
        decreases found@.len() - i,
    {
        proof {
            assert(all.skip(i as int)[0] == found@[i as int].deep_view());
            assert(all.skip(i as int).skip(1) =~= all.skip(i + 1));
        }
        if found[i].from_range && found[i].package.key.equals(key) && same(
            dirs[i].as_str(),
            dir,
        ) {
            return Some(i);
        }
        i += 1;
    }
    let mut j: usize = 0;
    while j < found.len()
        invariant
            j <= found@.len(),
            governed(governors@, found@),
            all == found.deep_view(),
            all == views(found@),
            k == key.deep_view(),
            declared_here(all, dir@, k) is None,
            declared_below(all, all, dir@, k) == declared_below(all, all.skip(j as int), dir@, k),
        decreases found@.len() - j,
    {
        proof {
            assert(all.skip(j as int)[0] == found@[j as int].deep_view());
            assert(all.skip(j as int).skip(1) =~= all.skip(j + 1));
        }
        if found[j].from_range && found[j].package.key.equals(key) {
            let below = match &governors[j] {
                Some(g) => same(g.as_str(), dir),
                None => false,
            };
            if below {
                return Some(j);
            }
        }
        j += 1;
    }
    None
}

fn find_place(kept: &Vec<ExtractedPackage>, s: &ExtractedPackage, dir: &str) -> (r: Option<usize>)
    requires
        dir@ == dir_of(s.evidence.path@),
    ensures
        match r {
            Some(i) => i < kept@.len() && place_of(kept.deep_view(), s.deep_view()) == Some(
                i as nat,
            ),
            None => place_of(kept.deep_view(), s.deep_view()) is None,
        },
{
    let ghost all = kept.deep_view();
    let ghost x = s.deep_view();
    let mut i: usize = 0;
    while i < kept.len()
        invariant
            i <= kept@.len(),
            all == kept.deep_view(),
            x == s.deep_view(),
            dir@ == dir_of(s.evidence.path@),
            place_of(all.take(i as int), x) is None,
        decreases kept@.len() - i,
    {
        proof {
            assert(all.take(i + 1).drop_last() =~= all.take(i as int));
            assert(all.take(i + 1).last() == kept@[i as int].deep_view());
        }
        if kept[i].package.equals(&s.package) {
            let other = directory(kept[i].evidence.path.as_str());
            if same(other.as_str(), dir) {
                proof {
                    lemma_place_stays(all, x, i + 1);
                }
                return Some(i);
            }
        }
        i += 1;
    }
    proof {
        assert(all.take(i as int) =~= all);
    }
    None
}

proof fn lemma_place_stays(all: Seq<ExtractedView>, x: ExtractedView, n: int)
    requires
        0 <= n <= all.len(),
        place_of(all.take(n), x) is Some,
    ensures
        place_of(all, x) == place_of(all.take(n), x),
    decreases all.len() - n,
{
    if n < all.len() {
        assert(all.take(n + 1).drop_last() =~= all.take(n));
        lemma_place_stays(all, x, n + 1);
    } else {
        assert(all.take(n) =~= all);
    }
}

fn same_site(a: &Site, b: &Site) -> (r: bool)
    ensures
        r == is_same_site(a.deep_view(), b.deep_view()),
{
    a.range == b.range && same_path(a.path.as_str(), b.path.as_str())
}

fn keep(found: &Vec<ExtractedPackage>) -> (r: Vec<ExtractedPackage>)
    ensures
        r.deep_view() == kept_of(found.deep_view(), found.deep_view()),
{
    let ghost all = found.deep_view();
    let dirs = directories(found);
    let above = governors(found, &dirs);
    let mut kept: Vec<ExtractedPackage> = Vec::new();
    let mut i: usize = 0;
    proof {
        assert(kept.deep_view() =~= seq![]);
        assert(all == views(found@));
    }
    while i < found.len()
        invariant
            i <= found@.len(),
            all == found.deep_view(),
            all == views(found@),
            dirs_match(dirs@, found@),
            governed(above@, found@),
            kept.deep_view() == kept_of(all, all.take(i as int)),
        decreases found@.len() - i,
    {
        let s = &found[i];
        let ghost x = s.deep_view();
        let ghost before = kept.deep_view();
        proof {
            assert(all.take(i + 1).drop_last() =~= all.take(i as int));
            assert(all.take(i + 1).last() == x);
        }
        let replaced = s.from_range && above[i].is_some();
        proof {
            assert(replaced == superseded(all, x)) by {
                if found@[i as int].from_range {
                    assert(above@[i as int].deep_view() == governing(
                        all,
                        dir_of(x.evidence.path),
                        x.package.key,
                    ));
                }
            }
        }
        if !replaced {
            match find_place(&kept, s, dirs[i].as_str()) {
                Some(k) => {
                    proof {
                        assert(before[k as int] == kept@[k as int].deep_view());
                    }
                    if s.dep_groups.len() == 0 {
                        let mut updated = kept[k].copy();
                        updated.dep_groups = copy_strings(&s.dep_groups);
                        kept.set(k, updated);
                        proof {
                            assert(kept.deep_view() =~= before.update(
                                k as int,
                                updated.deep_view(),
                            ));
                        }
                    }
                },
                None => {
                    let mut copy = s.copy();
                    if let Some(k) = find_declaration(
                        found,
                        &dirs,
                        &above,
                        dirs[i].as_str(),
                        &s.package.key,
                    ) {
                        if copy.declared.is_none() && !same_site(
                            &found[k].evidence,
                            &s.evidence,
                        ) {
                            copy.declared = Some(found[k].evidence.copy());
                        }
                    }
                    proof {
                        assert(copy.deep_view() == with_declaration(all, x));
                    }
                    push_sighting(&mut kept, copy);
                },
            }
        }
        i += 1;
    }
    proof {
        assert(all.take(i as int) =~= all);
    }
    kept
}

fn rank(e: Ecosystem) -> (r: usize)
    ensures
        r == ecosystem_rank(e),
{
    match e {
        Ecosystem::Npm => 0,
        Ecosystem::Go => 1,
        Ecosystem::PyPI => 2,
        Ecosystem::CratesIo => 3,
    }
}

fn compare_sightings(a: &ExtractedPackage, b: &ExtractedPackage) -> (r: Order)
    ensures
        r == sight_order(a.deep_view(), b.deep_view()),
{
    let first = usize_order(rank(a.package.key.ecosystem), rank(b.package.key.ecosystem));
    if first != Order::Equal {
        return first;
    }
    let names = compare_text(a.package.name(), b.package.name());
    if names != Order::Equal {
        return names;
    }
    let versions = compare_text(a.package.version.as_str(), b.package.version.as_str());
    if versions != Order::Equal {
        return versions;
    }
    compare_paths(a.evidence.path.as_str(), b.evidence.path.as_str())
}

pub open spec fn in_order(v: Seq<ExtractedView>) -> bool {
    forall|i: int, j: int|
        0 <= i < j < v.len() ==> sight_order(#[trigger] v[j], #[trigger] v[i]) != Order::Less
}

proof fn lemma_order(a: ExtractedView, b: ExtractedView, c: ExtractedView)
    ensures
        sight_order(b, a) == flip(sight_order(a, b)),
        coherent(sight_order(a, b), sight_order(b, c), sight_order(a, c)),
{
    crate::order::lemma_text_flip(a.package.key.name, b.package.key.name);
    crate::order::lemma_text_flip(a.package.version, b.package.version);
    crate::order::lemma_text_coherent(a.package.key.name, b.package.key.name, c.package.key.name);
    crate::order::lemma_text_coherent(a.package.version, b.package.version, c.package.version);
    let k = crate::text::Class::One('/');
    let (x, y, z) = (
        crate::text::split_of(normal_of(a.evidence.path), k),
        crate::text::split_of(normal_of(b.evidence.path), k),
        crate::text::split_of(normal_of(c.evidence.path), k),
    );
    crate::path::lemma_segments_flip(x, y);
    crate::path::lemma_segments_coherent(x, y, z);
}

/// Placing puts an item between what does not come after it and what does.
proof fn lemma_placed_at(sorted: Seq<ExtractedView>, x: ExtractedView, p: int)
    requires
        0 <= p <= sorted.len(),
        forall|i: int|
            p <= i < sorted.len() ==> sight_order(x, #[trigger] sorted[i]) == Order::Less,
        p > 0 ==> sight_order(x, sorted[p - 1]) != Order::Less,
    ensures
        placed(sorted, x) == sorted.take(p).push(x) + sorted.skip(p),
    decreases sorted.len(),
{
    if p < sorted.len() {
        let front = sorted.drop_last();
        assert(sight_order(x, sorted[sorted.len() - 1]) == Order::Less);
        assert forall|i: int| p <= i < front.len() implies sight_order(x, #[trigger] front[i])
            == Order::Less by {
            assert(front[i] == sorted[i]);
        }
        lemma_placed_at(front, x, p);
        assert(placed(sorted, x) =~= sorted.take(p).push(x) + sorted.skip(p));
    } else {
        assert(placed(sorted, x) =~= sorted.take(p).push(x) + sorted.skip(p));
    }
}

proof fn lemma_placed_in_order(sorted: Seq<ExtractedView>, x: ExtractedView, p: int)
    requires
        in_order(sorted),
        0 <= p <= sorted.len(),
        forall|i: int|
            p <= i < sorted.len() ==> sight_order(x, #[trigger] sorted[i]) == Order::Less,
        forall|i: int| 0 <= i < p ==> sight_order(x, #[trigger] sorted[i]) != Order::Less,
    ensures
        in_order(sorted.take(p).push(x) + sorted.skip(p)),
{
    let out = sorted.take(p).push(x) + sorted.skip(p);
    assert forall|i: int, j: int| 0 <= i < j < out.len() implies sight_order(
        #[trigger] out[j],
        #[trigger] out[i],
    ) != Order::Less by {
        let a = if i < p { i } else { i - 1 };
        let b = if j < p { j } else { j - 1 };
        if i == p {
            assert(out[i] == x && out[j] == sorted[b]);
            lemma_order(x, sorted[b], x);
        } else if j == p {
            assert(out[j] == x && out[i] == sorted[a]);
        } else {
            assert(out[i] == sorted[a] && out[j] == sorted[b]);
        }
    }
}

/// Adds an item to a sorted list, found by halving.
fn place(sorted: &mut Vec<ExtractedPackage>, x: ExtractedPackage)
    requires
        in_order(old(sorted).deep_view()),
    ensures
        final(sorted).deep_view() == placed(old(sorted).deep_view(), x.deep_view()),
        in_order(final(sorted).deep_view()),
{
    let ghost all = sorted.deep_view();
    let ghost it = x.deep_view();
    let mut lo: usize = 0;
    let mut hi: usize = sorted.len();
    while lo < hi
        invariant
            lo <= hi <= sorted@.len(),
            all == sorted.deep_view(),
            it == x.deep_view(),
            in_order(all),
            forall|i: int| hi <= i < all.len() ==> sight_order(it, #[trigger] all[i]) == Order::Less,
            forall|i: int| 0 <= i < lo ==> sight_order(it, #[trigger] all[i]) != Order::Less,
        decreases hi - lo,
    {
        let mid: usize = lo + (hi - lo) / 2;
        let o = compare_sightings(&x, &sorted[mid]);
        proof {
            assert(all[mid as int] == sorted@[mid as int].deep_view());
        }
        if o == Order::Less {
            proof {
                assert forall|i: int| mid <= i < all.len() implies sight_order(
                    it,
                    #[trigger] all[i],
                ) == Order::Less by {
                    if i > mid {
                        lemma_order(it, all[mid as int], all[i]);
                        lemma_order(all[mid as int], all[i], it);
                    }
                }
            }
            hi = mid;
        } else {
            proof {
                assert forall|i: int| 0 <= i < mid + 1 implies sight_order(it, #[trigger] all[i])
                    != Order::Less by {
                    if i < mid {
                        lemma_order(it, all[mid as int], all[i]);
                        lemma_order(all[mid as int], all[i], it);
                        lemma_order(all[i], all[mid as int], it);
                        lemma_order(it, all[i], it);
                    }
                }
            }
            lo = mid + 1;
        }
    }
    proof {
        lemma_placed_at(all, it, lo as int);
        lemma_placed_in_order(all, it, lo as int);
    }
    sorted.insert(lo, x);
    proof {
        assert(sorted.deep_view() =~= all.take(lo as int).push(it) + all.skip(lo as int));
    }
}

fn sort(found: &Vec<ExtractedPackage>) -> (r: Vec<ExtractedPackage>)
    ensures
        r.deep_view() == sorted_of(found.deep_view()),
{
    let ghost all = found.deep_view();
    let mut out: Vec<ExtractedPackage> = Vec::new();
    let mut i: usize = 0;
    proof {
        assert(out.deep_view() =~= seq![]);
    }
    while i < found.len()
        invariant
            i <= found@.len(),
            all == found.deep_view(),
            in_order(out.deep_view()),
            out.deep_view() == sorted_of(all.take(i as int)),
        decreases found@.len() - i,
    {
        proof {
            assert(all.take(i + 1).drop_last() =~= all.take(i as int));
            assert(all.take(i + 1).last() == found@[i as int].deep_view());
        }
        place(&mut out, found[i].copy());
        i += 1;
    }
    proof {
        assert(all.take(i as int) =~= all);
    }
    out
}

/// Resolves the same package seen in more than one file.
///
/// A dependency appears twice: once as a range in `package.json`, once pinned
/// in `package-lock.json`. The lockfile wins, because it says what is actually
/// installed, but the manifest's location is carried forward as `declared`,
/// because that is where the user can act.
pub fn reconcile(found: &Vec<ExtractedPackage>) -> (r: Vec<ExtractedPackage>)
    ensures
        r.deep_view() == reconciled(found.deep_view()),
{
    sort(&keep(found))
}

impl Extraction {
    /// Everything that was found, resolved and in order.
    pub fn finish(self) -> (r: Vec<ExtractedPackage>)
        requires
            self.wf(),
        ensures
            r.deep_view() == extracted(self.deep_view()),
    {
        let ghost v = self.deep_view();
        let seen = Workspace { manifests: self.manifests, lock_dirs: self.lock_dirs };
        let ghost w = seen.deep_view();
        let locks = self.locks;
        let mut found = self.sightings;
        let mut i: usize = 0;
        proof {
            assert(v.sightings + locked_packages(v.locks.take(0), w) =~= v.sightings);
        }
        while i < locks.len()
            invariant
                i <= locks@.len(),
                forall|k: int| 0 <= k < locks@.len() ==> (#[trigger] locks@[k]).lock.wf(),
                v.locks == locks.deep_view(),
                w == seen.deep_view(),
                found.deep_view() == v.sightings + locked_packages(v.locks.take(i as int), w),
            decreases locks@.len() - i,
        {
            proof {
                assert(v.locks.take(i + 1).drop_last() =~= v.locks.take(i as int));
                assert(v.locks.take(i + 1).last() == locks@[i as int].deep_view());
            }
            let ghost before = found.deep_view();
            let more = locked(&locks[i], &seen);
            let ghost m = more.deep_view();
            append_sightings(&mut found, more);
            proof {
                assert(before + m =~= v.sightings + (locked_packages(v.locks.take(i as int), w)
                    + m));
            }
            i += 1;
        }
        proof {
            assert(v.locks.take(i as int) =~= v.locks);
        }
        let theirs = keep_foreign(&found, &self.own);
        reconcile(&theirs)
    }
}

// ---- where a version is written ----

/// Whether a sighting is of a package.
pub open spec fn is_named(s: ExtractedView, key: KeyView) -> bool {
    s.package.key == key
}

/// The first sighting of a package that is at a place.
pub open spec fn named_at(found: Seq<ExtractedView>, key: KeyView, range: Range) -> Option<
    ExtractedView,
>
    decreases found.len(),
{
    if found.len() == 0 {
        None
    } else if is_named(found[0], key) && found[0].evidence.range == range {
        Some(found[0])
    } else {
        named_at(found.skip(1), key, range)
    }
}

/// The sightings of a package.
pub open spec fn all_named(found: Seq<ExtractedView>, key: KeyView) -> Seq<ExtractedView>
    decreases found.len(),
{
    if found.len() == 0 {
        seq![]
    } else if is_named(found.last(), key) {
        all_named(found.drop_last(), key).push(found.last())
    } else {
        all_named(found.drop_last(), key)
    }
}

/// Where a finding's version is written in text just parsed: at the place the
/// finding is anchored on, else at the only declaration of the package.
pub open spec fn version_span_of(found: Seq<ExtractedView>, finding: FindingView) -> Option<Range> {
    let key = finding.package.key;
    match named_at(found, key, anchor_of(finding).range) {
        Some(s) => s.version_span,
        None => if all_named(found, key).len() == 1 {
            all_named(found, key)[0].version_span
        } else {
            None
        },
    }
}

/// Where this finding's version is written in the text just parsed.
///
/// The finding's anchor was produced by the same parser over the file on disk,
/// so an untouched buffer matches it exactly. Once the buffer has been edited
/// the positions no longer line up, and the package name is all that is left to
/// go on: accepted only when it names one declaration, since picking between
/// `dependencies` and `devDependencies` by guesswork would edit the wrong one.
pub fn version_span(found: &Vec<ExtractedPackage>, finding: &Finding) -> (r: Option<Range>)
    ensures
        r == version_span_of(found.deep_view(), finding.deep_view()),
{
    let ghost all = found.deep_view();
    let ghost key = finding.deep_view().package.key;
    let anchor = finding.anchor_site().range;
    let mut i: usize = 0;
    let mut count: usize = 0;
    let mut only: usize = 0;
    proof {
        assert(all.skip(0) =~= all);
    }
    while i < found.len()
        invariant
            i <= found@.len(),
            all == found.deep_view(),
            key == finding.deep_view().package.key,
            anchor == anchor_of(finding.deep_view()).range,
            named_at(all, key, anchor) == named_at(all.skip(i as int), key, anchor),
            count == all_named(all.take(i as int), key).len(),
            count <= i,
            count > 0 ==> only < found@.len() && all_named(all.take(i as int), key)[0]
                == found@[only as int].deep_view(),
        decreases found@.len() - i,
    {
        let s = &found[i];
        proof {
            assert(all.skip(i as int)[0] == s.deep_view());
            assert(all.skip(i as int).skip(1) =~= all.skip(i + 1));
            assert(all.take(i + 1).drop_last() =~= all.take(i as int));
            assert(all.take(i + 1).last() == s.deep_view());
        }
        if s.package.key.equals(&finding.package.key) {
            if s.evidence.range == anchor {
                return s.version_span;
            }
            if count == 0 {
                only = i;
            }
            count += 1;
        }
        i += 1;
    }
    proof {
        assert(all.take(i as int) =~= all);
    }
    if count == 1 {
        found[only].version_span
    } else {
        None
    }
}

// ---- laws ----

spec fn none_superseded(all: Seq<ExtractedView>, kept: Seq<ExtractedView>) -> bool {
    forall|i: int| 0 <= i < kept.len() ==> !superseded(all, #[trigger] kept[i])
}

pub open spec fn apart(kept: Seq<ExtractedView>) -> bool {
    forall|i: int, j: int|
        0 <= i < j < kept.len() ==> !same_place(#[trigger] kept[i], #[trigger] kept[j])
}

pub proof fn lemma_place(kept: Seq<ExtractedView>, s: ExtractedView)
    ensures
        match place_of(kept, s) {
            Some(i) => i < kept.len() && same_place(kept[i as int], s),
            None => forall|i: int| 0 <= i < kept.len() ==> !same_place(#[trigger] kept[i], s),
        },
    decreases kept.len(),
{
    if kept.len() > 0 {
        lemma_place(kept.drop_last(), s);
        if place_of(kept, s) is None {
            assert forall|i: int| 0 <= i < kept.len() implies !same_place(
                #[trigger] kept[i],
                s,
            ) by {
                if i < kept.len() - 1 {
                    assert(kept[i] == kept.drop_last()[i]);
                }
            }
        }
    }
}

spec fn listed(kept: Seq<ExtractedView>, s: ExtractedView) -> bool {
    exists|i: int| 0 <= i < kept.len() && same_place(#[trigger] kept[i], s)
}

proof fn lemma_kept(all: Seq<ExtractedView>, found: Seq<ExtractedView>)
    ensures
        none_superseded(all, kept_of(all, found)),
        apart(kept_of(all, found)),
        forall|k: int|
            0 <= k < found.len() && !superseded(all, #[trigger] found[k]) ==> listed(
                kept_of(all, found),
                found[k],
            ),
    decreases found.len(),
{
    if found.len() > 0 {
        let front = found.drop_last();
        let s = found.last();
        lemma_kept(all, front);
        let kept = kept_of(all, front);
        let out = kept_of(all, found);
        lemma_place(kept, s);
        assert forall|i: int| 0 <= i < kept.len() implies {
            &&& (#[trigger] out[i]).package == kept[i].package
            &&& out[i].evidence == kept[i].evidence
            &&& out[i].from_range == kept[i].from_range
        } by {}
        assert forall|i: int| 0 <= i < out.len() implies !superseded(all, #[trigger] out[i]) by {
            if i < kept.len() {
                assert(!superseded(all, kept[i]));
            }
        }
        assert forall|i: int, j: int| 0 <= i < j < out.len() implies !same_place(
            #[trigger] out[i],
            #[trigger] out[j],
        ) by {
            if j < kept.len() {
                assert(!same_place(kept[i], kept[j]));
            } else {
                assert(!same_place(kept[i], s));
            }
        }
        assert forall|k: int|
            0 <= k < found.len() && !superseded(all, #[trigger] found[k]) implies listed(
            out,
            found[k],
        ) by {
            if k < front.len() {
                assert(front[k] == found[k]);
                assert(listed(kept, front[k]));
                let i = choose|i: int| 0 <= i < kept.len() && same_place(#[trigger] kept[i], front[k]);
                assert(same_place(out[i], found[k]));
            } else {
                match place_of(kept, s) {
                    Some(i) => {
                        assert(same_place(out[i as int], s));
                    },
                    None => {
                        assert(same_place(out[kept.len() as int], s));
                    },
                }
            }
        }
    }
}

proof fn lemma_placed_apart(sorted: Seq<ExtractedView>, x: ExtractedView)
    ensures
        forall|i: int|
            0 <= i < placed(sorted, x).len() ==> (#[trigger] placed(sorted, x)[i] == x
                || sorted.contains(placed(sorted, x)[i])),
        placed(sorted, x).contains(x),
        forall|k: int|
            0 <= k < sorted.len() ==> placed(sorted, x).contains(#[trigger] sorted[k]),
        apart(sorted) && (forall|k: int|
            0 <= k < sorted.len() ==> !same_place(#[trigger] sorted[k], x)) ==> apart(
            placed(sorted, x),
        ),
    decreases sorted.len(),
{
    let out = placed(sorted, x);
    if sorted.len() > 0 && sight_order(x, sorted.last()) == Order::Less {
        let front = sorted.drop_last();
        lemma_placed_apart(front, x);
        let p = placed(front, x);
        assert forall|i: int| 0 <= i < out.len() implies (#[trigger] out[i] == x
            || sorted.contains(out[i])) by {
            if i < p.len() {
                assert(out[i] == p[i]);
                if p[i] != x {
                    assert(front.contains(p[i]));
                    let k = choose|k: int| 0 <= k < front.len() && front[k] == p[i];
                    assert(sorted[k] == out[i]);
                }
            } else {
                assert(sorted[sorted.len() - 1] == out[i]);
            }
        }
        let at = choose|at: int| 0 <= at < p.len() && p[at] == x;
        assert(out[at] == x);
        assert forall|k: int| 0 <= k < sorted.len() implies out.contains(#[trigger] sorted[k]) by {
            if k < front.len() {
                assert(front[k] == sorted[k]);
                assert(p.contains(front[k]));
                let q = choose|q: int| 0 <= q < p.len() && p[q] == front[k];
                assert(out[q] == sorted[k]);
            } else {
                assert(out[p.len() as int] == sorted[k]);
            }
        }
        if apart(sorted) && (forall|k: int|
            0 <= k < sorted.len() ==> !same_place(#[trigger] sorted[k], x)) {
            assert(apart(front)) by {
                assert forall|i: int, j: int| 0 <= i < j < front.len() implies !same_place(
                    #[trigger] front[i],
                    #[trigger] front[j],
                ) by {
                    assert(front[i] == sorted[i] && front[j] == sorted[j]);
                }
            }
            assert forall|k: int| 0 <= k < front.len() implies !same_place(
                #[trigger] front[k],
                x,
            ) by {
                assert(front[k] == sorted[k]);
            }
            assert forall|i: int, j: int| 0 <= i < j < out.len() implies !same_place(
                #[trigger] out[i],
                #[trigger] out[j],
            ) by {
                if j < p.len() {
                    assert(out[i] == p[i] && out[j] == p[j]);
                } else {
                    assert(out[i] == p[i] && out[j] == sorted[sorted.len() - 1]);
                    if p[i] == x {
                        assert(!same_place(sorted[sorted.len() - 1], x));
                    } else {
                        assert(front.contains(p[i]));
                        let k = choose|k: int| 0 <= k < front.len() && front[k] == p[i];
                        assert(sorted[k] == p[i]);
                    }
                }
            }
        }
    } else {
        assert(out[sorted.len() as int] == x);
        assert forall|i: int| 0 <= i < out.len() implies (#[trigger] out[i] == x
            || sorted.contains(out[i])) by {
            if i < sorted.len() {
                assert(sorted[i] == out[i]);
            }
        }
        assert forall|k: int| 0 <= k < sorted.len() implies out.contains(#[trigger] sorted[k]) by {
            assert(out[k] == sorted[k]);
        }
        if apart(sorted) && (forall|k: int|
            0 <= k < sorted.len() ==> !same_place(#[trigger] sorted[k], x)) {
            assert forall|i: int, j: int| 0 <= i < j < out.len() implies !same_place(
                #[trigger] out[i],
                #[trigger] out[j],
            ) by {
                assert(out[i] == sorted[i]);
                if j < sorted.len() {
                    assert(out[j] == sorted[j]);
                }
            }
        }
    }
}

#[verifier::rlimit(40)]
#[verifier::spinoff_prover]
pub proof fn lemma_sorted(v: Seq<ExtractedView>)
    ensures
        forall|i: int| 0 <= i < sorted_of(v).len() ==> v.contains(#[trigger] sorted_of(v)[i]),
        forall|k: int| 0 <= k < v.len() ==> sorted_of(v).contains(#[trigger] v[k]),
        apart(v) ==> apart(sorted_of(v)),
        in_order(sorted_of(v)),
    decreases v.len(),
{
    if v.len() > 0 {
        let front = v.drop_last();
        let x = v.last();
        lemma_sorted(front);
        let s = sorted_of(front);
        let out = sorted_of(v);
        lemma_placed_apart(s, x);
        lemma_place_ordered(s, x);
        assert forall|i: int| 0 <= i < out.len() implies v.contains(#[trigger] out[i]) by {
            if out[i] == x {
                assert(v[v.len() - 1] == x);
            } else {
                assert(s.contains(out[i]));
                let k = choose|k: int| 0 <= k < s.len() && s[k] == out[i];
                assert(front.contains(s[k]));
                let m = choose|m: int| 0 <= m < front.len() && front[m] == s[k];
                assert(v[m] == out[i]);
            }
        }
        assert forall|k: int| 0 <= k < v.len() implies out.contains(#[trigger] v[k]) by {
            if k < front.len() {
                assert(front[k] == v[k]);
                assert(s.contains(front[k]));
                let m = choose|m: int| 0 <= m < s.len() && s[m] == front[k];
                assert(out.contains(s[m]));
            }
        }
        if apart(v) {
            assert(apart(front)) by {
                assert forall|i: int, j: int| 0 <= i < j < front.len() implies !same_place(
                    #[trigger] front[i],
                    #[trigger] front[j],
                ) by {
                    assert(front[i] == v[i] && front[j] == v[j]);
                }
            }
            assert forall|k: int| 0 <= k < s.len() implies !same_place(#[trigger] s[k], x) by {
                assert(front.contains(s[k]));
                let m = choose|m: int| 0 <= m < front.len() && front[m] == s[k];
                assert(v[m] == s[k]);
                assert(v[v.len() - 1] == x);
            }
        }
    }
}

proof fn lemma_place_ordered(sorted: Seq<ExtractedView>, x: ExtractedView)
    requires
        in_order(sorted),
    ensures
        in_order(placed(sorted, x)),
    decreases sorted.len(),
{
    let p = first_after(sorted, x, sorted.len() as int);
    lemma_first_after(sorted, x, sorted.len() as int);
    lemma_placed_at(sorted, x, p);
    assert forall|i: int| 0 <= i < p implies sight_order(x, #[trigger] sorted[i]) != Order::Less by {
        if i < p - 1 {
            lemma_order(x, sorted[p - 1], sorted[i]);
            lemma_order(sorted[i], sorted[p - 1], x);
            lemma_order(x, sorted[i], x);
            lemma_order(sorted[p - 1], sorted[i], x);
        }
    }
    lemma_placed_in_order(sorted, x, p);
}

/// Where the end of a list begins that an item comes before all of.
spec fn first_after(sorted: Seq<ExtractedView>, x: ExtractedView, n: int) -> int
    decreases n,
{
    if n <= 0 || sight_order(x, sorted[n - 1]) != Order::Less {
        n
    } else {
        first_after(sorted, x, n - 1)
    }
}

proof fn lemma_first_after(sorted: Seq<ExtractedView>, x: ExtractedView, n: int)
    requires
        0 <= n <= sorted.len(),
    ensures
        ({
            let p = first_after(sorted, x, n);
            &&& 0 <= p <= n
            &&& p > 0 ==> sight_order(x, sorted[p - 1]) != Order::Less
            &&& forall|i: int| p <= i < n ==> sight_order(x, #[trigger] sorted[i]) == Order::Less
        }),
    decreases n,
{
    if n > 0 && sight_order(x, sorted[n - 1]) == Order::Less {
        lemma_first_after(sorted, x, n - 1);
    }
}

/// A lockfile supersedes the range in a manifest, also one in a directory
/// below: no such range is reported.
pub proof fn no_superseded_range_is_reported(found: Seq<ExtractedView>, i: int)
    requires
        0 <= i < reconciled(found).len(),
    ensures
        !superseded(found, reconciled(found)[i]),
{
    let kept = kept_of(found, found);
    lemma_kept(found, found);
    lemma_sorted(kept);
    assert(kept.contains(sorted_of(kept)[i]));
    let k = choose|k: int| 0 <= k < kept.len() && kept[k] == sorted_of(kept)[i];
    assert(!superseded(found, kept[k]));
}

/// A package at a version is reported once for a directory.
pub proof fn a_package_is_reported_once(found: Seq<ExtractedView>, i: int, j: int)
    requires
        0 <= i < j < reconciled(found).len(),
    ensures
        !same_place(reconciled(found)[i], reconciled(found)[j]),
{
    let kept = kept_of(found, found);
    lemma_kept(found, found);
    lemma_sorted(kept);
    let out = sorted_of(kept);
    assert(apart(out));
    assert(!same_place(out[i], out[j]));
}

/// Nothing is lost: whatever no lockfile supersedes is reported for its
/// directory.
pub proof fn everything_else_is_reported(found: Seq<ExtractedView>, k: int) -> (i: int)
    requires
        0 <= k < found.len(),
        !superseded(found, found[k]),
    ensures
        0 <= i < reconciled(found).len(),
        same_place(reconciled(found)[i], found[k]),
{
    let kept = kept_of(found, found);
    lemma_kept(found, found);
    lemma_sorted(kept);
    assert(listed(kept, found[k]));
    let m = choose|m: int| 0 <= m < kept.len() && same_place(#[trigger] kept[m], found[k]);
    assert(sorted_of(kept).contains(kept[m]));
    choose|i: int| 0 <= i < sorted_of(kept).len() && sorted_of(kept)[i] == kept[m]
}

/// The report is in order, so that an unchanged tree publishes an unchanged
/// one.
pub proof fn the_report_is_in_order(found: Seq<ExtractedView>)
    ensures
        in_order(reconciled(found)),
{
    lemma_sorted(kept_of(found, found));
}

/// A file that others name is given once at most, so that files that name each
/// other in a circle are read once each.
pub proof fn a_target_is_given_once(s: ExtractionView)
    ensures
        next_of(s).0 is Some ==> !s.visited.contains(next_of(s).0->Some_0)
            && next_of(s).1.visited.contains(next_of(s).0->Some_0),
    decreases s.targets.len(),
{
    if s.targets.len() > 0 {
        let path = s.targets.last();
        let left = ExtractionView { targets: s.targets.drop_last(), ..s };
        if s.visited.contains(path) {
            a_target_is_given_once(left);
        } else {
            assert(s.visited.push(path)[s.visited.len() as int] == path);
        }
    }
}

/// A version is only ever rewritten where a sighting of the same package says
/// it is written.
pub proof fn a_version_span_is_of_the_package(found: Seq<ExtractedView>, finding: FindingView)
    ensures
        version_span_of(found, finding) is Some ==> exists|i: int|
            0 <= i < found.len() && (#[trigger] found[i]).package.key == finding.package.key
                && found[i].version_span == version_span_of(found, finding),
{
    let key = finding.package.key;
    let range = anchor_of(finding).range;
    lemma_named_at(found, key, range);
    if named_at(found, key, range) is None && all_named(found, key).len() == 1 {
        lemma_all_named(found, key);
        let only = all_named(found, key)[0];
        assert(found.contains(only));
        let i = choose|i: int| 0 <= i < found.len() && found[i] == only;
        assert(found[i].package.key == key);
    }
}

proof fn lemma_named_at(found: Seq<ExtractedView>, key: KeyView, range: Range)
    ensures
        named_at(found, key, range) matches Some(s) ==> exists|i: int|
            0 <= i < found.len() && #[trigger] found[i] == s && s.package.key == key,
    decreases found.len(),
{
    if found.len() > 0 {
        if !(is_named(found[0], key) && found[0].evidence.range == range) {
            lemma_named_at(found.skip(1), key, range);
            if let Some(s) = named_at(found, key, range) {
                let i = choose|i: int|
                    0 <= i < found.skip(1).len() && #[trigger] found.skip(1)[i] == s;
                assert(found[i + 1] == s);
            }
        }
    }
}

proof fn lemma_all_named(found: Seq<ExtractedView>, key: KeyView)
    ensures
        forall|i: int|
            0 <= i < all_named(found, key).len() ==> is_named(
                #[trigger] all_named(found, key)[i],
                key,
            ) && found.contains(all_named(found, key)[i]),
    decreases found.len(),
{
    if found.len() > 0 {
        let front = found.drop_last();
        lemma_all_named(front, key);
        let before = all_named(front, key);
        let out = all_named(found, key);
        assert forall|i: int| 0 <= i < out.len() implies is_named(#[trigger] out[i], key)
            && found.contains(out[i]) by {
            if i < before.len() {
                assert(out[i] == before[i]);
                assert(front.contains(before[i]));
                let k = choose|k: int| 0 <= k < front.len() && front[k] == before[i];
                assert(found[k] == out[i]);
            } else {
                assert(found[found.len() - 1] == out[i]);
            }
        }
    }
}

proof fn lemma_kept_are_sightings(all: Seq<ExtractedView>, found: Seq<ExtractedView>, i: int) -> (k:
    int)
    requires
        0 <= i < kept_of(all, found).len(),
    ensures
        0 <= k < found.len(),
        found[k].package == kept_of(all, found)[i].package,
        found[k].evidence == kept_of(all, found)[i].evidence,
        found[k].from_range == kept_of(all, found)[i].from_range,
    decreases found.len(),
{
    let front = found.drop_last();
    let kept = kept_of(all, front);
    lemma_place(kept, found.last());
    if i < kept.len() {
        let k = lemma_kept_are_sightings(all, front, i);
        assert(front[k] == found[k]);
        k
    } else {
        found.len() - 1
    }
}

/// Nothing is made up: what is reported was seen, at that version and in that
/// place.
pub proof fn what_is_reported_was_seen(found: Seq<ExtractedView>, i: int) -> (k: int)
    requires
        0 <= i < reconciled(found).len(),
    ensures
        0 <= k < found.len(),
        found[k].package == reconciled(found)[i].package,
        found[k].evidence == reconciled(found)[i].evidence,
        found[k].from_range == reconciled(found)[i].from_range,
{
    let kept = kept_of(found, found);
    lemma_sorted(kept);
    assert(kept.contains(sorted_of(kept)[i]));
    let j = choose|j: int| 0 <= j < kept.len() && kept[j] == sorted_of(kept)[i];
    lemma_kept_are_sightings(found, found, j)
}

proof fn lemma_foreign(found: Seq<ExtractedView>, own: Seq<OwnView>)
    ensures
        forall|k: int|
            0 <= k < foreign(found, own).len() ==> !is_own(#[trigger] foreign(found, own)[k], own),
    decreases found.len(),
{
    if found.len() > 0 {
        lemma_foreign(found.drop_last(), own);
        let before = foreign(found.drop_last(), own);
        let out = foreign(found, own);
        assert forall|k: int| 0 <= k < out.len() implies !is_own(#[trigger] out[k], own) by {
            if k < before.len() {
                assert(out[k] == before[k]);
            }
        }
    }
}

/// A crate is not a dependency of itself: no extraction reports the crate that
/// a `Cargo.toml` names, in that directory.
pub proof fn a_crate_is_not_its_own_dependency(s: ExtractionView, i: int)
    requires
        0 <= i < extracted(s).len(),
    ensures
        !is_own(extracted(s)[i], s.own),
{
    let seen = WorkspaceView { manifests: s.manifests, lock_dirs: s.lock_dirs };
    let found = foreign(s.sightings + locked_packages(s.locks, seen), s.own);
    lemma_foreign(s.sightings + locked_packages(s.locks, seen), s.own);
    let k = what_is_reported_was_seen(found, i);
    assert(!is_own(found[k], s.own));
}

} // verus!
