//! The manifest parsers, each with its spans.
//!
//! Each function is pure: source text and a path in, sightings out, no
//! filesystem. A file that will not parse yields nothing rather than an error:
//! a manifest caught mid-save is a normal event in an editor, not a failure.
use crate::model::{
    Ecosystem, ExtractedPackage, ExtractedView, KeyView, Package, PackageView, Range, Site,
    SiteView,
};
use crate::span::{range_of, LineIndex};
use crate::text::{
    before, byte_len, clamp, find_class, first_of, leading, lemma_first_of_is, part, trim_of,
    utf8_len, Class,
};
use vstd::prelude::*;

pub mod cargo;
pub mod go;
pub mod laws;
pub mod npm;
pub mod python;
pub mod spans;

verus! {

/// A stretch of a file, by where it starts and how long it is in bytes.
pub open spec fn span_at(bytes: Seq<u8>, start: int, len: int) -> Range {
    range_of(bytes, clamp(start), clamp(start + len))
}

pub fn span(lines: &LineIndex, start: usize, len: usize) -> (r: Range)
    requires
        lines.wf(),
    ensures
        r == range_of(lines.bytes@, start as int, clamp(start + len)),
{
    lines.range(start, start.saturating_add(len))
}

/// What a parser says of one package it saw.
pub open spec fn seen(
    ecosystem: Ecosystem,
    name: Seq<char>,
    version: Seq<char>,
    path: Seq<char>,
    range: Range,
    dep_groups: Seq<Seq<char>>,
    from_range: bool,
) -> ExtractedView {
    ExtractedView {
        package: PackageView { key: KeyView { ecosystem, name }, version },
        evidence: SiteView { path, range },
        declared: None,
        dep_groups,
        from_range,
        version_span: None,
        paths: seq![],
    }
}

pub fn sighting(
    ecosystem: Ecosystem,
    name: &str,
    version: &str,
    path: &str,
    range: Range,
    dep_groups: Vec<String>,
    from_range: bool,
) -> (r: ExtractedPackage)
    ensures
        r.deep_view() == seen(
            ecosystem,
            name@,
            version@,
            path@,
            range,
            dep_groups.deep_view(),
            from_range,
        ),
{
    let r = ExtractedPackage {
        package: Package::new(ecosystem, name, version),
        evidence: Site::new(path, range),
        declared: None,
        dep_groups,
        from_range,
        // Set by `with_version_span` where the version can be rewritten.
        version_span: None,
        // Set from the graph. A parser sees one file and cannot know what
        // reaches a package.
        paths: Vec::new(),
    };
    proof {
        assert(r.paths.deep_view() =~= seq![]);
    }
    r
}

/// The packages that sightings are of.
pub open spec fn keys_of(found: Seq<ExtractedView>) -> Seq<KeyView> {
    Seq::new(found.len(), |i: int| found[i].package.key)
}

/// The first sighting of each package.
pub open spec fn first_of_each(found: Seq<ExtractedView>) -> Seq<ExtractedView>
    decreases found.len(),
{
    if found.len() == 0 {
        seq![]
    } else {
        let kept = first_of_each(found.drop_last());
        if keys_of(kept).contains(found.last().package.key) {
            kept
        } else {
            kept.push(found.last())
        }
    }
}

/// Nothing is listed twice, everything listed was seen, and every package that
/// was seen is listed.
pub proof fn first_of_each_lists_each_once(found: Seq<ExtractedView>)
    ensures
        keys_of(first_of_each(found)).no_duplicates(),
        forall|i: int|
            0 <= i < first_of_each(found).len() ==> found.contains(
                #[trigger] first_of_each(found)[i],
            ),
        forall|i: int|
            0 <= i < found.len() ==> keys_of(first_of_each(found)).contains(
                (#[trigger] found[i]).package.key,
            ),
    decreases found.len(),
{
    if found.len() > 0 {
        let front = found.drop_last();
        first_of_each_lists_each_once(front);
        let kept = first_of_each(front);
        let out = first_of_each(found);
        assert forall|i: int| 0 <= i < out.len() implies found.contains(#[trigger] out[i]) by {
            if i < kept.len() {
                assert(out[i] == kept[i]);
                assert(front.contains(kept[i]));
                let k = choose|k: int| 0 <= k < front.len() && front[k] == kept[i];
                assert(found[k] == out[i]);
            } else {
                assert(found[found.len() - 1] == out[i]);
            }
        }
        assert forall|k: KeyView| keys_of(kept).contains(k) implies keys_of(out).contains(k) by {
            let i = choose|i: int| 0 <= i < keys_of(kept).len() && keys_of(kept)[i] == k;
            assert(keys_of(out)[i] == k);
        }
        assert forall|i: int| 0 <= i < found.len() implies keys_of(out).contains(
            (#[trigger] found[i]).package.key,
        ) by {
            if i < front.len() {
                assert(found[i] == front[i]);
            } else if out.len() > kept.len() {
                assert(keys_of(out)[kept.len() as int] == found[i].package.key);
            }
        }
        assert(keys_of(out).no_duplicates()) by {
            if out.len() > kept.len() {
                assert(keys_of(out) =~= keys_of(kept).push(found.last().package.key));
            }
        }
    }
}

/// Keeps the first sighting of each package, so that a package declared in
/// several sections is attributed to the one that ships. Callers emit sections
/// in preference order.
pub fn first_per_name(found: Vec<ExtractedPackage>) -> (r: Vec<ExtractedPackage>)
    ensures
        r.deep_view() == first_of_each(found.deep_view()),
{
    let ghost all = found.deep_view();
    let mut out: Vec<ExtractedPackage> = Vec::new();
    let mut i: usize = 0;
    proof {
        assert(out.deep_view() =~= seq![]);
    }
    while i < found.len()
        invariant
            i <= found@.len(),
            all == found.deep_view(),
            out.deep_view() == first_of_each(all.take(i as int)),
        decreases found@.len() - i,
    {
        let ghost kept = out.deep_view();
        proof {
            assert(all.take(i + 1).drop_last() =~= all.take(i as int));
            assert(all.take(i + 1).last() == found@[i as int].deep_view());
        }
        let key = &found[i].package.key;
        let mut known = false;
        let mut j: usize = 0;
        while j < out.len()
            invariant
                j <= out@.len(),
                kept == out.deep_view(),
                known == keys_of(kept).take(j as int).contains(key.deep_view()),
            decreases out@.len() - j,
        {
            proof {
                let x = keys_of(kept).take(j as int);
                let y = keys_of(kept).take(j + 1);
                assert(y =~= x.push(out@[j as int].package.key.deep_view()));
                if x.contains(key.deep_view()) {
                    let k = choose|k: int| 0 <= k < x.len() && x[k] == key.deep_view();
                    assert(y[k] == key.deep_view());
                }
                assert(y[j as int] == out@[j as int].package.key.deep_view());
            }
            if out[j].package.key.equals(key) {
                known = true;
            }
            j += 1;
        }
        proof {
            assert(keys_of(kept).take(j as int) =~= keys_of(kept));
        }
        if !known {
            out.push(found[i].copy());
            proof {
                assert(out.deep_view() =~= kept.push(all[i as int]));
            }
        }
        i += 1;
    }
    proof {
        assert(all.take(i as int) =~= all);
    }
    out
}

/// A version within a constraint, and the bytes it stands in.
pub struct LowestView {
    pub version: Seq<char>,
    pub start: nat,
    pub end: nat,
}

/// Where in a constraint the first version stands that is no upper bound.
/// Only operators may come before the digits, and a comma or blanks between one
/// bound and the next.
pub open spec fn lowest_place(body: Seq<char>, from: nat) -> Option<nat>
    decreases body.len() - from,
{
    if from >= body.len() {
        None
    } else {
        let rest = body.skip(from as int);
        match first_of(rest, Class::Digit) {
            None => None,
            Some(n) => {
                let operator = rest.take(n as int);
                let end = from + n + before(rest.skip(n as int), Class::NotSpelling).len();
                let next = if end < body.len() && body[end as int] == ',' {
                    end + 1
                } else {
                    end
                };
                if first_of(operator, Class::NotOperator) is Some {
                    None
                } else if first_of(operator, Class::One('<')) is None {
                    Some(from + n)
                } else if next <= from || next > body.len() {
                    None
                } else {
                    lowest_place(body, next)
                }
            },
        }
    }
}

/// The lowest version a constraint admits, and its byte span within it. Of an
/// exclusive lower bound that is the bound.
///
/// A constraint that names a protocol or a path is no version at all, and only
/// operators may come before the digits: `>=1.2.3` is a range, `node16` is
/// not a version. An upper bound alone names no lowest version. The span
/// covers the version alone.
pub open spec fn lowest_of(constraint: Seq<char>) -> Option<LowestView> {
    let lead = leading(constraint, Class::Space) as int;
    let body = trim_of(constraint, Class::Space);
    if first_of(body, Class::One(':')) is Some || first_of(body, Class::One('/')) is Some {
        None
    } else {
        match lowest_place(body, 0) {
            None => None,
            Some(start) => {
                let version = before(body.skip(start as int), Class::NotSpelling);
                let at = utf8_len(constraint.take(lead)) + utf8_len(body.take(start as int));
                Some(LowestView { version, start: at, end: at + utf8_len(version) })
            },
        }
    }
}

/// The version at a place starts with a digit and ends where it no longer is
/// spelled.
pub proof fn lemma_lowest_place(body: Seq<char>, from: nat)
    ensures
        lowest_place(body, from) matches Some(start) ==> from <= start < body.len()
            && Class::Digit.has(body[start as int]),
    decreases body.len() - from,
{
    if from < body.len() {
        let rest = body.skip(from as int);
        lemma_first_of_is(rest, Class::Digit);
        if let Some(n) = first_of(rest, Class::Digit) {
            assert(rest[n as int] == body[(from + n) as int]);
            lemma_first_of_is(rest.skip(n as int), Class::NotSpelling);
            let end = from + n + before(rest.skip(n as int), Class::NotSpelling).len();
            let next = if end < body.len() && body[end as int] == ',' {
                end + 1
            } else {
                end
            };
            if from < next <= body.len() {
                lemma_lowest_place(body, next);
            }
        }
    }
}

fn find_lowest(body: &[char]) -> (r: Option<usize>)
    ensures
        match r {
            Some(start) => lowest_place(body@, 0) == Some(start as nat) && start < body@.len(),
            None => lowest_place(body@, 0) is None,
        },
{
    let len: usize = body.len();
    let mut from: usize = 0;
    while from < len
        invariant
            len == body@.len(),
            from <= len,
            lowest_place(body@, 0) == lowest_place(body@, from as nat),
        decreases len - from,
    {
        let rest = part(body, from, len);
        proof {
            assert(rest@ =~= body@.skip(from as int));
            lemma_first_of_is(rest@, Class::Digit);
        }
        let n: usize = match find_class(rest, Class::Digit) {
            Some(n) => n,
            None => return None,
        };
        let operator = part(rest, 0, n);
        let tail = part(rest, n, rest.len());
        proof {
            assert(operator@ =~= rest@.take(n as int));
            assert(tail@ =~= rest@.skip(n as int));
            lemma_first_of_is(tail@, Class::NotSpelling);
            assert(tail@[0] == rest@[n as int]);
        }
        if find_class(operator, Class::NotOperator).is_some() {
            return None;
        }
        if find_class(operator, Class::One('<')).is_none() {
            return Some(from + n);
        }
        let end: usize = from + n + crate::text::up_to(tail, Class::NotSpelling).len();
        from = if end < len && body[end] == ',' { end + 1 } else { end };
    }
    None
}

/// The lowest version a constraint admits, which is what is scanned when there
/// is no lockfile to say what is installed, and its byte span within the
/// constraint. Nothing for an upper bound alone, which admits no lowest version
/// that it names.
///
/// The span covers the digits alone. Leaving the operator out is what lets
/// `>=1.0.0 <2.0.0` be bumped to `>=1.4.0 <2.0.0` rather than losing its upper
/// bound, and means no operator ever has to be reconstructed.
pub fn lowest_satisfying(constraint: &[char]) -> (r: Option<(Vec<char>, usize, usize)>)
    ensures
        match r {
            Some(l) => lowest_of(constraint@) is Some && l.0@ == lowest_of(constraint@)->Some_0.version
                && l.1 == clamp(lowest_of(constraint@)->Some_0.start as int) && l.2 == clamp(
                lowest_of(constraint@)->Some_0.end as int,
            ),
            None => lowest_of(constraint@) is None,
        },
{
    let lead: usize = crate::text::count_leading(constraint, Class::Space);
    let body = crate::text::trim(constraint, Class::Space);
    if find_class(body, Class::One(':')).is_some() || find_class(body, Class::One('/')).is_some() {
        return None;
    }
    let start: usize = match find_lowest(body) {
        Some(start) => start,
        None => return None,
    };
    let front = part(body, 0, start);
    proof {
        assert(front@ =~= body@.take(start as int));
        assert(body@.subrange(start as int, body@.len() as int) =~= body@.skip(start as int));
        assert(constraint@.subrange(0, lead as int) =~= constraint@.take(lead as int));
    }
    let version = crate::text::up_to(part(body, start, body.len()), Class::NotSpelling);
    let at: usize = byte_len(part(constraint, 0, lead)).saturating_add(byte_len(front));
    let end: usize = at.saturating_add(byte_len(version));
    Some((vstd::slice::slice_to_vec(version), at, end))
}

} // verus!
