//! The order npm, Go and crates.io versions share.
use crate::order::{
    chain, coherent, compare_components, compare_fields, fields_order, flip, ordering_of,
    padded_order, significant, Order,
};
use crate::text::{
    before, chars, count_leading, leading, part, split, split_of, string, texts, trim_start, up_to,
    Class,
};
use core::cmp::Ordering;
use vstd::prelude::*;

verus! {

/// How many numeric components a version has; any further ones are build text.
pub const COMPONENTS: usize = 3;

/// A version read leniently: numbers between dots, then whatever follows.
#[derive(Clone, Debug)]
pub struct SemverLike {
    pub components: Vec<String>,
    pub build: String,
}

/// What a [`SemverLike`] says.
pub struct SemverView {
    pub components: Seq<Seq<char>>,
    pub build: Seq<char>,
}

impl DeepView for SemverLike {
    type V = SemverView;

    open spec fn deep_view(&self) -> SemverView {
        SemverView { components: self.components.deep_view(), build: self.build@ }
    }
}

/// The pieces that hold anything.
pub open spec fn nonempty(pieces: Seq<Seq<char>>) -> Seq<Seq<char>>
    decreases pieces.len(),
{
    if pieces.len() == 0 {
        seq![]
    } else if pieces.last().len() > 0 {
        nonempty(pieces.drop_last()).push(pieces.last())
    } else {
        nonempty(pieces.drop_last())
    }
}

/// A number without its leading zeros, and at least one digit.
pub open spec fn canonical(digits: Seq<char>) -> Seq<char> {
    if significant(digits).len() == 0 {
        seq!['0']
    } else {
        significant(digits)
    }
}

/// Components written out behind a build text, a dot before each.
pub open spec fn dotted(build: Seq<char>, extra: Seq<Seq<char>>) -> Seq<char>
    decreases extra.len(),
{
    if extra.len() == 0 {
        build
    } else {
        dotted(build, extra.drop_last()) + "."@ + canonical(extra.last())
    }
}

/// A version: after an optional `v`, the digits and dots at the start give the
/// components and the rest is the build text.
///
/// A dot that no number follows belongs to the build text, a `v` that no
/// number follows does too, and so do the components past the third.
pub open spec fn semver_of(s: Seq<char>) -> SemverView {
    let leading_v = s.len() > 0 && s[0] == 'v';
    let body = if leading_v { s.skip(1) } else { s };
    let n = leading(body, Class::Numeric) as int;
    let head = body.take(n);
    let found = nonempty(split_of(head, Class::One('.')));
    let dot = if n > 0 && head[n - 1] == '.' { "."@ } else { ""@ };
    let v = if found.len() == 0 && leading_v { "v"@ } else { ""@ };
    let build = v + (dot + body.skip(n));
    if found.len() <= COMPONENTS {
        SemverView { components: found, build }
    } else {
        SemverView {
            components: found.take(COMPONENTS as int),
            build: dotted(build, found.skip(COMPONENTS as int)),
        }
    }
}

/// The part of a build text that orders: metadata after `+` does not count,
/// and neither does the hyphen that introduces a prerelease.
pub open spec fn prerelease(build: Seq<char>) -> Seq<char> {
    let kept = before(build, Class::One('+'));
    if kept.len() > 0 && kept[0] == '-' {
        kept.skip(1)
    } else {
        kept
    }
}

/// Build texts: none at all is the release, which is above every prerelease.
pub open spec fn build_order(a: Seq<char>, b: Seq<char>) -> Order {
    let (a, b) = (prerelease(a), prerelease(b));
    if a.len() == 0 && b.len() > 0 {
        Order::Greater
    } else if a.len() > 0 && b.len() == 0 {
        Order::Less
    } else {
        fields_order(split_of(a, Class::One('.')), split_of(b, Class::One('.')), true)
    }
}

pub open spec fn semver_order(a: SemverView, b: SemverView) -> Order {
    chain(padded_order(a.components, b.components), build_order(a.build, b.build))
}

pub proof fn lemma_semver_flip(a: SemverView, b: SemverView)
    ensures
        semver_order(b, a) == flip(semver_order(a, b)),
{
    crate::order::lemma_padded_flip(a.components, b.components);
    let (x, y) = (prerelease(a.build), prerelease(b.build));
    crate::order::lemma_fields_flip(
        split_of(x, Class::One('.')),
        split_of(y, Class::One('.')),
        true,
    );
}

pub proof fn lemma_semver_coherent(a: SemverView, b: SemverView, c: SemverView)
    ensures
        coherent(semver_order(a, b), semver_order(b, c), semver_order(a, c)),
{
    crate::order::lemma_padded_coherent(a.components, b.components, c.components);
    let (x, y, z) = (prerelease(a.build), prerelease(b.build), prerelease(c.build));
    crate::order::lemma_fields_coherent(
        split_of(x, Class::One('.')),
        split_of(y, Class::One('.')),
        split_of(z, Class::One('.')),
        true,
    );
    if x.len() == 0 && y.len() == 0 {
        assert(x =~= y);
    }
    if y.len() == 0 && z.len() == 0 {
        assert(y =~= z);
    }
    if x.len() == 0 && z.len() == 0 {
        assert(x =~= z);
    }
    crate::order::lemma_fields_flip(
        split_of(x, Class::One('.')),
        split_of(x, Class::One('.')),
        true,
    );
    crate::order::lemma_fields_flip(
        split_of(y, Class::One('.')),
        split_of(y, Class::One('.')),
        true,
    );
}

/// A release is above every prerelease of the same numbers.
pub proof fn a_prerelease_is_below_its_release(a: SemverView, b: SemverView)
    requires
        padded_order(a.components, b.components) == Order::Equal,
        prerelease(a.build).len() > 0,
        prerelease(b.build).len() == 0,
    ensures
        semver_order(a, b) == Order::Less,
{
}

/// Build metadata never decides: what follows a `+` can be anything.
pub proof fn build_metadata_does_not_order(components: Seq<Seq<char>>, a: Seq<char>, b: Seq<char>)
    requires
        before(a, Class::One('+')) == before(b, Class::One('+')),
    ensures
        semver_order(SemverView { components, build: a }, SemverView { components, build: b })
            == Order::Equal,
{
    crate::order::lemma_padded_flip(components, components);
    let x = split_of(prerelease(a), Class::One('.'));
    crate::order::lemma_fields_flip(x, x, true);
}

fn keep_nonempty(pieces: &Vec<String>) -> (r: Vec<String>)
    ensures
        r.deep_view() == nonempty(pieces.deep_view()),
{
    let ghost all = pieces.deep_view();
    let mut out: Vec<String> = Vec::new();
    let mut i: usize = 0;
    while i < pieces.len()
        invariant
            i <= pieces@.len(),
            all == pieces.deep_view(),
            out.deep_view() == nonempty(all.take(i as int)),
        decreases pieces@.len() - i,
    {
        let ghost kept = out.deep_view();
        proof {
            assert(all.take(i + 1).drop_last() =~= all.take(i as int));
            assert(all.take(i + 1).last() == pieces@[i as int]@);
        }
        if !pieces[i].as_str().is_empty() {
            out.push(pieces[i].clone());
            proof {
                assert(out.deep_view() =~= kept.push(pieces@[i as int]@));
            }
        }
        i += 1;
    }
    proof {
        assert(all.take(i as int) =~= all);
    }
    out
}

fn kept_part(build: &str) -> (r: String)
    ensures
        r@ == prerelease(build@),
{
    let all = chars(build);
    let kept = up_to(all.as_slice(), Class::One('+'));
    if kept.len() > 0 && kept[0] == '-' {
        proof {
            assert(kept@.subrange(1, kept@.len() as int) =~= kept@.skip(1));
        }
        string(part(kept, 1, kept.len()))
    } else {
        string(kept)
    }
}

fn canonical_digits(digits: &str) -> (r: String)
    ensures
        r@ == canonical(digits@),
{
    let all = chars(digits);
    let kept = trim_start(all.as_slice(), Class::One('0'));
    if kept.len() == 0 {
        proof {
            reveal_strlit("0");
            assert("0"@ =~= seq!['0']);
        }
        "0".to_owned()
    } else {
        string(kept)
    }
}

impl SemverLike {
    /// Reads a version. Every string is one.
    pub fn parse(src: &str) -> (r: SemverLike)
        ensures
            r.deep_view() == semver_of(src@),
    {
        let all = chars(src);
        let leading_v = all.len() > 0 && all[0] == 'v';
        let start: usize = if leading_v { 1 } else { 0 };
        let body = part(all.as_slice(), start, all.len());
        let n: usize = count_leading(body, Class::Numeric);
        let head = part(body, 0, n);
        proof {
            assert(body@ =~= (if leading_v { src@.skip(1) } else { src@ }));
            assert(head@ =~= body@.take(n as int));
            reveal_strlit("");
            reveal_strlit(".");
            reveal_strlit("v");
        }
        let pieces = split(head, Class::One('.'));
        let found = keep_nonempty(&pieces);
        let mut build = String::new();
        if found.len() == 0 && leading_v {
            build.append("v");
        }
        if n > 0 && head[n - 1] == '.' {
            build.append(".");
        }
        let tail = string(part(body, n, body.len()));
        build.append(tail.as_str());
        let ghost plain = build@;
        proof {
            assert(tail@ =~= body@.skip(n as int));
            let dot = if n > 0 && head@[n - 1] == '.' { "."@ } else { ""@ };
            let v = if found@.len() == 0 && leading_v { "v"@ } else { ""@ };
            assert(build@ =~= v + (dot + body@.skip(n as int)));
        }
        let ghost all_found = found.deep_view();
        let mut components: Vec<String> = Vec::new();
        let mut i: usize = 0;
        proof {
            assert(all_found.skip(COMPONENTS as int).take(0) =~= seq![]);
        }
        while i < found.len()
            invariant
                i <= found@.len(),
                all_found == found.deep_view(),
                components.deep_view() == all_found.take(if i <= COMPONENTS { i as int } else { COMPONENTS as int }),
                build@ == dotted(
                    plain,
                    if i <= COMPONENTS {
                        seq![]
                    } else {
                        all_found.skip(COMPONENTS as int).take(i - COMPONENTS)
                    },
                ),
            decreases found@.len() - i,
        {
            let ghost kept = components.deep_view();
            if i < COMPONENTS {
                components.push(found[i].clone());
                proof {
                    assert(components.deep_view() =~= kept.push(all_found[i as int]));
                    assert(all_found.take(i + 1) =~= all_found.take(i as int).push(all_found[i as int]));
                }
            } else {
                let digits = canonical_digits(found[i].as_str());
                build.append(".");
                build.append(digits.as_str());
                proof {
                    let extra = all_found.skip(COMPONENTS as int);
                    let k = i - COMPONENTS;
                    assert(extra.take(k + 1).drop_last() =~= extra.take(k));
                    assert(extra.take(k + 1).last() == all_found[i as int]);
                    if k == 0 {
                        assert(extra.take(0) =~= seq![]);
                    }
                }
            }
            i += 1;
        }
        proof {
            if found@.len() <= COMPONENTS {
                assert(all_found.take(found@.len() as int) =~= all_found);
            } else {
                let extra = all_found.skip(COMPONENTS as int);
                assert(extra.take(found@.len() - COMPONENTS) =~= extra);
            }
        }
        SemverLike { components, build }
    }

    /// How this version orders against another.
    pub fn order(&self, other: &SemverLike) -> (r: Order)
        ensures
            r == semver_order(self.deep_view(), other.deep_view()),
    {
        proof {
            assert(texts(self.components@) =~= self.components.deep_view());
            assert(texts(other.components@) =~= other.components.deep_view());
        }
        let a = kept_part(self.build.as_str());
        let b = kept_part(other.build.as_str());
        let builds = if a.as_str().is_empty() && !b.as_str().is_empty() {
            Order::Greater
        } else if !a.as_str().is_empty() && b.as_str().is_empty() {
            Order::Less
        } else {
            let a = chars(a.as_str());
            let b = chars(b.as_str());
            compare_fields(
                &split(a.as_slice(), Class::One('.')),
                &split(b.as_slice(), Class::One('.')),
                true,
            )
        };
        compare_components(self.components.as_slice(), other.components.as_slice()).or(builds)
    }

    pub fn compare(&self, other: &SemverLike) -> (r: Ordering)
        ensures
            r == ordering_of(semver_order(self.deep_view(), other.deep_view())),
    {
        self.order(other).ordering()
    }
}

} // verus!
