//! The order PyPI versions have: PEP 440, and a fallback for what predates it.
use crate::order::{
    chain, coherent, compare_components, compare_digits, compare_fields, compare_text,
    digits_order, fields_order, flip, ordering_of, padded_order, text_order, Order,
};
use crate::text::{chars, same, split, split_of, texts, Class};
use core::cmp::Ordering;
use vstd::prelude::*;

verus! {

/// PEP 440, Appendix B.
pub const PEP440: &'static str =
    r"^\s*v?(?:(?:(?P<epoch>[0-9]+)!)?(?P<release>[0-9]+(?:\.[0-9]+)*)(?P<pre>[-_\.]?(?P<pre_l>(a|b|c|rc|alpha|beta|pre|preview))[-_\.]?(?P<pre_n>[0-9]+)?)?(?P<post>(?:-(?P<post_n1>[0-9]+))|(?:[-_\.]?(?P<post_l>post|rev|r)[-_\.]?(?P<post_n2>[0-9]+)?))?(?P<dev>[-_\.]?(?P<dev_l>dev)[-_\.]?(?P<dev_n>[0-9]+)?)?)(?:\+(?P<local>[a-z0-9]+(?:[-_\.][a-z0-9]+)*))?\s*$";

/// The pieces setuptools split a version into before PEP 440.
pub const LEGACY_PARTS: &'static str = r"\d+|[a-z]+|\.|-";

/// Which capture group of [`PEP440`] holds what.
pub const EPOCH: usize = 1;

pub const RELEASE: usize = 2;

pub const PRE_LETTER: usize = 4;

pub const PRE_NUMBER: usize = 6;

pub const POST_IMPLICIT: usize = 8;

pub const POST_LETTER: usize = 9;

pub const POST_NUMBER: usize = 10;

pub const DEV_LETTER: usize = 12;

pub const DEV_NUMBER: usize = 13;

pub const LOCAL: usize = 14;

/// Whether a text is ASCII.
pub open spec fn is_ascii_text(s: Seq<char>) -> bool {
    forall|i: int| 0 <= i < s.len() ==> (#[trigger] s[i]) as u32 <= 0x7f
}

/// An ASCII letter in lower case; any other character as it is.
pub open spec fn ascii_lower(c: char) -> char {
    if 'A' <= c <= 'Z' {
        (c as u8 + 32) as u8 as char
    } else {
        c
    }
}

/// An ASCII letter in upper case; any other character as it is.
pub open spec fn ascii_upper(c: char) -> char {
    if 'a' <= c <= 'z' {
        (c as u8 - 32) as u8 as char
    } else {
        c
    }
}

/// What `str::to_lowercase` makes of a text that is not ASCII.
pub uninterp spec fn lowercase(s: Seq<char>) -> Seq<char>;

/// A text in lower case.
pub open spec fn lower_of(s: Seq<char>) -> Seq<char> {
    if is_ascii_text(s) {
        Seq::new(s.len(), |i: int| ascii_lower(s[i]))
    } else {
        lowercase(s)
    }
}

/// `str::to_lowercase`: the text in lower case. In ASCII each letter is mapped
/// on its own; of other text the result is only named, the Unicode mapping
/// being left unsaid.
pub assume_specification[ str::to_lowercase ](s: &str) -> (r: String)
    ensures
        is_ascii_text(s@) ==> r@ == Seq::new(s@.len(), |i: int| ascii_lower(s@[i])),
        !is_ascii_text(s@) ==> r@ == lowercase(s@),
;

/// What `regex::Regex::captures` finds: the text of each group of the leftmost
/// match, by number, or nothing where there is no match.
pub uninterp spec fn regex_captures(pattern: Seq<char>, text: Seq<char>) -> Option<
    Seq<Option<Seq<char>>>,
>;

/// `regex::Regex::captures` on a pattern compiled by `regex::Regex::new`: the
/// text of each group of the leftmost match, by number. Nothing where the
/// pattern does not compile or does not match.
#[verifier::external_body]
fn captures(pattern: &str, text: &str) -> (r: Option<Vec<Option<String>>>)
    ensures
        r.deep_view() == regex_captures(pattern@, text@),
{
    let found = regex::Regex::new(pattern).ok()?.captures(text)?;
    Some(found.iter().map(|group| group.map(|m| m.as_str().to_owned())).collect())
}

/// What `regex::Regex::find_iter` finds: the text of each match, in order.
pub uninterp spec fn regex_matches(pattern: Seq<char>, text: Seq<char>) -> Seq<Seq<char>>;

/// `regex::Regex::find_iter` on a pattern compiled by `regex::Regex::new`: the
/// text of each successive match. Nothing where the pattern does not compile.
#[verifier::external_body]
fn matches_in(pattern: &str, text: &str) -> (r: Vec<String>)
    ensures
        r.deep_view() == regex_matches(pattern@, text@),
{
    match regex::Regex::new(pattern) {
        Ok(regex) => regex.find_iter(text).map(|m| m.as_str().to_owned()).collect(),
        Err(_) => Vec::new(),
    }
}

/// A release-phase marker and its number, such as the `rc` and `2` of `1.0rc2`.
#[derive(Clone, Debug)]
pub struct LetterAndNumber {
    pub letter: String,
    /// `None` means the segment is absent, which is distinct from zero.
    pub number: Option<String>,
}

/// What a [`LetterAndNumber`] says.
pub struct PhaseView {
    pub letter: Seq<char>,
    pub number: Option<Seq<char>>,
}

impl DeepView for LetterAndNumber {
    type V = PhaseView;

    open spec fn deep_view(&self) -> PhaseView {
        PhaseView { letter: self.letter@, number: self.number.deep_view() }
    }
}

/// A PyPI version.
///
/// A strict PEP 440 grammar would reject thousands of the spellings real
/// advisories hold (`0.3m1`, `0.1-charmander`, `0.1.0.dev-120828c`), and
/// skipping those advisories is a false negative. A legacy reading takes them.
#[derive(Clone, Debug)]
pub struct PyPiVersion {
    pub epoch: String,
    pub release: Vec<String>,
    pub pre: LetterAndNumber,
    pub post: LetterAndNumber,
    pub dev: LetterAndNumber,
    pub local: Vec<String>,
    /// Non-empty only for versions that predate PEP 440 entirely.
    pub legacy: Vec<String>,
}

/// What a [`PyPiVersion`] says.
pub struct PyPiView {
    pub epoch: Seq<char>,
    pub release: Seq<Seq<char>>,
    pub pre: PhaseView,
    pub post: PhaseView,
    pub dev: PhaseView,
    pub local: Seq<Seq<char>>,
    pub legacy: Seq<Seq<char>>,
}

impl DeepView for PyPiVersion {
    type V = PyPiView;

    open spec fn deep_view(&self) -> PyPiView {
        PyPiView {
            epoch: self.epoch@,
            release: self.release.deep_view(),
            pre: self.pre.deep_view(),
            post: self.post.deep_view(),
            dev: self.dev.deep_view(),
            local: self.local.deep_view(),
            legacy: self.legacy.deep_view(),
        }
    }
}

// ---- reading ----

pub open spec fn no_phase() -> PhaseView {
    PhaseView { letter: seq![], number: None }
}

/// The one spelling of a release phase.
pub open spec fn phase_letter(letter: Seq<char>) -> Seq<char> {
    if letter == "alpha"@ {
        "a"@
    } else if letter == "beta"@ {
        "b"@
    } else if letter == "c"@ || letter == "pre"@ || letter == "preview"@ {
        "rc"@
    } else if letter == "rev"@ || letter == "r"@ {
        "post"@
    } else {
        letter
    }
}

/// A release phase. A letter without a number carries an implicit zero, and a
/// number without a letter is the implicit post-release form, `1.0-1`.
pub open spec fn phase_of(letter: Seq<char>, number: Seq<char>) -> PhaseView {
    if letter.len() > 0 {
        PhaseView {
            letter: phase_letter(letter),
            number: Some(if number.len() == 0 { "0"@ } else { number }),
        }
    } else if number.len() > 0 {
        PhaseView { letter: "post"@, number: Some(number) }
    } else {
        no_phase()
    }
}

/// The text of a group, empty where it took no part in the match.
pub open spec fn group_text(groups: Seq<Option<Seq<char>>>, i: int) -> Seq<char> {
    if 0 <= i < groups.len() && groups[i] is Some {
        groups[i]->Some_0
    } else {
        seq![]
    }
}

pub open spec fn lowered(parts: Seq<Seq<char>>) -> Seq<Seq<char>> {
    Seq::new(parts.len(), |i: int| lower_of(parts[i]))
}

/// A version that PEP 440 covers, from the groups of the match.
pub open spec fn pypi_from_groups(groups: Seq<Option<Seq<char>>>) -> PyPiView {
    let epoch = group_text(groups, EPOCH as int);
    let implicit = group_text(groups, POST_IMPLICIT as int);
    let local = group_text(groups, LOCAL as int);
    PyPiView {
        epoch: if epoch.len() == 0 { "0"@ } else { epoch },
        release: split_of(group_text(groups, RELEASE as int), Class::One('.')),
        pre: phase_of(group_text(groups, PRE_LETTER as int), group_text(groups, PRE_NUMBER as int)),
        post: phase_of(
            group_text(groups, POST_LETTER as int),
            if implicit.len() == 0 { group_text(groups, POST_NUMBER as int) } else { implicit },
        ),
        dev: phase_of(group_text(groups, DEV_LETTER as int), group_text(groups, DEV_NUMBER as int)),
        local: if local.len() == 0 {
            seq![]
        } else {
            lowered(split_of(local, Class::Separator))
        },
        legacy: seq![],
    }
}

pub open spec fn zeros(n: nat) -> Seq<char> {
    Seq::new(n, |i: int| '0')
}

/// One piece of a legacy version in the spelling that sorts: numbers filled up
/// to eight digits, everything else marked with a star.
pub open spec fn legacy_part(raw: Seq<char>) -> Seq<char> {
    let part = if raw == "pre"@ || raw == "preview"@ || raw == "rc"@ {
        "c"@
    } else if raw == "-"@ {
        "final-"@
    } else if raw == "dev"@ {
        "@"@
    } else {
        raw
    };
    if part.len() > 0 && crate::text::is_digit(part[0]) {
        if part.len() < 8 {
            zeros((8 - part.len()) as nat) + part
        } else {
            part
        }
    } else {
        "*"@ + part
    }
}

/// A list without the copies of one text at its end.
pub open spec fn without_trailing(parts: Seq<Seq<char>>, x: Seq<char>) -> Seq<Seq<char>>
    decreases parts.len(),
{
    if parts.len() > 0 && parts.last() == x {
        without_trailing(parts.drop_last(), x)
    } else {
        parts
    }
}

/// The pieces so far with one more: a marker takes away the zeros before it,
/// and one that sorts below the end takes away the hyphens first.
pub open spec fn legacy_step(parts: Seq<Seq<char>>, raw: Seq<char>) -> Seq<Seq<char>> {
    if raw.len() == 0 || raw == "."@ {
        parts
    } else {
        let part = legacy_part(raw);
        if part.len() > 0 && part[0] == '*' {
            let kept = if text_order(part, "*final"@) == Order::Less {
                without_trailing(parts, "*final-"@)
            } else {
                parts
            };
            without_trailing(kept, "00000000"@).push(part)
        } else {
            parts.push(part)
        }
    }
}

/// The pieces of a legacy version, as setuptools sorted them.
pub open spec fn legacy_of(raws: Seq<Seq<char>>) -> Seq<Seq<char>>
    decreases raws.len(),
{
    if raws.len() == 0 {
        seq![]
    } else {
        legacy_step(legacy_of(raws.drop_last()), raws.last())
    }
}

/// A version that predates PEP 440, from its pieces and the end mark.
pub open spec fn pypi_from_legacy(raws: Seq<Seq<char>>) -> PyPiView {
    PyPiView {
        epoch: seq![],
        release: seq![],
        pre: no_phase(),
        post: no_phase(),
        dev: no_phase(),
        local: seq![],
        legacy: legacy_of(raws.push("final"@)),
    }
}

/// The version a string spells.
pub open spec fn pypi_of(s: Seq<char>) -> PyPiView {
    match regex_captures(PEP440@, lower_of(s)) {
        Some(groups) => pypi_from_groups(groups),
        None => pypi_from_legacy(regex_matches(LEGACY_PARTS@, lower_of(s))),
    }
}

// ---- ordering ----

/// Legacy versions always sort below PEP 440 ones.
pub open spec fn legacy_order(a: PyPiView, b: PyPiView) -> Order {
    if a.legacy.len() == 0 && b.legacy.len() == 0 {
        Order::Equal
    } else if a.legacy.len() == 0 {
        Order::Greater
    } else if b.legacy.len() == 0 {
        Order::Less
    } else {
        text_order(joined(a.legacy), joined(b.legacy))
    }
}

/// Texts written one after the other.
pub open spec fn joined(parts: Seq<Seq<char>>) -> Seq<char>
    decreases parts.len(),
{
    if parts.len() == 0 {
        seq![]
    } else {
        joined(parts.drop_last()) + parts.last()
    }
}

/// Whether this is a development release of a final one, which sorts before
/// every prerelease of it.
pub open spec fn only_dev(v: PyPiView) -> bool {
    v.pre.number is None && v.post.number is None && v.dev.number is Some
}

pub open spec fn first_order(a: Seq<char>, b: Seq<char>) -> Order {
    text_order(
        if a.len() > 0 { a.take(1) } else { a },
        if b.len() > 0 { b.take(1) } else { b },
    )
}

/// Prereleases: below the release they lead to, by phase and then by number.
pub open spec fn pre_order(a: PyPiView, b: PyPiView) -> Order {
    if only_dev(a) || only_dev(b) {
        if only_dev(a) && only_dev(b) {
            Order::Equal
        } else if only_dev(a) {
            Order::Less
        } else {
            Order::Greater
        }
    } else {
        match (a.pre.number, b.pre.number) {
            (None, None) => Order::Equal,
            (None, Some(_)) => Order::Greater,
            (Some(_), None) => Order::Less,
            (Some(x), Some(y)) => chain(
                first_order(a.pre.letter, b.pre.letter),
                digits_order(x, y),
            ),
        }
    }
}

/// Optional numbers: an absent one is less where `absent_first`.
pub open spec fn optional_order(
    a: Option<Seq<char>>,
    b: Option<Seq<char>>,
    absent_first: bool,
) -> Order {
    match (a, b) {
        (None, None) => Order::Equal,
        (None, Some(_)) => if absent_first {
            Order::Less
        } else {
            Order::Greater
        },
        (Some(_), None) => if absent_first {
            Order::Greater
        } else {
            Order::Less
        },
        (Some(x), Some(y)) => digits_order(x, y),
    }
}

pub open spec fn pypi_order(a: PyPiView, b: PyPiView) -> Order {
    chain(
        legacy_order(a, b),
        chain(
            digits_order(a.epoch, b.epoch),
            chain(
                padded_order(a.release, b.release),
                chain(
                    pre_order(a, b),
                    chain(
                        // A post-release sorts after the release it follows.
                        optional_order(a.post.number, b.post.number, true),
                        chain(
                            // A development release sorts before what it leads to.
                            optional_order(a.dev.number, b.dev.number, false),
                            // A numeric segment outranks an alphabetic one.
                            fields_order(a.local, b.local, false),
                        ),
                    ),
                ),
            ),
        ),
    )
}

pub proof fn lemma_pypi_flip(a: PyPiView, b: PyPiView)
    ensures
        pypi_order(b, a) == flip(pypi_order(a, b)),
{
    crate::order::lemma_text_flip(joined(a.legacy), joined(b.legacy));
    crate::order::lemma_digits_flip(a.epoch, b.epoch);
    crate::order::lemma_padded_flip(a.release, b.release);
    crate::order::lemma_text_flip(
        if a.pre.letter.len() > 0 { a.pre.letter.take(1) } else { a.pre.letter },
        if b.pre.letter.len() > 0 { b.pre.letter.take(1) } else { b.pre.letter },
    );
    if a.pre.number is Some && b.pre.number is Some {
        crate::order::lemma_digits_flip(a.pre.number->Some_0, b.pre.number->Some_0);
    }
    if a.post.number is Some && b.post.number is Some {
        crate::order::lemma_digits_flip(a.post.number->Some_0, b.post.number->Some_0);
    }
    if a.dev.number is Some && b.dev.number is Some {
        crate::order::lemma_digits_flip(a.dev.number->Some_0, b.dev.number->Some_0);
    }
    crate::order::lemma_fields_flip(a.local, b.local, false);
}

proof fn lemma_optional_coherent(
    a: Option<Seq<char>>,
    b: Option<Seq<char>>,
    c: Option<Seq<char>>,
    absent_first: bool,
)
    ensures
        coherent(
            optional_order(a, b, absent_first),
            optional_order(b, c, absent_first),
            optional_order(a, c, absent_first),
        ),
{
    if a is Some && b is Some && c is Some {
        crate::order::lemma_digits_coherent(a->Some_0, b->Some_0, c->Some_0);
    }
}

proof fn lemma_pre_coherent(a: PyPiView, b: PyPiView, c: PyPiView)
    ensures
        coherent(pre_order(a, b), pre_order(b, c), pre_order(a, c)),
{
    let first = |v: PyPiView| if v.pre.letter.len() > 0 { v.pre.letter.take(1) } else { v.pre.letter };
    crate::order::lemma_text_coherent(first(a), first(b), first(c));
    if a.pre.number is Some && b.pre.number is Some && c.pre.number is Some {
        crate::order::lemma_digits_coherent(
            a.pre.number->Some_0,
            b.pre.number->Some_0,
            c.pre.number->Some_0,
        );
    }
}

pub proof fn lemma_pypi_coherent(a: PyPiView, b: PyPiView, c: PyPiView)
    ensures
        coherent(pypi_order(a, b), pypi_order(b, c), pypi_order(a, c)),
{
    crate::order::lemma_text_coherent(joined(a.legacy), joined(b.legacy), joined(c.legacy));
    assert(coherent(legacy_order(a, b), legacy_order(b, c), legacy_order(a, c)));
    crate::order::lemma_digits_coherent(a.epoch, b.epoch, c.epoch);
    crate::order::lemma_padded_coherent(a.release, b.release, c.release);
    lemma_pre_coherent(a, b, c);
    lemma_optional_coherent(a.post.number, b.post.number, c.post.number, true);
    lemma_optional_coherent(a.dev.number, b.dev.number, c.dev.number, false);
    crate::order::lemma_fields_coherent(a.local, b.local, c.local, false);
}

/// What PEP 440 rejects is below everything it accepts.
pub proof fn legacy_versions_are_below(a: Seq<Seq<char>>, groups: Seq<Option<Seq<char>>>)
    ensures
        pypi_order(pypi_from_legacy(a), pypi_from_groups(groups)) == Order::Less,
{
    let raws = a.push("final"@);
    reveal_strlit("final");
    reveal_strlit(".");
    assert(raws.last() == "final"@);
    assert("final"@.len() == 5 && "."@.len() == 1);
    assert(legacy_of(raws) == legacy_step(legacy_of(raws.drop_last()), raws.last()));
    assert(legacy_of(raws).len() > 0);
}

// ---- code ----

fn phase(letter: &str, number: &str) -> (r: LetterAndNumber)
    ensures
        r.deep_view() == phase_of(letter@, number@),
{
    if !letter.is_empty() {
        let number = if number.is_empty() { "0" } else { number };
        let letter = if same(letter, "alpha") {
            "a"
        } else if same(letter, "beta") {
            "b"
        } else if same(letter, "c") || same(letter, "pre") || same(letter, "preview") {
            "rc"
        } else if same(letter, "rev") || same(letter, "r") {
            "post"
        } else {
            letter
        };
        return LetterAndNumber { letter: letter.to_owned(), number: Some(number.to_owned()) };
    }
    if !number.is_empty() {
        return LetterAndNumber { letter: "post".to_owned(), number: Some(number.to_owned()) };
    }
    absent()
}

fn absent() -> (r: LetterAndNumber)
    ensures
        r.deep_view() == no_phase(),
{
    LetterAndNumber { letter: String::new(), number: None }
}

fn group(groups: &Vec<Option<String>>, i: usize) -> (r: &str)
    ensures
        r@ == group_text(groups.deep_view(), i as int),
{
    if i < groups.len() {
        match &groups[i] {
            Some(text) => text.as_str(),
            None => {
                proof {
                    reveal_strlit("");
                    assert(""@ =~= seq![]);
                }
                ""
            },
        }
    } else {
        proof {
            reveal_strlit("");
            assert(""@ =~= seq![]);
        }
        ""
    }
}

fn normalised(raw: &str) -> (r: String)
    ensures
        r@ == legacy_part(raw@),
{
    let part: &str = if same(raw, "pre") || same(raw, "preview") || same(raw, "rc") {
        "c"
    } else if same(raw, "-") {
        "final-"
    } else if same(raw, "dev") {
        "@"
    } else {
        raw
    };
    let all = chars(part);
    let mut out = String::new();
    if all.len() > 0 && '0' <= all[0] && all[0] <= '9' {
        let mut n: usize = all.len();
        let ghost len = n;
        while n < 8
            invariant
                len <= n,
                n <= 8 || n == len,
                out@ == zeros((n - len) as nat),
            decreases 8 - n,
        {
            out.push('0');
            proof {
                assert(zeros((n + 1 - len) as nat) =~= zeros((n - len) as nat).push('0'));
            }
            n += 1;
        }
        out.append(part);
        proof {
            if part@.len() >= 8 {
                assert(out@ =~= part@);
            }
        }
    } else {
        out.append("*");
        out.append(part);
        proof {
            assert(out@ =~= "*"@ + part@);
        }
    }
    out
}

fn drop_trailing(parts: &mut Vec<String>, x: &str)
    ensures
        final(parts).deep_view() == without_trailing(old(parts).deep_view(), x@),
{
    while parts.len() > 0
        invariant
            without_trailing(parts.deep_view(), x@) == without_trailing(old(parts).deep_view(), x@),
        ensures
            parts.deep_view() == without_trailing(parts.deep_view(), x@),
        decreases parts@.len(),
    {
        if !same(parts[parts.len() - 1].as_str(), x) {
            break;
        }
        let ghost before = parts.deep_view();
        let _ = parts.pop();
        proof {
            assert(parts.deep_view() =~= before.drop_last());
        }
    }
}

fn legacy_push(parts: &mut Vec<String>, raw: &str)
    ensures
        final(parts).deep_view() == legacy_step(old(parts).deep_view(), raw@),
{
    if raw.is_empty() || same(raw, ".") {
        return ;
    }
    let part = normalised(raw);
    let all = chars(part.as_str());
    if all.len() > 0 && all[0] == '*' {
        if compare_text(part.as_str(), "*final") == Order::Less {
            drop_trailing(parts, "*final-");
        }
        drop_trailing(parts, "00000000");
    }
    let ghost kept = parts.deep_view();
    parts.push(part);
    proof {
        assert(parts.deep_view() =~= kept.push(part@));
    }
}

fn concat(parts: &Vec<String>) -> (r: String)
    ensures
        r@ == joined(parts.deep_view()),
{
    let ghost all = parts.deep_view();
    let mut out = String::new();
    let mut i: usize = 0;
    while i < parts.len()
        invariant
            i <= parts@.len(),
            all == parts.deep_view(),
            out@ == joined(all.take(i as int)),
        decreases parts@.len() - i,
    {
        out.append(parts[i].as_str());
        proof {
            assert(all.take(i + 1).drop_last() =~= all.take(i as int));
        }
        i += 1;
    }
    proof {
        assert(all.take(i as int) =~= all);
    }
    out
}

fn compare_optional(a: &Option<String>, b: &Option<String>, absent_first: bool) -> (r: Order)
    ensures
        r == optional_order(a.deep_view(), b.deep_view(), absent_first),
{
    match (a, b) {
        (None, None) => Order::Equal,
        (None, Some(_)) => if absent_first {
            Order::Less
        } else {
            Order::Greater
        },
        (Some(_), None) => if absent_first {
            Order::Greater
        } else {
            Order::Less
        },
        (Some(x), Some(y)) => compare_digits(x.as_str(), y.as_str()),
    }
}

fn compare_first(a: &str, b: &str) -> (r: Order)
    ensures
        r == first_order(a@, b@),
{
    let a = chars(a);
    let b = chars(b);
    let m: usize = if a.len() > 0 { 1 } else { 0 };
    let n: usize = if b.len() > 0 { 1 } else { 0 };
    proof {
        assert(a@.subrange(0, m as int) =~= (if a@.len() > 0 { a@.take(1) } else { a@ }));
        assert(b@.subrange(0, n as int) =~= (if b@.len() > 0 { b@.take(1) } else { b@ }));
    }
    crate::order::compare_chars(
        crate::text::part(a.as_slice(), 0, m),
        crate::text::part(b.as_slice(), 0, n),
    )
}

impl PyPiVersion {
    /// Reads a version. This never fails: what PEP 440 rejects gets the legacy
    /// interpretation.
    pub fn parse(src: &str) -> (r: PyPiVersion)
        ensures
            r.deep_view() == pypi_of(src@),
    {
        let lowered = src.to_lowercase();
        match captures(PEP440, lowered.as_str()) {
            Some(groups) => PyPiVersion::from_groups(&groups),
            None => PyPiVersion::from_legacy(&matches_in(LEGACY_PARTS, lowered.as_str())),
        }
    }

    /// The version that the groups of a PEP 440 match spell.
    pub fn from_groups(groups: &Vec<Option<String>>) -> (r: PyPiVersion)
        ensures
            r.deep_view() == pypi_from_groups(groups.deep_view()),
    {
        let epoch = group(groups, EPOCH);
        let release = chars(group(groups, RELEASE));
        let implicit = group(groups, POST_IMPLICIT);
        let post_number = if implicit.is_empty() { group(groups, POST_NUMBER) } else { implicit };
        let local_text = group(groups, LOCAL);
        let mut local: Vec<String> = Vec::new();
        if !local_text.is_empty() {
            let all = chars(local_text);
            let parts = split(all.as_slice(), Class::Separator);
            let ghost pieces = parts.deep_view();
            let mut i: usize = 0;
            while i < parts.len()
                invariant
                    i <= parts@.len(),
                    pieces == parts.deep_view(),
                    local.deep_view() == lowered(pieces.take(i as int)),
                decreases parts@.len() - i,
            {
                let ghost kept = local.deep_view();
                local.push(parts[i].as_str().to_lowercase());
                proof {
                    assert(local.deep_view() =~= kept.push(lower_of(pieces[i as int])));
                    assert(lowered(pieces.take(i + 1)) =~= lowered(pieces.take(i as int)).push(
                        lower_of(pieces[i as int]),
                    ));
                }
                i += 1;
            }
            proof {
                assert(pieces.take(i as int) =~= pieces);
            }
        }
        let r = PyPiVersion {
            epoch: if epoch.is_empty() { "0".to_owned() } else { epoch.to_owned() },
            release: split(release.as_slice(), Class::One('.')),
            pre: phase(group(groups, PRE_LETTER), group(groups, PRE_NUMBER)),
            post: phase(group(groups, POST_LETTER), post_number),
            dev: phase(group(groups, DEV_LETTER), group(groups, DEV_NUMBER)),
            local,
            legacy: Vec::new(),
        };
        proof {
            assert(r.legacy.deep_view() =~= seq![]);
            if local_text@.len() == 0 {
                assert(r.local.deep_view() =~= seq![]);
            }
        }
        r
    }

    /// The version that the pieces of a pre-PEP 440 spelling make.
    pub fn from_legacy(raws: &Vec<String>) -> (r: PyPiVersion)
        ensures
            r.deep_view() == pypi_from_legacy(raws.deep_view()),
    {
        let ghost all = raws.deep_view();
        let mut legacy: Vec<String> = Vec::new();
        let mut i: usize = 0;
        proof {
            assert(legacy.deep_view() =~= seq![]);
        }
        while i < raws.len()
            invariant
                i <= raws@.len(),
                all == raws.deep_view(),
                legacy.deep_view() == legacy_of(all.take(i as int)),
            decreases raws@.len() - i,
        {
            legacy_push(&mut legacy, raws[i].as_str());
            proof {
                assert(all.take(i + 1).drop_last() =~= all.take(i as int));
            }
            i += 1;
        }
        legacy_push(&mut legacy, "final");
        proof {
            assert(all.take(i as int) =~= all);
            assert(all.push("final"@).drop_last() =~= all);
        }
        let r = PyPiVersion {
            epoch: String::new(),
            release: Vec::new(),
            pre: absent(),
            post: absent(),
            dev: absent(),
            local: Vec::new(),
            legacy,
        };
        proof {
            assert(r.release.deep_view() =~= seq![]);
            assert(r.local.deep_view() =~= seq![]);
        }
        r
    }

    fn order_legacy(&self, other: &PyPiVersion) -> (r: Order)
        ensures
            r == legacy_order(self.deep_view(), other.deep_view()),
    {
        if self.legacy.len() == 0 && other.legacy.len() == 0 {
            Order::Equal
        } else if self.legacy.len() == 0 {
            Order::Greater
        } else if other.legacy.len() == 0 {
            Order::Less
        } else {
            compare_text(concat(&self.legacy).as_str(), concat(&other.legacy).as_str())
        }
    }

    fn is_only_dev(&self) -> (r: bool)
        ensures
            r == only_dev(self.deep_view()),
    {
        self.pre.number.is_none() && self.post.number.is_none() && self.dev.number.is_some()
    }

    fn order_pre(&self, other: &PyPiVersion) -> (r: Order)
        ensures
            r == pre_order(self.deep_view(), other.deep_view()),
    {
        if self.is_only_dev() || other.is_only_dev() {
            return if self.is_only_dev() && other.is_only_dev() {
                Order::Equal
            } else if self.is_only_dev() {
                Order::Less
            } else {
                Order::Greater
            };
        }
        match (&self.pre.number, &other.pre.number) {
            (None, None) => Order::Equal,
            (None, Some(_)) => Order::Greater,
            (Some(_), None) => Order::Less,
            (Some(a), Some(b)) => compare_first(
                self.pre.letter.as_str(),
                other.pre.letter.as_str(),
            ).or(compare_digits(a.as_str(), b.as_str())),
        }
    }

    /// How this version orders against another.
    pub fn order(&self, other: &PyPiVersion) -> (r: Order)
        ensures
            r == pypi_order(self.deep_view(), other.deep_view()),
    {
        proof {
            assert(texts(self.release@) =~= self.release.deep_view());
            assert(texts(other.release@) =~= other.release.deep_view());
        }
        self.order_legacy(other).or(
            compare_digits(self.epoch.as_str(), other.epoch.as_str()).or(
                compare_components(self.release.as_slice(), other.release.as_slice()).or(
                    self.order_pre(other).or(
                        compare_optional(&self.post.number, &other.post.number, true).or(
                            compare_optional(&self.dev.number, &other.dev.number, false).or(
                                compare_fields(&self.local, &other.local, false),
                            ),
                        ),
                    ),
                ),
            ),
        )
    }

    pub fn compare(&self, other: &PyPiVersion) -> (r: Ordering)
        ensures
            r == ordering_of(pypi_order(self.deep_view(), other.deep_view())),
    {
        self.order(other).ordering()
    }
}

/// Upper and lower case make no difference: a version in ASCII compares equal
/// to itself in upper case.
pub proof fn case_does_not_order(s: Seq<char>)
    requires
        is_ascii_text(s),
    ensures
        ({
            let upper = Seq::new(s.len(), |i: int| ascii_upper(s[i]));
            &&& pypi_of(upper) == pypi_of(s)
            &&& pypi_order(pypi_of(s), pypi_of(upper)) == Order::Equal
        }),
{
    let upper = Seq::new(s.len(), |i: int| ascii_upper(s[i]));
    assert forall|i: int| 0 <= i < upper.len() implies (#[trigger] upper[i]) as u32 <= 0x7f
        && ascii_lower(upper[i]) == ascii_lower(s[i]) by {
        assert(s[i] as u32 <= 0x7f);
    }
    assert(lower_of(upper) =~= lower_of(s));
    lemma_pypi_flip(pypi_of(s), pypi_of(s));
}

} // verus!
