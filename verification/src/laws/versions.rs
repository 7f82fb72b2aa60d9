//! How versions that are written down order.
use crate::laws::writing::{lacks, lemma_before, lemma_trim_front};
use crate::model::Ecosystem;
use crate::order::{
    digits_order, field_order, fields_order, head_or_zero, int_order, padded_order, rest,
    significant, text_order, Order,
};
use crate::text::{before, first_of, is_digit, lemma_first_of, lemma_first_of_is, split_of, Class};
use crate::version::digits::{digits_only, digits_order_is_numeric, lemma_significant, value};
use crate::version::pypi::{only_dev, phase_letter, pre_order, pypi_from_groups, pypi_order};
use crate::version::semver_like::{canonical, dotted, nonempty, prerelease, semver_of};
use crate::version::{strings_order, version_of, version_order};
use vstd::prelude::*;

verus! {

// ---- text and numbers ----

/// Text orders as in a dictionary: by the first character that differs, and
/// what is only the beginning of another comes before it.
pub proof fn text_orders_as_in_a_dictionary(a: Seq<char>, b: Seq<char>, k: int)
    requires
        0 <= k <= a.len(),
        0 <= k <= b.len(),
        a.take(k) == b.take(k),
        k == a.len() || k == b.len() || a[k] != b[k],
    ensures
        text_order(a, b) == (if k == a.len() && k == b.len() {
            Order::Equal
        } else if k == a.len() {
            Order::Less
        } else if k == b.len() {
            Order::Greater
        } else if a[k] < b[k] {
            Order::Less
        } else {
            Order::Greater
        }),
    decreases k,
{
    if k > 0 {
        assert(a[0] == a.take(k)[0] && b[0] == b.take(k)[0]);
        let (x, y) = (a.skip(1), b.skip(1));
        assert(x.take(k - 1) =~= a.take(k).skip(1));
        assert(y.take(k - 1) =~= b.take(k).skip(1));
        text_orders_as_in_a_dictionary(x, y, k - 1);
    }
}

/// Texts with dots between them.
pub open spec fn with_dots(parts: Seq<Seq<char>>) -> Seq<char>
    decreases parts.len(),
{
    if parts.len() == 0 {
        seq![]
    } else if parts.len() == 1 {
        parts[0]
    } else {
        with_dots(parts.drop_last()) + seq!['.'] + parts.last()
    }
}

/// Whether some texts are numbers.
pub open spec fn are_numbers(parts: Seq<Seq<char>>) -> bool {
    parts.len() > 0 && forall|i: int|
        0 <= i < parts.len() ==> (#[trigger] parts[i]).len() > 0 && digits_only(parts[i])
}

/// The number at a place of a dotted version; what is not there is zero.
pub open spec fn number_at(parts: Seq<Seq<char>>, i: int) -> int {
    if 0 <= i < parts.len() {
        value(parts[i])
    } else {
        0
    }
}

/// Whether two dotted versions agree before a place.
pub open spec fn agree_before(a: Seq<Seq<char>>, b: Seq<Seq<char>>, k: int) -> bool {
    forall|i: int| 0 <= i < k ==> #[trigger] number_at(a, i) == number_at(b, i)
}

/// Whether two dotted versions agree everywhere.
pub open spec fn agree(a: Seq<Seq<char>>, b: Seq<Seq<char>>) -> bool {
    agree_before(a, b, (a.len() + b.len()) as int)
}

proof fn lemma_split_add(a: Seq<char>, b: Seq<char>, c: char, k: Class)
    requires
        k.has(c),
    ensures
        split_of(a + seq![c] + b, k) == split_of(a, k) + split_of(b, k),
    decreases a.len(),
{
    let s = a + seq![c] + b;
    lemma_first_of_is(a, k);
    match first_of(a, k) {
        Some(n) => {
            assert forall|i: int| 0 <= i < n implies !k.has(#[trigger] s[i]) by {
                assert(s[i] == a[i]);
            }
            assert(s[n as int] == a[n as int]);
            lemma_first_of(s, k, n);
            let rest = a.skip(n as int + 1);
            lemma_split_add(rest, b, c, k);
            assert(s.skip(n as int + 1) =~= rest + seq![c] + b);
            assert(s.take(n as int) =~= a.take(n as int));
            assert(split_of(s, k) =~= split_of(a, k) + split_of(b, k));
        },
        None => {
            assert forall|i: int| 0 <= i < a.len() implies !k.has(#[trigger] s[i]) by {
                assert(s[i] == a[i]);
            }
            assert(s[a.len() as int] == c);
            lemma_first_of(s, k, a.len());
            assert(s.take(a.len() as int) =~= a);
            assert(s.skip(a.len() as int + 1) =~= b);
            assert(split_of(s, k) =~= split_of(a, k) + split_of(b, k));
        },
    }
}

proof fn lemma_split_at_dots(parts: Seq<Seq<char>>, k: Class)
    requires
        parts.len() > 0,
        k.has('.'),
        forall|i: int, j: int|
            0 <= i < parts.len() && 0 <= j < parts[i].len() ==> !k.has(#[trigger] parts[i][j]),
    ensures
        split_of(with_dots(parts), k) == parts,
    decreases parts.len(),
{
    let last = parts[parts.len() - 1];
    assert forall|j: int| 0 <= j < last.len() implies !k.has(#[trigger] last[j]) by {
        assert(!k.has(parts[parts.len() - 1][j]));
    }
    lemma_first_of(last, k, last.len());
    assert(split_of(last, k) =~= seq![last]);
    if parts.len() == 1 {
        assert(parts =~= seq![last]);
    } else {
        let front = parts.drop_last();
        assert forall|i: int, j: int|
            0 <= i < front.len() && 0 <= j < front[i].len() implies !k.has(
            #[trigger] front[i][j],
        ) by {
            assert(!k.has(parts[i][j]));
        }
        lemma_split_at_dots(front, k);
        lemma_split_add(with_dots(front), last, '.', k);
        assert(front + seq![last] =~= parts);
    }
}

/// What is written with dots is split at them again.
pub proof fn lemma_split_dots(parts: Seq<Seq<char>>)
    requires
        parts.len() > 0,
        forall|i: int| 0 <= i < parts.len() ==> lacks(#[trigger] parts[i], '.'),
    ensures
        split_of(with_dots(parts), Class::One('.')) == parts,
{
    let k = Class::One('.');
    assert forall|i: int, j: int|
        0 <= i < parts.len() && 0 <= j < parts[i].len() implies !k.has(#[trigger] parts[i][j]) by {
        assert(lacks(parts[i], '.'));
    }
    lemma_split_at_dots(parts, k);
}

proof fn lemma_numbers_lack_dots(parts: Seq<Seq<char>>)
    requires
        are_numbers(parts),
    ensures
        forall|i: int| 0 <= i < parts.len() ==> lacks(#[trigger] parts[i], '.'),
{
    assert forall|i: int| 0 <= i < parts.len() implies lacks(#[trigger] parts[i], '.') by {
        assert forall|j: int| 0 <= j < parts[i].len() implies #[trigger] parts[i][j] != '.' by {
            assert(is_digit(parts[i][j]));
        }
    }
}

proof fn lemma_padded(a: Seq<Seq<char>>, b: Seq<Seq<char>>, k: int)
    requires
        forall|i: int| 0 <= i < a.len() ==> digits_only(#[trigger] a[i]),
        forall|i: int| 0 <= i < b.len() ==> digits_only(#[trigger] b[i]),
        agree_before(a, b, k),
        k >= 0,
        k >= a.len() && k >= b.len() || number_at(a, k) != number_at(b, k),
    ensures
        padded_order(a, b) == int_order(number_at(a, k), number_at(b, k)),
    decreases a.len() + b.len(),
{
    if a.len() == 0 && b.len() == 0 {
    } else {
        let (x, y) = (rest(a), rest(b));
        let zero = seq!['0'];
        assert(zero.drop_last() =~= seq![]);
        assert(value(zero.drop_last()) == 0);
        assert(value(zero) == 0);
        assert(digits_only(zero));
        let (p, q) = (head_or_zero(a), head_or_zero(b));
        assert(digits_only(p) && digits_only(q)) by {
            if a.len() > 0 {
                assert(digits_only(a[0]));
            }
            if b.len() > 0 {
                assert(digits_only(b[0]));
            }
        }
        assert(value(p) == number_at(a, 0) && value(q) == number_at(b, 0));
        digits_order_is_numeric(p, q);
        assert forall|i: int| 0 <= i < x.len() implies digits_only(#[trigger] x[i]) by {
            assert(x[i] == a[i + 1]);
        }
        assert forall|i: int| 0 <= i < y.len() implies digits_only(#[trigger] y[i]) by {
            assert(y[i] == b[i + 1]);
        }
        assert forall|i: int| i >= 0 implies #[trigger] number_at(x, i) == number_at(a, i + 1) by {}
        assert forall|i: int| i >= 0 implies #[trigger] number_at(y, i) == number_at(b, i + 1) by {}
        if k > 0 {
            assert(number_at(a, 0) == number_at(b, 0));
            assert forall|i: int| 0 <= i < k - 1 implies #[trigger] number_at(x, i) == number_at(
                y,
                i,
            ) by {
                assert(number_at(a, i + 1) == number_at(b, i + 1));
            }
            lemma_padded(x, y, k - 1);
            assert(number_at(x, k - 1) == number_at(a, k));
            assert(number_at(y, k - 1) == number_at(b, k));
        }
    }
}

proof fn lemma_agree(a: Seq<Seq<char>>, b: Seq<Seq<char>>)
    requires
        are_numbers(a),
        are_numbers(b),
        agree(a, b),
    ensures
        padded_order(a, b) == Order::Equal,
{
    lemma_padded(a, b, (a.len() + b.len()) as int);
}

// ---- npm, Go and crates.io ----

/// What may stand behind the numbers of a version: a prerelease or build
/// metadata.
pub open spec fn is_suffix(s: Seq<char>) -> bool {
    s.len() > 0 ==> s[0] == '-' || s[0] == '+'
}

/// A version as it is written, with or without a `v`.
pub open spec fn written(v: bool, numbers: Seq<Seq<char>>, suffix: Seq<char>) -> Seq<char> {
    (if v {
        seq!['v']
    } else {
        seq![]
    }) + with_dots(numbers) + suffix
}

proof fn lemma_dots_numeric(parts: Seq<Seq<char>>)
    requires
        are_numbers(parts),
    ensures
        with_dots(parts).len() > 0,
        forall|i: int|
            0 <= i < with_dots(parts).len() ==> Class::Numeric.has(#[trigger] with_dots(parts)[i]),
        is_digit(with_dots(parts)[0]),
        is_digit(with_dots(parts).last()),
    decreases parts.len(),
{
    let last = parts[parts.len() - 1];
    assert(digits_only(last) && last.len() > 0);
    assert(is_digit(last[0]) && is_digit(last[last.len() - 1]));
    let s = with_dots(parts);
    if parts.len() == 1 {
        assert forall|i: int| 0 <= i < s.len() implies Class::Numeric.has(#[trigger] s[i]) by {
            assert(is_digit(last[i]));
        }
    } else {
        let front = parts.drop_last();
        assert(are_numbers(front)) by {
            assert forall|i: int| 0 <= i < front.len() implies (#[trigger] front[i]).len() > 0
                && digits_only(front[i]) by {
                assert(front[i] == parts[i]);
            }
        }
        lemma_dots_numeric(front);
        let head = with_dots(front);
        assert(s[0] == head[0]);
        assert(s.last() == last[last.len() - 1]);
        assert forall|i: int| 0 <= i < s.len() implies Class::Numeric.has(#[trigger] s[i]) by {
            if i < head.len() {
                assert(s[i] == head[i]);
            } else if i > head.len() {
                assert(s[i] == last[i - head.len() - 1]);
                assert(is_digit(last[i - head.len() - 1]));
            }
        }
    }
}

proof fn lemma_nonempty(parts: Seq<Seq<char>>)
    requires
        forall|i: int| 0 <= i < parts.len() ==> (#[trigger] parts[i]).len() > 0,
    ensures
        nonempty(parts) == parts,
    decreases parts.len(),
{
    if parts.len() > 0 {
        let front = parts.drop_last();
        assert forall|i: int| 0 <= i < front.len() implies (#[trigger] front[i]).len() > 0 by {
            assert(front[i] == parts[i]);
        }
        lemma_nonempty(front);
        assert(parts[parts.len() - 1].len() > 0);
        assert(nonempty(parts) =~= parts);
    } else {
        assert(nonempty(parts) =~= parts);
    }
}

/// A version of up to three numbers is read as it is written.
pub proof fn a_version_is_read_as_it_is_written(
    v: bool,
    numbers: Seq<Seq<char>>,
    suffix: Seq<char>,
)
    requires
        are_numbers(numbers),
        numbers.len() <= 3,
        is_suffix(suffix),
    ensures
        semver_of(written(v, numbers, suffix)).components == numbers,
        semver_of(written(v, numbers, suffix)).build == suffix,
{
    reveal_strlit("");
    let s = written(v, numbers, suffix);
    let dots = with_dots(numbers);
    let body = dots + suffix;
    lemma_dots_numeric(numbers);
    if v {
        assert(s[0] == 'v');
        assert(s.skip(1) =~= body);
    } else {
        assert(s =~= body);
        assert(s[0] == dots[0]);
        assert(is_digit(s[0]));
    }
    assert(suffix.len() > 0 ==> !Class::Numeric.has(suffix[0]));
    lemma_trim_front(dots, suffix, Class::Numeric);
    let n = dots.len() as int;
    assert(body.take(n) =~= dots);
    assert(body.skip(n) =~= suffix);
    lemma_numbers_lack_dots(numbers);
    lemma_split_dots(numbers);
    lemma_nonempty(numbers);
    assert(dots[n - 1] == dots.last());
    assert(""@ + (""@ + suffix) =~= suffix);
}

/// Whether versions of an ecosystem are three numbers and what follows.
pub open spec fn is_semver(e: Ecosystem) -> bool {
    e == Ecosystem::Npm || e == Ecosystem::Go || e == Ecosystem::CratesIo
}

/// The first number that differs decides, wherever it stands and whatever
/// follows the numbers; a number that is missing counts as zero.
pub proof fn the_first_number_that_differs_decides(
    v: bool,
    a: Seq<Seq<char>>,
    x: Seq<char>,
    w: bool,
    b: Seq<Seq<char>>,
    y: Seq<char>,
    k: int,
    e: Ecosystem,
)
    requires
        is_semver(e),
        are_numbers(a) && a.len() <= 3 && is_suffix(x),
        are_numbers(b) && b.len() <= 3 && is_suffix(y),
        k >= 0,
        agree_before(a, b, k),
        number_at(a, k) < number_at(b, k),
    ensures
        strings_order(written(v, a, x), written(w, b, y), e) == Order::Less,
        strings_order(written(w, b, y), written(v, a, x), e) == Order::Greater,
{
    a_version_is_read_as_it_is_written(v, a, x);
    a_version_is_read_as_it_is_written(w, b, y);
    reveal(version_of);
    reveal(version_order);
    lemma_padded(a, b, k);
    crate::version::version_order_is_antisymmetric(written(v, a, x), written(w, b, y), e);
}

/// Whether a suffix is no prerelease.
pub open spec fn is_release(s: Seq<char>) -> bool {
    s.len() == 0 || s[0] == '+'
}

/// Between versions of the same numbers a release is above every prerelease,
/// and build metadata makes no difference.
pub proof fn a_release_is_above_its_prereleases(
    v: bool,
    a: Seq<Seq<char>>,
    x: Seq<char>,
    w: bool,
    b: Seq<Seq<char>>,
    y: Seq<char>,
    e: Ecosystem,
)
    requires
        is_semver(e),
        are_numbers(a) && a.len() <= 3 && is_release(x),
        are_numbers(b) && b.len() <= 3 && is_suffix(y),
        agree(a, b),
        y.len() > 1 && y[0] == '-' ==> y[1] != '+',
        y.len() == 1 ==> y[0] == '+',
    ensures
        strings_order(written(v, a, x), written(w, b, y), e) == (if is_release(y) {
            Order::Equal
        } else {
            Order::Greater
        }),
{
    a_version_is_read_as_it_is_written(v, a, x);
    a_version_is_read_as_it_is_written(w, b, y);
    reveal(version_of);
    reveal(version_order);
    lemma_agree(a, b);
    let plus = Class::One('+');
    lemma_before(seq![], x, plus);
    assert(seq![] + x =~= x);
    assert(prerelease(x).len() == 0);
    if is_release(y) {
        lemma_before(seq![], y, plus);
        assert(seq![] + y =~= y);
        assert(prerelease(y) =~= prerelease(x));
        crate::order::lemma_fields_flip(
            split_of(prerelease(x), Class::One('.')),
            split_of(prerelease(x), Class::One('.')),
            true,
        );
    } else {
        lemma_first_of_is(y, plus);
        let kept = before(y, plus);
        assert(kept.len() > 1) by {
            if first_of(y, plus) is Some {
                let n = first_of(y, plus)->Some_0;
                assert(plus.has(y[n as int]));
                assert(n != 0 && n != 1);
            }
        }
        assert(kept[0] == '-');
        assert(prerelease(y).len() > 0);
    }
}

/// Whether some texts can be the fields of a prerelease.
pub open spec fn are_fields(fields: Seq<Seq<char>>) -> bool {
    fields.len() > 0 && forall|i: int|
        0 <= i < fields.len() ==> (#[trigger] fields[i]).len() > 0 && lacks(fields[i], '.')
            && lacks(fields[i], '+')
}

/// Whether a field is a number.
pub open spec fn is_numeric(field: Seq<char>) -> bool {
    field.len() > 0 && digits_only(field)
}

proof fn lemma_all_digits(s: Seq<char>)
    ensures
        crate::order::all_digits(s) == is_numeric(s),
{
    lemma_first_of_is(s, Class::NotDigit);
}

proof fn lemma_fields(f: Seq<Seq<char>>, g: Seq<Seq<char>>, k: int, first: bool)
    requires
        0 <= k <= f.len(),
        0 <= k <= g.len(),
        f.take(k) == g.take(k),
    ensures
        fields_order(f, g, first) == (if k == f.len() || k == g.len() {
            int_order(f.len() as int, g.len() as int)
        } else {
            fields_order(f.skip(k), g.skip(k), first)
        }),
        k < f.len() && k < g.len() && field_order(f[k], g[k], first) != Order::Equal
            ==> fields_order(f, g, first) == field_order(f[k], g[k], first),
    decreases k,
{
    if k > 0 {
        assert(f[0] == f.take(k)[0] && g[0] == g.take(k)[0]);
        let (x, y) = (f.skip(1), g.skip(1));
        assert(x.take(k - 1) =~= f.take(k).skip(1));
        assert(y.take(k - 1) =~= g.take(k).skip(1));
        lemma_fields(x, y, k - 1, first);
        crate::order::lemma_digits_flip(f[0], f[0]);
        crate::order::lemma_text_flip(f[0], f[0]);
        assert(x.skip(k - 1) =~= f.skip(k));
        assert(y.skip(k - 1) =~= g.skip(k));
    } else {
        assert(f.skip(0) =~= f);
        assert(g.skip(0) =~= g);
    }
}

proof fn lemma_dots_lack(fields: Seq<Seq<char>>, c: char)
    requires
        c != '.',
        fields.len() > 0,
        forall|i: int| 0 <= i < fields.len() ==> lacks(#[trigger] fields[i], c),
        forall|i: int| 0 <= i < fields.len() ==> (#[trigger] fields[i]).len() > 0,
    ensures
        lacks(with_dots(fields), c),
        with_dots(fields).len() > 0,
    decreases fields.len(),
{
    let last = fields[fields.len() - 1];
    assert(lacks(last, c) && last.len() > 0);
    if fields.len() > 1 {
        let front = fields.drop_last();
        assert forall|i: int| 0 <= i < front.len() implies lacks(#[trigger] front[i], c) by {
            assert(front[i] == fields[i]);
        }
        assert forall|i: int| 0 <= i < front.len() implies (#[trigger] front[i]).len() > 0 by {
            assert(front[i] == fields[i]);
        }
        lemma_dots_lack(front, c);
        let head = with_dots(front);
        let s = with_dots(fields);
        assert forall|i: int| 0 <= i < s.len() implies #[trigger] s[i] != c by {
            if i < head.len() {
                assert(s[i] == head[i]);
            } else if i > head.len() {
                assert(s[i] == last[i - head.len() - 1]);
            }
        }
    }
}

/// A prerelease as it is written.
pub open spec fn prerelease_of(fields: Seq<Seq<char>>) -> Seq<char> {
    seq!['-'] + with_dots(fields)
}

proof fn lemma_prerelease(fields: Seq<Seq<char>>)
    requires
        are_fields(fields),
    ensures
        prerelease(prerelease_of(fields)) == with_dots(fields),
        with_dots(fields).len() > 0,
        split_of(with_dots(fields), Class::One('.')) == fields,
        is_suffix(prerelease_of(fields)),
{
    lemma_dots_lack(fields, '+');
    let s = prerelease_of(fields);
    let dots = with_dots(fields);
    assert forall|i: int| 0 <= i < s.len() implies !Class::One('+').has(#[trigger] s[i]) by {
        if i > 0 {
            assert(s[i] == dots[i - 1]);
        }
    }
    lemma_before(s, seq![], Class::One('+'));
    assert(s + Seq::<char>::empty() =~= s);
    assert(s.skip(1) =~= dots);
    lemma_split_dots(fields);
}

/// Between prereleases of the same numbers the first field that differs
/// decides: numbers by their value, words as text, a number before a word; and
/// of two that agree as far as they go, the shorter is below.
pub proof fn the_first_field_that_differs_decides(
    v: bool,
    a: Seq<Seq<char>>,
    f: Seq<Seq<char>>,
    w: bool,
    b: Seq<Seq<char>>,
    g: Seq<Seq<char>>,
    k: int,
    e: Ecosystem,
)
    requires
        is_semver(e),
        are_numbers(a) && a.len() <= 3 && are_fields(f),
        are_numbers(b) && b.len() <= 3 && are_fields(g),
        agree(a, b),
        0 <= k <= f.len(),
        0 <= k < g.len(),
        f.take(k) == g.take(k),
        k < f.len() ==> {
            ||| is_numeric(f[k]) && is_numeric(g[k]) && value(f[k]) < value(g[k])
            ||| !is_numeric(f[k]) && !is_numeric(g[k]) && text_order(f[k], g[k]) == Order::Less
            ||| is_numeric(f[k]) && !is_numeric(g[k])
        },
    ensures
        strings_order(written(v, a, prerelease_of(f)), written(w, b, prerelease_of(g)), e)
            == Order::Less,
{
    lemma_prerelease(f);
    lemma_prerelease(g);
    a_version_is_read_as_it_is_written(v, a, prerelease_of(f));
    a_version_is_read_as_it_is_written(w, b, prerelease_of(g));
    reveal(version_of);
    reveal(version_order);
    lemma_agree(a, b);
    lemma_fields(f, g, k, true);
    if k < f.len() {
        lemma_all_digits(f[k]);
        lemma_all_digits(g[k]);
        if is_numeric(f[k]) && is_numeric(g[k]) {
            digits_order_is_numeric(f[k], g[k]);
        }
    }
}

// ---- PyPI ----

/// What a group of a match holds, empty where it took no part.
pub open spec fn held_by(groups: Seq<Option<Seq<char>>>, i: int) -> Seq<char> {
    if 0 <= i < groups.len() {
        match groups[i] {
            Some(s) => s,
            None => seq![],
        }
    } else {
        seq![]
    }
}

/// The parts of a PEP 440 version, as a match tells them apart: numbers are
/// digits, and the release is numbers with dots between them.
pub struct Release {
    pub epoch: Seq<char>,
    pub numbers: Seq<Seq<char>>,
    pub pre_letter: Seq<char>,
    pub pre_number: Seq<char>,
    /// The number of the short form `1.0-1`.
    pub post_short: Seq<char>,
    pub post_letter: Seq<char>,
    pub post_number: Seq<char>,
    pub dev_letter: Seq<char>,
    pub dev_number: Seq<char>,
}

pub open spec fn is_phase(letter: Seq<char>) -> bool {
    phase_rank(letter) >= 0
}

/// Where a phase stands before a release: alpha, beta, then candidates.
pub open spec fn phase_rank(letter: Seq<char>) -> int {
    if letter == "a"@ || letter == "alpha"@ {
        0
    } else if letter == "b"@ || letter == "beta"@ {
        1
    } else if letter == "c"@ || letter == "rc"@ || letter == "pre"@ || letter == "preview"@ {
        2
    } else {
        -1
    }
}

impl Release {
    /// Whether a match has these parts.
    pub open spec fn spells(self, groups: Seq<Option<Seq<char>>>) -> bool {
        &&& held_by(groups, 1) == self.epoch
        &&& held_by(groups, 2) == with_dots(self.numbers)
        &&& held_by(groups, 4) == self.pre_letter
        &&& held_by(groups, 6) == self.pre_number
        &&& held_by(groups, 8) == self.post_short
        &&& held_by(groups, 9) == self.post_letter
        &&& held_by(groups, 10) == self.post_number
        &&& held_by(groups, 12) == self.dev_letter
        &&& held_by(groups, 13) == self.dev_number
    }

    pub open spec fn wf(self) -> bool {
        &&& digits_only(self.epoch)
        &&& are_numbers(self.numbers)
        &&& self.pre_letter.len() > 0 ==> is_phase(self.pre_letter)
        &&& self.pre_letter.len() == 0 ==> self.pre_number.len() == 0
        &&& self.dev_letter.len() == 0 ==> self.dev_number.len() == 0
        &&& digits_only(self.pre_number) && digits_only(self.post_short) && digits_only(
            self.post_number,
        ) && digits_only(self.dev_number)
        &&& self.post_letter.len() == 0 ==> self.post_number.len() == 0
        &&& self.post_short.len() > 0 ==> self.post_letter.len() == 0
    }

    pub open spec fn has_pre(self) -> bool {
        self.pre_letter.len() > 0
    }

    pub open spec fn has_post(self) -> bool {
        self.post_letter.len() > 0 || self.post_short.len() > 0
    }

    pub open spec fn has_dev(self) -> bool {
        self.dev_letter.len() > 0
    }

    /// The number of a post-release, in whichever form.
    pub open spec fn post(self) -> int {
        if self.post_short.len() > 0 {
            value(self.post_short)
        } else {
            value(self.post_number)
        }
    }

    /// Whether this is a development release of a final one.
    pub open spec fn is_only_dev(self) -> bool {
        self.has_dev() && !self.has_pre() && !self.has_post()
    }
}

/// Whether two versions have the same epoch and the same release.
pub open spec fn same_release(a: Release, b: Release) -> bool {
    value(a.epoch) == value(b.epoch) && agree(a.numbers, b.numbers)
}

/// Whether two versions stand alike before their release.
pub open spec fn same_pre(a: Release, b: Release) -> bool {
    &&& a.is_only_dev() == b.is_only_dev()
    &&& a.has_pre() == b.has_pre()
    &&& a.has_pre() ==> phase_rank(a.pre_letter) == phase_rank(b.pre_letter) && value(
        a.pre_number,
    ) == value(b.pre_number)
}

pub open spec fn same_post(a: Release, b: Release) -> bool {
    a.has_post() == b.has_post() && (a.has_post() ==> a.post() == b.post())
}

proof fn lemma_zero()
    ensures
        value("0"@) == 0,
        value(seq![]) == 0,
        digits_only("0"@),
        "0"@.len() == 1,
{
    reveal_strlit("0");
    assert("0"@.drop_last() =~= seq![]);
    assert(value("0"@.drop_last()) == 0);
}

proof fn lemma_phase_letters(x: Seq<char>)
    requires
        is_phase(x),
    ensures
        ({
            let y = phase_letter(x);
            &&& y.len() > 0
            &&& phase_rank(x) == 0 ==> y[0] == 'a'
            &&& phase_rank(x) == 1 ==> y[0] == 'b'
            &&& phase_rank(x) == 2 ==> y[0] == 'r'
        }),
{
    reveal_strlit("a");
    reveal_strlit("b");
    reveal_strlit("c");
    reveal_strlit("rc");
    reveal_strlit("alpha");
    reveal_strlit("beta");
    reveal_strlit("pre");
    reveal_strlit("preview");
    reveal_strlit("rev");
    reveal_strlit("r");
    reveal_strlit("post");
    assert("a"@[0] == 'a' && "b"@[0] == 'b' && "rc"@[0] == 'r' && "c"@[0] == 'c');
    assert("alpha"@[0] == 'a' && "alpha"@.len() == 5 && "beta"@[0] == 'b' && "beta"@.len() == 4);
    assert("pre"@[0] == 'p' && "pre"@.len() == 3 && "preview"@.len() == 7);
    assert("rev"@.len() == 3 && "rev"@[0] == 'r' && "r"@.len() == 1 && "r"@[0] == 'r');
    assert("rc"@.len() == 2);
}

/// What the parts of a version become.
proof fn lemma_view(r: Release, groups: Seq<Option<Seq<char>>>)
    requires
        r.wf(),
        r.spells(groups),
    ensures
        ({
            let p = pypi_from_groups(groups);
            &&& p.legacy.len() == 0
            &&& digits_only(p.epoch) && value(p.epoch) == value(r.epoch)
            &&& p.release == r.numbers
            &&& p.pre.number is Some == r.has_pre()
            &&& r.has_pre() ==> digits_only(p.pre.number->Some_0) && value(p.pre.number->Some_0)
                == value(r.pre_number) && p.pre.letter == phase_letter(r.pre_letter)
            &&& p.post.number is Some == r.has_post()
            &&& r.has_post() ==> digits_only(p.post.number->Some_0) && value(
                p.post.number->Some_0,
            ) == r.post()
            &&& p.dev.number is Some == r.has_dev()
            &&& r.has_dev() ==> digits_only(p.dev.number->Some_0) && value(p.dev.number->Some_0)
                == value(r.dev_number)
        }),
{
    lemma_zero();
    lemma_numbers_lack_dots(r.numbers);
    lemma_split_dots(r.numbers);
    if r.epoch.len() == 0 {
        assert(r.epoch =~= seq![]);
    }
    if r.pre_number.len() == 0 {
        assert(r.pre_number =~= seq![]);
    }
    if r.post_number.len() == 0 {
        assert(r.post_number =~= seq![]);
    }
    if r.dev_number.len() == 0 {
        assert(r.dev_number =~= seq![]);
    }
}

/// Every number of a release counts: written out with dots again, they are what
/// was matched.
pub proof fn a_release_keeps_every_number(groups: Seq<Option<Seq<char>>>, numbers: Seq<Seq<char>>)
    requires
        are_numbers(numbers),
        held_by(groups, 2) == with_dots(numbers),
    ensures
        pypi_from_groups(groups).release == numbers,
        with_dots(pypi_from_groups(groups).release) == held_by(groups, 2),
{
    lemma_numbers_lack_dots(numbers);
    lemma_split_dots(numbers);
}

/// A later epoch is above, whatever else the versions say.
pub proof fn a_later_epoch_is_above(
    a: Release,
    g: Seq<Option<Seq<char>>>,
    b: Release,
    h: Seq<Option<Seq<char>>>,
)
    requires
        a.wf() && a.spells(g),
        b.wf() && b.spells(h),
        value(a.epoch) < value(b.epoch),
    ensures
        pypi_order(pypi_from_groups(g), pypi_from_groups(h)) == Order::Less,
{
    lemma_view(a, g);
    lemma_view(b, h);
    digits_order_is_numeric(pypi_from_groups(g).epoch, pypi_from_groups(h).epoch);
}

/// In one epoch the first number of the release that differs decides, wherever
/// it stands; a number that is missing counts as zero.
pub proof fn the_first_release_number_that_differs_decides(
    a: Release,
    g: Seq<Option<Seq<char>>>,
    b: Release,
    h: Seq<Option<Seq<char>>>,
    k: int,
)
    requires
        a.wf() && a.spells(g),
        b.wf() && b.spells(h),
        value(a.epoch) == value(b.epoch),
        k >= 0,
        agree_before(a.numbers, b.numbers, k),
        number_at(a.numbers, k) < number_at(b.numbers, k),
    ensures
        pypi_order(pypi_from_groups(g), pypi_from_groups(h)) == Order::Less,
        pypi_order(pypi_from_groups(h), pypi_from_groups(g)) == Order::Greater,
{
    lemma_view(a, g);
    lemma_view(b, h);
    digits_order_is_numeric(pypi_from_groups(g).epoch, pypi_from_groups(h).epoch);
    lemma_padded(a.numbers, b.numbers, k);
    crate::version::pypi::lemma_pypi_flip(pypi_from_groups(g), pypi_from_groups(h));
}

/// Of one release: development releases first, then alphas, betas and
/// candidates by their number, then the release itself.
pub proof fn phases_lead_to_a_release(
    a: Release,
    g: Seq<Option<Seq<char>>>,
    b: Release,
    h: Seq<Option<Seq<char>>>,
)
    requires
        a.wf() && a.spells(g),
        b.wf() && b.spells(h),
        same_release(a, b),
        ({
            ||| a.is_only_dev() && !b.is_only_dev()
            ||| a.has_pre() && !b.has_pre() && !b.is_only_dev()
            ||| a.has_pre() && b.has_pre() && phase_rank(a.pre_letter) < phase_rank(b.pre_letter)
            ||| a.has_pre() && b.has_pre() && phase_rank(a.pre_letter) == phase_rank(b.pre_letter)
                && value(a.pre_number) < value(b.pre_number)
        }),
    ensures
        pypi_order(pypi_from_groups(g), pypi_from_groups(h)) == Order::Less,
{
    let (p, q) = (pypi_from_groups(g), pypi_from_groups(h));
    lemma_view(a, g);
    lemma_view(b, h);
    digits_order_is_numeric(p.epoch, q.epoch);
    lemma_agree(a.numbers, b.numbers);
    lemma_pre(a, g, b, h);
}

proof fn lemma_pre(
    a: Release,
    g: Seq<Option<Seq<char>>>,
    b: Release,
    h: Seq<Option<Seq<char>>>,
)
    requires
        a.wf() && a.spells(g),
        b.wf() && b.spells(h),
    ensures
        a.is_only_dev() && !b.is_only_dev() ==> pre_order(
            pypi_from_groups(g),
            pypi_from_groups(h),
        ) == Order::Less,
        !a.is_only_dev() && !b.is_only_dev() && a.has_pre() && !b.has_pre() ==> pre_order(
            pypi_from_groups(g),
            pypi_from_groups(h),
        ) == Order::Less,
        a.has_pre() && b.has_pre() ==> pre_order(pypi_from_groups(g), pypi_from_groups(h)) == (if
        phase_rank(a.pre_letter) != phase_rank(b.pre_letter) {
            int_order(phase_rank(a.pre_letter), phase_rank(b.pre_letter))
        } else {
            int_order(value(a.pre_number), value(b.pre_number))
        }),
        same_pre(a, b) ==> pre_order(pypi_from_groups(g), pypi_from_groups(h)) == Order::Equal,
{
    let (p, q) = (pypi_from_groups(g), pypi_from_groups(h));
    lemma_view(a, g);
    lemma_view(b, h);
    assert(only_dev(p) == a.is_only_dev());
    assert(only_dev(q) == b.is_only_dev());
    if a.has_pre() && b.has_pre() {
        lemma_phase_letters(a.pre_letter);
        lemma_phase_letters(b.pre_letter);
        digits_order_is_numeric(p.pre.number->Some_0, q.pre.number->Some_0);
        let (x, y) = (p.pre.letter.take(1), q.pre.letter.take(1));
        if phase_rank(a.pre_letter) == phase_rank(b.pre_letter) {
            assert(x =~= y);
            assert(x.take(1) =~= y.take(1));
            text_orders_as_in_a_dictionary(x, y, 1);
        } else {
            assert(x.take(0) =~= y.take(0));
            text_orders_as_in_a_dictionary(x, y, 0);
        }
    }
}

/// A post-release is above what it follows, and post-releases go by their
/// number, in whichever form it is written.
pub proof fn a_post_release_is_above_what_it_follows(
    a: Release,
    g: Seq<Option<Seq<char>>>,
    b: Release,
    h: Seq<Option<Seq<char>>>,
)
    requires
        a.wf() && a.spells(g),
        b.wf() && b.spells(h),
        same_release(a, b),
        same_pre(a, b),
        b.has_post(),
        a.has_post() ==> a.post() < b.post(),
    ensures
        pypi_order(pypi_from_groups(g), pypi_from_groups(h)) == Order::Less,
{
    let (p, q) = (pypi_from_groups(g), pypi_from_groups(h));
    lemma_view(a, g);
    lemma_view(b, h);
    digits_order_is_numeric(p.epoch, q.epoch);
    lemma_agree(a.numbers, b.numbers);
    lemma_pre(a, g, b, h);
    if a.has_post() {
        digits_order_is_numeric(p.post.number->Some_0, q.post.number->Some_0);
    }
}

/// A development release is below what it leads to, and development releases go
/// by their number.
pub proof fn a_development_release_is_below_what_it_leads_to(
    a: Release,
    g: Seq<Option<Seq<char>>>,
    b: Release,
    h: Seq<Option<Seq<char>>>,
)
    requires
        a.wf() && a.spells(g),
        b.wf() && b.spells(h),
        same_release(a, b),
        same_pre(a, b),
        same_post(a, b),
        a.has_dev(),
        b.has_dev() ==> value(a.dev_number) < value(b.dev_number),
    ensures
        pypi_order(pypi_from_groups(g), pypi_from_groups(h)) == Order::Less,
{
    let (p, q) = (pypi_from_groups(g), pypi_from_groups(h));
    lemma_view(a, g);
    lemma_view(b, h);
    digits_order_is_numeric(p.epoch, q.epoch);
    lemma_agree(a.numbers, b.numbers);
    lemma_pre(a, g, b, h);
    if a.has_post() {
        digits_order_is_numeric(p.post.number->Some_0, q.post.number->Some_0);
    }
    if b.has_dev() {
        digits_order_is_numeric(p.dev.number->Some_0, q.dev.number->Some_0);
    }
}

/// Versions that agree in every part are the same version, however many zeros
/// they are filled up with and however their phases are spelled.
pub proof fn versions_that_agree_are_equal(
    a: Release,
    g: Seq<Option<Seq<char>>>,
    b: Release,
    h: Seq<Option<Seq<char>>>,
)
    requires
        a.wf() && a.spells(g),
        b.wf() && b.spells(h),
        same_release(a, b),
        same_pre(a, b),
        same_post(a, b),
        a.has_dev() == b.has_dev(),
        a.has_dev() ==> value(a.dev_number) == value(b.dev_number),
        held_by(g, 14) == held_by(h, 14),
    ensures
        pypi_order(pypi_from_groups(g), pypi_from_groups(h)) == Order::Equal,
{
    let (p, q) = (pypi_from_groups(g), pypi_from_groups(h));
    lemma_view(a, g);
    lemma_view(b, h);
    digits_order_is_numeric(p.epoch, q.epoch);
    lemma_agree(a.numbers, b.numbers);
    lemma_pre(a, g, b, h);
    if a.has_post() {
        digits_order_is_numeric(p.post.number->Some_0, q.post.number->Some_0);
    }
    if a.has_dev() {
        digits_order_is_numeric(p.dev.number->Some_0, q.dev.number->Some_0);
    }
    crate::order::lemma_fields_flip(p.local, p.local, false);
}

/// Whether some texts can be the fields of a local version.
pub open spec fn are_local(fields: Seq<Seq<char>>) -> bool {
    fields.len() > 0 && forall|i: int| 0 <= i < fields.len() ==> is_local(#[trigger] fields[i])
}

/// Whether a text is one or more digits and small letters.
pub open spec fn is_local(field: Seq<char>) -> bool {
    field.len() > 0 && forall|j: int|
        0 <= j < field.len() ==> is_digit(#[trigger] field[j]) || ('a' <= field[j] && field[j]
            <= 'z')
}

proof fn lemma_local(g: Seq<Option<Seq<char>>>, f: Seq<Seq<char>>)
    requires
        are_local(f),
        held_by(g, 14) == with_dots(f),
    ensures
        pypi_from_groups(g).local == f,
{
    let k = Class::Separator;
    assert forall|i: int, j: int| 0 <= i < f.len() && 0 <= j < f[i].len() implies !k.has(
        #[trigger] f[i][j],
    ) by {
        assert(is_local(f[i]));
    }
    lemma_split_at_dots(f, k);
    assert forall|i: int| 0 <= i < f.len() implies (#[trigger] f[i]).len() > 0 && lacks(
        f[i],
        '+',
    ) by {
        assert(is_local(f[i]));
    }
    lemma_dots_lack(f, '+');
    assert forall|i: int| 0 <= i < f.len() implies crate::version::pypi::lower_of(
        #[trigger] f[i],
    ) == f[i] by {
        assert(is_local(f[i]));
        assert(crate::version::pypi::lower_of(f[i]) =~= f[i]);
    }
    assert(crate::version::pypi::lowered(f) =~= f);
}

/// Between versions that agree otherwise, one with a local part is above one
/// without, and of two the first field that differs decides: numbers by their
/// value, words as text, a number above a word; the longer is above where they
/// agree as far as the shorter goes.
pub proof fn local_parts_decide_last(
    a: Release,
    g: Seq<Option<Seq<char>>>,
    f: Seq<Seq<char>>,
    b: Release,
    h: Seq<Option<Seq<char>>>,
    l: Seq<Seq<char>>,
    k: int,
)
    requires
        a.wf() && a.spells(g),
        b.wf() && b.spells(h),
        same_release(a, b),
        same_pre(a, b),
        same_post(a, b),
        a.has_dev() == b.has_dev(),
        a.has_dev() ==> value(a.dev_number) == value(b.dev_number),
        held_by(g, 14) == with_dots(f),
        held_by(h, 14) == with_dots(l),
        f.len() == 0 || are_local(f),
        are_local(l),
        0 <= k <= f.len(),
        0 <= k < l.len(),
        f.take(k) == l.take(k),
        k < f.len() ==> {
            ||| is_numeric(f[k]) && is_numeric(l[k]) && value(f[k]) < value(l[k])
            ||| !is_numeric(f[k]) && !is_numeric(l[k]) && text_order(f[k], l[k]) == Order::Less
            ||| !is_numeric(f[k]) && is_numeric(l[k])
        },
    ensures
        pypi_order(pypi_from_groups(g), pypi_from_groups(h)) == Order::Less,
{
    let (p, q) = (pypi_from_groups(g), pypi_from_groups(h));
    lemma_view(a, g);
    lemma_view(b, h);
    digits_order_is_numeric(p.epoch, q.epoch);
    lemma_agree(a.numbers, b.numbers);
    lemma_pre(a, g, b, h);
    if a.has_post() {
        digits_order_is_numeric(p.post.number->Some_0, q.post.number->Some_0);
    }
    if a.has_dev() {
        digits_order_is_numeric(p.dev.number->Some_0, q.dev.number->Some_0);
    }
    lemma_local(h, l);
    if f.len() > 0 {
        lemma_local(g, f);
    } else {
        assert(p.local =~= f);
    }
    lemma_fields(f, l, k, false);
    if k < f.len() {
        lemma_all_digits(f[k]);
        lemma_all_digits(l[k]);
        if is_numeric(f[k]) && is_numeric(l[k]) {
            digits_order_is_numeric(f[k], l[k]);
        }
    }
}

// ---- more than three numbers ----

/// What a version of four numbers is read as: the fourth is kept behind a dot.
proof fn lemma_fourth(v: bool, numbers: Seq<Seq<char>>)
    requires
        are_numbers(numbers),
        numbers.len() == 4,
    ensures
        semver_of(written(v, numbers, seq![])).components == numbers.take(3),
        semver_of(written(v, numbers, seq![])).build == "."@ + canonical(numbers[3]),
{
    reveal_strlit("");
    reveal_strlit(".");
    let none = Seq::<char>::empty();
    let s = written(v, numbers, none);
    let dots = with_dots(numbers);
    let body = dots + none;
    lemma_dots_numeric(numbers);
    assert(body =~= dots);
    if v {
        assert(s[0] == 'v');
        assert(s.skip(1) =~= body);
    } else {
        assert(s =~= body);
        assert(s[0] == dots[0]);
        assert(is_digit(s[0]));
    }
    lemma_trim_front(dots, none, Class::Numeric);
    let n = dots.len() as int;
    assert(body.take(n) =~= dots);
    assert(body.skip(n) =~= none);
    lemma_numbers_lack_dots(numbers);
    lemma_split_dots(numbers);
    lemma_nonempty(numbers);
    assert(dots[n - 1] == dots.last());
    let extra = numbers.skip(3);
    assert(extra =~= seq![numbers[3]]);
    assert(extra.drop_last() =~= Seq::<Seq<char>>::empty());
    let build = ""@ + (""@ + none);
    assert(build =~= none);
    assert(dotted(build, extra.drop_last()) == build);
    assert(dotted(build, extra) =~= "."@ + canonical(numbers[3]));
}

proof fn lemma_canonical(s: Seq<char>)
    requires
        digits_only(s),
    ensures
        digits_only(canonical(s)),
        canonical(s).len() > 0,
        value(canonical(s)) == value(s),
        crate::order::all_digits(canonical(s)),
        lacks(canonical(s), '.'),
        lacks(canonical(s), '+'),
{
    lemma_significant(s);
    let c = canonical(s);
    lemma_all_digits(c);
    if significant(s).len() == 0 {
        let zero = seq!['0'];
        assert(zero.drop_last() =~= Seq::<char>::empty());
        assert(value(zero.drop_last()) == 0);
        assert(value(significant(s)) == 0);
        assert(c == zero);
    }
    assert forall|i: int| 0 <= i < c.len() implies #[trigger] c[i] != '.' && c[i] != '+' by {
        assert(is_digit(c[i]));
    }
}

proof fn lemma_behind_dot(c: Seq<char>)
    requires
        lacks(c, '.'),
        lacks(c, '+'),
        c.len() > 0,
    ensures
        prerelease("."@ + c) == "."@ + c,
        split_of("."@ + c, Class::One('.')) == seq![Seq::<char>::empty(), c],
{
    reveal_strlit(".");
    let s = "."@ + c;
    let none = Seq::<char>::empty();
    assert forall|i: int| 0 <= i < s.len() implies !Class::One('+').has(#[trigger] s[i]) by {
        if i > 0 {
            assert(s[i] == c[i - 1]);
        }
    }
    lemma_before(s, none, Class::One('+'));
    assert(s + none =~= s);
    assert(s[0] == '.');
    let two = seq![none, c];
    assert(two.drop_last() =~= seq![none]);
    assert(with_dots(two.drop_last()) =~= none);
    assert(with_dots(two) =~= s);
    assert forall|i: int| 0 <= i < two.len() implies lacks(#[trigger] two[i], '.') by {}
    lemma_split_dots(two);
}

/// A fourth number counts: between versions that agree in three it decides, and
/// one that has it is below the one that stops there.
pub proof fn a_fourth_number_counts(
    v: bool,
    a: Seq<Seq<char>>,
    w: bool,
    b: Seq<Seq<char>>,
    e: Ecosystem,
)
    requires
        is_semver(e),
        are_numbers(a) && a.len() == 4,
        are_numbers(b) && b.len() == 4,
        a.take(3) == b.take(3),
    ensures
        strings_order(written(v, a, seq![]), written(w, b, seq![]), e) == int_order(
            value(a[3]),
            value(b[3]),
        ),
        strings_order(written(v, a, seq![]), written(w, b.take(3), seq![]), e) == Order::Less,
{
    let none = Seq::<char>::empty();
    let three = b.take(3);
    lemma_fourth(v, a);
    lemma_fourth(w, b);
    assert(are_numbers(three)) by {
        assert forall|i: int| 0 <= i < three.len() implies three[i] == b[i] by {}
    }
    a_version_is_read_as_it_is_written(w, three, none);
    reveal(version_of);
    reveal(version_order);
    lemma_agree(three, three);
    let (x, y) = (canonical(a[3]), canonical(b[3]));
    assert(digits_only(a[3]) && digits_only(b[3]));
    lemma_canonical(a[3]);
    lemma_canonical(b[3]);
    lemma_behind_dot(x);
    lemma_behind_dot(y);
    digits_order_is_numeric(x, y);
    let (f, g) = (seq![none, x], seq![none, y]);
    assert(f.skip(1) =~= seq![x] && g.skip(1) =~= seq![y]);
    let (ft, gt) = (f.skip(1), g.skip(1));
    assert(ft.skip(1).len() == 0 && gt.skip(1).len() == 0);
    assert(fields_order(ft.skip(1), gt.skip(1), true) == Order::Equal);
    assert(fields_order(ft, gt, true) == digits_order(x, y));
    digits_order_is_numeric(none, none);
    assert(text_order(none, none) == Order::Equal);
    assert(field_order(none, none, true) == Order::Equal);
    assert(fields_order(f, g, true) == digits_order(x, y));
    reveal_strlit(".");
    assert(prerelease(none).len() == 0) by {
        lemma_before(none, none, Class::One('+'));
        assert(none + none =~= none);
    }
}

} // verus!
