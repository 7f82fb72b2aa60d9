//! How versions of Python packages order that predate the standard for them.
use crate::order::{int_order, lemma_text_equal, text_order, Order};
use crate::text::is_digit;
use crate::version::digits::{digits_only, lemma_same_length, value};
use crate::version::pypi::{legacy_of, legacy_part, pypi_from_legacy, without_trailing, zeros};
use vstd::prelude::*;

verus! {

proof fn lemma_padded(n: nat, s: Seq<char>)
    requires
        digits_only(s),
    ensures
        digits_only(zeros(n) + s),
        value(zeros(n) + s) == value(s),
    decreases s.len(),
{
    let t = zeros(n) + s;
    assert forall|i: int| 0 <= i < t.len() implies is_digit(#[trigger] t[i]) by {
        if i >= n {
            assert(t[i] == s[i - n]);
        }
    }
    if s.len() == 0 {
        lemma_zeros(n);
        assert(t =~= zeros(n));
    } else {
        let front = s.drop_last();
        assert forall|i: int| 0 <= i < front.len() implies is_digit(#[trigger] front[i]) by {
            assert(front[i] == s[i]);
        }
        lemma_padded(n, front);
        assert(t.drop_last() =~= zeros(n) + front);
        assert(t.last() == s.last());
    }
}

proof fn lemma_zeros(n: nat)
    ensures
        value(zeros(n)) == 0,
    decreases n,
{
    if n > 0 {
        lemma_zeros((n - 1) as nat);
        assert(zeros(n).drop_last() =~= zeros((n - 1) as nat));
    }
}

proof fn lemma_number_part(s: Seq<char>)
    requires
        digits_only(s),
        0 < s.len() <= 8,
    ensures
        legacy_part(s) == zeros((8 - s.len()) as nat) + s,
{
    reveal_strlit("pre");
    reveal_strlit("preview");
    reveal_strlit("rc");
    reveal_strlit("-");
    reveal_strlit("dev");
    assert(is_digit(s[0]));
    assert("pre"@[0] == 'p' && "preview"@[0] == 'p' && "rc"@[0] == 'r' && "-"@[0] == '-'
        && "dev"@[0] == 'd');
    assert(zeros(0) + s =~= s);
}

/// The numbers of a version from before the standard order as numbers, not as
/// text, as long as they have no more than eight digits.
pub proof fn old_numbers_order_as_numbers(a: Seq<char>, b: Seq<char>)
    requires
        digits_only(a),
        digits_only(b),
        0 < a.len() <= 8,
        0 < b.len() <= 8,
    ensures
        text_order(legacy_part(a), legacy_part(b)) == int_order(value(a), value(b)),
{
    lemma_number_part(a);
    lemma_number_part(b);
    lemma_padded((8 - a.len()) as nat, a);
    lemma_padded((8 - b.len()) as nat, b);
    lemma_same_length(legacy_part(a), legacy_part(b));
}

/// A word in a version from before the standard is below any number, and a
/// development release below any other word.
pub proof fn old_words_are_below_numbers(n: Seq<char>, w: Seq<char>)
    requires
        digits_only(n),
        n.len() > 0,
        w.len() > 0,
        'a' <= w[0] <= 'z',
        w != "dev"@,
    ensures
        text_order(legacy_part(w), legacy_part(n)) == Order::Less,
        text_order(legacy_part("dev"@), legacy_part(w)) == Order::Less,
        legacy_part("rc"@) == legacy_part("c"@),
        legacy_part("pre"@) == legacy_part("c"@),
        legacy_part("preview"@) == legacy_part("c"@),
{
    reveal_strlit("pre");
    reveal_strlit("preview");
    reveal_strlit("rc");
    reveal_strlit("c");
    reveal_strlit("-");
    reveal_strlit("@");
    reveal_strlit("*");
    reveal_strlit("dev");
    assert("pre"@.len() == 3 && "preview"@.len() == 7 && "rc"@.len() == 2 && "-"@.len() == 1
        && "dev"@.len() == 3 && "c"@.len() == 1);
    assert("pre"@[0] == 'p' && "preview"@[0] == 'p' && "rc"@[0] == 'r' && "-"@[0] == '-'
        && "dev"@[0] == 'd' && "c"@[0] == 'c' && "@"@[0] == '@' && "*"@[0] == '*');
    assert(is_digit(n[0]));
    let x = legacy_part(w);
    let y = legacy_part(n);
    assert(x[0] == '*');
    assert(is_digit(y[0]));
    let d = legacy_part("dev"@);
    assert(d =~= "*"@ + "@"@);
    assert(d[0] == '*' && d.skip(1)[0] == '@');
    assert(x.skip(1)[0] == w[0] || x.skip(1)[0] == 'c');
    let (dt, xt) = (d.skip(1), x.skip(1));
    assert(dt.len() == 1 && xt.len() > 0);
    assert('@' < 'a' && '@' < 'c');
    assert(dt[0] < xt[0]);
    assert(text_order(dt, xt) == Order::Less);
    assert(text_order(d, x) == text_order(dt, xt));
}

/// Trailing zeros of a version from before the standard do not count, and
/// neither do its points.
pub proof fn old_trailing_zeros_do_not_count(raws: Seq<Seq<char>>, zero: Seq<char>)
    requires
        0 < zero.len() <= 8,
        forall|i: int| 0 <= i < zero.len() ==> #[trigger] zero[i] == '0',
    ensures
        pypi_from_legacy(raws.push(zero)) == pypi_from_legacy(raws),
        legacy_of(raws.push("."@)) == legacy_of(raws),
{
    reveal_strlit(".");
    reveal_strlit("00000000");
    reveal_strlit("final");
    reveal_strlit("*final");
    reveal_strlit("*");
    reveal_strlit("-");
    reveal_strlit("pre");
    reveal_strlit("preview");
    reveal_strlit("rc");
    reveal_strlit("dev");
    assert forall|i: int| 0 <= i < zero.len() implies is_digit(#[trigger] zero[i]) by {}
    lemma_number_part(zero);
    let part = legacy_part(zero);
    assert(part =~= "00000000"@);
    assert(zero[0] != '.');
    let parts = legacy_of(raws);
    let end = "final"@;
    assert(raws.push("."@).drop_last() =~= raws);
    assert(raws.push(zero).drop_last() =~= raws);
    assert(raws.push(end).drop_last() =~= raws);
    assert(raws.push(zero).push(end).drop_last() =~= raws.push(zero));
    assert("."@[0] == '.');
    assert(part[0] == '0');
    assert(legacy_of(raws.push(zero)) == parts.push(part));
    assert(end.len() == 5 && end[0] == 'f');
    assert("dev"@.len() == 3 && "rc"@.len() == 2 && "pre"@.len() == 3 && "preview"@.len() == 7
        && "-"@.len() == 1 && "."@.len() == 1);
    let mark = legacy_part(end);
    assert(mark =~= "*final"@);
    lemma_text_equal("*final"@, "*final"@);
    assert(parts.push(part).drop_last() =~= parts);
    assert(without_trailing(parts.push(part), "00000000"@) == without_trailing(
        parts,
        "00000000"@,
    ));
}

} // verus!
