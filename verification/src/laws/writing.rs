//! What text that is written down reads as: lines, words, and what surrounds
//! them.
use crate::text::{
    before, find_from, first_of, is_space, leading, lemma_first_of, lemma_first_of_is,
    lemma_leading, lemma_trailing, lines_of, trailing, trim_end_of, trim_of, trim_start_of, word,
    word_end, words_from, words_of, Class,
};
use vstd::prelude::*;

verus! {

/// Whether a text does not hold a character.
pub open spec fn lacks(s: Seq<char>, c: char) -> bool {
    forall|i: int| 0 <= i < s.len() ==> #[trigger] s[i] != c
}

/// Whether a text holds no white space.
pub open spec fn unspaced(s: Seq<char>) -> bool {
    forall|i: int| 0 <= i < s.len() ==> !is_space(#[trigger] s[i])
}

/// Whether a text is white space only.
pub open spec fn blank(s: Seq<char>) -> bool {
    forall|i: int| 0 <= i < s.len() ==> is_space(#[trigger] s[i])
}

/// Whether a text ends its last line, or has none.
pub open spec fn whole_lines(s: Seq<char>) -> bool {
    s.len() == 0 || s.last() == '\n'
}

/// A text as a line of a file.
pub open spec fn line(s: Seq<char>) -> Seq<char> {
    s + seq!['\n']
}

/// Some texts as the lines of a file.
pub open spec fn file(texts: Seq<Seq<char>>) -> Seq<char>
    decreases texts.len(),
{
    if texts.len() == 0 {
        seq![]
    } else {
        file(texts.drop_last()) + line(texts.last())
    }
}

/// Each text as a line.
pub open spec fn each_line(texts: Seq<Seq<char>>) -> Seq<Seq<char>> {
    Seq::new(texts.len(), |i: int| line(texts[i]))
}

pub proof fn lemma_lines_concat(a: Seq<char>, b: Seq<char>)
    requires
        whole_lines(a),
    ensures
        lines_of(a + b) == lines_of(a) + lines_of(b),
    decreases a.len(),
{
    if a.len() == 0 {
        assert(a + b =~= b);
        assert(lines_of(a) + lines_of(b) =~= lines_of(b));
    } else {
        let k = Class::One('\n');
        let s = a + b;
        lemma_first_of_is(a, k);
        assert(k.has(a[a.len() - 1]));
        let n = first_of(a, k)->Some_0;
        assert forall|j: int| 0 <= j < n implies !k.has(#[trigger] s[j]) by {
            assert(s[j] == a[j]);
        }
        assert(s[n as int] == a[n as int]);
        lemma_first_of(s, k, n);
        let rest = a.skip(n as int + 1);
        if rest.len() > 0 {
            assert(rest.last() == a.last());
        }
        lemma_lines_concat(rest, b);
        assert(s.skip(n as int + 1) =~= rest + b);
        assert(s.take(n as int + 1) =~= a.take(n as int + 1));
        assert(lines_of(s) =~= lines_of(a) + lines_of(b));
    }
}

pub proof fn lemma_one_line(s: Seq<char>)
    requires
        lacks(s, '\n'),
    ensures
        lines_of(line(s)) == seq![line(s)],
        whole_lines(line(s)),
{
    let k = Class::One('\n');
    let l = line(s);
    assert forall|j: int| 0 <= j < s.len() implies !k.has(#[trigger] l[j]) by {
        assert(l[j] == s[j]);
    }
    assert(l[s.len() as int] == '\n');
    lemma_first_of(l, k, s.len());
    assert(l.skip(s.len() as int + 1) =~= seq![]);
    assert(l.take(s.len() as int + 1) =~= l);
    assert(lines_of(l.skip(s.len() as int + 1)) =~= seq![]);
    assert(lines_of(l) =~= seq![l]);
}

pub proof fn lemma_file(texts: Seq<Seq<char>>)
    requires
        forall|i: int| 0 <= i < texts.len() ==> lacks(#[trigger] texts[i], '\n'),
    ensures
        whole_lines(file(texts)),
        lines_of(file(texts)) == each_line(texts),
    decreases texts.len(),
{
    if texts.len() == 0 {
        assert(lines_of(file(texts)) =~= each_line(texts));
    } else {
        let front = texts.drop_last();
        assert forall|i: int| 0 <= i < front.len() implies lacks(#[trigger] front[i], '\n') by {
            assert(front[i] == texts[i]);
        }
        lemma_file(front);
        let last = texts[texts.len() - 1];
        assert(lacks(last, '\n'));
        lemma_one_line(last);
        lemma_lines_concat(file(front), line(last));
        assert(file(texts).last() == '\n');
        assert(each_line(texts) =~= each_line(front) + seq![line(last)]);
    }
}

/// A text that neither starts nor ends with a class is trimmed of nothing.
pub proof fn lemma_trimmed(s: Seq<char>, k: Class)
    requires
        s.len() > 0 ==> !k.has(s[0]) && !k.has(s[s.len() - 1]),
    ensures
        trim_start_of(s, k) == s,
        trim_end_of(s, k) == s,
        trim_of(s, k) == s,
{
    lemma_leading(s, k, 0);
    lemma_trailing(s, k, 0);
    assert(s.skip(0) =~= s);
    assert(s.take(s.len() as int) =~= s);
}

/// What is trimmed off in front.
pub proof fn lemma_trim_front(a: Seq<char>, s: Seq<char>, k: Class)
    requires
        forall|i: int| 0 <= i < a.len() ==> k.has(#[trigger] a[i]),
        s.len() > 0 ==> !k.has(s[0]),
    ensures
        leading(a + s, k) == a.len(),
        trim_start_of(a + s, k) == s,
{
    let t = a + s;
    assert forall|j: int| 0 <= j < a.len() implies k.has(#[trigger] t[j]) by {
        assert(t[j] == a[j]);
    }
    if s.len() > 0 {
        assert(t[a.len() as int] == s[0]);
    }
    lemma_leading(t, k, a.len());
    assert(t.skip(a.len() as int) =~= s);
}

/// What is trimmed off behind.
pub proof fn lemma_trim_back(s: Seq<char>, b: Seq<char>, k: Class)
    requires
        forall|i: int| 0 <= i < b.len() ==> k.has(#[trigger] b[i]),
        s.len() > 0 ==> !k.has(s[s.len() - 1]),
    ensures
        trailing(s + b, k) == b.len(),
        trim_end_of(s + b, k) == s,
{
    let t = s + b;
    assert forall|j: int| t.len() - b.len() <= j < t.len() implies k.has(#[trigger] t[j]) by {
        assert(t[j] == b[j - s.len()]);
    }
    if s.len() > 0 {
        assert(t[t.len() - b.len() - 1] == s[s.len() - 1]);
    }
    lemma_trailing(t, k, b.len());
    assert(t.take(t.len() - b.len()) =~= s);
}

/// What stands before the first character of a class.
pub proof fn lemma_before(a: Seq<char>, b: Seq<char>, k: Class)
    requires
        forall|i: int| 0 <= i < a.len() ==> !k.has(#[trigger] a[i]),
        b.len() > 0 ==> k.has(b[0]),
    ensures
        before(a + b, k) == a,
        first_of(a + b, k) == (if b.len() > 0 {
            Some(a.len())
        } else {
            None
        }),
{
    let s = a + b;
    assert forall|j: int| 0 <= j < a.len() implies !k.has(#[trigger] s[j]) by {
        assert(s[j] == a[j]);
    }
    if b.len() > 0 {
        assert(s[a.len() as int] == b[0]);
    } else {
        assert(s =~= a);
    }
    lemma_first_of(s, k, a.len());
    assert(s.take(a.len() as int) =~= a);
}

/// The first place of a text in another.
pub proof fn lemma_find_first(s: Seq<char>, needle: Seq<char>, from: nat, at: nat)
    requires
        from <= at,
        at + needle.len() <= s.len(),
        s.subrange(at as int, (at + needle.len()) as int) == needle,
        forall|j: int|
            from <= j < at ==> #[trigger] s.subrange(j, j + needle.len()) != needle,
    ensures
        find_from(s, needle, from) == Some(at),
    decreases at - from,
{
    if from < at {
        assert(s.subrange(from as int, from as int + needle.len()) != needle);
        lemma_find_first(s, needle, from + 1, at);
    }
}

/// A text that is nowhere in another.
pub proof fn lemma_find_none(s: Seq<char>, needle: Seq<char>, from: nat)
    requires
        needle.len() > 0,
        forall|j: int|
            from <= j && j + needle.len() <= s.len() ==> #[trigger] s.subrange(
                j,
                j + needle.len(),
            ) != needle,
    ensures
        find_from(s, needle, from) is None,
    decreases s.len() - from,
{
    if from + needle.len() <= s.len() {
        assert(s.subrange(from as int, from as int + needle.len()) != needle);
        lemma_find_none(s, needle, from + 1);
    }
}

/// Some text is found where it is written.
pub proof fn lemma_found(s: Seq<char>, needle: Seq<char>, from: nat, at: nat)
    requires
        from <= at,
        at + needle.len() <= s.len(),
        s.subrange(at as int, (at + needle.len()) as int) == needle,
    ensures
        find_from(s, needle, from) is Some,
    decreases at - from,
{
    if s.subrange(from as int, (from + needle.len()) as int) != needle && from < at {
        lemma_found(s, needle, from + 1, at);
    }
}

// ---- words ----

pub open spec fn shifted(spans: Seq<(nat, nat)>, by: nat) -> Seq<(nat, nat)> {
    Seq::new(spans.len(), |i: int| (spans[i].0 + by, spans[i].1 + by))
}

proof fn lemma_word_end_shift(a: Seq<char>, b: Seq<char>, from: nat)
    requires
        from <= b.len(),
    ensures
        word_end(a + b, a.len() + from) == word_end(b, from) + a.len(),
    decreases b.len() - from,
{
    let s = a + b;
    if from < b.len() {
        assert(s[(a.len() + from) as int] == b[from as int]);
        if !is_space(b[from as int]) {
            lemma_word_end_shift(a, b, from + 1);
        }
    }
}

proof fn lemma_words_shift(a: Seq<char>, b: Seq<char>, from: nat)
    requires
        from <= b.len(),
    ensures
        words_from(a + b, a.len() + from) == shifted(words_from(b, from), a.len()),
    decreases b.len() - from,
{
    let s = a + b;
    let n = a.len();
    if from >= b.len() {
        assert(words_from(s, n + from) =~= shifted(words_from(b, from), n));
    } else {
        assert(s[(n + from) as int] == b[from as int]);
        if is_space(b[from as int]) {
            lemma_words_shift(a, b, from + 1);
        } else {
            lemma_word_end_shift(a, b, from);
            crate::text::lemma_word_end(b, from);
            let end = word_end(b, from);
            lemma_words_shift(a, b, end);
            assert(words_from(s, n + from) =~= shifted(words_from(b, from), n));
        }
    }
}

proof fn lemma_word_end_is(s: Seq<char>, from: nat, end: nat)
    requires
        from <= end <= s.len(),
        forall|j: int| from <= j < end ==> !is_space(#[trigger] s[j]),
        end < s.len() ==> is_space(s[end as int]),
    ensures
        word_end(s, from) == end,
    decreases end - from,
{
    if from < end {
        assert(!is_space(s[from as int]));
        lemma_word_end_is(s, from + 1, end);
    }
}

proof fn lemma_words_blank(a: Seq<char>, b: Seq<char>, from: nat)
    requires
        blank(a),
        from <= a.len(),
    ensures
        words_from(a + b, from) == words_from(a + b, a.len()),
    decreases a.len() - from,
{
    if from < a.len() {
        assert((a + b)[from as int] == a[from as int]);
        lemma_words_blank(a, b, from + 1);
    }
}

/// White space in front makes no word.
pub proof fn lemma_word_blank(a: Seq<char>, b: Seq<char>, i: int)
    requires
        blank(a),
    ensures
        word(a + b, i) == word(b, i),
{
    lemma_words_blank(a, b, 0);
    lemma_words_shift(a, b, 0);
    let n = a.len();
    lemma_words_in(b, 0);
    if 0 <= i < words_of(b).len() {
        let (lo, hi) = words_of(b)[i];
        assert(lo <= hi <= b.len());
        assert((a + b).subrange((lo + n) as int, (hi + n) as int) =~= b.subrange(
            lo as int,
            hi as int,
        ));
    }
}

pub proof fn lemma_words_in(s: Seq<char>, from: nat)
    ensures
        forall|i: int|
            0 <= i < words_from(s, from).len() ==> from <= (#[trigger] words_from(s, from)[i]).0
                < words_from(s, from)[i].1 <= s.len(),
    decreases s.len() - from,
{
    if from < s.len() {
        if is_space(s[from as int]) {
            lemma_words_in(s, from + 1);
            let all = words_from(s, from + 1);
            assert(words_from(s, from) == all);
            assert forall|i: int| 0 <= i < words_from(s, from).len() implies from <= (
            #[trigger] words_from(s, from)[i]).0 < words_from(s, from)[i].1 <= s.len() by {
                assert(from + 1 <= all[i].0);
            }
        } else {
            crate::text::lemma_word_end(s, from);
            let end = word_end(s, from);
            lemma_words_in(s, end);
            let all = words_from(s, from);
            assert forall|i: int| 0 <= i < all.len() implies from <= (#[trigger] all[i]).0
                < all[i].1 <= s.len() by {
                if i > 0 {
                    assert(all[i] == words_from(s, end)[i - 1]);
                }
            }
        }
    }
}

/// The first word of a text, and the words behind it.
pub proof fn lemma_word_first(w: Seq<char>, b: Seq<char>, i: int)
    requires
        w.len() > 0,
        unspaced(w),
        b.len() > 0 ==> is_space(b[0]),
    ensures
        word(w + b, 0) == Some(w),
        i >= 0 ==> word(w + b, i + 1) == word(b, i),
        i < 0 ==> word(w + b, i) is None,
{
    let s = w + b;
    let n = w.len();
    assert forall|j: int| 0 <= j < n implies !is_space(#[trigger] s[j]) by {
        assert(s[j] == w[j]);
    }
    if b.len() > 0 {
        assert(s[n as int] == b[0]);
    }
    lemma_word_end_is(s, 0, n);
    lemma_words_shift(w, b, 0);
    assert(s[0] == w[0]);
    assert(words_of(s) == seq![(0nat, n)] + shifted(words_of(b), n));
    assert(s.subrange(0, n as int) =~= w);
    lemma_words_in(b, 0);
    if 0 <= i < words_of(b).len() {
        let (lo, hi) = words_of(b)[i];
        assert(lo <= hi <= b.len());
        assert(words_of(s)[i + 1] == (lo + n, hi + n));
        assert(s.subrange((lo + n) as int, (hi + n) as int) =~= b.subrange(lo as int, hi as int));
    }
}

/// No word is in white space.
pub proof fn lemma_no_word(b: Seq<char>, i: int)
    requires
        blank(b),
    ensures
        word(b, i) is None,
{
    lemma_words_blank(b, seq![], 0);
    assert(b + seq![] =~= b);
    assert(words_from(b, b.len()) =~= seq![]);
}

} // verus!
