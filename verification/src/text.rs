//! Character-level text operations: the vocabulary the parsers are stated in.
//!
//! Text is handled as a sequence of characters. Where a position in a file is
//! reported, it is reported in bytes of UTF-8, and [`utf8_len`] is the bridge.
use vstd::prelude::*;
use vstd::utf8::*;

verus! {

/// `String::push`: appends one character.
pub assume_specification[ String::push ](s: &mut String, c: char)
    ensures
        final(s)@ == old(s)@.push(c),
;

/// A class of characters that text is trimmed by, split at or searched for.
#[derive(Clone, Copy, PartialEq, Eq, Debug, Structural)]
pub enum Class {
    /// The Unicode `White_Space` property.
    Space,
    /// Line feed or carriage return.
    LineEnd,
    /// `[` or `]`.
    Bracket,
    /// A single or double quote.
    Quote,
    /// `[`, `]`, `{`, `}` or a space: what no bare key holds.
    NotKey,
    /// Anything that cannot stand in a Python distribution name.
    NotName,
    /// Anything that cannot stand in a Python version.
    NotVersion,
    /// Anything that cannot stand in a Python version comparator.
    NotComparator,
    /// Anything but an ASCII digit.
    NotDigit,
    /// An ASCII digit.
    Digit,
    /// Anything but an operator, a `v` or a space before a constraint's version.
    NotOperator,
    /// Anything that cannot stand in a constraint's version.
    NotSpelling,
    /// An ASCII digit or a dot.
    Numeric,
    /// One of `.`, `_` and `-`.
    Separator,
    /// One given character.
    One(char),
}

pub open spec fn is_space(c: char) -> bool {
    let n = c as u32;
    ||| 0x09 <= n <= 0x0d
    ||| n == 0x20
    ||| n == 0x85
    ||| n == 0xa0
    ||| n == 0x1680
    ||| 0x2000 <= n <= 0x200a
    ||| n == 0x2028
    ||| n == 0x2029
    ||| n == 0x202f
    ||| n == 0x205f
    ||| n == 0x3000
}

pub open spec fn is_digit(c: char) -> bool {
    '0' <= c <= '9'
}

pub open spec fn is_alnum(c: char) -> bool {
    '0' <= c <= '9' || 'a' <= c <= 'z' || 'A' <= c <= 'Z'
}

impl Class {
    /// Whether the class holds `c`.
    pub open spec fn has(self, c: char) -> bool {
        match self {
            Class::Space => is_space(c),
            Class::LineEnd => c == '\n' || c == '\r',
            Class::Bracket => c == '[' || c == ']',
            Class::Quote => c == '"' || c == '\'',
            Class::NotKey => c == '[' || c == ']' || c == '{' || c == '}' || c == ' ',
            Class::NotName => !(is_alnum(c) || c == '-' || c == '_' || c == '.'),
            Class::NotVersion => !(is_alnum(c) || c == '.' || c == '-' || c == '+' || c == '!' || c
                == '*'),
            Class::NotComparator => !(c == '=' || c == '<' || c == '>' || c == '!' || c == '~'),
            Class::NotDigit => !is_digit(c),
            Class::Digit => is_digit(c),
            Class::NotOperator => !(c == '^' || c == '~' || c == '>' || c == '<' || c == '=' || c
                == 'v' || c == ' '),
            Class::NotSpelling => !(is_alnum(c) || c == '.' || c == '-' || c == '+'),
            Class::Numeric => is_digit(c) || c == '.',
            Class::Separator => c == '.' || c == '_' || c == '-',
            Class::One(x) => c == x,
        }
    }

    /// Whether the class holds `c`.
    pub fn holds(self, c: char) -> (r: bool)
        ensures
            r == self.has(c),
    {
        match self {
            Class::Space => space(c),
            Class::LineEnd => c == '\n' || c == '\r',
            Class::Bracket => c == '[' || c == ']',
            Class::Quote => c == '"' || c == '\'',
            Class::NotKey => c == '[' || c == ']' || c == '{' || c == '}' || c == ' ',
            Class::NotName => !(alnum(c) || c == '-' || c == '_' || c == '.'),
            Class::NotVersion => !(alnum(c) || c == '.' || c == '-' || c == '+' || c == '!' || c
                == '*'),
            Class::NotComparator => !(c == '=' || c == '<' || c == '>' || c == '!' || c == '~'),
            Class::NotDigit => !('0' <= c && c <= '9'),
            Class::Digit => '0' <= c && c <= '9',
            Class::NotOperator => !(c == '^' || c == '~' || c == '>' || c == '<' || c == '=' || c
                == 'v' || c == ' '),
            Class::NotSpelling => !(alnum(c) || c == '.' || c == '-' || c == '+'),
            Class::Numeric => ('0' <= c && c <= '9') || c == '.',
            Class::Separator => c == '.' || c == '_' || c == '-',
            Class::One(x) => c == x,
        }
    }
}

fn space(c: char) -> (r: bool)
    ensures
        r == is_space(c),
{
    let n: u32 = c as u32;
    (0x09 <= n && n <= 0x0d) || n == 0x20 || n == 0x85 || n == 0xa0 || n == 0x1680 || (0x2000 <= n
        && n <= 0x200a) || n == 0x2028 || n == 0x2029 || n == 0x202f || n == 0x205f || n == 0x3000
}

pub fn alnum(c: char) -> (r: bool)
    ensures
        r == is_alnum(c),
{
    ('0' <= c && c <= '9') || ('a' <= c && c <= 'z') || ('A' <= c && c <= 'Z')
}

// ---- characters and strings ----

/// The characters of a string.
pub fn chars(s: &str) -> (r: Vec<char>)
    ensures
        r@ == s@,
{
    let mut out: Vec<char> = Vec::new();
    for c in it: s.chars()
        invariant
            out@ == s@.take(it.index() as int),
            it.seq() == s@,
    {
        proof {
            assert(s@.take(it.index() + 1) =~= s@.take(it.index() as int).push(c));
        }
        out.push(c);
    }
    proof {
        assert(s@.take(s@.len() as int) =~= s@);
    }
    out
}

/// The string made of some characters.
pub fn string(s: &[char]) -> (r: String)
    ensures
        r@ == s@,
{
    let mut out = String::new();
    let mut i: usize = 0;
    while i < s.len()
        invariant
            i <= s@.len(),
            out@ == s@.take(i as int),
        decreases s@.len() - i,
    {
        proof {
            assert(s@.take(i + 1) =~= s@.take(i as int).push(s@[i as int]));
        }
        out.push(s[i]);
        i += 1;
    }
    proof {
        assert(s@.take(i as int) =~= s@);
    }
    out
}

/// A part of a slice.
pub fn part(s: &[char], lo: usize, hi: usize) -> (r: &[char])
    requires
        lo <= hi <= s@.len(),
    ensures
        r@ == s@.subrange(lo as int, hi as int),
{
    vstd::slice::slice_subrange(s, lo, hi)
}

/// Whether two runs of characters are the same text.
pub fn equal(a: &[char], b: &[char]) -> (r: bool)
    ensures
        r == (a@ == b@),
{
    if a.len() != b.len() {
        return false;
    }
    let mut i: usize = 0;
    while i < a.len()
        invariant
            i <= a@.len(),
            a@.len() == b@.len(),
            forall|j: int| 0 <= j < i ==> a@[j] == b@[j],
        decreases a@.len() - i,
    {
        if a[i] != b[i] {
            return false;
        }
        i += 1;
    }
    proof {
        assert(a@ =~= b@);
    }
    true
}

/// Whether some characters spell `b`.
pub fn is(a: &[char], b: &str) -> (r: bool)
    ensures
        r == (a@ == b@),
{
    let b = chars(b);
    equal(a, b.as_slice())
}

/// Whether two strings are the same text.
pub fn same(a: &str, b: &str) -> (r: bool)
    ensures
        r == (a@ == b@),
{
    let x = a.as_bytes();
    let y = b.as_bytes();
    proof {
        encode_utf8_decode_utf8(a@);
        encode_utf8_decode_utf8(b@);
    }
    same_bytes(x, y)
}

/// Whether two runs of bytes are the same.
pub fn same_bytes(x: &[u8], y: &[u8]) -> (r: bool)
    ensures
        r == (x@ == y@),
{
    if x.len() != y.len() {
        return false;
    }
    let mut i: usize = 0;
    while i < x.len()
        invariant
            i <= x@.len(),
            x@.len() == y@.len(),
            forall|j: int| 0 <= j < i ==> x@[j] == y@[j],
        decreases x@.len() - i,
    {
        if x[i] != y[i] {
            return false;
        }
        i += 1;
    }
    proof {
        assert(x@ =~= y@);
    }
    true
}

/// Whether `s` begins with `prefix`.
pub fn starts_with(s: &[char], prefix: &str) -> (r: bool)
    ensures
        r == prefix@.is_prefix_of(s@),
{
    let p = chars(prefix);
    if p.len() > s.len() {
        return false;
    }
    let r = equal(part(s, 0, p.len()), p.as_slice());
    proof {
        if prefix@.is_prefix_of(s@) {
            assert(s@.subrange(0, p@.len() as int) =~= p@);
        }
        if s@.subrange(0, p@.len() as int) == p@ {
            assert(prefix@ =~= s@.subrange(0, prefix@.len() as int));
        }
    }
    r
}

/// Whether one string begins with another.
pub fn begins(s: &str, prefix: &str) -> (r: bool)
    ensures
        r == prefix@.is_prefix_of(s@),
{
    let s = chars(s);
    starts_with(s.as_slice(), prefix)
}

/// A list of strings, by what each says.
pub open spec fn texts(v: Seq<String>) -> Seq<Seq<char>> {
    Seq::new(v.len(), |i: int| v[i]@)
}

/// Whether a list holds a string.
pub fn contains(v: &Vec<String>, s: &str) -> (r: bool)
    ensures
        r == v.deep_view().contains(s@),
{
    let mut i: usize = 0;
    while i < v.len()
        invariant
            i <= v@.len(),
            forall|j: int| 0 <= j < i ==> v.deep_view()[j] != s@,
        decreases v@.len() - i,
    {
        if same(v[i].as_str(), s) {
            proof {
                assert(v.deep_view()[i as int] == s@);
            }
            return true;
        }
        i += 1;
    }
    false
}

/// A copy of a list of strings.
pub fn copy_strings(v: &Vec<String>) -> (r: Vec<String>)
    ensures
        r.deep_view() == v.deep_view(),
{
    let mut out: Vec<String> = Vec::new();
    let mut i: usize = 0;
    while i < v.len()
        invariant
            i <= v@.len(),
            out@ == v@.take(i as int),
        decreases v@.len() - i,
    {
        out.push(v[i].clone());
        proof {
            assert(v@.take(i + 1) =~= v@.take(i as int).push(v@[i as int]));
        }
        i += 1;
    }
    proof {
        assert(out@ =~= v@);
    }
    out
}

/// A copy of an optional string.
pub fn copy_option(v: &Option<String>) -> (r: Option<String>)
    ensures
        r.deep_view() == v.deep_view(),
{
    match v {
        Some(s) => Some(s.clone()),
        None => None,
    }
}

// ---- trimming and finding ----

/// How many characters at the start of `s` are of a class.
pub open spec fn leading(s: Seq<char>, k: Class) -> nat
    decreases s.len(),
{
    if s.len() > 0 && k.has(s[0]) {
        1 + leading(s.skip(1), k)
    } else {
        0
    }
}

/// How many characters at the end of `s` are of a class.
pub open spec fn trailing(s: Seq<char>, k: Class) -> nat
    decreases s.len(),
{
    if s.len() > 0 && k.has(s.last()) {
        1 + trailing(s.drop_last(), k)
    } else {
        0
    }
}

pub proof fn lemma_leading(s: Seq<char>, k: Class, n: nat)
    requires
        n <= s.len(),
        forall|j: int| 0 <= j < n ==> k.has(#[trigger] s[j]),
        n < s.len() ==> !k.has(s[n as int]),
    ensures
        leading(s, k) == n,
    decreases n,
{
    if n > 0 {
        assert(k.has(s[0]));
        assert forall|j: int| 0 <= j < n - 1 implies k.has(#[trigger] s.skip(1)[j]) by {
            assert(s.skip(1)[j] == s[j + 1]);
        }
        lemma_leading(s.skip(1), k, (n - 1) as nat);
    }
}

/// What [`leading`] counts: every character before it, and not the one at it.
pub proof fn lemma_leading_is(s: Seq<char>, k: Class)
    ensures
        leading(s, k) <= s.len(),
        forall|j: int| 0 <= j < leading(s, k) ==> k.has(#[trigger] s[j]),
        leading(s, k) < s.len() ==> !k.has(s[leading(s, k) as int]),
    decreases s.len(),
{
    if s.len() > 0 && k.has(s[0]) {
        lemma_leading_is(s.skip(1), k);
        assert forall|j: int| 0 <= j < leading(s, k) implies k.has(#[trigger] s[j]) by {
            if j > 0 {
                assert(s[j] == s.skip(1)[j - 1]);
            }
        }
    }
}

pub proof fn lemma_trailing(s: Seq<char>, k: Class, n: nat)
    requires
        n <= s.len(),
        forall|j: int| s.len() - n <= j < s.len() ==> k.has(#[trigger] s[j]),
        n < s.len() ==> !k.has(s[s.len() - n - 1]),
    ensures
        trailing(s, k) == n,
    decreases n,
{
    if n > 0 {
        assert(k.has(s[s.len() - 1]));
        lemma_trailing(s.drop_last(), k, (n - 1) as nat);
    }
}

pub proof fn lemma_trailing_is(s: Seq<char>, k: Class)
    ensures
        trailing(s, k) <= s.len(),
        forall|j: int| s.len() - trailing(s, k) <= j < s.len() ==> k.has(#[trigger] s[j]),
        trailing(s, k) < s.len() ==> !k.has(s[s.len() - trailing(s, k) - 1]),
    decreases s.len(),
{
    if s.len() > 0 && k.has(s.last()) {
        lemma_trailing_is(s.drop_last(), k);
        assert forall|j: int| s.len() - trailing(s, k) <= j < s.len() implies k.has(
            #[trigger] s[j],
        ) by {
            if j < s.len() - 1 {
                assert(s[j] == s.drop_last()[j]);
            }
        }
    }
}

pub open spec fn trim_start_of(s: Seq<char>, k: Class) -> Seq<char> {
    s.skip(leading(s, k) as int)
}

pub open spec fn trim_end_of(s: Seq<char>, k: Class) -> Seq<char> {
    s.take(s.len() - trailing(s, k))
}

/// The text without its leading and trailing characters of a class.
pub open spec fn trim_of(s: Seq<char>, k: Class) -> Seq<char> {
    trim_end_of(trim_start_of(s, k), k)
}

pub fn count_leading(s: &[char], k: Class) -> (n: usize)
    ensures
        n == leading(s@, k),
        n <= s@.len(),
{
    let mut i: usize = 0;
    while i < s.len() && k.holds(s[i])
        invariant
            i <= s@.len(),
            forall|j: int| 0 <= j < i ==> k.has(#[trigger] s@[j]),
        decreases s@.len() - i,
    {
        i += 1;
    }
    proof {
        lemma_leading(s@, k, i as nat);
    }
    i
}

pub fn count_trailing(s: &[char], k: Class) -> (n: usize)
    ensures
        n == trailing(s@, k),
        n <= s@.len(),
{
    let mut i: usize = 0;
    while i < s.len() && k.holds(s[s.len() - i - 1])
        invariant
            i <= s@.len(),
            forall|j: int| s@.len() - i <= j < s@.len() ==> k.has(#[trigger] s@[j]),
        decreases s@.len() - i,
    {
        i += 1;
    }
    proof {
        lemma_trailing(s@, k, i as nat);
    }
    i
}

pub fn trim_start(s: &[char], k: Class) -> (r: &[char])
    ensures
        r@ == trim_start_of(s@, k),
{
    let n: usize = count_leading(s, k);
    part(s, n, s.len())
}

pub fn trim_end(s: &[char], k: Class) -> (r: &[char])
    ensures
        r@ == trim_end_of(s@, k),
{
    let n: usize = count_trailing(s, k);
    part(s, 0, s.len() - n)
}

pub fn trim(s: &[char], k: Class) -> (r: &[char])
    ensures
        r@ == trim_of(s@, k),
{
    trim_end(trim_start(s, k), k)
}

/// The first place at or after `from` where `needle` stands in `s`.
pub open spec fn find_from(s: Seq<char>, needle: Seq<char>, from: nat) -> Option<nat>
    decreases s.len() - from,
{
    if from + needle.len() > s.len() {
        None
    } else if s.subrange(from as int, (from + needle.len()) as int) == needle {
        Some(from)
    } else if from >= s.len() {
        None
    } else {
        find_from(s, needle, from + 1)
    }
}

/// The first place where `needle` stands in `s`.
pub open spec fn find_of(s: Seq<char>, needle: Seq<char>) -> Option<nat> {
    find_from(s, needle, 0)
}

pub proof fn lemma_find(s: Seq<char>, needle: Seq<char>, from: nat)
    ensures
        match find_from(s, needle, from) {
            Some(i) => from <= i && i + needle.len() <= s.len() && s.subrange(
                i as int,
                (i + needle.len()) as int,
            ) == needle,
            None => true,
        },
    decreases s.len() - from,
{
    if from + needle.len() <= s.len() {
        if s.subrange(from as int, (from + needle.len()) as int) != needle && from < s.len() {
            lemma_find(s, needle, from + 1);
        }
    }
}

pub fn find_at(s: &[char], needle: &[char], from: usize) -> (r: Option<usize>)
    requires
        from <= s@.len(),
    ensures
        match r {
            Some(i) => find_from(s@, needle@, from as nat) == Some(i as nat) && from <= i && i
                + needle@.len() <= s@.len(),
            None => find_from(s@, needle@, from as nat) is None,
        },
{
    let mut i: usize = from;
    while needle.len() <= s.len() - i
        invariant
            from <= i <= s@.len(),
            find_from(s@, needle@, from as nat) == find_from(s@, needle@, i as nat),
        decreases s@.len() - i,
    {
        if equal(part(s, i, i + needle.len()), needle) {
            return Some(i);
        }
        if i == s.len() {
            return None;
        }
        i += 1;
    }
    None
}

pub fn find(s: &[char], needle: &[char]) -> (r: Option<usize>)
    ensures
        match r {
            Some(i) => find_of(s@, needle@) == Some(i as nat) && i + needle@.len() <= s@.len(),
            None => find_of(s@, needle@) is None,
        },
{
    find_at(s, needle, 0)
}

/// The last place at or before `to` where `needle` stands in `s`.
pub open spec fn rfind_to(s: Seq<char>, needle: Seq<char>, to: int) -> Option<nat>
    decreases to + 1,
{
    if to < 0 {
        None
    } else if to + needle.len() <= s.len() && s.subrange(to, to + needle.len()) == needle {
        Some(to as nat)
    } else {
        rfind_to(s, needle, to - 1)
    }
}

/// The last place where `needle` stands in `s`.
pub open spec fn rfind_of(s: Seq<char>, needle: Seq<char>) -> Option<nat> {
    rfind_to(s, needle, s.len() - needle.len())
}

/// What [`rfind_of`] finds is there.
pub proof fn lemma_rfind(s: Seq<char>, needle: Seq<char>, to: int)
    ensures
        match rfind_to(s, needle, to) {
            Some(i) => i <= to && i + needle.len() <= s.len() && s.subrange(
                i as int,
                (i + needle.len()) as int,
            ) == needle,
            None => true,
        },
    decreases to + 1,
{
    if to >= 0 && !(to + needle.len() <= s.len() && s.subrange(to, to + needle.len()) == needle) {
        lemma_rfind(s, needle, to - 1);
    }
}

/// The last place where `needle` stands in `s`.
pub fn rfind(s: &[char], needle: &[char]) -> (r: Option<usize>)
    ensures
        match r {
            Some(i) => rfind_of(s@, needle@) == Some(i as nat) && i + needle@.len() <= s@.len(),
            None => rfind_of(s@, needle@) is None,
        },
{
    if needle.len() > s.len() {
        return None;
    }
    let mut i: usize = s.len() - needle.len();
    loop
        invariant
            i + needle@.len() <= s@.len(),
            rfind_of(s@, needle@) == rfind_to(s@, needle@, i as int),
        decreases i,
    {
        let len: usize = s.len();
        if equal(part(s, i, i + needle.len()), needle) {
            return Some(i);
        }
        if i == 0 {
            proof {
                assert(rfind_to(s@, needle@, -1) is None);
            }
            return None;
        }
        i -= 1;
    }
}

/// The first place where a character of a class stands in `s`.
pub open spec fn first_of(s: Seq<char>, k: Class) -> Option<nat>
    decreases s.len(),
{
    if s.len() == 0 {
        None
    } else if k.has(s[0]) {
        Some(0)
    } else {
        match first_of(s.skip(1), k) {
            Some(n) => Some(n + 1),
            None => None,
        }
    }
}

pub proof fn lemma_first_of(s: Seq<char>, k: Class, n: nat)
    requires
        n <= s.len(),
        forall|j: int| 0 <= j < n ==> !k.has(#[trigger] s[j]),
        n < s.len() ==> k.has(s[n as int]),
    ensures
        first_of(s, k) == (if n < s.len() {
            Some(n)
        } else {
            None
        }),
    decreases n,
{
    if n > 0 {
        assert(!k.has(s[0]));
        assert forall|j: int| 0 <= j < n - 1 implies !k.has(#[trigger] s.skip(1)[j]) by {
            assert(s.skip(1)[j] == s[j + 1]);
        }
        lemma_first_of(s.skip(1), k, (n - 1) as nat);
    }
}

/// What [`first_of`] finds.
pub proof fn lemma_first_of_is(s: Seq<char>, k: Class)
    ensures
        match first_of(s, k) {
            Some(n) => n < s.len() && k.has(s[n as int]) && forall|j: int|
                0 <= j < n ==> !k.has(#[trigger] s[j]),
            None => forall|j: int| 0 <= j < s.len() ==> !k.has(#[trigger] s[j]),
        },
    decreases s.len(),
{
    if s.len() > 0 && !k.has(s[0]) {
        lemma_first_of_is(s.skip(1), k);
        let m: int = match first_of(s, k) {
            Some(n) => n as int,
            None => s.len() as int,
        };
        assert forall|j: int| 0 <= j < m implies !k.has(#[trigger] s[j]) by {
            if j > 0 {
                assert(s[j] == s.skip(1)[j - 1]);
            }
        }
    }
}

pub fn find_class(s: &[char], k: Class) -> (r: Option<usize>)
    ensures
        match r {
            Some(i) => first_of(s@, k) == Some(i as nat) && i < s@.len(),
            None => first_of(s@, k) is None,
        },
{
    let mut i: usize = 0;
    while i < s.len()
        invariant
            i <= s@.len(),
            forall|j: int| 0 <= j < i ==> !k.has(#[trigger] s@[j]),
        decreases s@.len() - i,
    {
        if k.holds(s[i]) {
            proof {
                lemma_first_of(s@, k, i as nat);
            }
            return Some(i);
        }
        i += 1;
    }
    proof {
        lemma_first_of(s@, k, i as nat);
    }
    None
}

/// The text before the first character of a class, or all of it.
pub open spec fn before(s: Seq<char>, k: Class) -> Seq<char> {
    match first_of(s, k) {
        Some(n) => s.take(n as int),
        None => s,
    }
}

pub fn up_to(s: &[char], k: Class) -> (r: &[char])
    ensures
        r@ == before(s@, k),
{
    match find_class(s, k) {
        Some(n) => part(s, 0, n),
        None => s,
    }
}

// ---- splitting ----

/// The pieces of `s` between characters of a class: one more than there are
/// such characters.
pub open spec fn split_of(s: Seq<char>, k: Class) -> Seq<Seq<char>>
    decreases s.len(),
{
    match first_of(s, k) {
        Some(n) => if n < s.len() {
            seq![s.take(n as int)] + split_of(s.skip(n as int + 1), k)
        } else {
            seq![s]
        },
        None => seq![s],
    }
}

pub proof fn lemma_split_nonempty(s: Seq<char>, k: Class)
    ensures
        split_of(s, k).len() > 0,
{
}

pub fn split(s: &[char], k: Class) -> (r: Vec<String>)
    ensures
        r.deep_view() == split_of(s@, k),
{
    let mut out: Vec<String> = Vec::new();
    let mut rest = s;
    loop
        invariant
            out.deep_view() + split_of(rest@, k) == split_of(s@, k),
        ensures
            first_of(rest@, k) is None,
        decreases rest@.len(),
    {
        let n: usize = match find_class(rest, k) {
            Some(n) => n,
            None => {
                break;
            },
        };
        let len: usize = rest.len();
        let ghost before_push = out.deep_view();
        out.push(string(part(rest, 0, n)));
        proof {
            assert(rest@.subrange(0, n as int) =~= rest@.take(n as int));
            assert(rest@.subrange(n + 1, rest@.len() as int) =~= rest@.skip(n + 1));
            assert(out.deep_view() =~= before_push.push(rest@.take(n as int)));
            assert(before_push + (seq![rest@.take(n as int)] + split_of(rest@.skip(n + 1), k))
                =~= out.deep_view() + split_of(rest@.skip(n + 1), k));
        }
        rest = part(rest, n + 1, len);
    }
    let ghost before_push = out.deep_view();
    out.push(string(rest));
    proof {
        assert(out.deep_view() =~= before_push + seq![rest@]);
    }
    out
}

/// Where the words of `s` stand: the runs between white space.
pub open spec fn words_from(s: Seq<char>, from: nat) -> Seq<(nat, nat)>
    decreases s.len() - from,
{
    if from >= s.len() {
        seq![]
    } else if is_space(s[from as int]) {
        words_from(s, from + 1)
    } else {
        let end = word_end(s, from);
        if end <= from || end > s.len() {
            seq![]
        } else {
            seq![(from, end)] + words_from(s, end)
        }
    }
}

/// Where the word that `from` stands in ends.
pub open spec fn word_end(s: Seq<char>, from: nat) -> nat
    decreases s.len() - from,
{
    if from >= s.len() || is_space(s[from as int]) {
        from
    } else {
        word_end(s, from + 1)
    }
}

pub open spec fn words_of(s: Seq<char>) -> Seq<(nat, nat)> {
    words_from(s, 0)
}

/// The `i`th word, where there is one.
pub open spec fn word(s: Seq<char>, i: int) -> Option<Seq<char>> {
    if 0 <= i < words_of(s).len() {
        Some(s.subrange(words_of(s)[i].0 as int, words_of(s)[i].1 as int))
    } else {
        None
    }
}

pub open spec fn spans(v: Seq<(usize, usize)>) -> Seq<(nat, nat)> {
    Seq::new(v.len(), |i: int| (v[i].0 as nat, v[i].1 as nat))
}

pub proof fn lemma_word_end(s: Seq<char>, from: nat)
    requires
        from <= s.len(),
    ensures
        from <= word_end(s, from) <= s.len(),
        from < s.len() && !is_space(s[from as int]) ==> from < word_end(s, from),
    decreases s.len() - from,
{
    if from < s.len() && !is_space(s[from as int]) {
        lemma_word_end(s, from + 1);
    }
}

/// Where the words of `s` stand, as index ranges.
pub fn words(s: &[char]) -> (r: Vec<(usize, usize)>)
    ensures
        spans(r@) == words_of(s@),
        forall|i: int| 0 <= i < r@.len() ==> (#[trigger] r@[i]).0 < r@[i].1 <= s@.len(),
{
    let mut out: Vec<(usize, usize)> = Vec::new();
    let mut i: usize = 0;
    while i < s.len()
        invariant
            i <= s@.len(),
            spans(out@) + words_from(s@, i as nat) == words_of(s@),
            forall|j: int| 0 <= j < out@.len() ==> (#[trigger] out@[j]).0 < out@[j].1 <= s@.len(),
        decreases s@.len() - i,
    {
        if Class::Space.holds(s[i]) {
            i += 1;
        } else {
            let start: usize = i;
            while i < s.len() && !Class::Space.holds(s[i])
                invariant
                    start <= i <= s@.len(),
                    word_end(s@, start as nat) == word_end(s@, i as nat),
                decreases s@.len() - i,
            {
                i += 1;
            }
            proof {
                lemma_word_end(s@, start as nat);
                assert(word_end(s@, start as nat) == i);
                assert(spans(out@.push((start, i))) =~= spans(out@).push((start as nat, i as nat)));
                assert(spans(out@) + (seq![(start as nat, i as nat)] + words_from(s@, i as nat))
                    =~= spans(out@).push((start as nat, i as nat)) + words_from(s@, i as nat));
            }
            out.push((start, i));
        }
    }
    proof {
        assert(spans(out@) + words_from(s@, i as nat) =~= spans(out@));
    }
    out
}

/// The lines of `s`, each with the line feed that ends it.
pub open spec fn lines_of(s: Seq<char>) -> Seq<Seq<char>>
    decreases s.len(),
{
    if s.len() == 0 {
        seq![]
    } else {
        match first_of(s, Class::One('\n')) {
            Some(n) => if n < s.len() {
                seq![s.take(n as int + 1)] + lines_of(s.skip(n as int + 1))
            } else {
                seq![s]
            },
            None => seq![s],
        }
    }
}

/// The lines of `s`, each with the line feed that ends it.
pub fn lines(s: &[char]) -> (r: Vec<Vec<char>>)
    ensures
        r.deep_view() == lines_of(s@),
{
    let mut out: Vec<Vec<char>> = Vec::new();
    let mut rest = s;
    while rest.len() > 0
        invariant
            out.deep_view() + lines_of(rest@) == lines_of(s@),
        decreases rest@.len(),
    {
        let n: usize = match find_class(rest, Class::One('\n')) {
            Some(n) => n + 1,
            None => rest.len(),
        };
        let ghost so_far = out.deep_view();
        let line = vstd::slice::slice_to_vec(part(rest, 0, n));
        let ghost line_view = line@;
        out.push(line);
        proof {
            assert(rest@.subrange(0, n as int) =~= rest@.take(n as int));
            assert(rest@.subrange(n as int, rest@.len() as int) =~= rest@.skip(n as int));
            assert(line_view =~= rest@.take(n as int));
            assert(out@.last().deep_view() =~= line_view);
            assert(out.deep_view() =~= so_far.push(line_view));
            if first_of(rest@, Class::One('\n')) is None {
                assert(rest@.take(n as int) =~= rest@);
                assert(lines_of(rest@.skip(n as int)) =~= seq![]);
            }
            assert(lines_of(rest@) =~= seq![line_view] + lines_of(rest@.skip(n as int)));
            assert(so_far + (seq![line_view] + lines_of(rest@.skip(n as int)))
                =~= out.deep_view() + lines_of(rest@.skip(n as int)));
        }
        rest = part(rest, n, rest.len());
    }
    proof {
        assert(out.deep_view() + lines_of(rest@) =~= out.deep_view());
    }
    out
}

// ---- bytes ----

/// How many bytes some text takes in UTF-8.
pub open spec fn utf8_len(s: Seq<char>) -> nat {
    encode_utf8(s).len()
}

/// How many bytes one character takes in UTF-8.
pub open spec fn width_of(c: char) -> nat {
    let n = c as u32;
    if n <= 0x7f {
        1
    } else if n <= 0x7ff {
        2
    } else if n <= 0xffff {
        3
    } else {
        4
    }
}

pub fn width(c: char) -> (r: usize)
    ensures
        r == width_of(c),
{
    let n: u32 = c as u32;
    if n <= 0x7f {
        1
    } else if n <= 0x7ff {
        2
    } else if n <= 0xffff {
        3
    } else {
        4
    }
}

pub proof fn lemma_utf8_add(a: Seq<char>, b: Seq<char>)
    ensures
        encode_utf8(a + b) == encode_utf8(a) + encode_utf8(b),
        utf8_len(a + b) == utf8_len(a) + utf8_len(b),
    decreases a.len(),
{
    if a.len() == 0 {
        assert(a + b =~= b);
        assert(encode_utf8(a) + encode_utf8(b) =~= encode_utf8(b));
    } else {
        assert((a + b).drop_first() =~= a.drop_first() + b);
        lemma_utf8_add(a.drop_first(), b);
        assert(encode_utf8(a + b) =~= encode_utf8(a) + encode_utf8(b));
    }
}

pub proof fn lemma_utf8_one(c: char)
    ensures
        utf8_len(seq![c]) == width_of(c),
{
    assert(seq![c].drop_first() =~= seq![]);
    assert(encode_utf8(seq![c]) =~= encode_scalar(c as u32) + encode_utf8(seq![c].drop_first()));
    char_is_scalar(c);
}

pub proof fn lemma_utf8_push(s: Seq<char>, c: char)
    ensures
        utf8_len(s.push(c)) == utf8_len(s) + width_of(c),
{
    lemma_utf8_add(s, seq![c]);
    lemma_utf8_one(c);
    assert(s.push(c) =~= s + seq![c]);
}

/// A part takes no more bytes than the whole.
pub proof fn lemma_utf8_parts(s: Seq<char>, lo: int, hi: int)
    requires
        0 <= lo <= hi <= s.len(),
    ensures
        utf8_len(s) == utf8_len(s.take(lo)) + utf8_len(s.subrange(lo, hi)) + utf8_len(s.skip(hi)),
        utf8_len(s.take(hi)) == utf8_len(s.take(lo)) + utf8_len(s.subrange(lo, hi)),
{
    assert(s =~= s.take(hi) + s.skip(hi));
    lemma_utf8_add(s.take(hi), s.skip(hi));
    assert(s.take(hi) =~= s.take(lo) + s.subrange(lo, hi));
    lemma_utf8_add(s.take(lo), s.subrange(lo, hi));
}

/// A length that does not fit is reported as the largest one that does.
pub open spec fn clamp(n: int) -> int {
    if n > usize::MAX {
        usize::MAX as int
    } else {
        n
    }
}

/// How many bytes some characters take in UTF-8.
pub fn byte_len(s: &[char]) -> (r: usize)
    ensures
        r == clamp(utf8_len(s@) as int),
{
    let mut n: usize = 0;
    let mut i: usize = 0;
    proof {
        assert(s@.take(0) =~= seq![]);
    }
    while i < s.len()
        invariant
            i <= s@.len(),
            n == clamp(utf8_len(s@.take(i as int)) as int),
        decreases s@.len() - i,
    {
        proof {
            lemma_utf8_push(s@.take(i as int), s@[i as int]);
            assert(s@.take(i + 1) =~= s@.take(i as int).push(s@[i as int]));
        }
        n = n.saturating_add(width(s[i]));
        i += 1;
    }
    proof {
        assert(s@.take(i as int) =~= s@);
    }
    n
}

// ---- numbers ----

/// A digit of a number, as a character.
pub open spec fn digit_char(d: nat) -> char {
    if d == 0 { '0' } else if d == 1 { '1' } else if d == 2 { '2' } else if d == 3 { '3' }
    else if d == 4 { '4' } else if d == 5 { '5' } else if d == 6 { '6' } else if d == 7 { '7' }
    else if d == 8 { '8' } else { '9' }
}

/// A number in decimal.
pub open spec fn decimal(n: nat) -> Seq<char>
    decreases n,
{
    if n < 10 {
        seq![digit_char(n)]
    } else {
        decimal(n / 10).push(digit_char(n % 10))
    }
}

fn digit(d: u64) -> (r: char)
    requires
        d < 10,
    ensures
        r == digit_char(d as nat),
{
    if d == 0 { '0' } else if d == 1 { '1' } else if d == 2 { '2' } else if d == 3 { '3' }
    else if d == 4 { '4' } else if d == 5 { '5' } else if d == 6 { '6' } else if d == 7 { '7' }
    else if d == 8 { '8' } else { '9' }
}

/// A number in decimal.
pub fn number(n: u64) -> (r: String)
    ensures
        r@ == decimal(n as nat),
    decreases n,
{
    if n < 10 {
        let mut s = String::new();
        s.push(digit(n));
        proof {
            assert(s@ =~= seq![digit_char(n as nat)]);
        }
        s
    } else {
        let mut s = number(n / 10);
        s.push(digit(n % 10));
        s
    }
}

/// Texts written one after the other, with a separator between them.
pub open spec fn joined_with(parts: Seq<Seq<char>>, separator: Seq<char>) -> Seq<char>
    decreases parts.len(),
{
    if parts.len() == 0 {
        seq![]
    } else if parts.len() == 1 {
        parts[0]
    } else {
        joined_with(parts.drop_last(), separator) + separator + parts.last()
    }
}

/// Texts written one after the other, with a separator between them.
pub fn join_texts(parts: &Vec<String>, separator: &str) -> (r: String)
    ensures
        r@ == joined_with(parts.deep_view(), separator@),
{
    let ghost all = parts.deep_view();
    let mut out = String::new();
    let mut i: usize = 0;
    proof {
        assert(out@ =~= seq![]);
    }
    while i < parts.len()
        invariant
            i <= parts@.len(),
            all == parts.deep_view(),
            out@ == joined_with(all.take(i as int), separator@),
        decreases parts@.len() - i,
    {
        let ghost before = out@;
        proof {
            assert(all.take(i + 1).drop_last() =~= all.take(i as int));
            assert(all.take(i + 1).last() == parts@[i as int]@);
        }
        if i > 0 {
            out.append(separator);
        }
        out.append(parts[i].as_str());
        proof {
            if i == 0 {
                assert(out@ =~= all.take(1)[0]);
            }
        }
        i += 1;
    }
    proof {
        assert(all.take(i as int) =~= all);
    }
    out
}

/// A hexadecimal digit.
pub open spec fn hex_char(d: nat) -> char {
    if d < 10 {
        digit_char(d)
    } else if d == 10 {
        'a'
    } else if d == 11 {
        'b'
    } else if d == 12 {
        'c'
    } else if d == 13 {
        'd'
    } else if d == 14 {
        'e'
    } else {
        'f'
    }
}

/// The last digits of a number in hexadecimal.
pub open spec fn hex_of(n: nat, width: nat) -> Seq<char>
    decreases width,
{
    if width == 0 {
        seq![]
    } else {
        hex_of(n / 16, (width - 1) as nat).push(hex_char(n % 16))
    }
}

fn hex_digit(d: u32) -> (r: char)
    requires
        d < 16,
    ensures
        r == hex_char(d as nat),
{
    if d < 10 {
        digit(d as u64)
    } else if d == 10 {
        'a'
    } else if d == 11 {
        'b'
    } else if d == 12 {
        'c'
    } else if d == 13 {
        'd'
    } else if d == 14 {
        'e'
    } else {
        'f'
    }
}

/// The last digits of a number in hexadecimal.
pub fn hex(n: u32, width: usize) -> (r: String)
    ensures
        r@ == hex_of(n as nat, width as nat),
    decreases width,
{
    if width == 0 {
        let none = String::new();
        proof {
            assert(none@ =~= seq![]);
        }
        none
    } else {
        let mut s = hex(n / 16, width - 1);
        s.push(hex_digit(n % 16));
        s
    }
}

/// A line without the line feed that ends it, or the carriage return and line
/// feed that do.
pub open spec fn plain_of(line: Seq<char>) -> Seq<char> {
    if line.len() > 0 && line.last() == '\n' {
        let kept = line.drop_last();
        if kept.len() > 0 && kept.last() == '\r' {
            kept.drop_last()
        } else {
            kept
        }
    } else {
        line
    }
}

/// The lines of a text without what ends them.
pub open spec fn plain_lines_of(s: Seq<char>) -> Seq<Seq<char>> {
    Seq::new(lines_of(s).len(), |i: int| plain_of(lines_of(s)[i]))
}

/// The lines of a text without what ends them.
pub fn plain_lines(s: &str) -> (r: Vec<String>)
    ensures
        r.deep_view() == plain_lines_of(s@),
{
    let all = chars(s);
    let file = lines(all.as_slice());
    let ghost text = file.deep_view();
    let mut out: Vec<String> = Vec::new();
    let mut i: usize = 0;
    while i < file.len()
        invariant
            i <= file@.len(),
            text == file.deep_view(),
            text == lines_of(s@),
            out@.len() == i,
            forall|j: int| 0 <= j < i ==> (#[trigger] out@[j])@ == plain_lines_of(s@)[j],
        decreases file@.len() - i,
    {
        let line = file[i].as_slice();
        let mut end: usize = line.len();
        proof {
            assert(text[i as int] =~= line@);
        }
        if end > 0 && line[end - 1] == '\n' {
            end = end - 1;
            if end > 0 && line[end - 1] == '\r' {
                end = end - 1;
            }
        }
        proof {
            assert(line@.subrange(0, end as int) =~= plain_of(line@));
        }
        out.push(string(part(line, 0, end)));
        i += 1;
    }
    proof {
        assert(out.deep_view() =~= plain_lines_of(s@));
    }
    out
}

/// A number with one decimal, given in tenths.
pub open spec fn tenths_text(tenths: nat) -> Seq<char> {
    decimal(tenths / 10) + "."@ + decimal(tenths % 10)
}

/// A number with one decimal, given in tenths.
pub fn tenths(n: u64) -> (r: String)
    ensures
        r@ == tenths_text(n as nat),
{
    let mut s = number(n / 10);
    s.append(".");
    s.append(number(n % 10).as_str());
    s
}

} // verus!
