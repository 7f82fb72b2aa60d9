//! Positions: byte offsets into a file as lines and columns.
use crate::model::{Position, Range};
use crate::text::{chars, lemma_utf8_push, utf8_len, width};
use vstd::prelude::*;
use vstd::utf8::encode_utf8;

verus! {

/// How many line feeds the first `n` bytes hold.
pub open spec fn newlines(b: Seq<u8>, n: nat) -> nat
    decreases n,
{
    if n == 0 {
        0
    } else {
        newlines(b, (n - 1) as nat) + (if b[n - 1] == 10u8 {
            1nat
        } else {
            0nat
        })
    }
}

/// Where the line that offset `n` stands on begins.
pub open spec fn line_begin(b: Seq<u8>, n: nat) -> nat
    decreases n,
{
    if n == 0 || b[n - 1] == 10u8 {
        n
    } else {
        line_begin(b, (n - 1) as nat)
    }
}

/// A number too large for a position is reported as the largest there is.
pub open spec fn fit(n: int) -> u32 {
    if n > u32::MAX {
        u32::MAX
    } else {
        n as u32
    }
}

/// Line and column of a byte offset. An offset past the end counts on from
/// the start of the last line.
pub open spec fn position_of(b: Seq<u8>, offset: int) -> Position {
    let n = if offset < b.len() {
        offset as nat
    } else {
        b.len()
    };
    Position { line: fit(newlines(b, n) as int), column: fit(offset - line_begin(b, n)) }
}

/// The stretch between two byte offsets.
pub open spec fn range_of(b: Seq<u8>, start: int, end: int) -> Range {
    Range { start: position_of(b, start), end: position_of(b, end) }
}

proof fn lemma_newlines_mono(b: Seq<u8>, i: nat, j: nat)
    requires
        i <= j,
    ensures
        newlines(b, i) <= newlines(b, j),
    decreases j - i,
{
    if i < j {
        lemma_newlines_mono(b, i, (j - 1) as nat);
    }
}

proof fn lemma_line_begin(b: Seq<u8>, n: nat)
    ensures
        line_begin(b, n) <= n,
        newlines(b, line_begin(b, n)) == newlines(b, n),
        line_begin(b, n) == 0 || b[line_begin(b, n) - 1] == 10u8,
    decreases n,
{
    if n > 0 && b[n - 1] != 10u8 {
        lemma_line_begin(b, (n - 1) as nat);
    }
}

/// Where each line of a file begins.
pub struct LineIndex {
    pub starts: Vec<usize>,
    pub len: usize,
    pub bytes: Ghost<Seq<u8>>,
}

impl LineIndex {
    /// The index names the beginning of every line, in order.
    pub open spec fn wf(self) -> bool {
        let b = self.bytes@;
        &&& self.len == b.len()
        &&& self.starts@.len() == newlines(b, b.len()) + 1
        &&& forall|k: int|
            0 <= k < self.starts@.len() ==> {
                &&& #[trigger] self.starts@[k] <= b.len()
                &&& newlines(b, self.starts@[k] as nat) == k
                &&& line_begin(b, self.starts@[k] as nat) == self.starts@[k]
            }
    }

    pub fn new(src: &str) -> (r: LineIndex)
        ensures
            r.wf(),
            r.bytes@ == encode_utf8(src@),
    {
        let bytes = src.as_bytes();
        let ghost b = bytes@;
        let len: usize = bytes.len();
        let mut starts: Vec<usize> = Vec::new();
        starts.push(0);
        let mut i: usize = 0;
        while i < len
            invariant
                i <= len,
                len == b.len(),
                b == bytes@,
                starts@.len() == newlines(b, i as nat) + 1,
                forall|k: int|
                    0 <= k < starts@.len() ==> {
                        &&& #[trigger] starts@[k] <= b.len()
                        &&& newlines(b, starts@[k] as nat) == k
                        &&& line_begin(b, starts@[k] as nat) == starts@[k]
                    },
            decreases len - i,
        {
            if bytes[i] == 10u8 {
                starts.push(i + 1);
            }
            i += 1;
        }
        LineIndex { starts, len, bytes: Ghost(b) }
    }

    /// Line and column of a byte offset.
    pub fn position(&self, offset: usize) -> (r: Position)
        requires
            self.wf(),
        ensures
            r == position_of(self.bytes@, offset as int),
    {
        let ghost b = self.bytes@;
        let n: usize = if offset < self.len {
            offset
        } else {
            self.len
        };
        let mut lo: usize = 0;
        let mut hi: usize = self.starts.len();
        proof {
            assert(self.starts@[0] == 0) by {
                let s = self.starts@[0];
                lemma_line_begin(b, s as nat);
                if s > 0 {
                    lemma_newlines_mono(b, 0, (s - 1) as nat);
                }
            }
        }
        while hi - lo > 1
            invariant
                self.wf(),
                b == self.bytes@,
                0 <= lo < hi <= self.starts@.len(),
                self.starts@[lo as int] <= n,
                n <= b.len(),
                hi < self.starts@.len() ==> self.starts@[hi as int] > n,
            decreases hi - lo,
        {
            let mid: usize = lo + (hi - lo) / 2;
            if self.starts[mid] <= n {
                lo = mid;
            } else {
                hi = mid;
            }
        }
        proof {
            let s = self.starts@[lo as int] as nat;
            lemma_newlines_mono(b, s, n as nat);
            if hi < self.starts@.len() {
                let t = self.starts@[hi as int] as nat;
                lemma_line_begin(b, t);
                assert(newlines(b, t) == newlines(b, (t - 1) as nat) + 1);
                lemma_newlines_mono(b, n as nat, (t - 1) as nat);
            } else {
                lemma_newlines_mono(b, n as nat, b.len());
            }
            assert(newlines(b, n as nat) == lo);
            lemma_line_begin(b, n as nat);
            let m = line_begin(b, n as nat);
            lemma_line_begin(b, s);
            if m < s {
                assert(newlines(b, s) == newlines(b, (s - 1) as nat) + 1);
                lemma_newlines_mono(b, m, (s - 1) as nat);
            }
            if s < m {
                assert(newlines(b, m) == newlines(b, (m - 1) as nat) + 1);
                lemma_newlines_mono(b, s, (m - 1) as nat);
            }
        }
        let column: usize = offset - self.starts[lo];
        Position { line: to_u32(lo), column: to_u32(column) }
    }

    /// The stretch between two byte offsets.
    pub fn range(&self, start: usize, end: usize) -> (r: Range)
        requires
            self.wf(),
        ensures
            r == range_of(self.bytes@, start as int, end as int),
    {
        Range { start: self.position(start), end: self.position(end) }
    }
}

/// A number too large for a position is reported as the largest there is.
pub fn to_u32(n: usize) -> (r: u32)
    ensures
        r == fit(n as int),
{
    if n > u32::MAX as usize {
        u32::MAX
    } else {
        n as u32
    }
}

/// How a client counts columns.
#[derive(Clone, Copy, PartialEq, Eq, Debug, Structural)]
pub enum Encoding {
    Utf8,
    Utf16,
}

/// How many UTF-16 code units a character takes.
pub open spec fn units_of(c: char) -> nat {
    if c as u32 > 0xffff {
        2
    } else {
        1
    }
}

/// How many UTF-16 code units some text takes.
pub open spec fn utf16_len(s: Seq<char>) -> nat
    decreases s.len(),
{
    if s.len() == 0 {
        0
    } else {
        utf16_len(s.drop_last()) + units_of(s.last())
    }
}

/// How many whole characters fit in the first `bytes` bytes of a line.
pub open spec fn chars_within(line: Seq<char>, bytes: int) -> nat
    decreases line.len(),
{
    if utf8_len(line) <= bytes || line.len() == 0 {
        line.len()
    } else {
        chars_within(line.drop_last(), bytes)
    }
}

/// A byte column as a client counts it.
pub open spec fn column_of(line: Seq<char>, byte_column: int, encoding: Encoding) -> u32 {
    match encoding {
        Encoding::Utf8 => fit(byte_column),
        Encoding::Utf16 => fit(utf16_len(line.take(chars_within(line, byte_column) as int)) as int),
    }
}

proof fn lemma_chars_within(line: Seq<char>, bytes: int, k: nat)
    requires
        k <= line.len(),
        utf8_len(line.take(k as int)) <= bytes,
        k < line.len() ==> utf8_len(line.take(k as int + 1)) > bytes,
    ensures
        chars_within(line, bytes) == k,
    decreases line.len(),
{
    if k < line.len() {
        lemma_utf8_grows(line, (k + 1) as int, line.len() as int);
        assert(line.take(line.len() as int) =~= line);
        assert(line.drop_last().take(k as int) =~= line.take(k as int));
        if k + 1 < line.len() {
            assert(line.drop_last().take(k as int + 1) =~= line.take(k as int + 1));
        } else {
            assert(line.drop_last() =~= line.take(k as int));
        }
        lemma_chars_within(line.drop_last(), bytes, k);
    } else {
        assert(line.take(k as int) =~= line);
    }
}

proof fn lemma_utf8_grows(line: Seq<char>, i: int, j: int)
    requires
        0 <= i <= j <= line.len(),
    ensures
        utf8_len(line.take(i)) <= utf8_len(line.take(j)),
    decreases j - i,
{
    if i < j {
        lemma_utf8_grows(line, i, j - 1);
        lemma_utf8_push(line.take(j - 1), line[j - 1]);
        assert(line.take(j) =~= line.take(j - 1).push(line[j - 1]));
    }
}

/// A byte column as the client counts it.
pub fn column(line: &str, byte_column: usize, encoding: Encoding) -> (r: u32)
    ensures
        r == column_of(line@, byte_column as int, encoding),
{
    if encoding == Encoding::Utf8 {
        return to_u32(byte_column);
    }
    let cs = chars(line);
    let mut bytes: usize = 0;
    let mut units: u32 = 0;
    let mut i: usize = 0;
    proof {
        assert(line@.take(0) =~= seq![]);
    }
    while i < cs.len()
        invariant
            i <= cs@.len(),
            cs@ == line@,
            encoding == Encoding::Utf16,
            bytes <= byte_column,
            bytes == utf8_len(line@.take(i as int)),
            units == fit(utf16_len(line@.take(i as int)) as int),
        decreases cs@.len() - i,
    {
        let c: char = cs[i];
        let w: usize = width(c);
        proof {
            lemma_utf8_push(line@.take(i as int), c);
            assert(line@.take(i + 1) =~= line@.take(i as int).push(c));
            assert(line@.take(i + 1).drop_last() =~= line@.take(i as int));
        }
        if w > byte_column - bytes {
            proof {
                lemma_chars_within(line@, byte_column as int, i as nat);
            }
            return units;
        }
        bytes = bytes + w;
        let more: u32 = if c as u32 > 0xffff { 2 } else { 1 };
        units = units.saturating_add(more);
        i += 1;
    }
    proof {
        lemma_chars_within(line@, byte_column as int, i as nat);
    }
    units
}

proof fn lemma_same_line(b: Seq<u8>, i: nat, j: nat)
    requires
        i <= j <= b.len(),
        newlines(b, i) == newlines(b, j),
    ensures
        line_begin(b, i) == line_begin(b, j),
    decreases j - i,
{
    if i < j {
        lemma_newlines_mono(b, i, (j - 1) as nat);
        lemma_same_line(b, i, (j - 1) as nat);
    }
}

/// In a file small enough to be counted, a position names one offset.
pub proof fn a_position_names_one_offset(b: Seq<u8>, i: int, j: int)
    requires
        b.len() <= u32::MAX,
        0 <= i <= b.len(),
        0 <= j <= b.len(),
        position_of(b, i) == position_of(b, j),
    ensures
        i == j,
{
    lemma_newlines_bound(b, i as nat);
    lemma_newlines_bound(b, j as nat);
    lemma_line_begin(b, i as nat);
    lemma_line_begin(b, j as nat);
    if i <= j {
        lemma_same_line(b, i as nat, j as nat);
    } else {
        lemma_same_line(b, j as nat, i as nat);
    }
}

proof fn lemma_newlines_bound(b: Seq<u8>, n: nat)
    ensures
        newlines(b, n) <= n,
    decreases n,
{
    if n > 0 {
        lemma_newlines_bound(b, (n - 1) as nat);
    }
}

} // verus!
