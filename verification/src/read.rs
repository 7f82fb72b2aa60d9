//! Reading a project's files, bounded.
//!
//! A manifest comes from whatever repository the user opened, so its size is
//! not ours to assume.
use crate::text::utf8_len;
use vstd::prelude::*;

verus! {

/// The most of one file that is ever read.
///
/// The largest monorepo lockfiles reach about ten megabytes, so this leaves
/// real headroom.
pub const MAX_MANIFEST_BYTES: u64 = 16777216;

/// A file's text within a cap: nothing where it could not be measured or read,
/// or is larger.
pub open spec fn within_cap(size: Option<u64>, text: Option<Seq<char>>, cap: u64) -> Option<
    Seq<char>,
> {
    match (size, text) {
        (Some(n), Some(t)) => if n <= cap && utf8_len(t) <= cap {
            Some(t)
        } else {
            None
        },
        _ => None,
    }
}

/// Whether a file is worth reading, by its size.
pub fn is_small_enough(size: u64, cap: u64) -> (r: bool)
    ensures
        r == (size <= cap),
{
    size <= cap
}

/// Skips an oversized file rather than truncating it: some formats are
/// line-based, so a prefix parses cleanly and "too big to scan" would read as
/// "half your dependencies are fine".
///
/// The size is a hint, not a guarantee: a file being written can grow between
/// measuring and reading it. So the text is measured as well.
pub fn bounded(size: Option<u64>, text: Option<String>, cap: u64) -> (r: Option<String>)
    ensures
        r.deep_view() == within_cap(size, text.deep_view(), cap),
{
    match (size, text) {
        (Some(n), Some(t)) => {
            if n > cap {
                return None;
            }
            let len: usize = t.as_str().as_bytes().len();
            if len as u64 > cap {
                None
            } else {
                Some(t)
            }
        },
        _ => None,
    }
}

/// A manifest's text, or `None` if it could not be read or is larger than
/// [`MAX_MANIFEST_BYTES`].
pub fn manifest(size: Option<u64>, text: Option<String>) -> (r: Option<String>)
    ensures
        r.deep_view() == within_cap(size, text.deep_view(), MAX_MANIFEST_BYTES),
{
    bounded(size, text, MAX_MANIFEST_BYTES)
}

/// What is read is never over the cap, and never cut.
pub proof fn nothing_is_truncated(size: Option<u64>, text: Option<Seq<char>>, cap: u64)
    ensures
        within_cap(size, text, cap) matches Some(t) ==> Some(t) == text && utf8_len(t) <= cap,
{
}

} // verus!
