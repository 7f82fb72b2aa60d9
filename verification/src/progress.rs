//! Telling the editor that a download is happening.
use crate::model::{ecosystem_name, Ecosystem};
use crate::text::{decimal, number};
use vstd::prelude::*;

verus! {

/// How far a download is, in whole percent; nothing where its size is unknown.
pub open spec fn percent_of(downloaded: u64, total: Option<u64>) -> Option<u32> {
    match total {
        Some(t) => if t == 0 {
            None
        } else if downloaded * 100 / (t as int) > 100 {
            Some(100u32)
        } else {
            Some((downloaded * 100 / (t as int)) as u32)
        },
        None => None,
    }
}

/// Whole percent, or nothing when the server sent no `content-length`.
///
/// Computed wide: `downloaded * 100` overflows a `u64`, and saturating there
/// yields a plausible-looking wrong number rather than an obvious one.
pub fn percentage(downloaded: u64, total: Option<u64>) -> (r: Option<u32>)
    ensures
        r == percent_of(downloaded, total),
{
    match total {
        Some(t) => {
            if t == 0 {
                return None;
            }
            let percent: u128 = (downloaded as u128) * 100 / (t as u128);
            if percent > 100 {
                Some(100)
            } else {
                Some(percent as u32)
            }
        },
        None => None,
    }
}

/// A percentage never exceeds a hundred, and is a hundred once everything is
/// there.
pub proof fn a_percentage_ends_at_a_hundred(downloaded: u64, total: u64)
    requires
        total > 0,
    ensures
        percent_of(downloaded, Some(total)) is Some,
        percent_of(downloaded, Some(total))->Some_0 <= 100,
        downloaded >= total ==> percent_of(downloaded, Some(total)) == Some(100u32),
{
    let (d, t) = (downloaded as int, total as int);
    if d >= t {
        assert(d * 100 / t >= 100) by (nonlinear_arith)
            requires
                d >= t,
                t > 0,
        ;
    }
    assert(d * 100 / t >= 0) by (nonlinear_arith)
        requires
            d >= 0,
            t > 0,
    ;
}

/// A quotient, rounded to the nearest whole number and ties to the even one.
pub open spec fn rounded(n: int, d: int) -> int {
    let q = n / d;
    let r = n % d;
    if 2 * r > d || (2 * r == d && q % 2 == 1) {
        q + 1
    } else {
        q
    }
}

/// Two to the fifty-third: below it every whole number has its own double.
pub const EXACT: u128 = 9007199254740992;

/// How far apart the doubles near a number are.
pub open spec fn spacing(n: int, unit: int) -> int
    decreases n - unit,
{
    if unit <= 0 || n < EXACT * unit {
        unit
    } else {
        spacing(n, 2 * unit)
    }
}

/// The double nearest to a number.
pub open spec fn nearest_double(n: int) -> int {
    rounded(n, spacing(n, 1)) * spacing(n, 1)
}

/// Bytes in tenths of a megabyte, as dividing doubles gives them.
pub open spec fn tenths_of(bytes: int) -> int {
    rounded(nearest_double(bytes) * 10, 1048576)
}

pub open spec fn megabytes_of(bytes: u64) -> Seq<char> {
    let t = tenths_of(bytes as int);
    decimal((t / 10) as nat) + "."@ + decimal((t % 10) as nat) + " MB"@
}

fn round(n: u128, d: u128) -> (r: u128)
    requires
        0 < d <= 1048576,
        n < 0x1_0000_0000_0000_0000_0000,
    ensures
        r == rounded(n as int, d as int),
        r <= n + 1,
{
    let q: u128 = n / d;
    let rest: u128 = n % d;
    proof {
        assert(q <= n) by (nonlinear_arith)
            requires
                q == n / d,
                d > 0,
        ;
    }
    if 2 * rest > d || (2 * rest == d && q % 2 == 1) {
        q + 1
    } else {
        q
    }
}

fn double_near(n: u64) -> (r: u128)
    ensures
        r == nearest_double(n as int),
        r <= 0x1_0000_0000_0000_0800,
{
    let wide: u128 = n as u128;
    let mut unit: u128 = 1;
    while wide >= EXACT * unit
        invariant
            wide == n,
            unit == 1 || unit == 2 || unit == 4 || unit == 8 || unit == 16 || unit == 32 || unit == 64
                || unit == 128 || unit == 256 || unit == 512 || unit == 1024 || unit == 2048,
            wide < EXACT * 2048,
            spacing(n as int, 1) == spacing(n as int, unit as int),
        decreases 2048 - unit,
    {
        proof {
            assert(unit < 2048);
            assert(n as int >= EXACT * (unit as int));
        }
        unit = unit * 2;
    }
    let q: u128 = round(wide, unit);
    proof {
        lemma_rounded_bound(wide as int, unit as int);
    }
    q * unit
}

proof fn lemma_rounded_bound(n: int, d: int)
    requires
        0 <= n,
        d > 0,
    ensures
        0 <= rounded(n, d) * d <= n + d,
{
    let q = n / d;
    let r = n % d;
    vstd::arithmetic::div_mod::lemma_fundamental_div_mod(n, d);
    assert(q >= 0 && 0 <= r < d && d * q == q * d) by (nonlinear_arith)
        requires
            q == n / d,
            r == n % d,
            n >= 0,
            d > 0,
    ;
    assert((q + 1) * d == q * d + d) by (nonlinear_arith);
    assert(q * d >= 0) by (nonlinear_arith)
        requires
            q >= 0,
            d > 0,
    ;
}

/// An amount of data, in megabytes to one decimal.
pub fn megabytes(bytes: u64) -> (r: String)
    ensures
        r@ == megabytes_of(bytes),
{
    let near: u128 = double_near(bytes);
    let tenths: u128 = round(near * 10, 1048576);
    proof {
        lemma_tenths(near as int);
    }
    number((tenths / 10) as u64).concat(".").concat(number((tenths % 10) as u64).as_str()).concat(
        " MB",
    )
}

proof fn lemma_tenths(near: int)
    requires
        0 <= near <= 0x1_0000_0000_0000_0800,
    ensures
        0 <= rounded(near * 10, 1048576) <= 0x1_0000_0000_0000_0000,
{
}

/// "12.4 MB of 205.3 MB", or just the first half when the size is unknown.
pub open spec fn amount_of(downloaded: u64, total: Option<u64>) -> Seq<char> {
    match total {
        Some(t) => if t > 0 {
            megabytes_of(downloaded) + " of "@ + megabytes_of(t)
        } else {
            megabytes_of(downloaded)
        },
        None => megabytes_of(downloaded),
    }
}

/// "12.4 MB of 205.3 MB", or just the first half when the size is unknown.
pub fn describe(downloaded: u64, total: Option<u64>) -> (r: String)
    ensures
        r@ == amount_of(downloaded, total),
{
    match total {
        Some(t) => {
            if t > 0 {
                megabytes(downloaded).concat(" of ").concat(megabytes(t).as_str())
            } else {
                megabytes(downloaded)
            }
        },
        None => megabytes(downloaded),
    }
}

/// The token of an ecosystem's bar: one each, so that concurrent downloads do
/// not overwrite each other's.
pub fn token(ecosystem: Ecosystem) -> (r: String)
    ensures
        r@ == "package-checker/"@ + ecosystem_name(ecosystem),
{
    "package-checker/".to_owned().concat(ecosystem.as_str())
}

/// One token never stands for two ecosystems.
pub proof fn tokens_are_distinct(a: Ecosystem, b: Ecosystem)
    requires
        "package-checker/"@ + ecosystem_name(a) == "package-checker/"@ + ecosystem_name(b),
    ensures
        a == b,
{
    let n = "package-checker/"@.len() as int;
    assert(("package-checker/"@ + ecosystem_name(a)).skip(n) =~= ecosystem_name(a));
    assert(("package-checker/"@ + ecosystem_name(b)).skip(n) =~= ecosystem_name(b));
    crate::model::ecosystem_names_are_distinct(a, b);
}

/// What a bar is headed.
pub fn title(ecosystem: Ecosystem) -> (r: String)
    ensures
        r@ == "Downloading "@ + ecosystem_name(ecosystem) + " advisories"@,
{
    "Downloading ".to_owned().concat(ecosystem.as_str()).concat(" advisories")
}

/// The percentage a bar starts at: none where the size is unknown.
pub fn first_percentage(total: Option<u64>) -> (r: Option<u32>)
    ensures
        r == (if total is Some { Some(0u32) } else { None }),
{
    if total.is_some() {
        Some(0)
    } else {
        None
    }
}

/// What a bar says at the end.
pub fn ending(ecosystem: Ecosystem, error: Option<&str>) -> (r: String)
    ensures
        r@ == (match error {
            Some(e) => ecosystem_name(ecosystem) + " failed: "@ + e@,
            None => ecosystem_name(ecosystem) + " advisories ready"@,
        }),
{
    match error {
        Some(e) => ecosystem.as_str().to_owned().concat(" failed: ").concat(e),
        None => ecosystem.as_str().to_owned().concat(" advisories ready"),
    }
}

} // verus!
