//! What is kept on disk of the advisories, how it is fetched, and what an editor
//! says about its files.
use crate::archive::{sorted_out, FoundView, RawView};
use crate::db::{
    answer_of, base64_of, big_endian, bytes64, crc_in, digit64, digits64, fetch_order, header_parts,
    is_stale, number64, only, power2, MetaView,
};
use crate::laws::writing::{lacks, lemma_before, lemma_trimmed};
use crate::load::{
    advisories_in, contributed, count_entries, count_failed, decoded_of, is_advisory_name_of,
    is_corrupt, DecodedView,
};
use crate::lsp::{file_part, unescaped};
use crate::model::{is_direct, shortest_of, url_of, AdvisoryView, Ecosystem, KeyView};
use crate::osv::{model_of, OsvAdvisoryView};
use crate::progress::{percent_of, tenths_of, EXACT};
use crate::text::{split_of, Class};
use vstd::prelude::*;

verus! {

// ---- freshness ----

/// An archive is left alone exactly where it is there and was checked less than
/// its time ago.
pub proof fn an_archive_is_checked_again_when_its_time_is_up(
    present: bool,
    meta: Option<MetaView>,
    now: Option<u64>,
    ttl: u64,
)
    ensures
        !is_stale(present, meta, now, ttl) <==> present && meta is Some && now is Some && ttl > 0
            && now->Some_0 < meta->Some_0.fetched_at + ttl,
{
}

/// An archive that has not changed keeps what is known of it, but for when it
/// was checked; only a full answer is read, and any other status is a failure.
pub proof fn an_answer_is_taken_by_its_status(
    status: u16,
    meta: MetaView,
    now: u64,
    url: Seq<char>,
)
    ensures
        answer_of(status, Some(meta), now, url) is Current <==> status == 304,
        answer_of(status, Some(meta), now, url) is Download <==> status == 200,
        answer_of(status, None, now, url) is Download <==> status == 200,
        answer_of(304, Some(meta), now, url)->Current_0.etag == meta.etag,
        answer_of(304, Some(meta), now, url)->Current_0.crc32c == meta.crc32c,
        answer_of(304, Some(meta), now, url)->Current_0.fetched_at == now,
{
}

/// How large the archive of an ecosystem is among the others.
pub open spec fn size_rank(e: Ecosystem) -> int {
    match e {
        Ecosystem::CratesIo => 0,
        Ecosystem::Go => 1,
        Ecosystem::PyPI => 2,
        Ecosystem::Npm => 3,
    }
}

proof fn lemma_only(list: Seq<Ecosystem>, e: Ecosystem)
    ensures
        forall|i: int| 0 <= i < only(list, e).len() ==> #[trigger] only(list, e)[i] == e,
    decreases list.len(),
{
    if list.len() > 0 {
        lemma_only(list.drop_last(), e);
    }
}

/// Smaller archives are fetched before larger ones.
pub proof fn smaller_archives_come_first(list: Seq<Ecosystem>, i: int, j: int)
    requires
        0 <= i < j < fetch_order(list).len(),
    ensures
        size_rank(fetch_order(list)[i]) <= size_rank(fetch_order(list)[j]),
{
    lemma_only(list, Ecosystem::CratesIo);
    lemma_only(list, Ecosystem::Go);
    lemma_only(list, Ecosystem::PyPI);
    lemma_only(list, Ecosystem::Npm);
    let a = only(list, Ecosystem::CratesIo);
    let b = only(list, Ecosystem::Go);
    let c = only(list, Ecosystem::PyPI);
    let d = only(list, Ecosystem::Npm);
    lemma_parts(a, b, c, d, i);
    lemma_parts(a, b, c, d, j);
}

proof fn lemma_parts(
    a: Seq<Ecosystem>,
    b: Seq<Ecosystem>,
    c: Seq<Ecosystem>,
    d: Seq<Ecosystem>,
    i: int,
)
    requires
        0 <= i < (a + b + c + d).len(),
    ensures
        ({
            let all = a + b + c + d;
            let x = a.len() as int;
            let y = x + b.len();
            let z = y + c.len();
            &&& i < x ==> all[i] == a[i]
            &&& x <= i < y ==> all[i] == b[i - x]
            &&& y <= i < z ==> all[i] == c[i - y]
            &&& z <= i ==> all[i] == d[i - z]
        }),
{
}

// ---- checksums ----

/// The digits of base64, in order.
pub open spec fn alphabet() -> Seq<char> {
    "ABCDEFGHIJKLMNOPQRSTUVWXYZabcdefghijklmnopqrstuvwxyz0123456789+/"@
}

/// A number in so many base64 digits.
pub open spec fn spelled(n: nat, digits: nat) -> Seq<char>
    decreases digits,
{
    if digits == 0 {
        seq![]
    } else {
        spelled(n / 64, (digits - 1) as nat).push(alphabet()[(n % 64) as int])
    }
}

/// A checksum as it is sent: four bytes in base64, the most significant first.
pub open spec fn sent(crc: u32) -> Seq<char> {
    "crc32c="@ + spelled((crc * 16) as nat, 6) + "=="@
}

proof fn lemma_upper(i: int)
    requires
        0 <= i < 26,
    ensures
        alphabet()[i] as u32 == 65 + i,
{
    reveal_strlit("ABCDEFGHIJKLMNOPQRSTUVWXYZabcdefghijklmnopqrstuvwxyz0123456789+/");
    let a = alphabet();
    assert(a[0] == 'A' && a[1] == 'B' && a[2] == 'C' && a[3] == 'D' && a[4] == 'E' && a[5] == 'F'
        && a[6] == 'G' && a[7] == 'H' && a[8] == 'I' && a[9] == 'J' && a[10] == 'K' && a[11] == 'L'
        && a[12] == 'M');
    assert(a[13] == 'N' && a[14] == 'O' && a[15] == 'P' && a[16] == 'Q' && a[17] == 'R' && a[18]
        == 'S' && a[19] == 'T' && a[20] == 'U' && a[21] == 'V' && a[22] == 'W' && a[23] == 'X'
        && a[24] == 'Y' && a[25] == 'Z');
    assert(i == 0 || i == 1 || i == 2 || i == 3 || i == 4 || i == 5 || i == 6 || i == 7 || i == 8
        || i == 9 || i == 10 || i == 11 || i == 12 || i == 13 || i == 14 || i == 15 || i == 16 || i
        == 17 || i == 18 || i == 19 || i == 20 || i == 21 || i == 22 || i == 23 || i == 24 || i
        == 25);
}

proof fn lemma_lower(i: int)
    requires
        0 <= i < 26,
    ensures
        alphabet()[i + 26] as u32 == 97 + i,
{
    reveal_strlit("ABCDEFGHIJKLMNOPQRSTUVWXYZabcdefghijklmnopqrstuvwxyz0123456789+/");
    let a = alphabet();
    assert(a[26] == 'a' && a[27] == 'b' && a[28] == 'c' && a[29] == 'd' && a[30] == 'e' && a[31]
        == 'f' && a[32] == 'g' && a[33] == 'h' && a[34] == 'i' && a[35] == 'j' && a[36] == 'k'
        && a[37] == 'l' && a[38] == 'm');
    assert(a[39] == 'n' && a[40] == 'o' && a[41] == 'p' && a[42] == 'q' && a[43] == 'r' && a[44]
        == 's' && a[45] == 't' && a[46] == 'u' && a[47] == 'v' && a[48] == 'w' && a[49] == 'x'
        && a[50] == 'y' && a[51] == 'z');
    assert(i == 0 || i == 1 || i == 2 || i == 3 || i == 4 || i == 5 || i == 6 || i == 7 || i == 8
        || i == 9 || i == 10 || i == 11 || i == 12 || i == 13 || i == 14 || i == 15 || i == 16 || i
        == 17 || i == 18 || i == 19 || i == 20 || i == 21 || i == 22 || i == 23 || i == 24 || i
        == 25);
}

proof fn lemma_digit(i: int)
    requires
        0 <= i < 64,
    ensures
        digit64(alphabet()[i]) == Some(i),
        alphabet()[i] != '=',
        alphabet()[i] != ',',
{
    reveal_strlit("ABCDEFGHIJKLMNOPQRSTUVWXYZabcdefghijklmnopqrstuvwxyz0123456789+/");
    if i < 26 {
        lemma_upper(i);
    } else if i < 52 {
        lemma_lower(i - 26);
    } else {
        let a = alphabet();
        assert(a[52] == '0' && a[53] == '1' && a[54] == '2' && a[55] == '3' && a[56] == '4'
            && a[57] == '5' && a[58] == '6' && a[59] == '7' && a[60] == '8' && a[61] == '9'
            && a[62] == '+' && a[63] == '/');
        assert(i == 52 || i == 53 || i == 54 || i == 55 || i == 56 || i == 57 || i == 58 || i == 59
            || i == 60 || i == 61 || i == 62 || i == 63);
    }
}

pub open spec fn power64(n: nat) -> nat
    decreases n,
{
    if n == 0 {
        1
    } else {
        64 * power64((n - 1) as nat)
    }
}

proof fn lemma_spelled(n: nat, digits: nat)
    requires
        n < power64(digits),
    ensures
        spelled(n, digits).len() == digits,
        number64(spelled(n, digits)) == n,
        digits64(spelled(n, digits)),
        lacks(spelled(n, digits), '='),
        lacks(spelled(n, digits), ','),
    decreases digits,
{
    if digits > 0 {
        let m = (digits - 1) as nat;
        assert(power64(digits) == 64 * power64(m));
        assert(n / 64 < power64(m));
        lemma_spelled(n / 64, m);
        lemma_digit((n % 64) as int);
        let s = spelled(n, digits);
        assert(s.drop_last() =~= spelled(n / 64, m));
        assert forall|i: int| 0 <= i < s.len() implies digit64(#[trigger] s[i]) is Some by {
            if i < m {
                assert(s[i] == spelled(n / 64, m)[i]);
            }
        }
        assert forall|i: int| 0 <= i < s.len() implies #[trigger] s[i] != '=' && s[i] != ',' by {
            if i < m {
                assert(s[i] == spelled(n / 64, m)[i]);
            }
        }
    }
}

proof fn lemma_powers()
    ensures
        power2(4) == 16,
        power2(12) == 4096,
        power2(20) == 1048576,
        power2(28) == 268435456,
{
    reveal_with_fuel(power2, 9);
    assert(power2(8) == 256);
    assert(power2(12) == 4096);
    assert(power2(16) == 65536);
    assert(power2(20) == 1048576);
    assert(power2(24) == 16777216);
    assert(power2(28) == 268435456);
}

/// The bytes of a number of four bytes make it up.
proof fn lemma_four_bytes(n: int)
    requires
        0 <= n < 4294967296,
    ensures
        ((n * 16) / 268435456) % 256 == n / 16777216,
        ((n * 16) / 1048576) % 256 == (n / 65536) % 256,
        ((n * 16) / 4096) % 256 == (n / 256) % 256,
        ((n * 16) / 16) % 256 == n % 256,
        (n / 16777216) * 16777216 + ((n / 65536) % 256) * 65536 + ((n / 256) % 256) * 256 + n % 256
            == n,
{
    assert((n * 16) / 268435456 == n / 16777216);
    assert((n * 16) / 1048576 == n / 65536);
    assert((n * 16) / 4096 == n / 256);
    assert((n * 16) / 16 == n);
    assert(0 <= n / 16777216 < 256);
    let a = n / 256;
    let b = a / 256;
    assert(n == a * 256 + n % 256);
    assert(n / 65536 == b);
    assert(a == b * 256 + a % 256);
    assert(n / 16777216 == b / 256);
    assert(b == (b / 256) * 256 + b % 256);
}

proof fn lemma_bytes(n: u32)
    ensures
        ({
            let s = spelled((n * 16) as nat, 6);
            bytes64(s).len() == 4 && big_endian(bytes64(s)) == n
        }),
{
    let s = spelled((n * 16) as nat, 6);
    lemma_power64();
    lemma_spelled((n * 16) as nat, 6);
    lemma_powers();
    lemma_four_bytes(n as int);
    let b = bytes64(s);
    let m = n as int * 16;
    assert(number64(s) == m);
    assert(b.len() == 4);
    assert(b[0] == (m / power2(28)) % 256);
    assert(b[1] == (m / power2(20)) % 256);
    assert(b[2] == (m / power2(12)) % 256);
    assert(b[3] == (m / power2(4)) % 256);
    assert(b[0] == n as int / 16777216);
    assert(b[1] == (n as int / 65536) % 256);
    assert(b[2] == (n as int / 256) % 256);
    assert(b[3] == n as int % 256);
}

proof fn lemma_power64()
    ensures
        power64(6) == 68719476736,
{
    reveal_with_fuel(power64, 7);
}

proof fn lemma_sent(crc: u32)
    ensures
        crc_in(seq![sent(crc)]) == Some(crc),
        lacks(sent(crc), ','),
        forall|rest: Seq<Seq<char>>| crc_in(#[trigger] (seq![sent(crc)] + rest)) == Some(crc),
{
    reveal_strlit("crc32c=");
    reveal_strlit("==");
    lemma_power64();
    let d = spelled((crc * 16) as nat, 6);
    lemma_spelled((crc * 16) as nat, 6);
    lemma_bytes(crc);
    let s = sent(crc);
    assert(s[0] == 'c');
    assert(s[s.len() - 1] == '=');
    lemma_trimmed(s, Class::Space);
    assert("crc32c="@.is_prefix_of(s)) by {
        assert(s.take(7) =~= "crc32c="@);
    }
    assert(s.skip(7) =~= d + "=="@);
    lemma_before(d, "=="@, Class::One('='));
    assert(base64_of(s.skip(7)) == Some(bytes64(d)));
    assert forall|i: int| 0 <= i < s.len() implies #[trigger] s[i] != ',' by {
        if 7 <= i < 13 {
            assert(s[i] == d[i - 7]);
        }
    }
    assert forall|rest: Seq<Seq<char>>| crc_in(#[trigger] (seq![s] + rest)) == Some(crc) by {
        assert((seq![s] + rest)[0] == s);
    }
}

/// A checksum is read back from the header it is sent in, alone or with other
/// hashes around it.
pub proof fn a_checksum_is_read_back(crc: u32, other: Seq<char>)
    requires
        lacks(other, ','),
        !"crc32c="@.is_prefix_of(crate::text::trim_of(other, Class::Space)),
    ensures
        crc_in(header_parts(seq![sent(crc)])) == Some(crc),
        crc_in(header_parts(seq![sent(crc) + ","@ + other])) == Some(crc),
        crc_in(header_parts(seq![other + ","@ + sent(crc)])) == Some(crc),
        crc_in(header_parts(seq![other, sent(crc)])) == Some(crc),
        crc_in(header_parts(seq![other])) is None,
{
    let s = sent(crc);
    let none = Seq::<Seq<char>>::empty();
    assert(header_parts(none) == none);
    assert(crc_in(none) is None);
    lemma_sent(crc);
    lemma_one(s);
    lemma_one(other);
    lemma_two(s, other);
    lemma_two(other, s);
    assert(header_parts(seq![s]) =~= seq![s]);
    assert(header_parts(seq![other]) =~= seq![other]);
    assert(header_parts(seq![s + ","@ + other]) =~= seq![s] + seq![other]);
    assert(header_parts(seq![other + ","@ + s]) =~= seq![other, s]);
    assert(seq![other, s].drop_last() =~= seq![other]);
    assert(header_parts(seq![other, s]) =~= seq![other, s]);
    assert(seq![other, s].skip(1) =~= seq![s]);
    assert(seq![other].skip(1) =~= none);
}

proof fn lemma_one(s: Seq<char>)
    requires
        lacks(s, ','),
    ensures
        split_of(s, Class::One(',')) == seq![s],
        header_parts(seq![s]) == seq![s],
{
    lemma_before(s, Seq::empty(), Class::One(','));
    assert(s + Seq::<char>::empty() =~= s);
    let none = Seq::<Seq<char>>::empty();
    assert(header_parts(none) == none);
    assert(seq![s].drop_last() =~= none);
    assert(header_parts(seq![s]) =~= seq![s]);
}

proof fn lemma_two(a: Seq<char>, b: Seq<char>)
    requires
        lacks(a, ','),
        lacks(b, ','),
    ensures
        header_parts(seq![a + ","@ + b]) == seq![a, b],
{
    reveal_strlit(",");
    let s = a + ","@ + b;
    assert(s =~= a + (","@ + b));
    lemma_before(a, ","@ + b, Class::One(','));
    assert(s.take(a.len() as int) =~= a);
    assert(s.skip(a.len() as int + 1) =~= b);
    lemma_one(b);
    assert(split_of(s, Class::One(',')) =~= seq![a, b]);
    let none = Seq::<Seq<char>>::empty();
    assert(header_parts(none) == none);
    assert(seq![s].drop_last() =~= none);
    assert(header_parts(seq![s]) =~= seq![a, b]);
}

// ---- archives ----

/// An entry of an archive counts exactly where it opens under a name that ends
/// as advisories do, and what it holds is then parsed as it is.
pub proof fn an_entry_is_known_by_its_name(stem: Seq<char>, name: Seq<char>, bytes: Seq<u8>)
    ensures
        sorted_out(Some(RawView { name: Some(stem + ".json"@), bytes: Some(bytes) }))
            == FoundView::Bytes(bytes),
        sorted_out(Some(RawView { name: Some(stem + ".json"@), bytes: None }))
            == FoundView::Unreadable,
        is_advisory_name_of(name) <==> exists|front: Seq<char>| #[trigger]
            (front + ".json"@) == name,
        !is_advisory_name_of(name) ==> sorted_out(
            Some(RawView { name: Some(name), bytes: Some(bytes) }),
        ) == FoundView::Other,
        sorted_out(None) == FoundView::Other,
{
    reveal_strlit(".json");
    let full = stem + ".json"@;
    assert(full.skip(full.len() - 5) =~= ".json"@);
    if is_advisory_name_of(name) {
        let front = name.take(name.len() - 5);
        assert(front + ".json"@ =~= name);
    }
    if exists|front: Seq<char>| #[trigger] (front + ".json"@) == name {
        let front = choose|front: Seq<char>| #[trigger] (front + ".json"@) == name;
        assert(name.skip(name.len() - 5) =~= ".json"@);
    }
}

/// An archive contributes each advisory that parses and concerns the ecosystem,
/// in order, and nothing else.
pub proof fn an_advisory_that_parses_is_indexed(
    raws: Seq<Option<RawView>>,
    stem: Seq<char>,
    bytes: Seq<u8>,
    parse: spec_fn(Seq<u8>) -> Option<OsvAdvisoryView>,
    e: Ecosystem,
)
    ensures
        ({
            let raw = Some(RawView { name: Some(stem + ".json"@), bytes: Some(bytes) });
            let before = advisories_in(contributed(raws, parse, e));
            let after = advisories_in(contributed(raws.push(raw), parse, e));
            match parse(bytes) {
                Some(record) => match model_of(record, e) {
                    Some(a) => after == before.push(a),
                    None => after == before,
                },
                None => after == before && count_failed(contributed(raws.push(raw), parse, e))
                    == count_failed(contributed(raws, parse, e)) + 1,
            }
        }),
        advisories_in(contributed(seq![], parse, e)).len() == 0,
{
    let raw = Some(RawView { name: Some(stem + ".json"@), bytes: Some(bytes) });
    an_entry_is_known_by_its_name(stem, stem, bytes);
    let all = contributed(raws.push(raw), parse, e);
    assert(all.drop_last() =~= contributed(raws, parse, e));
    assert(all.last() == decoded_of(parse(bytes), e));
}

/// An archive counts as corrupt exactly where it holds an advisory and none of
/// those it holds can be decoded.
pub proof fn an_archive_is_corrupt_where_nothing_decodes(entries: Seq<DecodedView>)
    ensures
        is_corrupt(entries) <==> (exists|i: int|
            0 <= i < entries.len() && !((#[trigger] entries[i]) is Other)) && (forall|i: int|
            0 <= i < entries.len() ==> (#[trigger] entries[i]) is Other || entries[i] is Failed),
{
    lemma_corrupt(entries);
}

proof fn lemma_corrupt(entries: Seq<DecodedView>)
    ensures
        count_failed(entries) <= count_entries(entries),
        count_entries(entries) > 0 <==> exists|i: int|
            0 <= i < entries.len() && !((#[trigger] entries[i]) is Other),
        count_failed(entries) == count_entries(entries) <==> forall|i: int|
            0 <= i < entries.len() ==> (#[trigger] entries[i]) is Other || entries[i] is Failed,
    decreases entries.len(),
{
    if entries.len() > 0 {
        let front = entries.drop_last();
        lemma_corrupt(front);
        let n = entries.len() - 1;
        assert forall|i: int| 0 <= i < n implies #[trigger] front[i] == entries[i] by {}
        if count_entries(front) > 0 {
            let i = choose|i: int| 0 <= i < front.len() && !((#[trigger] front[i]) is Other);
            assert(!(entries[i] is Other));
        }
        if exists|i: int| 0 <= i < entries.len() && !((#[trigger] entries[i]) is Other) {
            let i = choose|i: int| 0 <= i < entries.len() && !((#[trigger] entries[i]) is Other);
            if i < n {
                assert(front[i] == entries[i]);
            }
        }
        if count_failed(front) == count_entries(front) {
            assert forall|i: int| 0 <= i < n implies (#[trigger] entries[i]) is Other
                || entries[i] is Failed by {
                assert(front[i] == entries[i]);
            }
        } else {
            let i = choose|i: int|
                0 <= i < front.len() && !((#[trigger] front[i]) is Other || front[i] is Failed);
            assert(entries[i] == front[i]);
        }
        assert(entries[n] == entries.last());
    }
}

// ---- downloads ----

/// A percentage that is short of a hundred is what was loaded of the whole,
/// rounded down.
pub proof fn a_percentage_is_rounded_down(downloaded: u64, total: u64)
    requires
        0 < total,
    ensures
        percent_of(downloaded, Some(total)) is Some,
        downloaded >= total <==> percent_of(downloaded, Some(total)) == Some(100u32),
        ({
            let p = percent_of(downloaded, Some(total))->Some_0;
            p <= 100 && (p < 100 ==> p * total <= downloaded * 100 < (p + 1) * total)
        }),
        percent_of(downloaded, None) is None,
        percent_of(downloaded, Some(0)) is None,
{
    let q = downloaded * 100 / (total as int);
    let t = total as int;
    let d = downloaded * 100;
    assert(q * t <= d < (q + 1) * t) by (nonlinear_arith)
        requires
            t > 0,
            q == d / t,
    ;
    assert(0 <= q) by (nonlinear_arith)
        requires
            t > 0,
            d >= 0,
            q == d / t,
    ;
    if q >= 100 {
        assert(100 * t <= q * t) by (nonlinear_arith)
            requires
                q >= 100,
                t > 0,
        ;
    } else {
        assert((q + 1) * t <= 100 * t) by (nonlinear_arith)
            requires
                q < 100,
                t > 0,
        ;
    }
}

/// A size is shown to the nearest tenth of a megabyte.
pub proof fn a_size_is_shown_to_the_nearest_tenth(bytes: int)
    requires
        0 <= bytes < EXACT,
    ensures
        -524288 <= tenths_of(bytes) * 1048576 - bytes * 10 <= 524288,
{
    assert(crate::progress::spacing(bytes, 1) == 1);
    assert(crate::progress::nearest_double(bytes) == bytes);
}

// ---- what an editor says ----

/// The two ways to write a hexadecimal digit.
pub open spec fn writes(b: u8, digit: int) -> bool {
    ||| 0 <= digit < 10 && b == 48 + digit
    ||| 10 <= digit < 16 && (b == 55 + digit || b == 87 + digit)
}

/// An escape stands for its byte, wherever it comes, and every other byte for
/// itself.
pub proof fn an_escape_stands_for_its_byte(
    v: u8,
    hi: u8,
    lo: u8,
    plain: u8,
    rest: Seq<u8>,
)
    requires
        writes(hi, v as int / 16),
        writes(lo, v as int % 16),
        plain != 37,
    ensures
        unescaped(seq![37u8, hi, lo] + rest) == seq![v] + unescaped(rest),
        unescaped(seq![plain] + rest) == seq![plain] + unescaped(rest),
        unescaped(seq![]) == Seq::<u8>::empty(),
{
    let b = seq![37u8, hi, lo] + rest;
    assert(b[0] == 37 && b[1] == hi && b[2] == lo);
    assert(b.skip(3) =~= rest);
    assert(crate::lsp::escaped(hi, lo) == Some(v));
    let p = seq![plain] + rest;
    assert(p[0] == plain);
    assert(p.skip(1) =~= rest);
}

/// Only what a `file:` URI names is a file; on Windows the slash before a drive
/// is no part of its path.
pub proof fn a_file_is_named_by_its_uri(
    drive: char,
    rest: Seq<char>,
    uri: Seq<char>,
    windows: bool,
)
    requires
        'A' <= drive <= 'Z' || 'a' <= drive <= 'z',
    ensures
        file_part("file:///"@ + seq![drive, ':'] + rest, true) == Some(seq![drive, ':'] + rest),
        file_part("file://"@ + rest, false) == Some(rest),
        file_part(uri, windows) is Some <==> exists|tail: Seq<char>| #[trigger]
            ("file://"@ + tail) == uri,
{
    reveal_strlit("file:///");
    reveal_strlit("file://");
    let a = "file:///"@ + seq![drive, ':'] + rest;
    assert("file://"@.is_prefix_of(a)) by {
        assert(a.take(7) =~= "file://"@);
    }
    assert(a.skip(7)[0] == '/' && a.skip(7)[1] == drive && a.skip(7)[2] == ':');
    assert(a.skip(7).skip(1) =~= seq![drive, ':'] + rest);
    let b = "file://"@ + rest;
    assert(b.take(7) =~= "file://"@);
    assert(b.skip(7) =~= rest);
    if file_part(uri, windows) is Some {
        assert("file://"@ + uri.skip(7) =~= uri);
    }
    if exists|tail: Seq<char>| #[trigger] ("file://"@ + tail) == uri {
        assert(uri.take(7) =~= "file://"@);
    }
}

// ---- where a package comes from ----

/// Of the chains to a package the first of the shortest leads, and the package
/// is direct exactly where some chain has no more than itself or there is none.
pub proof fn the_first_of_the_shortest_chains_leads(paths: Seq<Seq<KeyView>>)
    ensures
        is_direct(paths) <==> paths.len() == 0 || exists|i: int|
            0 <= i < paths.len() && (#[trigger] paths[i]).len() <= 1,
        forall|i: int|
            0 <= i < shortest_of(paths) && i < paths.len() ==> (#[trigger] paths[i]).len()
                > paths[shortest_of(paths)].len(),
    decreases paths.len(),
{
    if paths.len() > 0 {
        crate::model::shortest_of_is_shortest(paths);
        if paths.len() > 1 {
            let front = paths.drop_last();
            the_first_of_the_shortest_chains_leads(front);
            crate::model::shortest_of_is_shortest(front);
            assert forall|i: int| 0 <= i < shortest_of(paths) && i < paths.len() implies (
            #[trigger] paths[i]).len() > paths[shortest_of(paths)].len() by {
                assert(front[i] == paths[i]);
                assert(front[shortest_of(front)] == paths[shortest_of(front)]);
            }
        }
    }
}

/// An advisory is read about at its first reference, or at a page of its own.
pub proof fn an_advisory_has_a_page(a: AdvisoryView)
    ensures
        a.references.len() > 0 ==> url_of(a) == a.references.first(),
        a.references.len() == 0 ==> url_of(a) == "https://osv.dev/vulnerability/"@ + a.id,
{
}

} // verus!
