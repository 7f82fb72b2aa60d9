//! What is fetched of the records that answers name, and how numbers and lines
//! are written.
use crate::api::{
    carried_out, partial_of, records_of, result_of, safe_ids, sifted, with_ids, ActionView,
    AskedView, BatchView, CacheView, ResultView,
};
use crate::model::{Ecosystem, FindingView, FixView, KeyView};
use crate::scan::all_withheld;
use crate::text::{decimal, digit_char, is_digit, plain_of};
use crate::version::digits::{digits_only, value};
use vstd::prelude::*;

verus! {

// ---- records ----

proof fn lemma_with_ids(known: Seq<Seq<char>>, ids: Seq<Seq<char>>, id: Seq<char>)
    ensures
        with_ids(known, ids).contains(id) <==> known.contains(id) || ids.contains(id),
    decreases ids.len(),
{
    if ids.len() > 0 {
        let front = ids.drop_last();
        let last = ids[ids.len() - 1];
        lemma_with_ids(known, front, id);
        let before = with_ids(known, front);
        let out = with_ids(known, ids);
        if front.contains(id) {
            let k = choose|k: int| 0 <= k < front.len() && front[k] == id;
            assert(ids[k] == id);
        }
        if ids.contains(id) {
            let k = choose|k: int| 0 <= k < ids.len() && ids[k] == id;
            if k < front.len() {
                assert(front[k] == id);
                assert(front.contains(id));
            }
        }
        if !before.contains(last) {
            assert(out == before.push(last));
            assert(out[before.len() as int] == last);
            if before.contains(id) {
                let k = choose|k: int| 0 <= k < before.len() && before[k] == id;
                assert(out[k] == id);
            }
            if out.contains(id) {
                let k = choose|k: int| 0 <= k < out.len() && out[k] == id;
                if k < before.len() {
                    assert(before[k] == id);
                    assert(before.contains(id));
                }
            }
        }
        assert(ids.contains(last));
    }
}

/// The records that are fetched are those that the sets of the affected packages
/// name, all of them and no other.
pub proof fn every_record_that_a_set_names_is_fetched(
    names: Seq<Seq<char>>,
    c: CacheView,
    id: Seq<char>,
)
    ensures
        records_of(names, c).contains(id) <==> exists|k: int|
            0 <= k < names.len() && c.affected.dom().contains(#[trigger] names[k])
                && c.affected[names[k]].ids.contains(id),
    decreases names.len(),
{
    if names.len() > 0 {
        let front = names.drop_last();
        let last = names[names.len() - 1];
        every_record_that_a_set_names_is_fetched(front, c, id);
        let before = records_of(front, c);
        if c.affected.dom().contains(last) {
            lemma_with_ids(before, c.affected[last].ids, id);
        }
        if before.contains(id) {
            let k = choose|k: int|
                0 <= k < front.len() && c.affected.dom().contains(#[trigger] front[k])
                    && c.affected[front[k]].ids.contains(id);
            assert(names[k] == front[k]);
        }
        if exists|k: int|
            0 <= k < names.len() && c.affected.dom().contains(#[trigger] names[k])
                && c.affected[names[k]].ids.contains(id) {
            let k = choose|k: int|
                0 <= k < names.len() && c.affected.dom().contains(#[trigger] names[k])
                    && c.affected[names[k]].ids.contains(id);
            if k < front.len() {
                assert(front[k] == names[k]);
                assert(before.contains(id));
            }
        }
    } else {
        assert(records_of(names, c).len() == 0);
    }
}

/// An answer that has more pages is incomplete.
pub proof fn an_answer_with_more_to_come_is_incomplete(b: BatchView)
    ensures
        result_of(b).truncated <==> b.more,
        result_of(b).ids == safe_ids(b.ids),
{
}

/// Once versions were asked about, the sets of the packages that were hit are,
/// and then their records are fetched; where none was hit there is nothing to
/// ask.
pub proof fn a_round_goes_from_versions_to_sets_to_records(
    asked: Seq<AskedView>,
    names: Seq<Seq<char>>,
    answers: Seq<ResultView>,
    c: CacheView,
    now: u64,
    i: int,
)
    requires
        asked.len() == answers.len(),
        0 <= i < asked.len(),
    ensures
        match carried_out(ActionView::AskVersions(asked), answers, c, now).1 {
            ActionView::AskSets(hit) => answers[i].ids.len() > 0 || answers[i].truncated
                ==> hit.contains(asked[i].name),
            ActionView::FetchRecords(hit) => hit.len() == 0 && answers[i].ids.len() == 0
                && !answers[i].truncated,
            _ => false,
        },
        carried_out(ActionView::AskSets(names), answers, c, now).1 == ActionView::FetchRecords(
            names,
        ),
        carried_out(ActionView::FetchRecords(names), answers, c, now).1 == ActionView::Nothing,
        carried_out(ActionView::FetchRecords(names), answers, c, now).0 == c,
{
    crate::laws::asking::a_hit_is_looked_at_again(asked, answers, c, now, asked.len(), i);
    let hit = sifted(asked, answers, c, now, asked.len()).1;
    if hit.len() == 0 {
        assert(!hit.contains(asked[i].name));
    }
}

/// Packages whose set is incomplete are named, each of them.
pub proof fn every_incomplete_set_is_named(
    packages: Seq<AskedView>,
    c: CacheView,
    e: Ecosystem,
    k: int,
)
    requires
        0 <= k < packages.len(),
        c.affected.dom().contains(packages[k].name),
        c.affected[packages[k].name].truncated,
    ensures
        partial_of(packages, c, e).contains(KeyView { ecosystem: e, name: packages[k].name }),
    decreases packages.len(),
{
    let front = packages.drop_last();
    let before = partial_of(front, c, e);
    let out = partial_of(packages, c, e);
    let key = KeyView { ecosystem: e, name: packages[k].name };
    if k < front.len() {
        assert(front[k] == packages[k]);
        every_incomplete_set_is_named(front, c, e, k);
        let j = choose|j: int| 0 <= j < before.len() && before[j] == key;
        assert(out[j] == key);
    } else {
        assert(out[before.len() as int] == key);
    }
}

/// A fix is withheld for the packages whose set is incomplete, and for no other;
/// everything else of a finding stays.
pub proof fn a_fix_is_withheld_only_where_a_set_is_incomplete(
    findings: Seq<FindingView>,
    partial: Seq<KeyView>,
    i: int,
)
    requires
        0 <= i < findings.len(),
    ensures
        all_withheld(findings, partial).len() == findings.len(),
        partial.contains(findings[i].package.key) ==> all_withheld(findings, partial)[i].fix
            == FixView::Absent,
        !partial.contains(findings[i].package.key) ==> all_withheld(findings, partial)[i]
            == findings[i],
        all_withheld(findings, partial)[i].advisories == findings[i].advisories,
        all_withheld(findings, partial)[i].package == findings[i].package,
        all_withheld(findings, partial)[i].evidence == findings[i].evidence,
{
}

// ---- numbers and lines ----

/// A number is written in the digits that spell it.
pub proof fn a_number_is_written_in_its_digits(n: nat)
    ensures
        digits_only(decimal(n)),
        value(decimal(n)) == n,
        n > 0 ==> decimal(n)[0] != '0',
        decimal(n).len() > 0,
    decreases n,
{
    let s = decimal(n);
    if n < 10 {
        assert(s.drop_last() =~= Seq::<char>::empty());
        assert(value(s.drop_last()) == 0);
        assert(is_digit(digit_char(n)));
    } else {
        a_number_is_written_in_its_digits(n / 10);
        assert(s.drop_last() =~= decimal(n / 10));
        assert(is_digit(digit_char(n % 10)));
        assert forall|i: int| 0 <= i < s.len() implies is_digit(#[trigger] s[i]) by {
            if i < s.len() - 1 {
                assert(s[i] == decimal(n / 10)[i]);
            }
        }
        assert(s[0] == decimal(n / 10)[0]);
    }
}

/// A line is the same however its end is written.
pub proof fn a_line_end_is_no_part_of_the_line(s: Seq<char>)
    requires
        s.len() > 0 ==> s.last() != '\n' && s.last() != '\r',
    ensures
        plain_of(s) == s,
        plain_of(s + seq!['\n']) == s,
        plain_of(s + seq!['\r', '\n']) == s,
{
    assert((s + seq!['\n']).drop_last() =~= s);
    assert((s + seq!['\r', '\n']).drop_last() =~= s + seq!['\r']);
    assert((s + seq!['\r']).drop_last() =~= s);
}

} // verus!
