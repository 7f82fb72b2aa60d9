//! What is shown of a finding, and where.
use crate::diagnostics::{
    anchor_line, count_malicious, count_of, count_text, count_transitive, diagnostics_of, encoded,
    finding_level, fix_text, gravest, hop_names, ids_of, is_elsewhere, landmark_from, landmark_of,
    level_of, message_of, origin_text, press_text, rendered, sightings_in, subject_text, summarised,
    summary_of, summary_text, DataView, Landmark, Level,
};
use crate::extract::version_span_of;
use crate::model::{
    anchor_of, ecosystem_name, finding_malicious, finding_severity, is_direct, is_malicious,
    is_toolchain, severity_of, severity_rank, shortest_of, ExtractedView, FindingView, FixView,
    Position, Severity,
};
use crate::path::name_of;
use crate::span::{chars_within, column_of, line_begin, newlines, position_of, utf16_len, Encoding};
use crate::text::{decimal, joined_with, lemma_utf8_add, lines_of, trim_of, utf8_len, Class};
use vstd::prelude::*;

verus! {

// ---- how grave it is ----

/// Malware is an error whatever it is needed for. Otherwise what is critical or
/// high is an error where it ships and a warning where it is needed to develop,
/// and the rest is a warning where it ships and a remark otherwise.
pub proof fn a_finding_is_shown_as_grave_as_it_is(f: FindingView)
    ensures
        ({
            let hostile = exists|i: int|
                0 <= i < f.advisories.len() && is_malicious(#[trigger] f.advisories[i]);
            let grave = f.advisories.len() > 0 && (severity_of(f.advisories[0])
                == Severity::Critical || severity_of(f.advisories[0]) == Severity::High);
            let dev = f.dep_groups.contains("dev"@);
            &&& finding_level(f) == Level::Error <==> hostile || (grave && !dev)
            &&& finding_level(f) == Level::Warning <==> !hostile && grave == dev
            &&& finding_level(f) == Level::Information <==> !hostile && !grave && dev
        }),
{
}

// ---- what is said ----

/// Whether a text says something, word for word.
pub open spec fn says(s: Seq<char>, x: Seq<char>) -> bool {
    exists|a: Seq<char>, b: Seq<char>| #[trigger] (a + x + b) == s
}

pub proof fn lemma_says(a: Seq<char>, x: Seq<char>, b: Seq<char>, s: Seq<char>)
    requires
        s == a + x + b,
    ensures
        says(s, x),
{
}

pub proof fn lemma_says_within(s: Seq<char>, x: Seq<char>, y: Seq<char>)
    requires
        says(s, x),
        says(x, y),
    ensures
        says(s, y),
{
    let (a, b) = choose|a: Seq<char>, b: Seq<char>| #[trigger] (a + x + b) == s;
    let (c, d) = choose|c: Seq<char>, d: Seq<char>| #[trigger] (c + y + d) == x;
    assert((a + c) + y + (d + b) =~= s);
}

/// The parts that a message is made of.
pub open spec fn clauses(f: FindingView, fixable: bool, key: Seq<char>) -> Seq<Seq<char>> {
    seq![
        if finding_malicious(f) { "MALICIOUS: "@ } else { ""@ },
        subject_text(f),
        " — "@,
        count_text(f),
        fix_text(f),
        if is_toolchain(f.package.key) {
            ". The go directive is a minimum, so the toolchain building this may already be newer"@
        } else {
            ""@
        },
        if f.from_range {
            ". Version inferred from a range, so the installed one may differ"@
        } else {
            ""@
        },
        origin_text(f),
        if f.dep_groups.contains("dev"@) { ". Development dependency"@ } else { ""@ },
        press_text(f, fixable, key),
    ]
}

pub open spec fn run_together(parts: Seq<Seq<char>>) -> Seq<char>
    decreases parts.len(),
{
    if parts.len() == 0 {
        seq![]
    } else {
        run_together(parts.drop_last()) + parts.last()
    }
}

proof fn lemma_part(parts: Seq<Seq<char>>, i: int)
    requires
        0 <= i < parts.len(),
    ensures
        says(run_together(parts), parts[i]),
    decreases parts.len(),
{
    let front = parts.drop_last();
    if i < front.len() {
        lemma_part(front, i);
        let (a, b) = choose|a: Seq<char>, b: Seq<char>| #[trigger] (a + front[i] + b)
            == run_together(front);
        assert(a + parts[i] + (b + parts.last()) =~= run_together(parts));
    } else {
        lemma_says(
            run_together(front),
            parts[i],
            seq![],
            run_together(parts) + Seq::<char>::empty(),
        );
        assert(run_together(parts) + Seq::<char>::empty() =~= run_together(parts));
    }
}

pub proof fn lemma_message(f: FindingView, fixable: bool, key: Seq<char>)
    ensures
        message_of(f, fixable, key) == run_together(clauses(f, fixable, key)),
{
    let c = clauses(f, fixable, key);
    let c9 = c.drop_last();
    let c8 = c9.drop_last();
    let c7 = c8.drop_last();
    let c6 = c7.drop_last();
    let c5 = c6.drop_last();
    let c4 = c5.drop_last();
    let c3 = c4.drop_last();
    let c2 = c3.drop_last();
    let c1 = c2.drop_last();
    let c0 = c1.drop_last();
    assert(run_together(c0) =~= seq![]);
    assert(run_together(c1) =~= c[0]);
    assert(run_together(c2) == run_together(c1) + c[1]);
    assert(run_together(c3) == run_together(c2) + c[2]);
    assert(run_together(c4) == run_together(c3) + c[3]);
    assert(run_together(c5) == run_together(c4) + c[4]);
    assert(run_together(c6) == run_together(c5) + c[5]);
    assert(run_together(c7) == run_together(c6) + c[6]);
    assert(run_together(c8) == run_together(c7) + c[7]);
    assert(run_together(c9) == run_together(c8) + c[8]);
    assert(run_together(c) == run_together(c9) + c[9]);
}

pub proof fn lemma_clause(f: FindingView, fixable: bool, key: Seq<char>, i: int)
    requires
        0 <= i < 10,
    ensures
        says(message_of(f, fixable, key), clauses(f, fixable, key)[i]),
{
    lemma_message(f, fixable, key);
    lemma_part(clauses(f, fixable, key), i);
}

/// A message names the package and its version, the version that fixes it where
/// one does, and each thing the reader has to know: that it is hostile, that the
/// version is a guess, that it is for development, what to press, and which of
/// their own dependencies pulled it in.
pub proof fn a_message_says_what_matters(f: FindingView, fixable: bool, key: Seq<char>)
    ensures
        ({
            let m = message_of(f, fixable, key);
            &&& says(m, f.package.version)
            &&& !is_toolchain(f.package.key) ==> says(m, f.package.key.name)
            &&& says(m, count_text(f))
            &&& finding_malicious(f) ==> "MALICIOUS: "@.is_prefix_of(m)
            &&& f.fix matches FixView::Clears(v) ==> says(m, "Fixed in "@ + v)
            &&& f.from_range ==> says(
                m,
                "Version inferred from a range, so the installed one may differ"@,
            )
            &&& f.dep_groups.contains("dev"@) ==> says(m, "Development dependency"@)
            &&& fixable && f.fix is Clears ==> says(
                m,
                "Press "@ + key + " to update to "@ + f.fix->Clears_0,
            )
            &&& !is_direct(f.paths) ==> says(m, f.paths[shortest_of(f.paths)][0].name)
        }),
{
    let m = message_of(f, fixable, key);
    lemma_says_subject(f, fixable, key);
    lemma_clause(f, fixable, key, 3);
    lemma_says_hostile(f, fixable, key);
    lemma_says_fix(f, fixable, key);
    lemma_says_kind(f, fixable, key);
    if !is_direct(f.paths) {
        lemma_clause(f, fixable, key, 7);
        lemma_first_hop(f);
        lemma_says_within(m, origin_text(f), f.paths[shortest_of(f.paths)][0].name);
    }
}

proof fn lemma_says_subject(f: FindingView, fixable: bool, key: Seq<char>)
    ensures
        says(message_of(f, fixable, key), f.package.version),
        !is_toolchain(f.package.key) ==> says(message_of(f, fixable, key), f.package.key.name),
{
    let m = message_of(f, fixable, key);
    lemma_clause(f, fixable, key, 1);
    let s = subject_text(f);
    let none = Seq::<char>::empty();
    if is_toolchain(f.package.key) {
        assert(s =~= "Go toolchain "@ + f.package.version + none);
        lemma_says("Go toolchain "@, f.package.version, none, s);
        lemma_says_within(m, s, f.package.version);
    } else {
        let p = f.package;
        let head = ecosystem_name(p.key.ecosystem) + ":"@;
        assert(s =~= head + p.key.name + ("@"@ + p.version));
        lemma_says(head, p.key.name, "@"@ + p.version, s);
        lemma_says_within(m, s, p.key.name);
        let more = head + p.key.name + "@"@;
        assert(s =~= more + p.version + none);
        lemma_says(more, p.version, none, s);
        lemma_says_within(m, s, p.version);
    }
}

proof fn lemma_says_hostile(f: FindingView, fixable: bool, key: Seq<char>)
    ensures
        finding_malicious(f) ==> "MALICIOUS: "@.is_prefix_of(message_of(f, fixable, key)),
{
    if finding_malicious(f) {
        lemma_message(f, fixable, key);
        lemma_starts(clauses(f, fixable, key));
    }
}

proof fn lemma_starts(parts: Seq<Seq<char>>)
    requires
        parts.len() > 0,
    ensures
        parts[0].is_prefix_of(run_together(parts)),
    decreases parts.len(),
{
    let front = parts.drop_last();
    let s = run_together(parts);
    if front.len() > 0 {
        lemma_starts(front);
        assert(front[0] == parts[0]);
        let head = run_together(front);
        assert(s.take(parts[0].len() as int) =~= head.take(parts[0].len() as int));
    } else {
        assert(run_together(front) =~= seq![]);
        assert(s =~= parts[0]);
        assert(s.take(parts[0].len() as int) =~= parts[0]);
    }
}

/// A clause without the full stop and the space that it starts with.
pub proof fn lemma_says_behind(m: Seq<char>, clause: Seq<char>, what: Seq<char>)
    requires
        says(m, clause),
        clause == seq!['.', ' '] + what,
    ensures
        says(m, what),
{
    let none = Seq::<char>::empty();
    assert(clause =~= seq!['.', ' '] + what + none);
    lemma_says(seq!['.', ' '], what, none, clause);
    lemma_says_within(m, clause, what);
}

proof fn lemma_says_fix(f: FindingView, fixable: bool, key: Seq<char>)
    ensures
        f.fix matches FixView::Clears(v) ==> says(message_of(f, fixable, key), "Fixed in "@ + v),
        fixable && f.fix is Clears ==> says(
            message_of(f, fixable, key),
            "Press "@ + key + " to update to "@ + f.fix->Clears_0,
        ),
{
    let m = message_of(f, fixable, key);
    if let FixView::Clears(v) = f.fix {
        lemma_clause(f, fixable, key, 4);
        reveal_strlit(". Fixed in ");
        reveal_strlit("Fixed in ");
        assert(fix_text(f) =~= seq!['.', ' '] + ("Fixed in "@ + v));
        lemma_says_behind(m, fix_text(f), "Fixed in "@ + v);
        if fixable {
            lemma_clause(f, fixable, key, 9);
            reveal_strlit(". Press ");
            reveal_strlit("Press ");
            let what = "Press "@ + key + " to update to "@ + v;
            assert(press_text(f, fixable, key) =~= seq!['.', ' '] + what);
            lemma_says_behind(m, press_text(f, fixable, key), what);
        }
    }
}

proof fn lemma_says_kind(f: FindingView, fixable: bool, key: Seq<char>)
    ensures
        f.from_range ==> says(
            message_of(f, fixable, key),
            "Version inferred from a range, so the installed one may differ"@,
        ),
        f.dep_groups.contains("dev"@) ==> says(
            message_of(f, fixable, key),
            "Development dependency"@,
        ),
{
    let m = message_of(f, fixable, key);
    if f.from_range {
        lemma_clause(f, fixable, key, 6);
        reveal_strlit(". Version inferred from a range, so the installed one may differ");
        reveal_strlit("Version inferred from a range, so the installed one may differ");
        let clause = ". Version inferred from a range, so the installed one may differ"@;
        let what = "Version inferred from a range, so the installed one may differ"@;
        assert(clause =~= seq!['.', ' '] + what);
        lemma_says_behind(m, clause, what);
    }
    if f.dep_groups.contains("dev"@) {
        lemma_clause(f, fixable, key, 8);
        reveal_strlit(". Development dependency");
        reveal_strlit("Development dependency");
        assert(". Development dependency"@ =~= seq!['.', ' '] + "Development dependency"@);
        lemma_says_behind(m, ". Development dependency"@, "Development dependency"@);
    }
}

proof fn lemma_first_hop(f: FindingView)
    requires
        !is_direct(f.paths),
    ensures
        says(origin_text(f), f.paths[shortest_of(f.paths)][0].name),
{
    let path = f.paths[shortest_of(f.paths)];
    let hops = path.drop_last();
    let names = hop_names(hops);
    let name = path[0].name;
    assert(names.len() > 0 && names[0] == name);
    lemma_joined_first(names, " → "@);
    let joined = joined_with(names, " → "@);
    let rest = joined.skip(name.len() as int);
    assert(joined =~= name + rest);
    let text = origin_text(f);
    let behind = text.skip((". Pulled in by "@ + joined).len() as int);
    assert(text =~= ". Pulled in by "@ + joined + behind);
    assert(text =~= ". Pulled in by "@ + name + (rest + behind));
}

proof fn lemma_joined_first(parts: Seq<Seq<char>>, separator: Seq<char>)
    requires
        parts.len() > 0,
    ensures
        parts[0].is_prefix_of(joined_with(parts, separator)),
        joined_with(parts, separator).len() >= parts[0].len(),
    decreases parts.len(),
{
    if parts.len() > 1 {
        lemma_joined_first(parts.drop_last(), separator);
        let head = joined_with(parts.drop_last(), separator);
        let s = joined_with(parts, separator);
        assert(parts.drop_last()[0] == parts[0]);
        assert(s.take(parts[0].len() as int) =~= parts[0]) by {
            assert(head.take(parts[0].len() as int) =~= parts[0]);
        }
    } else {
        assert(parts[0].take(parts[0].len() as int) =~= parts[0]);
    }
}

// ---- what is listed ----

/// Findings are rendered one for one and in order.
pub proof fn findings_are_rendered_one_for_one(
    findings: Seq<FindingView>,
    sightings: Seq<ExtractedView>,
    key: Seq<char>,
    i: int,
)
    requires
        forall|k: int| 0 <= k < findings.len() ==> (#[trigger] findings[k]).advisories.len() > 0,
        0 <= i < findings.len(),
    ensures
        rendered(findings, sightings, key).len() == findings.len(),
        ({
            let f = findings[i];
            let d = rendered(findings, sightings, key)[i];
            let place = version_span_of(sightings, f);
            &&& d.range == (match place {
                Some(r) => r,
                None => anchor_of(f).range,
            })
            &&& d.level == finding_level(f)
            &&& d.code == f.advisories[0].id
            &&& d.href == Some(
                if f.advisories[0].references.len() > 0 {
                    f.advisories[0].references[0]
                } else {
                    "https://osv.dev/vulnerability/"@ + f.advisories[0].id
                },
            )
            &&& d.message == message_of(f, place is Some, key)
            &&& d.data == (DataView::Finding {
                ecosystem: ecosystem_name(f.package.key.ecosystem),
                name: f.package.key.name,
                version: f.package.version,
                advisories: Seq::new(f.advisories.len(), |n: int| f.advisories[n].id),
                direct: is_direct(f.paths),
                fixed_version: match f.fix {
                    FixView::Clears(v) => Some(v),
                    _ => None,
                },
            })
            &&& d.related is Some <==> is_elsewhere(f)
            &&& d.related matches Some(r) ==> r.path == f.evidence.path && r.range
                == f.evidence.range
        }),
    decreases findings.len(),
{
    let front = findings.drop_last();
    let out = rendered(findings, sightings, key);
    assert forall|k: int| 0 <= k < front.len() implies (#[trigger] front[k]).advisories.len()
        > 0 by {
        assert(front[k] == findings[k]);
    }
    let last = findings[findings.len() - 1];
    assert(last.advisories.len() > 0);
    if front.len() > 0 {
        let j = if i < front.len() { i } else { 0 };
        findings_are_rendered_one_for_one(front, sightings, key, j);
        if i < front.len() {
            assert(front[i] == findings[i]);
            assert(out[i] == rendered(front, sightings, key)[i]);
        }
    } else {
        assert(rendered(front, sightings, key).len() == 0);
    }
    assert(ids_of(findings[i].advisories) =~= Seq::new(
        findings[i].advisories.len(),
        |n: int| findings[i].advisories[n].id,
    ));
}

/// A file with one finding shows it alone; one with more shows them all behind a
/// line that says how many there are and is as grave as the gravest that ships.
pub proof fn a_file_shows_every_finding(
    path: Seq<char>,
    findings: Seq<FindingView>,
    source: Option<Seq<char>>,
    encoding: Encoding,
    key: Seq<char>,
)
    requires
        forall|k: int| 0 <= k < findings.len() ==> (#[trigger] findings[k]).advisories.len() > 0,
    ensures
        ({
            let all = diagnostics_of(path, findings, source, encoding, key);
            let rest = rendered(findings, sightings_in(path, source), key);
            let more = findings.len() >= 2;
            let first = if more { 1int } else { 0 };
            &&& all.len() == findings.len() + first
            &&& more ==> all[0].code == "summary"@ && all[0].level == level_of(
                gravest(findings),
                false,
            ) && (decimal(findings.len()) + " vulnerable dependencies"@).is_prefix_of(
                all[0].message,
            )
            &&& forall|i: int|
                0 <= i < findings.len() ==> all[i + first] == encoded(
                    #[trigger] rest[i],
                    source,
                    encoding,
                )
        }),
{
    let rest = rendered(findings, sightings_in(path, source), key);
    if findings.len() > 0 {
        findings_are_rendered_one_for_one(findings, sightings_in(path, source), key, 0);
    } else {
        assert(rest.len() == 0);
    }
    let plain = summarised(path, findings, source, key);
    let all = diagnostics_of(path, findings, source, encoding, key);
    if findings.len() >= 2 {
        let s = summary_of(path, findings, source)->Some_0;
        assert(plain == seq![s] + rest);
        assert(all[0] == encoded(s, source, encoding));
        let head = decimal(findings.len()) + " vulnerable dependencies"@;
        let text = summary_text(findings);
        assert(text.take(head.len() as int) =~= head);
        assert forall|i: int| 0 <= i < findings.len() implies all[i + 1] == encoded(
            #[trigger] rest[i],
            source,
            encoding,
        ) by {
            assert(plain[i + 1] == rest[i]);
        }
    } else {
        assert(plain == rest);
        assert forall|i: int| 0 <= i < findings.len() implies all[i + 0] == encoded(
            #[trigger] rest[i],
            source,
            encoding,
        ) by {}
    }
}

/// Findings are counted one by one.
pub proof fn counts_add_up(a: Seq<FindingView>, b: Seq<FindingView>, s: Severity)
    ensures
        count_of(a + b, s) == count_of(a, s) + count_of(b, s),
        count_malicious(a + b) == count_malicious(a) + count_malicious(b),
        count_transitive(a + b) == count_transitive(a) + count_transitive(b),
    decreases b.len(),
{
    if b.len() == 0 {
        assert(a + b =~= a);
    } else {
        counts_add_up(a, b.drop_last(), s);
        assert((a + b).drop_last() =~= a + b.drop_last());
        assert((a + b).last() == b.last());
    }
}

/// One finding counts once: for its severity, as malware where it is, and as
/// transitive where something else pulled it in.
pub proof fn a_finding_counts_once(f: FindingView, s: Severity)
    ensures
        count_of(seq![f], s) == (if finding_severity(f) == s {
            1nat
        } else {
            0nat
        }),
        count_malicious(seq![f]) == (if finding_malicious(f) {
            1nat
        } else {
            0nat
        }),
        count_transitive(seq![f]) == (if f.paths.len() > 0 && f.paths[shortest_of(f.paths)].len()
            > 1 {
            1nat
        } else {
            0nat
        }),
{
    let one = seq![f];
    let none = Seq::<FindingView>::empty();
    assert(one.drop_last() =~= none);
    assert(one.last() == f);
    assert(count_of(none, s) == 0 && count_malicious(none) == 0 && count_transitive(none) == 0);
}

/// The gravest is a severity of one of the findings, and none is graver.
pub proof fn none_is_graver_than_the_gravest(findings: Seq<FindingView>)
    ensures
        forall|i: int|
            0 <= i < findings.len() ==> severity_rank(finding_severity(#[trigger] findings[i]))
                <= severity_rank(gravest(findings)),
        findings.len() > 0 ==> gravest(findings) == Severity::Unknown || exists|i: int|
            0 <= i < findings.len() && finding_severity(#[trigger] findings[i]) == gravest(
                findings,
            ),
    decreases findings.len(),
{
    if findings.len() > 0 {
        let front = findings.drop_last();
        none_is_graver_than_the_gravest(front);
        let n = findings.len() - 1;
        assert forall|i: int| 0 <= i < findings.len() implies severity_rank(
            finding_severity(#[trigger] findings[i]),
        ) <= severity_rank(gravest(findings)) by {
            if i < n {
                assert(front[i] == findings[i]);
            }
        }
        if severity_rank(finding_severity(findings[n])) > severity_rank(gravest(front)) {
            assert(finding_severity(findings[n]) == gravest(findings));
        } else if front.len() > 0 && gravest(front) != Severity::Unknown {
            let i = choose|i: int|
                0 <= i < front.len() && finding_severity(#[trigger] front[i]) == gravest(front);
            assert(findings[i] == front[i]);
        }
    }
}

// ---- where it is shown ----

/// How many line feeds some bytes hold.
pub open spec fn feeds(b: Seq<u8>) -> nat
    decreases b.len(),
{
    if b.len() == 0 {
        0
    } else {
        feeds(b.drop_last()) + (if b.last() == 10u8 {
            1nat
        } else {
            0nat
        })
    }
}

proof fn lemma_feeds(b: Seq<u8>, n: nat)
    requires
        n <= b.len(),
    ensures
        newlines(b, n) == feeds(b.take(n as int)),
    decreases n,
{
    if n > 0 {
        lemma_feeds(b, (n - 1) as nat);
        assert(b.take(n as int).drop_last() =~= b.take(n - 1));
        assert(b.take(n as int).last() == b[n - 1]);
    }
}

proof fn lemma_begin(b: Seq<u8>, start: nat, n: nat)
    requires
        start <= n <= b.len(),
        start == 0 || b[start - 1] == 10u8,
        forall|i: int| start <= i < n ==> #[trigger] b[i] != 10u8,
    ensures
        line_begin(b, n) == start,
    decreases n,
{
    if n > start {
        assert(b[n - 1] != 10u8);
        lemma_begin(b, start, (n - 1) as nat);
    }
}

proof fn lemma_feeds_add(a: Seq<u8>, b: Seq<u8>)
    requires
        forall|i: int| 0 <= i < b.len() ==> #[trigger] b[i] != 10u8,
    ensures
        feeds(a + b) == feeds(a),
    decreases b.len(),
{
    if b.len() > 0 {
        let front = b.drop_last();
        assert forall|i: int| 0 <= i < front.len() implies #[trigger] front[i] != 10u8 by {
            assert(front[i] == b[i]);
        }
        lemma_feeds_add(a, front);
        assert((a + b).drop_last() =~= a + front);
        assert(b[b.len() - 1] != 10u8);
    } else {
        assert(a + b =~= a);
    }
}

/// A place in a file is told by the lines before it and the bytes before it on
/// its own line.
pub proof fn a_place_is_told_by_line_and_column(before: Seq<u8>, on: Seq<u8>, after: Seq<u8>)
    requires
        before.len() == 0 || before.last() == 10u8,
        forall|i: int| 0 <= i < on.len() ==> #[trigger] on[i] != 10u8,
        feeds(before) <= u32::MAX,
        on.len() <= u32::MAX,
    ensures
        position_of(before + on + after, (before.len() + on.len()) as int) == (Position {
            line: feeds(before) as u32,
            column: on.len() as u32,
        }),
{
    let b = before + on + after;
    let n = before.len() + on.len();
    lemma_feeds(b, n);
    assert(b.take(n as int) =~= before + on);
    lemma_feeds_add(before, on);
    if before.len() > 0 {
        assert(b[before.len() - 1] == before.last());
    }
    assert forall|i: int| before.len() <= i < n implies #[trigger] b[i] != 10u8 by {
        assert(b[i] == on[i - before.len()]);
    }
    lemma_begin(b, before.len(), n);
}

/// A column counts bytes for one client and UTF-16 code units for another: those
/// of what stands before it on the line.
pub proof fn a_column_counts_what_stands_before_it(before: Seq<char>, after: Seq<char>)
    requires
        utf16_len(before) <= u32::MAX,
        utf8_len(before) <= u32::MAX,
    ensures
        column_of(before + after, utf8_len(before) as int, Encoding::Utf8) == utf8_len(before),
        column_of(before + after, utf8_len(before) as int, Encoding::Utf16) == utf16_len(before),
{
    let l = before + after;
    lemma_within(before, after);
    assert(l.take(before.len() as int) =~= before);
}

proof fn lemma_within(before: Seq<char>, after: Seq<char>)
    ensures
        chars_within(before + after, utf8_len(before) as int) == before.len(),
    decreases after.len(),
{
    let l = before + after;
    lemma_utf8_add(before, after);
    if after.len() == 0 {
        assert(l =~= before);
    } else {
        lemma_within(before, after.drop_last());
        assert(l.drop_last() =~= before + after.drop_last());
        crate::text::lemma_utf8_push(after.drop_last(), after.last());
        assert(after.drop_last().push(after.last()) =~= after);
    }
}

/// Code units add up: two for a character outside the basic plane, one for any
/// other.
pub proof fn code_units_add_up(s: Seq<char>, c: char)
    ensures
        utf16_len(s.push(c)) == utf16_len(s) + (if c as u32 > 0xffff {
            2nat
        } else {
            1nat
        }),
        utf16_len(seq![]) == 0,
{
    assert(s.push(c).drop_last() =~= s);
}

/// The line that sums a file up stands on the declaration that names it: the
/// module of a `go.mod`, the name of a crate or a project.
pub proof fn a_summary_stands_on_the_name(
    path: Seq<char>,
    src: Seq<char>,
    start: Seq<char>,
    k: int,
)
    requires
        name_of(path) == "go.mod"@ && start == "module "@ || (name_of(path) == "Cargo.toml"@
            || name_of(path) == "pyproject.toml"@) && start == "name ="@,
        0 <= k < lines_of(src).len(),
        lines_of(src).len() <= u32::MAX,
        start.is_prefix_of(trim_of(lines_of(src)[k], Class::Space)),
        forall|i: int|
            0 <= i < k ==> !start.is_prefix_of(
                trim_of(#[trigger] lines_of(src)[i], Class::Space),
            ),
    ensures
        anchor_line(path, Some(src)) == k + 1,
{
    reveal_strlit("go.mod");
    reveal_strlit("package.json");
    reveal_strlit("Cargo.toml");
    reveal_strlit("pyproject.toml");
    reveal_strlit("module ");
    reveal_strlit("name =");
    assert("go.mod"@.len() == 6 && "package.json"@.len() == 12 && "Cargo.toml"@.len() == 10
        && "pyproject.toml"@.len() == 14);
    let l = if name_of(path) == "go.mod"@ {
        Landmark::Module
    } else {
        Landmark::TomlName
    };
    assert(landmark_of(name_of(path)) == Some(l));
    lemma_landmark(l, lines_of(src), 0, 0, start, k);
}

proof fn lemma_landmark(
    l: Landmark,
    file: Seq<Seq<char>>,
    i: nat,
    depth: int,
    start: Seq<char>,
    k: int,
)
    requires
        l == Landmark::Module && start == "module "@ || l == Landmark::TomlName && start
            == "name ="@,
        i <= k < file.len(),
        start.is_prefix_of(trim_of(file[k], Class::Space)),
        forall|j: int|
            i <= j < k ==> !start.is_prefix_of(trim_of(#[trigger] file[j], Class::Space)),
    ensures
        landmark_from(l, file, i, depth) == Some((k + 1) as nat),
    decreases k - i,
{
    if i < k {
        assert(!start.is_prefix_of(trim_of(file[i as int], Class::Space)));
        let t = trim_of(file[i as int], Class::Space);
        lemma_landmark(
            l,
            file,
            i + 1,
            depth + crate::diagnostics::brace_delta(t),
            start,
            k,
        );
    }
}

} // verus!
