//! What messages and summaries say, and in what order things are listed.
use crate::diagnostics::{
    anchor_line, brace_delta, count_malicious, count_of, count_part, count_parts, count_text,
    count_transitive, fix_text, hop_names, is_elsewhere, landmark_from, landmark_of, lower_name,
    message_of, opens_before, origin_text, others_text, severity_text, summary_text, Landmark,
    MAX_HOPS,
};
use crate::extract::{reconciled, sight_order};
use crate::laws::showing::{lemma_clause, lemma_says, lemma_says_behind, lemma_says_within, says};
use crate::matcher::{applicable_of, hits_of, precedes};
use crate::model::{
    ecosystem_name, ecosystem_rank, finding_malicious, is_direct, is_toolchain, severity_of,
    severity_rank, shortest_of, AdvisoryView, ExtractedView, FindingView, PackageView, Severity,
};
use crate::order::{text_order, Order};
use crate::path::name_of;
use crate::text::{decimal, joined_with, lines_of, tenths_text, trim_of, Class};
use vstd::prelude::*;

verus! {

// ---- one finding ----

/// What a severity is called.
pub open spec fn called(s: Severity) -> Seq<char> {
    match s {
        Severity::Critical => "Critical"@,
        Severity::High => "High"@,
        Severity::Medium => "Medium"@,
        Severity::Low => "Low"@,
        Severity::Unknown => "Unknown"@,
    }
}

proof fn lemma_severity_says(s: Severity, tenths: u16)
    ensures
        says(severity_text(s, tenths), called(s)),
        tenths > 0 ==> says(severity_text(s, tenths), "CVSS "@ + tenths_text(tenths as nat)),
{
    let none = Seq::<char>::empty();
    let t = severity_text(s, tenths);
    if tenths > 0 {
        let score = tenths_text(tenths as nat);
        reveal_strlit(" (CVSS ");
        reveal_strlit("CVSS ");
        assert(" (CVSS "@ =~= seq![' ', '('] + "CVSS "@);
        assert(t =~= none + called(s) + (" (CVSS "@ + score + ")"@));
        lemma_says(none, called(s), " (CVSS "@ + score + ")"@, t);
        assert(t =~= (called(s) + seq![' ', '(']) + ("CVSS "@ + score) + ")"@);
        lemma_says(called(s) + seq![' ', '('], "CVSS "@ + score, ")"@, t);
    } else {
        assert(t =~= none + called(s) + none);
        lemma_says(none, called(s), none, t);
    }
}

/// A count says how many advisories there are where there is more than one, and
/// how bad the worst is, with its score, where that is known.
pub proof fn a_count_says_how_many_and_how_bad(f: FindingView)
    requires
        f.advisories.len() > 0,
    ensures
        ({
            let c = count_text(f);
            let n = f.advisories.len();
            let worst = f.advisories[0];
            &&& n > 1 ==> decimal(n).is_prefix_of(c)
            &&& severity_of(worst) != Severity::Unknown ==> says(c, called(severity_of(worst)))
            &&& severity_of(worst) != Severity::Unknown && worst.cvss_score > 0 ==> says(
                c,
                "CVSS "@ + tenths_text(worst.cvss_score as nat),
            )
            &&& severity_of(worst) == Severity::Unknown && n == 1 ==> c
                == "1 known vulnerability"@
            &&& severity_of(worst) == Severity::Unknown && n > 1 ==> c == decimal(n)
                + " known vulnerabilities"@
        }),
{
    let c = count_text(f);
    let n = f.advisories.len();
    let worst = f.advisories[0];
    let none = Seq::<char>::empty();
    if n > 1 {
        assert(c.take(decimal(n).len() as int) =~= decimal(n));
    }
    if severity_of(worst) != Severity::Unknown {
        let t = severity_text(severity_of(worst), worst.cvss_score);
        let head = if n == 1 {
            none
        } else {
            decimal(n) + " advisories, worst "@
        };
        assert(c =~= head + t + none);
        lemma_says(head, t, none, c);
        lemma_severity_says(severity_of(worst), worst.cvss_score);
        lemma_says_within(c, t, called(severity_of(worst)));
        if worst.cvss_score > 0 {
            lemma_says_within(c, t, "CVSS "@ + tenths_text(worst.cvss_score as nat));
        }
    }
}

proof fn lemma_joined_says(parts: Seq<Seq<char>>, separator: Seq<char>, i: int)
    requires
        0 <= i < parts.len(),
    ensures
        says(joined_with(parts, separator), parts[i]),
    decreases parts.len(),
{
    let none = Seq::<char>::empty();
    let all = joined_with(parts, separator);
    if parts.len() == 1 {
        assert(all =~= none + parts[i] + none);
        lemma_says(none, parts[i], none, all);
    } else {
        let front = parts.drop_last();
        let head = joined_with(front, separator);
        if i < front.len() {
            lemma_joined_says(front, separator, i);
            assert(front[i] == parts[i]);
            assert(all =~= none + head + (separator + parts.last()));
            lemma_says(none, head, separator + parts.last(), all);
            lemma_says_within(all, head, parts[i]);
        } else {
            assert(all =~= (head + separator) + parts[i] + none);
            lemma_says(head + separator, parts[i], none, all);
        }
    }
}

proof fn lemma_chain_says(f: FindingView, i: int)
    requires
        !is_direct(f.paths),
        0 <= i < f.paths[shortest_of(f.paths)].len() - 1,
        i < MAX_HOPS,
    ensures
        says(origin_text(f), f.paths[shortest_of(f.paths)][i].name),
        says(origin_text(f), others_text(f.paths.len())),
{
    let none = Seq::<char>::empty();
    let hops = f.paths[shortest_of(f.paths)].drop_last();
    let names = hop_names(hops);
    let joined = joined_with(names, " → "@);
    assert(names[i] == f.paths[shortest_of(f.paths)][i].name);
    lemma_joined_says(names, " → "@, i);
    let more = if hops.len() > MAX_HOPS {
        " → …"@
    } else {
        ""@
    };
    let others = others_text(f.paths.len());
    let t = origin_text(f);
    assert(t =~= ". Pulled in by "@ + joined + (more + others));
    lemma_says(". Pulled in by "@, joined, more + others, t);
    lemma_says_within(t, joined, names[i]);
    assert(t =~= (". Pulled in by "@ + joined + more) + others + none);
    lemma_says(". Pulled in by "@ + joined + more, others, none, t);
}

/// A message about what something else pulled in names each step of the chain,
/// up to four, and how many other chains there are.
pub proof fn a_message_names_the_chain(f: FindingView, fixable: bool, key: Seq<char>, i: int)
    requires
        !is_direct(f.paths),
        0 <= i < f.paths[shortest_of(f.paths)].len() - 1,
        i < 4,
    ensures
        ({
            let m = message_of(f, fixable, key);
            &&& says(m, f.paths[shortest_of(f.paths)][i].name)
            &&& f.paths.len() == 2 ==> says(m, ", and 1 other path"@)
            &&& f.paths.len() > 2 ==> says(
                m,
                ", and "@ + decimal((f.paths.len() - 1) as nat) + " other paths"@,
            )
        }),
{
    let m = message_of(f, fixable, key);
    lemma_chain_says(f, i);
    lemma_clause(f, fixable, key, 7);
    lemma_says_within(m, origin_text(f), f.paths[shortest_of(f.paths)][i].name);
    lemma_says_within(m, origin_text(f), others_text(f.paths.len()));
}

proof fn lemma_says_lockfile(f: FindingView, fixable: bool, key: Seq<char>)
    requires
        is_direct(f.paths) && is_elsewhere(f),
    ensures
        says(
            message_of(f, fixable, key),
            "Version comes from the lockfile, so editing this file alone will not clear it"@,
        ),
{
    lemma_clause(f, fixable, key, 7);
    reveal_strlit(
        ". Version comes from the lockfile, so editing this file alone will not clear it",
    );
    reveal_strlit("Version comes from the lockfile, so editing this file alone will not clear it");
    let clause = ". Version comes from the lockfile, so editing this file alone will not clear it"@;
    let what = "Version comes from the lockfile, so editing this file alone will not clear it"@;
    assert(clause =~= seq!['.', ' '] + what);
    lemma_says_behind(message_of(f, fixable, key), clause, what);
}

proof fn lemma_says_partial(f: FindingView, fixable: bool, key: Seq<char>)
    requires
        f.fix is Partial,
    ensures
        f.advisories.len() == 1 ==> says(
            message_of(f, fixable, key),
            "No published version clears it"@,
        ),
        f.advisories.len() != 1 ==> says(
            message_of(f, fixable, key),
            "No single version clears all of them"@,
        ),
{
    lemma_clause(f, fixable, key, 4);
    reveal_strlit(". No published version clears it");
    reveal_strlit("No published version clears it");
    reveal_strlit(". No single version clears all of them");
    reveal_strlit("No single version clears all of them");
    let what = if f.advisories.len() == 1 {
        "No published version clears it"@
    } else {
        "No single version clears all of them"@
    };
    assert(fix_text(f) =~= seq!['.', ' '] + what);
    lemma_says_behind(message_of(f, fixable, key), fix_text(f), what);
}

/// A message says that the version is pinned elsewhere, and that no version
/// fixes everything, where that is so.
pub proof fn a_message_says_what_stands_in_the_way(f: FindingView, fixable: bool, key: Seq<char>)
    ensures
        ({
            let m = message_of(f, fixable, key);
            &&& is_direct(f.paths) && is_elsewhere(f) ==> says(
                m,
                "Version comes from the lockfile, so editing this file alone will not clear it"@,
            )
            &&& f.fix is Partial && f.advisories.len() == 1 ==> says(
                m,
                "No published version clears it"@,
            )
            &&& f.fix is Partial && f.advisories.len() != 1 ==> says(
                m,
                "No single version clears all of them"@,
            )
        }),
{
    if is_direct(f.paths) && is_elsewhere(f) {
        lemma_says_lockfile(f, fixable, key);
    }
    if f.fix is Partial {
        lemma_says_partial(f, fixable, key);
    }
}

/// Where there is nothing else to say, a message says what is affected and how
/// badly, and no more.
pub proof fn a_plain_message_says_no_more(f: FindingView, fixable: bool, key: Seq<char>)
    requires
        !finding_malicious(f),
        !is_toolchain(f.package.key),
        f.fix is Absent,
        !f.from_range,
        is_direct(f.paths),
        !is_elsewhere(f),
        !f.dep_groups.contains("dev"@),
    ensures
        message_of(f, fixable, key) == ecosystem_name(f.package.key.ecosystem) + ":"@
            + f.package.key.name + "@"@ + f.package.version + " — "@ + count_text(f),
{
    reveal_strlit("");
    let none = ""@;
    assert(none.len() == 0);
    assert(message_of(f, fixable, key) =~= ecosystem_name(f.package.key.ecosystem) + ":"@
        + f.package.key.name + "@"@ + f.package.version + " — "@ + count_text(f));
}

// ---- a whole file ----

proof fn lemma_count_part(findings: Seq<FindingView>, s: Severity)
    requires
        s != Severity::Unknown,
        count_of(findings, s) > 0,
    ensures
        exists|i: int|
            0 <= i < count_parts(findings).len() && #[trigger] count_parts(findings)[i] == decimal(
                count_of(findings, s),
            ) + " "@ + lower_name(s),
{
    let a = count_part(findings, Severity::Critical);
    let b = count_part(findings, Severity::High);
    let c = count_part(findings, Severity::Medium);
    let d = count_part(findings, Severity::Low);
    let all = count_parts(findings);
    assert(all == a + b + c + d);
    match s {
        Severity::Critical => {
            assert(all[0] == a[0]);
        },
        Severity::High => {
            assert(all[a.len() as int] == b[0]);
        },
        Severity::Medium => {
            assert(all[(a.len() + b.len()) as int] == c[0]);
        },
        Severity::Low => {
            assert(all[(a.len() + b.len() + c.len()) as int] == d[0]);
        },
        Severity::Unknown => {},
    }
}

/// The clauses of a summary.
pub open spec fn counted(findings: Seq<FindingView>) -> Seq<char> {
    if count_parts(findings).len() > 0 {
        " ("@ + joined_with(count_parts(findings), ", "@) + ")"@
    } else {
        ""@
    }
}

/// A summary says how many dependencies are affected, how many of each severity
/// that was rated, how many are transitive and how many are hostile.
pub proof fn a_summary_says_how_many(findings: Seq<FindingView>, s: Severity)
    requires
        s != Severity::Unknown,
    ensures
        ({
            let t = summary_text(findings);
            &&& (decimal(findings.len()) + " vulnerable dependencies"@).is_prefix_of(t)
            &&& count_of(findings, s) > 0 ==> says(
                t,
                decimal(count_of(findings, s)) + " "@ + lower_name(s),
            )
            &&& count_transitive(findings) > 0 ==> says(
                t,
                decimal(count_transitive(findings)) + " of them transitive"@,
            )
            &&& count_malicious(findings) > 0 ==> says(
                t,
                decimal(count_malicious(findings)) + " MALICIOUS"@,
            )
        }),
{
    let t = summary_text(findings);
    let none = Seq::<char>::empty();
    let head = decimal(findings.len()) + " vulnerable dependencies"@;
    let parts = count_parts(findings);
    let transitive = if count_transitive(findings) > 0 {
        ", "@ + decimal(count_transitive(findings)) + " of them transitive"@
    } else {
        ""@
    };
    let hostile = if count_malicious(findings) > 0 {
        " — "@ + decimal(count_malicious(findings)) + " MALICIOUS"@
    } else {
        ""@
    };
    let middle = counted(findings);
    assert(t == head + middle + transitive + hostile);
    assert(t.take(head.len() as int) =~= head);
    if count_of(findings, s) > 0 {
        lemma_count_part(findings, s);
        let i = choose|i: int|
            0 <= i < parts.len() && #[trigger] parts[i] == decimal(count_of(findings, s)) + " "@
                + lower_name(s);
        lemma_joined_says(parts, ", "@, i);
        let list = joined_with(parts, ", "@);
        assert(t =~= (head + " ("@) + list + (")"@ + transitive + hostile));
        lemma_says(head + " ("@, list, ")"@ + transitive + hostile, t);
        lemma_says_within(t, list, parts[i]);
    }
    if count_transitive(findings) > 0 {
        let x = decimal(count_transitive(findings)) + " of them transitive"@;
        assert(t =~= (head + middle + ", "@) + x + hostile);
        lemma_says(head + middle + ", "@, x, hostile, t);
    }
    if count_malicious(findings) > 0 {
        let x = decimal(count_malicious(findings)) + " MALICIOUS"@;
        assert(t =~= (head + middle + transitive + " — "@) + x + none);
        lemma_says(head + middle + transitive + " — "@, x, none, t);
    }
}

/// A name at the top of a `package.json` is what its summary stands on, not one
/// of an object inside it.
pub proof fn a_summary_stands_on_the_name_of_the_project(
    path: Seq<char>,
    src: Seq<char>,
    k: int,
)
    requires
        name_of(path) == "package.json"@,
        0 <= k < lines_of(src).len(),
        lines_of(src).len() <= u32::MAX,
        "\"name\""@.is_prefix_of(trim_of(lines_of(src)[k], Class::Space)),
        opened(lines_of(src), k) + opens_before(trim_of(lines_of(src)[k], Class::Space)) == 1,
        forall|i: int|
            0 <= i < k ==> !("\"name\""@.is_prefix_of(
                trim_of(#[trigger] lines_of(src)[i], Class::Space),
            ) && opened(lines_of(src), i) + opens_before(trim_of(lines_of(src)[i], Class::Space))
                == 1),
    ensures
        anchor_line(path, Some(src)) == k + 1,
{
    reveal_strlit("go.mod");
    reveal_strlit("package.json");
    assert("go.mod"@.len() == 6 && "package.json"@.len() == 12);
    assert(landmark_of(name_of(path)) == Some(Landmark::JsonName));
    lemma_json_landmark(lines_of(src), 0, k);
}

/// How many objects the first lines leave open.
pub open spec fn opened(file: Seq<Seq<char>>, n: int) -> int
    decreases n,
{
    if n <= 0 {
        0
    } else {
        opened(file, n - 1) + brace_delta(trim_of(file[n - 1], Class::Space))
    }
}

proof fn lemma_json_landmark(file: Seq<Seq<char>>, i: nat, k: int)
    requires
        i <= k < file.len(),
        "\"name\""@.is_prefix_of(trim_of(file[k], Class::Space)),
        opened(file, k) + opens_before(trim_of(file[k], Class::Space)) == 1,
        forall|j: int|
            i <= j < k ==> !("\"name\""@.is_prefix_of(trim_of(#[trigger] file[j], Class::Space))
                && opened(file, j) + opens_before(trim_of(file[j], Class::Space)) == 1),
    ensures
        landmark_from(Landmark::JsonName, file, i, opened(file, i as int)) == Some((k + 1) as nat),
    decreases k - i,
{
    if i < k {
        lemma_json_landmark(file, i + 1, k);
        assert(opened(file, i as int + 1) == opened(file, i as int) + brace_delta(
            trim_of(file[i as int], Class::Space),
        ));
        assert(!("\"name\""@.is_prefix_of(trim_of(file[i as int], Class::Space)) && opened(
            file,
            i as int,
        ) + opens_before(trim_of(file[i as int], Class::Space)) == 1));
    }
}

// ---- order ----

/// Graver advisories come first, and of those that are as grave the one whose
/// identifier comes first.
pub proof fn graver_advisories_come_first(
    all: Seq<AdvisoryView>,
    package: PackageView,
    i: int,
    j: int,
)
    requires
        0 <= i < j < applicable_of(all, package).len(),
    ensures
        ({
            let a = applicable_of(all, package)[i];
            let b = applicable_of(all, package)[j];
            &&& severity_rank(severity_of(a)) >= severity_rank(severity_of(b))
            &&& severity_of(a) == severity_of(b) ==> text_order(a.id, b.id) != Order::Greater
        }),
{
    let found = crate::index::lookup_of(all, package.key);
    crate::matcher::hits_are_sorted(hits_of(found, package.key, package.version));
    let a = applicable_of(all, package)[i];
    let b = applicable_of(all, package)[j];
    assert(!precedes(b, a));
    crate::order::lemma_text_flip(a.id, b.id);
}

/// Packages are listed by ecosystem, then by name, then by version.
pub proof fn packages_are_listed_by_name(found: Seq<ExtractedView>, i: int, j: int)
    requires
        0 <= i < j < reconciled(found).len(),
    ensures
        ({
            let a = reconciled(found)[i].package;
            let b = reconciled(found)[j].package;
            &&& ecosystem_rank(a.key.ecosystem) <= ecosystem_rank(b.key.ecosystem)
            &&& a.key.ecosystem == b.key.ecosystem ==> text_order(a.key.name, b.key.name)
                != Order::Greater
            &&& a.key == b.key ==> text_order(a.version, b.version) != Order::Greater
        }),
{
    crate::extract::the_report_is_in_order(found);
    let x = reconciled(found)[i];
    let y = reconciled(found)[j];
    assert(sight_order(y, x) != Order::Less);
    crate::order::lemma_text_flip(x.package.key.name, y.package.key.name);
    crate::order::lemma_text_flip(x.package.version, y.package.version);
    crate::order::lemma_text_equal(y.package.key.name, x.package.key.name);
}

} // verus!
