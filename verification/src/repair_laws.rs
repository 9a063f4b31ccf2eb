//! What a revision is for: every issue reaches the chapters it names, and only those change.
use vstd::prelude::*;
use crate::domain::{
    ChapterView, ParsedChapterRewriteView, ReviewIssueView, RewriteObligationView,
};
use crate::excerpt::head;
use crate::keywords::{structural_categories, structural_words};
use crate::patterns::Captured;
use crate::repair::{
    all_claims, all_targets, crosses_chapters, failed_obligations, first_full_reason, full_reason,
    id_used, merged, replaced, revision_plan, targeted, targeted_fault, RevisionPlanView,
};
use crate::residue::rewrite_with_id;
use crate::review_filter::{claim_of, index_texts, issue_line};
use crate::targeted::{
    beside, beside_targets, group_text, has_id, issue_report, law_valid_markers_match_the_targets,
    marker_index, markers_outcome, marks, marks_of, neighbor_note, neighbor_notes, numbered_issues,
    opens, targeted_context, Mark,
};
use crate::text::{ascii_lowered, decimal, holds, holds_any, join, signed_number, trim};
use crate::text_laws::{
    law_holding_is_transitive, law_joined_text_holds_its_parts, law_trimmed_text_is_the_middle,
    law_trimming_keeps_the_rest, lemma_holds_in_part, lemma_holds_inside, lemma_push_contains,
    lemma_sum_contains,
};

verus! {

// ---- which chapters are revised -------------------------------------------------------------
proof fn lemma_no_reason(issues: Seq<ReviewIssueView>, shard: Seq<i64>)
    ensures
        first_full_reason(issues, shard) is None <==> (forall|i: int|
            0 <= i < issues.len() ==> full_reason(#[trigger] issues[i], shard) is None),
    decreases issues.len(),
{
    if issues.len() > 0 {
        let rest = issues.drop_last();
        lemma_no_reason(rest, shard);
        if first_full_reason(issues, shard) is None {
            assert forall|i: int| 0 <= i < issues.len() implies full_reason(
                #[trigger] issues[i],
                shard,
            ) is None by {
                if i < rest.len() {
                    assert(rest[i] == issues[i]);
                }
            }
        }
        if forall|i: int|
            0 <= i < issues.len() ==> full_reason(#[trigger] issues[i], shard) is None {
            assert forall|i: int| 0 <= i < rest.len() implies full_reason(
                #[trigger] rest[i],
                shard,
            ) is None by {
                assert(rest[i] == issues[i]);
            }
            assert(issues[issues.len() - 1] == issues.last());
        }
    }
}

proof fn lemma_all_targets(issues: Seq<ReviewIssueView>, x: i64)
    ensures
        all_targets(issues).contains(x) <==> (exists|i: int|
            0 <= i < issues.len() && (#[trigger] issues[i]).chapter_indexes.contains(x)),
    decreases issues.len(),
{
    if issues.len() > 0 {
        let rest = issues.drop_last();
        lemma_all_targets(rest, x);
        lemma_sum_contains(all_targets(rest), issues.last().chapter_indexes, x);
        if all_targets(rest).contains(x) {
            let i = choose|i: int|
                0 <= i < rest.len() && (#[trigger] rest[i]).chapter_indexes.contains(x);
            assert(issues[i] == rest[i]);
        }
        if issues.last().chapter_indexes.contains(x) {
            assert(issues[issues.len() - 1].chapter_indexes.contains(x));
        }
        if exists|i: int|
            0 <= i < issues.len() && (#[trigger] issues[i]).chapter_indexes.contains(x) {
            let i = choose|i: int|
                0 <= i < issues.len() && (#[trigger] issues[i]).chapter_indexes.contains(x);
            if i < rest.len() {
                assert(rest[i] == issues[i]);
            }
        }
    } else {
        assert(!all_targets(issues).contains(x));
    }
}

proof fn lemma_targeted(shard: Seq<i64>, targets: Seq<i64>, x: i64)
    ensures
        targeted(shard, targets).contains(x) <==> shard.contains(x) && targets.contains(x),
    decreases shard.len(),
{
    if shard.len() > 0 {
        let rest = shard.drop_last();
        lemma_targeted(rest, targets, x);
        let before = targeted(rest, targets);
        lemma_push_contains(before, shard.last(), x);
        lemma_push_contains(rest, shard.last(), x);
        assert(rest.push(shard.last()) =~= shard);
        if before.len() > 0 && before.last() == shard.last() {
            assert(before.contains(before[before.len() - 1]));
        }
    } else {
        assert(!shard.contains(x));
        assert(!targeted(shard, targets).contains(x));
    }
}

/// Where some chapters are revised and not all, they are the chapters that the issues name: each
/// that an issue names is among them, and each of them is named by an issue. They are at most half
/// of the shard, and no issue reaches beyond the chapters it names.
pub proof fn law_revised_chapters_are_those_named(
    shard: Seq<i64>,
    issues: Seq<ReviewIssueView>,
    list: Seq<i64>,
)
    requires
        revision_plan(shard, issues) == RevisionPlanView::Targeted(list),
    ensures
        forall|x: i64| #[trigger]
            list.contains(x) <==> exists|i: int|
                0 <= i < issues.len() && (#[trigger] issues[i]).chapter_indexes.contains(x),
        forall|x: i64| #[trigger] list.contains(x) ==> shard.contains(x),
        list.to_set().len() * 2 <= shard.len(),
        list.len() > 0,
        forall|i: int|
            0 <= i < issues.len() ==> ascii_lowered((#[trigger] issues[i]).scope) == "chapter"@,
        forall|i: int|
            0 <= i < issues.len() ==> (#[trigger] issues[i]).chapter_indexes.len() > 0,
{
    let targets = all_targets(issues);
    lemma_no_reason(issues, shard);
    assert forall|x: i64| #[trigger] targets.contains(x) implies shard.contains(x) by {
        lemma_all_targets(issues, x);
        let i = choose|i: int|
            0 <= i < issues.len() && (#[trigger] issues[i]).chapter_indexes.contains(x);
        assert(full_reason(issues[i], shard) is None);
        let k = issues[i].chapter_indexes.index_of(x);
        assert(issues[i].chapter_indexes[k] == x);
    }
    assert forall|x: i64| #[trigger] list.contains(x) <==> exists|i: int|
        0 <= i < issues.len() && (#[trigger] issues[i]).chapter_indexes.contains(x) by {
        lemma_targeted(shard, targets, x);
        lemma_all_targets(issues, x);
    }
    assert forall|x: i64| #[trigger] list.contains(x) implies shard.contains(x) by {
        lemma_targeted(shard, targets, x);
    }
    assert(list.to_set() =~= targets.to_set()) by {
        assert forall|x: i64| list.to_set().contains(x) <==> targets.to_set().contains(x) by {
            lemma_targeted(shard, targets, x);
        }
    }
    lemma_targeted(shard, targets, targets[0]);
    assert(targets.contains(targets[0]));
    assert(list.contains(targets[0]));
    assert forall|i: int| 0 <= i < issues.len() implies ascii_lowered((#[trigger] issues[i]).scope)
        == "chapter"@ by {
        assert(full_reason(issues[i], shard) is None);
    }
    assert forall|i: int| 0 <= i < issues.len() implies (#[trigger] issues[i]).chapter_indexes.len()
        > 0 by {
        assert(full_reason(issues[i], shard) is None);
    }
}

/// One issue that reaches beyond the chapters it names, names none, or names one outside the shard
/// sends the whole shard back, wherever it stands among the issues.
pub proof fn law_wide_issue_revises_the_shard(
    shard: Seq<i64>,
    issues: Seq<ReviewIssueView>,
    i: int,
)
    requires
        0 <= i < issues.len(),
        ascii_lowered(issues[i].scope) != "chapter"@ || holds_any(
            ascii_lowered(issues[i].category),
            structural_categories(),
        ) || holds_any(issues[i].problem, structural_words()) || holds_any(
            issues[i].required_fix,
            structural_words(),
        ) || issues[i].chapter_indexes.len() == 0 || exists|x: i64|
            issues[i].chapter_indexes.contains(x) && !#[trigger] shard.contains(x),
    ensures
        revision_plan(shard, issues) is Full,
{
    lemma_no_reason(issues, shard);
    let issue = issues[i];
    if holds_any(issue.problem, structural_words()) {
        let k = choose|k: int|
            0 <= k < structural_words().len() && holds(
                issue.problem,
                #[trigger] structural_words()[k],
            );
        lemma_holds_in_part(
            Seq::empty(),
            issue.problem,
            " "@ + issue.required_fix,
            structural_words()[k],
        );
        assert(Seq::empty() + issue.problem + (" "@ + issue.required_fix) =~= claim_of(issue));
        assert(holds(claim_of(issue), structural_words()[k]));
    }
    if holds_any(issue.required_fix, structural_words()) {
        let k = choose|k: int|
            0 <= k < structural_words().len() && holds(
                issue.required_fix,
                #[trigger] structural_words()[k],
            );
        lemma_holds_in_part(
            issue.problem + " "@,
            issue.required_fix,
            Seq::empty(),
            structural_words()[k],
        );
        assert(issue.problem + " "@ + issue.required_fix + Seq::empty() =~= claim_of(issue));
        assert(holds(claim_of(issue), structural_words()[k]));
    }
    if exists|x: i64| issue.chapter_indexes.contains(x) && !#[trigger] shard.contains(x) {
        let x = choose|x: i64| issue.chapter_indexes.contains(x) && !#[trigger] shard.contains(x);
        let k = issue.chapter_indexes.index_of(x);
        assert(!shard.contains(issue.chapter_indexes[k]));
    }
    assert(full_reason(issues[i], shard) is Some);
}

/// Where every issue is about chapters of the shard that it names, and they are at most half of
/// it, only they are revised.
pub proof fn law_local_issues_revise_their_chapters(
    shard: Seq<i64>,
    issues: Seq<ReviewIssueView>,
)
    requires
        issues.len() > 0,
        forall|i: int|
            0 <= i < issues.len() ==> {
                &&& !crosses_chapters(#[trigger] issues[i])
                &&& issues[i].chapter_indexes.len() > 0
                &&& forall|k: int|
                    0 <= k < issues[i].chapter_indexes.len() ==> shard.contains(
                        #[trigger] issues[i].chapter_indexes[k],
                    )
            },
        all_targets(issues).to_set().len() * 2 <= shard.len(),
    ensures
        revision_plan(shard, issues) is Targeted,
{
    lemma_no_reason(issues, shard);
    assert forall|i: int| 0 <= i < issues.len() implies full_reason(#[trigger] issues[i], shard)
        is None by {
        assert(!crosses_chapters(issues[i]));
    }
    let x = issues[0].chapter_indexes[0];
    assert(issues[0].chapter_indexes.contains(x));
    lemma_all_targets(issues, x);
}

/// An issue is local exactly if its scope is a chapter and neither its category nor its words speak
/// of more.
pub proof fn law_local_issue(issue: ReviewIssueView)
    requires
        ascii_lowered(issue.scope) == "chapter"@,
        !holds_any(ascii_lowered(issue.category), structural_categories()),
        !holds_any(issue.problem + " "@ + issue.required_fix, structural_words()),
    ensures
        !crosses_chapters(issue),
{
}

// ---- what is shown --------------------------------------------------------------------------
/// The words of all issues hold the words of each.
pub proof fn law_claims_hold_every_issue(issues: Seq<ReviewIssueView>, i: int)
    requires
        0 <= i < issues.len(),
    ensures
        holds(all_claims(issues), issues[i].problem),
        holds(all_claims(issues), issues[i].required_fix),
{
    let parts = Seq::new(issues.len(), |i: int| claim_of(issues[i]));
    law_joined_text_holds_its_parts(parts, "\n"@, i);
    let issue = issues[i];
    lemma_holds_inside(Seq::empty(), issue.problem, " "@ + issue.required_fix);
    assert(Seq::empty() + issue.problem + (" "@ + issue.required_fix) =~= claim_of(issue));
    lemma_holds_inside(issue.problem + " "@, issue.required_fix, Seq::empty());
    assert(issue.problem + " "@ + issue.required_fix + Seq::empty() =~= claim_of(issue));
    law_holding_is_transitive(all_claims(issues), parts[i], issue.problem);
    law_holding_is_transitive(all_claims(issues), parts[i], issue.required_fix);
}

/// The obligations that failed are those whose ids the issues name.
pub proof fn law_failed_obligations_are_named(
    obligations: Seq<RewriteObligationView>,
    claims: Seq<char>,
    id: Seq<char>,
)
    ensures
        failed_obligations(obligations, claims).contains(id) <==> holds(claims, id) && exists|i: int|
            0 <= i < obligations.len() && (#[trigger] obligations[i]).obligation_id == id,
    decreases obligations.len(),
{
    if obligations.len() > 0 {
        let rest = obligations.drop_last();
        law_failed_obligations_are_named(rest, claims, id);
        let last = obligations.last();
        lemma_push_contains(failed_obligations(rest, claims), last.obligation_id, id);
        if exists|i: int| 0 <= i < rest.len() && (#[trigger] rest[i]).obligation_id == id {
            let i = choose|i: int|
                0 <= i < rest.len() && (#[trigger] rest[i]).obligation_id == id;
            assert(obligations[i].obligation_id == id);
        }
        if last.obligation_id == id {
            assert(obligations[obligations.len() - 1].obligation_id == id);
        }
        if exists|i: int|
            0 <= i < obligations.len() && (#[trigger] obligations[i]).obligation_id == id {
            let i = choose|i: int|
                0 <= i < obligations.len() && (#[trigger] obligations[i]).obligation_id == id;
            if i < rest.len() {
                assert(rest[i].obligation_id == id);
            }
        }
    } else {
        assert(!failed_obligations(obligations, claims).contains(id));
    }
}

/// The line of an issue holds what is wrong and what has to be done.
pub proof fn law_issue_line_says_all(issue: ReviewIssueView)
    ensures
        holds(issue_line(issue), trim(issue.problem)),
        holds(issue_line(issue), trim(issue.required_fix)),
{
    let location = if issue.chapter_indexes.len() == 0 {
        "未指定章节"@
    } else {
        "分片索引 "@ + join(index_texts(issue.chapter_indexes), "、"@)
    };
    let start = location + " ["@ + issue.severity + " / "@ + issue.scope + " / "@ + issue.category
        + "] "@;
    let problem = trim(issue.problem);
    let fix = trim(issue.required_fix);
    let whole = start + problem + " "@ + fix;
    assert(issue_line(issue) == trim(whole));
    lemma_holds_inside(start, problem, " "@ + fix);
    assert(start + problem + (" "@ + fix) =~= whole);
    lemma_holds_inside(start + problem + " "@, fix, Seq::empty());
    assert(start + problem + " "@ + fix + Seq::empty() =~= whole);
    let a = law_trimmed_text_is_the_middle(issue.problem);
    let b = law_trimmed_text_is_the_middle(issue.required_fix);
    if problem.len() > 0 {
        law_trimming_keeps_the_rest(whole, problem);
    } else {
        lemma_holds_nothing(trim(whole), problem);
    }
    if fix.len() > 0 {
        law_trimming_keeps_the_rest(whole, fix);
    } else {
        lemma_holds_nothing(trim(whole), fix);
    }
}

proof fn lemma_holds_nothing(t: Seq<char>, p: Seq<char>)
    requires
        p.len() == 0,
    ensures
        holds(t, p),
{
    lemma_holds_inside(Seq::empty(), p, t);
    assert(Seq::empty() + p + t =~= t);
}

/// The report of a review shows every issue: what is wrong and what has to be done.
pub proof fn law_report_shows_every_issue(issues: Seq<ReviewIssueView>, i: int)
    requires
        0 <= i < issues.len(),
    ensures
        holds(issue_report(issues), issue_line(issues[i])),
        holds(issue_report(issues), trim(issues[i].problem)),
        holds(issue_report(issues), trim(issues[i].required_fix)),
{
    let parts = numbered_issues(issues);
    law_joined_text_holds_its_parts(parts, "\n"@, i);
    let line = issue_line(issues[i]);
    lemma_holds_inside(decimal(i + 1) + ". "@, line, Seq::empty());
    assert(decimal(i + 1) + ". "@ + line + Seq::empty() =~= parts[i]);
    law_holding_is_transitive(issue_report(issues), parts[i], line);
    law_issue_line_says_all(issues[i]);
    law_holding_is_transitive(issue_report(issues), line, trim(issues[i].problem));
    law_holding_is_transitive(issue_report(issues), line, trim(issues[i].required_fix));
}

proof fn lemma_beside_is_met(shard: Seq<ChapterView>, targets: Seq<i64>, n: int, at: int, t: int)
    requires
        0 <= t < n <= shard.len(),
        0 <= at < shard.len(),
        at == t - 1 || at == t + 1,
        targets.contains(shard[t].index),
        !targets.contains(shard[at].index),
    ensures
        beside_targets(shard, targets, n).contains(shard[at]),
    decreases n,
{
    let before = beside_targets(shard, targets, n - 1);
    let x = beside(shard, targets, n - 2);
    let y = beside(shard, targets, n);
    lemma_sum_contains(before, x, shard[at]);
    lemma_sum_contains(before + x, y, shard[at]);
    if t < n - 1 {
        lemma_beside_is_met(shard, targets, n - 1, at, t);
    } else if at == t - 1 {
        assert(x[0] == shard[at]);
    } else {
        assert(y[0] == shard[at]);
    }
}

proof fn lemma_note_is_made(
    chapters: Seq<ChapterView>,
    rewrites: Seq<ParsedChapterRewriteView>,
    i: int,
) -> (k: int)
    requires
        0 <= i < chapters.len(),
        rewrite_with_id(rewrites, chapters[i].id) is Some,
    ensures
        0 <= k < chapters.len(),
        chapters[k].id == chapters[i].id,
        neighbor_notes(chapters, rewrites).contains(
            neighbor_note(chapters[k], rewrite_with_id(rewrites, chapters[i].id)->0),
        ),
    decreases chapters.len(),
{
    let earlier = chapters.drop_last();
    let before = neighbor_notes(earlier, rewrites);
    let last = chapters.last();
    if i < earlier.len() {
        let k = lemma_note_is_made(earlier, rewrites, i);
        let note = neighbor_note(earlier[k], rewrite_with_id(rewrites, chapters[i].id)->0);
        if rewrite_with_id(rewrites, last.id) is Some {
            lemma_push_contains(
                before,
                neighbor_note(last, rewrite_with_id(rewrites, last.id)->0),
                note,
            );
        }
        assert(chapters[k] == earlier[k]);
        k
    } else if has_id(earlier, last.id) {
        let j = choose|j: int| 0 <= j < earlier.len() && (#[trigger] earlier[j]).id == last.id;
        let k = lemma_note_is_made(earlier, rewrites, j);
        assert(chapters[k] == earlier[k]);
        k
    } else {
        let note = neighbor_note(last, rewrite_with_id(rewrites, last.id)->0);
        lemma_push_contains(before, note, note);
        i
    }
}

/// A chapter beside a revised one, on either side, is shown for reading: with its title, and with
/// the start of its text as it now stands.
pub proof fn law_neighbor_is_shown(
    shard: Seq<ChapterView>,
    rewrites: Seq<ParsedChapterRewriteView>,
    targets: Seq<i64>,
    at: int,
    t: int,
)
    requires
        0 <= t < shard.len(),
        0 <= at < shard.len(),
        at == t - 1 || at == t + 1,
        targets.contains(shard[t].index),
        !targets.contains(shard[at].index),
        rewrite_with_id(rewrites, shard[at].id) is Some,
    ensures
        ({
            let rewrite = rewrite_with_id(rewrites, shard[at].id)->0;
            &&& holds(targeted_context(shard, rewrites, targets), rewrite.title)
            &&& holds(targeted_context(shard, rewrites, targets), head(trim(rewrite.text), 100))
        }),
{
    let n = shard.len() as int;
    lemma_beside_is_met(shard, targets, n, at, t);
    let list = beside_targets(shard, targets, n);
    let i = list.index_of(shard[at]);
    let k = lemma_note_is_made(list, rewrites, i);
    let rewrite = rewrite_with_id(rewrites, shard[at].id)->0;
    let note = neighbor_note(list[k], rewrite);
    let notes = neighbor_notes(list, rewrites);
    let whole = targeted_context(shard, rewrites, targets);
    let p = notes.index_of(note);
    law_joined_text_holds_its_parts(notes, "\n\n"@, p);
    let start = "分片索引 "@ + decimal(list[k].index as int) + " · 标题："@;
    let middle = "\n原文摘要："@ + head(trim(list[k].original_text), 80) + "\n当前改写摘要："@;
    let end = head(trim(rewrite.text), 100);
    lemma_holds_inside(start, rewrite.title, middle + end);
    assert(start + rewrite.title + (middle + end) =~= note);
    lemma_holds_inside(start + rewrite.title + middle, end, Seq::empty());
    assert(start + rewrite.title + middle + end + Seq::empty() =~= note);
    law_holding_is_transitive(whole, note, rewrite.title);
    law_holding_is_transitive(whole, note, end);
}

// ---- markers --------------------------------------------------------------------------------
proof fn lemma_mark_stands(matches: Seq<Captured>, starts: bool, mark: Mark) -> (i: int)
    requires
        marks(matches, starts).contains(mark),
    ensures
        0 <= i < matches.len(),
        marker_index(matches[i]) == Some(mark.0),
        group_text(matches[i], 3) == mark.1,
        opens(matches[i]) == starts,
    decreases matches.len(),
{
    if matches.len() == 0 {
        assert(!marks(matches, starts).contains(mark));
        0
    } else {
        let rest = matches.drop_last();
        let last = matches.last();
        let before = marks(rest, starts);
        if before.contains(mark) {
            let i = lemma_mark_stands(rest, starts, mark);
            assert(matches[i] == rest[i]);
            i
        } else {
            match marker_index(last) {
                Some(index) if opens(last) == starts => {
                    lemma_push_contains(before, (index, group_text(last, 3)), mark);
                },
                _ => {},
            }
            matches.len() - 1
        }
    }
}

/// Where the markers are accepted, each revised chapter has one that opens it and one that ends
/// it, with its own index and id.
pub proof fn law_each_target_is_marked(
    matches: Seq<Captured>,
    chapters: Seq<ChapterView>,
    c: int,
) -> (places: (int, int))
    requires
        markers_outcome(matches, marks_of(chapters)) is Ok,
        0 <= c < chapters.len(),
    ensures
        0 <= places.0 < matches.len(),
        0 <= places.1 < matches.len(),
        group_text(matches[places.0], 1) == "START"@,
        group_text(matches[places.1], 1) != "START"@,
        marker_index(matches[places.0]) == Some(chapters[c].index),
        marker_index(matches[places.1]) == Some(chapters[c].index),
        group_text(matches[places.0], 3) == chapters[c].id,
        group_text(matches[places.1], 3) == chapters[c].id,
{
    let expected = marks_of(chapters);
    let mark = (chapters[c].index, chapters[c].id);
    assert(expected[c] == mark);
    assert(expected.to_set().contains(mark));
    law_valid_markers_match_the_targets(matches, expected, true);
    law_valid_markers_match_the_targets(matches, expected, false);
    assert(marks(matches, true).to_set().contains(mark));
    assert(marks(matches, false).to_set().contains(mark));
    let a = lemma_mark_stands(matches, true, mark);
    let b = lemma_mark_stands(matches, false, mark);
    (a, b)
}

/// A marker's index and id are what its groups hold.
pub proof fn law_marker_says_its_chapter(
    whole: Option<Seq<char>>,
    word: Seq<char>,
    number: Seq<char>,
    id: Seq<char>,
)
    requires
        signed_number(number) is Some,
    ensures
        ({
            let groups = seq![whole, Some(word), Some(number), Some(id)];
            &&& marker_index(groups) == Some(signed_number(number)->0 as i64)
            &&& group_text(groups, 3) == id
            &&& opens(groups) <==> word == "START"@
        }),
{
}

// ---- the chapters that come back ------------------------------------------------------------
proof fn lemma_no_fault(revised: Seq<ParsedChapterRewriteView>, expected: Seq<i64>)
    requires
        forall|i: int| 0 <= i < revised.len() ==> expected.contains((#[trigger] revised[i]).index),
        forall|i: int, j: int|
            0 <= i < j < revised.len() ==> (#[trigger] revised[i]).id != (#[trigger] revised[j]).id,
    ensures
        targeted_fault(revised, expected) is None,
    decreases revised.len(),
{
    if revised.len() > 0 {
        let earlier = revised.drop_last();
        assert forall|i: int| 0 <= i < earlier.len() implies expected.contains(
            (#[trigger] earlier[i]).index,
        ) by {
            assert(earlier[i] == revised[i]);
        }
        assert forall|i: int, j: int| 0 <= i < j < earlier.len() implies (#[trigger] earlier[i]).id
            != (#[trigger] earlier[j]).id by {
            assert(earlier[i] == revised[i] && earlier[j] == revised[j]);
        }
        lemma_no_fault(earlier, expected);
        assert(revised[revised.len() - 1] == revised.last());
        if rewrite_with_id(earlier, revised.last().id) is Some {
            let i = lemma_found_at(earlier, revised.last().id);
            assert(revised[i].id == revised[revised.len() - 1].id);
        }
    }
}

proof fn lemma_found_at(list: Seq<ParsedChapterRewriteView>, id: Seq<char>) -> (i: int)
    requires
        rewrite_with_id(list, id) is Some,
    ensures
        0 <= i < list.len(),
        list[i].id == id,
        rewrite_with_id(list, id) == Some(list[i]),
    decreases list.len(),
{
    if list.last().id == id {
        list.len() - 1
    } else {
        lemma_found_at(list.drop_last(), id)
    }
}

proof fn lemma_fault_is_seen(revised: Seq<ParsedChapterRewriteView>, expected: Seq<i64>, i: int)
    requires
        0 <= i < revised.len(),
        targeted_fault(revised, expected) is None,
    ensures
        expected.contains(revised[i].index),
        forall|j: int| 0 <= j < i ==> (#[trigger] revised[j]).id != revised[i].id,
    decreases revised.len(),
{
    let earlier = revised.drop_last();
    if i < earlier.len() {
        lemma_fault_is_seen(earlier, expected, i);
        assert forall|j: int| 0 <= j < i implies (#[trigger] revised[j]).id != revised[i].id by {
            assert(earlier[j].id != earlier[i].id);
        }
    } else {
        assert forall|j: int| 0 <= j < i implies (#[trigger] revised[j]).id != revised[i].id by {
            if revised[j].id == revised[i].id {
                lemma_id_is_found(earlier, j);
            }
        }
    }
}

proof fn lemma_id_is_found(list: Seq<ParsedChapterRewriteView>, i: int)
    requires
        0 <= i < list.len(),
    ensures
        rewrite_with_id(list, list[i].id) is Some,
    decreases list.len(),
{
    if list.last().id != list[i].id {
        lemma_id_is_found(list.drop_last(), i);
    }
}

/// A revision that has a chapter that was not asked for, or one twice, or not as many as were
/// asked for, is refused.
pub proof fn law_accepted_revision_is_what_was_asked_for(
    rewrites: Seq<ParsedChapterRewriteView>,
    revised: Seq<ParsedChapterRewriteView>,
    expected: Seq<i64>,
)
    requires
        merged(rewrites, revised, expected) is Ok,
    ensures
        forall|i: int| 0 <= i < revised.len() ==> expected.contains((#[trigger] revised[i]).index),
        forall|i: int, j: int|
            0 <= i < j < revised.len() ==> (#[trigger] revised[i]).id != (#[trigger] revised[j]).id,
        revised.len() == expected.to_set().len(),
{
    assert forall|i: int| 0 <= i < revised.len() implies expected.contains(
        (#[trigger] revised[i]).index,
    ) by {
        lemma_fault_is_seen(revised, expected, i);
    }
    assert forall|i: int, j: int| 0 <= i < j < revised.len() implies (#[trigger] revised[i]).id != (
    #[trigger] revised[j]).id by {
        lemma_fault_is_seen(revised, expected, j);
    }
}

/// A revision with exactly the chapters that were asked for, each under its own id and index, is
/// accepted.
pub proof fn law_good_revision_is_accepted(
    rewrites: Seq<ParsedChapterRewriteView>,
    revised: Seq<ParsedChapterRewriteView>,
    expected: Seq<i64>,
)
    requires
        forall|i: int| 0 <= i < revised.len() ==> expected.contains((#[trigger] revised[i]).index),
        forall|i: int, j: int|
            0 <= i < j < revised.len() ==> (#[trigger] revised[i]).id != (#[trigger] revised[j]).id,
        revised.len() == expected.to_set().len(),
        forall|i: int, j: int|
            0 <= i < j < rewrites.len() ==> (#[trigger] rewrites[i]).id != (
            #[trigger] rewrites[j]).id,
        forall|i: int|
            0 <= i < rewrites.len() && expected.contains((#[trigger] rewrites[i]).index) ==> {
                &&& rewrite_with_id(revised, rewrites[i].id) is Some
                &&& rewrite_with_id(revised, rewrites[i].id)->0.index == rewrites[i].index
            },
    ensures
        merged(rewrites, revised, expected) is Ok,
{
    lemma_no_fault(revised, expected);
    lemma_replaced_is_ok(rewrites, revised, expected);
}

proof fn lemma_replaced_is_ok(
    rewrites: Seq<ParsedChapterRewriteView>,
    revised: Seq<ParsedChapterRewriteView>,
    expected: Seq<i64>,
)
    requires
        forall|i: int, j: int|
            0 <= i < j < rewrites.len() ==> (#[trigger] rewrites[i]).id != (
            #[trigger] rewrites[j]).id,
        forall|i: int|
            0 <= i < rewrites.len() && expected.contains((#[trigger] rewrites[i]).index) ==> {
                &&& rewrite_with_id(revised, rewrites[i].id) is Some
                &&& rewrite_with_id(revised, rewrites[i].id)->0.index == rewrites[i].index
            },
    ensures
        replaced(rewrites, revised, expected) is Ok,
    decreases rewrites.len(),
{
    if rewrites.len() > 0 {
        let earlier = rewrites.drop_last();
        assert forall|i: int, j: int| 0 <= i < j < earlier.len() implies (#[trigger] earlier[i]).id
            != (#[trigger] earlier[j]).id by {
            assert(rewrites[i].id != rewrites[j].id);
        }
        assert forall|i: int|
            0 <= i < earlier.len() && expected.contains((#[trigger] earlier[i]).index) implies {
            &&& rewrite_with_id(revised, earlier[i].id) is Some
            &&& rewrite_with_id(revised, earlier[i].id)->0.index == earlier[i].index
        } by {
            assert(earlier[i] == rewrites[i]);
        }
        lemma_replaced_is_ok(earlier, revised, expected);
        let last = rewrites[rewrites.len() - 1];
        if id_used(earlier, expected, last.id) {
            let i = choose|i: int|
                0 <= i < earlier.len() && expected.contains((#[trigger] earlier[i]).index)
                    && earlier[i].id == last.id;
            assert(rewrites[i].id != rewrites[rewrites.len() - 1].id);
        }
    }
}

} // verus!
