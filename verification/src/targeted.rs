//! The revision of some chapters of a shard: the context that goes with it, and the markers that
//! its outcome has to carry.
use vstd::prelude::*;
use crate::domain::{
    Chapter, ChapterView, ParsedChapterRewrite, ParsedChapterRewriteView, ReviewIssue,
    ReviewIssueView,
};
use crate::excerpt::{file_name_of, head, sanitize_file_name, truncate_text};
use crate::patterns::{
    all_captured, captured, find_captures, marker_pattern, regex_captures, Captured,
};
use crate::residue::{find_rewrite, rewrite_with_id};
use crate::review_filter::{issue_line, review_issue_text};
use crate::text::{
    chars_of, decimal, holds_index, holds_text, i64_text, join, join_texts, lemma_views_push,
    parse_i64, same_text, signed_number, trim, trimmed, usize_text, views,
};

verus! {

// ---- the neighbours of what is revised ------------------------------------------------------
/// The chapters beside a revised one that are not revised themselves, in the order in which they
/// are met; one between two revised ones is met twice.
pub open spec fn beside_targets(shard: Seq<ChapterView>, targets: Seq<i64>, n: int) -> Seq<
    ChapterView,
>
    decreases n,
{
    if n <= 0 {
        Seq::empty()
    } else {
        let before = beside_targets(shard, targets, n - 1);
        if !targets.contains(shard[n - 1].index) {
            before
        } else {
            before + beside(shard, targets, n - 2) + beside(shard, targets, n)
        }
    }
}

/// The chapter at a place, where there is one that is not revised.
pub open spec fn beside(shard: Seq<ChapterView>, targets: Seq<i64>, place: int) -> Seq<
    ChapterView,
> {
    if 0 <= place < shard.len() && !targets.contains(shard[place].index) {
        seq![shard[place]]
    } else {
        Seq::empty()
    }
}

/// A chapter that is shown for reading only.
pub open spec fn neighbor_note(chapter: ChapterView, rewrite: ParsedChapterRewriteView) -> Seq<
    char,
> {
    "分片索引 "@ + decimal(chapter.index as int) + " · 标题："@ + rewrite.title + "\n原文摘要："@ + head(
        trim(chapter.original_text),
        80,
    ) + "\n当前改写摘要："@ + head(trim(rewrite.text), 100)
}

/// The notes on the chapters, each id once; a chapter without a rewrite has none.
pub open spec fn neighbor_notes(
    chapters: Seq<ChapterView>,
    rewrites: Seq<ParsedChapterRewriteView>,
) -> Seq<Seq<char>>
    decreases chapters.len(),
{
    if chapters.len() == 0 {
        Seq::empty()
    } else {
        let earlier = chapters.drop_last();
        let before = neighbor_notes(earlier, rewrites);
        if has_id(earlier, chapters.last().id) {
            before
        } else {
            match rewrite_with_id(rewrites, chapters.last().id) {
                Some(r) => before.push(neighbor_note(chapters.last(), r)),
                None => before,
            }
        }
    }
}

pub open spec fn has_id(chapters: Seq<ChapterView>, id: Seq<char>) -> bool {
    exists|i: int| 0 <= i < chapters.len() && (#[trigger] chapters[i]).id == id
}

pub open spec fn targeted_context(
    shard: Seq<ChapterView>,
    rewrites: Seq<ParsedChapterRewriteView>,
    targets: Seq<i64>,
) -> Seq<char> {
    let notes = neighbor_notes(beside_targets(shard, targets, shard.len() as int), rewrites);
    if notes.len() == 0 {
        "无相邻章节。"@
    } else {
        join(notes, "\n\n"@)
    }
}

fn neighbor_note_of(chapter: &Chapter, rewrite: &ParsedChapterRewrite) -> (r: String)
    ensures
        r@ == neighbor_note(chapter@, rewrite@),
{
    let number = i64_text(chapter.index);
    let original = trimmed(chapter.original_text.as_str());
    let original = truncate_text(original.as_str(), 80);
    let text = trimmed(rewrite.text.as_str());
    let text = truncate_text(text.as_str(), 100);
    let mut out = "分片索引 ".to_string();
    out.append(number.as_str());
    out.append(" · 标题：");
    out.append(rewrite.title.as_str());
    out.append("\n原文摘要：");
    out.append(original.as_str());
    out.append("\n当前改写摘要：");
    out.append(text.as_str());
    out
}

fn find_beside<'a>(shard: &'a [Chapter], targets: &[i64]) -> (r: Vec<&'a Chapter>)
    ensures
        views(r@) == beside_targets(views(shard@), targets@, shard@.len() as int),
{
    let ghost all = views(shard@);
    let mut out: Vec<&'a Chapter> = Vec::new();
    let mut i: usize = 0;
    proof {
        assert(views(out@) =~= beside_targets(all, targets@, 0));
    }
    while i < shard.len()
        invariant
            i <= shard@.len(),
            all == views(shard@),
            views(out@) == beside_targets(all, targets@, i as int),
        decreases shard@.len() - i,
    {
        if holds_index(targets, shard[i].index) {
            let ghost start = views(out@);
            if i > 0 && !holds_index(targets, shard[i - 1].index) {
                let ghost before = out@;
                out.push(&shard[i - 1]);
                proof {
                    lemma_views_push(before, out@.last());
                }
            }
            proof {
                assert(views(out@) =~= start + beside(all, targets@, i - 1));
            }
            let ghost middle = views(out@);
            if shard.len() - i > 1 && !holds_index(targets, shard[i + 1].index) {
                let ghost before = out@;
                out.push(&shard[i + 1]);
                proof {
                    lemma_views_push(before, out@.last());
                }
            }
            proof {
                assert(views(out@) =~= middle + beside(all, targets@, i + 1));
            }
        }
        i += 1;
    }
    out
}

/// What is shown of the chapters beside the revised ones.
pub fn build_targeted_revision_context(
    shard: &[Chapter],
    rewrites: &[ParsedChapterRewrite],
    target_indexes: &[i64],
) -> (r: String)
    ensures
        r@ == targeted_context(views(shard@), views(rewrites@), target_indexes@),
{
    let chapters = find_beside(shard, target_indexes);
    let ghost all = views(chapters@);
    let mut notes: Vec<String> = Vec::new();
    let mut ids: Vec<String> = Vec::new();
    let mut i: usize = 0;
    proof {
        assert(views(notes@) =~= neighbor_notes(all.take(0), views(rewrites@)));
    }
    while i < chapters.len()
        invariant
            i <= chapters@.len(),
            all == views(chapters@),
            views(notes@) == neighbor_notes(all.take(i as int), views(rewrites@)),
            ids@.len() == i,
            forall|k: int| 0 <= k < i ==> (#[trigger] views(ids@)[k]) == all[k].id,
        decreases chapters@.len() - i,
    {
        let chapter = chapters[i];
        let ghost earlier = all.take(i as int);
        proof {
            assert(all.take(i + 1).drop_last() =~= earlier);
            assert(all.take(i + 1).last() == chapter@);
        }
        let seen = holds_text(ids.as_slice(), chapter.id.as_str());
        proof {
            if seen {
                let k = choose|k: int| 0 <= k < ids@.len() && views(ids@)[k] == chapter.id@;
                assert(earlier[k].id == chapter@.id);
            } else {
                assert forall|k: int| 0 <= k < earlier.len() implies (#[trigger] earlier[k]).id
                    != chapter@.id by {
                    assert(views(ids@)[k] == all[k].id);
                }
            }
        }
        if !seen {
            if let Some(rewrite) = find_rewrite(rewrites, chapter.id.as_str()) {
                let ghost before = notes@;
                notes.push(neighbor_note_of(chapter, rewrite));
                proof {
                    lemma_views_push(before, notes@.last());
                }
            }
        }
        let ghost before = ids@;
        ids.push(chapter.id.clone());
        proof {
            lemma_views_push(before, ids@.last());
        }
        i += 1;
    }
    proof {
        assert(all.take(i as int) =~= all);
    }
    if notes.len() == 0 {
        "无相邻章节。".to_string()
    } else {
        join_texts(notes.as_slice(), "\n\n")
    }
}

// ---- the markers of what came back ----------------------------------------------------------
/// The index and the id in a marker.
pub type Mark = (i64, Seq<char>);

/// The text of a group of a match; empty where the group took no part.
pub open spec fn group_text(groups: Captured, k: int) -> Seq<char> {
    if k < groups.len() {
        match groups[k] {
            Some(t) => t,
            None => Seq::empty(),
        }
    } else {
        Seq::empty()
    }
}

/// The index in a marker, where it is a number that fits.
pub open spec fn marker_index(groups: Captured) -> Option<i64> {
    if groups.len() > 2 && groups[2] is Some {
        match signed_number(groups[2]->0) {
            Some(n) => Some(n as i64),
            None => None,
        }
    } else {
        None
    }
}

/// Whether a marker stands at the start of a chapter.
pub open spec fn opens(groups: Captured) -> bool {
    group_text(groups, 1) == "START"@
}

/// The marks at the starts, or else those at the ends, of chapters.
pub open spec fn marks(matches: Seq<Captured>, starts: bool) -> Seq<Mark>
    decreases matches.len(),
{
    if matches.len() == 0 {
        Seq::empty()
    } else {
        let before = marks(matches.drop_last(), starts);
        match marker_index(matches.last()) {
            Some(index) if opens(matches.last()) == starts => before.push(
                (index, group_text(matches.last(), 3)),
            ),
            _ => before,
        }
    }
}

/// What is wrong with the first marker that is not as it should be.
pub open spec fn marker_fault(matches: Seq<Captured>, expected: Seq<Mark>) -> Option<Seq<char>>
    decreases matches.len(),
{
    if matches.len() == 0 {
        None
    } else {
        let earlier = matches.drop_last();
        let groups = matches.last();
        match marker_fault(earlier, expected) {
            Some(e) => Some(e),
            None => match marker_index(groups) {
                None => Some("定向重写返回了无效 marker 索引。"@),
                Some(index) => {
                    let id = group_text(groups, 3);
                    if !expected.contains((index, id)) {
                        Some(
                            "定向重写返回了非目标或 ID 不匹配的 marker：index="@ + decimal(index as int) + " id="@
                                + id + "。"@,
                        )
                    } else if marks(earlier, opens(groups)).contains((index, id)) {
                        Some(
                            "定向重写返回了重复的 "@ + group_text(groups, 1) + " marker：index="@ + decimal(
                                index as int,
                            ) + " id="@ + id + "。"@,
                        )
                    } else {
                        None
                    }
                },
            },
        }
    }
}

/// The marks that chapters have.
pub open spec fn marks_of(chapters: Seq<ChapterView>) -> Seq<Mark> {
    Seq::new(chapters.len(), |i: int| (chapters[i].index, chapters[i].id))
}

/// What is wrong with the markers as a whole, where something is.
pub open spec fn markers_outcome(matches: Seq<Captured>, expected: Seq<Mark>) -> Result<
    (),
    Seq<char>,
> {
    let count = expected.to_set().len();
    let starts = marks(matches, true).len();
    let ends = marks(matches, false).len();
    match marker_fault(matches, expected) {
        Some(e) => Err(e),
        None => if starts != count || ends != count {
            Err(
                "定向重写 marker 不完整：期望 "@ + decimal(count as int) + " 组，得到 "@ + decimal(starts as int)
                    + " 个开始 marker 和 "@ + decimal(ends as int) + " 个结束 marker。"@,
            )
        } else {
            Ok(())
        },
    }
}

proof fn lemma_marker_fault_prefix(matches: Seq<Captured>, expected: Seq<Mark>, n: int)
    requires
        0 <= n <= matches.len(),
        marker_fault(matches.take(n), expected) is Some,
    ensures
        marker_fault(matches, expected) == marker_fault(matches.take(n), expected),
    decreases matches.len() - n,
{
    if n < matches.len() {
        assert(matches.take(n + 1).drop_last() =~= matches.take(n));
        lemma_marker_fault_prefix(matches, expected, n + 1);
    } else {
        assert(matches.take(n) =~= matches);
    }
}

fn holds_mark(list: &[(i64, String)], index: i64, id: &str) -> (r: bool)
    ensures
        r == views(list@).contains((index, id@)),
{
    let ghost all = views(list@);
    let mut i: usize = 0;
    while i < list.len()
        invariant
            i <= list@.len(),
            all == views(list@),
            forall|k: int| 0 <= k < i ==> #[trigger] all[k] != (index, id@),
        decreases list@.len() - i,
    {
        proof {
            assert(all[i as int] == list@[i as int]@);
        }
        if list[i].0 == index && same_text(list[i].1.as_str(), id) {
            proof {
                assert(all[i as int] == (index, id@));
            }
            return true;
        }
        i += 1;
    }
    false
}

/// The different marks of chapters.
fn distinct_marks(chapters: &[Chapter]) -> (r: Vec<(i64, String)>)
    ensures
        views(r@).no_duplicates(),
        views(r@).to_set() == marks_of(views(chapters@)).to_set(),
        r@.len() == marks_of(views(chapters@)).to_set().len(),
{
    let ghost all = marks_of(views(chapters@));
    let mut out: Vec<(i64, String)> = Vec::new();
    let mut i: usize = 0;
    while i < chapters.len()
        invariant
            i <= chapters@.len(),
            all == marks_of(views(chapters@)),
            views(out@).no_duplicates(),
            forall|m: Mark| #[trigger] views(out@).contains(m) <==> all.take(i as int).contains(m),
        decreases chapters@.len() - i,
    {
        let chapter = &chapters[i];
        let ghost mark = (chapter.index, chapter.id@);
        let ghost before = out@;
        proof {
            assert(all[i as int] == mark);
            assert(all.take(i + 1) =~= all.take(i as int).push(mark));
        }
        if !holds_mark(out.as_slice(), chapter.index, chapter.id.as_str()) {
            out.push((chapter.index, chapter.id.clone()));
            proof {
                lemma_views_push(before, out@.last());
                assert(views(out@) == views(before).push(mark));
                assert forall|m: Mark| #[trigger] views(out@).contains(m) <==> all.take(
                    i + 1,
                ).contains(m) by {
                    lemma_push_contains(views(before), mark, m);
                    lemma_push_contains(all.take(i as int), mark, m);
                }
            }
        } else {
            proof {
                assert forall|m: Mark| #[trigger] views(out@).contains(m) <==> all.take(
                    i + 1,
                ).contains(m) by {
                    lemma_push_contains(all.take(i as int), mark, m);
                }
            }
        }
        i += 1;
    }
    proof {
        assert(all.take(i as int) =~= all);
        assert(views(out@).to_set() =~= all.to_set());
        views(out@).unique_seq_to_set();
    }
    out
}

proof fn lemma_push_contains(s: Seq<Mark>, x: Mark, m: Mark)
    ensures
        s.push(x).contains(m) <==> s.contains(m) || m == x,
{
    if s.contains(m) {
        let k = s.index_of(m);
        assert(s.push(x)[k] == m);
    }
    if m == x {
        assert(s.push(x)[s.len() as int] == m);
    }
}

fn group_of(groups: &Vec<Option<String>>, k: usize) -> (r: String)
    ensures
        r@ == group_text(captured(groups@), k as int),
{
    if k < groups.len() {
        if let Some(t) = &groups[k] {
            return t.clone();
        }
    }
    String::new()
}

fn index_of_marker(groups: &Vec<Option<String>>) -> (r: Option<i64>)
    ensures
        r == marker_index(captured(groups@)),
{
    if groups.len() > 2 {
        if let Some(t) = &groups[2] {
            let digits = chars_of(t.as_str());
            return parse_i64(digits.as_slice());
        }
    }
    None
}

/// Checks markers that were found: each chapter has one at its start and one at its end, and
/// there are no others.
pub fn check_targeted_markers(matches: &[Vec<Option<String>>], target_chapters: &[Chapter]) -> (r:
    Result<(), String>)
    ensures
        match (markers_outcome(all_captured(matches@), marks_of(views(target_chapters@))), r) {
            (Ok(_), Ok(_)) => true,
            (Err(e), Err(m)) => m@ == e,
            _ => false,
        },
{
    let ghost all = all_captured(matches@);
    let ghost expected = marks_of(views(target_chapters@));
    let wanted = distinct_marks(target_chapters);
    let mut starts: Vec<(i64, String)> = Vec::new();
    let mut ends: Vec<(i64, String)> = Vec::new();
    let mut i: usize = 0;
    proof {
        assert(views(starts@) =~= marks(all.take(0), true));
        assert(views(ends@) =~= marks(all.take(0), false));
    }
    while i < matches.len()
        invariant
            i <= matches@.len(),
            all == all_captured(matches@),
            expected == marks_of(views(target_chapters@)),
            views(wanted@).to_set() == expected.to_set(),
            views(starts@) == marks(all.take(i as int), true),
            views(ends@) == marks(all.take(i as int), false),
            marker_fault(all.take(i as int), expected) is None,
        decreases matches@.len() - i,
    {
        let groups = &matches[i];
        proof {
            assert(all.take(i + 1).drop_last() =~= all.take(i as int));
            assert(all.take(i + 1).last() == captured(groups@));
        }
        let kind = group_of(groups, 1);
        let index = match index_of_marker(groups) {
            Some(index) => index,
            None => {
                proof {
                    lemma_marker_fault_prefix(all, expected, i + 1);
                }
                return Err("定向重写返回了无效 marker 索引。".to_string());
            },
        };
        let id = group_of(groups, 3);
        let number = i64_text(index);
        let is_wanted = holds_mark(wanted.as_slice(), index, id.as_str());
        proof {
            assert(expected.to_set().contains((index, id@)) == views(wanted@).to_set().contains(
                (index, id@),
            ));
        }
        if !is_wanted {
            let mut m = "定向重写返回了非目标或 ID 不匹配的 marker：index=".to_string();
            m.append(number.as_str());
            m.append(" id=");
            m.append(id.as_str());
            m.append("。");
            proof {
                lemma_marker_fault_prefix(all, expected, i + 1);
            }
            return Err(m);
        }
        let is_start = same_text(kind.as_str(), "START");
        let repeated = if is_start {
            holds_mark(starts.as_slice(), index, id.as_str())
        } else {
            holds_mark(ends.as_slice(), index, id.as_str())
        };
        if repeated {
            let mut m = "定向重写返回了重复的 ".to_string();
            m.append(kind.as_str());
            m.append(" marker：index=");
            m.append(number.as_str());
            m.append(" id=");
            m.append(id.as_str());
            m.append("。");
            proof {
                lemma_marker_fault_prefix(all, expected, i + 1);
            }
            return Err(m);
        }
        if is_start {
            let ghost before = starts@;
            starts.push((index, id));
            proof {
                lemma_views_push(before, starts@.last());
            }
        } else {
            let ghost before = ends@;
            ends.push((index, id));
            proof {
                lemma_views_push(before, ends@.last());
            }
        }
        i += 1;
    }
    proof {
        assert(all.take(i as int) =~= all);
    }
    if starts.len() != wanted.len() || ends.len() != wanted.len() {
        let count = usize_text(wanted.len());
        let opened = usize_text(starts.len());
        let closed = usize_text(ends.len());
        let mut m = "定向重写 marker 不完整：期望 ".to_string();
        m.append(count.as_str());
        m.append(" 组，得到 ");
        m.append(opened.as_str());
        m.append(" 个开始 marker 和 ");
        m.append(closed.as_str());
        m.append(" 个结束 marker。");
        return Err(m);
    }
    Ok(())
}

/// Checks the markers in what came back for the chapters that were to be revised.
pub fn validate_targeted_rewrite_markers(output: &str, target_chapters: &[Chapter]) -> (r: Result<
    (),
    String,
>)
    ensures
        match (
            markers_outcome(
                regex_captures(marker_pattern(), output@),
                marks_of(views(target_chapters@)),
            ),
            r,
        ) {
            (Ok(_), Ok(_)) => true,
            (Err(e), Err(m)) => m@ == e,
            _ => false,
        },
{
    let matches = find_captures(
        r"<<<YURI_REWRITE_CHAPTER_(START|END)\s+index=(\d+)\s+id=([^>\s]+)>>>",
        output,
    );
    check_targeted_markers(matches.as_slice(), target_chapters)
}

proof fn lemma_marks_are_expected(matches: Seq<Captured>, expected: Seq<Mark>, starts: bool)
    requires
        marker_fault(matches, expected) is None,
    ensures
        marks(matches, starts).no_duplicates(),
        forall|m: Mark| marks(matches, starts).contains(m) ==> #[trigger] expected.contains(m),
    decreases matches.len(),
{
    if matches.len() > 0 {
        let earlier = matches.drop_last();
        lemma_marks_are_expected(earlier, expected, starts);
        let index = marker_index(matches.last())->0;
        let mark = (index, group_text(matches.last(), 3));
        if opens(matches.last()) == starts {
            assert forall|m: Mark| marks(matches, starts).contains(m) implies #[trigger] expected.contains(
                m,
            ) by {
                lemma_push_contains(marks(earlier, starts), mark, m);
            }
        }
    }
}

/// Markers that pass the check name every chapter exactly once at its start and exactly once at
/// its end, and no other chapter.
pub proof fn law_valid_markers_match_the_targets(
    matches: Seq<Captured>,
    expected: Seq<Mark>,
    starts: bool,
)
    requires
        markers_outcome(matches, expected) is Ok,
    ensures
        marks(matches, starts).no_duplicates(),
        marks(matches, starts).to_set() == expected.to_set(),
{
    lemma_marks_are_expected(matches, expected, starts);
    let found = marks(matches, starts);
    found.unique_seq_to_set();
    assert forall|m: Mark| found.to_set().contains(m) implies expected.to_set().contains(m) by {
        assert(found.contains(m));
        assert(expected.contains(m));
    }
    vstd::set_lib::lemma_subset_equality(found.to_set(), expected.to_set());
}

// ---- the issues as a list -------------------------------------------------------------------
/// The issues, numbered from one.
pub open spec fn numbered_issues(issues: Seq<ReviewIssueView>) -> Seq<Seq<char>> {
    Seq::new(issues.len(), |i: int| decimal(i + 1) + ". "@ + issue_line(issues[i]))
}

pub fn number_issues(issues: &[ReviewIssue]) -> (r: String)
    ensures
        r@ == join(numbered_issues(views(issues@)), "\n"@),
{
    let ghost all = views(issues@);
    let ghost goal = numbered_issues(all);
    let mut parts: Vec<String> = Vec::new();
    let mut i: usize = 0;
    while i < issues.len()
        invariant
            i <= issues@.len(),
            all == views(issues@),
            goal == numbered_issues(all),
            views(parts@) == goal.take(i as int),
        decreases issues@.len() - i,
    {
        let ghost before = parts@;
        let line = review_issue_text(&issues[i]);
        let mut part = usize_text(i + 1);
        part.append(". ");
        part.append(line.as_str());
        parts.push(part);
        proof {
            lemma_views_push(before, parts@.last());
            assert(all[i as int] == issues@[i as int]@);
            assert(views(parts@) =~= goal.take(i + 1));
        }
        i += 1;
    }
    proof {
        assert(goal.take(i as int) =~= goal);
    }
    join_texts(parts.as_slice(), "\n")
}

pub open spec fn issue_report(issues: Seq<ReviewIssueView>) -> Seq<char> {
    if issues.len() == 0 {
        "未提供具体问题。"@
    } else {
        join(numbered_issues(issues), "\n"@)
    }
}

pub fn format_review_issues(issues: &[ReviewIssue]) -> (r: String)
    ensures
        r@ == issue_report(views(issues@)),
{
    if issues.len() == 0 {
        "未提供具体问题。".to_string()
    } else {
        number_issues(issues)
    }
}

// ---- the warning that a shard was saved without approval ------------------------------------
/// The name of the file that the warnings of a novel go to.
pub open spec fn warning_file_name(novel_title: Seq<char>) -> Seq<char> {
    file_name_of(novel_title) + "_审查警告.log"@
}

pub fn review_warning_file_name(novel_title: &str) -> (r: String)
    ensures
        r@ == warning_file_name(novel_title@),
{
    let mut out = sanitize_file_name(novel_title);
    out.append("_审查警告.log");
    out
}

/// What is written into that file.
pub fn review_warning_text(
    time: &str,
    novel_title: &str,
    shard_label: &str,
    issues: &[ReviewIssue],
) -> (r: String)
    ensures
        r@ == "\n===== "@ + time@ + " =====\n小说："@ + novel_title@ + "\n分片："@ + shard_label@
            + "\n结果：第三次审查仍未通过，程序已保存第二次重写稿并继续处理后续分片。\n\n第三次审查问题：\n"@ + issue_report(views(issues@))
            + "\n"@,
{
    let report = format_review_issues(issues);
    let mut out = "\n===== ".to_string();
    out.append(time);
    out.append(" =====\n小说：");
    out.append(novel_title);
    out.append("\n分片：");
    out.append(shard_label);
    out.append("\n结果：第三次审查仍未通过，程序已保存第二次重写稿并继续处理后续分片。\n\n第三次审查问题：\n");
    out.append(report.as_str());
    out.append("\n");
    out
}

/// What is said of where the warning went: to the first file, to the second because the first
/// could not be written, or nowhere.
pub fn review_warning_outcome(
    root_path: &str,
    fallback_path: &str,
    root_error: Option<&str>,
    fallback_error: Option<&str>,
) -> (r: String)
    ensures
        r@ == match (root_error, fallback_error) {
            (None, _) => root_path@,
            (Some(e), None) => fallback_path@ + "（写入软件根目录失败，已改写入应用数据目录："@ + e@ + "）"@,
            (Some(e), Some(f)) => "警告日志写入失败；软件根目录错误："@ + e@ + "；应用数据目录错误："@ + f@,
        },
{
    match (root_error, fallback_error) {
        (None, _) => root_path.to_string(),
        (Some(e), None) => {
            let mut out = fallback_path.to_string();
            out.append("（写入软件根目录失败，已改写入应用数据目录：");
            out.append(e);
            out.append("）");
            out
        },
        (Some(e), Some(f)) => {
            let mut out = "警告日志写入失败；软件根目录错误：".to_string();
            out.append(e);
            out.append("；应用数据目录错误：");
            out.append(f);
            out
        },
    }
}

/// A prompt that also asks for the short check around the outcome, where that is wanted.
pub fn require_tagged_rewrite_output(prompt: String, tagged_check: bool) -> (r: String)
    ensures
        r@ == if tagged_check {
            prompt@
                + "\n\n【高级短自检包装】\n输出必须且只能包含一次 <rewrite_check>短核对</rewrite_check> 和一次 <output>完整 marker、标题与正文</output>；<output> 外不得有正文，标签不得重复或嵌入正文。"@
        } else {
            prompt@
        },
{
    if !tagged_check {
        return prompt;
    }
    let mut out = prompt;
    out.append(
        "\n\n【高级短自检包装】\n输出必须且只能包含一次 <rewrite_check>短核对</rewrite_check> 和一次 <output>完整 marker、标题与正文</output>；<output> 外不得有正文，标签不得重复或嵌入正文。",
    );
    out
}

proof fn lemma_beside_is_not_revised(
    shard: Seq<ChapterView>,
    targets: Seq<i64>,
    n: int,
    i: int,
)
    requires
        0 <= n <= shard.len(),
        0 <= i < beside_targets(shard, targets, n).len(),
    ensures
        !targets.contains(beside_targets(shard, targets, n)[i].index),
        shard.contains(beside_targets(shard, targets, n)[i]),
    decreases n,
{
    if n > 0 {
        let before = beside_targets(shard, targets, n - 1);
        if i < before.len() {
            lemma_beside_is_not_revised(shard, targets, n - 1, i);
        } else {
            let left = beside(shard, targets, n - 2);
            let right = beside(shard, targets, n);
            let all = before + left + right;
            if i < before.len() + left.len() {
                assert(all[i] == shard[n - 2]);
            } else {
                assert(all[i] == shard[n]);
            }
        }
    }
}

/// What a revision of some chapters is shown for reading only are chapters of the shard that it
/// does not revise.
pub proof fn law_context_shows_other_chapters(
    shard: Seq<ChapterView>,
    targets: Seq<i64>,
    i: int,
)
    requires
        0 <= i < beside_targets(shard, targets, shard.len() as int).len(),
    ensures
        shard.contains(beside_targets(shard, targets, shard.len() as int)[i]),
        !targets.contains(beside_targets(shard, targets, shard.len() as int)[i].index),
{
    lemma_beside_is_not_revised(shard, targets, shard.len() as int, i);
}

} // verus!
