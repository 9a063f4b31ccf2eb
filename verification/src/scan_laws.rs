//! What the scans of a rewrite are for: whatever a rewrite took away, added or copied is reported,
//! and a rewrite that is approved in the end is clean.
use vstd::prelude::*;
use crate::domain::{
    ChapterView, NovelSettingsView, ParsedChapterRewriteView, ReviewIssueView,
};
use crate::finalize::{scanned, standing};
use crate::json::{json_read, list_field, JsonView};
use crate::names::{line_mappings, line_sources, normal_form};
use crate::order::law_sorted_texts_are_distinct;
use crate::overrewrite::{
    analysis_names, changed_names, chapter_overrewrites, chapters_overrewrites, copied_at,
    copied_positions, copy_issue, copy_issues, copy_row, copy_rows, field_names, item_name,
    item_names, known_names, letters, mapping_names, name_issue, name_issues, neutral_issue,
    neutral_issues, neutral_terms, overrewrites, plausible_name, protected_names, stereotype_issue,
    stereotype_issues, stereotype_phrases, COPY_WINDOW,
};
use crate::pronouns::{
    around, correctable, corrected, corrected_form, correction_count, group_changed, group_forms,
    group_issue, group_issues, issue_lines_of, male_family_words, mixed_family, new_issues,
    scan_issues, total_corrections, with_group_issue, GroupForm,
};
use crate::residue::{
    chapter_with_id, explains_by, legacy_parts, name_logic_issue, name_logic_issues, naming_phrases,
    original_body, residue_issue, residue_issues, rewrite_with_id, sentences,
};
use crate::review_filter::{
    issue_line, refuted, rewrite_body, source_names, stands, AuthorNotesView,
};
use crate::review_laws::{form_was_left, law_left_name_is_reported};
use crate::text::{
    alphanumeric, ascii_lowered, count_matches, decimal, holds, holds_any, lines, matches_at, trim,
};
use crate::text_laws::{
    law_holding_is_transitive, law_joined_text_holds_its_parts, law_replacing_nothing,
    law_replacing_the_first_match, lemma_holds_end, lemma_holds_inside, lemma_holds_more,
    lemma_holds_start, lemma_push_contains, lemma_sum_contains,
};
use crate::repair::revision_plan;
use crate::repair_laws::law_wide_issue_revises_the_shard;

verus! {

// ---- phrases and words ----------------------------------------------------------------------
proof fn lemma_phrase_is_found(
    index: i64,
    original: Seq<char>,
    rewritten: Seq<char>,
    phrases: Seq<Seq<char>>,
    i: int,
)
    requires
        0 <= i < phrases.len(),
        !holds(original, phrases[i]),
        holds(rewritten, phrases[i]),
    ensures
        stereotype_issues(index, original, rewritten, phrases).contains(
            stereotype_issue(index, phrases[i]),
        ),
    decreases phrases.len(),
{
    let rest = phrases.drop_last();
    let before = stereotype_issues(index, original, rewritten, rest);
    let issue = stereotype_issue(index, phrases[i]);
    lemma_push_contains(before, stereotype_issue(index, phrases.last()), issue);
    if i < rest.len() {
        lemma_phrase_is_found(index, original, rewritten, rest, i);
    }
}

proof fn lemma_term_is_found(
    index: i64,
    original: Seq<char>,
    rewritten: Seq<char>,
    terms: Seq<Seq<char>>,
    i: int,
)
    requires
        0 <= i < terms.len(),
        count_matches(original, terms[i]) > count_matches(rewritten, terms[i]),
    ensures
        neutral_issues(index, original, rewritten, terms).contains(
            neutral_issue(
                index,
                terms[i],
                count_matches(original, terms[i]),
                count_matches(rewritten, terms[i]),
            ),
        ),
    decreases terms.len(),
{
    let rest = terms.drop_last();
    let before = neutral_issues(index, original, rewritten, rest);
    let issue = neutral_issue(
        index,
        terms[i],
        count_matches(original, terms[i]),
        count_matches(rewritten, terms[i]),
    );
    let last = neutral_issue(
        index,
        terms.last(),
        count_matches(original, terms.last()),
        count_matches(rewritten, terms.last()),
    );
    lemma_push_contains(before, last, issue);
    if i < rest.len() {
        lemma_term_is_found(index, original, rewritten, rest, i);
    }
}

proof fn lemma_name_is_found(
    index: i64,
    original: Seq<char>,
    rewritten: Seq<char>,
    names: Seq<Seq<char>>,
    i: int,
)
    requires
        0 <= i < names.len(),
        count_matches(original, names[i]) > count_matches(rewritten, names[i]),
    ensures
        name_issues(index, original, rewritten, names).contains(
            name_issue(
                index,
                names[i],
                count_matches(original, names[i]),
                count_matches(rewritten, names[i]),
            ),
        ),
    decreases names.len(),
{
    let rest = names.drop_last();
    let before = name_issues(index, original, rewritten, rest);
    let issue = name_issue(
        index,
        names[i],
        count_matches(original, names[i]),
        count_matches(rewritten, names[i]),
    );
    let last = name_issue(
        index,
        names.last(),
        count_matches(original, names.last()),
        count_matches(rewritten, names.last()),
    );
    lemma_push_contains(before, last, issue);
    if i < rest.len() {
        lemma_name_is_found(index, original, rewritten, rest, i);
    }
}

proof fn lemma_chapter_issue_is_kept(
    chapters: Seq<ChapterView>,
    rewrites: Seq<ParsedChapterRewriteView>,
    names: Seq<Seq<char>>,
    c: int,
    issue: ReviewIssueView,
)
    requires
        0 <= c < chapters.len(),
        rewrite_with_id(rewrites, chapters[c].id) matches Some(rewrite) && chapter_overrewrites(
            chapters[c],
            rewrite,
            names,
        ).contains(issue),
    ensures
        chapters_overrewrites(chapters, rewrites, names).contains(issue),
        overrewrites(chapters, rewrites, names).contains(issue),
    decreases chapters.len(),
{
    let rest = chapters.drop_last();
    let before = chapters_overrewrites(rest, rewrites, names);
    match rewrite_with_id(rewrites, chapters.last().id) {
        Some(rewrite) => {
            lemma_sum_contains(
                before,
                chapter_overrewrites(chapters.last(), rewrite, names),
                issue,
            );
        },
        None => {},
    }
    if c < rest.len() {
        lemma_chapter_issue_is_kept(rest, rewrites, names, c, issue);
    }
    lemma_sum_contains(
        chapters_overrewrites(chapters, rewrites, names),
        copy_rows(chapters, rewrites, rewrites.len() as int),
        issue,
    );
}

/// A phrase that explains a person by being a woman, and that only the rewrite has, is reported on
/// the chapter, with the phrase.
#[verifier::rlimit(60)]
#[verifier::spinoff_prover]
pub proof fn law_added_label_is_reported(
    chapters: Seq<ChapterView>,
    rewrites: Seq<ParsedChapterRewriteView>,
    names: Seq<Seq<char>>,
    c: int,
    phrase: Seq<char>,
) -> (issue: ReviewIssueView)
    requires
        0 <= c < chapters.len(),
        rewrite_with_id(rewrites, chapters[c].id) is Some,
        phrase == "身为女性"@ || phrase == "身为女人"@ || phrase == "身为女子"@ || phrase
            == "我一个女人"@ || phrase == "我一个女性"@ || phrase == "同为女子"@ || phrase == "同为女人"@
            || phrase == "枉为女性"@ || phrase == "枉为女人"@ || phrase == "女性特有"@ || phrase
            == "女人特有"@ || phrase == "女孩子半条命"@ || phrase == "母性本能"@ || phrase == "女人就该"@,
        !holds(original_body(chapters[c]), phrase),
        holds(rewrite_body(rewrite_with_id(rewrites, chapters[c].id)->0), phrase),
    ensures
        overrewrites(chapters, rewrites, names).contains(issue),
        issue.chapter_indexes == seq![chapters[c].index],
        issue.severity == "blocking"@,
        holds(issue.problem, phrase),
{
    let list = stereotype_phrases();
    let rewrite = rewrite_with_id(rewrites, chapters[c].id)->0;
    let original = original_body(chapters[c]);
    let rewritten = rewrite_body(rewrite);
    assert(list[0] == "身为女性"@ && list[1] == "身为女人"@ && list[2] == "身为女子"@ && list[3]
        == "我一个女人"@ && list[4] == "我一个女性"@ && list[5] == "同为女子"@ && list[6] == "同为女人"@
        && list[7] == "枉为女性"@ && list[8] == "枉为女人"@ && list[9] == "女性特有"@ && list[10]
        == "女人特有"@ && list[11] == "女孩子半条命"@ && list[12] == "母性本能"@ && list[13] == "女人就该"@);
    let i = choose|i: int| 0 <= i < list.len() && #[trigger] list[i] == phrase;
    assert(0 <= i < list.len() && list[i] == phrase);
    let index = chapters[c].index;
    lemma_phrase_is_found(index, original, rewritten, list, i);
    let issue = stereotype_issue(index, phrase);
    let a = stereotype_issues(index, original, rewritten, list);
    let b = neutral_issues(index, original, rewritten, neutral_terms());
    lemma_sum_contains(a, b, issue);
    lemma_sum_contains(a + b, name_issues(index, original, rewritten, names), issue);
    lemma_chapter_issue_is_kept(chapters, rewrites, names, c, issue);
    lemma_holds_inside("改写稿凭空加入刻意性别标签“"@, phrase, "”。"@);
    issue
}

/// A word that fits anyone and that stands less often in the rewrite than in the original is
/// reported on the chapter, with the word.
#[verifier::rlimit(60)]
#[verifier::spinoff_prover]
pub proof fn law_lost_neutral_word_is_reported(
    chapters: Seq<ChapterView>,
    rewrites: Seq<ParsedChapterRewriteView>,
    names: Seq<Seq<char>>,
    c: int,
    term: Seq<char>,
) -> (issue: ReviewIssueView)
    requires
        0 <= c < chapters.len(),
        rewrite_with_id(rewrites, chapters[c].id) is Some,
        term == "偶像"@ || term == "榜样"@ || term == "英雄"@ || term == "巨人"@ || term == "巨兽"@ || term
            == "强者"@ || term == "造物主"@ || term == "学生"@ || term == "同伴"@ || term == "朋友"@ || term
            == "管理员"@ || term == "师父"@ || term == "前辈"@ || term == "对手"@ || term == "敌人"@ || term
            == "主人"@ || term == "孩子"@ || term == "家伙"@ || term == "单身狗"@,
        count_matches(original_body(chapters[c]), term) > count_matches(
            rewrite_body(rewrite_with_id(rewrites, chapters[c].id)->0),
            term,
        ),
    ensures
        overrewrites(chapters, rewrites, names).contains(issue),
        issue.chapter_indexes == seq![chapters[c].index],
        issue.severity == "blocking"@,
        holds(issue.problem, term),
{
    let list = neutral_terms();
    let rewrite = rewrite_with_id(rewrites, chapters[c].id)->0;
    let original = original_body(chapters[c]);
    let rewritten = rewrite_body(rewrite);
    assert(list[0] == "偶像"@ && list[1] == "榜样"@ && list[2] == "英雄"@ && list[3] == "巨人"@
        && list[4] == "巨兽"@ && list[5] == "强者"@ && list[6] == "造物主"@ && list[7] == "学生"@
        && list[8] == "同伴"@ && list[9] == "朋友"@ && list[10] == "管理员"@ && list[11] == "师父"@
        && list[12] == "前辈"@ && list[13] == "对手"@ && list[14] == "敌人"@ && list[15] == "主人"@
        && list[16] == "孩子"@ && list[17] == "家伙"@ && list[18] == "单身狗"@);
    let i = choose|i: int| 0 <= i < list.len() && #[trigger] list[i] == term;
    assert(0 <= i < list.len() && list[i] == term);
    let index = chapters[c].index;
    lemma_term_is_found(index, original, rewritten, list, i);
    let was = count_matches(original, term);
    let is = count_matches(rewritten, term);
    let issue = neutral_issue(index, term, was, is);
    let a = stereotype_issues(index, original, rewritten, stereotype_phrases());
    let b = neutral_issues(index, original, rewritten, list);
    lemma_sum_contains(a, b, issue);
    lemma_sum_contains(a + b, name_issues(index, original, rewritten, names), issue);
    lemma_chapter_issue_is_kept(chapters, rewrites, names, c, issue);
    let tail = "”由原文 "@ + decimal(was as int) + " 次减少为 "@ + decimal(is as int) + " 次。"@;
    lemma_holds_inside("中性词“"@, term, tail);
    assert("中性词“"@ + term + tail =~= issue.problem);
    issue
}

/// A name that has to stay and that stands less often in the rewrite than in the original is
/// reported on the chapter, with the name.
pub proof fn law_lost_name_is_reported(
    chapters: Seq<ChapterView>,
    rewrites: Seq<ParsedChapterRewriteView>,
    names: Seq<Seq<char>>,
    c: int,
    n: int,
) -> (issue: ReviewIssueView)
    requires
        0 <= c < chapters.len(),
        rewrite_with_id(rewrites, chapters[c].id) is Some,
        0 <= n < names.len(),
        count_matches(original_body(chapters[c]), names[n]) > count_matches(
            rewrite_body(rewrite_with_id(rewrites, chapters[c].id)->0),
            names[n],
        ),
    ensures
        overrewrites(chapters, rewrites, names).contains(issue),
        issue.chapter_indexes == seq![chapters[c].index],
        issue.severity == "blocking"@,
        holds(issue.problem, names[n]),
{
    let rewrite = rewrite_with_id(rewrites, chapters[c].id)->0;
    let original = original_body(chapters[c]);
    let rewritten = rewrite_body(rewrite);
    let index = chapters[c].index;
    lemma_name_is_found(index, original, rewritten, names, n);
    let was = count_matches(original, names[n]);
    let is = count_matches(rewritten, names[n]);
    let issue = name_issue(index, names[n], was, is);
    let a = stereotype_issues(index, original, rewritten, stereotype_phrases());
    let b = neutral_issues(index, original, rewritten, neutral_terms());
    lemma_sum_contains(a + b, name_issues(index, original, rewritten, names), issue);
    lemma_chapter_issue_is_kept(chapters, rewrites, names, c, issue);
    let tail = "”由原文 "@ + decimal(was as int) + " 次减少为 "@ + decimal(is as int) + " 次。"@;
    lemma_holds_inside("未映射人物姓名“"@, names[n], tail);
    assert("未映射人物姓名“"@ + names[n] + tail =~= issue.problem);
    issue
}

/// A rewrite that is the same as the original in a chapter has nothing reported on it by these
/// scans but what it copied.
pub proof fn law_unchanged_chapter_is_not_reported(
    chapter: ChapterView,
    rewrite: ParsedChapterRewriteView,
    names: Seq<Seq<char>>,
)
    requires
        rewrite.title == chapter.title,
        rewrite.text == chapter.original_text,
    ensures
        chapter_overrewrites(chapter, rewrite, names).len() == 0,
{
    let text = original_body(chapter);
    lemma_no_issue_on_the_same(chapter.index, text, stereotype_phrases());
    lemma_no_issue_on_the_same(chapter.index, text, neutral_terms());
    lemma_no_issue_on_the_same(chapter.index, text, names);
}

proof fn lemma_no_issue_on_the_same(index: i64, text: Seq<char>, list: Seq<Seq<char>>)
    ensures
        stereotype_issues(index, text, text, list).len() == 0,
        neutral_issues(index, text, text, list).len() == 0,
        name_issues(index, text, text, list).len() == 0,
    decreases list.len(),
{
    if list.len() > 0 {
        lemma_no_issue_on_the_same(index, text, list.drop_last());
    }
}

// ---- copied text ----------------------------------------------------------------------------
proof fn lemma_positions(
    target_rewrite: Seq<char>,
    source_rewrite: Seq<char>,
    target_original: Seq<char>,
    source_original: Seq<char>,
    n: int,
    k: int,
)
    requires
        0 <= k < n,
        copied_at(target_rewrite, source_rewrite, target_original, source_original, k),
    ensures
        copied_positions(
            target_rewrite,
            source_rewrite,
            target_original,
            source_original,
            n,
        ).contains(k),
    decreases n,
{
    let before = copied_positions(
        target_rewrite,
        source_rewrite,
        target_original,
        source_original,
        n - 1,
    );
    lemma_push_contains(before, n - 1, k);
    if k < n - 1 {
        lemma_positions(
            target_rewrite,
            source_rewrite,
            target_original,
            source_original,
            n - 1,
            k,
        );
    }
}

/// Whether at three places the text of one rewrite runs for a while as its own original does, and
/// another rewrite has the same run though its original has not. Letters and numbers count alone.
pub open spec fn took_text_from(
    chapters: Seq<ChapterView>,
    target: ParsedChapterRewriteView,
    source: ParsedChapterRewriteView,
    a: int,
    b: int,
    c: int,
) -> bool {
    &&& chapter_with_id(chapters, target.id) is Some
    &&& chapter_with_id(chapters, source.id) is Some
    &&& 0 <= a < b < c
    &&& c + 32 <= letters(source.text).len()
    &&& forall|k: int|
        k == a || k == b || k == c ==> ({
            let run = #[trigger] letters(source.text).subrange(k, k + 32);
            &&& holds(letters(chapter_with_id(chapters, source.id)->0.original_text), run)
            &&& holds(letters(target.text), run)
            &&& !holds(letters(chapter_with_id(chapters, target.id)->0.original_text), run)
        })
}

proof fn lemma_three_positions(s: Seq<int>, a: int, b: int, c: int)
    requires
        s.contains(a),
        s.contains(b),
        s.contains(c),
        a < b < c,
    ensures
        s.len() >= 3,
{
    let i = s.index_of(a);
    let j = s.index_of(b);
    let k = s.index_of(c);
    assert(i != j && j != k && i != k);
}

proof fn lemma_copy_is_issue(
    chapters: Seq<ChapterView>,
    target: ParsedChapterRewriteView,
    source: ParsedChapterRewriteView,
    a: int,
    b: int,
    c: int,
)
    requires
        took_text_from(chapters, target, source, a, b, c),
    ensures
        copy_issues(chapters, target, source).len() == 1,
        copy_issues(chapters, target, source)[0].chapter_indexes == seq![
            target.index,
            source.index,
        ],
        copy_issues(chapters, target, source)[0].severity == "blocking"@,
{
    let t = letters(target.text);
    let s = letters(source.text);
    let to = letters(chapter_with_id(chapters, target.id)->0.original_text);
    let so = letters(chapter_with_id(chapters, source.id)->0.original_text);
    let n = s.len() - COPY_WINDOW + 1;
    assert(s.subrange(a, a + 32) == s.subrange(a, a + COPY_WINDOW));
    assert(s.subrange(b, b + 32) == s.subrange(b, b + COPY_WINDOW));
    assert(s.subrange(c, c + 32) == s.subrange(c, c + COPY_WINDOW));
    assert(copied_at(t, s, to, so, a));
    assert(copied_at(t, s, to, so, b));
    assert(copied_at(t, s, to, so, c));
    lemma_positions(t, s, to, so, n as int, a);
    lemma_positions(t, s, to, so, n as int, b);
    lemma_positions(t, s, to, so, n as int, c);
    lemma_three_positions(copied_positions(t, s, to, so, n as int), a, b, c);
}

proof fn lemma_in_row(
    chapters: Seq<ChapterView>,
    rewrites: Seq<ParsedChapterRewriteView>,
    i: int,
    j: int,
    n: int,
    issue: ReviewIssueView,
)
    requires
        0 <= i < j < n,
        copy_issues(chapters, rewrites[i], rewrites[j]).contains(issue) || copy_issues(
            chapters,
            rewrites[j],
            rewrites[i],
        ).contains(issue),
    ensures
        copy_row(chapters, rewrites, i, n).contains(issue),
    decreases n,
{
    let before = copy_row(chapters, rewrites, i, n - 1);
    let x = copy_issues(chapters, rewrites[i], rewrites[n - 1]);
    let y = copy_issues(chapters, rewrites[n - 1], rewrites[i]);
    lemma_sum_contains(before, x, issue);
    lemma_sum_contains(before + x, y, issue);
    if j < n - 1 {
        lemma_in_row(chapters, rewrites, i, j, n - 1, issue);
    }
}

proof fn lemma_in_rows(
    chapters: Seq<ChapterView>,
    rewrites: Seq<ParsedChapterRewriteView>,
    i: int,
    n: int,
    issue: ReviewIssueView,
)
    requires
        0 <= i < n <= rewrites.len(),
        copy_row(chapters, rewrites, i, rewrites.len() as int).contains(issue),
    ensures
        copy_rows(chapters, rewrites, n).contains(issue),
    decreases n,
{
    let before = copy_rows(chapters, rewrites, n - 1);
    lemma_sum_contains(
        before,
        copy_row(chapters, rewrites, n - 1, rewrites.len() as int),
        issue,
    );
    if i < n - 1 {
        lemma_in_rows(chapters, rewrites, i, n - 1, issue);
    }
}

/// Text that one rewrite took from another chapter is reported with both chapters, whichever of
/// the two comes first.
pub proof fn law_copied_text_is_reported(
    chapters: Seq<ChapterView>,
    rewrites: Seq<ParsedChapterRewriteView>,
    names: Seq<Seq<char>>,
    t: int,
    s: int,
    a: int,
    b: int,
    c: int,
) -> (issue: ReviewIssueView)
    requires
        0 <= t < rewrites.len(),
        0 <= s < rewrites.len(),
        t != s,
        took_text_from(chapters, rewrites[t], rewrites[s], a, b, c),
    ensures
        copy_rows(chapters, rewrites, rewrites.len() as int).contains(issue),
        overrewrites(chapters, rewrites, names).contains(issue),
        issue.chapter_indexes == seq![rewrites[t].index, rewrites[s].index],
        issue.severity == "blocking"@,
{
    lemma_copy_is_issue(chapters, rewrites[t], rewrites[s], a, b, c);
    let found = copy_issues(chapters, rewrites[t], rewrites[s]);
    let issue = found[0];
    assert(found.contains(issue));
    let n = rewrites.len() as int;
    if t < s {
        lemma_in_row(chapters, rewrites, t, s, n, issue);
        lemma_in_rows(chapters, rewrites, t, n, issue);
    } else {
        lemma_in_row(chapters, rewrites, s, t, n, issue);
        lemma_in_rows(chapters, rewrites, s, n, issue);
    }
    lemma_sum_contains(
        chapters_overrewrites(chapters, rewrites, names),
        copy_rows(chapters, rewrites, n),
        issue,
    );
    issue
}

/// The letters of a text are those of its parts, without what is neither letter nor number.
pub proof fn law_letters_of_a_text(s: Seq<char>, c: char)
    ensures
        letters(s.push(c)) == if alphanumeric(c) {
            letters(s).push(c)
        } else {
            letters(s)
        },
{
    assert(s.push(c).drop_last() =~= s);
}

// ---- pronouns of groups ---------------------------------------------------------------------
proof fn lemma_group_issue_is_kept(
    chapters: Seq<ChapterView>,
    rewrites: Seq<ParsedChapterRewriteView>,
    c: int,
    f: int,
)
    requires
        0 <= c < chapters.len(),
        f == 0 || f == 1,
        rewrite_with_id(rewrites, chapters[c].id) matches Some(rewrite) && group_changed(
            chapters[c],
            rewrite,
            group_forms()[f],
        ),
    ensures
        group_issues(chapters, rewrites).contains(group_issue(chapters[c], group_forms()[f])),
    decreases chapters.len(),
{
    let rest = chapters.drop_last();
    let before = group_issues(rest, rewrites);
    let issue = group_issue(chapters[c], group_forms()[f]);
    if c < rest.len() {
        lemma_group_issue_is_kept(rest, rewrites, c, f);
    }
    match rewrite_with_id(rewrites, chapters.last().id) {
        Some(rewrite) => {
            let chapter = chapters.last();
            let first = with_group_issue(before, chapter, rewrite, group_forms()[0]);
            lemma_push_contains(before, group_issue(chapter, group_forms()[0]), issue);
            lemma_push_contains(first, group_issue(chapter, group_forms()[1]), issue);
        },
        None => {},
    }
}

proof fn lemma_sentence_is_around(list: Seq<Seq<char>>, i: int, j: int)
    requires
        0 <= i < list.len(),
        0 <= j < list.len(),
        i - 1 <= j <= i + 1,
    ensures
        holds(around(list, i), list[j]),
{
    let from = if i > 0 {
        i - 1
    } else {
        0
    };
    let to = if i + 2 < list.len() {
        i + 2
    } else {
        list.len() as int
    };
    let near = list.subrange(from, to);
    law_joined_text_holds_its_parts(near, ""@, j - from);
    assert(near[j - from] == list[j]);
}

/// Where a sentence of the original speaks of a family, the sentence or one beside it names a man
/// of it, and the rewrite has made the family female, the chapter is reported.
#[verifier::rlimit(60)]
#[verifier::spinoff_prover]
pub proof fn law_family_made_female_is_reported(
    chapters: Seq<ChapterView>,
    rewrites: Seq<ParsedChapterRewriteView>,
    c: int,
    i: int,
    j: int,
    source: Seq<char>,
    target: Seq<char>,
    man: Seq<char>,
) -> (issue: ReviewIssueView)
    requires
        0 <= c < chapters.len(),
        rewrite_with_id(rewrites, chapters[c].id) is Some,
        (source == "他们家"@ && target == "她们家"@) || (source == "他们一家"@ && target == "她们一家"@),
        man == "父亲"@ || man == "父母"@ || man == "爸爸"@ || man == "爸妈"@ || man == "儿子"@ || man
            == "兄弟"@ || man == "哥哥"@ || man == "弟弟"@ || man == "丈夫"@ || man == "爷爷"@ || man
            == "叔叔"@ || man == "伯伯"@,
        0 <= i < sentences(chapters[c].original_text).len(),
        holds(sentences(chapters[c].original_text)[i], source),
        0 <= j < sentences(chapters[c].original_text).len(),
        i - 1 <= j <= i + 1,
        holds(sentences(chapters[c].original_text)[j], man),
        holds(rewrite_body(rewrite_with_id(rewrites, chapters[c].id)->0), target),
    ensures
        group_issues(chapters, rewrites).contains(issue),
        issue.chapter_indexes == seq![chapters[c].index],
        holds(issue.problem, target),
        issue.severity == "blocking"@,
{
    let list = sentences(chapters[c].original_text);
    let words = male_family_words();
    assert(words[0] == "父亲"@ && words[1] == "父母"@ && words[2] == "爸爸"@ && words[3] == "爸妈"@
        && words[4] == "儿子"@ && words[5] == "兄弟"@ && words[6] == "哥哥"@ && words[7] == "弟弟"@
        && words[8] == "丈夫"@ && words[9] == "爷爷"@ && words[10] == "叔叔"@ && words[11] == "伯伯"@);
    let w = choose|w: int| 0 <= w < words.len() && #[trigger] words[w] == man;
    assert(0 <= w < words.len() && words[w] == man);
    lemma_sentence_is_around(list, i, j);
    law_holding_is_transitive(around(list, i), list[j], man);
    assert(holds(around(list, i), words[w]));
    assert(holds_any(around(list, i), words));
    assert(mixed_family(list, source));
    let forms = group_forms();
    let f: int = if source == "他们家"@ && target == "她们家"@ {
        0
    } else {
        1
    };
    assert(forms[f].source == source && forms[f].target == target);
    lemma_group_issue_is_kept(chapters, rewrites, c, f);
    let issue = group_issue(chapters[c], forms[f]);
    let start = "分片索引 "@ + decimal(chapters[c].index as int) + " 把原文混合性别家庭称呼“"@ + source
        + "”误改为“"@;
    lemma_holds_inside(start, target, "”。"@);
    assert(start + target + "”。"@ =~= issue.problem);
    issue
}

/// A family without a word for a man around it is left alone: nothing is reported where no
/// sentence of the original that has the form, nor one beside it, names a man.
pub proof fn law_female_family_is_left_alone(
    chapter: ChapterView,
    rewrite: ParsedChapterRewriteView,
    form: GroupForm,
)
    requires
        forall|i: int|
            0 <= i < sentences(chapter.original_text).len() && holds(
                #[trigger] sentences(chapter.original_text)[i],
                form.source,
            ) ==> !holds_any(around(sentences(chapter.original_text), i), male_family_words()),
    ensures
        !group_changed(chapter, rewrite, form),
{
}

// ---- the last word on a review --------------------------------------------------------------
proof fn lemma_said_again(
    known: Seq<ReviewIssueView>,
    found: Seq<ReviewIssueView>,
    i: int,
) -> (k: int)
    requires
        0 <= i < found.len(),
    ensures
        0 <= k < (known + new_issues(known, found)).len(),
        issue_line((known + new_issues(known, found))[k]) == issue_line(found[i]),
    decreases found.len(),
{
    let before = new_issues(known, found.drop_last());
    let all = known + new_issues(known, found);
    if i < found.len() - 1 {
        let k = lemma_said_again(known, found.drop_last(), i);
        assert(all[k] == (known + before)[k]);
        k
    } else {
        let lines = issue_lines_of(known + before);
        if lines.contains(issue_line(found.last())) {
            let k = lines.index_of(issue_line(found.last()));
            assert(lines[k] == issue_line((known + before)[k]));
            k
        } else {
            (known + before).len() as int
        }
    }
}

/// Whatever a scan finds is said in the end, in the same words, unless it had been said before:
/// in either case the review does not approve.
pub proof fn law_found_issue_is_said(
    left: Seq<ReviewIssueView>,
    chapters: Seq<ChapterView>,
    rewrites: Seq<ParsedChapterRewriteView>,
    settings: NovelSettingsView,
    names: Option<Seq<Seq<char>>>,
    i: int,
) -> (k: int)
    requires
        0 <= i < scan_issues(chapters, rewrites, settings).len(),
    ensures
        0 <= k < (left + scanned(left, chapters, rewrites, settings, names)).len(),
        issue_line((left + scanned(left, chapters, rewrites, settings, names))[k]) == issue_line(
            scan_issues(chapters, rewrites, settings)[i],
        ),
{
    let found = scan_issues(chapters, rewrites, settings);
    let first = new_issues(left, found);
    let k = lemma_said_again(left, found, i);
    let all = left + scanned(left, chapters, rewrites, settings, names);
    assert(all[k] == (left + first)[k]);
    k
}

/// The same of what went too far, where that is looked for.
pub proof fn law_overrewrite_is_said(
    left: Seq<ReviewIssueView>,
    chapters: Seq<ChapterView>,
    rewrites: Seq<ParsedChapterRewriteView>,
    settings: NovelSettingsView,
    names: Seq<Seq<char>>,
    i: int,
) -> (k: int)
    requires
        0 <= i < overrewrites(chapters, rewrites, names).len(),
    ensures
        0 <= k < (left + scanned(left, chapters, rewrites, settings, Some(names))).len(),
        issue_line((left + scanned(left, chapters, rewrites, settings, Some(names)))[k])
            == issue_line(overrewrites(chapters, rewrites, names)[i]),
{
    let first = new_issues(left, scan_issues(chapters, rewrites, settings));
    let found = overrewrites(chapters, rewrites, names);
    let k = lemma_said_again(left + first, found, i);
    assert(left + first + new_issues(left + first, found) =~= left + scanned(
        left,
        chapters,
        rewrites,
        settings,
        Some(names),
    ));
    k
}

/// A rewrite that is approved in the end has no form of an old name left in any chapter, and every
/// issue that the review had was refuted.
pub proof fn law_approved_rewrite_is_clean(
    issues: Seq<ReviewIssueView>,
    chapters: Seq<ChapterView>,
    rewrites: Seq<ParsedChapterRewriteView>,
    settings: NovelSettingsView,
    notes: AuthorNotesView,
    names: Option<Seq<Seq<char>>>,
)
    requires
        ({
            let left = standing(issues, chapters, rewrites, settings, notes);
            (left + scanned(left, chapters, rewrites, settings, names)).len() == 0
        }),
    ensures
        forall|c: int, x: Seq<char>|
            0 <= c < chapters.len() && rewrite_with_id(rewrites, chapters[c].id) is Some
                ==> !#[trigger] form_was_left(
                chapters[c],
                rewrite_with_id(rewrites, chapters[c].id)->0,
                settings,
                x,
            ),
        residue_issues(chapters, rewrites, settings).len() == 0,
        name_logic_issues(chapters, rewrites, settings).len() == 0,
        group_issues(chapters, rewrites).len() == 0,
        names matches Some(n) ==> overrewrites(chapters, rewrites, n).len() == 0,
        forall|i: int|
            0 <= i < issues.len() ==> refuted(
                #[trigger] issues[i],
                chapters,
                rewrites,
                settings,
                notes,
            ),
{
    let left = standing(issues, chapters, rewrites, settings, notes);
    let found = scan_issues(chapters, rewrites, settings);
    if found.len() > 0 {
        let k = law_found_issue_is_said(left, chapters, rewrites, settings, names, 0);
    }
    assert(found.len() == residue_issues(chapters, rewrites, settings).len() + name_logic_issues(
        chapters,
        rewrites,
        settings,
    ).len() + group_issues(chapters, rewrites).len());
    if let Some(n) = names {
        if overrewrites(chapters, rewrites, n).len() > 0 {
            let k = law_overrewrite_is_said(left, chapters, rewrites, settings, n, 0);
        }
    }
    assert forall|c: int, x: Seq<char>|
        0 <= c < chapters.len() && rewrite_with_id(rewrites, chapters[c].id) is Some implies !(
    #[trigger] form_was_left(
        chapters[c],
        rewrite_with_id(rewrites, chapters[c].id)->0,
        settings,
        x,
    )) by {
        if form_was_left(
            chapters[c],
            rewrite_with_id(rewrites, chapters[c].id)->0,
            settings,
            x,
        ) {
            let k = law_left_name_is_reported(chapters, rewrites, settings, c, x);
        }
    }
    assert forall|i: int| 0 <= i < issues.len() implies refuted(
        #[trigger] issues[i],
        chapters,
        rewrites,
        settings,
        notes,
    ) by {
        if !refuted(issues[i], chapters, rewrites, settings, notes) {
            lemma_filtered_holds(issues, stands(chapters, rewrites, settings, notes), i);
        }
    }
}

proof fn lemma_filtered_holds(
    s: Seq<ReviewIssueView>,
    keep: spec_fn(ReviewIssueView) -> bool,
    i: int,
)
    requires
        0 <= i < s.len(),
        keep(s[i]),
    ensures
        s.filter(keep).len() > 0,
    decreases s.len(),
{
    reveal(Seq::filter);
    if i < s.len() - 1 {
        lemma_filtered_holds(s.drop_last(), keep, i);
    }
}

// ---- nothing is reported without a reason ---------------------------------------------------
/// A chapter in which every such word and name stands at least as often as before, and which has no
/// such phrase of its own, has nothing reported on it.
pub proof fn law_careful_chapter_is_not_reported(
    chapter: ChapterView,
    rewrite: ParsedChapterRewriteView,
    names: Seq<Seq<char>>,
)
    requires
        forall|i: int|
            0 <= i < stereotype_phrases().len() ==> holds(
                rewrite_body(rewrite),
                #[trigger] stereotype_phrases()[i],
            ) ==> holds(original_body(chapter), stereotype_phrases()[i]),
        forall|i: int|
            0 <= i < neutral_terms().len() ==> count_matches(
                rewrite_body(rewrite),
                #[trigger] neutral_terms()[i],
            ) >= count_matches(original_body(chapter), neutral_terms()[i]),
        forall|i: int|
            0 <= i < names.len() ==> count_matches(rewrite_body(rewrite), #[trigger] names[i])
                >= count_matches(original_body(chapter), names[i]),
    ensures
        chapter_overrewrites(chapter, rewrite, names).len() == 0,
{
    let a = original_body(chapter);
    let b = rewrite_body(rewrite);
    lemma_no_phrase(chapter.index, a, b, stereotype_phrases());
    lemma_no_term(chapter.index, a, b, neutral_terms());
    lemma_no_name(chapter.index, a, b, names);
}

proof fn lemma_no_phrase(index: i64, a: Seq<char>, b: Seq<char>, list: Seq<Seq<char>>)
    requires
        forall|i: int| 0 <= i < list.len() ==> holds(b, #[trigger] list[i]) ==> holds(a, list[i]),
    ensures
        stereotype_issues(index, a, b, list).len() == 0,
    decreases list.len(),
{
    if list.len() > 0 {
        let rest = list.drop_last();
        assert forall|i: int| 0 <= i < rest.len() && holds(b, #[trigger] rest[i]) implies holds(
            a,
            rest[i],
        ) by {
            assert(rest[i] == list[i]);
        }
        lemma_no_phrase(index, a, b, rest);
        assert(holds(b, list[list.len() - 1]) ==> holds(a, list[list.len() - 1]));
    }
}

proof fn lemma_no_term(index: i64, a: Seq<char>, b: Seq<char>, list: Seq<Seq<char>>)
    requires
        forall|i: int|
            0 <= i < list.len() ==> count_matches(b, #[trigger] list[i]) >= count_matches(
                a,
                list[i],
            ),
    ensures
        neutral_issues(index, a, b, list).len() == 0,
    decreases list.len(),
{
    if list.len() > 0 {
        let rest = list.drop_last();
        assert forall|i: int| 0 <= i < rest.len() implies count_matches(b, #[trigger] rest[i])
            >= count_matches(a, rest[i]) by {
            assert(rest[i] == list[i]);
        }
        lemma_no_term(index, a, b, rest);
        assert(count_matches(b, list[list.len() - 1]) >= count_matches(a, list[list.len() - 1]));
    }
}

proof fn lemma_no_name(index: i64, a: Seq<char>, b: Seq<char>, list: Seq<Seq<char>>)
    requires
        forall|i: int|
            0 <= i < list.len() ==> count_matches(b, #[trigger] list[i]) >= count_matches(
                a,
                list[i],
            ),
    ensures
        name_issues(index, a, b, list).len() == 0,
    decreases list.len(),
{
    if list.len() > 0 {
        let rest = list.drop_last();
        assert forall|i: int| 0 <= i < rest.len() implies count_matches(b, #[trigger] rest[i])
            >= count_matches(a, rest[i]) by {
            assert(rest[i] == list[i]);
        }
        lemma_no_name(index, a, b, rest);
        assert(count_matches(b, list[list.len() - 1]) >= count_matches(a, list[list.len() - 1]));
    }
}

/// Chapters whose rewrites share nothing that the original of the one lacks are not reported as
/// copied.
pub proof fn law_own_text_is_not_copied(
    chapters: Seq<ChapterView>,
    target: ParsedChapterRewriteView,
    source: ParsedChapterRewriteView,
)
    requires
        chapter_with_id(chapters, target.id) matches Some(t) ==> forall|k: int|
            0 <= k && k + 32 <= letters(source.text).len() && holds(
                letters(target.text),
                #[trigger] letters(source.text).subrange(k, k + 32),
            ) ==> holds(
                letters(chapter_with_id(chapters, target.id)->0.original_text),
                letters(source.text).subrange(k, k + 32),
            ),
    ensures
        copy_issues(chapters, target, source).len() == 0,
{
    if let Some(t) = chapter_with_id(chapters, target.id) {
        if let Some(s) = chapter_with_id(chapters, source.id) {
            let a = letters(target.text);
            let b = letters(source.text);
            let c = letters(t.original_text);
            let d = letters(s.original_text);
            let n = b.len() - COPY_WINDOW + 1;
            assert forall|k: int| 0 <= k < n implies !(#[trigger] copied_at(a, b, c, d, k)) by {
                let piece = b.subrange(k, k + 32);
                assert(piece == b.subrange(k, k + COPY_WINDOW));
                if holds(a, piece) {
                    assert(holds(c, piece));
                }
            }
            lemma_no_positions(a, b, c, d, n as int);
        }
    }
}

proof fn lemma_no_positions(
    a: Seq<char>,
    b: Seq<char>,
    c: Seq<char>,
    d: Seq<char>,
    n: int,
)
    requires
        forall|k: int| 0 <= k < n ==> !(#[trigger] copied_at(a, b, c, d, k)),
    ensures
        copied_positions(a, b, c, d, n).len() == 0,
    decreases n,
{
    if n > 0 {
        lemma_no_positions(a, b, c, d, n - 1);
        assert(!copied_at(a, b, c, d, n - 1));
    }
}

// ---- names that have to stay ----------------------------------------------------------------
proof fn lemma_item_names(items: Seq<JsonView>, excluded: Seq<Seq<char>>, x: Seq<char>)
    ensures
        item_names(items, excluded).contains(x) <==> plausible_name(x) && !excluded.contains(x)
            && exists|i: int| 0 <= i < items.len() && item_name(#[trigger] items[i]) == x,
    decreases items.len(),
{
    if items.len() > 0 {
        let rest = items.drop_last();
        lemma_item_names(rest, excluded, x);
        lemma_push_contains(item_names(rest, excluded), item_name(items.last()), x);
        if exists|i: int| 0 <= i < rest.len() && item_name(#[trigger] rest[i]) == x {
            let i = choose|i: int| 0 <= i < rest.len() && item_name(#[trigger] rest[i]) == x;
            assert(item_name(items[i]) == x);
        }
        if item_name(items.last()) == x {
            assert(item_name(items[items.len() - 1]) == x);
        }
        if exists|i: int| 0 <= i < items.len() && item_name(#[trigger] items[i]) == x {
            let i = choose|i: int| 0 <= i < items.len() && item_name(#[trigger] items[i]) == x;
            if i < rest.len() {
                assert(item_name(rest[i]) == x);
            }
        }
    } else {
        assert(!item_names(items, excluded).contains(x));
    }
}

proof fn lemma_known_names(
    chapters: Seq<ChapterView>,
    excluded: Seq<Seq<char>>,
    c: int,
    x: Seq<char>,
)
    requires
        0 <= c < chapters.len(),
        chapters[c].analysis_json is Some,
        json_read(chapters[c].analysis_json->0) matches Ok(value) && analysis_names(
            value,
            excluded,
        ).contains(x),
    ensures
        known_names(chapters, excluded).contains(x),
    decreases chapters.len(),
{
    let rest = chapters.drop_last();
    let before = known_names(rest, excluded);
    if c < rest.len() {
        lemma_known_names(rest, excluded, c, x);
    }
    if let Some(text) = chapters.last().analysis_json {
        if let Ok(value) = json_read(text) {
            lemma_sum_contains(before, analysis_names(value, excluded), x);
        }
    }
}

/// A person that the analysis of any chapter names, among its characters or its names, has to keep
/// the name, unless the name is changed on purpose.
pub proof fn law_known_person_keeps_the_name(
    chapters: Seq<ChapterView>,
    settings: NovelSettingsView,
    c: int,
    value: JsonView,
    items: Seq<JsonView>,
    i: int,
)
    requires
        0 <= c < chapters.len(),
        chapters[c].analysis_json is Some,
        json_read(chapters[c].analysis_json->0) == Ok::<JsonView, Seq<char>>(value),
        list_field(value, "characters"@) == Some(items) || list_field(value, "names"@) == Some(
            items,
        ),
        0 <= i < items.len(),
        plausible_name(item_name(items[i])),
        !changed_names(settings).contains(item_name(items[i])),
    ensures
        protected_names(chapters, settings).contains(item_name(items[i])),
{
    let x = item_name(items[i]);
    let excluded = changed_names(settings);
    lemma_item_names(items, excluded, x);
    lemma_sum_contains(
        field_names(value, "characters"@, excluded),
        field_names(value, "names"@, excluded),
        x,
    );
    lemma_known_names(chapters, excluded, c, x);
    law_sorted_texts_are_distinct(known_names(chapters, excluded), false);
}

proof fn lemma_known_is_plausible(
    chapters: Seq<ChapterView>,
    excluded: Seq<Seq<char>>,
    x: Seq<char>,
)
    requires
        known_names(chapters, excluded).contains(x),
    ensures
        plausible_name(x),
        !excluded.contains(x),
    decreases chapters.len(),
{
    if chapters.len() > 0 {
        let rest = chapters.drop_last();
        let before = known_names(rest, excluded);
        if before.contains(x) {
            lemma_known_is_plausible(rest, excluded, x);
        } else if let Some(text) = chapters.last().analysis_json {
            if let Ok(value) = json_read(text) {
                lemma_sum_contains(before, analysis_names(value, excluded), x);
                lemma_sum_contains(
                    field_names(value, "characters"@, excluded),
                    field_names(value, "names"@, excluded),
                    x,
                );
                if let Some(items) = list_field(value, "characters"@) {
                    lemma_item_names(items, excluded, x);
                }
                if let Some(items) = list_field(value, "names"@) {
                    lemma_item_names(items, excluded, x);
                }
            }
        }
    } else {
        assert(!known_names(chapters, excluded).contains(x));
    }
}

/// No name that is changed on purpose has to stay: not the protagonist's, old or new.
pub proof fn law_changed_name_need_not_stay(
    chapters: Seq<ChapterView>,
    settings: NovelSettingsView,
    x: Seq<char>,
)
    requires
        protected_names(chapters, settings).contains(x),
    ensures
        !source_names(settings).contains(x),
        trim(settings.rewritten_protagonist_name).len() > 0 ==> x != trim(
            settings.rewritten_protagonist_name,
        ),
        2 <= x.len() <= 16,
{
    let excluded = changed_names(settings);
    law_sorted_texts_are_distinct(known_names(chapters, excluded), false);
    lemma_known_is_plausible(chapters, excluded, x);
    let rows = lines(normal_form(settings.additional_feminize_names));
    let a = source_names(settings);
    let b = if trim(settings.rewritten_protagonist_name).len() > 0 {
        seq![trim(settings.rewritten_protagonist_name)]
    } else {
        Seq::empty()
    };
    lemma_sum_contains(a, b, x);
    lemma_sum_contains(a + b, mapping_names(line_mappings(rows)), x);
    lemma_sum_contains(a + b + mapping_names(line_mappings(rows)), line_sources(rows), x);
    if trim(settings.rewritten_protagonist_name).len() > 0 && x == trim(
        settings.rewritten_protagonist_name,
    ) {
        assert(b[0] == x);
    }
}

// ---- what is looked through -----------------------------------------------------------------
/// A chapter is looked through with its title.
pub proof fn law_titles_are_looked_through(
    chapter: ChapterView,
    rewrite: ParsedChapterRewriteView,
)
    ensures
        holds(original_body(chapter), chapter.title),
        holds(original_body(chapter), chapter.original_text),
        holds(rewrite_body(rewrite), rewrite.title),
        holds(rewrite_body(rewrite), rewrite.text),
{
    lemma_holds_start(chapter.title, "\n"@);
    lemma_holds_more(chapter.title + "\n"@, chapter.original_text, chapter.title);
    lemma_holds_end(chapter.title + "\n"@, chapter.original_text);
    lemma_holds_start(rewrite.title, "\n"@);
    lemma_holds_more(rewrite.title + "\n"@, rewrite.text, rewrite.title);
    lemma_holds_end(rewrite.title + "\n"@, rewrite.text);
}

/// The original of a rewrite is the last chapter with its id.
pub proof fn law_chapter_of_a_rewrite(chapters: Seq<ChapterView>, i: int)
    requires
        0 <= i < chapters.len(),
        forall|j: int| i < j < chapters.len() ==> (#[trigger] chapters[j]).id != chapters[i].id,
    ensures
        chapter_with_id(chapters, chapters[i].id) == Some(chapters[i]),
    decreases chapters.len(),
{
    if i < chapters.len() - 1 {
        let rest = chapters.drop_last();
        assert(chapters[chapters.len() - 1].id != chapters[i].id);
        assert forall|j: int| i < j < rest.len() implies (#[trigger] rest[j]).id != rest[i].id by {
            assert(rest[j] == chapters[j]);
        }
        law_chapter_of_a_rewrite(rest, i);
    }
}

/// The parts of an old name are the name, what stands behind its first character, and its last
/// character.
pub proof fn law_parts_of_an_old_name(source: Seq<char>, x: Seq<char>)
    requires
        trim(source).len() > 1,
    ensures
        legacy_parts(source).contains(x) <==> x == trim(source) || x == trim(source).skip(1) || x
            == seq![trim(source).last()],
{
    let name = trim(source);
    let list = seq![name, name.skip(1), seq![name.last()]];
    assert(list.len() == 3);
    assert(list[0] == name && list[1] == name.skip(1) && list[2] == seq![name.last()]);
    law_sorted_texts_are_distinct(list, true);
}

/// A sentence explains a name by a part of the old one where it says that the name is or has the
/// part.
pub proof fn law_naming_by_the_old_name(sentence: Seq<char>, part: Seq<char>)
    requires
        part.len() > 0,
        holds(sentence, "以"@ + part + "为名"@) || holds(sentence, "以“"@ + part + "”为名"@) || holds(
            sentence,
            "以‘"@ + part + "’为名"@,
        ) || holds(sentence, part + "为名"@) || holds(sentence, "名中带"@ + part) || holds(
            sentence,
            "名字里有"@ + part,
        ) || holds(sentence, "名字中有"@ + part) || holds(sentence, "名里有"@ + part) || holds(
            sentence,
            "名叫"@ + part,
        ),
    ensures
        explains_by(sentence, part),
{
    let list = naming_phrases(part);
    assert(list[0] == "以"@ + part + "为名"@);
    assert(list[1] == "以“"@ + part + "”为名"@);
    assert(list[2] == "以‘"@ + part + "’为名"@);
    assert(list[3] == part + "为名"@);
    assert(list[4] == "名中带"@ + part);
    assert(list[5] == "名字里有"@ + part);
    assert(list[6] == "名字中有"@ + part);
    assert(list[7] == "名里有"@ + part);
    assert(list[8] == "名叫"@ + part);
}

/// A sentence that has nothing of the old name does not explain a name by it.
pub proof fn law_sentence_without_the_part(sentence: Seq<char>, part: Seq<char>)
    requires
        !holds(sentence, part),
    ensures
        !explains_by(sentence, part),
{
    let list = naming_phrases(part);
    assert forall|k: int| 0 <= k < list.len() implies !holds(sentence, #[trigger] list[k]) by {
        assert(list.len() == 9);
        assert(holds(list[k], part)) by {
            if k == 0 {
                lemma_holds_inside("以"@, part, "为名"@);
            } else if k == 1 {
                lemma_holds_inside("以“"@, part, "”为名"@);
            } else if k == 2 {
                lemma_holds_inside("以‘"@, part, "’为名"@);
            } else if k == 3 {
                lemma_holds_start(part, "为名"@);
            } else if k == 4 {
                lemma_holds_end("名中带"@, part);
            } else if k == 5 {
                lemma_holds_end("名字里有"@, part);
            } else if k == 6 {
                lemma_holds_end("名字中有"@, part);
            } else if k == 7 {
                lemma_holds_end("名里有"@, part);
            } else {
                lemma_holds_end("名叫"@, part);
            }
        }
        if holds(sentence, list[k]) {
            law_holding_is_transitive(sentence, list[k], part);
        }
    }
}

// ---- putting right --------------------------------------------------------------------------
/// A form is put right only where there is no doubt: where it stands once in the original and once
/// in the rewrite, and the original speaks of men of the family.
pub proof fn law_doubtful_form_stays(chapter: ChapterView, text: Seq<char>, form: GroupForm)
    requires
        count_matches(chapter.original_text, form.source) != 1 || count_matches(text, form.target)
            != 1 || !mixed_family(sentences(chapter.original_text), form.source),
    ensures
        corrected_form(chapter, text, form) == text,
{
}

/// Where there is no doubt the form of the original comes back in its place.
pub proof fn law_clear_form_is_put_right(
    chapter: ChapterView,
    before: Seq<char>,
    behind: Seq<char>,
    form: GroupForm,
)
    requires
        form.target.len() > 0,
        count_matches(chapter.original_text, form.source) == 1,
        count_matches(before + form.target + behind, form.target) == 1,
        mixed_family(sentences(chapter.original_text), form.source),
        forall|j: int|
            0 <= j < before.len() ==> !#[trigger] matches_at(
                before + form.target + behind,
                form.target,
                j,
            ),
        !holds(behind, form.target),
    ensures
        corrected_form(chapter, before + form.target + behind, form) == before + form.source
            + behind,
{
    law_replacing_the_first_match(before, form.target, behind, form.source);
    law_replacing_nothing(behind, form.target, form.source);
}

/// Each rewrite that is put right counts with its own corrections.
pub proof fn law_corrections_are_counted(
    chapters: Seq<ChapterView>,
    rewrites: Seq<ParsedChapterRewriteView>,
    rewrite: ParsedChapterRewriteView,
)
    ensures
        total_corrections(chapters, rewrites.push(rewrite)) == total_corrections(chapters, rewrites)
            + correction_count(chapters, rewrite),
{
    assert(rewrites.push(rewrite).drop_last() =~= rewrites);
}

/// Each of the two forms is put right on its own.
pub proof fn law_each_form_is_put_right(
    chapters: Seq<ChapterView>,
    rewrite: ParsedChapterRewriteView,
    chapter: ChapterView,
)
    requires
        chapter_with_id(chapters, rewrite.id) == Some(chapter),
    ensures
        !correctable(chapter, rewrite.text, GroupForm { source: "他们家"@, target: "她们家"@ })
            ==> corrected(chapters, rewrite).text == corrected_form(
            chapter,
            rewrite.text,
            GroupForm { source: "他们一家"@, target: "她们一家"@ },
        ) && correction_count(chapters, rewrite) == (if correctable(
            chapter,
            rewrite.text,
            GroupForm { source: "他们一家"@, target: "她们一家"@ },
        ) {
            1nat
        } else {
            0nat
        }),
        corrected(chapters, rewrite).text == rewrite.text ==> corrected(chapters, rewrite)
            == rewrite,
{
}

/// What the scans report of a chapter can be met in the chapter; text that was taken over from
/// another one cannot.
pub proof fn law_reach_of_what_is_reported(
    chapter: ChapterView,
    index: i64,
    other: i64,
    left: Seq<Seq<char>>,
    sources: Seq<Seq<char>>,
    settings: NovelSettingsView,
    form: GroupForm,
    text: Seq<char>,
    was: nat,
    is: nat,
)
    ensures
        residue_issue(chapter, left, sources).scope == "chapter"@,
        name_logic_issue(chapter, left, settings).scope == "chapter"@,
        group_issue(chapter, form).scope == "chapter"@,
        stereotype_issue(index, text).scope == "chapter"@,
        neutral_issue(index, text, was, is).scope == "chapter"@,
        name_issue(index, text, was, is).scope == "chapter"@,
        copy_issue(index, other, text).scope == "cross_chapter"@,
{
}

/// Text that was taken over from another chapter sends the whole shard back.
pub proof fn law_copied_text_revises_the_shard(
    shard: Seq<i64>,
    issues: Seq<ReviewIssueView>,
    i: int,
    target: i64,
    source: i64,
    example: Seq<char>,
)
    requires
        0 <= i < issues.len(),
        issues[i] == copy_issue(target, source, example),
    ensures
        revision_plan(shard, issues) is Full,
{
    reveal_strlit("cross_chapter");
    reveal_strlit("chapter");
    assert(ascii_lowered("cross_chapter"@).len() == 13 && "chapter"@.len() == 7);
    law_wide_issue_revises_the_shard(shard, issues, i);
}

/// What can be the name of a person: two to sixteen letters or numbers, with middle dots.
pub proof fn law_what_can_be_a_name(s: Seq<char>)
    ensures
        plausible_name(s) <==> s.len() >= 2 && s.len() <= 16 && forall|i: int|
            0 <= i < s.len() ==> alphanumeric(#[trigger] s[i]) || s[i] == '·' || s[i] == '・',
{
}

} // verus!
