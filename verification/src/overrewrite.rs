//! Changes that go too far: labels of gender that the original does not have, neutral words and
//! names of others that are gone, and text that comes from another chapter.
use vstd::prelude::*;
use vstd::slice::slice_subrange;
use crate::domain::{
    opt_text, Chapter, ChapterView, NameMappingEntryView, NovelSettings, NovelSettingsView,
    ParsedChapterRewrite, ParsedChapterRewriteView, ReviewIssue, ReviewIssueView,
};
use crate::json::{json_read, list_field, read_json, text_field, Json, JsonView};
use crate::names::{
    additional_feminize_name_mappings, additional_feminize_name_sources, line_mappings,
    line_sources, normal_form,
};
use crate::order::{sort_distinct, sort_distinct_texts, strings_of};
use crate::residue::{
    chapter_issue, chapter_with_id, find_chapter, find_rewrite, make_chapter_issue, original_body,
    original_body_of, rewrite_with_id,
};
use crate::review_filter::{body_of, protagonist_source_names, rewrite_body, source_names};
use crate::text::{
    alphanumeric, chars_have, chars_of, copy_chars, count_chars, count_matches, decimal, holds,
    holds_char, holds_text, i64_text, lemma_views_push, lines, split_chars, split_on, string_of,
    trim, trim_chars, trimmed, usize_text, views,
};

verus! {

// ---- labels and neutral words ---------------------------------------------------------------
/// Phrases that explain a person by being a woman.
pub open spec fn stereotype_phrases() -> Seq<Seq<char>> {
    seq![
        "身为女性"@,
        "身为女人"@,
        "身为女子"@,
        "我一个女人"@,
        "我一个女性"@,
        "同为女子"@,
        "同为女人"@,
        "枉为女性"@,
        "枉为女人"@,
        "女性特有"@,
        "女人特有"@,
        "女孩子半条命"@,
        "母性本能"@,
        "女人就该"@,
    ]
}

/// Words that fit a person of any gender and have no reason to go.
pub open spec fn neutral_terms() -> Seq<Seq<char>> {
    seq![
        "偶像"@,
        "榜样"@,
        "英雄"@,
        "巨人"@,
        "巨兽"@,
        "强者"@,
        "造物主"@,
        "学生"@,
        "同伴"@,
        "朋友"@,
        "管理员"@,
        "师父"@,
        "前辈"@,
        "对手"@,
        "敌人"@,
        "主人"@,
        "孩子"@,
        "家伙"@,
        "单身狗"@,
    ]
}

fn stereotype_list() -> (r: Vec<&'static str>)
    ensures
        views(r@) == stereotype_phrases(),
{
    let list = vec![
        "身为女性",
        "身为女人",
        "身为女子",
        "我一个女人",
        "我一个女性",
        "同为女子",
        "同为女人",
        "枉为女性",
        "枉为女人",
        "女性特有",
        "女人特有",
        "女孩子半条命",
        "母性本能",
        "女人就该",
    ];
    proof {
        assert(views(list@) =~= stereotype_phrases());
    }
    list
}

fn neutral_list() -> (r: Vec<&'static str>)
    ensures
        views(r@) == neutral_terms(),
{
    let list = vec![
        "偶像",
        "榜样",
        "英雄",
        "巨人",
        "巨兽",
        "强者",
        "造物主",
        "学生",
        "同伴",
        "朋友",
        "管理员",
        "师父",
        "前辈",
        "对手",
        "敌人",
        "主人",
        "孩子",
        "家伙",
        "单身狗",
    ];
    proof {
        assert(views(list@) =~= neutral_terms());
    }
    list
}

pub open spec fn stereotype_issue(index: i64, phrase: Seq<char>) -> ReviewIssueView {
    chapter_issue(
        index,
        "stereotype"@,
        "改写稿凭空加入刻意性别标签“"@ + phrase + "”。"@,
        "删除性别标签并恢复人物原有动机；外貌可按场景自然描写。"@,
    )
}

/// The issues about phrases that only the rewrite has.
pub open spec fn stereotype_issues(
    index: i64,
    original: Seq<char>,
    rewritten: Seq<char>,
    phrases: Seq<Seq<char>>,
) -> Seq<ReviewIssueView>
    decreases phrases.len(),
{
    if phrases.len() == 0 {
        Seq::empty()
    } else {
        let before = stereotype_issues(index, original, rewritten, phrases.drop_last());
        if !holds(original, phrases.last()) && holds(rewritten, phrases.last()) {
            before.push(stereotype_issue(index, phrases.last()))
        } else {
            before
        }
    }
}

pub open spec fn neutral_issue(index: i64, term: Seq<char>, was: nat, is: nat) -> ReviewIssueView {
    chapter_issue(
        index,
        "neutral_term"@,
        "中性词“"@ + term + "”由原文 "@ + decimal(was as int) + " 次减少为 "@ + decimal(is as int) + " 次。"@,
        "恢复中性词“"@ + term + "”，不得仅因主角性转而女性化。"@,
    )
}

/// The issues about neutral words that stand less often in the rewrite.
pub open spec fn neutral_issues(
    index: i64,
    original: Seq<char>,
    rewritten: Seq<char>,
    terms: Seq<Seq<char>>,
) -> Seq<ReviewIssueView>
    decreases terms.len(),
{
    if terms.len() == 0 {
        Seq::empty()
    } else {
        let before = neutral_issues(index, original, rewritten, terms.drop_last());
        let was = count_matches(original, terms.last());
        let is = count_matches(rewritten, terms.last());
        if was > is {
            before.push(neutral_issue(index, terms.last(), was, is))
        } else {
            before
        }
    }
}

pub open spec fn name_issue(index: i64, name: Seq<char>, was: nat, is: nat) -> ReviewIssueView {
    chapter_issue(
        index,
        "entity_name"@,
        "未映射人物姓名“"@ + name + "”由原文 "@ + decimal(was as int) + " 次减少为 "@ + decimal(is as int)
            + " 次。"@,
        "逐字恢复人物姓名“"@ + name + "”，不得改名或用代词替代。"@,
    )
}

/// The issues about names of others that stand less often in the rewrite.
pub open spec fn name_issues(
    index: i64,
    original: Seq<char>,
    rewritten: Seq<char>,
    names: Seq<Seq<char>>,
) -> Seq<ReviewIssueView>
    decreases names.len(),
{
    if names.len() == 0 {
        Seq::empty()
    } else {
        let before = name_issues(index, original, rewritten, names.drop_last());
        let was = count_matches(original, names.last());
        let is = count_matches(rewritten, names.last());
        if was > is {
            before.push(name_issue(index, names.last(), was, is))
        } else {
            before
        }
    }
}

fn add_stereotype_issues(out: &mut Vec<ReviewIssue>, index: i64, original: &[char], rewritten: &[char])
    ensures
        views(final(out)@) == views(old(out)@) + stereotype_issues(
            index,
            original@,
            rewritten@,
            stereotype_phrases(),
        ),
{
    let list = stereotype_list();
    let ghost all = views(list@);
    let ghost start = views(out@);
    let mut i: usize = 0;
    proof {
        assert(start + stereotype_issues(index, original@, rewritten@, all.take(0)) =~= start);
    }
    while i < list.len()
        invariant
            i <= list@.len(),
            all == views(list@),
            views(out@) == start + stereotype_issues(
                index,
                original@,
                rewritten@,
                all.take(i as int),
            ),
        decreases list@.len() - i,
    {
        let phrase = chars_of(list[i]);
        proof {
            assert(all.take(i + 1).drop_last() =~= all.take(i as int));
            assert(all.take(i + 1).last() == phrase@);
        }
        if !chars_have(original, phrase.as_slice()) && chars_have(rewritten, phrase.as_slice()) {
            let mut problem = "改写稿凭空加入刻意性别标签“".to_string();
            problem.append(list[i]);
            problem.append("”。");
            let issue = make_chapter_issue(
                index,
                "stereotype",
                problem,
                "删除性别标签并恢复人物原有动机；外貌可按场景自然描写。".to_string(),
            );
            let ghost before = out@;
            out.push(issue);
            proof {
                lemma_views_push(before, out@.last());
                assert(views(out@) =~= start + stereotype_issues(
                    index,
                    original@,
                    rewritten@,
                    all.take(i + 1),
                ));
            }
        }
        i += 1;
    }
    proof {
        assert(all.take(i as int) =~= all);
    }
}

fn add_neutral_issues(out: &mut Vec<ReviewIssue>, index: i64, original: &[char], rewritten: &[char])
    ensures
        views(final(out)@) == views(old(out)@) + neutral_issues(
            index,
            original@,
            rewritten@,
            neutral_terms(),
        ),
{
    let list = neutral_list();
    let ghost all = views(list@);
    let ghost start = views(out@);
    let mut i: usize = 0;
    proof {
        assert(start + neutral_issues(index, original@, rewritten@, all.take(0)) =~= start);
    }
    while i < list.len()
        invariant
            i <= list@.len(),
            all == views(list@),
            views(out@) == start + neutral_issues(
                index,
                original@,
                rewritten@,
                all.take(i as int),
            ),
        decreases list@.len() - i,
    {
        let term = chars_of(list[i]);
        proof {
            assert(all.take(i + 1).drop_last() =~= all.take(i as int));
            assert(all.take(i + 1).last() == term@);
        }
        let was = count_chars(original, term.as_slice());
        let is_now = count_chars(rewritten, term.as_slice());
        if was > is_now {
            let was_text = usize_text(was);
            let is_text = usize_text(is_now);
            let mut problem = "中性词“".to_string();
            problem.append(list[i]);
            problem.append("”由原文 ");
            problem.append(was_text.as_str());
            problem.append(" 次减少为 ");
            problem.append(is_text.as_str());
            problem.append(" 次。");
            let mut fix = "恢复中性词“".to_string();
            fix.append(list[i]);
            fix.append("”，不得仅因主角性转而女性化。");
            let ghost before = out@;
            out.push(make_chapter_issue(index, "neutral_term", problem, fix));
            proof {
                lemma_views_push(before, out@.last());
                assert(views(out@) =~= start + neutral_issues(
                    index,
                    original@,
                    rewritten@,
                    all.take(i + 1),
                ));
            }
        }
        i += 1;
    }
    proof {
        assert(all.take(i as int) =~= all);
    }
}

fn add_name_issues(
    out: &mut Vec<ReviewIssue>,
    index: i64,
    original: &[char],
    rewritten: &[char],
    names: &[String],
)
    ensures
        views(final(out)@) == views(old(out)@) + name_issues(
            index,
            original@,
            rewritten@,
            views(names@),
        ),
{
    let ghost all = views(names@);
    let ghost start = views(out@);
    let mut i: usize = 0;
    proof {
        assert(start + name_issues(index, original@, rewritten@, all.take(0)) =~= start);
    }
    while i < names.len()
        invariant
            i <= names@.len(),
            all == views(names@),
            views(out@) == start + name_issues(index, original@, rewritten@, all.take(i as int)),
        decreases names@.len() - i,
    {
        let name = chars_of(names[i].as_str());
        proof {
            assert(all.take(i + 1).drop_last() =~= all.take(i as int));
            assert(all.take(i + 1).last() == name@);
        }
        let was = count_chars(original, name.as_slice());
        let is_now = count_chars(rewritten, name.as_slice());
        if was > is_now {
            let was_text = usize_text(was);
            let is_text = usize_text(is_now);
            let mut problem = "未映射人物姓名“".to_string();
            problem.append(names[i].as_str());
            problem.append("”由原文 ");
            problem.append(was_text.as_str());
            problem.append(" 次减少为 ");
            problem.append(is_text.as_str());
            problem.append(" 次。");
            let mut fix = "逐字恢复人物姓名“".to_string();
            fix.append(names[i].as_str());
            fix.append("”，不得改名或用代词替代。");
            let ghost before = out@;
            out.push(make_chapter_issue(index, "entity_name", problem, fix));
            proof {
                lemma_views_push(before, out@.last());
                assert(views(out@) =~= start + name_issues(
                    index,
                    original@,
                    rewritten@,
                    all.take(i + 1),
                ));
            }
        }
        i += 1;
    }
    proof {
        assert(all.take(i as int) =~= all);
    }
}

// ---- text from another chapter --------------------------------------------------------------
/// The letters and numbers of a text.
pub open spec fn letters(s: Seq<char>) -> Seq<char>
    decreases s.len(),
{
    if s.len() == 0 {
        Seq::empty()
    } else if alphanumeric(s.last()) {
        letters(s.drop_last()).push(s.last())
    } else {
        letters(s.drop_last())
    }
}

fn letters_of(s: &[char]) -> (r: Vec<char>)
    ensures
        r@ == letters(s@),
{
    let mut out: Vec<char> = Vec::new();
    let mut i: usize = 0;
    while i < s.len()
        invariant
            i <= s@.len(),
            out@ == letters(s@.take(i as int)),
        decreases s@.len() - i,
    {
        proof {
            assert(s@.take(i + 1).drop_last() =~= s@.take(i as int));
        }
        if s[i].is_alphanumeric() {
            out.push(s[i]);
        }
        i += 1;
    }
    proof {
        assert(s@.take(i as int) =~= s@);
    }
    out
}

pub fn normalize_copy_scan_text(text: &str) -> (r: String)
    ensures
        r@ == letters(text@),
{
    let all = chars_of(text);
    let out = letters_of(all.as_slice());
    string_of(out.as_slice())
}

/// The length of the pieces that are compared.
pub const COPY_WINDOW: usize = 32;

/// Whether the piece of the source's rewrite at `k` comes from the source's original and stands
/// in the target's rewrite, though not in the target's original.
pub open spec fn copied_at(
    target_rewrite: Seq<char>,
    source_rewrite: Seq<char>,
    target_original: Seq<char>,
    source_original: Seq<char>,
    k: int,
) -> bool {
    let piece = source_rewrite.subrange(k, k + COPY_WINDOW);
    holds(source_original, piece) && holds(target_rewrite, piece) && !holds(
        target_original,
        piece,
    )
}

/// The first positions, below `n`, of pieces that were copied.
pub open spec fn copied_positions(
    target_rewrite: Seq<char>,
    source_rewrite: Seq<char>,
    target_original: Seq<char>,
    source_original: Seq<char>,
    n: int,
) -> Seq<int>
    decreases n,
{
    if n <= 0 {
        Seq::empty()
    } else {
        let before = copied_positions(
            target_rewrite,
            source_rewrite,
            target_original,
            source_original,
            n - 1,
        );
        if copied_at(target_rewrite, source_rewrite, target_original, source_original, n - 1) {
            before.push(n - 1)
        } else {
            before
        }
    }
}

/// The first of the copied pieces, where there are three or more.
pub open spec fn copied_piece(
    target_rewrite: Seq<char>,
    source_rewrite: Seq<char>,
    target_original: Seq<char>,
    source_original: Seq<char>,
) -> Option<Seq<char>> {
    let found = copied_positions(
        target_rewrite,
        source_rewrite,
        target_original,
        source_original,
        source_rewrite.len() - COPY_WINDOW + 1,
    );
    if found.len() >= 3 {
        Some(source_rewrite.subrange(found[0], found[0] + COPY_WINDOW))
    } else {
        None
    }
}

proof fn lemma_copied_monotone(
    tr: Seq<char>,
    sr: Seq<char>,
    to: Seq<char>,
    so: Seq<char>,
    n: int,
    m: int,
)
    requires
        n <= m,
    ensures
        copied_positions(tr, sr, to, so, n).len() <= copied_positions(tr, sr, to, so, m).len(),
        copied_positions(tr, sr, to, so, n).len() > 0 ==> copied_positions(tr, sr, to, so, m)[0]
            == copied_positions(tr, sr, to, so, n)[0],
    decreases m - n,
{
    if n < m {
        lemma_copied_monotone(tr, sr, to, so, n, m - 1);
    }
}

fn copied_piece_of(
    target_rewrite: &[char],
    source_rewrite: &[char],
    target_original: &[char],
    source_original: &[char],
) -> (r: Option<Vec<char>>)
    ensures
        (match r {
            Some(v) => Some(v@),
            None => None,
        }) == copied_piece(target_rewrite@, source_rewrite@, target_original@, source_original@),
{
    let ghost tr = target_rewrite@;
    let ghost sr = source_rewrite@;
    let ghost to = target_original@;
    let ghost so = source_original@;
    let total = source_rewrite.len();
    if total < COPY_WINDOW {
        return None;
    }
    let ghost end = total - COPY_WINDOW + 1;
    let mut first: usize = 0;
    let mut count: usize = 0;
    let mut k: usize = 0;
    while k <= total - COPY_WINDOW
        invariant
            total == source_rewrite@.len(),
            COPY_WINDOW <= total,
            end == total - COPY_WINDOW + 1,
            k <= end,
            tr == target_rewrite@,
            sr == source_rewrite@,
            to == target_original@,
            so == source_original@,
            count == copied_positions(tr, sr, to, so, k as int).len(),
            count < 3,
            count > 0 ==> first + COPY_WINDOW <= total && first == copied_positions(
                tr,
                sr,
                to,
                so,
                k as int,
            )[0],
        decreases end - k,
    {
        let piece = slice_subrange(source_rewrite, k, k + COPY_WINDOW);
        if chars_have(source_original, piece) && chars_have(target_rewrite, piece) && !chars_have(
            target_original,
            piece,
        ) {
            if count == 0 {
                first = k;
            }
            count += 1;
            if count >= 3 {
                proof {
                    lemma_copied_monotone(tr, sr, to, so, k + 1, end);
                }
                return Some(copy_chars(slice_subrange(source_rewrite, first, first + COPY_WINDOW)));
            }
        }
        k += 1;
    }
    None
}

pub fn copied_shingle_example(
    target_rewrite: &str,
    source_rewrite: &str,
    target_original: &str,
    source_original: &str,
) -> (r: Option<String>)
    ensures
        opt_text(r) == copied_piece(
            target_rewrite@,
            source_rewrite@,
            target_original@,
            source_original@,
        ),
{
    let tr = chars_of(target_rewrite);
    let sr = chars_of(source_rewrite);
    let to = chars_of(target_original);
    let so = chars_of(source_original);
    match copied_piece_of(tr.as_slice(), sr.as_slice(), to.as_slice(), so.as_slice()) {
        Some(v) => Some(string_of(v.as_slice())),
        None => None,
    }
}

pub open spec fn copy_issue(target: i64, source: i64, example: Seq<char>) -> ReviewIssueView {
    ReviewIssueView {
        chapter_indexes: seq![target, source],
        scope: "cross_chapter"@,
        category: "boundary"@,
        severity: "blocking"@,
        problem: "分片 "@ + decimal(target as int) + " 出现疑似从分片 "@ + decimal(source as int) + " 提前复制的连续内容：“"@
            + example + "”。"@,
        required_fix: "删除串入内容，各章只保留原章事件和必要性别适配。"@,
    }
}

/// The issue about text that the target took from the source, where it did.
pub open spec fn copy_issues(
    chapters: Seq<ChapterView>,
    target: ParsedChapterRewriteView,
    source: ParsedChapterRewriteView,
) -> Seq<ReviewIssueView> {
    match (chapter_with_id(chapters, target.id), chapter_with_id(chapters, source.id)) {
        (Some(t), Some(s)) => match copied_piece(
            letters(target.text),
            letters(source.text),
            letters(t.original_text),
            letters(s.original_text),
        ) {
            Some(example) => seq![copy_issue(target.index, source.index, example)],
            None => Seq::empty(),
        },
        _ => Seq::empty(),
    }
}

/// The issues of one rewrite with those behind it, up to the `j`-th.
pub open spec fn copy_row(
    chapters: Seq<ChapterView>,
    rewrites: Seq<ParsedChapterRewriteView>,
    i: int,
    j: int,
) -> Seq<ReviewIssueView>
    decreases j - i,
{
    if j <= i + 1 {
        Seq::empty()
    } else {
        copy_row(chapters, rewrites, i, j - 1) + copy_issues(
            chapters,
            rewrites[i],
            rewrites[j - 1],
        ) + copy_issues(chapters, rewrites[j - 1], rewrites[i])
    }
}

/// The issues of the first `i` rewrites, each with all behind it.
pub open spec fn copy_rows(
    chapters: Seq<ChapterView>,
    rewrites: Seq<ParsedChapterRewriteView>,
    i: int,
) -> Seq<ReviewIssueView>
    decreases i,
{
    if i <= 0 {
        Seq::empty()
    } else {
        copy_rows(chapters, rewrites, i - 1) + copy_row(
            chapters,
            rewrites,
            i - 1,
            rewrites.len() as int,
        )
    }
}

fn add_copy_issue(
    out: &mut Vec<ReviewIssue>,
    chapters: &[Chapter],
    target: &ParsedChapterRewrite,
    source: &ParsedChapterRewrite,
)
    ensures
        views(final(out)@) == views(old(out)@) + copy_issues(views(chapters@), target@, source@),
{
    let ghost start = views(out@);
    proof {
        assert(start + Seq::<ReviewIssueView>::empty() =~= start);
    }
    let target_chapter = match find_chapter(chapters, target.id.as_str()) {
        Some(c) => c,
        None => {
            return ;
        },
    };
    let source_chapter = match find_chapter(chapters, source.id.as_str()) {
        Some(c) => c,
        None => {
            return ;
        },
    };
    let a = chars_of(target.text.as_str());
    let b = chars_of(source.text.as_str());
    let c = chars_of(target_chapter.original_text.as_str());
    let d = chars_of(source_chapter.original_text.as_str());
    let a = letters_of(a.as_slice());
    let b = letters_of(b.as_slice());
    let c = letters_of(c.as_slice());
    let d = letters_of(d.as_slice());
    if let Some(example) = copied_piece_of(a.as_slice(), b.as_slice(), c.as_slice(), d.as_slice()) {
        let text = string_of(example.as_slice());
        let target_number = i64_text(target.index);
        let source_number = i64_text(source.index);
        let mut problem = "分片 ".to_string();
        problem.append(target_number.as_str());
        problem.append(" 出现疑似从分片 ");
        problem.append(source_number.as_str());
        problem.append(" 提前复制的连续内容：“");
        problem.append(text.as_str());
        problem.append("”。");
        let mut chapter_indexes: Vec<i64> = Vec::new();
        chapter_indexes.push(target.index);
        chapter_indexes.push(source.index);
        let issue = ReviewIssue {
            chapter_indexes,
            scope: "cross_chapter".to_string(),
            category: "boundary".to_string(),
            severity: "blocking".to_string(),
            problem,
            required_fix: "删除串入内容，各章只保留原章事件和必要性别适配。".to_string(),
        };
        let ghost before = out@;
        out.push(issue);
        proof {
            lemma_views_push(before, out@.last());
            assert(issue@.chapter_indexes =~= seq![target.index, source.index]);
            assert(views(out@) =~= start + copy_issues(views(chapters@), target@, source@));
        }
    }
}

pub fn detect_cross_chapter_copy_issues(
    chapters: &[Chapter],
    rewrites: &[ParsedChapterRewrite],
) -> (r: Vec<ReviewIssue>)
    ensures
        views(r@) == copy_rows(views(chapters@), views(rewrites@), rewrites@.len() as int),
{
    let ghost all = views(chapters@);
    let ghost list = views(rewrites@);
    let mut issues: Vec<ReviewIssue> = Vec::new();
    let n = rewrites.len();
    let mut i: usize = 0;
    proof {
        assert(views(issues@) =~= copy_rows(all, list, 0));
    }
    while i < n
        invariant
            i <= n == rewrites@.len(),
            all == views(chapters@),
            list == views(rewrites@),
            views(issues@) == copy_rows(all, list, i as int),
        decreases n - i,
    {
        let ghost start = views(issues@);
        let mut j: usize = i + 1;
        proof {
            assert(start + copy_row(all, list, i as int, j as int) =~= start);
        }
        while j < n
            invariant
                i < j <= n == rewrites@.len(),
                all == views(chapters@),
                list == views(rewrites@),
                views(issues@) == start + copy_row(all, list, i as int, j as int),
            decreases n - j,
        {
            proof {
                assert(list[i as int] == rewrites@[i as int]@);
                assert(list[j as int] == rewrites@[j as int]@);
            }
            add_copy_issue(&mut issues, chapters, &rewrites[i], &rewrites[j]);
            add_copy_issue(&mut issues, chapters, &rewrites[j], &rewrites[i]);
            j += 1;
            proof {
                assert(views(issues@) =~= start + copy_row(all, list, i as int, j as int));
            }
        }
        i += 1;
    }
    issues
}

// ---- names of others ------------------------------------------------------------------------
/// The text without the given characters at its start.
pub open spec fn strip_front(s: Seq<char>, set: Seq<char>) -> Seq<char>
    decreases s.len(),
{
    if s.len() > 0 && set.contains(s[0]) {
        strip_front(s.subrange(1, s.len() as int), set)
    } else {
        s
    }
}

fn strip_front_chars<'a>(s: &'a [char], set: &[char]) -> (r: &'a [char])
    ensures
        r@ == strip_front(s@, set@),
{
    let mut i: usize = 0;
    proof {
        assert(s@.subrange(0, s@.len() as int) =~= s@);
    }
    while i < s.len() && holds_char(set, s[i])
        invariant
            i <= s@.len(),
            strip_front(s@, set@) == strip_front(s@.subrange(i as int, s@.len() as int), set@),
        decreases s@.len() - i,
    {
        proof {
            let rest = s@.subrange(i as int, s@.len() as int);
            assert(rest.subrange(1, rest.len() as int) =~= s@.subrange(i + 1, s@.len() as int));
        }
        i += 1;
    }
    slice_subrange(s, i, s.len())
}

/// The name at the start of a line of an analysis: without a list mark, up to a colon or a
/// bracket.
pub open spec fn line_name(text: Seq<char>) -> Seq<char> {
    let head = trim(split_on(text, seq!['：', ':'])[0]);
    let bare = trim(strip_front(head, seq!['-', '*', '•']));
    trim(split_on(bare, seq!['（', '('])[0])
}

fn line_name_of(text: &str) -> (r: Vec<char>)
    ensures
        r@ == line_name(text@),
{
    let all = chars_of(text);
    let colons: [char; 2] = ['：', ':'];
    let marks: [char; 3] = ['-', '*', '•'];
    let brackets: [char; 2] = ['（', '('];
    proof {
        assert(colons@ =~= seq!['：', ':']);
        assert(marks@ =~= seq!['-', '*', '•']);
        assert(brackets@ =~= seq!['（', '(']);
    }
    let parts = split_chars(all.as_slice(), &colons);
    proof {
        assert(views(parts@)[0] == parts@[0]@);
    }
    let head = trim_chars(parts[0].as_slice());
    let bare = trim_chars(strip_front_chars(head, &marks));
    let pieces = split_chars(bare, &brackets);
    proof {
        assert(views(pieces@)[0] == pieces@[0]@);
    }
    copy_chars(trim_chars(pieces[0].as_slice()))
}

/// The name that an item of an analysis gives: at the start of a line, or in a field.
pub open spec fn item_name(item: JsonView) -> Seq<char> {
    match item {
        JsonView::Text(s) => line_name(s),
        _ => match text_field(item, "name"@) {
            Some(s) => trim(s),
            None => Seq::empty(),
        },
    }
}

fn item_name_of(item: &Json) -> (r: Vec<char>)
    ensures
        r@ == item_name(item@),
{
    match item {
        Json::Text(s) => line_name_of(s.as_str()),
        _ => match item.get_text("name") {
            Some(s) => {
                let all = chars_of(s.as_str());
                copy_chars(trim_chars(all.as_slice()))
            },
            None => Vec::new(),
        },
    }
}

/// Whether a text can be the name of a person: two to sixteen letters, with middle dots.
pub open spec fn plausible_name(s: Seq<char>) -> bool {
    2 <= s.len() <= 16 && forall|i: int|
        0 <= i < s.len() ==> alphanumeric(#[trigger] s[i]) || s[i] == '·' || s[i] == '・'
}

fn is_plausible_name(s: &[char]) -> (r: bool)
    ensures
        r == plausible_name(s@),
{
    if s.len() < 2 || s.len() > 16 {
        return false;
    }
    let mut i: usize = 0;
    while i < s.len()
        invariant
            i <= s@.len(),
            forall|k: int|
                0 <= k < i ==> alphanumeric(#[trigger] s@[k]) || s@[k] == '·' || s@[k] == '・',
        decreases s@.len() - i,
    {
        let c = s[i];
        if !c.is_alphanumeric() && c != '·' && c != '・' {
            return false;
        }
        i += 1;
    }
    true
}

/// The names that the items give, without those that are changed on purpose.
pub open spec fn item_names(items: Seq<JsonView>, excluded: Seq<Seq<char>>) -> Seq<Seq<char>>
    decreases items.len(),
{
    if items.len() == 0 {
        Seq::empty()
    } else {
        let before = item_names(items.drop_last(), excluded);
        let name = item_name(items.last());
        if plausible_name(name) && !excluded.contains(name) {
            before.push(name)
        } else {
            before
        }
    }
}

pub open spec fn field_names(
    value: JsonView,
    field: Seq<char>,
    excluded: Seq<Seq<char>>,
) -> Seq<Seq<char>> {
    match list_field(value, field) {
        Some(items) => item_names(items, excluded),
        None => Seq::empty(),
    }
}

/// The names of persons in an analysis.
pub open spec fn analysis_names(value: JsonView, excluded: Seq<Seq<char>>) -> Seq<Seq<char>> {
    field_names(value, "characters"@, excluded) + field_names(value, "names"@, excluded)
}

fn add_field_names(out: &mut Vec<Vec<char>>, value: &Json, field: &str, excluded: &[String])
    ensures
        views(final(out)@) == views(old(out)@) + field_names(value@, field@, views(excluded@)),
{
    let ghost start = views(out@);
    let items = match value.get_list(field) {
        Some(items) => items,
        None => {
            proof {
                assert(start + Seq::<Seq<char>>::empty() =~= start);
            }
            return ;
        },
    };
    let ghost all = views(items@);
    let mut i: usize = 0;
    proof {
        assert(start + item_names(all.take(0), views(excluded@)) =~= start);
    }
    while i < items.len()
        invariant
            i <= items@.len(),
            all == views(items@),
            views(out@) == start + item_names(all.take(i as int), views(excluded@)),
        decreases items@.len() - i,
    {
        proof {
            assert(all.take(i + 1).drop_last() =~= all.take(i as int));
            assert(all.take(i + 1).last() == items@[i as int]@);
        }
        let name = item_name_of(&items[i]);
        let string = string_of(name.as_slice());
        if is_plausible_name(name.as_slice()) && !holds_text(excluded, string.as_str()) {
            let ghost before = out@;
            out.push(name);
            proof {
                lemma_views_push(before, out@.last());
                assert(views(out@) =~= start + item_names(all.take(i + 1), views(excluded@)));
            }
        }
        i += 1;
    }
    proof {
        assert(all.take(i as int) =~= all);
    }
}

/// The names of persons in an analysis that are not changed on purpose, in their order.
pub fn names_in_analysis(value: &Json, excluded: &[String]) -> (r: Vec<String>)
    ensures
        views(r@) == analysis_names(value@, views(excluded@)),
{
    let mut out: Vec<Vec<char>> = Vec::new();
    add_field_names(&mut out, value, "characters", excluded);
    add_field_names(&mut out, value, "names", excluded);
    proof {
        assert(views(out@) =~= analysis_names(value@, views(excluded@)));
    }
    strings_of(out.as_slice())
}

pub open spec fn mapping_names(list: Seq<NameMappingEntryView>) -> Seq<Seq<char>>
    decreases list.len(),
{
    if list.len() == 0 {
        Seq::empty()
    } else {
        mapping_names(list.drop_last()).push(list.last().source).push(list.last().target)
    }
}

/// The names that are changed on purpose, and the new ones.
pub open spec fn changed_names(settings: NovelSettingsView) -> Seq<Seq<char>> {
    let rows = lines(normal_form(settings.additional_feminize_names));
    source_names(settings) + (if trim(settings.rewritten_protagonist_name).len() > 0 {
        seq![trim(settings.rewritten_protagonist_name)]
    } else {
        Seq::empty()
    }) + mapping_names(line_mappings(rows)) + line_sources(rows)
}

fn changed_names_of(settings: &NovelSettings) -> (r: Vec<String>)
    ensures
        views(r@) == changed_names(settings@),
{
    let ghost rows = lines(normal_form(settings.additional_feminize_names@));
    let mut out = protagonist_source_names(settings);
    let rewritten = trimmed(settings.rewritten_protagonist_name.as_str());
    let ghost first = views(out@);
    if !rewritten.as_str().is_empty() {
        let ghost before = out@;
        out.push(rewritten);
        proof {
            lemma_views_push(before, out@.last());
        }
    }
    let ghost second = views(out@);
    proof {
        assert(second =~= first + (if trim(settings.rewritten_protagonist_name@).len() > 0 {
            seq![trim(settings.rewritten_protagonist_name@)]
        } else {
            Seq::empty()
        }));
    }
    let mappings = additional_feminize_name_mappings(settings.additional_feminize_names.as_str());
    let ghost all = views(mappings@);
    let mut i: usize = 0;
    proof {
        assert(second + mapping_names(all.take(0)) =~= second);
    }
    while i < mappings.len()
        invariant
            i <= mappings@.len(),
            all == views(mappings@),
            views(out@) == second + mapping_names(all.take(i as int)),
        decreases mappings@.len() - i,
    {
        proof {
            assert(all.take(i + 1).drop_last() =~= all.take(i as int));
            assert(all.take(i + 1).last() == mappings@[i as int]@);
        }
        let ghost before = out@;
        out.push(mappings[i].source.clone());
        let ghost between = out@;
        out.push(mappings[i].target.clone());
        proof {
            lemma_views_push(before, between.last());
            lemma_views_push(between, out@.last());
            assert(views(out@) =~= second + mapping_names(all.take(i + 1)));
        }
        i += 1;
    }
    proof {
        assert(all.take(i as int) =~= all);
    }
    let ghost third = views(out@);
    let mut more = additional_feminize_name_sources(settings.additional_feminize_names.as_str());
    let ghost added = views(more@);
    out.append(&mut more);
    proof {
        assert(views(out@) =~= third + added);
    }
    out
}

/// The names in the analyses of the chapters that can be read.
pub open spec fn known_names(chapters: Seq<ChapterView>, excluded: Seq<Seq<char>>) -> Seq<
    Seq<char>,
>
    decreases chapters.len(),
{
    if chapters.len() == 0 {
        Seq::empty()
    } else {
        let before = known_names(chapters.drop_last(), excluded);
        match chapters.last().analysis_json {
            Some(text) => match json_read(text) {
                Ok(value) => before + analysis_names(value, excluded),
                Err(_) => before,
            },
            None => before,
        }
    }
}

/// The names of persons that a rewrite has to leave as they are.
pub open spec fn protected_names(
    chapters: Seq<ChapterView>,
    settings: NovelSettingsView,
) -> Seq<Seq<char>> {
    sort_distinct(known_names(chapters, changed_names(settings)), false)
}

pub fn protected_unmapped_character_names(chapters: &[Chapter], settings: &NovelSettings) -> (r:
    Vec<String>)
    ensures
        views(r@) == protected_names(views(chapters@), settings@),
{
    let excluded = changed_names_of(settings);
    let ghost all = views(chapters@);
    let mut names: Vec<Vec<char>> = Vec::new();
    let mut i: usize = 0;
    proof {
        assert(views(names@) =~= known_names(all.take(0), views(excluded@)));
    }
    while i < chapters.len()
        invariant
            i <= chapters@.len(),
            all == views(chapters@),
            views(names@) == known_names(all.take(i as int), views(excluded@)),
        decreases chapters@.len() - i,
    {
        proof {
            assert(all.take(i + 1).drop_last() =~= all.take(i as int));
            assert(all.take(i + 1).last() == chapters@[i as int]@);
        }
        if let Some(text) = &chapters[i].analysis_json {
            if let Ok(value) = read_json(text.as_str()) {
                let ghost before = views(names@);
                add_field_names(&mut names, &value, "characters", excluded.as_slice());
                add_field_names(&mut names, &value, "names", excluded.as_slice());
                proof {
                    assert(views(names@) =~= before + analysis_names(value@, views(excluded@)));
                }
            }
        }
        i += 1;
    }
    proof {
        assert(all.take(i as int) =~= all);
    }
    let sorted = sort_distinct_texts(names.as_slice(), false);
    strings_of(sorted.as_slice())
}

// ---- all together ---------------------------------------------------------------------------
/// The issues of one chapter.
pub open spec fn chapter_overrewrites(
    chapter: ChapterView,
    rewrite: ParsedChapterRewriteView,
    names: Seq<Seq<char>>,
) -> Seq<ReviewIssueView> {
    let original = original_body(chapter);
    let rewritten = rewrite_body(rewrite);
    stereotype_issues(chapter.index, original, rewritten, stereotype_phrases()) + neutral_issues(
        chapter.index,
        original,
        rewritten,
        neutral_terms(),
    ) + name_issues(chapter.index, original, rewritten, names)
}

/// The issues of all chapters, one after the other.
pub open spec fn chapters_overrewrites(
    chapters: Seq<ChapterView>,
    rewrites: Seq<ParsedChapterRewriteView>,
    names: Seq<Seq<char>>,
) -> Seq<ReviewIssueView>
    decreases chapters.len(),
{
    if chapters.len() == 0 {
        Seq::empty()
    } else {
        let before = chapters_overrewrites(chapters.drop_last(), rewrites, names);
        match rewrite_with_id(rewrites, chapters.last().id) {
            Some(rewrite) => before + chapter_overrewrites(chapters.last(), rewrite, names),
            None => before,
        }
    }
}

/// The issues of a rewrite that went too far.
pub open spec fn overrewrites(
    chapters: Seq<ChapterView>,
    rewrites: Seq<ParsedChapterRewriteView>,
    names: Seq<Seq<char>>,
) -> Seq<ReviewIssueView> {
    chapters_overrewrites(chapters, rewrites, names) + copy_rows(
        chapters,
        rewrites,
        rewrites.len() as int,
    )
}

/// The issues of a rewrite that went too far, where the names to be left are known.
pub fn detect_overrewrites(
    chapters: &[Chapter],
    rewrites: &[ParsedChapterRewrite],
    protected: &[String],
) -> (r: Vec<ReviewIssue>)
    ensures
        views(r@) == overrewrites(views(chapters@), views(rewrites@), views(protected@)),
{
    let ghost all = views(chapters@);
    let ghost list = views(rewrites@);
    let ghost names = views(protected@);
    let mut issues: Vec<ReviewIssue> = Vec::new();
    let mut i: usize = 0;
    proof {
        assert(views(issues@) =~= chapters_overrewrites(all.take(0), list, names));
    }
    while i < chapters.len()
        invariant
            i <= chapters@.len(),
            all == views(chapters@),
            list == views(rewrites@),
            names == views(protected@),
            views(issues@) == chapters_overrewrites(all.take(i as int), list, names),
        decreases chapters@.len() - i,
    {
        let chapter = &chapters[i];
        proof {
            assert(all.take(i + 1).drop_last() =~= all.take(i as int));
            assert(all.take(i + 1).last() == chapter@);
        }
        if let Some(rewrite) = find_rewrite(rewrites, chapter.id.as_str()) {
            let ghost before = views(issues@);
            let body = original_body_of(chapter);
            let original = chars_of(body.as_str());
            let body = body_of(rewrite);
            let rewritten = chars_of(body.as_str());
            add_stereotype_issues(
                &mut issues,
                chapter.index,
                original.as_slice(),
                rewritten.as_slice(),
            );
            add_neutral_issues(
                &mut issues,
                chapter.index,
                original.as_slice(),
                rewritten.as_slice(),
            );
            add_name_issues(
                &mut issues,
                chapter.index,
                original.as_slice(),
                rewritten.as_slice(),
                protected,
            );
            proof {
                assert(views(issues@) =~= before + chapter_overrewrites(
                    chapter@,
                    rewrite@,
                    names,
                ));
            }
        }
        i += 1;
    }
    proof {
        assert(all.take(i as int) =~= all);
    }
    let ghost before = views(issues@);
    let mut copies = detect_cross_chapter_copy_issues(chapters, rewrites);
    let ghost added = views(copies@);
    issues.append(&mut copies);
    proof {
        assert(views(issues@) =~= before + added);
    }
    issues
}

pub fn detect_graph_v2_overrewrite_issues(
    chapters: &[Chapter],
    rewrites: &[ParsedChapterRewrite],
    settings: &NovelSettings,
) -> (r: Vec<ReviewIssue>)
    ensures
        views(r@) == overrewrites(
            views(chapters@),
            views(rewrites@),
            protected_names(views(chapters@), settings@),
        ),
{
    let protected = protected_unmapped_character_names(chapters, settings);
    detect_overrewrites(chapters, rewrites, protected.as_slice())
}

} // verus!
