//! Scans of a rewritten text that need no model: names of the old protagonist that are still
//! there, changes that go too far, text copied from another chapter, and pronouns of groups.
use vstd::prelude::*;
use vstd::slice::slice_subrange;
use crate::domain::{
    Chapter, ChapterView, NovelSettings, NovelSettingsView, ParsedChapterRewrite,
    ParsedChapterRewriteView, ReviewIssue, ReviewIssueView,
};
use crate::excerpt::{head, truncate_text};
use crate::keywords::{
    contains_any, holds_legacy_subject_words, legacy_subject_words,
};
use crate::order::{sort_distinct, sort_distinct_texts, strings_of};
use crate::review_filter::{body_of, protagonist_source_names, rewrite_body, source_names};
use crate::review_laws::law_name_is_among_its_forms;
use crate::text::{
    append_chars, blank, chars_have, chars_of, copy_chars, decimal, holds, holds_any, holds_char,
    i64_text, join, join_texts, lemma_views_push, same_chars, same_text, text_has, trim, trim_chars,
    trimmed, views,
};

verus! {

// ---- finding chapters and rewrites ----------------------------------------------------------
/// The last rewrite with an id.
pub open spec fn rewrite_with_id(rewrites: Seq<ParsedChapterRewriteView>, id: Seq<char>) -> Option<
    ParsedChapterRewriteView,
>
    decreases rewrites.len(),
{
    if rewrites.len() == 0 {
        None
    } else if rewrites.last().id == id {
        Some(rewrites.last())
    } else {
        rewrite_with_id(rewrites.drop_last(), id)
    }
}

pub fn find_rewrite<'a>(rewrites: &'a [ParsedChapterRewrite], id: &str) -> (r: Option<
    &'a ParsedChapterRewrite,
>)
    ensures
        match r {
            Some(x) => rewrite_with_id(views(rewrites@), id@) == Some(x@),
            None => rewrite_with_id(views(rewrites@), id@) is None,
        },
{
    let ghost all = views(rewrites@);
    let mut n: usize = rewrites.len();
    proof {
        assert(all.take(n as int) =~= all);
    }
    while n > 0
        invariant
            n <= rewrites@.len(),
            all == views(rewrites@),
            rewrite_with_id(all, id@) == rewrite_with_id(all.take(n as int), id@),
        decreases n,
    {
        proof {
            assert(all.take(n as int).last() == rewrites@[n - 1]@);
            assert(all.take(n as int).drop_last() =~= all.take(n - 1));
        }
        if same_text(rewrites[n - 1].id.as_str(), id) {
            return Some(&rewrites[n - 1]);
        }
        n -= 1;
    }
    None
}

/// The last chapter with an id.
pub open spec fn chapter_with_id(chapters: Seq<ChapterView>, id: Seq<char>) -> Option<ChapterView>
    decreases chapters.len(),
{
    if chapters.len() == 0 {
        None
    } else if chapters.last().id == id {
        Some(chapters.last())
    } else {
        chapter_with_id(chapters.drop_last(), id)
    }
}

pub fn find_chapter<'a>(chapters: &'a [Chapter], id: &str) -> (r: Option<&'a Chapter>)
    ensures
        match r {
            Some(x) => chapter_with_id(views(chapters@), id@) == Some(x@),
            None => chapter_with_id(views(chapters@), id@) is None,
        },
{
    let ghost all = views(chapters@);
    let mut n: usize = chapters.len();
    proof {
        assert(all.take(n as int) =~= all);
    }
    while n > 0
        invariant
            n <= chapters@.len(),
            all == views(chapters@),
            chapter_with_id(all, id@) == chapter_with_id(all.take(n as int), id@),
        decreases n,
    {
        proof {
            assert(all.take(n as int).last() == chapters@[n - 1]@);
            assert(all.take(n as int).drop_last() =~= all.take(n - 1));
        }
        if same_text(chapters[n - 1].id.as_str(), id) {
            return Some(&chapters[n - 1]);
        }
        n -= 1;
    }
    None
}

/// A blocking issue about one chapter.
pub open spec fn chapter_issue(
    index: i64,
    category: Seq<char>,
    problem: Seq<char>,
    required_fix: Seq<char>,
) -> ReviewIssueView {
    ReviewIssueView {
        chapter_indexes: seq![index],
        scope: "chapter"@,
        category,
        severity: "blocking"@,
        problem,
        required_fix,
    }
}

pub fn make_chapter_issue(index: i64, category: &str, problem: String, required_fix: String) -> (r:
    ReviewIssue)
    ensures
        r@ == chapter_issue(index, category@, problem@, required_fix@),
{
    let mut chapter_indexes: Vec<i64> = Vec::new();
    chapter_indexes.push(index);
    let issue = ReviewIssue {
        chapter_indexes,
        scope: "chapter".to_string(),
        category: category.to_string(),
        severity: "blocking".to_string(),
        problem,
        required_fix,
    };
    proof {
        assert(issue@.chapter_indexes =~= seq![index]);
    }
    issue
}

/// The title and the original text of a chapter.
pub open spec fn original_body(c: ChapterView) -> Seq<char> {
    c.title + "\n"@ + c.original_text
}

pub fn original_body_of(c: &Chapter) -> (r: String)
    ensures
        r@ == original_body(c@),
{
    let mut out = c.title.clone();
    out.append("\n");
    out.append(c.original_text.as_str());
    out
}

/// The texts of the list that stand in the text.
pub open spec fn occurring(list: Seq<Seq<char>>, text: Seq<char>) -> Seq<Seq<char>>
    decreases list.len(),
{
    if list.len() == 0 {
        Seq::empty()
    } else if holds(text, list.last()) {
        occurring(list.drop_last(), text).push(list.last())
    } else {
        occurring(list.drop_last(), text)
    }
}

fn keep_occurring(list: &[Vec<char>], text: &[char]) -> (r: Vec<Vec<char>>)
    ensures
        views(r@) == occurring(views(list@), text@),
{
    let ghost all = views(list@);
    let mut out: Vec<Vec<char>> = Vec::new();
    let mut i: usize = 0;
    proof {
        assert(views(out@) =~= occurring(all.take(0), text@));
    }
    while i < list.len()
        invariant
            i <= list@.len(),
            all == views(list@),
            views(out@) == occurring(all.take(i as int), text@),
        decreases list@.len() - i,
    {
        proof {
            assert(all.take(i + 1).drop_last() =~= all.take(i as int));
            assert(all.take(i + 1).last() == list@[i as int]@);
        }
        if chars_have(text, list[i].as_slice()) {
            let ghost before = out@;
            out.push(copy_chars(list[i].as_slice()));
            proof {
                lemma_views_push(before, out@.last());
            }
        }
        i += 1;
    }
    proof {
        assert(all.take(i as int) =~= all);
    }
    out
}

fn holds_chars(list: &[Vec<char>], x: &[char]) -> (r: bool)
    ensures
        r == views(list@).contains(x@),
{
    let ghost all = views(list@);
    let mut i: usize = 0;
    while i < list.len()
        invariant
            i <= list@.len(),
            all == views(list@),
            forall|k: int| 0 <= k < i ==> all[k] != x@,
        decreases list@.len() - i,
    {
        if same_chars(list[i].as_slice(), x) {
            proof {
                assert(all[i as int] == x@);
            }
            return true;
        }
        i += 1;
    }
    false
}

// ---- names derived from a name --------------------------------------------------------------
/// Forms of address that come before a name.
pub open spec fn name_prefixes() -> Seq<Seq<char>> {
    seq!["小"@, "老"@, "大"@, "阿"@]
}

/// Male forms of address that come behind a name.
pub open spec fn name_suffixes() -> Seq<Seq<char>> {
    seq![
        "哥"@,
        "哥哥"@,
        "兄"@,
        "兄弟"@,
        "弟"@,
        "弟弟"@,
        "叔"@,
        "伯"@,
        "爷"@,
        "少"@,
        "少爷"@,
        "公子"@,
        "兄台"@,
        "老弟"@,
        "贤弟"@,
        "道兄"@,
        "道友"@,
    ]
}

pub open spec fn with_prefixes(part: Seq<char>) -> Seq<Seq<char>> {
    Seq::new(name_prefixes().len(), |i: int| name_prefixes()[i] + part)
}

pub open spec fn with_suffixes(part: Seq<char>) -> Seq<Seq<char>> {
    Seq::new(name_suffixes().len(), |i: int| part + name_suffixes()[i])
}

/// The forms of address made of the given name and of its last character.
pub open spec fn part_names(given: Seq<char>, last: Seq<char>) -> Seq<Seq<char>> {
    let first = with_prefixes(given) + with_suffixes(given);
    if given == last {
        first
    } else {
        first + with_prefixes(last) + with_suffixes(last)
    }
}

/// The name and the forms of address made of it, the short ones first.
pub open spec fn derived_names(source: Seq<char>) -> Seq<Seq<char>> {
    let name = trim(source);
    if name.len() == 0 {
        Seq::empty()
    } else if name.len() == 1 {
        seq![name]
    } else {
        sort_distinct(
            seq![name] + part_names(name.skip(1), seq![name.last()]) + with_suffixes(name),
            true,
        )
    }
}

fn add_prefixed(out: &mut Vec<Vec<char>>, part: &[char])
    ensures
        views(final(out)@) == views(old(out)@) + with_prefixes(part@),
{
    let list: Vec<&str> = vec!["小", "老", "大", "阿"];
    proof {
        assert(views(list@) =~= name_prefixes());
    }
    let ghost start = views(out@);
    let ghost all = with_prefixes(part@);
    let mut i: usize = 0;
    proof {
        assert(start + all.take(0) =~= start);
    }
    while i < list.len()
        invariant
            i <= list@.len(),
            views(list@) == name_prefixes(),
            all == with_prefixes(part@),
            views(out@) == start + all.take(i as int),
        decreases list@.len() - i,
    {
        let mut name = chars_of(list[i]);
        proof {
            assert(name@ == name_prefixes()[i as int]);
        }
        append_chars(&mut name, part);
        let ghost before = out@;
        out.push(name);
        proof {
            lemma_views_push(before, out@.last());
            assert(views(out@) =~= start + all.take(i + 1));
        }
        i += 1;
    }
    proof {
        assert(all.take(i as int) =~= all);
    }
}

fn add_suffixed(out: &mut Vec<Vec<char>>, part: &[char])
    ensures
        views(final(out)@) == views(old(out)@) + with_suffixes(part@),
{
    let list: Vec<&str> = vec![
        "哥",
        "哥哥",
        "兄",
        "兄弟",
        "弟",
        "弟弟",
        "叔",
        "伯",
        "爷",
        "少",
        "少爷",
        "公子",
        "兄台",
        "老弟",
        "贤弟",
        "道兄",
        "道友",
    ];
    proof {
        assert(views(list@) =~= name_suffixes());
    }
    let ghost start = views(out@);
    let ghost all = with_suffixes(part@);
    let mut i: usize = 0;
    proof {
        assert(start + all.take(0) =~= start);
    }
    while i < list.len()
        invariant
            i <= list@.len(),
            views(list@) == name_suffixes(),
            all == with_suffixes(part@),
            views(out@) == start + all.take(i as int),
        decreases list@.len() - i,
    {
        let suffix = chars_of(list[i]);
        proof {
            assert(suffix@ == name_suffixes()[i as int]);
        }
        let mut name = copy_chars(part);
        append_chars(&mut name, suffix.as_slice());
        let ghost before = out@;
        out.push(name);
        proof {
            lemma_views_push(before, out@.last());
            assert(views(out@) =~= start + all.take(i + 1));
        }
        i += 1;
    }
    proof {
        assert(all.take(i as int) =~= all);
    }
}

fn derived_names_of(source: &str) -> (r: Vec<Vec<char>>)
    ensures
        views(r@) == derived_names(source@),
{
    let all = chars_of(source);
    let name = trim_chars(all.as_slice());
    let mut out: Vec<Vec<char>> = Vec::new();
    if name.len() == 0 {
        proof {
            assert(views(out@) =~= Seq::<Seq<char>>::empty());
        }
        return out;
    }
    out.push(copy_chars(name));
    proof {
        assert(views(out@) =~= seq![name@]);
    }
    if name.len() == 1 {
        return out;
    }
    let given = slice_subrange(name, 1, name.len());
    let last = slice_subrange(name, name.len() - 1, name.len());
    proof {
        assert(given@ =~= name@.skip(1));
        assert(last@ =~= seq![name@.last()]);
    }
    add_prefixed(&mut out, given);
    add_suffixed(&mut out, given);
    if !same_chars(given, last) {
        add_prefixed(&mut out, last);
        add_suffixed(&mut out, last);
    }
    add_suffixed(&mut out, name);
    proof {
        assert(views(out@) =~= seq![name@] + part_names(given@, last@) + with_suffixes(name@));
    }
    sort_distinct_texts(out.as_slice(), true)
}

pub fn protagonist_derived_name_candidates(source_name: &str) -> (r: Vec<String>)
    ensures
        views(r@) == derived_names(source_name@),
        !blank(source_name@) ==> views(r@).contains(trim(source_name@)),
{
    let list = derived_names_of(source_name);
    proof {
        if !blank(source_name@) {
            law_name_is_among_its_forms(source_name@);
        }
    }
    strings_of(list.as_slice())
}

/// The names derived from the old name that the original chapter uses.
pub open spec fn used_names(chapter: ChapterView, source: Seq<char>) -> Seq<Seq<char>> {
    sort_distinct(occurring(derived_names(source), original_body(chapter)), true)
}

fn used_names_of(chapter: &Chapter, source: &str) -> (r: Vec<Vec<char>>)
    ensures
        views(r@) == used_names(chapter@, source@),
{
    let body = original_body_of(chapter);
    let text = chars_of(body.as_str());
    let list = derived_names_of(source);
    let kept = keep_occurring(list.as_slice(), text.as_slice());
    sort_distinct_texts(kept.as_slice(), true)
}

pub fn protagonist_residue_candidates_from_original(chapter: &Chapter, source_name: &str) -> (r:
    Vec<String>)
    ensures
        views(r@) == used_names(chapter@, source_name@),
{
    let list = used_names_of(chapter, source_name);
    strings_of(list.as_slice())
}

/// The names derived from any of the old names that the original chapter uses and the new name
/// does not allow.
pub open spec fn forbidden_names(
    chapter: ChapterView,
    sources: Seq<Seq<char>>,
    allowed: Seq<Seq<char>>,
) -> Seq<Seq<char>>
    decreases sources.len(),
{
    if sources.len() == 0 {
        Seq::empty()
    } else {
        forbidden_names(chapter, sources.drop_last(), allowed) + not_among(
            used_names(chapter, sources.last()),
            allowed,
        )
    }
}

pub open spec fn not_among(list: Seq<Seq<char>>, allowed: Seq<Seq<char>>) -> Seq<Seq<char>>
    decreases list.len(),
{
    if list.len() == 0 {
        Seq::empty()
    } else if allowed.contains(list.last()) {
        not_among(list.drop_last(), allowed)
    } else {
        not_among(list.drop_last(), allowed).push(list.last())
    }
}

fn add_not_among(out: &mut Vec<Vec<char>>, list: &[Vec<char>], allowed: &[Vec<char>])
    ensures
        views(final(out)@) == views(old(out)@) + not_among(views(list@), views(allowed@)),
{
    let ghost start = views(out@);
    let ghost all = views(list@);
    let mut i: usize = 0;
    proof {
        assert(start + not_among(all.take(0), views(allowed@)) =~= start);
    }
    while i < list.len()
        invariant
            i <= list@.len(),
            all == views(list@),
            views(out@) == start + not_among(all.take(i as int), views(allowed@)),
        decreases list@.len() - i,
    {
        proof {
            assert(all.take(i + 1).drop_last() =~= all.take(i as int));
            assert(all.take(i + 1).last() == list@[i as int]@);
        }
        if !holds_chars(allowed, list[i].as_slice()) {
            let ghost before = out@;
            out.push(copy_chars(list[i].as_slice()));
            proof {
                lemma_views_push(before, out@.last());
                assert(views(out@) =~= start + not_among(all.take(i + 1), views(allowed@)));
            }
        }
        i += 1;
    }
    proof {
        assert(all.take(i as int) =~= all);
    }
}

fn forbidden_names_of(chapter: &Chapter, sources: &[String], allowed: &[Vec<char>]) -> (r: Vec<
    Vec<char>,
>)
    ensures
        views(r@) == forbidden_names(chapter@, views(sources@), views(allowed@)),
{
    let ghost all = views(sources@);
    let mut out: Vec<Vec<char>> = Vec::new();
    let mut i: usize = 0;
    proof {
        assert(views(out@) =~= forbidden_names(chapter@, all.take(0), views(allowed@)));
    }
    while i < sources.len()
        invariant
            i <= sources@.len(),
            all == views(sources@),
            views(out@) == forbidden_names(chapter@, all.take(i as int), views(allowed@)),
        decreases sources@.len() - i,
    {
        proof {
            assert(all.take(i + 1).drop_last() =~= all.take(i as int));
            assert(all.take(i + 1).last() == sources@[i as int]@);
        }
        let used = used_names_of(chapter, sources[i].as_str());
        add_not_among(&mut out, used.as_slice(), allowed);
        i += 1;
    }
    proof {
        assert(all.take(i as int) =~= all);
    }
    out
}

/// The names of the old protagonist that are left in a rewritten chapter.
pub open spec fn left_names(
    chapter: ChapterView,
    rewrite: ParsedChapterRewriteView,
    settings: NovelSettingsView,
) -> Seq<Seq<char>> {
    sort_distinct(
        occurring(
            forbidden_names(
                chapter,
                source_names(settings),
                derived_names(settings.rewritten_protagonist_name),
            ),
            rewrite_body(rewrite),
        ),
        true,
    )
}

pub open spec fn residue_issue(
    chapter: ChapterView,
    left: Seq<Seq<char>>,
    sources: Seq<Seq<char>>,
) -> ReviewIssueView {
    chapter_issue(
        chapter.index,
        "source_name_residue"@,
        "分片索引 "@ + decimal(chapter.index as int) + " 的改写稿仍残留主角原名或派生称呼："@ + join(left, "、"@)
            + "。"@,
        "这些称呼来自原文主角“"@ + join(sources, "、"@)
            + "”，必须按姓名映射或改写名统一女性化；不要保留完整原名、原名派生昵称或男性化称谓。"@,
    )
}

/// The issues about old names that are left, chapter by chapter.
pub open spec fn residue_issues(
    chapters: Seq<ChapterView>,
    rewrites: Seq<ParsedChapterRewriteView>,
    settings: NovelSettingsView,
) -> Seq<ReviewIssueView>
    decreases chapters.len(),
{
    if chapters.len() == 0 {
        Seq::empty()
    } else {
        let before = residue_issues(chapters.drop_last(), rewrites, settings);
        let chapter = chapters.last();
        match rewrite_with_id(rewrites, chapter.id) {
            Some(rewrite) => {
                let left = left_names(chapter, rewrite, settings);
                if left.len() == 0 {
                    before
                } else {
                    before.push(residue_issue(chapter, left, source_names(settings)))
                }
            },
            None => before,
        }
    }
}

proof fn lemma_no_sources_no_residue(
    chapters: Seq<ChapterView>,
    rewrites: Seq<ParsedChapterRewriteView>,
    settings: NovelSettingsView,
)
    requires
        source_names(settings).len() == 0,
    ensures
        residue_issues(chapters, rewrites, settings).len() == 0,
    decreases chapters.len(),
{
    if chapters.len() > 0 {
        lemma_no_sources_no_residue(chapters.drop_last(), rewrites, settings);
    }
}

pub fn detect_protagonist_derived_name_residue(
    chapters: &[Chapter],
    rewrites: &[ParsedChapterRewrite],
    settings: &NovelSettings,
) -> (r: Vec<ReviewIssue>)
    ensures
        views(r@) == residue_issues(views(chapters@), views(rewrites@), settings@),
{
    let sources = protagonist_source_names(settings);
    let mut issues: Vec<ReviewIssue> = Vec::new();
    if sources.len() == 0 {
        proof {
            lemma_no_sources_no_residue(views(chapters@), views(rewrites@), settings@);
            assert(views(issues@) =~= residue_issues(
                views(chapters@),
                views(rewrites@),
                settings@,
            ));
        }
        return issues;
    }
    let allowed = derived_names_of(settings.rewritten_protagonist_name.as_str());
    let ghost all = views(chapters@);
    let ghost list = views(rewrites@);
    let mut i: usize = 0;
    proof {
        assert(views(issues@) =~= residue_issues(all.take(0), list, settings@));
    }
    while i < chapters.len()
        invariant
            i <= chapters@.len(),
            all == views(chapters@),
            list == views(rewrites@),
            views(sources@) == source_names(settings@),
            views(allowed@) == derived_names(settings.rewritten_protagonist_name@),
            views(issues@) == residue_issues(all.take(i as int), list, settings@),
        decreases chapters@.len() - i,
    {
        let chapter = &chapters[i];
        proof {
            assert(all.take(i + 1).drop_last() =~= all.take(i as int));
            assert(all.take(i + 1).last() == chapter@);
        }
        if let Some(rewrite) = find_rewrite(rewrites, chapter.id.as_str()) {
            let candidates = forbidden_names_of(chapter, sources.as_slice(), allowed.as_slice());
            let body = body_of(rewrite);
            let text = chars_of(body.as_str());
            let found = keep_occurring(candidates.as_slice(), text.as_slice());
            let sorted = sort_distinct_texts(found.as_slice(), true);
            if sorted.len() > 0 {
                let left = strings_of(sorted.as_slice());
                let names = join_texts(left.as_slice(), "、");
                let number = i64_text(chapter.index);
                let mut problem = "分片索引 ".to_string();
                problem.append(number.as_str());
                problem.append(" 的改写稿仍残留主角原名或派生称呼：");
                problem.append(names.as_str());
                problem.append("。");
                let old_names = join_texts(sources.as_slice(), "、");
                let mut fix = "这些称呼来自原文主角“".to_string();
                fix.append(old_names.as_str());
                fix.append(
                    "”，必须按姓名映射或改写名统一女性化；不要保留完整原名、原名派生昵称或男性化称谓。",
                );
                let ghost before = issues@;
                issues.push(make_chapter_issue(chapter.index, "source_name_residue", problem, fix));
                proof {
                    lemma_views_push(before, issues@.last());
                }
            }
        }
        i += 1;
    }
    proof {
        assert(all.take(i as int) =~= all);
    }
    issues
}

// ---- the logic of names ---------------------------------------------------------------------
/// Whether a character ends a sentence.
pub open spec fn ends_sentence(c: char) -> bool {
    seq!['。', '！', '？', '!', '?', '\n'].contains(c)
}

/// The sentences that are complete, and the one that is not.
pub open spec fn sentence_scan(s: Seq<char>) -> (Seq<Seq<char>>, Seq<char>)
    decreases s.len(),
{
    if s.len() == 0 {
        (Seq::empty(), Seq::empty())
    } else {
        let (done, current) = sentence_scan(s.drop_last());
        let longer = current.push(s.last());
        if !ends_sentence(s.last()) {
            (done, longer)
        } else if blank(longer) {
            (done, Seq::empty())
        } else {
            (done.push(trim(longer)), Seq::empty())
        }
    }
}

/// The sentences of a text, trimmed; what ends a sentence belongs to it.
pub open spec fn sentences(s: Seq<char>) -> Seq<Seq<char>> {
    let (done, current) = sentence_scan(s);
    if blank(current) {
        done
    } else {
        done.push(trim(current))
    }
}

fn sentences_of(s: &[char]) -> (r: Vec<Vec<char>>)
    ensures
        views(r@) == sentences(s@),
{
    let marks: [char; 6] = ['。', '！', '？', '!', '?', '\n'];
    proof {
        assert(marks@ =~= seq!['。', '！', '？', '!', '?', '\n']);
    }
    let mut out: Vec<Vec<char>> = Vec::new();
    let mut current: Vec<char> = Vec::new();
    let mut i: usize = 0;
    proof {
        assert(views(out@) =~= Seq::<Seq<char>>::empty());
    }
    while i < s.len()
        invariant
            i <= s@.len(),
            marks@ == seq!['。', '！', '？', '!', '?', '\n'],
            sentence_scan(s@.take(i as int)) == (views(out@), current@),
        decreases s@.len() - i,
    {
        let c = s[i];
        proof {
            assert(s@.take(i + 1).drop_last() =~= s@.take(i as int));
        }
        current.push(c);
        if holds_char(&marks, c) {
            let sentence = trim_chars(current.as_slice());
            if sentence.len() > 0 {
                let ghost before = out@;
                out.push(copy_chars(sentence));
                proof {
                    lemma_views_push(before, out@.last());
                }
            }
            current = Vec::new();
        }
        i += 1;
    }
    proof {
        assert(s@.take(i as int) =~= s@);
    }
    let sentence = trim_chars(current.as_slice());
    if sentence.len() > 0 {
        let ghost before = out@;
        out.push(copy_chars(sentence));
        proof {
            lemma_views_push(before, out@.last());
        }
    }
    out
}

pub fn split_review_sentences(text: &str) -> (r: Vec<String>)
    ensures
        views(r@) == sentences(text@),
{
    let all = chars_of(text);
    let list = sentences_of(all.as_slice());
    strings_of(list.as_slice())
}

/// The old name, the given name and its last character, the short ones first.
pub open spec fn legacy_parts(source: Seq<char>) -> Seq<Seq<char>> {
    let name = trim(source);
    if name.len() == 0 {
        Seq::empty()
    } else if name.len() == 1 {
        sort_distinct(seq![name], true)
    } else {
        sort_distinct(seq![name, name.skip(1), seq![name.last()]], true)
    }
}

fn legacy_parts_of(source: &str) -> (r: Vec<Vec<char>>)
    ensures
        views(r@) == legacy_parts(source@),
{
    let all = chars_of(source);
    let name = trim_chars(all.as_slice());
    let mut parts: Vec<Vec<char>> = Vec::new();
    if name.len() == 0 {
        proof {
            assert(views(parts@) =~= Seq::<Seq<char>>::empty());
        }
        return parts;
    }
    parts.push(copy_chars(name));
    if name.len() >= 2 {
        let given = slice_subrange(name, 1, name.len());
        let last = slice_subrange(name, name.len() - 1, name.len());
        proof {
            assert(given@ =~= name@.skip(1));
            assert(last@ =~= seq![name@.last()]);
        }
        parts.push(copy_chars(given));
        parts.push(copy_chars(last));
        proof {
            assert(views(parts@) =~= seq![name@, name@.skip(1), seq![name@.last()]]);
        }
    } else {
        proof {
            assert(views(parts@) =~= seq![name@]);
        }
    }
    sort_distinct_texts(parts.as_slice(), true)
}

pub fn protagonist_legacy_name_parts(source_name: &str) -> (r: Vec<String>)
    ensures
        views(r@) == legacy_parts(source_name@),
{
    let list = legacy_parts_of(source_name);
    strings_of(list.as_slice())
}

/// Whether a sentence about a name is one about the protagonist.
pub open spec fn points_to_protagonist(sentence: Seq<char>, rewritten: Seq<char>) -> bool {
    (rewritten.len() > 0 && holds(sentence, rewritten)) || holds_any(
        sentence,
        legacy_subject_words(),
    )
}

pub fn legacy_name_sentence_points_to_protagonist(sentence: &str, rewritten_name: &str) -> (r: bool)
    ensures
        r == points_to_protagonist(sentence@, rewritten_name@),
{
    (!rewritten_name.is_empty() && text_has(sentence, rewritten_name))
        || holds_legacy_subject_words(sentence)
}

/// The turns of phrase that explain a name by a part of it.
pub open spec fn naming_phrases(part: Seq<char>) -> Seq<Seq<char>> {
    seq![
        "以"@ + part + "为名"@,
        "以“"@ + part + "”为名"@,
        "以‘"@ + part + "’为名"@,
        part + "为名"@,
        "名中带"@ + part,
        "名字里有"@ + part,
        "名字中有"@ + part,
        "名里有"@ + part,
        "名叫"@ + part,
    ]
}

/// Words that speak of a name as such.
pub open spec fn name_nouns() -> Seq<Seq<char>> {
    seq!["同名"@, "原名"@, "旧名"@, "本名"@]
}

/// Whether a sentence explains or mentions a name by a part of the old one.
pub open spec fn explains_by(sentence: Seq<char>, part: Seq<char>) -> bool {
    part.len() > 0 && (holds_any(sentence, naming_phrases(part)) || (holds_any(
        sentence,
        name_nouns(),
    ) && holds(sentence, part)))
}

fn phrase(before: &str, part: &str, behind: &str) -> (r: String)
    ensures
        r@ == before@ + part@ + behind@,
{
    let mut out = before.to_string();
    out.append(part);
    out.append(behind);
    out
}

pub fn contains_legacy_name_semantic_pattern(sentence: &str, legacy_part: &str) -> (r: bool)
    ensures
        r == explains_by(sentence@, legacy_part@),
{
    if legacy_part.is_empty() {
        return false;
    }
    let p1 = phrase("以", legacy_part, "为名");
    let p2 = phrase("以“", legacy_part, "”为名");
    let p3 = phrase("以‘", legacy_part, "’为名");
    let mut p4 = legacy_part.to_string();
    p4.append("为名");
    let mut p5 = "名中带".to_string();
    p5.append(legacy_part);
    let mut p6 = "名字里有".to_string();
    p6.append(legacy_part);
    let mut p7 = "名字中有".to_string();
    p7.append(legacy_part);
    let mut p8 = "名里有".to_string();
    p8.append(legacy_part);
    let mut p9 = "名叫".to_string();
    p9.append(legacy_part);
    let list: Vec<&str> = vec![
        p1.as_str(),
        p2.as_str(),
        p3.as_str(),
        p4.as_str(),
        p5.as_str(),
        p6.as_str(),
        p7.as_str(),
        p8.as_str(),
        p9.as_str(),
    ];
    proof {
        assert(views(list@) =~= naming_phrases(legacy_part@));
    }
    if contains_any(sentence, list.as_slice()) {
        return true;
    }
    let nouns: Vec<&str> = vec!["同名", "原名", "旧名", "本名"];
    proof {
        assert(views(nouns@) =~= name_nouns());
    }
    contains_any(sentence, nouns.as_slice()) && text_has(sentence, legacy_part)
}

/// Whether a sentence explains a name by one of the parts.
pub open spec fn explains_by_any(sentence: Seq<char>, parts: Seq<Seq<char>>) -> bool {
    exists|k: int| 0 <= k < parts.len() && explains_by(sentence, #[trigger] parts[k])
}

fn explains_by_some(sentence: &str, parts: &[String]) -> (r: bool)
    ensures
        r == explains_by_any(sentence@, views(parts@)),
{
    let ghost all = views(parts@);
    let mut k: usize = 0;
    while k < parts.len()
        invariant
            k <= parts@.len(),
            all == views(parts@),
            forall|j: int| 0 <= j < k ==> !explains_by(sentence@, #[trigger] all[j]),
        decreases parts@.len() - k,
    {
        proof {
            assert(all[k as int] == parts@[k as int]@);
        }
        if contains_legacy_name_semantic_pattern(sentence, parts[k].as_str()) {
            return true;
        }
        k += 1;
    }
    false
}

/// The sentences that explain the protagonist's name by the old one, cut to a length.
pub open spec fn conflicting(
    list: Seq<Seq<char>>,
    parts: Seq<Seq<char>>,
    rewritten: Seq<char>,
) -> Seq<Seq<char>>
    decreases list.len(),
{
    if list.len() == 0 {
        Seq::empty()
    } else {
        let before = conflicting(list.drop_last(), parts, rewritten);
        let s = trim(list.last());
        if s.len() > 0 && points_to_protagonist(s, rewritten) && explains_by_any(s, parts) {
            before.push(head(s, 180))
        } else {
            before
        }
    }
}

/// The evidence that a text still follows the logic of the old name.
pub open spec fn name_conflicts(
    text: Seq<char>,
    source: Seq<char>,
    rewritten: Seq<char>,
) -> Seq<Seq<char>> {
    if legacy_parts(source).len() == 0 {
        Seq::empty()
    } else {
        sort_distinct(conflicting(sentences(text), legacy_parts(source), rewritten), false)
    }
}

pub fn protagonist_name_logic_conflict_evidence(
    text: &str,
    source_name: &str,
    rewritten_name: &str,
) -> (r: Vec<String>)
    ensures
        views(r@) == name_conflicts(text@, source_name@, rewritten_name@),
{
    let parts = protagonist_legacy_name_parts(source_name);
    if parts.len() == 0 {
        let none: Vec<String> = Vec::new();
        proof {
            assert(views(none@) =~= Seq::<Seq<char>>::empty());
        }
        return none;
    }
    let list = split_review_sentences(text);
    let ghost all = views(list@);
    let mut found: Vec<Vec<char>> = Vec::new();
    let mut i: usize = 0;
    proof {
        assert(views(found@) =~= conflicting(all.take(0), views(parts@), rewritten_name@));
    }
    while i < list.len()
        invariant
            i <= list@.len(),
            all == views(list@),
            views(found@) == conflicting(all.take(i as int), views(parts@), rewritten_name@),
        decreases list@.len() - i,
    {
        proof {
            assert(all.take(i + 1).drop_last() =~= all.take(i as int));
            assert(all.take(i + 1).last() == list@[i as int]@);
        }
        let sentence = trimmed(list[i].as_str());
        if !sentence.as_str().is_empty() && legacy_name_sentence_points_to_protagonist(
            sentence.as_str(),
            rewritten_name,
        ) && explains_by_some(sentence.as_str(), parts.as_slice()) {
            let short = truncate_text(sentence.as_str(), 180);
            let ghost before = found@;
            found.push(chars_of(short.as_str()));
            proof {
                lemma_views_push(before, found@.last());
            }
        }
        i += 1;
    }
    proof {
        assert(all.take(i as int) =~= all);
    }
    let sorted = sort_distinct_texts(found.as_slice(), false);
    strings_of(sorted.as_slice())
}

/// The evidence for all old names, one name after the other.
pub open spec fn all_name_conflicts(
    text: Seq<char>,
    sources: Seq<Seq<char>>,
    rewritten: Seq<char>,
) -> Seq<Seq<char>>
    decreases sources.len(),
{
    if sources.len() == 0 {
        Seq::empty()
    } else {
        all_name_conflicts(text, sources.drop_last(), rewritten) + name_conflicts(
            text,
            sources.last(),
            rewritten,
        )
    }
}

fn collect_name_conflicts(text: &str, sources: &[String], rewritten: &str) -> (r: Vec<String>)
    ensures
        views(r@) == all_name_conflicts(text@, views(sources@), rewritten@),
{
    let ghost all = views(sources@);
    let mut out: Vec<String> = Vec::new();
    let mut i: usize = 0;
    proof {
        assert(views(out@) =~= all_name_conflicts(text@, all.take(0), rewritten@));
    }
    while i < sources.len()
        invariant
            i <= sources@.len(),
            all == views(sources@),
            views(out@) == all_name_conflicts(text@, all.take(i as int), rewritten@),
        decreases sources@.len() - i,
    {
        proof {
            assert(all.take(i + 1).drop_last() =~= all.take(i as int));
            assert(all.take(i + 1).last() == sources@[i as int]@);
        }
        let ghost before = views(out@);
        let mut more = protagonist_name_logic_conflict_evidence(
            text,
            sources[i].as_str(),
            rewritten,
        );
        let ghost added = views(more@);
        out.append(&mut more);
        proof {
            assert(views(out@) =~= before + added);
        }
        i += 1;
    }
    proof {
        assert(all.take(i as int) =~= all);
    }
    out
}

pub open spec fn name_logic_issue(
    chapter: ChapterView,
    evidence: Seq<Seq<char>>,
    settings: NovelSettingsView,
) -> ReviewIssueView {
    chapter_issue(
        chapter.index,
        "name_logic_inconsistency"@,
        "分片索引 "@ + decimal(chapter.index as int) + " 的改写稿存在主角改名后的姓名逻辑矛盾："@ + join(
            evidence,
            " / "@,
        ) + "。"@,
        "主角已从“"@ + trim(settings.protagonist_name) + "”改写为“"@ + trim(
            settings.rewritten_protagonist_name,
        )
            + "”，涉及同名、旧名、姓名来源、以旧名某字为名等句子必须同步改写为与新姓名一致的逻辑；不得把仅共享单字的未指定 NPC 当作主角改名。"@,
    )
}

pub open spec fn chapter_name_conflicts(
    rewrite: ParsedChapterRewriteView,
    settings: NovelSettingsView,
) -> Seq<Seq<char>> {
    all_name_conflicts(
        rewrite_body(rewrite),
        source_names(settings),
        trim(settings.rewritten_protagonist_name),
    )
}

/// The issues about the logic of the name, chapter by chapter; none where a name is missing.
pub open spec fn name_logic_issues(
    chapters: Seq<ChapterView>,
    rewrites: Seq<ParsedChapterRewriteView>,
    settings: NovelSettingsView,
) -> Seq<ReviewIssueView>
    decreases chapters.len(),
{
    if chapters.len() == 0 || blank(settings.protagonist_name) || blank(
        settings.rewritten_protagonist_name,
    ) {
        Seq::empty()
    } else {
        let before = name_logic_issues(chapters.drop_last(), rewrites, settings);
        match rewrite_with_id(rewrites, chapters.last().id) {
            Some(rewrite) => {
                let evidence = chapter_name_conflicts(rewrite, settings);
                if evidence.len() == 0 {
                    before
                } else {
                    before.push(name_logic_issue(chapters.last(), evidence, settings))
                }
            },
            None => before,
        }
    }
}

pub fn detect_protagonist_name_logic_inconsistency(
    chapters: &[Chapter],
    rewrites: &[ParsedChapterRewrite],
    settings: &NovelSettings,
) -> (r: Vec<ReviewIssue>)
    ensures
        views(r@) == name_logic_issues(views(chapters@), views(rewrites@), settings@),
{
    let source_name = trimmed(settings.protagonist_name.as_str());
    let rewritten_name = trimmed(settings.rewritten_protagonist_name.as_str());
    let mut issues: Vec<ReviewIssue> = Vec::new();
    proof {
        assert(views(issues@) =~= Seq::<ReviewIssueView>::empty());
    }
    if source_name.as_str().is_empty() || rewritten_name.as_str().is_empty() {
        return issues;
    }
    let sources = protagonist_source_names(settings);
    let ghost all = views(chapters@);
    let ghost list = views(rewrites@);
    let mut i: usize = 0;
    while i < chapters.len()
        invariant
            i <= chapters@.len(),
            all == views(chapters@),
            list == views(rewrites@),
            source_name@ == trim(settings.protagonist_name@),
            rewritten_name@ == trim(settings.rewritten_protagonist_name@),
            source_name@.len() > 0,
            rewritten_name@.len() > 0,
            views(sources@) == source_names(settings@),
            views(issues@) == name_logic_issues(all.take(i as int), list, settings@),
        decreases chapters@.len() - i,
    {
        let chapter = &chapters[i];
        proof {
            assert(all.take(i + 1).drop_last() =~= all.take(i as int));
            assert(all.take(i + 1).last() == chapter@);
        }
        if let Some(rewrite) = find_rewrite(rewrites, chapter.id.as_str()) {
            let body = body_of(rewrite);
            let evidence = collect_name_conflicts(
                body.as_str(),
                sources.as_slice(),
                rewritten_name.as_str(),
            );
            if evidence.len() > 0 {
                let list_text = join_texts(evidence.as_slice(), " / ");
                let number = i64_text(chapter.index);
                let mut problem = "分片索引 ".to_string();
                problem.append(number.as_str());
                problem.append(" 的改写稿存在主角改名后的姓名逻辑矛盾：");
                problem.append(list_text.as_str());
                problem.append("。");
                let mut fix = "主角已从“".to_string();
                fix.append(source_name.as_str());
                fix.append("”改写为“");
                fix.append(rewritten_name.as_str());
                fix.append(
                    "”，涉及同名、旧名、姓名来源、以旧名某字为名等句子必须同步改写为与新姓名一致的逻辑；不得把仅共享单字的未指定 NPC 当作主角改名。",
                );
                let ghost before = issues@;
                issues.push(
                    make_chapter_issue(chapter.index, "name_logic_inconsistency", problem, fix),
                );
                proof {
                    lemma_views_push(before, issues@.last());
                }
            }
        }
        i += 1;
    }
    proof {
        assert(all.take(i as int) =~= all);
    }
    issues
}

} // verus!
