//! Pronouns of groups: a family with men in it stays a mixed group, also where its best known
//! member is a woman now.
use vstd::prelude::*;
use vstd::slice::slice_subrange;
use crate::domain::{
    Chapter, ChapterView, Duplicate, NovelSettings, NovelSettingsView, ParsedChapterRewrite,
    ParsedChapterRewriteView, ReviewDecision, ReviewIssue, ReviewIssueView,
};
use crate::keywords::contains_any;
use crate::residue::{
    chapter_issue, chapter_with_id, detect_protagonist_derived_name_residue,
    detect_protagonist_name_logic_inconsistency, find_chapter, find_rewrite, make_chapter_issue,
    name_logic_issues, residue_issues, rewrite_with_id, sentences, split_review_sentences,
};
use crate::review_filter::{body_of, issue_line, review_issue_text, rewrite_body};
use crate::text::{
    chars_of, count_chars, count_matches, decimal, holds, holds_any, holds_text, i64_text, join,
    join_texts, lemma_views_push, matches_at, replace_all, replace_chars, starts, string_of,
    text_has, views,
};

verus! {

/// A plural form of the original and the form that a rewrite must not make of it.
pub struct GroupForm {
    pub source: Seq<char>,
    pub target: Seq<char>,
}

/// The two forms that are watched.
pub open spec fn group_forms() -> Seq<GroupForm> {
    seq![
        GroupForm { source: "他们家"@, target: "她们家"@ },
        GroupForm { source: "他们一家"@, target: "她们一家"@ },
    ]
}

/// Words for men in a family.
pub open spec fn male_family_words() -> Seq<Seq<char>> {
    seq![
        "父亲"@,
        "父母"@,
        "爸爸"@,
        "爸妈"@,
        "儿子"@,
        "兄弟"@,
        "哥哥"@,
        "弟弟"@,
        "丈夫"@,
        "爷爷"@,
        "叔叔"@,
        "伯伯"@,
    ]
}

fn names_male_family(text: &str) -> (r: bool)
    ensures
        r == holds_any(text@, male_family_words()),
{
    let list: Vec<&str> = vec![
        "父亲",
        "父母",
        "爸爸",
        "爸妈",
        "儿子",
        "兄弟",
        "哥哥",
        "弟弟",
        "丈夫",
        "爷爷",
        "叔叔",
        "伯伯",
    ];
    proof {
        assert(views(list@) =~= male_family_words());
    }
    contains_any(text, list.as_slice())
}

/// A sentence with the one before and the one behind it.
pub open spec fn around(list: Seq<Seq<char>>, i: int) -> Seq<char> {
    let from = if i > 0 {
        i - 1
    } else {
        0
    };
    let to = if i + 2 < list.len() {
        i + 2
    } else {
        list.len() as int
    };
    join(list.subrange(from, to), ""@)
}

/// Whether a sentence uses the form and men of a family are spoken of around it.
pub open spec fn mixed_family(list: Seq<Seq<char>>, source: Seq<char>) -> bool {
    exists|i: int|
        0 <= i < list.len() && holds(#[trigger] list[i], source) && holds_any(
            around(list, i),
            male_family_words(),
        )
}

fn is_mixed_family(list: &[String], source: &str) -> (r: bool)
    ensures
        r == mixed_family(views(list@), source@),
{
    let ghost all = views(list@);
    let mut i: usize = 0;
    while i < list.len()
        invariant
            i <= list@.len(),
            all == views(list@),
            forall|k: int|
                0 <= k < i ==> !(holds(#[trigger] all[k], source@) && holds_any(
                    around(all, k),
                    male_family_words(),
                )),
        decreases list@.len() - i,
    {
        proof {
            assert(all[i as int] == list@[i as int]@);
        }
        if text_has(list[i].as_str(), source) {
            let from: usize = if i > 0 {
                i - 1
            } else {
                0
            };
            let to: usize = if list.len() - i > 2 {
                i + 2
            } else {
                list.len()
            };
            let context = join_texts(slice_subrange(list, from, to), "");
            proof {
                assert(views(list@.subrange(from as int, to as int)) =~= all.subrange(
                    from as int,
                    to as int,
                ));
            }
            if names_male_family(context.as_str()) {
                return true;
            }
        }
        i += 1;
    }
    false
}

pub open spec fn group_issue(chapter: ChapterView, form: GroupForm) -> ReviewIssueView {
    chapter_issue(
        chapter.index,
        "identity"@,
        "分片索引 "@ + decimal(chapter.index as int) + " 把原文混合性别家庭称呼“"@ + form.source + "”误改为“"@
            + form.target + "”。"@,
        "将“"@ + form.target + "”改为“"@ + form.source + "”或单数“她家”；家庭中的男性成员不得被复数女性代词覆盖。"@,
    )
}

/// Whether a rewritten chapter has made a mixed family female.
pub open spec fn group_changed(
    chapter: ChapterView,
    rewrite: ParsedChapterRewriteView,
    form: GroupForm,
) -> bool {
    holds(rewrite_body(rewrite), form.target) && mixed_family(
        sentences(chapter.original_text),
        form.source,
    )
}

pub open spec fn with_group_issue(
    issues: Seq<ReviewIssueView>,
    chapter: ChapterView,
    rewrite: ParsedChapterRewriteView,
    form: GroupForm,
) -> Seq<ReviewIssueView> {
    if group_changed(chapter, rewrite, form) {
        issues.push(group_issue(chapter, form))
    } else {
        issues
    }
}

/// The issues about pronouns of groups, chapter by chapter.
pub open spec fn group_issues(
    chapters: Seq<ChapterView>,
    rewrites: Seq<ParsedChapterRewriteView>,
) -> Seq<ReviewIssueView>
    decreases chapters.len(),
{
    if chapters.len() == 0 {
        Seq::empty()
    } else {
        let before = group_issues(chapters.drop_last(), rewrites);
        let chapter = chapters.last();
        match rewrite_with_id(rewrites, chapter.id) {
            Some(rewrite) => with_group_issue(
                with_group_issue(before, chapter, rewrite, group_forms()[0]),
                chapter,
                rewrite,
                group_forms()[1],
            ),
            None => before,
        }
    }
}

fn add_group_issue(
    issues: &mut Vec<ReviewIssue>,
    chapter: &Chapter,
    rewrite: &ParsedChapterRewrite,
    source: &str,
    target: &str,
)
    ensures
        views(final(issues)@) == with_group_issue(
            views(old(issues)@),
            chapter@,
            rewrite@,
            (GroupForm { source: source@, target: target@ }),
        ),
{
    let body = body_of(rewrite);
    if !text_has(body.as_str(), target) {
        return ;
    }
    let list = split_review_sentences(chapter.original_text.as_str());
    if !is_mixed_family(list.as_slice(), source) {
        return ;
    }
    let number = i64_text(chapter.index);
    let mut problem = "分片索引 ".to_string();
    problem.append(number.as_str());
    problem.append(" 把原文混合性别家庭称呼“");
    problem.append(source);
    problem.append("”误改为“");
    problem.append(target);
    problem.append("”。");
    let mut fix = "将“".to_string();
    fix.append(target);
    fix.append("”改为“");
    fix.append(source);
    fix.append("”或单数“她家”；家庭中的男性成员不得被复数女性代词覆盖。");
    let issue = make_chapter_issue(chapter.index, "identity", problem, fix);
    proof {
        lemma_views_push(issues@, issue);
    }
    issues.push(issue);
}

pub fn detect_mixed_group_pronoun_regressions(
    chapters: &[Chapter],
    rewrites: &[ParsedChapterRewrite],
) -> (r: Vec<ReviewIssue>)
    ensures
        views(r@) == group_issues(views(chapters@), views(rewrites@)),
{
    let ghost all = views(chapters@);
    let ghost list = views(rewrites@);
    let mut issues: Vec<ReviewIssue> = Vec::new();
    let mut i: usize = 0;
    proof {
        assert(views(issues@) =~= group_issues(all.take(0), list));
    }
    while i < chapters.len()
        invariant
            i <= chapters@.len(),
            all == views(chapters@),
            list == views(rewrites@),
            views(issues@) == group_issues(all.take(i as int), list),
        decreases chapters@.len() - i,
    {
        let chapter = &chapters[i];
        proof {
            assert(all.take(i + 1).drop_last() =~= all.take(i as int));
            assert(all.take(i + 1).last() == chapter@);
        }
        if let Some(rewrite) = find_rewrite(rewrites, chapter.id.as_str()) {
            add_group_issue(&mut issues, chapter, rewrite, "他们家", "她们家");
            add_group_issue(&mut issues, chapter, rewrite, "他们一家", "她们一家");
        }
        i += 1;
    }
    proof {
        assert(all.take(i as int) =~= all);
    }
    issues
}

/// Whether a form stands once in the original and its female form once in the rewrite, so that
/// there is no doubt where it has to be put right.
pub open spec fn correctable(chapter: ChapterView, text: Seq<char>, form: GroupForm) -> bool {
    &&& count_matches(chapter.original_text, form.source) == 1
    &&& count_matches(text, form.target) == 1
    &&& mixed_family(sentences(chapter.original_text), form.source)
}

pub open spec fn corrected_form(
    chapter: ChapterView,
    text: Seq<char>,
    form: GroupForm,
) -> Seq<char> {
    if correctable(chapter, text, form) {
        replace_all(text, form.target, form.source)
    } else {
        text
    }
}

/// A rewrite with the forms put right that can be, by the chapter it belongs to.
pub open spec fn corrected(
    chapters: Seq<ChapterView>,
    rewrite: ParsedChapterRewriteView,
) -> ParsedChapterRewriteView {
    match chapter_with_id(chapters, rewrite.id) {
        Some(chapter) => ParsedChapterRewriteView {
            text: corrected_form(
                chapter,
                corrected_form(chapter, rewrite.text, group_forms()[0]),
                group_forms()[1],
            ),
            ..rewrite
        },
        None => rewrite,
    }
}

/// How many forms of a rewrite are put right.
pub open spec fn correction_count(
    chapters: Seq<ChapterView>,
    rewrite: ParsedChapterRewriteView,
) -> nat {
    match chapter_with_id(chapters, rewrite.id) {
        Some(chapter) => (if correctable(chapter, rewrite.text, group_forms()[0]) {
            1nat
        } else {
            0nat
        }) + (if correctable(
            chapter,
            corrected_form(chapter, rewrite.text, group_forms()[0]),
            group_forms()[1],
        ) {
            1nat
        } else {
            0nat
        }),
        None => 0,
    }
}

pub open spec fn total_corrections(
    chapters: Seq<ChapterView>,
    rewrites: Seq<ParsedChapterRewriteView>,
) -> nat
    decreases rewrites.len(),
{
    if rewrites.len() == 0 {
        0
    } else {
        total_corrections(chapters, rewrites.drop_last()) + correction_count(
            chapters,
            rewrites.last(),
        )
    }
}

/// All rewrites with the forms put right that can be.
pub open spec fn all_corrected(
    chapters: Seq<ChapterView>,
    rewrites: Seq<ParsedChapterRewriteView>,
) -> Seq<ParsedChapterRewriteView> {
    Seq::new(rewrites.len(), |i: int| corrected(chapters, rewrites[i]))
}

fn correct_form(chapter: &Chapter, text: &str, source: &str, target: &str) -> (r: Option<String>)
    ensures
        match r {
            Some(s) => correctable(
                chapter@,
                text@,
                (GroupForm { source: source@, target: target@ }),
            ) && s@ == replace_all(text@, target@, source@),
            None => !correctable(
                chapter@,
                text@,
                (GroupForm { source: source@, target: target@ }),
            ),
        },
{
    let original = chars_of(chapter.original_text.as_str());
    let form = chars_of(source);
    let wrong = chars_of(target);
    let chars = chars_of(text);
    if count_chars(original.as_slice(), form.as_slice()) != 1 || count_chars(
        chars.as_slice(),
        wrong.as_slice(),
    ) != 1 {
        return None;
    }
    let list = split_review_sentences(chapter.original_text.as_str());
    if !is_mixed_family(list.as_slice(), source) {
        return None;
    }
    let fixed = replace_chars(chars.as_slice(), wrong.as_slice(), form.as_slice());
    Some(string_of(fixed.as_slice()))
}

/// Puts the forms right of which there is no doubt, and says how many they were.
pub fn correct_unambiguous_mixed_group_pronouns(
    chapters: &[Chapter],
    rewrites: &mut Vec<ParsedChapterRewrite>,
) -> (r: usize)
    requires
        old(rewrites)@.len() <= usize::MAX / 2,
    ensures
        views(final(rewrites)@) == all_corrected(views(chapters@), views(old(rewrites)@)),
        r == total_corrections(views(chapters@), views(old(rewrites)@)),
{
    let ghost start = views(rewrites@);
    let ghost all = views(chapters@);
    let ghost goal = all_corrected(all, start);
    let mut count: usize = 0;
    let mut i: usize = 0;
    while i < rewrites.len()
        invariant
            rewrites@.len() == start.len(),
            start.len() <= usize::MAX / 2,
            i <= start.len(),
            count <= 2 * i,
            all == views(chapters@),
            goal == all_corrected(all, start),
            count == total_corrections(all, start.take(i as int)),
            forall|k: int| 0 <= k < i ==> (#[trigger] rewrites@[k])@ == goal[k],
            forall|k: int| i <= k < start.len() ==> (#[trigger] rewrites@[k])@ == start[k],
        decreases start.len() - i,
    {
        proof {
            assert(start.take(i + 1).drop_last() =~= start.take(i as int));
            assert(start.take(i + 1).last() == rewrites@[i as int]@);
            assert(goal[i as int] == corrected(all, start[i as int]));
        }
        let mut rewrite = rewrites[i].duplicate();
        if let Some(chapter) = find_chapter(chapters, rewrite.id.as_str()) {
            if let Some(text) = correct_form(chapter, rewrite.text.as_str(), "他们家", "她们家") {
                rewrite.text = text;
                count += 1;
            }
            if let Some(text) = correct_form(
                chapter,
                rewrite.text.as_str(),
                "他们一家",
                "她们一家",
            ) {
                rewrite.text = text;
                count += 1;
            }
        }
        proof {
            assert(rewrite@ == goal[i as int]);
        }
        rewrites.set(i, rewrite);
        i += 1;
    }
    proof {
        assert(start.take(i as int) =~= start);
        assert(views(rewrites@) =~= goal);
    }
    count
}

// ---- all scans together ---------------------------------------------------------------------
/// What the scans find: old names, the logic of the name, and pronouns of groups.
pub open spec fn scan_issues(
    chapters: Seq<ChapterView>,
    rewrites: Seq<ParsedChapterRewriteView>,
    settings: NovelSettingsView,
) -> Seq<ReviewIssueView> {
    residue_issues(chapters, rewrites, settings) + name_logic_issues(chapters, rewrites, settings)
        + group_issues(chapters, rewrites)
}

/// The issues that say nothing yet said, in their order.
pub open spec fn new_issues(
    known: Seq<ReviewIssueView>,
    found: Seq<ReviewIssueView>,
) -> Seq<ReviewIssueView>
    decreases found.len(),
{
    if found.len() == 0 {
        Seq::empty()
    } else {
        let before = new_issues(known, found.drop_last());
        if issue_lines_of(known + before).contains(issue_line(found.last())) {
            before
        } else {
            before.push(found.last())
        }
    }
}

pub open spec fn issue_lines_of(issues: Seq<ReviewIssueView>) -> Seq<Seq<char>> {
    Seq::new(issues.len(), |i: int| issue_line(issues[i]))
}

fn collect_lines(issues: &[ReviewIssue]) -> (r: Vec<String>)
    ensures
        views(r@) == issue_lines_of(views(issues@)),
{
    let ghost all = views(issues@);
    let mut out: Vec<String> = Vec::new();
    let mut i: usize = 0;
    while i < issues.len()
        invariant
            i <= issues@.len(),
            all == views(issues@),
            views(out@) == issue_lines_of(all).take(i as int),
        decreases issues@.len() - i,
    {
        let ghost before = out@;
        out.push(review_issue_text(&issues[i]));
        proof {
            lemma_views_push(before, out@.last());
            assert(views(out@) =~= issue_lines_of(all).take(i + 1));
        }
        i += 1;
    }
    proof {
        assert(issue_lines_of(all).take(i as int) =~= issue_lines_of(all));
    }
    out
}

fn append_issues(out: &mut Vec<ReviewIssue>, more: Vec<ReviewIssue>)
    ensures
        views(final(out)@) == views(old(out)@) + views(more@),
{
    let ghost start = views(out@);
    let ghost added = views(more@);
    let mut rest = more;
    out.append(&mut rest);
    proof {
        assert(views(out@) =~= start + added);
    }
}

/// Adds the issues that say nothing yet said, and returns them.
pub fn add_new_issues(issues: &mut Vec<ReviewIssue>, found: &[ReviewIssue]) -> (r: Vec<ReviewIssue>)
    ensures
        views(r@) == new_issues(views(old(issues)@), views(found@)),
        views(final(issues)@) == views(old(issues)@) + new_issues(
            views(old(issues)@),
            views(found@),
        ),
{
    let ghost all = views(found@);
    let ghost known = views(issues@);
    let mut added: Vec<ReviewIssue> = Vec::new();
    let mut keys = collect_lines(issues.as_slice());
    let mut i: usize = 0;
    proof {
        assert(views(added@) =~= new_issues(known, all.take(0)));
        assert(views(issues@) =~= known + views(added@));
    }
    while i < found.len()
        invariant
            i <= found@.len(),
            all == views(found@),
            views(added@) == new_issues(known, all.take(i as int)),
            views(issues@) == known + views(added@),
            views(keys@) == issue_lines_of(known + views(added@)),
        decreases found@.len() - i,
    {
        proof {
            assert(all.take(i + 1).drop_last() =~= all.take(i as int));
            assert(all.take(i + 1).last() == found@[i as int]@);
        }
        let key = review_issue_text(&found[i]);
        if !holds_text(keys.as_slice(), key.as_str()) {
            let ghost before = views(added@);
            let ghost issue = found@[i as int]@;
            proof {
                lemma_views_push(keys@, key);
            }
            keys.push(key);
            let ghost old_added = added@;
            let ghost old_issues = issues@;
            added.push(found[i].duplicate());
            issues.push(found[i].duplicate());
            proof {
                lemma_views_push(old_added, added@.last());
                lemma_views_push(old_issues, issues@.last());
                assert(views(added@) =~= before.push(issue));
                assert(views(issues@) =~= known + before.push(issue));
                assert(views(keys@) =~= issue_lines_of(known + before.push(issue)));
            }
        }
        i += 1;
    }
    proof {
        assert(all.take(i as int) =~= all);
    }
    added
}

/// Adds what the scans find to a decision and returns what was added. Where they find nothing,
/// the decision stays as it is.
pub fn merge_deterministic_protagonist_residue_issues(
    decision: ReviewDecision,
    chapters: &[Chapter],
    rewrites: &[ParsedChapterRewrite],
    settings: &NovelSettings,
) -> (r: (ReviewDecision, Vec<ReviewIssue>))
    ensures
        ({
            let found = scan_issues(views(chapters@), views(rewrites@), settings@);
            let added = new_issues(decision@.issues, found);
            &&& views(r.1@) == added
            &&& r.0@.issues == decision@.issues + added
            &&& r.0.approved == if found.len() == 0 {
                decision.approved
            } else {
                (decision@.issues + added).len() == 0
            }
        }),
{
    let mut found = detect_protagonist_derived_name_residue(chapters, rewrites, settings);
    append_issues(
        &mut found,
        detect_protagonist_name_logic_inconsistency(chapters, rewrites, settings),
    );
    append_issues(&mut found, detect_mixed_group_pronoun_regressions(chapters, rewrites));
    let approved = decision.approved;
    let mut issues = decision.issues;
    let added = add_new_issues(&mut issues, found.as_slice());
    let approved = if found.len() == 0 {
        approved
    } else {
        issues.len() == 0
    };
    (ReviewDecision { approved, issues }, added)
}

// ---- laws -----------------------------------------------------------------------------------
/// Whether a form and the one to put in its place differ in their first character alone, and the
/// two first characters stand nowhere else in them.
pub open spec fn differ_at_the_start(form: GroupForm) -> bool {
    &&& form.target.len() > 0
    &&& form.source.len() == form.target.len()
    &&& form.source[0] != form.target[0]
    &&& forall|j: int|
        0 < j < form.target.len() ==> (#[trigger] form.target[j]) == form.source[j]
            && form.target[j] != form.target[0] && form.target[j] != form.source[0]
}

proof fn lemma_group_forms(k: int)
    requires
        0 <= k < 2,
    ensures
        differ_at_the_start(group_forms()[k]),
        group_forms()[k].target[0] == '她',
        group_forms()[k].source[0] == '他',
{
    reveal_strlit("他们家");
    reveal_strlit("她们家");
    reveal_strlit("他们一家");
    reveal_strlit("她们一家");
    let form = group_forms()[k];
    assert(form.target.len() == 3 || form.target.len() == 4);
    assert(form.target[1] == '们' && form.source[1] == '们');
    assert(form.target[2] == form.source[2]);
    if k == 1 {
        assert(form.target[3] == '家' && form.source[3] == '家');
    }
}

proof fn lemma_match_behind(t: Seq<char>, p: Seq<char>, n: int, i: int)
    requires
        0 <= n <= t.len(),
        0 <= i,
    ensures
        matches_at(t.subrange(n, t.len() as int), p, i) == matches_at(t, p, n + i),
{
    if n + i + p.len() <= t.len() {
        assert(t.subrange(n, t.len() as int).subrange(i, i + p.len()) =~= t.subrange(
            n + i,
            n + i + p.len(),
        ));
    }
}

proof fn lemma_match_chars(t: Seq<char>, p: Seq<char>, i: int)
    requires
        0 <= i,
        i + p.len() <= t.len(),
    ensures
        matches_at(t, p, i) == (forall|j: int| 0 <= j < p.len() ==> t[i + j] == #[trigger] p[j]),
{
    let part = t.subrange(i, i + p.len());
    if forall|j: int| 0 <= j < p.len() ==> t[i + j] == #[trigger] p[j] {
        assert(part =~= p);
    }
    if part == p {
        assert forall|j: int| 0 <= j < p.len() implies t[i + j] == #[trigger] p[j] by {
            assert(part[j] == p[j]);
        }
    }
}

/// The text with the form put right everywhere, character by character.
proof fn lemma_replaced_chars(t: Seq<char>, form: GroupForm)
    requires
        differ_at_the_start(form),
    ensures
        ({
            let u = replace_all(t, form.target, form.source);
            &&& u.len() == t.len()
            &&& forall|i: int|
                0 <= i < t.len() ==> #[trigger] u[i] == if matches_at(t, form.target, i) {
                    form.source[0]
                } else {
                    t[i]
                }
        }),
    decreases t.len(),
{
    let p = form.target;
    let u = replace_all(t, p, form.source);
    if t.len() >= p.len() {
        let n: int = if starts(t, p) {
            p.len() as int
        } else {
            1
        };
        let rest = t.subrange(n, t.len() as int);
        lemma_replaced_chars(rest, form);
        let tail = replace_all(rest, p, form.source);
        assert forall|i: int| 0 <= i < t.len() implies #[trigger] u[i] == if matches_at(t, p, i) {
            form.source[0]
        } else {
            t[i]
        } by {
            if i >= n {
                lemma_match_behind(t, p, n, i - n);
                assert(u[i] == tail[i - n]);
            } else if i > 0 {
                lemma_match_chars(t, p, 0);
                assert(t[0 + i] == p[i]);
                if matches_at(t, p, i) {
                    lemma_match_chars(t, p, i);
                    assert(t[i + 0] == p[0]);
                }
            }
        }
    }
}

proof fn lemma_no_match_no_count(t: Seq<char>, p: Seq<char>)
    requires
        forall|i: int| 0 <= i ==> !#[trigger] matches_at(t, p, i),
    ensures
        count_matches(t, p) == 0,
    decreases t.len(),
{
    if p.len() > 0 && t.len() >= p.len() {
        let rest = t.subrange(1, t.len() as int);
        assert forall|i: int| 0 <= i implies !#[trigger] matches_at(rest, p, i) by {
            lemma_match_behind(t, p, 1, i);
        }
        lemma_no_match_no_count(rest, p);
    }
}

proof fn lemma_same_matches_same_count(t: Seq<char>, u: Seq<char>, p: Seq<char>)
    requires
        t.len() == u.len(),
        forall|i: int| 0 <= i ==> #[trigger] matches_at(t, p, i) == matches_at(u, p, i),
    ensures
        count_matches(t, p) == count_matches(u, p),
    decreases t.len(),
{
    if p.len() > 0 && t.len() >= p.len() {
        assert(matches_at(t, p, 0) == matches_at(u, p, 0));
        let n: int = if starts(t, p) {
            p.len() as int
        } else {
            1
        };
        let a = t.subrange(n, t.len() as int);
        let b = u.subrange(n, u.len() as int);
        assert forall|i: int| 0 <= i implies #[trigger] matches_at(a, p, i) == matches_at(
            b,
            p,
            i,
        ) by {
            lemma_match_behind(t, p, n, i);
            lemma_match_behind(u, p, n, i);
            assert(matches_at(t, p, n + i) == matches_at(u, p, n + i));
        }
        lemma_same_matches_same_count(a, b, p);
    }
}

/// A form that was put right does not stand in the text any more.
proof fn lemma_put_right_is_gone(t: Seq<char>, form: GroupForm)
    requires
        differ_at_the_start(form),
    ensures
        count_matches(replace_all(t, form.target, form.source), form.target) == 0,
{
    let p = form.target;
    let u = replace_all(t, p, form.source);
    lemma_replaced_chars(t, form);
    assert forall|i: int| 0 <= i implies !#[trigger] matches_at(u, p, i) by {
        if matches_at(u, p, i) {
            lemma_match_chars(u, p, i);
            lemma_match_chars(t, p, i);
            assert forall|j: int| 0 <= j < p.len() implies t[i + j] == #[trigger] p[j] by {
                assert(u[i + j] == p[j]);
            }
            assert(u[i + 0] == p[0]);
        }
    }
    lemma_no_match_no_count(u, p);
}

/// Putting the longer form right leaves the shorter one as often as it was.
proof fn lemma_shorter_form_stays(t: Seq<char>)
    ensures
        count_matches(
            replace_all(t, group_forms()[1].target, group_forms()[1].source),
            group_forms()[0].target,
        ) == count_matches(t, group_forms()[0].target),
{
    lemma_group_forms(0);
    lemma_group_forms(1);
    let form = group_forms()[1];
    let p = form.target;
    let q = group_forms()[0].target;
    let u = replace_all(t, p, form.source);
    lemma_replaced_chars(t, form);
    assert(q[2] == '家' && p[2] == '一') by {
        reveal_strlit("她们家");
        reveal_strlit("她们一家");
    }
    assert(q.len() == 3 && p.len() == 4) by {
        reveal_strlit("她们家");
        reveal_strlit("她们一家");
    }
    assert forall|i: int| 0 <= i implies #[trigger] matches_at(u, q, i) == matches_at(t, q, i) by {
        if i + q.len() <= t.len() {
            lemma_match_chars(u, q, i);
            lemma_match_chars(t, q, i);
            if matches_at(u, q, i) {
                assert forall|j: int| 0 <= j < q.len() implies t[i + j] == #[trigger] q[j] by {
                    assert(u[i + j] == q[j]);
                    assert(q[j] != '他');
                }
            }
            if matches_at(t, q, i) {
                assert forall|j: int| 0 <= j < q.len() implies u[i + j] == #[trigger] q[j] by {
                    assert(t[i + j] == q[j]);
                    if matches_at(t, p, i + j) {
                        lemma_match_chars(t, p, i + j);
                        assert(t[i + j + 0] == p[0]);
                        assert(j == 0);
                        assert(t[i + j + 2] == p[2]);
                        assert(t[i + 2] == q[2]);
                    }
                }
            }
        }
    }
    lemma_same_matches_same_count(u, t, q);
}

/// Where a form is found once, it stands in one place.
proof fn lemma_one_match(t: Seq<char>, form: GroupForm) -> (at: int)
    requires
        differ_at_the_start(form),
        count_matches(t, form.target) == 1,
    ensures
        0 <= at,
        matches_at(t, form.target, at),
        forall|i: int| 0 <= i && #[trigger] matches_at(t, form.target, i) ==> i == at,
    decreases t.len(),
{
    let p = form.target;
    let n: int = if starts(t, p) {
        p.len() as int
    } else {
        1
    };
    let rest = t.subrange(n, t.len() as int);
    if starts(t, p) {
        assert forall|i: int| 0 <= i && #[trigger] matches_at(t, p, i) implies i == 0 by {
            if i >= n {
                lemma_match_behind(t, p, n, i - n);
                lemma_match_is_counted(rest, p, i - n);
            } else if i > 0 {
                lemma_match_chars(t, p, 0);
                lemma_match_chars(t, p, i);
                assert(t[0 + i] == p[i]);
                assert(t[i + 0] == p[0]);
            }
        }
        0
    } else {
        let inner = lemma_one_match(rest, form);
        lemma_match_behind(t, p, 1, inner);
        assert forall|i: int| 0 <= i && #[trigger] matches_at(t, p, i) implies i == inner + 1 by {
            assert(i != 0);
            lemma_match_behind(t, p, 1, i - 1);
            assert(matches_at(rest, p, i - 1));
        }
        inner + 1
    }
}

proof fn lemma_match_is_counted(t: Seq<char>, p: Seq<char>, i: int)
    requires
        p.len() > 0,
        0 <= i,
        matches_at(t, p, i),
    ensures
        count_matches(t, p) > 0,
    decreases t.len(),
{
    if !starts(t, p) {
        lemma_match_behind(t, p, 1, i - 1);
        lemma_match_is_counted(t.subrange(1, t.len() as int), p, i - 1);
    }
}

/// Where a form is put right, it is so in one place, and the rest of the text stays.
pub proof fn law_correction_replaces_one_place(
    chapter: ChapterView,
    text: Seq<char>,
    k: int,
) -> (at: int)
    requires
        0 <= k < group_forms().len(),
        correctable(chapter, text, group_forms()[k]),
    ensures
        matches_at(text, group_forms()[k].target, at),
        corrected_form(chapter, text, group_forms()[k]) == text.take(at) + group_forms()[k].source
            + text.skip(at + group_forms()[k].target.len()),
{
    lemma_group_forms(k);
    let form = group_forms()[k];
    let p = form.target;
    let at = lemma_one_match(text, form);
    lemma_replaced_chars(text, form);
    lemma_match_chars(text, p, at);
    let u = corrected_form(chapter, text, form);
    let v = text.take(at) + form.source + text.skip(at + p.len());
    assert forall|i: int| 0 <= i < u.len() implies u[i] == v[i] by {
        if at < i < at + p.len() {
            assert(text[at + (i - at)] == p[i - at]);
        }
    }
    assert(u =~= v);
    at
}

/// The correction touches the text of a rewrite only, and that only where it counts one; a
/// rewrite of no known chapter stays as it is.
pub proof fn law_correction_keeps_the_chapter(
    chapters: Seq<ChapterView>,
    rewrite: ParsedChapterRewriteView,
)
    ensures
        corrected(chapters, rewrite).id == rewrite.id,
        corrected(chapters, rewrite).index == rewrite.index,
        corrected(chapters, rewrite).title == rewrite.title,
        correction_count(chapters, rewrite) == 0 ==> corrected(chapters, rewrite) == rewrite,
        chapter_with_id(chapters, rewrite.id) is None ==> corrected(chapters, rewrite) == rewrite
            && correction_count(chapters, rewrite) == 0,
{
}

proof fn lemma_corrected_needs_nothing(
    chapters: Seq<ChapterView>,
    rewrite: ParsedChapterRewriteView,
)
    ensures
        correction_count(chapters, corrected(chapters, rewrite)) == 0,
{
    if let Some(chapter) = chapter_with_id(chapters, rewrite.id) {
        let first = group_forms()[0];
        let second = group_forms()[1];
        lemma_group_forms(0);
        lemma_group_forms(1);
        let halfway = corrected_form(chapter, rewrite.text, first);
        let text = corrected_form(chapter, halfway, second);
        lemma_put_right_is_gone(rewrite.text, first);
        lemma_put_right_is_gone(halfway, second);
        lemma_shorter_form_stays(halfway);
        assert(!correctable(chapter, halfway, first));
        assert(count_matches(text, first.target) == count_matches(halfway, first.target));
        assert(!correctable(chapter, text, first));
        assert(!correctable(chapter, text, second));
    }
}

/// Where nothing is counted, nothing is changed.
pub proof fn law_uncounted_rewrites_stay(
    chapters: Seq<ChapterView>,
    rewrites: Seq<ParsedChapterRewriteView>,
)
    requires
        total_corrections(chapters, rewrites) == 0,
    ensures
        all_corrected(chapters, rewrites) == rewrites,
    decreases rewrites.len(),
{
    if rewrites.len() > 0 {
        let before = rewrites.drop_last();
        law_uncounted_rewrites_stay(chapters, before);
        law_correction_keeps_the_chapter(chapters, rewrites.last());
        assert forall|i: int| 0 <= i < rewrites.len() implies all_corrected(chapters, rewrites)[i]
            == rewrites[i] by {
            if i < before.len() {
                assert(all_corrected(chapters, before)[i] == before[i]);
            }
        }
    }
    assert(all_corrected(chapters, rewrites) =~= rewrites);
}

/// A second correction finds nothing to put right and changes nothing.
pub proof fn law_second_correction_changes_nothing(
    chapters: Seq<ChapterView>,
    rewrites: Seq<ParsedChapterRewriteView>,
)
    ensures
        total_corrections(chapters, all_corrected(chapters, rewrites)) == 0,
        all_corrected(chapters, all_corrected(chapters, rewrites)) == all_corrected(
            chapters,
            rewrites,
        ),
    decreases rewrites.len(),
{
    let once = all_corrected(chapters, rewrites);
    if rewrites.len() > 0 {
        let before = rewrites.drop_last();
        law_second_correction_changes_nothing(chapters, before);
        assert(once.drop_last() =~= all_corrected(chapters, before));
        lemma_corrected_needs_nothing(chapters, rewrites.last());
    }
    law_uncounted_rewrites_stay(chapters, once);
}

/// What the scans add says nothing that was said before.
pub proof fn law_added_issues_are_new(
    known: Seq<ReviewIssueView>,
    found: Seq<ReviewIssueView>,
    i: int,
    k: int,
)
    requires
        0 <= i < new_issues(known, found).len(),
        0 <= k < known.len(),
    ensures
        issue_line(new_issues(known, found)[i]) != issue_line(known[k]),
    decreases found.len(),
{
    if found.len() > 0 {
        let before = new_issues(known, found.drop_last());
        let lines = issue_lines_of(known + before);
        if i < before.len() {
            law_added_issues_are_new(known, found.drop_last(), i, k);
        } else {
            assert(lines[k] == issue_line(known[k]));
        }
    }
}

} // verus!
