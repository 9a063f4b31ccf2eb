//! Review issues that a look at the rewritten text refutes: a review can claim a leftover that is
//! not there, or miss a line that was meant to be dropped.
use vstd::prelude::*;
use crate::coverage::{add_quotations, quotations};
use crate::domain::{
    Chapter, ChapterView, Duplicate, NovelSettings, NovelSettingsView, ParsedChapterRewrite,
    ParsedChapterRewriteView, ReviewDecision, ReviewIssue, ReviewIssueView,
};
use crate::keywords::{
    contains_explicit_male_identity_reference, contains_explicit_male_protagonist_reference,
    contains_neutral_protagonist_nickname, contains_non_human_reference, gender_residue_words,
    holds_gender_residue_words, holds_missing_categories, holds_missing_content_words,
    holds_name_residue_words, holds_pronoun_claim_words, holds_pronoun_words,
    holds_protagonist_words, male_identity_words, male_reference_words, missing_categories,
    missing_content_words, name_residue_words, nickname_words, non_human_words, pronoun_claim_words,
    pronoun_words, protagonist_words,
};
use crate::names::{
    additional_feminize_name_sources, line_sources, normal_form, push_unique_name,
    push_unique_names, with_name, with_names,
};
use crate::order::{sort_distinct, sort_distinct_texts, strings_of};
use crate::review_laws::law_absent_evidence_is_nowhere;
use crate::text::{
    ascii_lower_chars, ascii_lowered, chars_have, chars_of, copy_chars, decimal, holds, holds_any,
    holds_index, holds_text, i64_text, join, join_texts, lemma_views_push, lines, lines_of,
    string_of, text_has, trim, trim_chars, trimmed, views,
};

verus! {

// ---- issues as text -------------------------------------------------------------------------
/// Numbers one behind the other.
pub open spec fn index_texts(indexes: Seq<i64>) -> Seq<Seq<char>> {
    Seq::new(indexes.len(), |i: int| decimal(indexes[i] as int))
}

pub fn index_list(indexes: &[i64], sep: &str) -> (r: String)
    ensures
        r@ == join(index_texts(indexes@), sep@),
{
    let mut parts: Vec<String> = Vec::new();
    let mut i: usize = 0;
    while i < indexes.len()
        invariant
            i <= indexes@.len(),
            views(parts@) == index_texts(indexes@).take(i as int),
        decreases indexes@.len() - i,
    {
        let ghost before = parts@;
        parts.push(i64_text(indexes[i]));
        proof {
            lemma_views_push(before, parts@.last());
            assert(views(parts@) =~= index_texts(indexes@).take(i + 1));
        }
        i += 1;
    }
    proof {
        assert(index_texts(indexes@).take(i as int) =~= index_texts(indexes@));
    }
    join_texts(parts.as_slice(), sep)
}

/// An issue on one line.
pub open spec fn issue_line(issue: ReviewIssueView) -> Seq<char> {
    let location = if issue.chapter_indexes.len() == 0 {
        "未指定章节"@
    } else {
        "分片索引 "@ + join(index_texts(issue.chapter_indexes), "、"@)
    };
    trim(
        location + " ["@ + issue.severity + " / "@ + issue.scope + " / "@ + issue.category + "] "@
            + trim(issue.problem) + " "@ + trim(issue.required_fix),
    )
}

pub fn review_issue_text(issue: &ReviewIssue) -> (r: String)
    ensures
        r@ == issue_line(issue@),
{
    let mut line: String;
    if issue.chapter_indexes.len() == 0 {
        line = "未指定章节".to_string();
    } else {
        line = "分片索引 ".to_string();
        let list = index_list(issue.chapter_indexes.as_slice(), "、");
        line.append(list.as_str());
    }
    let problem = trimmed(issue.problem.as_str());
    let fix = trimmed(issue.required_fix.as_str());
    line.append(" [");
    line.append(issue.severity.as_str());
    line.append(" / ");
    line.append(issue.scope.as_str());
    line.append(" / ");
    line.append(issue.category.as_str());
    line.append("] ");
    line.append(problem.as_str());
    line.append(" ");
    line.append(fix.as_str());
    trimmed(line.as_str())
}

pub open spec fn issue_lines(issues: Seq<ReviewIssueView>) -> Seq<Seq<char>> {
    Seq::new(issues.len(), |i: int| issue_line(issues[i]))
}

pub fn review_issues_text(issues: &[ReviewIssue]) -> (r: String)
    ensures
        r@ == join(issue_lines(views(issues@)), "\n"@),
{
    let ghost all = views(issues@);
    let mut parts: Vec<String> = Vec::new();
    let mut i: usize = 0;
    while i < issues.len()
        invariant
            i <= issues@.len(),
            all == views(issues@),
            views(parts@) == issue_lines(all).take(i as int),
        decreases issues@.len() - i,
    {
        let ghost before = parts@;
        parts.push(review_issue_text(&issues[i]));
        proof {
            lemma_views_push(before, parts@.last());
            assert(views(parts@) =~= issue_lines(all).take(i + 1));
        }
        i += 1;
    }
    proof {
        assert(issue_lines(all).take(i as int) =~= issue_lines(all));
    }
    join_texts(parts.as_slice(), "\n")
}

/// What an issue says: the problem and the fix that it asks for.
pub open spec fn claim_of(issue: ReviewIssueView) -> Seq<char> {
    issue.problem + " "@ + issue.required_fix
}

pub fn claim_text(issue: &ReviewIssue) -> (r: String)
    ensures
        r@ == claim_of(issue@),
{
    let mut out = issue.problem.clone();
    out.append(" ");
    out.append(issue.required_fix.as_str());
    out
}

// ---- quoted evidence ------------------------------------------------------------------------
/// Words of the answer's own format; in quotation marks they are no evidence.
pub open spec fn format_words() -> Seq<Seq<char>> {
    seq![
        "blocking"@,
        "chapter"@,
        "gender_residue"@,
        "scope"@,
        "category"@,
        "severity"@,
        "problem"@,
        "required_fix"@,
    ]
}

/// Whether a quotation can be evidence: it has two characters or more and is no format word.
pub open spec fn meaningful(fragment: Seq<char>) -> bool {
    fragment.len() >= 2 && !format_words().contains(fragment)
}

pub fn is_meaningful_review_evidence(fragment: &str) -> (r: bool)
    ensures
        r == meaningful(fragment@),
{
    let all = chars_of(fragment);
    if all.len() < 2 {
        return false;
    }
    let words: Vec<String> = vec![
        "blocking".to_string(),
        "chapter".to_string(),
        "gender_residue".to_string(),
        "scope".to_string(),
        "category".to_string(),
        "severity".to_string(),
        "problem".to_string(),
        "required_fix".to_string(),
    ];
    proof {
        assert(views(words@) =~= format_words());
    }
    !holds_text(words.as_slice(), fragment)
}

/// The quotations that can be evidence, trimmed.
pub open spec fn meaningful_pieces(pieces: Seq<Seq<char>>) -> Seq<Seq<char>>
    decreases pieces.len(),
{
    if pieces.len() == 0 {
        Seq::empty()
    } else if meaningful(trim(pieces.last())) {
        meaningful_pieces(pieces.drop_last()).push(trim(pieces.last()))
    } else {
        meaningful_pieces(pieces.drop_last())
    }
}

fn collect_meaningful(pieces: &[Vec<char>]) -> (r: Vec<Vec<char>>)
    ensures
        views(r@) == meaningful_pieces(views(pieces@)),
{
    let ghost all = views(pieces@);
    let mut out: Vec<Vec<char>> = Vec::new();
    let mut i: usize = 0;
    proof {
        assert(views(out@) =~= meaningful_pieces(all.take(0)));
    }
    while i < pieces.len()
        invariant
            i <= pieces@.len(),
            all == views(pieces@),
            views(out@) == meaningful_pieces(all.take(i as int)),
        decreases pieces@.len() - i,
    {
        proof {
            assert(all.take(i + 1).drop_last() =~= all.take(i as int));
            assert(all.take(i + 1).last() == pieces@[i as int]@);
        }
        let fragment = trim_chars(pieces[i].as_slice());
        let text = string_of(fragment);
        if is_meaningful_review_evidence(text.as_str()) {
            let ghost before = out@;
            out.push(copy_chars(fragment));
            proof {
                lemma_views_push(before, out@.last());
            }
        }
        i += 1;
    }
    proof {
        assert(all.take(i as int) =~= all);
    }
    out
}

/// What is quoted in a text, in any of four kinds of quotation marks.
pub open spec fn all_quotations(text: Seq<char>) -> Seq<Seq<char>> {
    quotations(text, '‘', '’') + quotations(text, '“', '”') + quotations(text, '\'', '\'')
        + quotations(text, '"', '"')
}

/// The evidence that a text quotes.
pub open spec fn quoted_evidence(text: Seq<char>) -> Seq<Seq<char>> {
    sort_distinct(meaningful_pieces(all_quotations(text)), false)
}

fn quoted_evidence_of(text: &str) -> (r: Vec<Vec<char>>)
    ensures
        views(r@) == meaningful_pieces(all_quotations(text@)),
{
    let all = chars_of(text);
    let mut pieces: Vec<Vec<char>> = Vec::new();
    add_quotations(&mut pieces, all.as_slice(), '‘', '’');
    add_quotations(&mut pieces, all.as_slice(), '“', '”');
    add_quotations(&mut pieces, all.as_slice(), '\'', '\'');
    add_quotations(&mut pieces, all.as_slice(), '"', '"');
    proof {
        assert(views(pieces@) =~= all_quotations(text@));
    }
    collect_meaningful(pieces.as_slice())
}

pub fn extract_review_quoted_evidence(text: &str) -> (r: Vec<String>)
    ensures
        views(r@) == quoted_evidence(text@),
{
    let pieces = quoted_evidence_of(text);
    let sorted = sort_distinct_texts(pieces.as_slice(), false);
    strings_of(sorted.as_slice())
}

// ---- the rewritten text ---------------------------------------------------------------------
/// A rewritten chapter as one text.
pub open spec fn rewrite_body(r: ParsedChapterRewriteView) -> Seq<char> {
    r.title + "\n"@ + r.text
}

pub fn body_of(r: &ParsedChapterRewrite) -> (out: String)
    ensures
        out@ == rewrite_body(r@),
{
    let mut out = r.title.clone();
    out.append("\n");
    out.append(r.text.as_str());
    out
}

/// Some rewritten chapters as one text.
pub open spec fn rewrite_bodies(rewrites: Seq<ParsedChapterRewriteView>) -> Seq<char> {
    join(Seq::new(rewrites.len(), |i: int| rewrite_body(rewrites[i])), "\n"@)
}

pub fn bodies_of(rewrites: &[&ParsedChapterRewrite]) -> (r: String)
    ensures
        r@ == rewrite_bodies(views(rewrites@)),
{
    let ghost all = views(rewrites@);
    let ghost bodies = Seq::new(all.len(), |i: int| rewrite_body(all[i]));
    let mut parts: Vec<String> = Vec::new();
    let mut i: usize = 0;
    while i < rewrites.len()
        invariant
            i <= rewrites@.len(),
            all == views(rewrites@),
            bodies == Seq::new(all.len(), |k: int| rewrite_body(all[k])),
            views(parts@) == bodies.take(i as int),
        decreases rewrites@.len() - i,
    {
        let ghost before = parts@;
        parts.push(body_of(rewrites[i]));
        proof {
            lemma_views_push(before, parts@.last());
            assert(all[i as int] == rewrites@[i as int]@);
            assert(views(parts@) =~= bodies.take(i + 1));
        }
        i += 1;
    }
    proof {
        assert(bodies.take(i as int) =~= bodies);
    }
    join_texts(parts.as_slice(), "\n")
}

/// The last rewrite with an index.
pub open spec fn rewrite_at(rewrites: Seq<ParsedChapterRewriteView>, index: i64) -> Option<
    ParsedChapterRewriteView,
>
    decreases rewrites.len(),
{
    if rewrites.len() == 0 {
        None
    } else if rewrites.last().index == index {
        Some(rewrites.last())
    } else {
        rewrite_at(rewrites.drop_last(), index)
    }
}

fn find_rewrite_at<'a>(rewrites: &'a [ParsedChapterRewrite], index: i64) -> (r: Option<
    &'a ParsedChapterRewrite,
>)
    ensures
        match r {
            Some(x) => rewrite_at(views(rewrites@), index) == Some(x@),
            None => rewrite_at(views(rewrites@), index) is None,
        },
{
    let ghost all = views(rewrites@);
    let mut n: usize = rewrites.len();
    proof {
        assert(all.take(n as int) =~= all);
    }
    while n > 0
        invariant
            n <= rewrites@.len(),
            all == views(rewrites@),
            rewrite_at(all, index) == rewrite_at(all.take(n as int), index),
        decreases n,
    {
        proof {
            assert(all.take(n as int).last() == rewrites@[n - 1]@);
            assert(all.take(n as int).drop_last() =~= all.take(n - 1));
        }
        if rewrites[n - 1].index == index {
            return Some(&rewrites[n - 1]);
        }
        n -= 1;
    }
    None
}

/// The rewrites at some indexes; an index without one is passed over.
pub open spec fn rewrites_at(rewrites: Seq<ParsedChapterRewriteView>, indexes: Seq<i64>) -> Seq<
    ParsedChapterRewriteView,
>
    decreases indexes.len(),
{
    if indexes.len() == 0 {
        Seq::empty()
    } else {
        let before = rewrites_at(rewrites, indexes.drop_last());
        match rewrite_at(rewrites, indexes.last()) {
            Some(x) => before.push(x),
            None => before,
        }
    }
}

/// The rewrites that an issue is about: those that it names, or all.
pub open spec fn relevant(
    issue: ReviewIssueView,
    rewrites: Seq<ParsedChapterRewriteView>,
) -> Seq<ParsedChapterRewriteView> {
    if issue.chapter_indexes.len() == 0 {
        rewrites
    } else {
        rewrites_at(rewrites, issue.chapter_indexes)
    }
}

fn relevant_rewrites<'a>(issue: &ReviewIssue, rewrites: &'a [ParsedChapterRewrite]) -> (r: Vec<
    &'a ParsedChapterRewrite,
>)
    ensures
        views(r@) == relevant(issue@, views(rewrites@)),
{
    let ghost all = views(rewrites@);
    let mut out: Vec<&'a ParsedChapterRewrite> = Vec::new();
    if issue.chapter_indexes.len() == 0 {
        let mut i: usize = 0;
        while i < rewrites.len()
            invariant
                i <= rewrites@.len(),
                all == views(rewrites@),
                views(out@) == all.take(i as int),
            decreases rewrites@.len() - i,
        {
            let ghost before = out@;
            out.push(&rewrites[i]);
            proof {
                lemma_views_push(before, out@.last());
                assert(views(out@) =~= all.take(i + 1));
            }
            i += 1;
        }
        proof {
            assert(all.take(i as int) =~= all);
        }
        return out;
    }
    let ghost indexes = issue.chapter_indexes@;
    let mut i: usize = 0;
    proof {
        assert(views(out@) =~= rewrites_at(all, indexes.take(0)));
    }
    while i < issue.chapter_indexes.len()
        invariant
            i <= issue.chapter_indexes@.len(),
            all == views(rewrites@),
            indexes == issue.chapter_indexes@,
            views(out@) == rewrites_at(all, indexes.take(i as int)),
        decreases issue.chapter_indexes@.len() - i,
    {
        proof {
            assert(indexes.take(i + 1).drop_last() =~= indexes.take(i as int));
        }
        if let Some(x) = find_rewrite_at(rewrites, issue.chapter_indexes[i]) {
            let ghost before = out@;
            out.push(x);
            proof {
                lemma_views_push(before, x);
            }
        }
        i += 1;
    }
    proof {
        assert(indexes.take(i as int) =~= indexes);
    }
    out
}

// ---- claims of leftover gender --------------------------------------------------------------
pub open spec fn gender_claim(text: Seq<char>, category: Seq<char>) -> bool {
    holds(category, "gender"@) || holds_any(text, gender_residue_words())
}

/// Whether an issue claims that something male was left in the text.
pub fn is_gender_residue_claim(text: &str, category: &str) -> (r: bool)
    ensures
        r == gender_claim(text@, category@),
{
    text_has(category, "gender") || holds_gender_residue_words(text)
}

/// The fragments of the evidence that stand in the text.
pub open spec fn present(evidence: Seq<Seq<char>>, text: Seq<char>) -> Seq<Seq<char>>
    decreases evidence.len(),
{
    if evidence.len() == 0 {
        Seq::empty()
    } else if holds(text, evidence.last()) {
        present(evidence.drop_last(), text).push(evidence.last())
    } else {
        present(evidence.drop_last(), text)
    }
}

fn present_fragments(evidence: &[String], text: &str) -> (r: Vec<String>)
    ensures
        views(r@) == present(views(evidence@), text@),
{
    let ghost all = views(evidence@);
    let chars = chars_of(text);
    let mut out: Vec<String> = Vec::new();
    let mut i: usize = 0;
    proof {
        assert(views(out@) =~= present(all.take(0), text@));
    }
    while i < evidence.len()
        invariant
            i <= evidence@.len(),
            all == views(evidence@),
            chars@ == text@,
            views(out@) == present(all.take(i as int), text@),
        decreases evidence@.len() - i,
    {
        proof {
            assert(all.take(i + 1).drop_last() =~= all.take(i as int));
            assert(all.take(i + 1).last() == evidence@[i as int]@);
        }
        let needle = chars_of(evidence[i].as_str());
        if chars_have(chars.as_slice(), needle.as_slice()) {
            let ghost before = out@;
            out.push(evidence[i].clone());
            proof {
                lemma_views_push(before, out@.last());
            }
        }
        i += 1;
    }
    proof {
        assert(all.take(i as int) =~= all);
    }
    out
}

/// Whether an issue claims a leftover and quotes evidence none of which is there.
pub open spec fn evidence_absent(
    issue: ReviewIssueView,
    rewrites: Seq<ParsedChapterRewriteView>,
) -> bool {
    let evidence = quoted_evidence(issue.problem);
    &&& gender_claim(claim_of(issue), issue.category)
    &&& evidence.len() > 0
    &&& present(evidence, rewrite_bodies(rewrites)).len() == 0
}

pub fn gender_residue_evidence_is_absent_from_rewrites(
    issue: &ReviewIssue,
    rewrites: &[&ParsedChapterRewrite],
) -> (r: bool)
    ensures
        r == evidence_absent(issue@, views(rewrites@)),
        r ==> forall|f: Seq<char>, i: int|
            #![trigger quoted_evidence(issue@.problem).contains(f), views(rewrites@)[i]]
            quoted_evidence(issue@.problem).contains(f) && 0 <= i < rewrites@.len() ==> !holds(
                views(rewrites@)[i].title,
                f,
            ) && !holds(views(rewrites@)[i].text, f),
{
    let claim = claim_text(issue);
    if !is_gender_residue_claim(claim.as_str(), issue.category.as_str()) {
        return false;
    }
    let evidence = extract_review_quoted_evidence(issue.problem.as_str());
    if evidence.len() == 0 {
        return false;
    }
    let text = bodies_of(rewrites);
    proof {
        let list = views(rewrites@);
        if evidence_absent(issue@, list) {
            assert forall|f: Seq<char>, i: int|
                #![trigger quoted_evidence(issue@.problem).contains(f), list[i]]
                quoted_evidence(issue@.problem).contains(f) && 0 <= i < list.len() implies !holds(
                list[i].title,
                f,
            ) && !holds(list[i].text, f) by {
                law_absent_evidence_is_nowhere(issue@, list, f, i);
            }
        }
    }
    present_fragments(evidence.as_slice(), text.as_str()).len() == 0
}

/// Whether one of the fragments holds one of the words.
pub open spec fn some_holds_any(fragments: Seq<Seq<char>>, words: Seq<Seq<char>>) -> bool {
    exists|i: int| 0 <= i < fragments.len() && holds_any(#[trigger] fragments[i], words)
}

/// Whether an issue takes a nickname that fits anyone for a leftover: some of its evidence is
/// there, a nickname is spoken of, and nothing that is there is male.
pub open spec fn nickname_only(
    issue: ReviewIssueView,
    rewrites: Seq<ParsedChapterRewriteView>,
) -> bool {
    let found = present(quoted_evidence(issue.problem), rewrite_bodies(rewrites));
    &&& gender_claim(claim_of(issue), issue.category)
    &&& found.len() > 0
    &&& some_holds_any(found, nickname_words()) || holds_any(claim_of(issue), nickname_words())
    &&& !some_holds_any(found, male_reference_words())
}

pub fn gender_residue_claim_only_targets_neutral_nickname(
    issue: &ReviewIssue,
    rewrites: &[&ParsedChapterRewrite],
) -> (r: bool)
    ensures
        r == nickname_only(issue@, views(rewrites@)),
{
    let claim = claim_text(issue);
    if !is_gender_residue_claim(claim.as_str(), issue.category.as_str()) {
        return false;
    }
    let evidence = extract_review_quoted_evidence(issue.problem.as_str());
    let text = bodies_of(rewrites);
    let found = present_fragments(evidence.as_slice(), text.as_str());
    if found.len() == 0 {
        return false;
    }
    let ghost list = views(found@);
    let mut nickname = false;
    let mut male = false;
    let mut i: usize = 0;
    while i < found.len()
        invariant
            i <= found@.len(),
            list == views(found@),
            nickname == exists|k: int|
                0 <= k < i && holds_any(#[trigger] list[k], nickname_words()),
            male == exists|k: int|
                0 <= k < i && holds_any(#[trigger] list[k], male_reference_words()),
        decreases found@.len() - i,
    {
        proof {
            assert(list[i as int] == found@[i as int]@);
        }
        if contains_neutral_protagonist_nickname(found[i].as_str()) {
            nickname = true;
        }
        if contains_explicit_male_protagonist_reference(found[i].as_str()) {
            male = true;
        }
        i += 1;
    }
    (nickname || contains_neutral_protagonist_nickname(claim.as_str())) && !male
}

/// Whether a text speaks of the protagonist, by a word for it or by one of its names.
pub open spec fn speaks_of_protagonist(text: Seq<char>, settings: NovelSettingsView) -> bool {
    let source = trim(settings.protagonist_name);
    let target = trim(settings.rewritten_protagonist_name);
    let aliases = line_sources(lines(normal_form(settings.protagonist_aliases)));
    ||| holds_any(text, protagonist_words())
    ||| source.len() > 0 && holds(text, source)
    ||| target.len() > 0 && holds(text, target)
    ||| exists|i: int|
        0 <= i < aliases.len() && trim(#[trigger] aliases[i]).len() > 0 && holds(
            text,
            trim(aliases[i]),
        )
}

#[verifier::loop_isolation(false)]
pub fn references_target_protagonist(text: &str, settings: &NovelSettings) -> (r: bool)
    ensures
        r == speaks_of_protagonist(text@, settings@),
{
    if holds_protagonist_words(text) {
        return true;
    }
    let source = trimmed(settings.protagonist_name.as_str());
    if !source.as_str().is_empty() && text_has(text, source.as_str()) {
        return true;
    }
    let target = trimmed(settings.rewritten_protagonist_name.as_str());
    if !target.as_str().is_empty() && text_has(text, target.as_str()) {
        return true;
    }
    let aliases = additional_feminize_name_sources(settings.protagonist_aliases.as_str());
    let ghost list = views(aliases@);
    let mut i: usize = 0;
    while i < aliases.len()
        invariant
            i <= aliases@.len(),
            list == views(aliases@),
            forall|k: int|
                0 <= k < i ==> !(trim(#[trigger] list[k]).len() > 0 && holds(text@, trim(list[k]))),
        decreases aliases@.len() - i,
    {
        proof {
            assert(list[i as int] == aliases@[i as int]@);
        }
        let alias = trimmed(aliases[i].as_str());
        if !alias.as_str().is_empty() && text_has(text, alias.as_str()) {
            return true;
        }
        i += 1;
    }
    false
}

/// The names of the protagonist in the original: the name and the aliases, each once.
pub open spec fn source_names(settings: NovelSettingsView) -> Seq<Seq<char>> {
    with_names(
        with_name(Seq::empty(), trim(settings.protagonist_name)),
        line_sources(lines(normal_form(settings.protagonist_aliases))),
    )
}

pub fn protagonist_source_names(settings: &NovelSettings) -> (r: Vec<String>)
    ensures
        views(r@) == source_names(settings@),
{
    let mut names: Vec<String> = Vec::new();
    proof {
        assert(views(names@) =~= Seq::<Seq<char>>::empty());
    }
    let protagonist = trimmed(settings.protagonist_name.as_str());
    push_unique_name(&mut names, protagonist.as_str());
    let aliases = additional_feminize_name_sources(settings.protagonist_aliases.as_str());
    push_unique_names(&mut names, aliases.as_slice());
    names
}

/// Whether a fragment of the evidence shows only a pronoun of a being that need not be male.
pub open spec fn ambiguous_fragment(fragment: Seq<char>, text: Seq<char>) -> bool {
    holds(text, fragment) && holds_any(fragment, pronoun_words()) && !holds_any(
        fragment,
        male_identity_words(),
    )
}

/// Whether an issue takes the pronoun of a being that is not human for a leftover.
pub open spec fn ambiguous_non_human(
    issue: ReviewIssueView,
    settings: NovelSettingsView,
    rewrites: Seq<ParsedChapterRewriteView>,
) -> bool {
    let claim = claim_of(issue);
    let evidence = quoted_evidence(issue.problem);
    let text = rewrite_bodies(rewrites);
    &&& gender_claim(claim, issue.category)
    &&& !speaks_of_protagonist(claim, settings)
    &&& holds_any(claim, non_human_words())
    &&& holds_any(claim, pronoun_claim_words())
    &&& evidence.len() == 0 || exists|i: int|
        0 <= i < evidence.len() && ambiguous_fragment(#[trigger] evidence[i], text)
}

#[verifier::loop_isolation(false)]
pub fn gender_residue_claim_targets_ambiguous_non_human(
    issue: &ReviewIssue,
    settings: &NovelSettings,
    rewrites: &[&ParsedChapterRewrite],
) -> (r: bool)
    ensures
        r == ambiguous_non_human(issue@, settings@, views(rewrites@)),
{
    let claim = claim_text(issue);
    if !is_gender_residue_claim(claim.as_str(), issue.category.as_str()) {
        return false;
    }
    if references_target_protagonist(claim.as_str(), settings) {
        return false;
    }
    if !contains_non_human_reference(claim.as_str()) || !holds_pronoun_claim_words(
        claim.as_str(),
    ) {
        return false;
    }
    let evidence = extract_review_quoted_evidence(issue.problem.as_str());
    if evidence.len() == 0 {
        return true;
    }
    let text = bodies_of(rewrites);
    let ghost list = views(evidence@);
    let mut i: usize = 0;
    while i < evidence.len()
        invariant
            i <= evidence@.len(),
            list == views(evidence@),
            text@ == rewrite_bodies(views(rewrites@)),
            forall|k: int| 0 <= k < i ==> !ambiguous_fragment(#[trigger] list[k], text@),
        decreases evidence@.len() - i,
    {
        let fragment = evidence[i].as_str();
        proof {
            assert(list[i as int] == fragment@);
        }
        if text_has(text.as_str(), fragment) && holds_pronoun_words(fragment)
            && !contains_explicit_male_identity_reference(fragment) {
            return true;
        }
        i += 1;
    }
    false
}

// ---- claims of missing content --------------------------------------------------------------
/// What a classifier of author's notes said: which lines, and which fragments, are notes of the
/// author that a rewrite may drop.
pub struct AuthorNotes {
    pub lines: Vec<String>,
    pub fragments: Vec<String>,
}

pub struct AuthorNotesView {
    pub lines: Seq<Seq<char>>,
    pub fragments: Seq<Seq<char>>,
}

impl View for AuthorNotes {
    type V = AuthorNotesView;

    open spec fn view(&self) -> AuthorNotesView {
        AuthorNotesView { lines: views(self.lines@), fragments: views(self.fragments@) }
    }
}

/// The title and the lines of each chapter that the indexes name; all chapters where they name
/// none.
pub open spec fn original_lines(chapters: Seq<ChapterView>, indexes: Seq<i64>) -> Seq<Seq<char>>
    decreases chapters.len(),
{
    if chapters.len() == 0 {
        Seq::empty()
    } else {
        let before = original_lines(chapters.drop_last(), indexes);
        let c = chapters.last();
        if indexes.len() == 0 || indexes.contains(c.index) {
            before.push(c.title) + lines(c.original_text)
        } else {
            before
        }
    }
}

fn append_all(out: &mut Vec<Vec<char>>, more: Vec<Vec<char>>)
    ensures
        views(final(out)@) == views(old(out)@) + views(more@),
{
    let ghost start = views(out@);
    let ghost all = views(more@);
    let mut i: usize = 0;
    proof {
        assert(start + all.take(0) =~= start);
    }
    while i < more.len()
        invariant
            i <= more@.len(),
            all == views(more@),
            views(out@) == start + all.take(i as int),
        decreases more@.len() - i,
    {
        let ghost before = out@;
        out.push(copy_chars(more[i].as_slice()));
        proof {
            lemma_views_push(before, out@.last());
            assert(views(out@) =~= start + all.take(i + 1));
        }
        i += 1;
    }
    proof {
        assert(all.take(i as int) =~= all);
    }
}

fn collect_original_lines(chapters: &[Chapter], indexes: &[i64]) -> (r: Vec<Vec<char>>)
    ensures
        views(r@) == original_lines(views(chapters@), indexes@),
{
    let ghost all = views(chapters@);
    let mut out: Vec<Vec<char>> = Vec::new();
    let mut i: usize = 0;
    proof {
        assert(views(out@) =~= original_lines(all.take(0), indexes@));
    }
    while i < chapters.len()
        invariant
            i <= chapters@.len(),
            all == views(chapters@),
            views(out@) == original_lines(all.take(i as int), indexes@),
        decreases chapters@.len() - i,
    {
        proof {
            assert(all.take(i + 1).drop_last() =~= all.take(i as int));
            assert(all.take(i + 1).last() == chapters@[i as int]@);
        }
        if indexes.len() == 0 || holds_index(indexes, chapters[i].index) {
            let ghost before = out@;
            out.push(chars_of(chapters[i].title.as_str()));
            proof {
                lemma_views_push(before, out@.last());
            }
            let text = chars_of(chapters[i].original_text.as_str());
            append_all(&mut out, lines_of(text.as_slice()));
        }
        i += 1;
    }
    proof {
        assert(all.take(i as int) =~= all);
    }
    out
}

/// The notes among the lines that a claim repeats, trimmed.
pub open spec fn repeated_notes(
    rows: Seq<Seq<char>>,
    claim: Seq<char>,
    notes: AuthorNotesView,
) -> Seq<Seq<char>>
    decreases rows.len(),
{
    if rows.len() == 0 {
        Seq::empty()
    } else {
        let before = repeated_notes(rows.drop_last(), claim, notes);
        let line = trim(rows.last());
        if line.len() > 0 && holds(claim, line) && notes.lines.contains(line) {
            before.push(line)
        } else {
            before
        }
    }
}

fn collect_repeated_notes(rows: &[Vec<char>], claim: &str, notes: &AuthorNotes) -> (r: Vec<
    Vec<char>,
>)
    ensures
        views(r@) == repeated_notes(views(rows@), claim@, notes@),
{
    let ghost all = views(rows@);
    let text = chars_of(claim);
    let mut out: Vec<Vec<char>> = Vec::new();
    let mut i: usize = 0;
    proof {
        assert(views(out@) =~= repeated_notes(all.take(0), claim@, notes@));
    }
    while i < rows.len()
        invariant
            i <= rows@.len(),
            all == views(rows@),
            text@ == claim@,
            views(out@) == repeated_notes(all.take(i as int), claim@, notes@),
        decreases rows@.len() - i,
    {
        proof {
            assert(all.take(i + 1).drop_last() =~= all.take(i as int));
            assert(all.take(i + 1).last() == rows@[i as int]@);
        }
        let line = trim_chars(rows[i].as_slice());
        let string = string_of(line);
        if line.len() > 0 && chars_have(text.as_slice(), line) && holds_text(
            notes.lines.as_slice(),
            string.as_str(),
        ) {
            let ghost before = out@;
            out.push(copy_chars(line));
            proof {
                lemma_views_push(before, out@.last());
            }
        }
        i += 1;
    }
    proof {
        assert(all.take(i as int) =~= all);
    }
    out
}

/// Whether a fragment stands in a line of the original and is, or lies in, an author's note.
pub open spec fn is_note(
    fragment: Seq<char>,
    rows: Seq<Seq<char>>,
    notes: AuthorNotesView,
) -> bool {
    exists|k: int|
        0 <= k < rows.len() && holds(#[trigger] rows[k], fragment) && (notes.fragments.contains(
            fragment,
        ) || notes.lines.contains(rows[k]))
}

fn fragment_is_note(fragment: &[char], rows: &[Vec<char>], notes: &AuthorNotes) -> (r: bool)
    ensures
        r == is_note(fragment@, views(rows@), notes@),
{
    let ghost all = views(rows@);
    let string = string_of(fragment);
    let listed = holds_text(notes.fragments.as_slice(), string.as_str());
    let mut k: usize = 0;
    while k < rows.len()
        invariant
            k <= rows@.len(),
            all == views(rows@),
            listed == notes@.fragments.contains(fragment@),
            forall|j: int|
                0 <= j < k ==> !(holds(#[trigger] all[j], fragment@) && (notes@.fragments.contains(
                    fragment@,
                ) || notes@.lines.contains(all[j]))),
        decreases rows@.len() - k,
    {
        proof {
            assert(all[k as int] == rows@[k as int]@);
        }
        if chars_have(rows[k].as_slice(), fragment) {
            let line = string_of(rows[k].as_slice());
            if listed || holds_text(notes.lines.as_slice(), line.as_str()) {
                return true;
            }
        }
        k += 1;
    }
    false
}

/// Whether an issue claims that content is missing.
pub open spec fn missing_claim(issue: ReviewIssueView) -> bool {
    holds_any(ascii_lowered(issue.category), missing_categories()) || holds_any(
        claim_of(issue),
        missing_content_words(),
    )
}

/// What an issue about missing content points at: its quotations, and the notes it repeats.
pub open spec fn missing_evidence(
    issue: ReviewIssueView,
    rows: Seq<Seq<char>>,
    notes: AuthorNotesView,
) -> Seq<Seq<char>> {
    sort_distinct(
        meaningful_pieces(all_quotations(issue.problem)) + repeated_notes(
            rows,
            claim_of(issue),
            notes,
        ),
        false,
    )
}

/// Whether something is missing that an issue points at, and all of it are author's notes.
pub open spec fn only_notes_missing(
    issue: ReviewIssueView,
    chapters: Seq<ChapterView>,
    rewrites: Seq<ParsedChapterRewriteView>,
    notes: AuthorNotesView,
) -> bool {
    let rows = original_lines(chapters, issue.chapter_indexes);
    let evidence = missing_evidence(issue, rows, notes);
    let text = rewrite_bodies(rewrites);
    &&& missing_claim(issue)
    &&& exists|i: int| 0 <= i < evidence.len() && !holds(text, #[trigger] evidence[i])
    &&& forall|i: int|
        0 <= i < evidence.len() && !holds(text, #[trigger] evidence[i]) ==> is_note(
            evidence[i],
            rows,
            notes,
        )
}

pub fn missing_content_claim_only_targets_droppable_author_notes(
    issue: &ReviewIssue,
    chapters: &[Chapter],
    rewrites: &[&ParsedChapterRewrite],
    notes: &AuthorNotes,
) -> (r: bool)
    ensures
        r == only_notes_missing(issue@, views(chapters@), views(rewrites@), notes@),
{
    let claim = claim_text(issue);
    let category = chars_of(issue.category.as_str());
    let lowered = ascii_lower_chars(category.as_slice());
    let category = string_of(lowered.as_slice());
    if !holds_missing_categories(category.as_str()) && !holds_missing_content_words(
        claim.as_str(),
    ) {
        return false;
    }
    let rows = collect_original_lines(chapters, issue.chapter_indexes.as_slice());
    let mut pieces = quoted_evidence_of(issue.problem.as_str());
    append_all(&mut pieces, collect_repeated_notes(rows.as_slice(), claim.as_str(), notes));
    let evidence = sort_distinct_texts(pieces.as_slice(), false);
    let text = bodies_of(rewrites);
    let body = chars_of(text.as_str());
    let ghost list = views(evidence@);
    let mut omitted = false;
    let mut i: usize = 0;
    while i < evidence.len()
        invariant
            i <= evidence@.len(),
            list == views(evidence@),
            body@ == rewrite_bodies(views(rewrites@)),
            views(rows@) == original_lines(views(chapters@), issue.chapter_indexes@),
            list == missing_evidence(issue@, views(rows@), notes@),
            missing_claim(issue@),
            omitted == exists|k: int| 0 <= k < i && !holds(body@, #[trigger] list[k]),
            forall|k: int|
                0 <= k < i && !holds(body@, #[trigger] list[k]) ==> is_note(
                    list[k],
                    views(rows@),
                    notes@,
                ),
        decreases evidence@.len() - i,
    {
        proof {
            assert(list[i as int] == evidence@[i as int]@);
        }
        if !chars_have(body.as_slice(), evidence[i].as_slice()) {
            omitted = true;
            if !fragment_is_note(evidence[i].as_slice(), rows.as_slice(), notes) {
                return false;
            }
        }
        i += 1;
    }
    omitted
}

// ---- the filter -----------------------------------------------------------------------------
/// Whether an issue claims that the protagonist's name was left, though it is nowhere.
pub open spec fn name_claim_refuted(
    issue: ReviewIssueView,
    settings: NovelSettingsView,
    rewrites: Seq<ParsedChapterRewriteView>,
) -> bool {
    let name = trim(settings.protagonist_name);
    let claim = claim_of(issue);
    &&& name.len() > 0
    &&& holds(claim, name)
    &&& holds_any(claim, name_residue_words())
    &&& forall|i: int|
        0 <= i < rewrites.len() ==> !holds((#[trigger] rewrites[i]).title, name) && !holds(
            rewrites[i].text,
            name,
        )
}

#[verifier::loop_isolation(false)]
fn is_name_claim_refuted(
    issue: &ReviewIssue,
    settings: &NovelSettings,
    rewrites: &[&ParsedChapterRewrite],
) -> (r: bool)
    ensures
        r == name_claim_refuted(issue@, settings@, views(rewrites@)),
{
    let name = trimmed(settings.protagonist_name.as_str());
    let claim = claim_text(issue);
    if name.as_str().is_empty() || !text_has(claim.as_str(), name.as_str())
        || !holds_name_residue_words(claim.as_str()) {
        return false;
    }
    let ghost all = views(rewrites@);
    let mut i: usize = 0;
    while i < rewrites.len()
        invariant
            i <= rewrites@.len(),
            all == views(rewrites@),
            forall|k: int|
                0 <= k < i ==> !holds((#[trigger] all[k]).title, name@) && !holds(
                    all[k].text,
                    name@,
                ),
        decreases rewrites@.len() - i,
    {
        proof {
            assert(all[i as int] == rewrites@[i as int]@);
        }
        if text_has(rewrites[i].title.as_str(), name.as_str()) || text_has(
            rewrites[i].text.as_str(),
            name.as_str(),
        ) {
            return false;
        }
        i += 1;
    }
    true
}

/// Whether the rewritten text refutes an issue.
pub open spec fn refuted(
    issue: ReviewIssueView,
    chapters: Seq<ChapterView>,
    rewrites: Seq<ParsedChapterRewriteView>,
    settings: NovelSettingsView,
    notes: AuthorNotesView,
) -> bool {
    let about = relevant(issue, rewrites);
    about.len() > 0 && (name_claim_refuted(issue, settings, about) || evidence_absent(issue, about)
        || nickname_only(issue, about) || ambiguous_non_human(issue, settings, about)
        || only_notes_missing(issue, chapters, about, notes))
}

fn is_refuted(
    issue: &ReviewIssue,
    chapters: &[Chapter],
    rewrites: &[ParsedChapterRewrite],
    settings: &NovelSettings,
    notes: &AuthorNotes,
) -> (r: bool)
    ensures
        r == refuted(issue@, views(chapters@), views(rewrites@), settings@, notes@),
{
    let about = relevant_rewrites(issue, rewrites);
    if about.len() == 0 {
        return false;
    }
    is_name_claim_refuted(issue, settings, about.as_slice())
        || gender_residue_evidence_is_absent_from_rewrites(issue, about.as_slice())
        || gender_residue_claim_only_targets_neutral_nickname(issue, about.as_slice())
        || gender_residue_claim_targets_ambiguous_non_human(issue, settings, about.as_slice())
        || missing_content_claim_only_targets_droppable_author_notes(
        issue,
        chapters,
        about.as_slice(),
        notes,
    )
}

/// The test of the filter.
pub open spec fn refutes(
    chapters: Seq<ChapterView>,
    rewrites: Seq<ParsedChapterRewriteView>,
    settings: NovelSettingsView,
    notes: AuthorNotesView,
) -> spec_fn(ReviewIssueView) -> bool {
    |issue: ReviewIssueView| refuted(issue, chapters, rewrites, settings, notes)
}

pub open spec fn stands(
    chapters: Seq<ChapterView>,
    rewrites: Seq<ParsedChapterRewriteView>,
    settings: NovelSettingsView,
    notes: AuthorNotesView,
) -> spec_fn(ReviewIssueView) -> bool {
    |issue: ReviewIssueView| !refuted(issue, chapters, rewrites, settings, notes)
}

/// Takes the refuted issues out of a decision. What is left decides whether it approves.
pub fn filter_review_decision_against_rewrites(
    decision: ReviewDecision,
    chapters: &[Chapter],
    rewrites: &[ParsedChapterRewrite],
    settings: &NovelSettings,
    notes: &AuthorNotes,
) -> (r: (ReviewDecision, Vec<ReviewIssue>))
    ensures
        r.0@.issues == decision@.issues.filter(
            stands(views(chapters@), views(rewrites@), settings@, notes@),
        ),
        r.0.approved == (r.0@.issues.len() == 0),
        views(r.1@) == decision@.issues.filter(
            refutes(views(chapters@), views(rewrites@), settings@, notes@),
        ),
{
    let ghost all = decision@.issues;
    let ghost keep = stands(views(chapters@), views(rewrites@), settings@, notes@);
    let ghost drop = refutes(views(chapters@), views(rewrites@), settings@, notes@);
    let mut retained: Vec<ReviewIssue> = Vec::new();
    let mut filtered: Vec<ReviewIssue> = Vec::new();
    let mut i: usize = 0;
    proof {
        reveal(Seq::filter);
        assert(views(retained@) =~= all.take(0).filter(keep));
        assert(views(filtered@) =~= all.take(0).filter(drop));
    }
    while i < decision.issues.len()
        invariant
            i <= decision.issues@.len(),
            all == views(decision.issues@),
            keep == stands(views(chapters@), views(rewrites@), settings@, notes@),
            drop == refutes(views(chapters@), views(rewrites@), settings@, notes@),
            views(retained@) == all.take(i as int).filter(keep),
            views(filtered@) == all.take(i as int).filter(drop),
        decreases decision.issues@.len() - i,
    {
        proof {
            reveal(Seq::filter);
            assert(all.take(i + 1).drop_last() =~= all.take(i as int));
            assert(all.take(i + 1).last() == decision.issues@[i as int]@);
        }
        let issue = decision.issues[i].duplicate();
        if is_refuted(&issue, chapters, rewrites, settings, notes) {
            proof {
                lemma_views_push(filtered@, issue);
            }
            filtered.push(issue);
        } else {
            proof {
                lemma_views_push(retained@, issue);
            }
            retained.push(issue);
        }
        i += 1;
    }
    proof {
        assert(all.take(i as int) =~= all);
    }
    (ReviewDecision { approved: retained.len() == 0, issues: retained }, filtered)
}

// ---- laws -----------------------------------------------------------------------------------
proof fn lemma_filters_part<T>(s: Seq<T>, keep: spec_fn(T) -> bool, drop: spec_fn(T) -> bool)
    requires
        forall|x: T| #[trigger] keep(x) == !drop(x),
    ensures
        s.filter(keep).len() + s.filter(drop).len() == s.len(),
        s.filter(keep).to_multiset().add(s.filter(drop).to_multiset()) == s.to_multiset(),
    decreases s.len(),
{
    broadcast use vstd::seq_lib::group_to_multiset_ensures;

    reveal(Seq::filter);
    if s.len() > 0 {
        let rest = s.drop_last();
        lemma_filters_part(rest, keep, drop);
        assert(s =~= rest.push(s.last()));
        assert(s.filter(keep).to_multiset().add(s.filter(drop).to_multiset())
            =~= s.to_multiset());
    } else {
        assert(s.filter(keep).to_multiset().add(s.filter(drop).to_multiset())
            =~= s.to_multiset());
    }
}

/// The filter parts the issues in two: each is either kept or taken out, and none is made up.
pub proof fn law_filter_parts_the_issues(
    issues: Seq<ReviewIssueView>,
    chapters: Seq<ChapterView>,
    rewrites: Seq<ParsedChapterRewriteView>,
    settings: NovelSettingsView,
    notes: AuthorNotesView,
)
    ensures
        issues.filter(stands(chapters, rewrites, settings, notes)).to_multiset().add(
            issues.filter(refutes(chapters, rewrites, settings, notes)).to_multiset(),
        ) == issues.to_multiset(),
{
    lemma_filters_part(
        issues,
        stands(chapters, rewrites, settings, notes),
        refutes(chapters, rewrites, settings, notes),
    );
}

/// An issue about chapters that were not rewritten is never taken out.
pub proof fn law_unlocated_issue_stands(
    issue: ReviewIssueView,
    chapters: Seq<ChapterView>,
    rewrites: Seq<ParsedChapterRewriteView>,
    settings: NovelSettingsView,
    notes: AuthorNotesView,
)
    requires
        relevant(issue, rewrites).len() == 0,
    ensures
        !refuted(issue, chapters, rewrites, settings, notes),
{
}

/// What stands after the refuted issues were taken out stands again: a second look takes out
/// nothing more.
pub proof fn law_filter_is_stable(
    issues: Seq<ReviewIssueView>,
    chapters: Seq<ChapterView>,
    rewrites: Seq<ParsedChapterRewriteView>,
    settings: NovelSettingsView,
    notes: AuthorNotesView,
)
    ensures
        issues.filter(stands(chapters, rewrites, settings, notes)).filter(
            stands(chapters, rewrites, settings, notes),
        ) == issues.filter(stands(chapters, rewrites, settings, notes)),
{
    lemma_filter_is_stable(issues, stands(chapters, rewrites, settings, notes));
}

proof fn lemma_filter_is_stable(s: Seq<ReviewIssueView>, keep: spec_fn(ReviewIssueView) -> bool)
    ensures
        s.filter(keep).filter(keep) == s.filter(keep),
    decreases s.len(),
{
    reveal(Seq::filter);
    if s.len() > 0 {
        let before = s.drop_last().filter(keep);
        lemma_filter_is_stable(s.drop_last(), keep);
        if keep(s.last()) {
            assert(before.push(s.last()).drop_last() =~= before);
        }
    }
}

} // verus!
