//! What a review decides: the issues in a model's answer that ask for something, and whether the
//! rewrite is approved.
use vstd::prelude::*;
use crate::coverage::{
    canonical_planned_state_updates, canonical_states, coverage_gate_passes,
    evidence_exists_in_rewrite, evidence_found, fix_summary, gate_open, obligation_fix_summary,
};
use crate::domain::{
    copy_indexes, NovelSettings, NovelSettingsView, ParsedChapterRewrite, ParsedChapterRewriteView,
    ReviewCoverageItem, ReviewCoverageItemView, ReviewDecision, ReviewIssue, ReviewIssueView,
    RewriteObligation, RewriteObligationView, RewritePlan, RewritePlanView, RewriteReviewDecision,
    RewriteReviewDecisionView,
};
use crate::json::{field, jsonish, list_field, parse_jsonish_value, text_field, Json, JsonView};
use crate::keywords::{
    compliant_words, defect_words, harmless_words, harmless_words_list, holds_compliant_words,
    holds_defect_words, holds_numbering_words, holds_title_defect_words, numbering_words,
    title_defect_words,
};
use crate::order::{sort_index_list, sort_indexes};
use crate::patterns::{
    all_captured, captured, find_captures, issue_index_pattern, regex_captures, Captured,
};
use crate::residue::{chapter_issue, make_chapter_issue};
use crate::text::{
    ascii_lower_chars, ascii_lowered, blank, chars_of, decimal, holds, holds_any, holds_text,
    i64_text, is_blank, lemma_views_push, parse_i64, replace_all, replace_chars, same_text,
    signed_number, string_of, text_has, trim, trim_chars, trimmed, views,
};

verus! {

// ---- issues that ask for nothing ------------------------------------------------------------
/// The text without the given phrases, taken out one after the other.
pub open spec fn without_phrases(text: Seq<char>, phrases: Seq<Seq<char>>) -> Seq<char>
    decreases phrases.len(),
{
    if phrases.len() == 0 {
        text
    } else {
        replace_all(without_phrases(text, phrases.drop_last()), phrases.last(), Seq::empty())
    }
}

fn take_out_harmless(text: &str) -> (r: String)
    ensures
        r@ == without_phrases(text@, harmless_words()),
{
    let list = harmless_words_list();
    let ghost all = views(list@);
    let nothing: Vec<char> = Vec::new();
    let mut chars = chars_of(text);
    let mut i: usize = 0;
    while i < list.len()
        invariant
            i <= list@.len(),
            all == views(list@),
            nothing@ == Seq::<char>::empty(),
            chars@ == without_phrases(text@, all.take(i as int)),
        decreases list@.len() - i,
    {
        let phrase = chars_of(list[i]);
        proof {
            assert(all.take(i + 1).drop_last() =~= all.take(i as int));
            assert(all.take(i + 1).last() == phrase@);
        }
        chars = replace_chars(chars.as_slice(), phrase.as_slice(), nothing.as_slice());
        i += 1;
    }
    proof {
        assert(all.take(i as int) =~= all);
    }
    string_of(chars.as_slice())
}

/// The problem and the fix of an issue in one line.
pub open spec fn whole_issue(problem: Seq<char>, required_fix: Seq<char>) -> Seq<char> {
    trim(trim(problem) + " "@ + trim(required_fix))
}

/// Whether a remark is about titles and the numbering of chapters only.
pub open spec fn about_numbering(text: Seq<char>) -> bool {
    holds(text, "标题"@) && holds(text, "索引"@) && holds_any(text, numbering_words())
}

/// Whether a remark is about a title that neither names the protagonist nor is broken.
pub open spec fn about_title_only(text: Seq<char>, settings: NovelSettingsView) -> bool {
    let source = trim(settings.protagonist_name);
    let target = trim(settings.rewritten_protagonist_name);
    &&& holds(text, "标题"@)
    &&& !holds(text, "正文"@)
    &&& !holds(text, "主角"@)
    &&& !(source.len() > 0 && holds(text, source))
    &&& !(target.len() > 0 && holds(text, target))
    &&& !holds_any(text, title_defect_words())
}

/// Whether a remark says that all is well and names no defect.
pub open spec fn says_all_is_well(text: Seq<char>) -> bool {
    holds_any(text, compliant_words()) && !holds_any(
        without_phrases(text, harmless_words()),
        defect_words(),
    )
}

/// Whether an issue asks for nothing.
pub open spec fn asks_nothing(
    problem: Seq<char>,
    required_fix: Seq<char>,
    settings: NovelSettingsView,
) -> bool {
    let text = whole_issue(problem, required_fix);
    text.len() == 0 || about_numbering(text) || about_title_only(text, settings)
        || says_all_is_well(text)
}

pub fn is_non_actionable_review_issue(
    problem: &str,
    required_fix: &str,
    settings: &NovelSettings,
) -> (r: bool)
    ensures
        r == asks_nothing(problem@, required_fix@, settings@),
{
    let mut joined = trimmed(problem);
    let fix = trimmed(required_fix);
    joined.append(" ");
    joined.append(fix.as_str());
    let text = trimmed(joined.as_str());
    let text = text.as_str();
    if text.is_empty() {
        return true;
    }
    if text_has(text, "标题") && text_has(text, "索引") && holds_numbering_words(text) {
        return true;
    }
    if text_has(text, "标题") && !text_has(text, "正文") {
        let source = trimmed(settings.protagonist_name.as_str());
        let target = trimmed(settings.rewritten_protagonist_name.as_str());
        let identifies = text_has(text, "主角") || (!source.as_str().is_empty() && text_has(
            text,
            source.as_str(),
        )) || (!target.as_str().is_empty() && text_has(text, target.as_str()));
        if !identifies && !holds_title_defect_words(text) {
            return true;
        }
    }
    if !holds_compliant_words(text) {
        return false;
    }
    let rest = take_out_harmless(text);
    !holds_defect_words(rest.as_str())
}

// ---- chapter numbers ------------------------------------------------------------------------
/// The numbers in the first group of each match; a text that is no number is passed over.
pub open spec fn captured_indexes(matches: Seq<Captured>) -> Seq<i64>
    decreases matches.len(),
{
    if matches.len() == 0 {
        Seq::empty()
    } else {
        let before = captured_indexes(matches.drop_last());
        match captured_index(matches.last()) {
            Some(n) => before.push(n),
            None => before,
        }
    }
}

pub open spec fn captured_index(groups: Captured) -> Option<i64> {
    if groups.len() > 1 && groups[1] is Some {
        match signed_number(groups[1]->0) {
            Some(n) => Some(n as i64),
            None => None,
        }
    } else {
        None
    }
}

/// The chapters that a review issue in words names, in ascending order, each once.
pub open spec fn issue_indexes(text: Seq<char>) -> Seq<i64> {
    sort_indexes(captured_indexes(regex_captures(issue_index_pattern(), text)))
}

/// The chapter numbers in the first groups of some matches, in ascending order, each once.
pub fn indexes_of_matches(matches: &[Vec<Option<String>>]) -> (r: Vec<i64>)
    ensures
        r@ == sort_indexes(captured_indexes(all_captured(matches@))),
{
    let ghost all = all_captured(matches@);
    let mut found: Vec<i64> = Vec::new();
    let mut i: usize = 0;
    while i < matches.len()
        invariant
            i <= matches@.len(),
            all == all_captured(matches@),
            found@ == captured_indexes(all.take(i as int)),
        decreases matches@.len() - i,
    {
        proof {
            assert(all.take(i + 1).drop_last() =~= all.take(i as int));
            assert(all.take(i + 1).last() == captured(matches@[i as int]@));
        }
        let groups = &matches[i];
        if groups.len() > 1 {
            if let Some(text) = &groups[1] {
                let chars = chars_of(text.as_str());
                if let Some(n) = parse_i64(chars.as_slice()) {
                    found.push(n);
                }
            }
        }
        i += 1;
    }
    proof {
        assert(all.take(i as int) =~= all);
    }
    sort_index_list(found.as_slice())
}

pub fn extract_review_issue_indexes(text: &str) -> (r: Vec<i64>)
    ensures
        r@ == issue_indexes(text@),
{
    let matches = find_captures(r"(?:分片索引|chapter_index)\s*[:：=]?\s*(\d+)", text);
    indexes_of_matches(matches.as_slice())
}

// ---- reading a decision ---------------------------------------------------------------------
/// The words that stand for yes.
pub open spec fn yes_words() -> Seq<Seq<char>> {
    seq!["true"@, "yes"@, "pass"@, "passed"@, "approved"@, "ok"@]
}

/// What the answer says of approval, where it says anything.
pub open spec fn stated_approval(value: JsonView) -> Option<bool> {
    let stated = match field(value, "approved"@) {
        Some(v) => Some(v),
        None => match field(value, "pass"@) {
            Some(v) => Some(v),
            None => field(value, "passed"@),
        },
    };
    match stated {
        Some(JsonView::Bool(b)) => Some(b),
        Some(JsonView::Text(s)) => Some(yes_words().contains(ascii_lowered(trim(s)))),
        _ => None,
    }
}

fn is_yes(text: &str) -> (r: bool)
    ensures
        r == yes_words().contains(ascii_lowered(trim(text@))),
{
    let all = chars_of(text);
    let lower = ascii_lower_chars(trim_chars(all.as_slice()));
    let word = string_of(lower.as_slice());
    let list: Vec<String> = vec![
        "true".to_string(),
        "yes".to_string(),
        "pass".to_string(),
        "passed".to_string(),
        "approved".to_string(),
        "ok".to_string(),
    ];
    proof {
        assert(views(list@) =~= yes_words());
    }
    holds_text(list.as_slice(), word.as_str())
}

fn stated_approval_of(value: &Json) -> (r: Option<bool>)
    ensures
        r == stated_approval(value@),
{
    let stated = match value.get("approved") {
        Some(v) => Some(v),
        None => match value.get("pass") {
            Some(v) => Some(v),
            None => value.get("passed"),
        },
    };
    match stated {
        Some(Json::Bool(b)) => Some(*b),
        Some(Json::Text(s)) => Some(is_yes(s.as_str())),
        _ => None,
    }
}

/// The integers of a list; anything else in it is passed over.
pub open spec fn integers(items: Seq<JsonView>) -> Seq<i64>
    decreases items.len(),
{
    if items.len() == 0 {
        Seq::empty()
    } else {
        let before = integers(items.drop_last());
        match items.last() {
            JsonView::Number { integer: Some(n), .. } => before.push(n),
            _ => before,
        }
    }
}

fn integers_of(items: &[Json]) -> (r: Vec<i64>)
    ensures
        r@ == integers(views(items@)),
{
    let ghost all = views(items@);
    let mut out: Vec<i64> = Vec::new();
    let mut i: usize = 0;
    while i < items.len()
        invariant
            i <= items@.len(),
            all == views(items@),
            out@ == integers(all.take(i as int)),
        decreases items@.len() - i,
    {
        proof {
            assert(all.take(i + 1).drop_last() =~= all.take(i as int));
            assert(all.take(i + 1).last() == items@[i as int]@);
        }
        match &items[i] {
            Json::Number { integer: Some(n), .. } => {
                out.push(*n);
            },
            _ => {},
        }
        i += 1;
    }
    proof {
        assert(all.take(i as int) =~= all);
    }
    out
}

/// The chapters that an issue names, in one field or the other.
pub open spec fn named_indexes(item: JsonView) -> Seq<i64> {
    let listed = match list_field(item, "chapter_indexes"@) {
        Some(items) => integers(items),
        None => Seq::empty(),
    };
    let all = match field(item, "chapter_index"@) {
        Some(JsonView::Number { integer: Some(n), .. }) => listed.push(n),
        _ => listed,
    };
    sort_indexes(all)
}

fn named_indexes_of(item: &Json) -> (r: Vec<i64>)
    ensures
        r@ == named_indexes(item@),
{
    let mut all = match item.get_list("chapter_indexes") {
        Some(items) => integers_of(items.as_slice()),
        None => Vec::new(),
    };
    match item.get("chapter_index") {
        Some(Json::Number { integer: Some(n), .. }) => {
            all.push(*n);
        },
        _ => {},
    }
    sort_index_list(all.as_slice())
}

/// The text of a field, or else the given one.
pub open spec fn text_or(item: JsonView, name: Seq<char>, other: Seq<char>) -> Seq<char> {
    match text_field(item, name) {
        Some(s) => s,
        None => other,
    }
}

fn get_text_or<'a>(item: &'a Json, name: &str, other: &'a str) -> (r: &'a str)
    ensures
        r@ == text_or(item@, name@, other@),
{
    match item.get_text(name) {
        Some(s) => s.as_str(),
        None => other,
    }
}

pub open spec fn default_scope(indexes: Seq<i64>) -> Seq<char> {
    if indexes.len() == 0 {
        "shard"@
    } else {
        "chapter"@
    }
}

/// The issue that an item of the answer gives, where it asks for something.
pub open spec fn item_issue(item: JsonView, settings: NovelSettingsView) -> Option<
    ReviewIssueView,
> {
    match item {
        JsonView::Text(text) => if asks_nothing(text, ""@, settings) {
            None
        } else {
            Some(
                ReviewIssueView {
                    chapter_indexes: issue_indexes(text),
                    scope: default_scope(issue_indexes(text)),
                    category: "legacy"@,
                    severity: "blocking"@,
                    problem: trim(text),
                    required_fix: ""@,
                },
            )
        },
        JsonView::Fields { .. } => {
            let problem = text_or(item, "problem"@, ""@);
            let fix = text_or(item, "required_fix"@, ""@);
            let indexes = named_indexes(item);
            if asks_nothing(problem, fix, settings) || (blank(problem) && blank(fix)) {
                None
            } else {
                Some(
                    ReviewIssueView {
                        chapter_indexes: indexes,
                        scope: ascii_lowered(trim(text_or(item, "scope"@, default_scope(indexes)))),
                        category: ascii_lowered(trim(text_or(item, "category"@, "general"@))),
                        severity: ascii_lowered(trim(text_or(item, "severity"@, "blocking"@))),
                        problem: trim(problem),
                        required_fix: trim(fix),
                    },
                )
            }
        },
        _ => None,
    }
}

fn lower_trimmed(text: &str) -> (r: String)
    ensures
        r@ == ascii_lowered(trim(text@)),
{
    let all = chars_of(text);
    let lower = ascii_lower_chars(trim_chars(all.as_slice()));
    string_of(lower.as_slice())
}

fn scope_word(indexes: &[i64]) -> (r: &'static str)
    ensures
        r@ == default_scope(indexes@),
{
    if indexes.len() == 0 {
        "shard"
    } else {
        "chapter"
    }
}

fn item_issue_of(item: &Json, settings: &NovelSettings) -> (r: Option<ReviewIssue>)
    ensures
        match r {
            Some(issue) => item_issue(item@, settings@) == Some(issue@),
            None => item_issue(item@, settings@) is None,
        },
{
    match item {
        Json::Text(text) => {
            if is_non_actionable_review_issue(text.as_str(), "", settings) {
                return None;
            }
            let chapter_indexes = extract_review_issue_indexes(text.as_str());
            let scope = scope_word(chapter_indexes.as_slice());
            Some(
                ReviewIssue {
                    chapter_indexes,
                    scope: scope.to_string(),
                    category: "legacy".to_string(),
                    severity: "blocking".to_string(),
                    problem: trimmed(text.as_str()),
                    required_fix: "".to_string(),
                },
            )
        },
        Json::Fields { .. } => {
            let problem = get_text_or(item, "problem", "");
            let fix = get_text_or(item, "required_fix", "");
            if is_non_actionable_review_issue(problem, fix, settings) || (is_blank(problem)
                && is_blank(fix)) {
                return None;
            }
            let chapter_indexes = named_indexes_of(item);
            let scope = get_text_or(item, "scope", scope_word(chapter_indexes.as_slice()));
            let category = get_text_or(item, "category", "general");
            let severity = get_text_or(item, "severity", "blocking");
            Some(
                ReviewIssue {
                    scope: lower_trimmed(scope),
                    chapter_indexes,
                    category: lower_trimmed(category),
                    severity: lower_trimmed(severity),
                    problem: trimmed(problem),
                    required_fix: trimmed(fix),
                },
            )
        },
        _ => None,
    }
}

/// The issues that the items give.
pub open spec fn listed_issues(items: Seq<JsonView>, settings: NovelSettingsView) -> Seq<
    ReviewIssueView,
>
    decreases items.len(),
{
    if items.len() == 0 {
        Seq::empty()
    } else {
        let before = listed_issues(items.drop_last(), settings);
        match item_issue(items.last(), settings) {
            Some(issue) => before.push(issue),
            None => before,
        }
    }
}

/// Whether an item is an issue at all, be it one that asks for nothing.
pub open spec fn is_issue(item: JsonView) -> bool {
    item is Text || item is Fields
}

/// Whether the answer lists any issue.
pub open spec fn lists_issue(value: JsonView) -> bool {
    match list_field(value, "issues"@) {
        Some(items) => exists|i: int| 0 <= i < items.len() && is_issue(#[trigger] items[i]),
        None => false,
    }
}

/// An issue that concerns the whole shard.
pub open spec fn summary_issue(text: Seq<char>) -> ReviewIssueView {
    ReviewIssueView {
        chapter_indexes: Seq::empty(),
        scope: "shard"@,
        category: "summary"@,
        severity: "blocking"@,
        problem: "总体判断："@ + text,
        required_fix: ""@,
    }
}

fn make_summary_issue(text: &str) -> (r: ReviewIssue)
    ensures
        r@ == summary_issue(text@),
{
    let mut problem = "总体判断：".to_string();
    problem.append(text);
    let chapter_indexes: Vec<i64> = Vec::new();
    let issue = ReviewIssue {
        chapter_indexes,
        scope: "shard".to_string(),
        category: "summary".to_string(),
        severity: "blocking".to_string(),
        problem,
        required_fix: "".to_string(),
    };
    proof {
        assert(issue@.chapter_indexes =~= Seq::<i64>::empty());
    }
    issue
}

/// The summary of the answer, where it has one that is an issue of its own.
pub open spec fn summary_complaint(value: JsonView, settings: NovelSettingsView) -> Option<
    Seq<char>,
> {
    match text_field(value, "summary"@) {
        Some(s) => {
            let summary = trim(s);
            if summary.len() == 0 || summary == "合格"@ || summary == "通过"@ || asks_nothing(
                summary,
                ""@,
                settings,
            ) {
                None
            } else {
                Some(summary)
            }
        },
        None => None,
    }
}

/// The issues of an answer: those it lists, or else its summary, or else that it refuses without
/// a reason.
pub open spec fn decided_issues(value: JsonView, settings: NovelSettingsView) -> Seq<
    ReviewIssueView,
> {
    let listed = match list_field(value, "issues"@) {
        Some(items) => listed_issues(items, settings),
        None => Seq::empty(),
    };
    if listed.len() > 0 {
        listed
    } else {
        match summary_complaint(value, settings) {
            Some(summary) => seq![summary_issue(summary)],
            None => if stated_approval(value) == Some(false) && !lists_issue(value) {
                seq![summary_issue("审查模型判定不合格，但未提供具体可执行问题。"@)]
            } else {
                Seq::empty()
            },
        }
    }
}

/// Reads the decision out of the value of an answer. It approves where no issue is left.
pub fn review_decision_of(value: &Json, settings: &NovelSettings) -> (r: ReviewDecision)
    ensures
        r@.issues == decided_issues(value@, settings@),
        r.approved == (r@.issues.len() == 0),
{
    let mut issues: Vec<ReviewIssue> = Vec::new();
    let mut any_listed = false;
    if let Some(items) = value.get_list("issues") {
        let ghost all = views(items@);
        let mut i: usize = 0;
        proof {
            assert(views(issues@) =~= listed_issues(all.take(0), settings@));
        }
        while i < items.len()
            invariant
                i <= items@.len(),
                all == views(items@),
                views(issues@) == listed_issues(all.take(i as int), settings@),
                any_listed == exists|k: int| 0 <= k < i && is_issue(#[trigger] all[k]),
            decreases items@.len() - i,
        {
            proof {
                assert(all.take(i + 1).drop_last() =~= all.take(i as int));
                assert(all.take(i + 1).last() == items@[i as int]@);
                assert(all[i as int] == items@[i as int]@);
            }
            match &items[i] {
                Json::Text(_) => {
                    any_listed = true;
                },
                Json::Fields { .. } => {
                    any_listed = true;
                },
                _ => {},
            }
            if let Some(issue) = item_issue_of(&items[i], settings) {
                let ghost before = issues@;
                issues.push(issue);
                proof {
                    lemma_views_push(before, issues@.last());
                }
            }
            i += 1;
        }
        proof {
            assert(all.take(i as int) =~= all);
        }
    }
    proof {
        let listed = match list_field(value@, "issues"@) {
            Some(items) => listed_issues(items, settings@),
            None => Seq::empty(),
        };
        assert(views(issues@) =~= listed);
        assert(any_listed == lists_issue(value@));
    }
    if issues.len() == 0 {
        let mut complaint: Option<String> = None;
        if let Some(s) = value.get_text("summary") {
            let summary = trimmed(s.as_str());
            if !summary.as_str().is_empty() && !same_text(summary.as_str(), "合格") && !same_text(
                summary.as_str(),
                "通过",
            ) && !is_non_actionable_review_issue(summary.as_str(), "", settings) {
                complaint = Some(summary);
            }
        }
        match complaint {
            Some(summary) => {
                issues.push(make_summary_issue(summary.as_str()));
            },
            None => {
                let refused = match stated_approval_of(value) {
                    Some(b) => !b,
                    None => false,
                };
                if refused && !any_listed {
                    issues.push(make_summary_issue("审查模型判定不合格，但未提供具体可执行问题。"));
                }
            },
        }
        proof {
            assert(views(issues@) =~= decided_issues(value@, settings@));
        }
    }
    ReviewDecision { approved: issues.len() == 0, issues }
}

/// Reads the decision out of the text of an answer.
pub fn parse_review_decision_output(output: &str, settings: &NovelSettings) -> (r: Result<
    ReviewDecision,
    String,
>)
    ensures
        match (jsonish(output@), r) {
            (Ok(value), Ok(decision)) => decision@.issues == decided_issues(value, settings@)
                && decision.approved == (decision@.issues.len() == 0),
            (Err(e), Err(m)) => m@ == e,
            _ => false,
        },
{
    match parse_jsonish_value(output) {
        Ok(value) => Ok(review_decision_of(&value, settings)),
        Err(m) => Err(m),
    }
}

// ---- coverage of a plan ---------------------------------------------------------------------
/// The last obligation with an id.
pub open spec fn obligation_with_id(list: Seq<RewriteObligationView>, id: Seq<char>) -> Option<
    RewriteObligationView,
>
    decreases list.len(),
{
    if list.len() == 0 {
        None
    } else if list.last().obligation_id == id {
        Some(list.last())
    } else {
        obligation_with_id(list.drop_last(), id)
    }
}

fn find_obligation<'a>(list: &'a [RewriteObligation], id: &str) -> (r: Option<
    &'a RewriteObligation,
>)
    ensures
        match r {
            Some(o) => obligation_with_id(views(list@), id@) == Some(o@),
            None => obligation_with_id(views(list@), id@) is None,
        },
{
    let ghost all = views(list@);
    let mut n: usize = list.len();
    proof {
        assert(all.take(n as int) =~= all);
    }
    while n > 0
        invariant
            n <= list@.len(),
            all == views(list@),
            obligation_with_id(all, id@) == obligation_with_id(all.take(n as int), id@),
        decreases n,
    {
        proof {
            assert(all.take(n as int).last() == list@[n - 1]@);
            assert(all.take(n as int).drop_last() =~= all.take(n - 1));
        }
        if same_text(list[n - 1].obligation_id.as_str(), id) {
            return Some(&list[n - 1]);
        }
        n -= 1;
    }
    None
}

/// Whether some item is about the obligation.
pub open spec fn covered(coverage: Seq<ReviewCoverageItemView>, id: Seq<char>) -> bool {
    exists|i: int| 0 <= i < coverage.len() && (#[trigger] coverage[i]).obligation_id == id
}

fn is_covered(coverage: &[ReviewCoverageItem], n: usize, id: &str) -> (r: bool)
    requires
        n <= coverage@.len(),
    ensures
        r == covered(views(coverage@).take(n as int), id@),
{
    let ghost part = views(coverage@).take(n as int);
    let mut i: usize = 0;
    while i < n
        invariant
            i <= n <= coverage@.len(),
            part == views(coverage@).take(n as int),
            forall|k: int| 0 <= k < i ==> (#[trigger] part[k]).obligation_id != id@,
        decreases n - i,
    {
        proof {
            assert(part[i as int] == coverage@[i as int]@);
        }
        if same_text(coverage[i].obligation_id.as_str(), id) {
            return true;
        }
        i += 1;
    }
    false
}

/// The states that an item can have.
pub open spec fn known_statuses() -> Seq<Seq<char>> {
    seq!["satisfied"@, "partial"@, "missed"@, "regressed"@]
}

fn is_known_status(status: &str) -> (r: bool)
    ensures
        r == known_statuses().contains(status@),
{
    let list: Vec<String> = vec![
        "satisfied".to_string(),
        "partial".to_string(),
        "missed".to_string(),
        "regressed".to_string(),
    ];
    proof {
        assert(views(list@) =~= known_statuses());
    }
    holds_text(list.as_slice(), status)
}

pub open spec fn unknown_obligation_issue(item: ReviewCoverageItemView) -> ReviewIssueView {
    ReviewIssueView {
        chapter_indexes: item.chapter_indexes,
        scope: "chapter"@,
        category: "obligation_coverage"@,
        severity: "blocking"@,
        problem: "coverage 引用了未知义务 "@ + item.obligation_id + "。"@,
        required_fix: "仅按当前契约逐项重新验收。"@,
    }
}

pub open spec fn repeated_obligation_issue(id: Seq<char>, chapter: i64) -> ReviewIssueView {
    chapter_issue(
        chapter,
        "obligation_coverage"@,
        "义务 "@ + id + " 在 coverage 中重复出现。"@,
        "每个义务只能输出一个 coverage 项。"@,
    )
}

pub open spec fn misplaced_obligation_issue(id: Seq<char>, chapter: i64) -> ReviewIssueView {
    chapter_issue(
        chapter,
        "obligation_coverage"@,
        "义务 "@ + id + " 的 coverage 章节索引必须且只能是 "@ + decimal(chapter as int) + "。"@,
        "将义务 "@ + id + " 的 chapter_indexes 修正为 ["@ + decimal(chapter as int) + "]。"@,
    )
}

pub open spec fn unmet_obligation_issue(
    item: ReviewCoverageItemView,
    obligation: RewriteObligationView,
) -> ReviewIssueView {
    chapter_issue(
        obligation.chapter_index,
        "obligation_coverage"@,
        if item.status == "satisfied"@ {
            "义务 "@ + item.obligation_id + " 的 satisfied 证据无法在当前改写稿中定位。"@
        } else {
            "义务 "@ + item.obligation_id + " 状态为 "@ + item.status + "。"@
        },
        "定向完成义务 "@ + item.obligation_id + "："@ + fix_summary(obligation),
    )
}

pub open spec fn forgotten_obligation_issue(o: RewriteObligationView) -> ReviewIssueView {
    chapter_issue(
        o.chapter_index,
        "obligation_coverage"@,
        "coverage 遗漏义务 "@ + o.obligation_id + "。"@,
        "验收并完成义务 "@ + o.obligation_id + "："@ + fix_summary(o),
    )
}

/// Whether what an item says of its obligation holds: it is satisfied, and the evidence is there
/// or none is needed. An obligation that only preserves, and asks for no change, needs none.
pub open spec fn met(
    item: ReviewCoverageItemView,
    obligation: RewriteObligationView,
    rewrites: Seq<ParsedChapterRewriteView>,
    preserving: Seq<Seq<char>>,
) -> bool {
    item.status == "satisfied"@ && ((preserving.contains(obligation.obligation_id)
        && obligation.required_changes.len() == 0) || evidence_found(item, rewrites))
}

/// What is wrong with an item, behind those before it. An unknown state ends the reading.
pub open spec fn item_findings(
    obligations: Seq<RewriteObligationView>,
    rewrites: Seq<ParsedChapterRewriteView>,
    preserving: Seq<Seq<char>>,
    earlier: Seq<ReviewCoverageItemView>,
    item: ReviewCoverageItemView,
) -> Result<Seq<ReviewIssueView>, Seq<char>> {
    match obligation_with_id(obligations, item.obligation_id) {
        None => Ok(seq![unknown_obligation_issue(item)]),
        Some(o) => {
            let repeated = if covered(earlier, item.obligation_id) {
                seq![repeated_obligation_issue(item.obligation_id, o.chapter_index)]
            } else {
                Seq::empty()
            };
            let misplaced = if item.chapter_indexes == seq![o.chapter_index] {
                Seq::empty()
            } else {
                seq![misplaced_obligation_issue(item.obligation_id, o.chapter_index)]
            };
            let unmet = if met(item, o, rewrites, preserving) {
                Seq::empty()
            } else {
                seq![unmet_obligation_issue(item, o)]
            };
            if known_statuses().contains(item.status) {
                Ok(repeated + misplaced + unmet)
            } else {
                Err("义务 "@ + item.obligation_id + " 使用了未知 coverage 状态："@ + item.status)
            }
        },
    }
}

/// What is wrong with the items, one after the other.
pub open spec fn coverage_findings(
    obligations: Seq<RewriteObligationView>,
    rewrites: Seq<ParsedChapterRewriteView>,
    preserving: Seq<Seq<char>>,
    coverage: Seq<ReviewCoverageItemView>,
) -> Result<Seq<ReviewIssueView>, Seq<char>>
    decreases coverage.len(),
{
    if coverage.len() == 0 {
        Ok(Seq::empty())
    } else {
        let earlier = coverage.drop_last();
        match coverage_findings(obligations, rewrites, preserving, earlier) {
            Err(e) => Err(e),
            Ok(before) => match item_findings(
                obligations,
                rewrites,
                preserving,
                earlier,
                coverage.last(),
            ) {
                Err(e) => Err(e),
                Ok(more) => Ok(before + more),
            },
        }
    }
}

/// The issues about obligations without an item.
pub open spec fn forgotten(
    obligations: Seq<RewriteObligationView>,
    coverage: Seq<ReviewCoverageItemView>,
) -> Seq<ReviewIssueView>
    decreases obligations.len(),
{
    if obligations.len() == 0 {
        Seq::empty()
    } else {
        let before = forgotten(obligations.drop_last(), coverage);
        if covered(coverage, obligations.last().obligation_id) {
            before
        } else {
            before.push(forgotten_obligation_issue(obligations.last()))
        }
    }
}

fn is_met(
    item: &ReviewCoverageItem,
    obligation: &RewriteObligation,
    rewrites: &[ParsedChapterRewrite],
    preserving: &[String],
) -> (r: bool)
    ensures
        r == met(item@, obligation@, views(rewrites@), views(preserving@)),
{
    if !same_text(item.status.as_str(), "satisfied") {
        return false;
    }
    (obligation.required_changes.len() == 0 && holds_text(
        preserving,
        obligation.obligation_id.as_str(),
    )) || evidence_exists_in_rewrite(item, rewrites)
}

fn push_issue(out: &mut Vec<ReviewIssue>, issue: ReviewIssue)
    ensures
        views(final(out)@) == views(old(out)@).push(issue@),
{
    proof {
        lemma_views_push(out@, issue);
    }
    out.push(issue);
}

fn add_item_findings(
    out: &mut Vec<ReviewIssue>,
    plan: &RewritePlan,
    rewrites: &[ParsedChapterRewrite],
    preserving: &[String],
    coverage: &[ReviewCoverageItem],
    n: usize,
) -> (r: Option<String>)
    requires
        n < coverage@.len(),
    ensures
        match item_findings(
            plan@.obligations,
            views(rewrites@),
            views(preserving@),
            views(coverage@).take(n as int),
            coverage@[n as int]@,
        ) {
            Ok(more) => r is None && views(final(out)@) == views(old(out)@) + more,
            Err(e) => r matches Some(m) && m@ == e,
        },
{
    let item = &coverage[n];
    let ghost start = views(out@);
    let obligation = match find_obligation(
        plan.obligations.as_slice(),
        item.obligation_id.as_str(),
    ) {
        Some(o) => o,
        None => {
            let mut problem = "coverage 引用了未知义务 ".to_string();
            problem.append(item.obligation_id.as_str());
            problem.append("。");
            let issue = ReviewIssue {
                chapter_indexes: copy_indexes(item.chapter_indexes.as_slice()),
                scope: "chapter".to_string(),
                category: "obligation_coverage".to_string(),
                severity: "blocking".to_string(),
                problem,
                required_fix: "仅按当前契约逐项重新验收。".to_string(),
            };
            push_issue(out, issue);
            proof {
                assert(views(out@) =~= start + seq![unknown_obligation_issue(item@)]);
            }
            return None;
        },
    };
    let id = item.obligation_id.as_str();
    let chapter = obligation.chapter_index;
    if is_covered(coverage, n, id) {
        let mut problem = "义务 ".to_string();
        problem.append(id);
        problem.append(" 在 coverage 中重复出现。");
        push_issue(
            out,
            make_chapter_issue(
                chapter,
                "obligation_coverage",
                problem,
                "每个义务只能输出一个 coverage 项。".to_string(),
            ),
        );
    }
    let placed = item.chapter_indexes.len() == 1 && item.chapter_indexes[0] == chapter;
    proof {
        if placed {
            assert(item@.chapter_indexes =~= seq![chapter]);
        }
    }
    if !placed {
        let number = i64_text(chapter);
        let mut problem = "义务 ".to_string();
        problem.append(id);
        problem.append(" 的 coverage 章节索引必须且只能是 ");
        problem.append(number.as_str());
        problem.append("。");
        let mut fix = "将义务 ".to_string();
        fix.append(id);
        fix.append(" 的 chapter_indexes 修正为 [");
        fix.append(number.as_str());
        fix.append("]。");
        push_issue(out, make_chapter_issue(chapter, "obligation_coverage", problem, fix));
    }
    if !is_known_status(item.status.as_str()) {
        let mut m = "义务 ".to_string();
        m.append(id);
        m.append(" 使用了未知 coverage 状态：");
        m.append(item.status.as_str());
        return Some(m);
    }
    if !is_met(item, obligation, rewrites, preserving) {
        let mut problem = "义务 ".to_string();
        problem.append(id);
        if same_text(item.status.as_str(), "satisfied") {
            problem.append(" 的 satisfied 证据无法在当前改写稿中定位。");
        } else {
            problem.append(" 状态为 ");
            problem.append(item.status.as_str());
            problem.append("。");
        }
        let summary = obligation_fix_summary(obligation);
        let mut fix = "定向完成义务 ".to_string();
        fix.append(id);
        fix.append("：");
        fix.append(summary.as_str());
        push_issue(out, make_chapter_issue(chapter, "obligation_coverage", problem, fix));
    }
    proof {
        let more = item_findings(
            plan@.obligations,
            views(rewrites@),
            views(preserving@),
            views(coverage@).take(n as int),
            item@,
        )->Ok_0;
        assert(views(out@) =~= start + more);
    }
    None
}

proof fn lemma_findings_prefix(
    obligations: Seq<RewriteObligationView>,
    rewrites: Seq<ParsedChapterRewriteView>,
    preserving: Seq<Seq<char>>,
    coverage: Seq<ReviewCoverageItemView>,
    n: int,
)
    requires
        0 <= n <= coverage.len(),
        coverage_findings(obligations, rewrites, preserving, coverage.take(n)) is Err,
    ensures
        coverage_findings(obligations, rewrites, preserving, coverage) == coverage_findings(
            obligations,
            rewrites,
            preserving,
            coverage.take(n),
        ),
    decreases coverage.len() - n,
{
    if n < coverage.len() {
        assert(coverage.take(n + 1).drop_last() =~= coverage.take(n));
        lemma_findings_prefix(obligations, rewrites, preserving, coverage, n + 1);
    } else {
        assert(coverage.take(n) =~= coverage);
    }
}

/// What a review with coverage comes to: the issues it lists, what is wrong with its items, and
/// the obligations it forgot.
pub open spec fn review_findings(
    value: JsonView,
    settings: NovelSettingsView,
    plan: RewritePlanView,
    rewrites: Seq<ParsedChapterRewriteView>,
    preserving: Seq<Seq<char>>,
    coverage: Seq<ReviewCoverageItemView>,
) -> Result<Seq<ReviewIssueView>, Seq<char>> {
    match coverage_findings(plan.obligations, rewrites, preserving, coverage) {
        Err(e) => Err(e),
        Ok(found) => Ok(
            decided_issues(value, settings) + found + forgotten(plan.obligations, coverage),
        ),
    }
}

/// Whether a review comes to this: the findings, the coverage, and the states that the plan sets;
/// it approves where the coverage suffices.
pub open spec fn is_review_of(
    r: RewriteReviewDecisionView,
    findings: Seq<ReviewIssueView>,
    plan: RewritePlanView,
    coverage: Seq<ReviewCoverageItemView>,
) -> bool {
    &&& r.decision.issues == findings
    &&& r.decision.approved == gate_open(plan, coverage, findings)
    &&& r.coverage == coverage
    &&& r.state_updates == canonical_states(plan)
}

/// Completes a decision by the coverage of a plan. `preserving` names the obligations that only
/// preserve.
pub fn complete_review(
    decision: ReviewDecision,
    plan: &RewritePlan,
    rewrites: &[ParsedChapterRewrite],
    preserving: &[String],
    coverage: Vec<ReviewCoverageItem>,
) -> (r: Result<RewriteReviewDecision, String>)
    ensures
        match coverage_findings(
            plan@.obligations,
            views(rewrites@),
            views(preserving@),
            views(coverage@),
        ) {
            Err(e) => r matches Err(m) && m@ == e,
            Ok(found) => r matches Ok(review) && is_review_of(
                review@,
                decision@.issues + found + forgotten(plan@.obligations, views(coverage@)),
                plan@,
                views(coverage@),
            ),
        },
{
    let ghost all = views(coverage@);
    let ghost start = decision@.issues;
    let mut issues = decision.issues;
    let mut n: usize = 0;
    proof {
        assert(start + Seq::<ReviewIssueView>::empty() =~= start);
    }
    while n < coverage.len()
        invariant
            n <= coverage@.len(),
            all == views(coverage@),
            coverage_findings(
                plan@.obligations,
                views(rewrites@),
                views(preserving@),
                all.take(n as int),
            ) matches Ok(found) && views(issues@) == start + found,
        decreases coverage@.len() - n,
    {
        proof {
            assert(all.take(n + 1).drop_last() =~= all.take(n as int));
            assert(all.take(n + 1).last() == coverage@[n as int]@);
        }
        let ghost before = coverage_findings(
            plan@.obligations,
            views(rewrites@),
            views(preserving@),
            all.take(n as int),
        )->Ok_0;
        let wrong = add_item_findings(
            &mut issues,
            plan,
            rewrites,
            preserving,
            coverage.as_slice(),
            n,
        );
        if let Some(m) = wrong {
            proof {
                lemma_findings_prefix(
                    plan@.obligations,
                    views(rewrites@),
                    views(preserving@),
                    all,
                    n + 1,
                );
            }
            return Err(m);
        }
        proof {
            let more = item_findings(
                plan@.obligations,
                views(rewrites@),
                views(preserving@),
                all.take(n as int),
                coverage@[n as int]@,
            )->Ok_0;
            assert((start + before) + more =~= start + (before + more));
        }
        n += 1;
    }
    proof {
        assert(all.take(n as int) =~= all);
    }
    let ghost middle = views(issues@);
    let ghost list = plan@.obligations;
    let mut i: usize = 0;
    proof {
        assert(middle + forgotten(list.take(0), all) =~= middle);
    }
    while i < plan.obligations.len()
        invariant
            i <= plan.obligations@.len(),
            list == views(plan.obligations@),
            all == views(coverage@),
            views(issues@) == middle + forgotten(list.take(i as int), all),
        decreases plan.obligations@.len() - i,
    {
        let obligation = &plan.obligations[i];
        proof {
            assert(list.take(i + 1).drop_last() =~= list.take(i as int));
            assert(list.take(i + 1).last() == obligation@);
            assert(all.take(all.len() as int) =~= all);
        }
        if !is_covered(coverage.as_slice(), coverage.len(), obligation.obligation_id.as_str()) {
            let summary = obligation_fix_summary(obligation);
            let mut problem = "coverage 遗漏义务 ".to_string();
            problem.append(obligation.obligation_id.as_str());
            problem.append("。");
            let mut fix = "验收并完成义务 ".to_string();
            fix.append(obligation.obligation_id.as_str());
            fix.append("：");
            fix.append(summary.as_str());
            push_issue(
                &mut issues,
                make_chapter_issue(obligation.chapter_index, "obligation_coverage", problem, fix),
            );
            proof {
                assert(views(issues@) =~= middle + forgotten(list.take(i + 1), all));
            }
        }
        i += 1;
    }
    proof {
        assert(list.take(i as int) =~= list);
    }
    let approved = coverage_gate_passes(plan, coverage.as_slice(), issues.as_slice());
    let state_updates = canonical_planned_state_updates(plan);
    Ok(
        RewriteReviewDecision {
            decision: ReviewDecision { approved, issues },
            coverage,
            state_updates,
        },
    )
}

/// Reads a review with coverage. The items of the coverage are given as they were decoded, or
/// else the message of the decoder.
pub fn parse_rewrite_review_decision_output(
    output: &str,
    settings: &NovelSettings,
    plan: &RewritePlan,
    rewrites: &[ParsedChapterRewrite],
    preserving: &[String],
    coverage: Result<Vec<ReviewCoverageItem>, String>,
) -> (r: Result<RewriteReviewDecision, String>)
    ensures
        match (jsonish(output@), coverage) {
            (Err(e), _) => r matches Err(m) && m@ == e,
            (Ok(value), Err(e)) => r matches Err(m) && m@ == "coverage 字段无效："@ + e@,
            (Ok(value), Ok(items)) => match review_findings(
                value,
                settings@,
                plan@,
                views(rewrites@),
                views(preserving@),
                views(items@),
            ) {
                Err(e) => r matches Err(m) && m@ == e,
                Ok(findings) => r matches Ok(review) && is_review_of(
                    review@,
                    findings,
                    plan@,
                    views(items@),
                ),
            },
        },
{
    let decision = match parse_review_decision_output(output, settings) {
        Ok(d) => d,
        Err(m) => {
            return Err(m);
        },
    };
    match coverage {
        Err(e) => {
            let mut m = "coverage 字段无效：".to_string();
            m.append(e.as_str());
            Err(m)
        },
        Ok(items) => complete_review(decision, plan, rewrites, preserving, items),
    }
}

// ---- laws -----------------------------------------------------------------------------------
proof fn lemma_forgotten_found(
    obligations: Seq<RewriteObligationView>,
    coverage: Seq<ReviewCoverageItemView>,
    k: int,
)
    requires
        0 <= k < obligations.len(),
        !covered(coverage, obligations[k].obligation_id),
    ensures
        forgotten(obligations, coverage).len() > 0,
    decreases obligations.len(),
{
    if k < obligations.len() - 1 {
        lemma_forgotten_found(obligations.drop_last(), coverage, k);
    }
}

proof fn lemma_findings_of_item(
    obligations: Seq<RewriteObligationView>,
    rewrites: Seq<ParsedChapterRewriteView>,
    preserving: Seq<Seq<char>>,
    coverage: Seq<ReviewCoverageItemView>,
    k: int,
)
    requires
        0 <= k < coverage.len(),
        coverage_findings(obligations, rewrites, preserving, coverage) matches Ok(found)
            && found.len() == 0,
    ensures
        obligation_with_id(obligations, coverage[k].obligation_id) matches Some(o) && met(
            coverage[k],
            o,
            rewrites,
            preserving,
        ),
    decreases coverage.len(),
{
    let earlier = coverage.drop_last();
    if k < earlier.len() {
        lemma_findings_of_item(obligations, rewrites, preserving, earlier, k);
    }
}

/// An approved review covers every obligation of the plan, and what each of its items says holds
/// of the rewritten text.
pub proof fn law_approval_rests_on_evidence(
    r: RewriteReviewDecisionView,
    value: JsonView,
    settings: NovelSettingsView,
    plan: RewritePlanView,
    rewrites: Seq<ParsedChapterRewriteView>,
    preserving: Seq<Seq<char>>,
    coverage: Seq<ReviewCoverageItemView>,
)
    requires
        review_findings(value, settings, plan, rewrites, preserving, coverage) matches Ok(findings)
            && is_review_of(r, findings, plan, coverage),
        r.decision.approved,
    ensures
        r.decision.issues.len() == 0,
        forall|k: int|
            0 <= k < plan.obligations.len() ==> covered(
                coverage,
                (#[trigger] plan.obligations[k]).obligation_id,
            ),
        forall|k: int|
            0 <= k < coverage.len() ==> (obligation_with_id(
                plan.obligations,
                (#[trigger] coverage[k]).obligation_id,
            ) matches Some(o) && met(coverage[k], o, rewrites, preserving)),
{
    let found = coverage_findings(plan.obligations, rewrites, preserving, coverage)->Ok_0;
    let missing = forgotten(plan.obligations, coverage);
    assert((decided_issues(value, settings) + found + missing).len() == 0);
    assert forall|k: int| 0 <= k < plan.obligations.len() implies covered(
        coverage,
        (#[trigger] plan.obligations[k]).obligation_id,
    ) by {
        if !covered(coverage, plan.obligations[k].obligation_id) {
            lemma_forgotten_found(plan.obligations, coverage, k);
        }
    }
    assert forall|k: int| 0 <= k < coverage.len() implies (obligation_with_id(
        plan.obligations,
        (#[trigger] coverage[k]).obligation_id,
    ) matches Some(o) && met(coverage[k], o, rewrites, preserving)) by {
        lemma_findings_of_item(plan.obligations, rewrites, preserving, coverage, k);
    }
}

} // verus!
