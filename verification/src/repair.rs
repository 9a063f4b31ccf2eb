//! What a review sends back: which chapters are revised, and how the revised chapters take the
//! place of the old ones.
use vstd::prelude::*;
use crate::domain::{
    opt_text, Chapter, ChapterView, Duplicate, ParsedChapterRewrite, ParsedChapterRewriteView,
    ReviewDecision, ReviewIssue, ReviewIssueView, RewriteObligationView, RewritePlan,
};
use crate::keywords::{
    holds_structural_categories, holds_structural_words, structural_categories, structural_words,
};
use crate::order::{law_sorted_indexes_are_distinct, sort_index_list};
use crate::residue::{find_rewrite, rewrite_with_id};
use crate::review_filter::{claim_of, claim_text, index_list, index_texts};
use crate::text::{
    ascii_lower_chars, ascii_lowered, chars_of, decimal, holds, holds_any, holds_index, i64_text,
    join, join_texts, lemma_views_push, same_text, string_of, text_has, usize_text, views,
};

verus! {

// ---- which chapters are revised -------------------------------------------------------------
/// What is revised: some chapters, or the whole shard for a reason.
#[derive(Debug, PartialEq, Eq)]
pub enum RevisionPlan {
    Targeted(Vec<i64>),
    Full(String),
}

pub enum RevisionPlanView {
    Targeted(Seq<i64>),
    Full(Seq<char>),
}

impl View for RevisionPlan {
    type V = RevisionPlanView;

    open spec fn view(&self) -> RevisionPlanView {
        match self {
            RevisionPlan::Targeted(v) => RevisionPlanView::Targeted(v@),
            RevisionPlan::Full(s) => RevisionPlanView::Full(s@),
        }
    }
}

/// An issue with the chapters it names.
pub open spec fn short_issue(issue: ReviewIssueView) -> Seq<char> {
    (if issue.chapter_indexes.len() == 0 {
        "未定位章节"@
    } else {
        join(index_texts(issue.chapter_indexes), "、"@)
    }) + " ["@ + issue.category + "] "@ + issue.problem
}

pub fn issue_text(issue: &ReviewIssue) -> (r: String)
    ensures
        r@ == short_issue(issue@),
{
    let mut out = if issue.chapter_indexes.len() == 0 {
        "未定位章节".to_string()
    } else {
        index_list(issue.chapter_indexes.as_slice(), "、")
    };
    out.append(" [");
    out.append(issue.category.as_str());
    out.append("] ");
    out.append(issue.problem.as_str());
    out
}

/// Whether an issue concerns more than the chapters it names.
pub open spec fn crosses_chapters(issue: ReviewIssueView) -> bool {
    ascii_lowered(issue.scope) != "chapter"@ || holds_any(
        ascii_lowered(issue.category),
        structural_categories(),
    ) || holds_any(claim_of(issue), structural_words())
}

fn lowered(text: &str) -> (r: String)
    ensures
        r@ == ascii_lowered(text@),
{
    let all = chars_of(text);
    let lower = ascii_lower_chars(all.as_slice());
    string_of(lower.as_slice())
}

fn does_cross_chapters(issue: &ReviewIssue) -> (r: bool)
    ensures
        r == crosses_chapters(issue@),
{
    let scope = lowered(issue.scope.as_str());
    if !same_text(scope.as_str(), "chapter") {
        return true;
    }
    let category = lowered(issue.category.as_str());
    if holds_structural_categories(category.as_str()) {
        return true;
    }
    let claim = claim_text(issue);
    holds_structural_words(claim.as_str())
}

/// The indexes of chapters.
pub open spec fn indexes_of(chapters: Seq<ChapterView>) -> Seq<i64> {
    Seq::new(chapters.len(), |i: int| chapters[i].index)
}

/// Why an issue cannot be met by revising the chapters that it names, where it cannot.
pub open spec fn full_reason(issue: ReviewIssueView, shard: Seq<i64>) -> Option<Seq<char>> {
    if crosses_chapters(issue) {
        Some("问题涉及跨章一致性或章节结构："@ + short_issue(issue))
    } else if issue.chapter_indexes.len() == 0 {
        Some("审查问题未提供可定位的分片索引："@ + short_issue(issue))
    } else if exists|i: int|
        0 <= i < issue.chapter_indexes.len() && !shard.contains(
            #[trigger] issue.chapter_indexes[i],
        ) {
        Some("审查问题包含当前分片之外的索引："@ + short_issue(issue))
    } else {
        None
    }
}

/// The reason that the first such issue gives.
pub open spec fn first_full_reason(issues: Seq<ReviewIssueView>, shard: Seq<i64>) -> Option<
    Seq<char>,
>
    decreases issues.len(),
{
    if issues.len() == 0 {
        None
    } else {
        match first_full_reason(issues.drop_last(), shard) {
            Some(r) => Some(r),
            None => full_reason(issues.last(), shard),
        }
    }
}

/// All chapters that the issues name.
pub open spec fn all_targets(issues: Seq<ReviewIssueView>) -> Seq<i64>
    decreases issues.len(),
{
    if issues.len() == 0 {
        Seq::empty()
    } else {
        all_targets(issues.drop_last()) + issues.last().chapter_indexes
    }
}

/// The indexes of the shard that are among the targets, without immediate repetitions.
pub open spec fn targeted(shard: Seq<i64>, targets: Seq<i64>) -> Seq<i64>
    decreases shard.len(),
{
    if shard.len() == 0 {
        Seq::empty()
    } else {
        let before = targeted(shard.drop_last(), targets);
        let x = shard.last();
        if !targets.contains(x) || (before.len() > 0 && before.last() == x) {
            before
        } else {
            before.push(x)
        }
    }
}

/// What is revised after a review. Where every issue names chapters of the shard and concerns
/// only them, and they are no more than half of it, those chapters are; else the whole shard.
pub open spec fn revision_plan(shard: Seq<i64>, issues: Seq<ReviewIssueView>) -> RevisionPlanView {
    let targets = all_targets(issues);
    match first_full_reason(issues, shard) {
        Some(r) => RevisionPlanView::Full(r),
        None => if targets.len() == 0 {
            RevisionPlanView::Full("审查未提供可执行的目标章节。"@)
        } else if targets.to_set().len() * 2 > shard.len() {
            RevisionPlanView::Full(
                "目标章节 "@ + decimal(targets.to_set().len() as int) + " 个，超过当前分片 "@ + decimal(
                    shard.len() as int,
                ) + " 章的一半。"@,
            )
        } else {
            RevisionPlanView::Targeted(targeted(shard, targets))
        },
    }
}

fn collect_indexes(shard: &[Chapter]) -> (r: Vec<i64>)
    ensures
        r@ == indexes_of(views(shard@)),
{
    let ghost all = views(shard@);
    let mut out: Vec<i64> = Vec::new();
    let mut i: usize = 0;
    while i < shard.len()
        invariant
            i <= shard@.len(),
            all == views(shard@),
            out@ == indexes_of(all).take(i as int),
        decreases shard@.len() - i,
    {
        out.push(shard[i].index);
        i += 1;
        proof {
            assert(out@ =~= indexes_of(all).take(i as int));
        }
    }
    proof {
        assert(indexes_of(all).take(i as int) =~= indexes_of(all));
    }
    out
}

fn full_reason_of(issue: &ReviewIssue, shard: &[i64]) -> (r: Option<String>)
    ensures
        opt_text(r) == full_reason(issue@, shard@),
{
    let short = issue_text(issue);
    if does_cross_chapters(issue) {
        let mut m = "问题涉及跨章一致性或章节结构：".to_string();
        m.append(short.as_str());
        return Some(m);
    }
    if issue.chapter_indexes.len() == 0 {
        let mut m = "审查问题未提供可定位的分片索引：".to_string();
        m.append(short.as_str());
        return Some(m);
    }
    let mut i: usize = 0;
    while i < issue.chapter_indexes.len()
        invariant
            i <= issue.chapter_indexes@.len(),
            short@ == short_issue(issue@),
            !crosses_chapters(issue@),
            issue@.chapter_indexes.len() > 0,
            forall|k: int| 0 <= k < i ==> shard@.contains(#[trigger] issue@.chapter_indexes[k]),
        decreases issue.chapter_indexes@.len() - i,
    {
        if !holds_index(shard, issue.chapter_indexes[i]) {
            let mut m = "审查问题包含当前分片之外的索引：".to_string();
            m.append(short.as_str());
            proof {
                assert(!shard@.contains(issue@.chapter_indexes[i as int]));
            }
            return Some(m);
        }
        i += 1;
    }
    None
}

proof fn lemma_first_reason_prefix(issues: Seq<ReviewIssueView>, shard: Seq<i64>, n: int)
    requires
        0 <= n <= issues.len(),
        first_full_reason(issues.take(n), shard) is Some,
    ensures
        first_full_reason(issues, shard) == first_full_reason(issues.take(n), shard),
    decreases issues.len() - n,
{
    if n < issues.len() {
        assert(issues.take(n + 1).drop_last() =~= issues.take(n));
        lemma_first_reason_prefix(issues, shard, n + 1);
    } else {
        assert(issues.take(n) =~= issues);
    }
}

fn distinct_count(list: &[i64]) -> (r: usize)
    ensures
        r == list@.to_set().len(),
{
    let sorted = sort_index_list(list);
    proof {
        law_sorted_indexes_are_distinct(list@);
        let s = sorted@;
        assert(s.no_duplicates());
        s.unique_seq_to_set();
        assert forall|x: i64| s.to_set().contains(x) <==> list@.to_set().contains(x) by {
            assert(s.contains(x) <==> list@.contains(x));
        }
        assert(s.to_set() =~= list@.to_set());
    }
    sorted.len()
}

fn targeted_of(shard: &[i64], targets: &[i64]) -> (r: Vec<i64>)
    ensures
        r@ == targeted(shard@, targets@),
{
    let ghost all = shard@;
    let mut out: Vec<i64> = Vec::new();
    let mut i: usize = 0;
    while i < shard.len()
        invariant
            i <= shard@.len(),
            all == shard@,
            out@ == targeted(all.take(i as int), targets@),
        decreases shard@.len() - i,
    {
        proof {
            assert(all.take(i + 1).drop_last() =~= all.take(i as int));
        }
        let x = shard[i];
        if holds_index(targets, x) && !(out.len() > 0 && out[out.len() - 1] == x) {
            out.push(x);
        }
        i += 1;
    }
    proof {
        assert(all.take(i as int) =~= all);
    }
    out
}

pub fn plan_review_revision(shard: &[Chapter], decision: &ReviewDecision) -> (r: RevisionPlan)
    ensures
        r@ == revision_plan(indexes_of(views(shard@)), decision@.issues),
{
    let indexes = collect_indexes(shard);
    let ghost all = decision@.issues;
    let mut targets: Vec<i64> = Vec::new();
    let mut i: usize = 0;
    while i < decision.issues.len()
        invariant
            i <= decision.issues@.len(),
            all == views(decision.issues@),
            indexes@ == indexes_of(views(shard@)),
            first_full_reason(all.take(i as int), indexes@) is None,
            targets@ == all_targets(all.take(i as int)),
            all == decision@.issues,
        decreases decision.issues@.len() - i,
    {
        let issue = &decision.issues[i];
        proof {
            assert(all.take(i + 1).drop_last() =~= all.take(i as int));
            assert(all.take(i + 1).last() == issue@);
        }
        if let Some(reason) = full_reason_of(issue, indexes.as_slice()) {
            proof {
                lemma_first_reason_prefix(all, indexes@, i + 1);
            }
            return RevisionPlan::Full(reason);
        }
        let ghost before = targets@;
        let mut k: usize = 0;
        while k < issue.chapter_indexes.len()
            invariant
                k <= issue.chapter_indexes@.len(),
                targets@ == before + issue.chapter_indexes@.take(k as int),
            decreases issue.chapter_indexes@.len() - k,
        {
            targets.push(issue.chapter_indexes[k]);
            k += 1;
            proof {
                assert(targets@ =~= before + issue.chapter_indexes@.take(k as int));
            }
        }
        proof {
            assert(issue.chapter_indexes@.take(k as int) =~= issue.chapter_indexes@);
        }
        i += 1;
    }
    proof {
        assert(all.take(i as int) =~= all);
    }
    if targets.len() == 0 {
        return RevisionPlan::Full("审查未提供可执行的目标章节。".to_string());
    }
    let count = distinct_count(targets.as_slice());
    if count > shard.len() / 2 {
        let a = usize_text(count);
        let b = usize_text(shard.len());
        let mut m = "目标章节 ".to_string();
        m.append(a.as_str());
        m.append(" 个，超过当前分片 ");
        m.append(b.as_str());
        m.append(" 章的一半。");
        return RevisionPlan::Full(m);
    }
    RevisionPlan::Targeted(targeted_of(indexes.as_slice(), targets.as_slice()))
}

/// The obligations of the plan that the issues name.
pub open spec fn failed_obligations(
    obligations: Seq<RewriteObligationView>,
    claims: Seq<char>,
) -> Seq<Seq<char>>
    decreases obligations.len(),
{
    if obligations.len() == 0 {
        Seq::empty()
    } else {
        let before = failed_obligations(obligations.drop_last(), claims);
        if holds(claims, obligations.last().obligation_id) {
            before.push(obligations.last().obligation_id)
        } else {
            before
        }
    }
}

/// What the issues say, one per line.
pub open spec fn all_claims(issues: Seq<ReviewIssueView>) -> Seq<char> {
    join(Seq::new(issues.len(), |i: int| claim_of(issues[i])), "\n"@)
}

fn all_claims_of(issues: &[ReviewIssue]) -> (r: String)
    ensures
        r@ == all_claims(views(issues@)),
{
    let ghost all = views(issues@);
    let ghost goal = Seq::new(all.len(), |i: int| claim_of(all[i]));
    let mut parts: Vec<String> = Vec::new();
    let mut i: usize = 0;
    while i < issues.len()
        invariant
            i <= issues@.len(),
            all == views(issues@),
            goal == Seq::new(all.len(), |k: int| claim_of(all[k])),
            views(parts@) == goal.take(i as int),
        decreases issues@.len() - i,
    {
        let ghost before = parts@;
        parts.push(claim_text(&issues[i]));
        proof {
            lemma_views_push(before, parts@.last());
            assert(all[i as int] == issues@[i as int]@);
            assert(views(parts@) =~= goal.take(i + 1));
        }
        i += 1;
    }
    proof {
        assert(goal.take(i as int) =~= goal);
    }
    join_texts(parts.as_slice(), "\n")
}

/// The part of a contract that a repair needs: the chapters that are revised, where not the whole
/// shard is, and the obligations that failed.
pub struct RepairScope {
    pub target_indexes: Option<Vec<i64>>,
    pub failed_obligation_ids: Vec<String>,
}

pub fn repair_scope(shard: &[Chapter], plan: &RewritePlan, decision: &ReviewDecision) -> (r:
    RepairScope)
    ensures
        match revision_plan(indexes_of(views(shard@)), decision@.issues) {
            RevisionPlanView::Targeted(list) => r.target_indexes matches Some(v) && v@ == list,
            RevisionPlanView::Full(_) => r.target_indexes is None,
        },
        views(r.failed_obligation_ids@) == failed_obligations(
            plan@.obligations,
            all_claims(decision@.issues),
        ),
{
    let target_indexes = match plan_review_revision(shard, decision) {
        RevisionPlan::Targeted(v) => Some(v),
        RevisionPlan::Full(_) => None,
    };
    let claims = all_claims_of(decision.issues.as_slice());
    let ghost all = plan@.obligations;
    let mut failed: Vec<String> = Vec::new();
    let mut i: usize = 0;
    proof {
        assert(views(failed@) =~= failed_obligations(all.take(0), claims@));
    }
    while i < plan.obligations.len()
        invariant
            i <= plan.obligations@.len(),
            all == views(plan.obligations@),
            views(failed@) == failed_obligations(all.take(i as int), claims@),
        decreases plan.obligations@.len() - i,
    {
        proof {
            assert(all.take(i + 1).drop_last() =~= all.take(i as int));
            assert(all.take(i + 1).last() == plan.obligations@[i as int]@);
        }
        if text_has(claims.as_str(), plan.obligations[i].obligation_id.as_str()) {
            let ghost before = failed@;
            failed.push(plan.obligations[i].obligation_id.clone());
            proof {
                lemma_views_push(before, failed@.last());
            }
        }
        i += 1;
    }
    proof {
        assert(all.take(i as int) =~= all);
    }
    RepairScope { target_indexes, failed_obligation_ids: failed }
}

/// The instructions of a repair: those of the contract where there is a plan, else the user's
/// style alone. The texts of the rule pack, the contract, the continuity and the style are given
/// as they are shown.
pub fn build_repair_core_prompt(
    style_prompt: &str,
    planned: Option<(&str, &str, &str, &str)>,
) -> (r: String)
    ensures
        r@ == match planned {
            Some((rule_pack, contract, continuity, style)) => rule_pack@ + "\n\n【本次修复所需契约】\n"@
                + contract@ + "\n\n【相关已通过连续性状态】\n"@ + continuity@ + "\n\n【低优先级全局文风补充】\n"@ + style@,
            None => style_prompt@,
        },
{
    match planned {
        Some((rule_pack, contract, continuity, style)) => {
            let mut out = rule_pack.to_string();
            out.append("\n\n【本次修复所需契约】\n");
            out.append(contract);
            out.append("\n\n【相关已通过连续性状态】\n");
            out.append(continuity);
            out.append("\n\n【低优先级全局文风补充】\n");
            out.append(style);
            out
        },
        None => style_prompt.to_string(),
    }
}

// ---- putting the revised chapters in --------------------------------------------------------
/// What is wrong with the first revised chapter that was not asked for or comes twice.
pub open spec fn targeted_fault(
    revised: Seq<ParsedChapterRewriteView>,
    expected: Seq<i64>,
) -> Option<Seq<char>>
    decreases revised.len(),
{
    if revised.len() == 0 {
        None
    } else {
        let earlier = revised.drop_last();
        match targeted_fault(earlier, expected) {
            Some(e) => Some(e),
            None => if !expected.contains(revised.last().index) {
                Some("定向重写返回了非目标分片索引 "@ + decimal(revised.last().index as int) + "。"@)
            } else if rewrite_with_id(earlier, revised.last().id) is Some {
                Some("定向重写返回了重复章节。"@)
            } else {
                None
            },
        }
    }
}

/// Whether an earlier chapter that is replaced has the same id.
pub open spec fn id_used(
    rewrites: Seq<ParsedChapterRewriteView>,
    expected: Seq<i64>,
    id: Seq<char>,
) -> bool {
    exists|i: int|
        0 <= i < rewrites.len() && expected.contains((#[trigger] rewrites[i]).index)
            && rewrites[i].id == id
}

/// The chapters with those of the expected indexes replaced by the revised ones of the same id.
pub open spec fn replaced(
    rewrites: Seq<ParsedChapterRewriteView>,
    revised: Seq<ParsedChapterRewriteView>,
    expected: Seq<i64>,
) -> Result<Seq<ParsedChapterRewriteView>, Seq<char>>
    decreases rewrites.len(),
{
    if rewrites.len() == 0 {
        Ok(Seq::empty())
    } else {
        let earlier = rewrites.drop_last();
        let x = rewrites.last();
        match replaced(earlier, revised, expected) {
            Err(e) => Err(e),
            Ok(before) => if !expected.contains(x.index) {
                Ok(before.push(x))
            } else {
                match rewrite_with_id(revised, x.id) {
                    Some(y) => if id_used(earlier, expected, x.id) {
                        Err("定向重写缺少章节 ID："@ + x.id + "。"@)
                    } else if y.index != x.index {
                        Err("定向重写章节 ID 与索引不匹配："@ + x.id + "。"@)
                    } else {
                        Ok(before.push(y))
                    },
                    None => Err("定向重写缺少章节 ID："@ + x.id + "。"@),
                }
            },
        }
    }
}

/// The chapters after a revision of some of them, or what is wrong with what came back.
pub open spec fn merged(
    rewrites: Seq<ParsedChapterRewriteView>,
    revised: Seq<ParsedChapterRewriteView>,
    expected: Seq<i64>,
) -> Result<Seq<ParsedChapterRewriteView>, Seq<char>> {
    match targeted_fault(revised, expected) {
        Some(e) => Err(e),
        None => if revised.len() != expected.to_set().len() {
            Err(
                "定向重写章节数量不匹配：期望 "@ + decimal(expected.to_set().len() as int) + " 章，得到 "@ + decimal(
                    revised.len() as int,
                ) + " 章。"@,
            )
        } else {
            replaced(rewrites, revised, expected)
        },
    }
}

proof fn lemma_fault_prefix(revised: Seq<ParsedChapterRewriteView>, expected: Seq<i64>, n: int)
    requires
        0 <= n <= revised.len(),
        targeted_fault(revised.take(n), expected) is Some,
    ensures
        targeted_fault(revised, expected) == targeted_fault(revised.take(n), expected),
    decreases revised.len() - n,
{
    if n < revised.len() {
        assert(revised.take(n + 1).drop_last() =~= revised.take(n));
        lemma_fault_prefix(revised, expected, n + 1);
    } else {
        assert(revised.take(n) =~= revised);
    }
}

proof fn lemma_replaced_prefix(
    rewrites: Seq<ParsedChapterRewriteView>,
    revised: Seq<ParsedChapterRewriteView>,
    expected: Seq<i64>,
    n: int,
)
    requires
        0 <= n <= rewrites.len(),
        replaced(rewrites.take(n), revised, expected) is Err,
    ensures
        replaced(rewrites, revised, expected) == replaced(rewrites.take(n), revised, expected),
    decreases rewrites.len() - n,
{
    if n < rewrites.len() {
        assert(rewrites.take(n + 1).drop_last() =~= rewrites.take(n));
        lemma_replaced_prefix(rewrites, revised, expected, n + 1);
    } else {
        assert(rewrites.take(n) =~= rewrites);
    }
}

fn is_id_used(rewrites: &[ParsedChapterRewrite], n: usize, expected: &[i64], id: &str) -> (r: bool)
    requires
        n <= rewrites@.len(),
    ensures
        r == id_used(views(rewrites@).take(n as int), expected@, id@),
{
    let ghost part = views(rewrites@).take(n as int);
    let mut i: usize = 0;
    while i < n
        invariant
            i <= n <= rewrites@.len(),
            part == views(rewrites@).take(n as int),
            forall|k: int|
                0 <= k < i ==> !(expected@.contains((#[trigger] part[k]).index) && part[k].id
                    == id@),
        decreases n - i,
    {
        proof {
            assert(part[i as int] == rewrites@[i as int]@);
        }
        if holds_index(expected, rewrites[i].index) && same_text(rewrites[i].id.as_str(), id) {
            return true;
        }
        i += 1;
    }
    false
}

fn find_fault(revised: &[ParsedChapterRewrite], expected: &[i64]) -> (r: Option<String>)
    ensures
        opt_text(r) == targeted_fault(views(revised@), expected@),
{
    let ghost all = views(revised@);
    let mut earlier: Vec<ParsedChapterRewrite> = Vec::new();
    let mut i: usize = 0;
    proof {
        assert(views(earlier@) =~= all.take(0));
    }
    while i < revised.len()
        invariant
            i <= revised@.len(),
            all == views(revised@),
            views(earlier@) == all.take(i as int),
            targeted_fault(all.take(i as int), expected@) is None,
        decreases revised@.len() - i,
    {
        let x = &revised[i];
        proof {
            assert(all.take(i + 1).drop_last() =~= all.take(i as int));
            assert(all.take(i + 1).last() == x@);
        }
        if !holds_index(expected, x.index) {
            let number = i64_text(x.index);
            let mut m = "定向重写返回了非目标分片索引 ".to_string();
            m.append(number.as_str());
            m.append("。");
            proof {
                lemma_fault_prefix(all, expected@, i + 1);
            }
            return Some(m);
        }
        if find_rewrite(earlier.as_slice(), x.id.as_str()).is_some() {
            proof {
                lemma_fault_prefix(all, expected@, i + 1);
            }
            return Some("定向重写返回了重复章节。".to_string());
        }
        let ghost before = earlier@;
        earlier.push(x.duplicate());
        proof {
            lemma_views_push(before, earlier@.last());
            assert(views(earlier@) =~= all.take(i + 1));
        }
        i += 1;
    }
    proof {
        assert(all.take(i as int) =~= all);
    }
    None
}

/// Puts the revised chapters in the place of the old ones; the others stay as they are.
pub fn merge_targeted_rewrites(
    rewrites: &[ParsedChapterRewrite],
    revised: Vec<ParsedChapterRewrite>,
    target_indexes: &[i64],
) -> (r: Result<Vec<ParsedChapterRewrite>, String>)
    ensures
        match (merged(views(rewrites@), views(revised@), target_indexes@), r) {
            (Ok(list), Ok(v)) => views(v@) == list,
            (Err(e), Err(m)) => m@ == e,
            _ => false,
        },
{
    if let Some(m) = find_fault(revised.as_slice(), target_indexes) {
        return Err(m);
    }
    let count = distinct_count(target_indexes);
    if revised.len() != count {
        let a = usize_text(count);
        let b = usize_text(revised.len());
        let mut m = "定向重写章节数量不匹配：期望 ".to_string();
        m.append(a.as_str());
        m.append(" 章，得到 ");
        m.append(b.as_str());
        m.append(" 章。");
        return Err(m);
    }
    let ghost all = views(rewrites@);
    let ghost list = views(revised@);
    let mut out: Vec<ParsedChapterRewrite> = Vec::new();
    let mut i: usize = 0;
    proof {
        assert(views(out@) =~= Seq::<ParsedChapterRewriteView>::empty());
    }
    while i < rewrites.len()
        invariant
            i <= rewrites@.len(),
            all == views(rewrites@),
            list == views(revised@),
            merged(all, list, target_indexes@) == replaced(all, list, target_indexes@),
            replaced(all.take(i as int), list, target_indexes@) == Ok::<
                Seq<ParsedChapterRewriteView>,
                Seq<char>,
            >(views(out@)),
        decreases rewrites@.len() - i,
    {
        let x = &rewrites[i];
        proof {
            assert(all.take(i + 1).drop_last() =~= all.take(i as int));
            assert(all.take(i + 1).last() == x@);
        }
        let ghost before = out@;
        if !holds_index(target_indexes, x.index) {
            out.push(x.duplicate());
            proof {
                lemma_views_push(before, out@.last());
            }
        } else {
            let found = if is_id_used(rewrites, i, target_indexes, x.id.as_str()) {
                None
            } else {
                find_rewrite(revised.as_slice(), x.id.as_str())
            };
            match found {
                None => {
                    let mut m = "定向重写缺少章节 ID：".to_string();
                    m.append(x.id.as_str());
                    m.append("。");
                    proof {
                        lemma_replaced_prefix(all, list, target_indexes@, i + 1);
                    }
                    return Err(m);
                },
                Some(y) => {
                    if y.index != x.index {
                        let mut m = "定向重写章节 ID 与索引不匹配：".to_string();
                        m.append(x.id.as_str());
                        m.append("。");
                        proof {
                            lemma_replaced_prefix(all, list, target_indexes@, i + 1);
                        }
                        return Err(m);
                    }
                    out.push(y.duplicate());
                    proof {
                        lemma_views_push(before, out@.last());
                    }
                },
            }
        }
        i += 1;
    }
    proof {
        assert(all.take(i as int) =~= all);
    }
    Ok(out)
}

// ---- laws -----------------------------------------------------------------------------------
proof fn lemma_found_has_id(list: Seq<ParsedChapterRewriteView>, id: Seq<char>)
    requires
        rewrite_with_id(list, id) is Some,
    ensures
        rewrite_with_id(list, id)->0.id == id,
    decreases list.len(),
{
    if list.last().id != id {
        lemma_found_has_id(list.drop_last(), id);
    }
}

proof fn lemma_replaced_keeps_the_rest(
    rewrites: Seq<ParsedChapterRewriteView>,
    revised: Seq<ParsedChapterRewriteView>,
    expected: Seq<i64>,
)
    requires
        replaced(rewrites, revised, expected) is Ok,
    ensures
        ({
            let after = replaced(rewrites, revised, expected)->Ok_0;
            &&& after.len() == rewrites.len()
            &&& forall|i: int|
                #![trigger after[i]]
                0 <= i < rewrites.len() ==> {
                    &&& !expected.contains(rewrites[i].index) ==> after[i] == rewrites[i]
                    &&& expected.contains(rewrites[i].index) ==> rewrite_with_id(
                        revised,
                        rewrites[i].id,
                    ) == Some(after[i])
                    &&& after[i].id == rewrites[i].id
                    &&& after[i].index == rewrites[i].index
                }
        }),
    decreases rewrites.len(),
{
    if rewrites.len() > 0 {
        lemma_replaced_keeps_the_rest(rewrites.drop_last(), revised, expected);
        if expected.contains(rewrites.last().index) {
            lemma_found_has_id(revised, rewrites.last().id);
        }
    }
}

/// A revision of some chapters keeps all chapters in their places, under their ids and indexes:
/// those that were not asked for are untouched, and those that were are the revised ones.
pub proof fn law_targeted_merge_keeps_the_rest(
    rewrites: Seq<ParsedChapterRewriteView>,
    revised: Seq<ParsedChapterRewriteView>,
    expected: Seq<i64>,
    i: int,
)
    requires
        merged(rewrites, revised, expected) is Ok,
        0 <= i < rewrites.len(),
    ensures
        ({
            let after = merged(rewrites, revised, expected)->Ok_0;
            &&& after.len() == rewrites.len()
            &&& after[i].id == rewrites[i].id
            &&& after[i].index == rewrites[i].index
            &&& !expected.contains(rewrites[i].index) ==> after[i] == rewrites[i]
            &&& expected.contains(rewrites[i].index) ==> rewrite_with_id(revised, rewrites[i].id)
                == Some(after[i])
        }),
{
    lemma_replaced_keeps_the_rest(rewrites, revised, expected);
}

proof fn lemma_targeted_members(shard: Seq<i64>, targets: Seq<i64>, i: int)
    requires
        0 <= i < targeted(shard, targets).len(),
    ensures
        shard.contains(targeted(shard, targets)[i]),
        targets.contains(targeted(shard, targets)[i]),
    decreases shard.len(),
{
    let rest = shard.drop_last();
    let before = targeted(rest, targets);
    if i < before.len() {
        lemma_targeted_members(rest, targets, i);
        let k = rest.index_of(before[i]);
        assert(shard[k] == before[i]);
    } else {
        assert(shard[shard.len() - 1] == shard.last());
    }
}

/// A revision of some chapters revises chapters of the shard only, and only such that an issue
/// names.
pub proof fn law_targets_lie_in_the_shard(
    shard: Seq<i64>,
    issues: Seq<ReviewIssueView>,
    i: int,
)
    requires
        revision_plan(shard, issues) matches RevisionPlanView::Targeted(list) && 0 <= i
            < list.len(),
    ensures
        revision_plan(shard, issues) matches RevisionPlanView::Targeted(list) && shard.contains(
            list[i],
        ) && all_targets(issues).contains(list[i]),
{
    lemma_targeted_members(shard, all_targets(issues), i);
}

} // verus!
