//! The reviews of a shard: how one review is asked for, what follows from its outcome, and how
//! chapters that were sent back are revised.
use vstd::prelude::*;
use crate::domain::{
    Chapter, ChapterView, Duplicate, NovelSettings, NovelSettingsView, ParsedChapterRewrite,
    ParsedChapterRewriteView, ReviewDecision, ReviewDecisionView, ReviewIssue, ReviewIssueView,
};
use crate::prompts::{
    build_review_decision_json_repair_prompt, decision_repair_prompt,
    review_decision_parse_error_message, unreadable_decision,
};
use crate::pronouns::{
    all_corrected, correct_unambiguous_mixed_group_pronouns, total_corrections,
};
use crate::repair::{
    indexes_of, merge_targeted_rewrites, merged, plan_review_revision, revision_plan, RevisionPlan,
    RevisionPlanView,
};
use crate::targeted::{
    build_targeted_revision_context, marks_of, markers_outcome, targeted_context,
    validate_targeted_rewrite_markers,
};
use crate::patterns::{marker_pattern, regex_captures};
use crate::text::{holds_index, lemma_views_push, views};

verus! {

// ---- one review -----------------------------------------------------------------------------
/// How far a review has come: the first answer is awaited, or a repair of an answer that could
/// not be read, with the reason.
pub enum ReviewStage {
    First,
    Repair(String),
}

/// What came of a call for a review: no answer, an answer that cannot be read, or a decision.
pub enum ReviewReply {
    Failed(String),
    Unreadable { error: String, output: String },
    Decided(ReviewDecision),
}

/// What follows: the review has ended, or a repair is asked for.
pub enum ReviewStep {
    Finished(Result<ReviewDecision, String>),
    Repair { prompt: String, stage: ReviewStage },
}

pub enum ReviewStepView {
    Decided(ReviewDecisionView),
    Failed(Seq<char>),
    Repair { prompt: Seq<char>, error: Seq<char> },
}

pub open spec fn stage_error(stage: ReviewStage) -> Seq<char> {
    match stage {
        ReviewStage::First => Seq::empty(),
        ReviewStage::Repair(e) => e@,
    }
}

impl View for ReviewStep {
    type V = ReviewStepView;

    open spec fn view(&self) -> ReviewStepView {
        match self {
            ReviewStep::Finished(Ok(d)) => ReviewStepView::Decided(d@),
            ReviewStep::Finished(Err(m)) => ReviewStepView::Failed(m@),
            ReviewStep::Repair { prompt, stage } => ReviewStepView::Repair {
                prompt: prompt@,
                error: stage_error(*stage),
            },
        }
    }
}

/// Asks for the review of a planned shard again in valid form.
pub open spec fn planned_repair_prompt(
    error: Seq<char>,
    prompt: Seq<char>,
    output: Seq<char>,
) -> Seq<char> {
    "审查 JSON 校验失败："@ + error
        + "\n只修复 JSON 结构和字段完整性，不重新审查、不改变 coverage 状态或证据。必须保留 coverage、issues、state_updates。\n\n原审查要求：\n"@
        + prompt + "\n\n待修复输出：\n"@ + output
}

/// What follows from the outcome of a call. An answer that cannot be read is repaired once.
pub open spec fn review_next(
    stage: ReviewStage,
    reply: ReviewReply,
    shard_label: Seq<char>,
    prompt: Seq<char>,
    planned: bool,
    settings: NovelSettingsView,
) -> ReviewStepView {
    match (stage, reply) {
        (_, ReviewReply::Decided(d)) => ReviewStepView::Decided(d@),
        (ReviewStage::First, ReviewReply::Failed(e)) => ReviewStepView::Failed(
            shard_label + "："@ + e@,
        ),
        (ReviewStage::First, ReviewReply::Unreadable { error, output }) => ReviewStepView::Repair {
            prompt: if planned {
                planned_repair_prompt(error@, prompt, output@)
            } else {
                decision_repair_prompt(output@, error@, settings)
            },
            error: error@,
        },
        (ReviewStage::Repair(first), ReviewReply::Failed(e)) => ReviewStepView::Failed(
            unreadable_decision(shard_label, first@ + "；格式修复重试调用失败："@ + e@),
        ),
        (ReviewStage::Repair(first), ReviewReply::Unreadable { error, output }) =>
            ReviewStepView::Failed(
            unreadable_decision(shard_label, first@ + "；格式修复重试后仍失败："@ + error@),
        ),
    }
}

pub fn review_step(
    stage: ReviewStage,
    reply: ReviewReply,
    shard_label: &str,
    prompt: &str,
    planned: bool,
    settings: &NovelSettings,
) -> (r: ReviewStep)
    ensures
        r@ == review_next(stage, reply, shard_label@, prompt@, planned, settings@),
        r matches ReviewStep::Repair { stage: next, .. } ==> next is Repair,
{
    match (stage, reply) {
        (_, ReviewReply::Decided(d)) => ReviewStep::Finished(Ok(d)),
        (ReviewStage::First, ReviewReply::Failed(e)) => {
            let mut m = shard_label.to_string();
            m.append("：");
            m.append(e.as_str());
            ReviewStep::Finished(Err(m))
        },
        (ReviewStage::First, ReviewReply::Unreadable { error, output }) => {
            let repair = if planned {
                let mut p = "审查 JSON 校验失败：".to_string();
                p.append(error.as_str());
                p.append(
                    "\n只修复 JSON 结构和字段完整性，不重新审查、不改变 coverage 状态或证据。必须保留 coverage、issues、state_updates。\n\n原审查要求：\n",
                );
                p.append(prompt);
                p.append("\n\n待修复输出：\n");
                p.append(output.as_str());
                p
            } else {
                build_review_decision_json_repair_prompt(output.as_str(), error.as_str(), settings)
            };
            ReviewStep::Repair { prompt: repair, stage: ReviewStage::Repair(error) }
        },
        (ReviewStage::Repair(first), ReviewReply::Failed(e)) => {
            let mut reason = first;
            reason.append("；格式修复重试调用失败：");
            reason.append(e.as_str());
            ReviewStep::Finished(
                Err(review_decision_parse_error_message(shard_label, reason.as_str())),
            )
        },
        (ReviewStage::Repair(first), ReviewReply::Unreadable { error, output }) => {
            let mut reason = first;
            reason.append("；格式修复重试后仍失败：");
            reason.append(error.as_str());
            ReviewStep::Finished(
                Err(review_decision_parse_error_message(shard_label, reason.as_str())),
            )
        },
    }
}

/// A review is over after two calls at the latest.
pub proof fn law_review_repairs_once(
    error: String,
    reply: ReviewReply,
    shard_label: Seq<char>,
    prompt: Seq<char>,
    planned: bool,
    settings: NovelSettingsView,
)
    ensures
        !(review_next(ReviewStage::Repair(error), reply, shard_label, prompt, planned, settings)
            is Repair),
{
}

// ---- three rounds ---------------------------------------------------------------------------
/// The rounds of review of a shard.
#[derive(Debug, Clone, Copy, PartialEq, Eq)]
pub enum Round {
    First,
    Second,
    Third,
}

/// A shard under review: the round, and the rewrites that are reviewed in it.
pub struct StrictReview {
    pub round: Round,
    pub rewrites: Vec<ParsedChapterRewrite>,
}

/// What follows from a decision.
pub enum StrictOutcome {
    /// The rewrites are taken.
    Accept,
    /// The rewrites go back with the issues of the decision.
    Revise(ReviewDecision),
    /// The rewrites are taken although issues are left, and a warning is written.
    AcceptWithWarning(ReviewDecision),
    /// The rewrites are not taken.
    Refuse { message: String, decision: ReviewDecision },
}

pub enum StrictOutcomeView {
    Accept,
    Revise(ReviewDecisionView),
    AcceptWithWarning(ReviewDecisionView),
    Refuse { message: Seq<char>, decision: ReviewDecisionView },
}

impl View for StrictOutcome {
    type V = StrictOutcomeView;

    open spec fn view(&self) -> StrictOutcomeView {
        match self {
            StrictOutcome::Accept => StrictOutcomeView::Accept,
            StrictOutcome::Revise(d) => StrictOutcomeView::Revise(d@),
            StrictOutcome::AcceptWithWarning(d) => StrictOutcomeView::AcceptWithWarning(d@),
            StrictOutcome::Refuse { message, decision } => StrictOutcomeView::Refuse {
                message: message@,
                decision: decision@,
            },
        }
    }
}

/// What marks an error as a refusal of the quality gate.
pub const QUALITY_GATE_PREFIX: &'static str = "__YURI_QUALITY_GATE__:";

pub open spec fn refusal(shard_label: Seq<char>) -> Seq<char> {
    QUALITY_GATE_PREFIX@ + shard_label + " 第三次覆盖审查仍未通过，草稿已保留但未保存为改写稿。"@
}

/// What follows from a decision in a round. The rewrites go back twice at the most; what has not
/// passed then is refused where there is a contract, else it is taken with a warning.
pub open spec fn strict_next(
    round: Round,
    decision: ReviewDecisionView,
    shard_label: Seq<char>,
    planned: bool,
) -> StrictOutcomeView {
    if decision.approved {
        StrictOutcomeView::Accept
    } else if !(round is Third) {
        StrictOutcomeView::Revise(decision)
    } else if planned {
        StrictOutcomeView::Refuse { message: refusal(shard_label), decision }
    } else {
        StrictOutcomeView::AcceptWithWarning(decision)
    }
}

/// The round behind a round that is not the last.
pub open spec fn round_behind(round: Round) -> Round {
    match round {
        Round::First => Round::Second,
        _ => Round::Third,
    }
}

impl StrictReview {
    /// The first round. The rewrites are put right before they are reviewed; the number says in how
    /// many places.
    pub fn start(shard: &[Chapter], rewrites: Vec<ParsedChapterRewrite>) -> (r: (
        StrictReview,
        usize,
    ))
        requires
            rewrites@.len() <= usize::MAX / 2,
        ensures
            r.0.round is First,
            views(r.0.rewrites@) == all_corrected(views(shard@), views(rewrites@)),
            r.1 == total_corrections(views(shard@), views(rewrites@)),
    {
        let mut rewrites = rewrites;
        let count = correct_unambiguous_mixed_group_pronouns(shard, &mut rewrites);
        (StrictReview { round: Round::First, rewrites }, count)
    }

    /// What follows from the decision of this round.
    pub fn decided(&self, decision: ReviewDecision, shard_label: &str, planned: bool) -> (r:
        StrictOutcome)
        ensures
            r@ == strict_next(self.round, decision@, shard_label@, planned),
    {
        if decision.approved {
            return StrictOutcome::Accept;
        }
        match self.round {
            Round::Third => {
                if planned {
                    let mut message = QUALITY_GATE_PREFIX.to_string();
                    message.append(shard_label);
                    message.append(" 第三次覆盖审查仍未通过，草稿已保留但未保存为改写稿。");
                    StrictOutcome::Refuse { message, decision }
                } else {
                    StrictOutcome::AcceptWithWarning(decision)
                }
            },
            _ => StrictOutcome::Revise(decision),
        }
    }

    /// The next round, with the rewrites as they were revised and put right.
    pub fn revised(&mut self, shard: &[Chapter], rewrites: Vec<ParsedChapterRewrite>) -> (r: usize)
        requires
            !(old(self).round is Third),
            rewrites@.len() <= usize::MAX / 2,
        ensures
            final(self).round == round_behind(old(self).round),
            views(final(self).rewrites@) == all_corrected(views(shard@), views(rewrites@)),
            r == total_corrections(views(shard@), views(rewrites@)),
    {
        let mut rewrites = rewrites;
        let count = correct_unambiguous_mixed_group_pronouns(shard, &mut rewrites);
        self.round = match self.round {
            Round::First => Round::Second,
            _ => Round::Third,
        };
        self.rewrites = rewrites;
        count
    }

    /// How a review is labelled in this round.
    pub fn label(&self, shard_label: &str) -> (r: String)
        ensures
            r@ == match self.round {
                Round::First => shard_label@,
                Round::Second => shard_label@ + " · 第二次审查"@,
                Round::Third => shard_label@ + " · 第三次审查"@,
            },
    {
        let mut out = shard_label.to_string();
        match self.round {
            Round::First => {},
            Round::Second => {
                out.append(" · 第二次审查");
            },
            Round::Third => {
                out.append(" · 第三次审查");
            },
        }
        out
    }

    /// The phase that a shard is in while it is reviewed in this round.
    pub fn phase(&self) -> (r: &'static str)
        ensures
            r@ == if self.round is Third {
                "final_review"@
            } else {
                "review"@
            },
    {
        match self.round {
            Round::Third => "final_review",
            _ => "review",
        }
    }
}

/// A shard with a contract is taken only where a review approved it.
pub proof fn law_planned_shard_needs_approval(
    round: Round,
    decision: ReviewDecisionView,
    shard_label: Seq<char>,
)
    ensures
        ({
            let next = strict_next(round, decision, shard_label, true);
            &&& next is Accept <==> decision.approved
            &&& !(next is AcceptWithWarning)
        }),
{
}

/// The rounds that the decisions of a shard lead through, up to the one that ends them.
pub open spec fn rounds_run(decisions: Seq<bool>, round: Round) -> nat
    decreases decisions.len(),
{
    if decisions.len() == 0 {
        0
    } else if decisions[0] || round is Third {
        1
    } else {
        1 + rounds_run(decisions.skip(1), round_behind(round))
    }
}

/// Whatever is decided, there are three rounds at the most.
pub proof fn law_three_rounds_at_most(decisions: Seq<bool>)
    ensures
        rounds_run(decisions, Round::First) <= 3,
{
    reveal_with_fuel(rounds_run, 4);
}

// ---- revising after a review ----------------------------------------------------------------
/// The revision of some chapters: which they are, their rewrites, the issues that name them, and
/// what is shown of the chapters beside them.
pub struct TargetedRevision {
    pub indexes: Vec<i64>,
    pub chapters: Vec<Chapter>,
    pub rewrites: Vec<ParsedChapterRewrite>,
    pub decision: ReviewDecision,
    pub context: String,
}

/// How a revision begins.
pub enum RevisionStart {
    Targeted(TargetedRevision),
    Full(String),
}

pub open spec fn chapter_in(list: Seq<i64>) -> spec_fn(ChapterView) -> bool {
    |c: ChapterView| list.contains(c.index)
}

pub open spec fn rewrite_in(list: Seq<i64>) -> spec_fn(ParsedChapterRewriteView) -> bool {
    |r: ParsedChapterRewriteView| list.contains(r.index)
}

/// Whether an issue names one of the chapters.
pub open spec fn names_one_of(issue: ReviewIssueView, list: Seq<i64>) -> bool {
    exists|i: int|
        0 <= i < issue.chapter_indexes.len() && list.contains(#[trigger] issue.chapter_indexes[i])
}

pub open spec fn issue_in(list: Seq<i64>) -> spec_fn(ReviewIssueView) -> bool {
    |issue: ReviewIssueView| names_one_of(issue, list)
}

fn chapters_in(shard: &[Chapter], list: &[i64]) -> (r: Vec<Chapter>)
    ensures
        views(r@) == views(shard@).filter(chapter_in(list@)),
{
    let ghost all = views(shard@);
    let ghost keep = chapter_in(list@);
    let mut out: Vec<Chapter> = Vec::new();
    let mut i: usize = 0;
    proof {
        reveal(Seq::filter);
        assert(views(out@) =~= all.take(0).filter(keep));
    }
    while i < shard.len()
        invariant
            i <= shard@.len(),
            all == views(shard@),
            keep == chapter_in(list@),
            views(out@) == all.take(i as int).filter(keep),
        decreases shard@.len() - i,
    {
        proof {
            reveal(Seq::filter);
            assert(all.take(i + 1).drop_last() =~= all.take(i as int));
            assert(all.take(i + 1).last() == shard@[i as int]@);
        }
        if holds_index(list, shard[i].index) {
            let ghost before = out@;
            out.push(shard[i].duplicate());
            proof {
                lemma_views_push(before, out@.last());
            }
        }
        i += 1;
    }
    proof {
        assert(all.take(i as int) =~= all);
    }
    out
}

fn rewrites_in(rewrites: &[ParsedChapterRewrite], list: &[i64]) -> (r: Vec<ParsedChapterRewrite>)
    ensures
        views(r@) == views(rewrites@).filter(rewrite_in(list@)),
{
    let ghost all = views(rewrites@);
    let ghost keep = rewrite_in(list@);
    let mut out: Vec<ParsedChapterRewrite> = Vec::new();
    let mut i: usize = 0;
    proof {
        reveal(Seq::filter);
        assert(views(out@) =~= all.take(0).filter(keep));
    }
    while i < rewrites.len()
        invariant
            i <= rewrites@.len(),
            all == views(rewrites@),
            keep == rewrite_in(list@),
            views(out@) == all.take(i as int).filter(keep),
        decreases rewrites@.len() - i,
    {
        proof {
            reveal(Seq::filter);
            assert(all.take(i + 1).drop_last() =~= all.take(i as int));
            assert(all.take(i + 1).last() == rewrites@[i as int]@);
        }
        if holds_index(list, rewrites[i].index) {
            let ghost before = out@;
            out.push(rewrites[i].duplicate());
            proof {
                lemma_views_push(before, out@.last());
            }
        }
        i += 1;
    }
    proof {
        assert(all.take(i as int) =~= all);
    }
    out
}

fn does_name_one_of(issue: &ReviewIssue, list: &[i64]) -> (r: bool)
    ensures
        r == names_one_of(issue@, list@),
{
    let mut i: usize = 0;
    while i < issue.chapter_indexes.len()
        invariant
            i <= issue.chapter_indexes@.len(),
            forall|k: int| 0 <= k < i ==> !list@.contains(#[trigger] issue@.chapter_indexes[k]),
        decreases issue.chapter_indexes@.len() - i,
    {
        if holds_index(list, issue.chapter_indexes[i]) {
            proof {
                assert(list@.contains(issue@.chapter_indexes[i as int]));
            }
            return true;
        }
        i += 1;
    }
    false
}

fn issues_in(issues: &[ReviewIssue], list: &[i64]) -> (r: Vec<ReviewIssue>)
    ensures
        views(r@) == views(issues@).filter(issue_in(list@)),
{
    let ghost all = views(issues@);
    let ghost keep = issue_in(list@);
    let mut out: Vec<ReviewIssue> = Vec::new();
    let mut i: usize = 0;
    proof {
        reveal(Seq::filter);
        assert(views(out@) =~= all.take(0).filter(keep));
    }
    while i < issues.len()
        invariant
            i <= issues@.len(),
            all == views(issues@),
            keep == issue_in(list@),
            views(out@) == all.take(i as int).filter(keep),
        decreases issues@.len() - i,
    {
        proof {
            reveal(Seq::filter);
            assert(all.take(i + 1).drop_last() =~= all.take(i as int));
            assert(all.take(i + 1).last() == issues@[i as int]@);
        }
        if does_name_one_of(&issues[i], list) {
            let ghost before = out@;
            out.push(issues[i].duplicate());
            proof {
                lemma_views_push(before, out@.last());
            }
        }
        i += 1;
    }
    proof {
        assert(all.take(i as int) =~= all);
    }
    out
}

/// How a shard that was sent back is revised: as a whole, for a reason, or some of its chapters.
pub fn start_revision(
    shard: &[Chapter],
    rewrites: &[ParsedChapterRewrite],
    decision: &ReviewDecision,
) -> (r: RevisionStart)
    ensures
        match (revision_plan(indexes_of(views(shard@)), decision@.issues), r) {
            (RevisionPlanView::Full(reason), RevisionStart::Full(s)) => s@ == reason,
            (RevisionPlanView::Targeted(list), RevisionStart::Targeted(t)) => {
                &&& t.indexes@ == list
                &&& views(t.chapters@) == views(shard@).filter(chapter_in(list))
                &&& views(t.rewrites@) == views(rewrites@).filter(rewrite_in(list))
                &&& t.decision@ == (ReviewDecisionView {
                    approved: false,
                    issues: decision@.issues.filter(issue_in(list)),
                })
                &&& t.context@ == targeted_context(views(shard@), views(rewrites@), list)
            },
            _ => false,
        },
{
    match plan_review_revision(shard, decision) {
        RevisionPlan::Full(reason) => RevisionStart::Full(reason),
        RevisionPlan::Targeted(indexes) => {
            let chapters = chapters_in(shard, indexes.as_slice());
            let target_rewrites = rewrites_in(rewrites, indexes.as_slice());
            let issues = issues_in(decision.issues.as_slice(), indexes.as_slice());
            let context = build_targeted_revision_context(shard, rewrites, indexes.as_slice());
            RevisionStart::Targeted(
                TargetedRevision {
                    indexes,
                    chapters,
                    rewrites: target_rewrites,
                    decision: ReviewDecision { approved: false, issues },
                    context,
                },
            )
        },
    }
}

/// What a revision of some chapters comes to: the first of its steps that fails gives the reason,
/// and the whole shard is revised instead.
pub open spec fn targeted_result(
    rewrites: Seq<ParsedChapterRewriteView>,
    targets: Seq<ChapterView>,
    indexes: Seq<i64>,
    body: Result<Seq<char>, Seq<char>>,
    parsed: Result<Seq<ParsedChapterRewriteView>, Seq<char>>,
) -> Result<Seq<ParsedChapterRewriteView>, Seq<char>> {
    match body {
        Err(e) => Err(e),
        Ok(text) => match markers_outcome(
            regex_captures(marker_pattern(), text),
            marks_of(targets),
        ) {
            Err(e) => Err(e),
            Ok(_) => match parsed {
                Err(e) => Err(e),
                Ok(list) => merged(rewrites, list, indexes),
            },
        },
    }
}

/// An outcome by the characters of its text or message.
pub open spec fn text_outcome(r: Result<String, String>) -> Result<Seq<char>, Seq<char>> {
    match r {
        Ok(s) => Ok(s@),
        Err(m) => Err(m@),
    }
}

/// An outcome by the views of its rewrites or its message.
pub open spec fn rewrites_outcome(r: Result<Vec<ParsedChapterRewrite>, String>) -> Result<
    Seq<ParsedChapterRewriteView>,
    Seq<char>,
> {
    match r {
        Ok(v) => Ok(views(v@)),
        Err(m) => Err(m@),
    }
}

/// Takes the outcome of a revision of some chapters: the text that came back, or why there is
/// none, and the chapters that were read out of it.
pub fn settle_targeted_revision(
    rewrites: &[ParsedChapterRewrite],
    revision: &TargetedRevision,
    body: Result<String, String>,
    parsed: Result<Vec<ParsedChapterRewrite>, String>,
) -> (r: Result<Vec<ParsedChapterRewrite>, String>)
    ensures
        rewrites_outcome(r) == targeted_result(
            views(rewrites@),
            views(revision.chapters@),
            revision.indexes@,
            text_outcome(body),
            rewrites_outcome(parsed),
        ),
{
    let text = match body {
        Ok(text) => text,
        Err(m) => {
            return Err(m);
        },
    };
    if let Err(m) = validate_targeted_rewrite_markers(text.as_str(), revision.chapters.as_slice()) {
        return Err(m);
    }
    match parsed {
        Ok(list) => merge_targeted_rewrites(rewrites, list, revision.indexes.as_slice()),
        Err(m) => Err(m),
    }
}

} // verus!
