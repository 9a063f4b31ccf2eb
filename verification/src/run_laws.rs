//! What a run is for: no answer is taken that was not read, no chapter is lost on the way, and what
//! is shown of a run is what happened in it.
use vstd::prelude::*;
use crate::analysis_call::{
    analysis_next, first_fault, part_halves, AnalysisReply, AnalysisRunView,
    ParsedChapterAnalysisView,
};
use crate::batches::{
    batch_of, batch_plan, batches_from, chapter_bodies, chapter_body, chunk_end, three_digits,
};
use crate::coverage::obligation_states;
use crate::domain::{
    ChapterView, NovelSettingsView, ParsedChapterRewriteView, ReviewDecisionView, ReviewIssueView,
    RewritePlanView, RewriteStateUpdateView, StagedChapterOutput,
};
use crate::excerpt::head;
use crate::pipeline::{contract_states, joined, ShardOutcomeView};
use crate::progress::{current_place, phase_name, progress_message, ProgressView};
use crate::prompts::{decision_repair_prompt, REPAIR_RULES};
use crate::repair::{merged, revision_plan, RevisionPlanView};
use crate::repair_laws::law_revised_chapters_are_those_named;
use crate::review_rounds::{
    issue_in, names_one_of, planned_repair_prompt, review_next, strict_next, targeted_result,
    ReviewReply, ReviewStage, ReviewStepView, Round, StrictOutcomeView,
};
use crate::settings::{is_complete, worst_status, CheckView};
use crate::shard_call::{
    call_next, format_repair_prompt, halves, divisible, retry_context, CallNextView, CallReply,
    CallStage, PieceView, WorkKind,
};
use crate::shard_context::{first_half, staged_for};
use crate::staging::{all_rewritten, all_staged, analysis_of, is_ready, rewritten_at};
use crate::text::{blank, decimal, holds, trim, views};
use crate::text_laws::{
    law_holding_is_transitive, law_joined_text_holds_its_parts, law_trimmed_text_is_the_middle,
    law_trimming_keeps_the_rest, lemma_holds_end, lemma_holds_more, lemma_holds_start,
    lemma_sum_contains,
};
use crate::finalize::{read_issues, PlanEvidence};
use crate::json::jsonish;
use crate::estimation::calls_per_shard;

verus! {

// ---- the call for a shard -------------------------------------------------------------------
proof fn lemma_format_repair(kind: WorkKind, error: Seq<char>, prompt: Seq<char>)
    ensures
        holds(format_repair_prompt(kind, error, prompt), error),
        holds(format_repair_prompt(kind, error, prompt), prompt),
{
    let (a, b) = match kind {
        WorkKind::Rewrite => ("上次输出格式校验失败："@, "\n请按原要求重新输出完整分片。不要减少或改变契约义务。\n\n"@),
        WorkKind::Revision => (
            "上次修复输出的短自检包装或 marker 格式无效："@,
            "\n请按原修复要求重新输出；必须且只能包含唯一 <rewrite_check> 和唯一 <output>。\n\n"@,
        ),
    };
    assert(format_repair_prompt(kind, error, prompt) == a + error + b + prompt);
    lemma_holds_end(a, error);
    lemma_holds_more(a + error, b, error);
    lemma_holds_more(a + error + b, prompt, error);
    lemma_holds_end(a + error + b, prompt);
}

/// Only chapters that were read out of an answer end a call well, and they are handed on as they
/// were read.
pub proof fn law_only_read_chapters_are_taken(
    kind: WorkKind,
    fixed_form: bool,
    stage: CallStage,
    reply: CallReply,
    prompt: Seq<char>,
    shard_context: Seq<char>,
)
    ensures
        ({
            let next = call_next(kind, fixed_form, stage, reply, prompt, shard_context);
            &&& next matches CallNextView::Finished(Ok(list)) ==> (reply matches CallReply::Parsed(
                v,
            ) && list == views(v@))
            &&& reply matches CallReply::Parsed(v) ==> next == CallNextView::Finished(Ok(views(v@)))
        }),
{
}

/// The first answer that cannot be read is asked for again: where the form is fixed with the error
/// and the whole request, else with the context of the shard.
pub proof fn law_unreadable_answer_is_asked_for_again(
    kind: WorkKind,
    fixed_form: bool,
    error: String,
    output: String,
    prompt: Seq<char>,
    shard_context: Seq<char>,
)
    ensures
        ({
            let next = call_next(
                kind,
                fixed_form,
                CallStage::First,
                CallReply::Unreadable { error, output },
                prompt,
                shard_context,
            );
            &&& fixed_form ==> (next matches CallNextView::FormatRepair { prompt: asked } && holds(
                asked,
                error@,
            ) && holds(asked, prompt))
            &&& !fixed_form ==> (next matches CallNextView::Retry { context, output: shown }
                && shown == output@ && (trim(shard_context).len() > 0 ==> holds(
                context,
                trim(shard_context),
            )))
        }),
{
    lemma_format_repair(kind, error@, prompt);
    let end = match kind {
        WorkKind::Rewrite =>
            "\n\n请完全重新输出当前分片，只输出当前分片要求的章节。每章必须包含原样章节开始标记、改写后标题、非空正文和原样章节结束标记。正文不能留空，不能输出当前分片外章节。"@,
        WorkKind::Revision => "\n\n必须重新输出当前分片的全部章节，并完整保留每章开始和结束标记。"@,
    };
    let kept = trim(shard_context);
    assert(retry_context(kind, shard_context) == trim(kept + end));
    if kept.len() > 0 {
        let ends = law_trimmed_text_is_the_middle(shard_context);
        lemma_holds_start(kept, end);
        law_trimming_keeps_the_rest(kept + end, kept);
    }
}

/// In a revision the halves of a part take the rewrites of their own chapters with them.
pub proof fn law_halves_take_their_rewrites(piece: PieceView, word: Seq<char>)
    requires
        divisible(WorkKind::Revision, piece),
    ensures
        ({
            let parts = halves(WorkKind::Revision, piece, word);
            &&& parts.len() == 2
            &&& parts[0].rewrites + parts[1].rewrites == piece.rewrites
            &&& parts[0].rewrites.len() == parts[0].chapters.len()
            &&& parts[1].rewrites.len() == parts[1].chapters.len()
        }),
{
    let mid = first_half(piece.chapters.len() as int);
    assert(piece.rewrites.take(mid) + piece.rewrites.skip(mid) =~= piece.rewrites);
}

// ---- analysis -------------------------------------------------------------------------------
/// One fault among the chapters of an answer is enough to refuse it, and the first one is told.
pub proof fn law_first_fault_is_told(faults: Seq<Option<Seq<char>>>, i: int)
    requires
        0 <= i < faults.len(),
        faults[i] is Some,
        forall|j: int| 0 <= j < i ==> #[trigger] faults[j] is None,
    ensures
        first_fault(faults) == faults[i],
    decreases faults.len(),
{
    let rest = faults.drop_last();
    if i < rest.len() {
        assert forall|j: int| 0 <= j < i implies #[trigger] rest[j] is None by {
            assert(rest[j] == faults[j]);
        }
        law_first_fault_is_told(rest, i);
    } else {
        assert forall|j: int| 0 <= j < rest.len() implies #[trigger] rest[j] is None by {
            assert(rest[j] == faults[j]);
        }
        law_no_fault_is_made_up(rest);
    }
}

/// Without a fault none is told.
pub proof fn law_no_fault_is_made_up(faults: Seq<Option<Seq<char>>>)
    requires
        forall|j: int| 0 <= j < faults.len() ==> #[trigger] faults[j] is None,
    ensures
        first_fault(faults) is None,
    decreases faults.len(),
{
    if faults.len() > 0 {
        let rest = faults.drop_last();
        assert forall|j: int| 0 <= j < rest.len() implies #[trigger] rest[j] is None by {
            assert(rest[j] == faults[j]);
        }
        law_no_fault_is_made_up(rest);
        assert(faults[faults.len() - 1] is None);
    }
}

/// A part that was cut off is divided in two: both halves have chapters, together they have those
/// of the part, and they come before the parts that were waiting. Nothing that was read is lost.
pub proof fn law_cut_off_part_is_divided(run: AnalysisRunView, error: String, label: String)
    requires
        run.pending.len() > 0,
        holds(error@, "模型输出因达到长度上限被截断"@),
        run.pending[0].chapters.len() > 1,
    ensures
        analysis_next(run, AnalysisReply::Unreadable { error, label }) matches Ok(next) && {
            &&& next.pending.len() == run.pending.len() + 1
            &&& next.pending[0].chapters + next.pending[1].chapters == run.pending[0].chapters
            &&& next.pending[0].chapters.len() > 0
            &&& next.pending[1].chapters.len() > 0
            &&& next.pending.skip(2) == run.pending.skip(1)
            &&& next.merged == run.merged
            &&& !next.repairing
        },
{
    let part = run.pending[0];
    let mid = first_half(part.chapters.len() as int);
    assert(part.chapters.take(mid) + part.chapters.skip(mid) =~= part.chapters);
    let parts = part_halves(part, label@);
    assert((parts + run.pending.skip(1)).skip(2) =~= run.pending.skip(1));
}

/// A single chapter that was cut off ends the analysis, and the message says which it was.
pub proof fn law_cut_off_chapter_is_told(run: AnalysisRunView, error: String, label: String)
    requires
        run.pending.len() > 0,
        holds(error@, "模型输出因达到长度上限被截断"@),
        run.pending[0].chapters.len() <= 1,
    ensures
        analysis_next(run, AnalysisReply::Unreadable { error, label }) matches Err(m) && holds(
            m,
            label@,
        ),
{
    let a = "分析输出在 64K 上限下仍被截断，且当前已是单章分片（"@;
    lemma_holds_end(a, label@);
    lemma_holds_more(a + label@, "）。请缩短该章原文、关闭思考或更换输出上限更高的模型。"@, label@);
}

/// An answer that cannot be read for another reason is repaired once: the second one ends the
/// analysis. The parts and what was read stay as they are.
pub proof fn law_unreadable_analysis_is_repaired_once(
    run: AnalysisRunView,
    error: String,
    label: String,
)
    requires
        run.pending.len() > 0,
        !holds(error@, "模型输出因达到长度上限被截断"@),
    ensures
        run.repairing ==> analysis_next(run, AnalysisReply::Unreadable { error, label }) is Err,
        !run.repairing ==> (analysis_next(run, AnalysisReply::Unreadable { error, label })
            matches Ok(next) && next.repairing && next.pending == run.pending && next.merged
            == run.merged),
{
}

/// What was read is kept, behind what was read before, and its part is done; a call that failed
/// ends the analysis.
pub proof fn law_read_analyses_are_kept(run: AnalysisRunView, reply: AnalysisReply)
    requires
        run.pending.len() > 0,
    ensures
        reply matches AnalysisReply::Parsed(list) ==> (analysis_next(run, reply) matches Ok(next)
            && next.merged == run.merged + views(list@) && next.pending == run.pending.skip(1)
            && !next.repairing),
        reply is Failed ==> analysis_next(run, reply) is Err,
{
}

/// The analysis of a chapter is the last one with its id.
pub proof fn law_analysis_of_a_chapter(analyses: Seq<ParsedChapterAnalysisView>, i: int)
    requires
        0 <= i < analyses.len(),
        forall|j: int| i < j < analyses.len() ==> (#[trigger] analyses[j]).id != analyses[i].id,
    ensures
        analysis_of(analyses, analyses[i].id) == Some(analyses[i].json),
    decreases analyses.len(),
{
    if i < analyses.len() - 1 {
        let rest = analyses.drop_last();
        assert(analyses[analyses.len() - 1].id != analyses[i].id);
        assert forall|j: int| i < j < rest.len() implies (#[trigger] rest[j]).id != rest[i].id by {
            assert(rest[j] == analyses[j]);
        }
        law_analysis_of_a_chapter(rest, i);
    }
}

/// A chapter is rewritten only if it has a text and its analysis is complete.
pub proof fn law_ready_chapter(c: ChapterView)
    ensures
        is_ready(c) <==> !blank(c.original_text) && c.analysis_status == "completed"@,
{
}

// ---- batches --------------------------------------------------------------------------------
/// The file of a batch holds the title and the text of each of its chapters; the batch begins with
/// the first and ends with the last, and its name has its number.
pub proof fn law_batch_holds_its_chapters(
    chunk: Seq<ChapterView>,
    number: int,
    detected: bool,
    i: int,
)
    requires
        0 <= i < chunk.len(),
    ensures
        ({
            let batch = batch_of(chunk, number, detected);
            &&& holds(batch.body, chunk[i].title)
            &&& holds(batch.body, chunk[i].original_text)
            &&& batch.start_chapter == chunk[0].index
            &&& batch.end_chapter == chunk.last().index
            &&& holds(batch.file_name, decimal(number))
            &&& detected ==> holds(batch.label, decimal(chunk[0].index as int))
            &&& detected ==> holds(batch.label, decimal(chunk.last().index as int))
            &&& !detected ==> holds(batch.label, decimal(number))
        }),
{
    let batch = batch_of(chunk, number, detected);
    let bodies = chapter_bodies(chunk);
    law_joined_text_holds_its_parts(bodies, "\n\n"@, i);
    let c = chunk[i];
    let body = chapter_body(c);
    lemma_holds_start(c.title, "\n\n"@);
    lemma_holds_more(c.title + "\n\n"@, c.original_text, c.title);
    lemma_holds_end(c.title + "\n\n"@, c.original_text);
    law_holding_is_transitive(batch.body, body, c.title);
    law_holding_is_transitive(batch.body, body, c.original_text);
    let n = decimal(number);
    lemma_holds_end("00"@, n);
    lemma_holds_end("0"@, n);
    lemma_holds_start(n, Seq::empty());
    assert(n + Seq::empty() =~= n);
    assert(holds(three_digits(number), n));
    lemma_holds_more(three_digits(number), "batch-"@, n);
    lemma_holds_more("batch-"@ + three_digits(number), ".txt"@, n);
    let first = decimal(chunk[0].index as int);
    let last = decimal(chunk.last().index as int);
    lemma_holds_start(first, "-"@);
    lemma_holds_more(first + "-"@, last, first);
    lemma_holds_more(first + "-"@ + last, "章"@, first);
    lemma_holds_end(first + "-"@, last);
    lemma_holds_more(first + "-"@ + last, "章"@, last);
    lemma_holds_end("第"@, n);
    lemma_holds_more("第"@ + n, "批（约10万字）"@, n);
}

/// The batches of a novel are numbered from one. Where no chapters were found each part is a batch
/// of its own.
pub proof fn law_batches_are_numbered(
    chapters: Seq<ChapterView>,
    detected: bool,
    size: int,
    k: int,
)
    requires
        detected ==> size > 0,
        0 <= k < batch_plan(chapters, detected, size).len(),
    ensures
        batch_plan(chapters, detected, size)[k].batch_index == (k + 1) as usize,
        !detected ==> batch_plan(chapters, detected, size).len() == chapters.len(),
        !detected ==> batch_plan(chapters, detected, size)[k].start_chapter == chapters[k].index,
        !detected ==> batch_plan(chapters, detected, size)[k].end_chapter == chapters[k].index,
{
    lemma_numbers(
        chapters,
        0,
        if detected {
            size
        } else {
            1
        },
        1,
        detected,
        k,
    );
}

proof fn lemma_numbers(
    chapters: Seq<ChapterView>,
    start: int,
    size: int,
    number: int,
    detected: bool,
    k: int,
)
    requires
        size > 0,
        0 <= start,
        0 <= k < batches_from(chapters, start, size, number, detected).len(),
    ensures
        batches_from(chapters, start, size, number, detected)[k].batch_index == (number
            + k) as usize,
        size == 1 ==> batches_from(chapters, start, size, number, detected).len()
            == chapters.len() - start,
        size == 1 ==> batches_from(chapters, start, size, number, detected)[k].start_chapter
            == chapters[start + k].index,
        size == 1 ==> batches_from(chapters, start, size, number, detected)[k].end_chapter
            == chapters[start + k].index,
    decreases chapters.len() - start,
{
    let end = chunk_end(chapters.len() as int, start, size);
    let rest = batches_from(chapters, end, size, number + 1, detected);
    if rest.len() > 0 {
        lemma_numbers(
            chapters,
            end,
            size,
            number + 1,
            detected,
            if k > 0 {
                k - 1
            } else {
                0
            },
        );
    }
}

// ---- settings and checks --------------------------------------------------------------------
/// The settings are complete exactly if the protagonist's name, the two measures and the mode are
/// set.
pub proof fn law_settings_that_have_to_be_set(settings: NovelSettingsView)
    ensures
        is_complete(settings) <==> !(blank(settings.protagonist_name) || blank(settings.bust)
            || blank(settings.body_type) || blank(settings.rewrite_mode)),
{
}

/// One failed check fails the whole; without one, a warning is a warning; all else is well.
pub proof fn law_worst_check_decides(checks: Seq<CheckView>, i: int)
    ensures
        0 <= i < checks.len() && checks[i].status == "failed"@ ==> worst_status(checks)
            == "failed"@,
        0 <= i < checks.len() && checks[i].status == "warning"@ && (forall|j: int|
            0 <= j < checks.len() ==> (#[trigger] checks[j]).status != "failed"@) ==> worst_status(
            checks,
        ) == "warning"@,
        (forall|j: int|
            0 <= j < checks.len() ==> (#[trigger] checks[j]).status != "failed"@
                && checks[j].status != "warning"@) ==> worst_status(checks) == "ok"@,
{
}

// ---- rounds of review -----------------------------------------------------------------------
/// What was not approved is never simply accepted, and what was approved always is, whatever the
/// round and with or without a contract.
pub proof fn law_approval_decides(
    round: Round,
    decision: ReviewDecisionView,
    shard_label: Seq<char>,
    planned: bool,
)
    ensures
        strict_next(round, decision, shard_label, planned) is Accept <==> decision.approved,
        strict_next(round, decision, shard_label, planned) is Revise <==> !decision.approved
            && !(round is Third),
        strict_next(round, decision, shard_label, planned) is Refuse <==> !decision.approved
            && round is Third && planned,
        strict_next(round, decision, shard_label, planned) matches StrictOutcomeView::Revise(d)
            ==> d == decision,
{
}

/// Only a decision that was read ends a review well. An answer that cannot be read is repaired
/// first, and the request for that holds the error and what was answered.
pub proof fn law_only_read_decisions_count(
    stage: ReviewStage,
    reply: ReviewReply,
    shard_label: Seq<char>,
    prompt: Seq<char>,
    planned: bool,
    settings: NovelSettingsView,
)
    ensures
        ({
            let next = review_next(stage, reply, shard_label, prompt, planned, settings);
            &&& next matches ReviewStepView::Decided(d) ==> (reply matches ReviewReply::Decided(x)
                && x@ == d)
            &&& reply matches ReviewReply::Unreadable { error, output } ==> stage is First ==> (
            next matches ReviewStepView::Repair { prompt: asked, error: kept } && kept == error@
                && holds(asked, error@) && (planned ==> holds(asked, output@) && holds(
                asked,
                prompt,
            )) && (!planned ==> holds(asked, head(output@, 12_000))))
        }),
{
    if let ReviewReply::Unreadable { error, output } = reply {
        lemma_repairs_hold(error@, prompt, output@, settings);
    }
}

proof fn lemma_repairs_hold(
    error: Seq<char>,
    prompt: Seq<char>,
    output: Seq<char>,
    settings: NovelSettingsView,
)
    ensures
        holds(planned_repair_prompt(error, prompt, output), error),
        holds(planned_repair_prompt(error, prompt, output), prompt),
        holds(planned_repair_prompt(error, prompt, output), output),
        holds(decision_repair_prompt(output, error, settings), error),
        holds(decision_repair_prompt(output, error, settings), head(output, 12_000)),
        holds(decision_repair_prompt(output, error, settings), trim(settings.protagonist_name)),
        holds(
            decision_repair_prompt(output, error, settings),
            trim(settings.rewritten_protagonist_name),
        ),
{
    let a = "审查 JSON 校验失败："@;
    let b =
        "\n只修复 JSON 结构和字段完整性，不重新审查、不改变 coverage 状态或证据。必须保留 coverage、issues、state_updates。\n\n原审查要求：\n"@;
    let c = "\n\n待修复输出：\n"@;
    lemma_holds_end(a, error);
    lemma_holds_more(a + error, b, error);
    lemma_holds_more(a + error + b, prompt, error);
    lemma_holds_more(a + error + b + prompt, c, error);
    lemma_holds_more(a + error + b + prompt + c, output, error);
    lemma_holds_end(a + error + b, prompt);
    lemma_holds_more(a + error + b + prompt, c, prompt);
    lemma_holds_more(a + error + b + prompt + c, output, prompt);
    lemma_holds_end(a + error + b + prompt + c, output);
    let s0 = "上一次审查决策输出不是合法 JSON，解析错误："@ + error;
    let s1 = s0 + REPAIR_RULES@;
    let s2 = s1 + trim(settings.protagonist_name);
    let s3 = s2 + "\n- 主角改写名："@;
    let s4 = s3 + trim(settings.rewritten_protagonist_name);
    let s5 = s4 + "\n\n只输出修复后的 JSON，不要 Markdown，不要解释。\n\n待修复原输出：\n"@;
    let x = trim(settings.protagonist_name);
    let y = trim(settings.rewritten_protagonist_name);
    let z = head(output, 12_000);
    lemma_holds_end("上一次审查决策输出不是合法 JSON，解析错误："@, error);
    lemma_holds_more(s0, REPAIR_RULES@, error);
    lemma_holds_more(s1, x, error);
    lemma_holds_more(s2, "\n- 主角改写名："@, error);
    lemma_holds_more(s3, y, error);
    lemma_holds_more(
        s4,
        "\n\n只输出修复后的 JSON，不要 Markdown，不要解释。\n\n待修复原输出：\n"@,
        error,
    );
    lemma_holds_more(s5, z, error);
    lemma_holds_end(s1, x);
    lemma_holds_more(s2, "\n- 主角改写名："@, x);
    lemma_holds_more(s3, y, x);
    lemma_holds_more(
        s4,
        "\n\n只输出修复后的 JSON，不要 Markdown，不要解释。\n\n待修复原输出：\n"@,
        x,
    );
    lemma_holds_more(s5, z, x);
    lemma_holds_end(s3, y);
    lemma_holds_more(
        s4,
        "\n\n只输出修复后的 JSON，不要 Markdown，不要解释。\n\n待修复原输出：\n"@,
        y,
    );
    lemma_holds_more(s5, z, y);
    lemma_holds_end(s5, z);
}

/// A revision of some chapters is told every issue: none is left out.
pub proof fn law_revision_is_told_every_issue(
    shard: Seq<i64>,
    issues: Seq<ReviewIssueView>,
    list: Seq<i64>,
)
    requires
        revision_plan(shard, issues) == RevisionPlanView::Targeted(list),
    ensures
        issues.filter(issue_in(list)) == issues,
{
    law_revised_chapters_are_those_named(shard, issues, list);
    assert forall|i: int| 0 <= i < issues.len() implies issue_in(list)(#[trigger] issues[i]) by {
        let x = issues[i].chapter_indexes[0];
        assert(issues[i].chapter_indexes.contains(x));
        assert(list.contains(x));
        assert(names_one_of(issues[i], list));
    }
    lemma_filter_keeps_all(issues, issue_in(list));
}

proof fn lemma_filter_keeps_all(
    s: Seq<ReviewIssueView>,
    keep: spec_fn(ReviewIssueView) -> bool,
)
    requires
        forall|i: int| 0 <= i < s.len() ==> keep(#[trigger] s[i]),
    ensures
        s.filter(keep) == s,
    decreases s.len(),
{
    reveal(Seq::filter);
    if s.len() > 0 {
        let rest = s.drop_last();
        assert forall|i: int| 0 <= i < rest.len() implies keep(#[trigger] rest[i]) by {
            assert(rest[i] == s[i]);
        }
        lemma_filter_keeps_all(rest, keep);
        assert(keep(s[s.len() - 1]));
        assert(rest.push(s.last()) =~= s);
    } else {
        assert(s.filter(keep) =~= s);
    }
}

/// A revision of some chapters counts only where every step of it went well: the answer came, its
/// markers are right, it was read, and what was read fits.
pub proof fn law_revision_needs_every_step(
    rewrites: Seq<ParsedChapterRewriteView>,
    targets: Seq<ChapterView>,
    indexes: Seq<i64>,
    body: Result<Seq<char>, Seq<char>>,
    parsed: Result<Seq<ParsedChapterRewriteView>, Seq<char>>,
)
    requires
        targeted_result(rewrites, targets, indexes, body, parsed) is Ok,
    ensures
        body is Ok,
        parsed is Ok,
        merged(rewrites, parsed->Ok_0, indexes) is Ok,
        targeted_result(rewrites, targets, indexes, body, parsed) == merged(
            rewrites,
            parsed->Ok_0,
            indexes,
        ),
        crate::targeted::markers_outcome(
            crate::patterns::regex_captures(crate::patterns::marker_pattern(), body->Ok_0),
            crate::targeted::marks_of(targets),
        ) is Ok,
{
}

// ---- the batch as a whole -------------------------------------------------------------------
/// All states of a contract are carried on: its own, and those of each obligation.
pub proof fn law_contract_has_all_its_states(plan: RewritePlanView, y: RewriteStateUpdateView)
    ensures
        plan.planned_state_updates.contains(y) || obligation_states(plan.obligations).contains(y)
            <==> contract_states(plan).contains(y),
{
    lemma_sum_contains(plan.planned_state_updates, obligation_states(plan.obligations), y);
}

/// The outcomes of the shards stand one behind the other, each whole.
pub proof fn law_outcomes_are_joined<V>(
    outcomes: Seq<ShardOutcomeView<V>>,
    number: usize,
    list: Seq<V>,
)
    ensures
        joined(Seq::<ShardOutcomeView<V>>::empty()).len() == 0,
        joined(outcomes.push((number, list))) == joined(outcomes) + list,
{
    assert(outcomes.push((number, list)).drop_last() =~= outcomes);
}

// ---- what is shown --------------------------------------------------------------------------
/// Each phase has its own name.
pub proof fn law_names_of_the_phases()
    ensures
        phase_name("analysis"@) == "分析"@,
        phase_name("planning"@) == "规划"@,
        phase_name("rewrite"@) == "改写"@,
        phase_name("review"@) == "审查"@,
        phase_name("revision"@) == "修复"@,
        phase_name("final_review"@) == "终审"@,
        phase_name("export"@) == "导出"@,
{
    reveal_strlit("analysis");
    reveal_strlit("planning");
    reveal_strlit("rewrite");
    reveal_strlit("review");
    reveal_strlit("revision");
    reveal_strlit("final_review");
    reveal_strlit("export");
    assert("analysis"@.len() == 8 && "planning"@.len() == 8 && "rewrite"@.len() == 7
        && "review"@.len() == 6 && "revision"@.len() == 8 && "final_review"@.len() == 12
        && "export"@.len() == 6);
    assert("analysis"@[0] == 'a' && "planning"@[0] == 'p' && "revision"@[0] == 'r' && "review"@[0]
        == 'r' && "export"@[0] == 'e');
}

/// The message of a run tells the batch, the phase, and, where there are shards, how many chapters
/// and shards are done of how many.
pub proof fn law_message_tells_the_progress(state: ProgressView, job_total: i64)
    ensures
        ({
            let text = progress_message(state, job_total);
            &&& state.batch_index matches Some(n) ==> holds(text, decimal(n as int))
            &&& state.batch_total matches Some(n) ==> holds(text, decimal(n as int))
            &&& state.phase matches Some(p) ==> holds(text, phase_name(p))
            &&& state.shard_total > 0 ==> holds(
                text,
                " · 章节已完成 "@ + decimal(state.completed_chapter_ids.len() as int) + "/"@ + decimal(
                    state.chapter_total as int,
                ),
            )
            &&& state.shard_total > 0 ==> holds(
                text,
                " · 分片已完成 "@ + decimal(state.completed_shards.len() as int) + "/"@ + decimal(
                    state.shard_total as int,
                ),
            )
        }),
{
    let text = progress_message(state, job_total);
    let phase = match state.phase {
        Some(p) => p,
        None => "rewrite"@,
    };
    let index = decimal(
        match state.batch_index {
            Some(n) => n as int,
            None => 0,
        },
    );
    let total = decimal(
        match state.batch_total {
            Some(n) => n as int,
            None => job_total as int,
        },
    );
    let name = phase_name(phase);
    let a = "第 "@ + index;
    let b = a + "/"@;
    let c = b + total;
    let d = c + " 批 · "@;
    let batch = d + name;
    lemma_holds_end("第 "@, index);
    lemma_holds_more(a, "/"@, index);
    lemma_holds_more(b, total, index);
    lemma_holds_more(c, " 批 · "@, index);
    lemma_holds_more(d, name, index);
    lemma_holds_end(b, total);
    lemma_holds_more(c, " 批 · "@, total);
    lemma_holds_more(d, name, total);
    lemma_holds_end(d, name);
    if state.shard_total > 0 {
        let x = " · 章节已完成 "@ + decimal(state.completed_chapter_ids.len() as int) + "/"@ + decimal(
            state.chapter_total as int,
        );
        let y = " · 分片已完成 "@ + decimal(state.completed_shards.len() as int) + "/"@ + decimal(
            state.shard_total as int,
        );
        assert(text =~= batch + x + y);
        lemma_holds_more(batch, x, index);
        lemma_holds_more(batch + x, y, index);
        lemma_holds_more(batch, x, total);
        lemma_holds_more(batch + x, y, total);
        lemma_holds_more(batch, x, name);
        lemma_holds_more(batch + x, y, name);
        lemma_holds_end(batch, x);
        lemma_holds_more(batch + x, y, x);
        lemma_holds_end(batch + x, y);
    }
}

/// An automatic run counts the batches since its start, another job its chapters, and never more
/// than it has.
pub proof fn law_place_of_a_job(completed: int, start: i64, done: i64, job_total: i64)
    requires
        i64::MIN <= done - start <= i64::MAX,
    ensures
        current_place(completed, Some((start, done)), job_total) == done - start,
        completed <= job_total ==> current_place(completed, None, job_total) == completed,
        completed >= job_total ==> current_place(completed, None, job_total) == job_total,
{
}

/// A second answer that cannot be read, or none, divides the shard, and the error is kept in what is
/// said of it. A repair of the form is not asked for twice.
pub proof fn law_second_failure_divides_the_shard(
    kind: WorkKind,
    fixed_form: bool,
    error: String,
    output: String,
    prompt: Seq<char>,
    shard_context: Seq<char>,
)
    ensures
        call_next(
            kind,
            fixed_form,
            CallStage::Retry,
            CallReply::Unreadable { error, output },
            prompt,
            shard_context,
        ) matches CallNextView::Subdivide { error: told } && holds(told, error@),
        call_next(
            kind,
            fixed_form,
            CallStage::Retry,
            CallReply::Failed(error),
            prompt,
            shard_context,
        ) matches CallNextView::Subdivide { error: told } && holds(told, error@),
        call_next(
            kind,
            fixed_form,
            CallStage::FormatRepair,
            CallReply::Unreadable { error, output },
            prompt,
            shard_context,
        ) == CallNextView::Finished(Err(error@)),
        call_next(
            kind,
            fixed_form,
            CallStage::First,
            CallReply::Failed(error),
            prompt,
            shard_context,
        ) matches CallNextView::Finished(Err(told)) && holds(told, error@),
{
    lemma_holds_end("解析失败后自动重试也失败："@, error@);
    lemma_holds_end("审查打回重写解析失败后自动重试也失败："@, error@);
    lemma_holds_end("解析失败后已自动重试，但重试输出仍无法解析："@, error@);
    lemma_holds_end("审查打回重写解析失败后已自动重试，但重试输出仍无法解析："@, error@);
    lemma_holds_end("审查打回后重写失败："@, error@);
    lemma_holds_end(Seq::empty(), error@);
    assert(Seq::empty() + error@ =~= error@);
}

/// A review that cannot be read, or whose coverage cannot be decoded, gives no issues but an error.
pub proof fn law_unreadable_review_is_refused(
    output: Seq<char>,
    settings: NovelSettingsView,
    rewrites: Seq<ParsedChapterRewriteView>,
    planned: Option<(RewritePlanView, PlanEvidence)>,
)
    requires
        jsonish(output) is Err || (planned matches Some(p) && p.1.coverage is Err),
    ensures
        read_issues(output, settings, rewrites, planned) is Err,
{
}

/// Each call that a shard may take is counted, and the review makes it more.
pub proof fn law_calls_of_a_shard()
    ensures
        calls_per_shard(true) == 7,
        calls_per_shard(false) == 2,
{
}

/// Results are written only where every chapter has them: one without an analysis, or without a
/// title or a text, is enough to write none.
pub proof fn law_incomplete_results_are_not_written(
    chapters: Seq<ChapterView>,
    ids: Seq<Seq<char>>,
    staged: Seq<(String, StagedChapterOutput)>,
    i: int,
)
    requires
        0 <= i < chapters.len(),
    ensures
        !ids.contains(chapters[i].id) ==> !all_staged(chapters, ids),
        staged_for(staged, chapters[i].id, 0) is None ==> !all_rewritten(chapters, staged),
        staged_for(staged, chapters[i].id, 0) matches Some(o) ==> o.title is None || o.content
            is None ==> !all_rewritten(chapters, staged),
{
    if all_rewritten(chapters, staged) {
        assert(rewritten_at(chapters, staged, i));
    }
}

} // verus!
