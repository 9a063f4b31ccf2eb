//! What the control of a run is for, and what is read and shown on the way.
use vstd::prelude::*;
use crate::auto_run::{
    after_wish, pause_kind_of, pause_message_of, paused, prepared, registered, wish_outcome,
    ControlView, PauseReason,
};
use crate::excerpt::{forbidden_in_file_names, model_log, review_label, without_forbidden};
use crate::json::{
    escaped, field, field_from, jsonish, scan, settled, strip_leading, strip_trailing, unfenced,
    JsonView,
};
use crate::prompt_laws::law_labelled_texts_stand_in_the_whole;
use crate::text::{blank, control, decimal, ends, holds, starts, trim, white};
use crate::text_laws::{
    law_holding_is_transitive, law_trimmed_text_is_the_middle, lemma_glue, lemma_glued_holds, lemma_holds_end,
    lemma_holds_more, lemma_trimmed_already,
};
use crate::window::{is_reasonable, StoredWindowState};

verus! {

// ---- runs -----------------------------------------------------------------------------------
proof fn lemma_words_of_a_run()
    ensures
        "running"@ != "paused"@,
        "pause_requested"@ != "paused"@,
        "terminate_requested"@ != "paused"@,
        "terminate_requested"@ != "pause_requested"@,
        "running"@ != "pause_requested"@,
{
    reveal_strlit("running");
    reveal_strlit("paused");
    reveal_strlit("pause_requested");
    reveal_strlit("terminate_requested");
    assert("running"@.len() == 7 && "paused"@.len() == 6 && "pause_requested"@.len() == 15
        && "terminate_requested"@.len() == 19);
}

/// A run that is under way is not begun again; any other is, with the profiles that were asked for
/// and without a job.
pub proof fn law_run_begins_once(
    existing: Option<ControlView>,
    profile_ids: Seq<Seq<char>>,
    requested: i64,
)
    ensures
        prepared(existing, profile_ids, requested) is None <==> (existing matches Some(c) && (
        c.status == "running"@ || c.status == "pause_requested"@)),
        prepared(existing, profile_ids, requested) matches Some(c) ==> c.status == "running"@
            && c.profile_ids == profile_ids && c.job_id is None && c.recoverable
            && c.pause_kind.len() == 0,
        prepared(None, profile_ids, requested) matches Some(c) && c.start_batch_index == requested
            && c.completed_batches == requested,
{
}

/// A run that was neither paused nor is under way begins where it was asked to.
pub proof fn law_ended_run_begins_anew(
    old_run: ControlView,
    profile_ids: Seq<Seq<char>>,
    requested: i64,
)
    requires
        old_run.status != "running"@,
        old_run.status != "pause_requested"@,
        old_run.status != "paused"@,
    ensures
        prepared(Some(old_run), profile_ids, requested) matches Some(c) && c.start_batch_index
            == requested && c.completed_batches == requested,
{
}

/// What was prepared cannot be prepared a second time.
pub proof fn law_prepared_run_is_under_way(
    existing: Option<ControlView>,
    profile_ids: Seq<Seq<char>>,
    requested: i64,
    again: Seq<Seq<char>>,
    later: i64,
)
    requires
        prepared(existing, profile_ids, requested) is Some,
    ensures
        prepared(prepared(existing, profile_ids, requested), again, later) is None,
{
}

/// The job of a run is put down beside the profiles and the wish to keep it, which stay.
pub proof fn law_job_is_put_down(
    control: ControlView,
    job_id: Seq<char>,
    completed: i64,
    start: i64,
)
    ensures
        ({
            let after = registered(Some(control), job_id, completed, start);
            &&& after.job_id == Some(job_id)
            &&& after.profile_ids == control.profile_ids
            &&& after.recoverable == control.recoverable
            &&& after.completed_batches == completed
            &&& after.start_batch_index == start
            &&& after.status == "running"@
        }),
{
}

/// A wish changes the state of a run and nothing of what it has done. Only a paused run that is to
/// be paused keeps its state.
pub proof fn law_wish_is_taken(control: ControlView)
    ensures
        after_wish(control, "terminate_requested"@).status == "terminate_requested"@,
        after_wish(control, "terminate_requested"@).pause_kind == control.pause_kind,
        control.status != "paused"@ ==> after_wish(control, "pause_requested"@).status
            == "pause_requested"@,
        after_wish(control, "pause_requested"@).pause_kind == "user"@,
        forall|status: Seq<char>|
            #![trigger after_wish(control, status)]
            after_wish(control, status).start_batch_index == control.start_batch_index
                && after_wish(control, status).completed_batches == control.completed_batches
                && after_wish(control, status).job_id == control.job_id && after_wish(
                control,
                status,
            ).profile_ids == control.profile_ids && after_wish(control, status).recoverable
                == control.recoverable,
{
    lemma_words_of_a_run();
}

/// A paused run that is to end is over at once; a run under way is told to stop first.
pub proof fn law_paused_run_ends_at_once(status: Seq<char>)
    requires
        status != "paused"@,
    ensures
        wish_outcome("paused"@, "terminate_requested"@).0 == "terminated"@,
        wish_outcome("paused"@, "pause_requested"@).0 == "paused"@,
        wish_outcome(status, "terminate_requested"@).0 == "terminating"@,
        wish_outcome(status, "pause_requested"@).0 == "pausing"@,
{
    lemma_words_of_a_run();
}

/// Pausing keeps where the run began and its profiles, and puts down how far it came and why it was
/// paused.
pub proof fn law_pause_is_put_down(
    control: ControlView,
    reason: PauseReason,
    completed: i64,
    job_id: Seq<char>,
)
    ensures
        ({
            let after = paused(control, reason, completed, job_id);
            &&& after.status == "paused"@
            &&& after.pause_kind == pause_kind_of(reason)
            &&& after.completed_batches == completed
            &&& after.job_id == Some(job_id)
            &&& after.start_batch_index == control.start_batch_index
            &&& after.profile_ids == control.profile_ids
            &&& after.recoverable == control.recoverable
        }),
{
}

/// Each reason is put down by a word of its own.
pub proof fn law_reasons_have_their_words()
    ensures
        pause_kind_of(PauseReason::User) == "user"@,
        pause_kind_of(PauseReason::RateLimit) == "rate_limit"@,
        pause_kind_of(PauseReason::Network) == "network"@,
        pause_kind_of(PauseReason::TemporaryGateway) == "temporary_gateway"@,
        pause_kind_of(PauseReason::ModelFormat) == "model_format"@,
        pause_kind_of(PauseReason::ContentFilter) == "content_filter"@,
        pause_kind_of(PauseReason::QualityGate) == "quality_gate"@,
{
}

/// What is said of a pause tells the batch with which the run goes on, and, where a call failed,
/// the error.
pub proof fn law_pause_tells_the_batch(reason: PauseReason, next_batch: int, error: Seq<char>)
    ensures
        !(reason is QualityGate) ==> holds(
            pause_message_of(reason, next_batch, error),
            decimal(next_batch),
        ),
        !(reason is User) && !(reason is QualityGate) ==> holds(
            pause_message_of(reason, next_batch, error),
            error,
        ),
{
    let n = decimal(next_batch);
    match reason {
        PauseReason::User => {
            lemma_batch_and_error(
                "一键分析改写已暂停。继续后将处理第 "@,
                n,
                " 批的未完成分片。"@,
                Seq::empty(),
            );
            let text = "一键分析改写已暂停。继续后将处理第 "@ + n + " 批的未完成分片。"@;
            assert(text + Seq::empty() =~= text);
        },
        PauseReason::RateLimit => {
            lemma_batch_and_error(
                "服务商限流重试已耗尽，任务已暂停。请降低并发、等待额度恢复或更换模型后点击继续；已完成分片已保留，将继续处理第 "@,
                n,
                " 批的未完成分片。\n\n"@,
                error,
            );
        },
        PauseReason::Network => {
            lemma_batch_and_error(
                "网络连接异常，任务已暂停。请检查网络、代理或服务商连接状态后点击继续；已完成分片已保留，将继续处理第 "@,
                n,
                " 批的未完成分片。\n\n"@,
                error,
            );
        },
        PauseReason::TemporaryGateway => {
            lemma_batch_and_error(
                "模型服务或反向代理暂时不可用，任务已暂停。可以调整并发或模型后点击继续；已完成分片已保留，将继续处理第 "@,
                n,
                " 批的未完成分片。\n\n"@,
                error,
            );
        },
        PauseReason::ModelFormat => {
            lemma_batch_and_error(
                "模型输出格式多次修复后仍无法解析，任务已暂停。已完成分片已保留，可以点击继续处理第 "@,
                n,
                " 批的未完成分片；如果频繁出现，请更换 JSON 输出更稳定的模型、提高并发以缩小单个分片，或缩小处理范围。\n\n"@,
                error,
            );
        },
        PauseReason::ContentFilter => {
            lemma_batch_and_error(
                "模型安全策略拦截了当前请求，任务已自动暂停。已完成分片已保留，可以调整创意设定、复检配置、对应模型的提示词模糊设置或更换模型后点击继续；将从第 "@,
                n,
                " 批的未完成分片恢复。\n\n"@,
                error,
            );
        },
        PauseReason::QualityGate => {},
    }
}

proof fn lemma_batch_and_error(a: Seq<char>, n: Seq<char>, b: Seq<char>, error: Seq<char>)
    ensures
        holds(a + n + b + error, n),
        holds(a + n + b + error, error),
{
    lemma_holds_end(a, n);
    lemma_holds_more(a + n, b, n);
    lemma_holds_more(a + n + b, error, n);
    lemma_holds_end(a + n + b, error);
}

// ---- JSON -----------------------------------------------------------------------------------
/// A field of an object is the first one of its name.
pub proof fn law_field_of_an_object(
    fields: Seq<(Seq<char>, JsonView)>,
    printed: Seq<char>,
    name: Seq<char>,
    i: int,
)
    requires
        0 <= i < fields.len(),
        fields[i].0 == name,
        forall|j: int| 0 <= j < i ==> (#[trigger] fields[j]).0 != name,
    ensures
        field(JsonView::Fields { fields, printed }, name) == Some(fields[i].1),
{
    lemma_field_from(fields, name, 0, i);
}

proof fn lemma_field_from(
    fields: Seq<(Seq<char>, JsonView)>,
    name: Seq<char>,
    from: int,
    i: int,
)
    requires
        0 <= from <= i < fields.len(),
        fields[i].0 == name,
        forall|j: int| 0 <= j < i ==> (#[trigger] fields[j]).0 != name,
    ensures
        field_from(fields, name, from) == Some(fields[i].1),
    decreases i - from,
{
    if from < i {
        assert(fields[from].0 != name);
        lemma_field_from(fields, name, from + 1, i);
    }
}

/// What has no field of a name has none, and what is no object has no field at all.
pub proof fn law_field_that_is_not_there(
    fields: Seq<(Seq<char>, JsonView)>,
    printed: Seq<char>,
    name: Seq<char>,
    value: JsonView,
)
    requires
        forall|j: int| 0 <= j < fields.len() ==> (#[trigger] fields[j]).0 != name,
    ensures
        field(JsonView::Fields { fields, printed }, name) is None,
        !(value is Fields) ==> field(value, name) is None,
{
    lemma_no_field_from(fields, name, 0);
}

proof fn lemma_no_field_from(fields: Seq<(Seq<char>, JsonView)>, name: Seq<char>, from: int)
    requires
        0 <= from,
        forall|j: int| 0 <= j < fields.len() ==> (#[trigger] fields[j]).0 != name,
    ensures
        field_from(fields, name, from) is None,
    decreases fields.len() - from,
{
    if from < fields.len() {
        assert(fields[from].0 != name);
        lemma_no_field_from(fields, name, from + 1);
    }
}

/// A text without fences and without white space around it is read as it is; one between fences is
/// read without them.
pub proof fn law_fences_are_taken_off(body: Seq<char>)
    requires
        body.len() > 0,
        !white(body[0]),
        !white(body.last()),
        body[0] != '`',
        body.last() != '`',
    ensures
        unfenced(body) == body,
        unfenced("```json\n"@ + body + "\n```"@) == body,
        unfenced("```\n"@ + body + "\n```"@) == body,
{
    reveal_strlit("```json");
    reveal_strlit("```");
    reveal_strlit("```json\n");
    reveal_strlit("```\n");
    reveal_strlit("\n```");
    lemma_trimmed_already(body);
    lemma_no_fence_here(body, "```json"@, "```"@);
    assert(unfenced(body) == body);
    let line = seq!['\n'];
    let inner = line + body + "\n```"@;
    let bare = line + body + line;
    // with the name of the language
    let a = "```json\n"@ + body + "\n```"@;
    assert(a[0] == '`' && a.last() == '`');
    lemma_trimmed_already(a);
    assert(a.subrange(0, 7) =~= "```json"@);
    assert(a.subrange(7, a.len() as int) =~= inner);
    assert(starts(a, "```json"@));
    lemma_no_fence_here(inner, "```json"@, "```"@);
    assert(strip_leading(a, "```json"@) == inner);
    // without it
    let b = "```\n"@ + body + "\n```"@;
    assert(b[0] == '`' && b.last() == '`');
    lemma_trimmed_already(b);
    assert(b[3] == '\n');
    if starts(b, "```json"@) {
        assert(b.subrange(0, 7)[3] == "```json"@[3]);
    }
    assert(strip_leading(b, "```json"@) == b);
    assert(b.subrange(0, 3) =~= "```"@);
    assert(b.subrange(3, b.len() as int) =~= inner);
    assert(starts(b, "```"@));
    assert(strip_leading(inner, "```"@) == inner);
    assert(strip_leading(b, "```"@) == inner);
    // the end
    let n = inner.len() as int;
    assert(inner.subrange(n - 3, n) =~= "```"@);
    assert(ends(inner, "```"@));
    assert(inner.subrange(0, n - 3) =~= bare);
    if ends(bare, "```"@) {
        assert(bare.subrange(bare.len() - 3, bare.len() as int)[2] == "```"@[2]);
    }
    assert(strip_trailing(bare, "```"@) == bare);
    assert(strip_trailing(inner, "```"@) == bare);
    lemma_lines_around(body);
}

proof fn lemma_no_fence_here(s: Seq<char>, p: Seq<char>, q: Seq<char>)
    requires
        s.len() > 0,
        s[0] != '`',
        p.len() > 0,
        p[0] == '`',
        q.len() > 0,
        q[0] == '`',
        q.last() == '`',
    ensures
        strip_leading(s, p) == s,
        strip_leading(s, q) == s,
        s.last() != '`' ==> strip_trailing(s, q) == s,
{
    if starts(s, p) {
        assert(s.subrange(0, p.len() as int)[0] == p[0]);
    }
    if starts(s, q) {
        assert(s.subrange(0, q.len() as int)[0] == q[0]);
    }
    if ends(s, q) {
        assert(s.subrange(s.len() - q.len(), s.len() as int)[q.len() - 1] == q.last());
    }
}

proof fn lemma_lines_around(body: Seq<char>)
    requires
        body.len() > 0,
        !white(body[0]),
        !white(body.last()),
    ensures
        trim(seq!['\n'] + body + seq!['\n']) == body,
{
    let s = seq!['\n'] + body + seq!['\n'];
    let e = law_trimmed_text_is_the_middle(s);
    assert(s[1] == body[0]);
    assert(s[body.len() as int] == body.last());
    assert(white(s[0]) && white(s[s.len() - 1]));
    assert(e.0 <= 1 && e.1 >= body.len() + 1);
    let t = trim(s);
    assert(t.len() > 0);
    assert(t[0] == s[e.0] && t.last() == s[e.1 - 1]);
    assert(e.0 == 1 && e.1 == body.len() + 1);
    assert(s.subrange(1, (body.len() + 1) as int) =~= body);
}

/// Outside of strings nothing is changed.
pub proof fn law_text_without_strings_stays(s: Seq<char>)
    requires
        forall|i: int| 0 <= i < s.len() ==> #[trigger] s[i] != '"',
    ensures
        escaped(s) == s,
        !scan(s).in_string,
        !scan(s).escaped,
    decreases s.len(),
{
    if s.len() > 0 {
        let rest = s.drop_last();
        assert forall|i: int| 0 <= i < rest.len() implies #[trigger] rest[i] != '"' by {
            assert(rest[i] == s[i]);
        }
        law_text_without_strings_stays(rest);
        assert(s[s.len() - 1] != '"');
        assert(rest.push(s.last()) =~= s);
    } else {
        assert(escaped(s) =~= s);
    }
}

/// Inside a string a line break, a return or a tab is written as its escape sequence, and what is
/// no control character stays.
pub proof fn law_control_characters_are_escaped(s: Seq<char>, c: char)
    requires
        scan(s).in_string,
        !scan(s).escaped,
    ensures
        escaped(s.push('\n')) == escaped(s) + seq!['\\', 'n'],
        escaped(s.push('\r')) == escaped(s) + seq!['\\', 'r'],
        escaped(s.push('\t')) == escaped(s) + seq!['\\', 't'],
        !control(c) ==> escaped(s.push(c)) == escaped(s).push(c),
{
    assert(s.push('\n').drop_last() =~= s);
    assert(s.push('\r').drop_last() =~= s);
    assert(s.push('\t').drop_last() =~= s);
    assert(s.push(c).drop_last() =~= s);
}

/// What could be read is taken as it was read; a second reading counts only where the first failed.
pub proof fn law_first_reading_counts(
    v: JsonView,
    e: Seq<char>,
    second: Option<Result<JsonView, Seq<char>>>,
)
    ensures
        settled(Ok(v), second) == Ok::<JsonView, Seq<char>>(v),
        second matches Some(Ok(w)) ==> settled(Err(e), second) == Ok::<JsonView, Seq<char>>(w),
        !(second matches Some(Ok(w))) ==> settled(Err(e), second) is Err,
{
}

/// Nothing is read out of an answer without text.
pub proof fn law_empty_answer_is_refused(text: Seq<char>)
    requires
        blank(text),
    ensures
        jsonish(text) is Err,
{
}

// ---- logs and files -------------------------------------------------------------------------
/// The log of a call holds its numbers, its time, its mode and its text.
pub proof fn law_log_tells_the_call(
    input_chars: int,
    output_chars: int,
    elapsed: Seq<char>,
    review: Option<bool>,
    mode: Seq<char>,
    text: Seq<char>,
)
    ensures
        ({
            let log = model_log(input_chars, output_chars, elapsed, review, mode, text);
            &&& holds(log, "\n- 输出字符数："@ + decimal(output_chars))
            &&& holds(log, decimal(input_chars))
            &&& holds(log, "\n- AI 调用耗时："@ + elapsed)
            &&& holds(log, review_label(review))
            &&& holds(log, mode)
            &&& holds(log, trim(text))
        }),
{
    let n = decimal(input_chars);
    let start = "调用统计：\n- 输入字符数："@ + n;
    let told = start + "\n- 输出字符数："@ + decimal(output_chars) + "\n- AI 调用耗时："@ + elapsed;
    lemma_holds_end("调用统计：\n- 输入字符数："@, n);
    law_labelled_texts_stand_in_the_whole(
        start,
        "\n- 输出字符数："@,
        decimal(output_chars),
        "\n- AI 调用耗时："@,
        elapsed,
    );
    let log = model_log(input_chars, output_chars, elapsed, review, mode, text);
    let q0 = Seq::<Seq<char>>::empty();
    let q1 = q0.push(" 秒\n- 复检："@);
    let q2 = q1.push(review_label(review));
    let q3 = q2.push("\n- 思考模式："@);
    let q4 = q3.push(mode);
    let q5 = q4.push("\n\n"@);
    let q6 = q5.push(trim(text));
    lemma_glue(told, q0, " 秒\n- 复检："@);
    lemma_glue(told, q1, review_label(review));
    lemma_glue(told, q2, "\n- 思考模式："@);
    lemma_glue(told, q3, mode);
    lemma_glue(told, q4, "\n\n"@);
    lemma_glue(told, q5, trim(text));
    lemma_glued_holds(told, q6);
    assert(q6[1] == review_label(review) && q6[3] == mode && q6[5] == trim(text));
    law_holding_is_transitive(told, start, n);
    law_holding_is_transitive(log, told, n);
    law_holding_is_transitive(log, told, "\n- 输出字符数："@ + decimal(output_chars));
    law_holding_is_transitive(log, told, "\n- AI 调用耗时："@ + elapsed);
}

/// A name for a file keeps its length, and differs from the text only in characters that a file
/// name may not have.
pub proof fn law_only_forbidden_characters_go(s: Seq<char>, i: int)
    requires
        0 <= i < s.len(),
    ensures
        without_forbidden(s).len() == s.len(),
        (s[i] == '<' || s[i] == '>' || s[i] == ':' || s[i] == '"' || s[i] == '/' || s[i] == '\\'
            || s[i] == '|' || s[i] == '?' || s[i] == '*') ==> without_forbidden(s)[i] == '_',
        !(s[i] == '<' || s[i] == '>' || s[i] == ':' || s[i] == '"' || s[i] == '/' || s[i] == '\\'
            || s[i] == '|' || s[i] == '?' || s[i] == '*') ==> without_forbidden(s)[i] == s[i],
{
    let f = forbidden_in_file_names();
    assert(f.len() == 9);
    assert(f[0] == '<' && f[1] == '>' && f[2] == ':' && f[3] == '"' && f[4] == '/' && f[5] == '\\'
        && f[6] == '|' && f[7] == '?' && f[8] == '*');
}

// ---- the window -----------------------------------------------------------------------------
/// A window is taken up again only at a size at which it can be used.
pub proof fn law_window_has_a_usable_size(state: StoredWindowState)
    ensures
        state.width < 1040 || state.height < 700 || state.width > 20000 || state.height > 20000
            <==> !is_reasonable(state),
{
}

} // verus!
