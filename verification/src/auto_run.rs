//! The control of an automatic run: how it begins, is paused or ended, and what is said then.
use vstd::prelude::*;
use crate::domain::{copy_option, duplicate_all, opt_text};
use crate::json::{strip_leading, strip_leading_chars};
use crate::progress::current_place;
use crate::review_rounds::QUALITY_GATE_PREFIX;
use crate::task_control::{should_hold_paused_run, should_terminate_paused_run, AutoRunControl};
use crate::text::{chars_of, decimal, holds, i64_text, same_text, string_of, text_has, views};

verus! {

/// What marks an error as the wish to pause a run.
pub const AUTO_RUN_PAUSED: &'static str = "__YURI_AUTO_RUN_PAUSED__";

/// What marks an error as the wish to end a run.
pub const AUTO_RUN_TERMINATED: &'static str = "__YURI_AUTO_RUN_TERMINATED__";

#[verifier::ext_equal]
pub struct ControlView {
    pub status: Seq<char>,
    pub pause_kind: Seq<char>,
    pub start_batch_index: i64,
    pub completed_batches: i64,
    pub job_id: Option<Seq<char>>,
    pub profile_ids: Seq<Seq<char>>,
    pub recoverable: bool,
}

impl View for AutoRunControl {
    type V = ControlView;

    open spec fn view(&self) -> ControlView {
        ControlView {
            status: self.status@,
            pause_kind: self.pause_kind@,
            start_batch_index: self.start_batch_index,
            completed_batches: self.completed_batches,
            job_id: opt_text(self.job_id),
            profile_ids: views(self.profile_ids@),
            recoverable: self.recoverable,
        }
    }
}

impl Clone for AutoRunControl {
    fn clone(&self) -> (r: Self)
        ensures
            r@ == self@,
    {
        AutoRunControl {
            status: self.status.clone(),
            pause_kind: self.pause_kind.clone(),
            start_batch_index: self.start_batch_index,
            completed_batches: self.completed_batches,
            job_id: copy_option(&self.job_id),
            profile_ids: duplicate_all(self.profile_ids.as_slice()),
            recoverable: self.recoverable,
        }
    }
}

// ---- beginning ------------------------------------------------------------------------------
/// The control with which a run begins, by the control that was there: a paused run goes on where
/// it was, and a run that is under way is not begun again.
pub open spec fn prepared(
    existing: Option<ControlView>,
    profile_ids: Seq<Seq<char>>,
    requested: i64,
) -> Option<ControlView> {
    let fresh = ControlView {
        status: "running"@,
        pause_kind: Seq::empty(),
        start_batch_index: requested,
        completed_batches: requested,
        job_id: None,
        profile_ids,
        recoverable: true,
    };
    match existing {
        None => Some(fresh),
        Some(c) => if c.status == "running"@ || c.status == "pause_requested"@ {
            None
        } else if c.status == "paused"@ {
            Some(
                ControlView {
                    start_batch_index: c.start_batch_index,
                    completed_batches: c.completed_batches,
                    ..fresh
                },
            )
        } else {
            Some(fresh)
        },
    }
}

pub open spec fn opt_control(o: Option<AutoRunControl>) -> Option<ControlView> {
    match o {
        Some(c) => Some(c@),
        None => None,
    }
}

pub fn prepare_auto_run(
    existing: &Option<AutoRunControl>,
    profile_ids: Vec<String>,
    requested_start_batch_index: i64,
) -> (r: Result<AutoRunControl, String>)
    ensures
        match (prepared(opt_control(*existing), views(profile_ids@), requested_start_batch_index), r) {
            (Some(c), Ok(x)) => x@ == c,
            (None, Err(m)) => m@ == "一键分析改写正在运行，请先暂停或终止当前任务。"@,
            _ => false,
        },
{
    let mut start_batch_index = requested_start_batch_index;
    let mut completed_batches = requested_start_batch_index;
    if let Some(c) = existing {
        if same_text(c.status.as_str(), "running") || same_text(
            c.status.as_str(),
            "pause_requested",
        ) {
            return Err("一键分析改写正在运行，请先暂停或终止当前任务。".to_string());
        }
        if same_text(c.status.as_str(), "paused") {
            start_batch_index = c.start_batch_index;
            completed_batches = c.completed_batches;
        }
    }
    let out = AutoRunControl {
        status: "running".to_string(),
        pause_kind: String::new(),
        start_batch_index,
        completed_batches,
        job_id: None,
        profile_ids,
        recoverable: true,
    };
    proof {
        assert(out@.pause_kind =~= Seq::<char>::empty());
    }
    Ok(out)
}

/// The control once the job of the run is known.
pub open spec fn registered(
    existing: Option<ControlView>,
    job_id: Seq<char>,
    completed_batches: i64,
    start_batch_index: i64,
) -> ControlView {
    ControlView {
        status: "running"@,
        pause_kind: Seq::empty(),
        start_batch_index,
        completed_batches,
        job_id: Some(job_id),
        profile_ids: match existing {
            Some(c) => c.profile_ids,
            None => Seq::empty(),
        },
        recoverable: match existing {
            Some(c) => c.recoverable,
            None => true,
        },
    }
}

pub fn register_auto_run_job(
    existing: Option<AutoRunControl>,
    job_id: &str,
    completed_batches: i64,
    start_batch_index: i64,
) -> (r: AutoRunControl)
    ensures
        r@ == registered(opt_control(existing), job_id@, completed_batches, start_batch_index),
{
    let (profile_ids, recoverable) = match existing {
        Some(c) => (c.profile_ids, c.recoverable),
        None => {
            let none: Vec<String> = Vec::new();
            proof {
                assert(views(none@) =~= Seq::<Seq<char>>::empty());
            }
            (none, true)
        },
    };
    let out = AutoRunControl {
        status: "running".to_string(),
        pause_kind: String::new(),
        start_batch_index,
        completed_batches,
        job_id: Some(job_id.to_string()),
        profile_ids,
        recoverable,
    };
    proof {
        assert(out@.pause_kind =~= Seq::<char>::empty());
    }
    out
}

// ---- wishes ---------------------------------------------------------------------------------
/// The mark of the wish that a run has to heed, where there is one.
pub fn requested_auto_run_stop(control: &Option<AutoRunControl>) -> (r: Option<String>)
    ensures
        opt_text(r) == match opt_control(*control) {
            Some(c) => if c.status == "pause_requested"@ {
                Some(AUTO_RUN_PAUSED@)
            } else if c.status == "terminate_requested"@ {
                Some(AUTO_RUN_TERMINATED@)
            } else {
                None
            },
            None => None,
        },
{
    match control {
        Some(c) => {
            if same_text(c.status.as_str(), "pause_requested") {
                Some(AUTO_RUN_PAUSED.to_string())
            } else if same_text(c.status.as_str(), "terminate_requested") {
                Some(AUTO_RUN_TERMINATED.to_string())
            } else {
                None
            }
        },
        None => None,
    }
}

/// What a wish comes to: how the job is shown, and whether the run is over with it.
pub struct StopRequest {
    pub job_id: String,
    pub job_status: String,
    pub current: i64,
    pub message: String,
    /// The run is forgotten at once; else its state is kept.
    pub forget: bool,
}

/// The control after a wish. A run that is paused already stays paused when that is wished.
pub open spec fn after_wish(control: ControlView, status: Seq<char>) -> ControlView {
    ControlView {
        pause_kind: if status == "pause_requested"@ {
            "user"@
        } else {
            control.pause_kind
        },
        status: if control.status == "paused"@ && status == "pause_requested"@ {
            control.status
        } else {
            status
        },
        ..control
    }
}

/// What is said of the end of a run.
pub const RUN_ENDED: &'static str = "一键分析改写已终止。下次点击将从头开始新的执行。";

/// How the job is shown after a wish, with what is said of it.
pub open spec fn wish_outcome(current_status: Seq<char>, status: Seq<char>) -> (Seq<char>, Seq<char>) {
    if current_status == "paused"@ && status == "terminate_requested"@ {
        ("terminated"@, RUN_ENDED@)
    } else if current_status == "paused"@ && status == "pause_requested"@ {
        ("paused"@, "已由用户保持暂停；继续时仅处理未完成分片。"@)
    } else if status == "terminate_requested"@ {
        ("terminating"@, "正在立即终止一键分析改写；活动模型请求将取消，当前未输出批次不会保存。"@)
    } else {
        ("pausing"@, "正在暂停一键分析改写，已完成分片会保留，继续时仅处理未完成分片。"@)
    }
}

fn completed_in_range(completed: i64, start: i64) -> (r: i64)
    ensures
        r == current_place(0, Some((start, completed)), 0),
{
    let d: i128 = completed as i128 - start as i128;
    if d > i64::MAX as i128 {
        i64::MAX
    } else if d < i64::MIN as i128 {
        i64::MIN
    } else {
        d as i64
    }
}

/// Heeds a wish to pause or to end a run.
pub fn request_auto_run_stop(control: &mut AutoRunControl, status: &str) -> (r: Result<
    StopRequest,
    String,
>)
    ensures
        final(control)@ == after_wish(old(control)@, status@),
        match (old(control)@.job_id, r) {
            (None, Err(m)) => m@ == "当前一键任务尚未创建进度记录。"@,
            (Some(id), Ok(x)) => {
                &&& x.job_id@ == id
                &&& (x.job_status@, x.message@) == wish_outcome(old(control)@.status, status@)
                &&& x.current == current_place(
                    0,
                    Some((old(control).start_batch_index, old(control).completed_batches)),
                    0,
                )
                &&& x.forget == (old(control)@.status == "paused"@ && status@
                    == "terminate_requested"@)
            },
            _ => false,
        },
{
    let forget = should_terminate_paused_run(control.status.as_str(), status);
    let hold = should_hold_paused_run(control.status.as_str(), status);
    if same_text(status, "pause_requested") {
        control.pause_kind = "user".to_string();
    }
    if !hold {
        control.status = status.to_string();
    }
    let job_id = match copy_option(&control.job_id) {
        Some(id) => id,
        None => {
            return Err("当前一键任务尚未创建进度记录。".to_string());
        },
    };
    let current = completed_in_range(control.completed_batches, control.start_batch_index);
    let (job_status, message) = if forget {
        ("terminated".to_string(), RUN_ENDED.to_string())
    } else if hold {
        ("paused".to_string(), "已由用户保持暂停；继续时仅处理未完成分片。".to_string())
    } else if same_text(status, "terminate_requested") {
        (
            "terminating".to_string(),
            "正在立即终止一键分析改写；活动模型请求将取消，当前未输出批次不会保存。".to_string(),
        )
    } else {
        (
            "pausing".to_string(),
            "正在暂停一键分析改写，已完成分片会保留，继续时仅处理未完成分片。".to_string(),
        )
    };
    Ok(StopRequest { job_id, job_status, current, message, forget })
}

// ---- pausing --------------------------------------------------------------------------------
/// Why a run is paused.
#[derive(Debug, Clone, Copy, PartialEq, Eq)]
pub enum PauseReason {
    User,
    RateLimit,
    Network,
    TemporaryGateway,
    ModelFormat,
    ContentFilter,
    QualityGate,
}

/// How the reason is kept.
pub open spec fn pause_kind_of(reason: PauseReason) -> Seq<char> {
    match reason {
        PauseReason::User => "user"@,
        PauseReason::RateLimit => "rate_limit"@,
        PauseReason::Network => "network"@,
        PauseReason::TemporaryGateway => "temporary_gateway"@,
        PauseReason::ModelFormat => "model_format"@,
        PauseReason::ContentFilter => "content_filter"@,
        PauseReason::QualityGate => "quality_gate"@,
    }
}

pub fn pause_kind(reason: PauseReason) -> (r: &'static str)
    ensures
        r@ == pause_kind_of(reason),
{
    match reason {
        PauseReason::User => "user",
        PauseReason::RateLimit => "rate_limit",
        PauseReason::Network => "network",
        PauseReason::TemporaryGateway => "temporary_gateway",
        PauseReason::ModelFormat => "model_format",
        PauseReason::ContentFilter => "content_filter",
        PauseReason::QualityGate => "quality_gate",
    }
}

/// What is said of a run that the quality gate paused.
pub const GATE_PAUSE: &'static str = "主角主动重构质量门连续三次未通过，任务已暂停；未达标草稿不会写入章节。契约与当前草稿已保留，但该暂停点不会自动继续。仅更换复检模型时可重新验收草稿；修改改写模型、设定、风格或规则后请终止暂停点并启动新任务。\n\n";

/// What is said of a pause: the reason, the batch with which the run goes on, and the error.
pub open spec fn pause_message_of(reason: PauseReason, next_batch: int, error: Seq<char>) -> Seq<
    char,
> {
    match reason {
        PauseReason::User => "一键分析改写已暂停。继续后将处理第 "@ + decimal(next_batch) + " 批的未完成分片。"@,
        PauseReason::RateLimit => "服务商限流重试已耗尽，任务已暂停。请降低并发、等待额度恢复或更换模型后点击继续；已完成分片已保留，将继续处理第 "@ + decimal(
            next_batch,
        ) + " 批的未完成分片。\n\n"@ + error,
        PauseReason::Network => "网络连接异常，任务已暂停。请检查网络、代理或服务商连接状态后点击继续；已完成分片已保留，将继续处理第 "@ + decimal(
            next_batch,
        ) + " 批的未完成分片。\n\n"@ + error,
        PauseReason::TemporaryGateway => "模型服务或反向代理暂时不可用，任务已暂停。可以调整并发或模型后点击继续；已完成分片已保留，将继续处理第 "@ + decimal(
            next_batch,
        ) + " 批的未完成分片。\n\n"@ + error,
        PauseReason::ModelFormat => "模型输出格式多次修复后仍无法解析，任务已暂停。已完成分片已保留，可以点击继续处理第 "@ + decimal(next_batch)
            + " 批的未完成分片；如果频繁出现，请更换 JSON 输出更稳定的模型、提高并发以缩小单个分片，或缩小处理范围。\n\n"@ + error,
        PauseReason::ContentFilter =>
            "模型安全策略拦截了当前请求，任务已自动暂停。已完成分片已保留，可以调整创意设定、复检配置、对应模型的提示词模糊设置或更换模型后点击继续；将从第 "@ + decimal(next_batch)
            + " 批的未完成分片恢复。\n\n"@ + error,
        PauseReason::QualityGate => GATE_PAUSE@ + strip_leading(error, QUALITY_GATE_PREFIX@),
    }
}

pub fn pause_message(reason: PauseReason, completed_batches: i64, error: &str) -> (r: String)
    requires
        completed_batches < i64::MAX,
    ensures
        r@ == pause_message_of(reason, completed_batches + 1, error@),
{
    let number = i64_text(completed_batches + 1);
    match reason {
        PauseReason::User => {
            let mut m = "一键分析改写已暂停。继续后将处理第 ".to_string();
            m.append(number.as_str());
            m.append(" 批的未完成分片。");
            m
        },
        PauseReason::RateLimit => {
            let mut m = "服务商限流重试已耗尽，任务已暂停。请降低并发、等待额度恢复或更换模型后点击继续；已完成分片已保留，将继续处理第 ".to_string();
            m.append(number.as_str());
            m.append(" 批的未完成分片。\n\n");
            m.append(error);
            m
        },
        PauseReason::Network => {
            let mut m = "网络连接异常，任务已暂停。请检查网络、代理或服务商连接状态后点击继续；已完成分片已保留，将继续处理第 ".to_string();
            m.append(number.as_str());
            m.append(" 批的未完成分片。\n\n");
            m.append(error);
            m
        },
        PauseReason::TemporaryGateway => {
            let mut m = "模型服务或反向代理暂时不可用，任务已暂停。可以调整并发或模型后点击继续；已完成分片已保留，将继续处理第 ".to_string();
            m.append(number.as_str());
            m.append(" 批的未完成分片。\n\n");
            m.append(error);
            m
        },
        PauseReason::ModelFormat => {
            let mut m = "模型输出格式多次修复后仍无法解析，任务已暂停。已完成分片已保留，可以点击继续处理第 ".to_string();
            m.append(number.as_str());
            m.append(" 批的未完成分片；如果频繁出现，请更换 JSON 输出更稳定的模型、提高并发以缩小单个分片，或缩小处理范围。\n\n");
            m.append(error);
            m
        },
        PauseReason::ContentFilter => {
            let mut m = "模型安全策略拦截了当前请求，任务已自动暂停。已完成分片已保留，可以调整创意设定、复检配置、对应模型的提示词模糊设置或更换模型后点击继续；将从第 ".to_string();
            m.append(number.as_str());
            m.append(" 批的未完成分片恢复。\n\n");
            m.append(error);
            m
        },
        PauseReason::QualityGate => {
            let all = chars_of(error);
            let prefix = chars_of(QUALITY_GATE_PREFIX);
            proof {
                reveal_strlit("__YURI_QUALITY_GATE__:");
            }
            let rest = strip_leading_chars(all.as_slice(), prefix.as_slice());
            let rest = string_of(rest);
            let mut m = GATE_PAUSE.to_string();
            m.append(rest.as_str());
            m
        },
    }
}

/// The control of a run that was paused.
pub open spec fn paused(
    control: ControlView,
    reason: PauseReason,
    completed_batches: i64,
    job_id: Seq<char>,
) -> ControlView {
    ControlView {
        status: "paused"@,
        pause_kind: pause_kind_of(reason),
        completed_batches,
        job_id: Some(job_id),
        ..control
    }
}

pub fn pause_auto_run(
    control: &mut AutoRunControl,
    reason: PauseReason,
    completed_batches: i64,
    job_id: &str,
)
    ensures
        final(control)@ == paused(old(control)@, reason, completed_batches, job_id@),
{
    control.status = "paused".to_string();
    control.pause_kind = pause_kind(reason).to_string();
    control.completed_batches = completed_batches;
    control.job_id = Some(job_id.to_string());
}

/// A run that the quality gate paused is not taken up by itself: once its state is kept, it is not
/// kept again.
pub fn stop_keeping(control: &mut AutoRunControl)
    ensures
        final(control)@ == (ControlView { recoverable: false, ..old(control)@ }),
{
    control.recoverable = false;
}

/// How a run that heeded a wish ends: it is over, or it is paused.
pub fn stopped_run_is_over(status_marker: &str) -> (r: bool)
    ensures
        r == (status_marker@ == AUTO_RUN_TERMINATED@),
{
    same_text(status_marker, AUTO_RUN_TERMINATED)
}

// ---- chapters of a run that failed ----------------------------------------------------------
/// Whether the chapters of a run count as failed: not where the run was paused or ended, where the
/// quality gate refused it, or where a model's answer could not be read and may be asked for again.
pub fn marks_chapters_failed(error: &str, recoverable_format_error: bool) -> (r: bool)
    ensures
        r == (error@ != AUTO_RUN_PAUSED@ && error@ != AUTO_RUN_TERMINATED@ && !holds(
            error@,
            QUALITY_GATE_PREFIX@,
        ) && !recoverable_format_error),
{
    !same_text(error, AUTO_RUN_PAUSED) && !same_text(error, AUTO_RUN_TERMINATED) && !text_has(
        error,
        QUALITY_GATE_PREFIX,
    ) && !recoverable_format_error
}

// ---- laws -----------------------------------------------------------------------------------
/// A run that was paused goes on with the batch it was paused at, and with the batch it began
/// with.
pub proof fn law_paused_run_goes_on(
    control: ControlView,
    reason: PauseReason,
    completed_batches: i64,
    job_id: Seq<char>,
    profile_ids: Seq<Seq<char>>,
    requested: i64,
)
    ensures
        ({
            let next = prepared(
                Some(paused(control, reason, completed_batches, job_id)),
                profile_ids,
                requested,
            );
            next matches Some(c) && c.start_batch_index == control.start_batch_index
                && c.completed_batches == completed_batches
        }),
{
    reveal_strlit("paused");
    reveal_strlit("running");
    reveal_strlit("pause_requested");
    assert("paused"@.len() != "running"@.len());
    assert("paused"@.len() != "pause_requested"@.len());
}

/// A wish to pause leaves a paused run paused.
pub proof fn law_pausing_again_changes_nothing_but_the_kind(control: ControlView)
    requires
        control.status == "paused"@,
    ensures
        after_wish(control, "pause_requested"@) == (ControlView { pause_kind: "user"@, ..control }),
{
}

} // verus!
