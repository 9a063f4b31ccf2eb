//! The order of shards, the progress of jobs, and the control of automatic runs.
use yuri_rewrite::auto_run::{
    marks_chapters_failed, pause_auto_run, pause_kind, pause_message, prepare_auto_run,
    register_auto_run_job, request_auto_run_stop, requested_auto_run_stop, stop_keeping,
    stopped_run_is_over, PauseReason, AUTO_RUN_PAUSED, AUTO_RUN_TERMINATED,
};
use yuri_rewrite::batches::plan_chapter_batches;
use yuri_rewrite::domain::{
    Chapter, ParsedChapterRewrite, RewriteObligation, RewritePlan, RewriteStateUpdate,
    StagedChapterOutput,
};
use yuri_rewrite::pipeline::{
    build_waves, extend_states, gather_outcomes, planning_error, prepare_shard, require_plans,
    shard_error, usable_draft, BatchRun,
};
use yuri_rewrite::progress::{
    phase_label, phase_status_column, plain_progress, progress_job_id, runtime_progress,
    unfinished_failure, AutoRunProgressState, Job,
};
use yuri_rewrite::shard_context::build_contiguous_shard_work;
use yuri_rewrite::staging::{
    chapters_pending, chapters_to_rewrite, chapters_with_body, require_staged_analyses,
    require_staged_rewrites, staged_analysis,
};
use yuri_rewrite::analysis_call::ParsedChapterAnalysis;
use yuri_rewrite::task_control::AutoRunControl;
use yuri_rewrite::window::{
    can_restore_window, rectangles_intersect, stored_window_state_is_reasonable,
    window_state_intersects_any_monitor, StoredWindowState, WindowStateBounds,
};

fn chapter(index: i64) -> Chapter {
    Chapter {
        id: format!("chapter-{index}"),
        novel_id: "novel-1".to_string(),
        index,
        title: format!("第{index}章"),
        original_text: "原文".to_string(),
        analysis_json: None,
        rewrite_text: Some("旧稿".to_string()),
        rewrite_edited: false,
        single_rewrite_original_available: false,
        analysis_status: "completed".to_string(),
        rewrite_status: "pending".to_string(),
        rewrite_validation_status: "unvalidated".to_string(),
        rewrite_obligation_total: 0,
        rewrite_obligation_satisfied: 0,
    }
}

fn rewrite(index: i64) -> ParsedChapterRewrite {
    ParsedChapterRewrite {
        id: format!("chapter-{index}"),
        index,
        title: "标题".to_string(),
        text: "正文".to_string(),
    }
}

fn control(status: &str) -> AutoRunControl {
    AutoRunControl {
        status: status.to_string(),
        pause_kind: "network".to_string(),
        start_batch_index: 2,
        completed_batches: 5,
        job_id: Some("job-1".to_string()),
        profile_ids: vec!["p".to_string()],
        recoverable: true,
    }
}

#[test]
fn shards_of_one_level_form_a_wave() {
    assert_eq!(build_waves(&[0, 2, 0, 1, 2]), vec![vec![0, 2], vec![3], vec![1, 4]]);
    assert_eq!(build_waves(&[7, 3]), vec![vec![1], vec![0]]);
    assert!(build_waves(&[]).is_empty());
}

#[test]
fn a_wave_begins_when_the_one_before_is_done() {
    let mut run = BatchRun::start(&[1, 0, 1, 0]);
    assert_eq!(run.waiting, vec![1, 3]);
    run.shard_done(3, vec![rewrite(4)]);
    assert_eq!(run.waiting, vec![1]);
    run.shard_done(1, vec![rewrite(2)]);
    assert_eq!(run.waiting, vec![0, 2]);
    assert!(!run.is_finished());
    run.shard_done(0, vec![rewrite(1)]);
    run.shard_done(2, vec![rewrite(3)]);
    assert!(run.is_finished());
    assert!(run.waiting.is_empty());
    assert_eq!(run.outcomes.iter().map(|done| done.0).collect::<Vec<_>>(), vec![3, 1, 0, 2]);
    assert_eq!(
        run.finish().iter().map(|rewrite| rewrite.index).collect::<Vec<_>>(),
        vec![1, 2, 3, 4]
    );
    assert!(BatchRun::<ParsedChapterRewrite>::start(&[]).is_finished());
}

#[test]
fn outcomes_are_put_in_the_order_of_the_shards() {
    let outcomes = vec![
        (2, vec![rewrite(5)]),
        (0, vec![rewrite(1), rewrite(2)]),
        (1, vec![rewrite(3), rewrite(4)]),
    ];
    assert_eq!(
        gather_outcomes(outcomes).iter().map(|rewrite| rewrite.index).collect::<Vec<_>>(),
        vec![1, 2, 3, 4, 5]
    );
    assert!(gather_outcomes(Vec::<(usize, Vec<ParsedChapterRewrite>)>::new()).is_empty());
}

fn state(value: &str) -> RewriteStateUpdate {
    RewriteStateUpdate {
        thread_key: "线".to_string(),
        state_type: "状态".to_string(),
        value: value.to_string(),
        chapter_index: 1,
        source_obligation_ids: Vec::new(),
    }
}

fn plan() -> RewritePlan {
    RewritePlan {
        plan_version: "v".to_string(),
        graph_additions: Vec::new(),
        obligations: vec![RewriteObligation {
            obligation_id: "O-1".to_string(),
            node_id: "N-1".to_string(),
            chapter_index: 1,
            rule_ids: Vec::new(),
            preserve: Vec::new(),
            required_changes: Vec::new(),
            deep_delta_categories: Vec::new(),
            forbidden_regressions: Vec::new(),
            downstream_effects: Vec::new(),
            planned_state_updates: vec![state("乙"), state("丙")],
        }],
        planned_state_updates: vec![state("甲")],
        cross_shard_dependencies: Vec::new(),
    }
}

#[test]
fn states_of_contracts_are_collected() {
    let mut states = vec![state("先")];
    extend_states(&mut states, &plan());
    assert_eq!(
        states.iter().map(|state| state.value.as_str()).collect::<Vec<_>>(),
        vec!["先", "甲", "乙", "丙"]
    );
}

#[test]
fn a_draft_needs_the_contract_it_was_written_under() {
    let draft = || Some(vec![rewrite(1)]);
    assert_eq!(usable_draft(true, draft(), true), draft());
    assert_eq!(usable_draft(true, draft(), false), None);
    assert_eq!(usable_draft(false, draft(), true), None);
    assert_eq!(planning_error("分片", "坏"), "分片：规划失败：坏");
    assert_eq!(shard_error("分片", "坏"), "分片：坏");
    assert_eq!(require_plans(vec![Some(plan())]).expect("a plan").len(), 1);
    assert_eq!(
        require_plans(vec![Some(plan()), None]),
        Err("主角主动重构分片缺少改写契约。".to_string())
    );
}

#[test]
fn a_shard_is_prepared_with_its_neighbours() {
    let chapters = (1..=3).map(chapter).collect::<Vec<_>>();
    let work = build_contiguous_shard_work(&chapters, &chapters[1..2], 1);
    let setting = prepare_shard(&work[0], 0, 2, 1, "第1-3章", &[], "rewrite");
    assert_eq!(setting.label, "第1-3章 · 分片 1/2 · 第2章");
    assert!(setting.readonly_context.contains("前一相邻章节"));
    assert!(setting.readonly_context.contains("后一相邻章节"));
    assert!(setting.context.starts_with("本次目标只包含第2章：第2章。"));
    assert!(setting.context.ends_with(setting.readonly_context.trim()));
}

#[test]
fn pending_chapters_come_from_their_original_texts() {
    let chapters = (1..=3).map(chapter).collect::<Vec<_>>();
    let all = chapters_pending(&chapters, &None);
    assert_eq!(all.len(), 3);
    assert!(all.iter().all(|chapter| chapter.rewrite_text.is_none()));
    let some = chapters_pending(&chapters, &Some(vec!["chapter-2".to_string()]));
    assert_eq!(some.iter().map(|chapter| chapter.index).collect::<Vec<_>>(), vec![1, 3]);
}

#[test]
fn only_analysed_chapters_are_rewritten() {
    let mut chapters = (1..=3).map(chapter).collect::<Vec<_>>();
    chapters[0].original_text = " \n ".to_string();
    chapters[1].analysis_status = "failed".to_string();
    assert_eq!(chapters_with_body(&chapters).len(), 2);
    let ready = chapters_to_rewrite(&chapters).expect("one is ready");
    assert_eq!(ready.iter().map(|chapter| chapter.index).collect::<Vec<_>>(), vec![3]);
    assert_eq!(
        chapters_to_rewrite(&chapters[..2]),
        Err("当前批次没有已完成分析的内容。".to_string())
    );
    assert_eq!(chapters_to_rewrite(&chapters[..1]), Ok(Vec::new()));
}

#[test]
fn staged_outcomes_have_to_be_complete() {
    let chapters = (1..=2).map(chapter).collect::<Vec<_>>();
    let ids = |list: &[i64]| list.iter().map(|i| format!("chapter-{i}")).collect::<Vec<_>>();
    assert_eq!(require_staged_analyses(&chapters, &ids(&[2, 1])), Ok(()));
    assert_eq!(
        require_staged_analyses(&chapters, &ids(&[1])),
        Err("分析分片恢复数据不完整，未写入章节结果。".to_string())
    );
    let staged = |content: Option<&str>| {
        vec![
            (
                "chapter-1".to_string(),
                StagedChapterOutput {
                    title: Some("一".to_string()),
                    content: Some("文".to_string()),
                },
            ),
            (
                "chapter-2".to_string(),
                StagedChapterOutput {
                    title: Some("二".to_string()),
                    content: content.map(str::to_string),
                },
            ),
        ]
    };
    assert_eq!(require_staged_rewrites(&chapters, &staged(Some("文"))), Ok(()));
    assert_eq!(
        require_staged_rewrites(&chapters, &staged(None)),
        Err("改写分片恢复数据不完整，未写入章节结果。".to_string())
    );
    let analyses = vec![
        ParsedChapterAnalysis { id: "chapter-1".to_string(), json: "旧".to_string() },
        ParsedChapterAnalysis { id: "chapter-1".to_string(), json: "新".to_string() },
    ];
    assert_eq!(staged_analysis(&analyses, "chapter-1").as_deref(), Some("新"));
    assert_eq!(staged_analysis(&analyses, "chapter-2"), None);
}

#[test]
fn a_run_is_begun_once_and_taken_up_where_it_was() {
    let started = prepare_auto_run(&None, vec!["q".to_string()], 4).expect("fresh");
    assert_eq!((started.start_batch_index, started.completed_batches), (4, 4));
    assert_eq!(started.status, "running");
    assert_eq!(started.pause_kind, "");
    assert_eq!(started.job_id, None);
    let resumed = prepare_auto_run(&Some(control("paused")), Vec::new(), 0).expect("resumed");
    assert_eq!((resumed.start_batch_index, resumed.completed_batches), (2, 5));
    let again = prepare_auto_run(&Some(control("terminating")), Vec::new(), 1).expect("fresh");
    assert_eq!((again.start_batch_index, again.completed_batches), (1, 1));
    for status in ["running", "pause_requested"] {
        match prepare_auto_run(&Some(control(status)), Vec::new(), 0) {
            Err(message) => {
                assert_eq!(message, "一键分析改写正在运行，请先暂停或终止当前任务。")
            }
            Ok(_) => panic!("the run is under way"),
        }
    }
    let registered = register_auto_run_job(Some(control("paused")), "job-2", 6, 3);
    assert_eq!(registered.status, "running");
    assert_eq!(registered.pause_kind, "");
    assert_eq!(registered.job_id.as_deref(), Some("job-2"));
    assert_eq!(registered.profile_ids, vec!["p".to_string()]);
    assert!(register_auto_run_job(None, "job-2", 6, 3).profile_ids.is_empty());
}

#[test]
fn wishes_to_stop_are_heeded() {
    assert_eq!(requested_auto_run_stop(&None), None);
    assert_eq!(requested_auto_run_stop(&Some(control("running"))), None);
    assert_eq!(
        requested_auto_run_stop(&Some(control("pause_requested"))).as_deref(),
        Some(AUTO_RUN_PAUSED)
    );
    assert_eq!(
        requested_auto_run_stop(&Some(control("terminate_requested"))).as_deref(),
        Some(AUTO_RUN_TERMINATED)
    );
    let mut run = control("running");
    let request = request_auto_run_stop(&mut run, "pause_requested").expect("a job");
    assert_eq!(run.status, "pause_requested");
    assert_eq!(run.pause_kind, "user");
    assert_eq!(request.job_status, "pausing");
    assert_eq!(request.current, 3);
    assert!(!request.forget);
    assert_eq!(
        request.message,
        "正在暂停一键分析改写，已完成分片会保留，继续时仅处理未完成分片。"
    );
    let mut run = control("paused");
    let request = request_auto_run_stop(&mut run, "pause_requested").expect("a job");
    assert_eq!(run.status, "paused");
    assert_eq!(request.job_status, "paused");
    let request = request_auto_run_stop(&mut run, "terminate_requested").expect("a job");
    assert!(request.forget);
    assert_eq!(request.job_status, "terminated");
    assert_eq!(request.message, "一键分析改写已终止。下次点击将从头开始新的执行。");
    let mut run = control("running");
    let request = request_auto_run_stop(&mut run, "terminate_requested").expect("a job");
    assert_eq!(request.job_status, "terminating");
    assert_eq!(run.pause_kind, "network");
    run.job_id = None;
    match request_auto_run_stop(&mut run, "pause_requested") {
        Err(message) => assert_eq!(message, "当前一键任务尚未创建进度记录。"),
        Ok(_) => panic!("there is no job"),
    }
    assert_eq!(run.pause_kind, "user");
}

#[test]
fn pauses_say_why_and_where_the_run_goes_on() {
    assert_eq!(
        pause_message(PauseReason::User, 4, "x"),
        "一键分析改写已暂停。继续后将处理第 5 批的未完成分片。"
    );
    assert!(pause_message(PauseReason::Network, 0, "断网")
        .ends_with("将继续处理第 1 批的未完成分片。\n\n断网"));
    assert!(pause_message(PauseReason::RateLimit, 0, "429").starts_with("服务商限流重试已耗尽"));
    assert!(pause_message(PauseReason::TemporaryGateway, 0, "502").contains("反向代理暂时不可用"));
    assert!(pause_message(PauseReason::ModelFormat, 0, "坏").contains("可以点击继续处理第 1 批"));
    assert!(pause_message(PauseReason::ContentFilter, 0, "拦截").contains("将从第 1 批的未完成分片恢复。\n\n拦截"));
    assert!(pause_message(
        PauseReason::QualityGate,
        0,
        "__YURI_QUALITY_GATE__:__YURI_QUALITY_GATE__:分片"
    )
    .ends_with("请终止暂停点并启动新任务。\n\n分片"));
    assert_eq!(pause_kind(PauseReason::QualityGate), "quality_gate");
    assert_eq!(pause_kind(PauseReason::TemporaryGateway), "temporary_gateway");
    let mut run = control("running");
    pause_auto_run(&mut run, PauseReason::RateLimit, 7, "job-9");
    assert_eq!((run.status.as_str(), run.pause_kind.as_str()), ("paused", "rate_limit"));
    assert_eq!((run.completed_batches, run.start_batch_index), (7, 2));
    assert_eq!(run.job_id.as_deref(), Some("job-9"));
    assert!(run.recoverable);
    stop_keeping(&mut run);
    assert!(!run.recoverable);
    assert!(stopped_run_is_over(AUTO_RUN_TERMINATED));
    assert!(!stopped_run_is_over(AUTO_RUN_PAUSED));
}

#[test]
fn chapters_fail_only_with_errors_of_their_own() {
    assert!(marks_chapters_failed("HTTP 400", false));
    assert!(!marks_chapters_failed("HTTP 400", true));
    assert!(!marks_chapters_failed(AUTO_RUN_PAUSED, false));
    assert!(!marks_chapters_failed(AUTO_RUN_TERMINATED, false));
    assert!(!marks_chapters_failed("分片：__YURI_QUALITY_GATE__:未通过", false));
}

fn job() -> Job {
    Job {
        id: "job-1".to_string(),
        novel_id: "novel-1".to_string(),
        job_type: "auto".to_string(),
        status: "running".to_string(),
        current_chapter: 0,
        total_chapters: 3,
        message: String::new(),
        created_at: "now".to_string(),
        updated_at: "now".to_string(),
    }
}

#[test]
fn progress_follows_the_shards() {
    let chapters = (1..=5).map(chapter).collect::<Vec<_>>();
    let begun = AutoRunProgressState::begin_job("job-1", "analysis", "第1-5章");
    assert!(begun.belongs_to("job-1"));
    assert!(!begun.belongs_to("job-2"));
    let mut state = AutoRunProgressState::set_shard_total(
        Some(begun),
        None,
        "rewrite",
        3,
        5,
        vec!["chapter-9".to_string()],
    )
    .expect("a state");
    state.report_shard_started("rewrite", 2, 3, &chapters[4..]);
    state.report_shard_started("rewrite", 0, 3, &chapters[..2]);
    state.report_shard_started("rewrite", 1, 3, &[]);
    state.report_shard_phase(0, "review");
    state.report_shard_phase_for_chapters(&chapters[4..], "revision");
    let shown = runtime_progress(&state, &None, &job());
    assert_eq!(shown.message, "第 1/1 批 · 修复 · 章节已完成 1/5 · 分片已完成 0/3");
    let shards = shown.active_shards.expect("shards");
    assert_eq!(shards.len(), 2);
    assert_eq!((shards[0].index, shards[0].phase.as_str()), (1, "review"));
    assert_eq!((shards[0].start_chapter, shards[0].end_chapter), (1, 2));
    assert_eq!((shards[1].index, shards[1].phase.as_str()), (3, "revision"));
    state.report_shard_completed(0, &chapters[..2]);
    state.report_shard_completed(0, &chapters[..2]);
    let shown = runtime_progress(&state, &None, &job());
    assert_eq!(shown.chapter_completed, Some(3));
    assert_eq!(shown.shard_completed, Some(1));
    assert_eq!(shown.current_chapter, 3);
    assert_eq!(shown.active_shards.expect("shards").len(), 1);
    let shown = runtime_progress(&state, &Some(control("running")), &job());
    assert_eq!(shown.current_chapter, 3);
    assert_eq!(shown.editable_before_batch_index, Some(5));
}

#[test]
fn progress_without_a_job_is_not_begun() {
    assert!(AutoRunProgressState::set_shard_total(None, None, "rewrite", 1, 1, Vec::new()).is_none());
    let state = AutoRunProgressState::set_shard_total(
        None,
        Some("job-3".to_string()),
        "rewrite",
        1,
        1,
        Vec::new(),
    )
    .expect("a state");
    assert_eq!(progress_job_id(&state, &None).as_deref(), Some("job-3"));
    let none = AutoRunProgressState::new();
    assert_eq!(progress_job_id(&none, &Some(control("running"))).as_deref(), Some("job-1"));
    assert_eq!(progress_job_id(&none, &None), None);
    let shown = runtime_progress(&none, &None, &job());
    assert_eq!(shown.message, "第 0/3 批 · 改写");
    let batch =
        AutoRunProgressState::begin_auto_batch(None, "export", 2, 9, "第2批");
    assert_eq!(runtime_progress(&batch, &None, &job()).message, "第 2/9 批 · 导出");
    let plain = plain_progress(&job(), "paused", 2, "已暂停");
    assert_eq!((plain.status.as_str(), plain.current_chapter), ("paused", 2));
    assert!(plain.active_shards.is_none());
}

#[test]
fn phases_have_names_and_columns() {
    assert_eq!(phase_label("planning"), "规划");
    assert_eq!(phase_label("final_review"), "终审");
    assert_eq!(phase_label("其他"), "处理中");
    assert_eq!(phase_status_column("analysis"), Ok("analysis_status"));
    assert_eq!(phase_status_column("rewrite"), Ok("rewrite_status"));
    assert_eq!(phase_status_column("export"), Err("不支持的独立任务阶段：export".to_string()));
    assert_eq!(unfinished_failure("坏", &[]), None);
    assert_eq!(
        unfinished_failure("坏", &["甲".to_string(), "乙".to_string()]).as_deref(),
        Some("坏；任务失败收尾不完整：甲；乙")
    );
}

#[test]
fn chapters_are_put_into_batches() {
    let chapters = (1..=5).map(chapter).collect::<Vec<_>>();
    let batches = plan_chapter_batches(&chapters, true, 2);
    assert_eq!(batches.len(), 3);
    assert_eq!(batches[0].label, "1-2章");
    assert_eq!(batches[2].label, "5-5章");
    assert_eq!(batches[1].file_name, "batch-002.txt");
    assert_eq!(batches[0].body, "第1章\n\n原文\n\n第2章\n\n原文");
    assert_eq!((batches[1].start_chapter, batches[1].end_chapter), (3, 4));
    let single = plan_chapter_batches(&chapters, false, 2);
    assert_eq!(single.len(), 5);
    assert_eq!(single[3].label, "第4批（约10万字）");
    assert_eq!(single[3].batch_index, 4);
    assert_eq!(plan_chapter_batches(&chapters, false, 0), single);
    let many = (1..=100).map(chapter).collect::<Vec<_>>();
    let batches = plan_chapter_batches(&many, true, 1);
    assert_eq!(batches[9].file_name, "batch-010.txt");
    assert_eq!(batches[99].file_name, "batch-100.txt");
}

#[test]
fn a_window_is_restored_where_it_can_be_seen() {
    let at = |x: i32, y: i32, width: u32, height: u32| WindowStateBounds { x, y, width, height };
    let monitor = at(0, 0, 1920, 1080);
    assert!(rectangles_intersect(monitor, at(1919, 1079, 10, 10)));
    assert!(!rectangles_intersect(monitor, at(1920, 0, 10, 10)));
    assert!(!rectangles_intersect(at(-10, 0, 10, 10), monitor));
    assert!(window_state_intersects_any_monitor(at(i32::MAX, 0, u32::MAX, 5), &[monitor, at(i32::MAX, 4, 1, 1)]));
    assert!(!window_state_intersects_any_monitor(monitor, &[]));
    let state = |x: i32, width: u32, height: u32| StoredWindowState { x, y: 0, width, height };
    assert!(stored_window_state_is_reasonable(&state(0, 1040, 700)));
    assert!(!stored_window_state_is_reasonable(&state(0, 1039, 700)));
    assert!(!stored_window_state_is_reasonable(&state(0, 1040, 20001)));
    assert!(can_restore_window(&state(5000, 1040, 700), &[]));
    assert!(!can_restore_window(&state(5000, 1040, 700), &[monitor]));
    assert!(can_restore_window(&state(1000, 1040, 700), &[monitor]));
}
