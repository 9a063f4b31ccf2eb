//! Running tasks and automatic runs.
use yuri_rewrite::task_control::{
    auto_runs_are_only_paused, auto_runs_have_non_paused, should_clean_up, should_hold_paused_run,
    should_terminate_paused_run, ActiveTaskRegistry, AutoRunControl, CancellableTasks,
};

fn control(status: &str, pause_kind: &str, completed_batches: i64) -> AutoRunControl {
    AutoRunControl {
        status: status.to_string(),
        pause_kind: pause_kind.to_string(),
        start_batch_index: 0,
        completed_batches,
        job_id: None,
        profile_ids: Vec::new(),
        recoverable: true,
    }
}

#[test]
fn active_task_permit_blocks_duplicates_and_releases_on_drop() {
    let mut registry = ActiveTaskRegistry::new();
    let permit = registry
        .acquire("novel-1", vec!["profile-1".to_string()], "分析")
        .expect("first task");
    assert!(registry.acquire("novel-1", vec!["profile-2".to_string()], "改写").is_err());
    assert!(registry.novel_is_active("novel-1"), "active novel");
    assert_eq!(
        registry.novel_active_job_type("novel-1").as_deref(),
        Some("分析"),
        "active job type"
    );
    assert!(registry.profile_is_active("profile-1"), "active profile");
    assert!(registry.any_active());
    registry.release(permit);
    assert!(!registry.novel_is_active("novel-1"), "released novel");
    assert!(registry.novel_active_job_type("novel-1").is_none(), "released job type");
    assert!(!registry.profile_is_active("profile-1"));
    assert!(!registry.any_active());
}

#[test]
fn a_second_task_is_told_which_task_runs() {
    let mut registry = ActiveTaskRegistry::new();
    registry.acquire("n", Vec::new(), "分析").expect("first task");
    registry.acquire("m", vec!["p".to_string(), "q".to_string()], "改写").expect("other novel");
    match registry.acquire("m", Vec::new(), "导出") {
        Ok(_) => panic!("the novel is busy"),
        Err(message) => assert_eq!(
            message,
            "《当前小说》已有改写任务正在运行，请等待任务结束或先终止任务。"
        ),
    }
    assert!(registry.profile_is_active("q"));
    assert!(!registry.profile_is_active("r"));
}

#[test]
fn distinguishes_paused_auto_runs_from_running_auto_runs() {
    let mut runs = vec![("novel-1".to_string(), control("paused", "user", 1))];
    let list = |runs: &[(String, AutoRunControl)]| {
        runs.iter()
            .map(|(_, c)| control(&c.status, &c.pause_kind, c.completed_batches))
            .collect::<Vec<_>>()
    };
    assert!(!auto_runs_have_non_paused(&list(&runs)), "paused only");
    assert!(auto_runs_are_only_paused(&list(&runs)), "paused only");

    runs.push(("novel-2".to_string(), control("running", "", 0)));
    assert!(auto_runs_have_non_paused(&list(&runs)), "has running");
    assert!(!auto_runs_are_only_paused(&list(&runs)), "has running");
    assert!(!auto_runs_have_non_paused(&[]));
    assert!(!auto_runs_are_only_paused(&[]));
}

#[test]
fn only_a_paused_run_is_kept() {
    assert!(should_clean_up(None));
    assert!(should_clean_up(Some(&control("running", "", 0))));
    assert!(!should_clean_up(Some(&control("paused", "user", 0))));
}


#[test]
fn terminating_a_paused_run_must_finish_immediately() {
    assert!(should_terminate_paused_run("paused", "terminate_requested"));
    assert!(!should_terminate_paused_run(
        "running",
        "terminate_requested"
    ));
    assert!(!should_terminate_paused_run("paused", "pause_requested"));
    assert!(should_hold_paused_run("paused", "pause_requested"));
    assert!(!should_hold_paused_run("running", "pause_requested"));
    assert!(!should_hold_paused_run("paused", "terminate_requested"));
}

#[test]
fn a_cancelled_task_is_told_to_stop() {
    let mut tasks = CancellableTasks::new();
    assert!(!tasks.any_active());
    assert!(tasks.register("novel-1").is_ok());
    assert_eq!(tasks.register("novel-1"), Err("当前小说已有可终止任务正在运行。".to_string()));
    assert!(!tasks.is_cancelled("novel-1"));
    assert!(tasks.cancel("novel-1"));
    assert!(tasks.is_cancelled("novel-1"));
    tasks.release("novel-1");
    assert!(!tasks.cancel("novel-1"));
    assert!(tasks.register("novel-1").is_ok());
    assert!(!tasks.is_cancelled("novel-1"));
    assert!(tasks.any_active());
}
