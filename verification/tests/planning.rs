//! Contracts, their fingerprints, and when they are used again.
use yuri_rewrite::contracts::{
    bound_rewrite_run, choose_rewrite_run, matching_contract, reusable_record_matches, Checkpoint,
    ContractRecord, ContractWish, RunChoice,
};
use yuri_rewrite::domain::{
    Chapter, ModelProfile, NovelSettings, RewriteObligation, RewritePlan, RewriteStateUpdate,
};
use yuri_rewrite::planning::{
    count_obligations_for_chapter, fingerprint_payload, normalize_planned_state_identity,
    plan_fingerprint, plan_step, structured_repair_profile, PlanNext, PlanReply, PlanStage,
};

const RULE_PACK_VERSION: &str = "protagonist-graph-v2.2";

fn chapter() -> Chapter {
    Chapter {
        id: "chapter-1".to_string(),
        novel_id: "novel-1".to_string(),
        index: 1,
        title: "第一章".to_string(),
        original_text: "原文".to_string(),
        analysis_json: None,
        rewrite_text: None,
        rewrite_edited: false,
        single_rewrite_original_available: false,
        analysis_status: "completed".to_string(),
        rewrite_status: "pending".to_string(),
        rewrite_validation_status: "unvalidated".to_string(),
        rewrite_obligation_total: 0,
        rewrite_obligation_satisfied: 0,
    }
}

fn settings() -> NovelSettings {
    NovelSettings {
        novel_id: "novel-1".to_string(),
        protagonist_name: "萧炎".to_string(),
        protagonist_aliases: String::new(),
        rewritten_protagonist_name: "萧妍".to_string(),
        additional_feminize_names: String::new(),
        bust: "普通".to_string(),
        body_type: "少女".to_string(),
        rewrite_mode: "strict".to_string(),
        advanced_settings: String::new(),
        relationship_targets: "[]".to_string(),
        updated_at: "now".to_string(),
    }
}

fn profile() -> ModelProfile {
    ModelProfile {
        id: "profile-1".to_string(),
        name: "模型".to_string(),
        provider: "openai".to_string(),
        base_url: "https://example.invalid".to_string(),
        model: "model-a".to_string(),
        temperature_bits: 0.7_f64.to_bits(),
        top_p_bits: 1.0_f64.to_bits(),
        thinking_mode: "off".to_string(),
        prompt_obfuscation_enabled: false,
        has_api_key: false,
        api_key_storage: "none".to_string(),
        updated_at: "now".to_string(),
    }
}

#[test]
fn structured_repair_disables_thinking_without_mutating_saved_profile() {
    let mut saved = profile();
    saved.thinking_mode = "auto".to_string();

    let effective = structured_repair_profile(&saved);

    assert_eq!(effective.thinking_mode, "off");
    assert_eq!(effective.id, saved.id);
    assert_eq!(effective.model, saved.model);
    assert_eq!(saved.thinking_mode, "auto");
}

#[test]
fn planned_state_values_use_target_identity_but_keep_stable_thread_keys() {
    let state = RewriteStateUpdate {
        thread_key: "许纸与吉尔伽美什关系线".to_string(),
        state_type: "照顾关系".to_string(),
        value: "陈熙每日为患癌的许纸送饭".to_string(),
        chapter_index: 7,
        source_obligation_ids: vec!["O-1".to_string()],
    };
    let mut plan = RewritePlan {
        plan_version: "protagonist-graph-v1".to_string(),
        graph_additions: Vec::new(),
        obligations: vec![RewriteObligation {
            obligation_id: "O-1".to_string(),
            node_id: "N-1".to_string(),
            chapter_index: 7,
            rule_ids: Vec::new(),
            preserve: Vec::new(),
            required_changes: Vec::new(),
            deep_delta_categories: Vec::new(),
            forbidden_regressions: Vec::new(),
            downstream_effects: Vec::new(),
            planned_state_updates: vec![state.clone()],
        }],
        planned_state_updates: vec![state],
        cross_shard_dependencies: Vec::new(),
    };
    let mut settings = settings();
    settings.protagonist_name = "许纸".to_string();
    settings.rewritten_protagonist_name = "白纸".to_string();

    normalize_planned_state_identity(&mut plan, &settings);

    assert_eq!(plan.planned_state_updates[0].thread_key, "许纸与吉尔伽美什关系线");
    assert_eq!(plan.planned_state_updates[0].value, "陈熙每日为患癌的白纸送饭");
    assert_eq!(
        plan.obligations[0].planned_state_updates[0].value,
        "陈熙每日为患癌的白纸送饭"
    );
}

#[test]
fn fingerprint_changes_for_every_contract_input_class() {
    let chapter = chapter();
    let settings = settings();
    let profile = profile();
    let base = plan_fingerprint(
        std::slice::from_ref(&chapter),
        "graph-a",
        "state-a",
        &settings,
        "style-a",
        &profile,
            RULE_PACK_VERSION,
    );
    let changed = [
        plan_fingerprint(
            std::slice::from_ref(&chapter),
            "graph-b",
            "state-a",
            &settings,
            "style-a",
            &profile,
            RULE_PACK_VERSION,
        ),
        plan_fingerprint(
            std::slice::from_ref(&chapter),
            "graph-a",
            "state-b",
            &settings,
            "style-a",
            &profile,
            RULE_PACK_VERSION,
        ),
        plan_fingerprint(
            std::slice::from_ref(&chapter),
            "graph-a",
            "state-a",
            &settings,
            "style-b",
            &profile,
            RULE_PACK_VERSION,
        ),
        {
            let mut settings = settings.clone();
            settings.body_type = "高挑".to_string();
            plan_fingerprint(
                std::slice::from_ref(&chapter),
                "graph-a",
                "state-a",
                &settings,
                "style-a",
                &profile,
            RULE_PACK_VERSION,
            )
        },
        {
            let mut profile = profile.clone();
            profile.model = "model-b".to_string();
            plan_fingerprint(
                std::slice::from_ref(&chapter),
                "graph-a",
                "state-a",
                &settings,
                "style-a",
                &profile,
            RULE_PACK_VERSION,
            )
        },
        {
            let mut chapter = chapter.clone();
            chapter.original_text = "变更原文".to_string();
            plan_fingerprint(
                std::slice::from_ref(&chapter),
                "graph-a",
                "state-a",
                &settings,
                "style-a",
                &profile,
            RULE_PACK_VERSION,
            )
        },
    ];
    assert!(changed.iter().all(|fingerprint| fingerprint != &base));
}

#[test]
fn reuse_requires_matching_batch_fingerprint_and_rule_pack() {
    assert!(reusable_record_matches(
        "failed",
        RULE_PACK_VERSION,
        "fp",
        Some(3),
        "fp",
        3,
        RULE_PACK_VERSION,
    ));
    assert!(!reusable_record_matches(
        "failed",
        RULE_PACK_VERSION,
        "old",
        Some(3),
        "new",
        3,
        RULE_PACK_VERSION,
    ));
    assert!(!reusable_record_matches(
        "failed",
        RULE_PACK_VERSION,
        "fp",
        Some(2),
        "fp",
        3,
        RULE_PACK_VERSION,
    ));
    assert!(!reusable_record_matches(
        "stale",
        RULE_PACK_VERSION,
        "fp",
        Some(3),
        "fp",
        3,
        RULE_PACK_VERSION,
    ));
}

#[test]
fn fingerprint_is_the_digest_of_all_inputs() {
    let chapters = vec![chapter()];
    let payload = fingerprint_payload(
        &chapters,
        "graph-a",
        "state-a",
        &settings(),
        "style-a",
        &profile(),
        RULE_PACK_VERSION,
    );
    assert_eq!(
        payload,
        "1\n第一章\n原文\nCURRENT_DRAFT:\ngraph-a\nstate-a\n萧炎||萧妍||普通|少女|strict||[]\nstyle-a\nprotagonist-graph-v2.2\nprofile-1\nmodel-a"
    );
    let fingerprint = plan_fingerprint(
        &chapters,
        "graph-a",
        "state-a",
        &settings(),
        "style-a",
        &profile(),
        RULE_PACK_VERSION,
    );
    assert_eq!(fingerprint, "a4237b157e12e02cdbf16048850eb29cb1da54d886dde4c0657ec9e9e6a7c7d2");
}

fn empty_plan() -> RewritePlan {
    RewritePlan {
        plan_version: RULE_PACK_VERSION.to_string(),
        graph_additions: Vec::new(),
        obligations: Vec::new(),
        planned_state_updates: Vec::new(),
        cross_shard_dependencies: Vec::new(),
    }
}

fn state(value: &str) -> RewriteStateUpdate {
    RewriteStateUpdate {
        thread_key: "线".to_string(),
        state_type: "状态".to_string(),
        value: value.to_string(),
        chapter_index: 1,
        source_obligation_ids: Vec::new(),
    }
}

#[test]
fn longer_names_give_way_first() {
    let mut plan = empty_plan();
    plan.planned_state_updates = vec![state("小许纸与许纸、萧妍")];
    let mut settings = settings();
    settings.protagonist_name = "许纸".to_string();
    settings.protagonist_aliases = " 小许纸 ，许纸;萧妍".to_string();
    normalize_planned_state_identity(&mut plan, &settings);
    assert_eq!(plan.planned_state_updates[0].value, "萧妍与萧妍、萧妍");

    let mut plan = empty_plan();
    plan.planned_state_updates = vec![state("许纸")];
    settings.rewritten_protagonist_name = "  ".to_string();
    normalize_planned_state_identity(&mut plan, &settings);
    assert_eq!(plan.planned_state_updates[0].value, "许纸");
}

#[test]
fn a_plan_is_repaired_twice_at_the_most() {
    let invalid = |error: &str| PlanReply::Invalid {
        error: error.to_string(),
        output: "旧输出".to_string(),
    };
    match plan_step(PlanStage::First, invalid("缺少节点"), "要求", &settings()) {
        PlanNext::Ask { prompt, stage } => {
            assert_eq!(stage, PlanStage::Repair);
            assert_eq!(
                prompt,
                "规划输出校验失败：缺少节点\n\n请依据原始规划要求修复下列输出。不得删除节点义务，不得伪造原文证据。\n\n原始规划要求：\n要求\n\n待修复输出：\n旧输出"
            );
        }
        PlanNext::Finished(_) => panic!("a first fault is repaired"),
    }
    match plan_step(PlanStage::Repair, invalid("模式错误"), "要求", &settings()) {
        PlanNext::Ask { prompt, stage } => {
            assert_eq!(stage, PlanStage::SecondRepair);
            assert!(prompt.starts_with("上一次修复仍未通过确定性校验：模式错误\n\n请只修复这个错误"));
            assert!(prompt.ends_with("原始规划要求：\n要求\n\n上一次修复输出：\n旧输出"));
        }
        PlanNext::Finished(_) => panic!("a second fault is repaired"),
    }
    match plan_step(PlanStage::SecondRepair, invalid("仍然错误"), "要求", &settings()) {
        PlanNext::Finished(Err(message)) => assert_eq!(message, "仍然错误"),
        _ => panic!("a third fault ends the planning"),
    }
    match plan_step(PlanStage::Repair, PlanReply::Failed("断网".to_string()), "要求", &settings()) {
        PlanNext::Finished(Err(message)) => assert_eq!(message, "断网"),
        _ => panic!("a failed call ends the planning"),
    }
    let mut plan = empty_plan();
    plan.planned_state_updates = vec![state("萧炎入学")];
    match plan_step(PlanStage::First, PlanReply::Planned(plan), "要求", &settings()) {
        PlanNext::Finished(Ok(plan)) => {
            assert_eq!(plan.planned_state_updates[0].value, "萧妍入学")
        }
        _ => panic!("a valid plan ends the planning"),
    }
}

fn record(status: &str, run_id: &str, contract: &str) -> Option<ContractRecord> {
    Some(ContractRecord {
        contract_json: contract.to_string(),
        status: status.to_string(),
        rule_pack_version: RULE_PACK_VERSION.to_string(),
        fingerprint: "fp".to_string(),
        batch_index: Some(3),
        run_id: run_id.to_string(),
    })
}

fn contract_wish(fingerprint: &str) -> ContractWish {
    ContractWish {
        fingerprint: fingerprint.to_string(),
        batch_index: 3,
        run_id: "run-1".to_string(),
        rule_pack_version: RULE_PACK_VERSION.to_string(),
    }
}

#[test]
fn a_contract_is_used_again_only_where_all_chapters_have_it() {
    let wish = contract_wish("fp");
    let both = vec![record("failed", "run-1", "{}"), record("planned", "run-1", "{}")];
    assert_eq!(matching_contract(&both, &wish).as_deref(), Some("{}"));
    assert_eq!(matching_contract(&both, &contract_wish("other")), None);
    let other_run = vec![record("failed", "run-1", "{}"), record("failed", "run-2", "{}")];
    assert_eq!(matching_contract(&other_run, &wish), None);
    let other_text = vec![record("failed", "run-1", "{}"), record("failed", "run-1", "[]")];
    assert_eq!(matching_contract(&other_text, &wish), None);
    let missing = vec![record("failed", "run-1", "{}"), None];
    assert_eq!(matching_contract(&missing, &wish), None);
    let passed = vec![record("passed", "run-1", "{}")];
    assert_eq!(matching_contract(&passed, &wish), None);
    assert_eq!(matching_contract(&[], &wish), None);
}

#[test]
fn a_batch_resumes_the_run_of_its_checkpoint() {
    let kept = |run_id: Option<&str>, batch_index: Option<i64>| {
        Some(Checkpoint { rewrite_run_id: run_id.map(str::to_string), batch_index })
    };
    assert!(matches!(choose_rewrite_run(None, None), Ok(RunChoice::Fresh)));
    match choose_rewrite_run(Some(2), None) {
        Err(message) => assert_eq!(message, "当前一键任务缺少恢复检查点。"),
        Ok(_) => panic!("a batch needs a checkpoint"),
    }
    match choose_rewrite_run(Some(2), kept(Some("run-1"), Some(3))) {
        Err(message) => assert_eq!(message, "恢复检查点批次不一致：期望 2，实际 Some(3)。"),
        Ok(_) => panic!("the batches differ"),
    }
    match choose_rewrite_run(Some(-2), kept(None, None)) {
        Err(message) => assert_eq!(message, "恢复检查点批次不一致：期望 -2，实际 None。"),
        Ok(_) => panic!("the batches differ"),
    }
    match choose_rewrite_run(Some(2), kept(Some("run-1"), Some(2))) {
        Ok(RunChoice::Resume(run_id)) => assert_eq!(run_id, "run-1"),
        _ => panic!("the run goes on"),
    }
    assert!(matches!(choose_rewrite_run(Some(2), kept(Some(" "), Some(2))), Ok(RunChoice::Bind)));
    assert!(matches!(choose_rewrite_run(Some(2), kept(None, Some(2))), Ok(RunChoice::Bind)));
    assert_eq!(bound_rewrite_run("run-2".to_string(), 1), Ok("run-2".to_string()));
    assert_eq!(
        bound_rewrite_run("run-2".to_string(), 0),
        Err("无法绑定当前改写运行与恢复检查点。".to_string())
    );
}

#[test]
fn obligations_are_counted_by_chapter() {
    let obligation = |chapter_index: i64| RewriteObligation {
        obligation_id: format!("O-{chapter_index}"),
        node_id: "N".to_string(),
        chapter_index,
        rule_ids: Vec::new(),
        preserve: Vec::new(),
        required_changes: Vec::new(),
        deep_delta_categories: Vec::new(),
        forbidden_regressions: Vec::new(),
        downstream_effects: Vec::new(),
        planned_state_updates: Vec::new(),
    };
    let mut plan = empty_plan();
    plan.obligations = vec![obligation(1), obligation(2), obligation(1)];
    assert_eq!(count_obligations_for_chapter(&plan, 1), 2);
    assert_eq!(count_obligations_for_chapter(&plan, 3), 0);
}
