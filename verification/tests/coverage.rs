//! Evidence for obligations, when coverage suffices, and the states of threads.
use yuri_rewrite::coverage::{
    canonical_planned_state_updates, coverage_gate_passes, evidence_exists_in_rewrite,
    merge_continuity_states, obligation_fix_summary,
};
use yuri_rewrite::decision::parse_rewrite_review_decision_output;
use yuri_rewrite::domain::{
    NovelSettings, ParsedChapterRewrite, ReviewCoverageItem, RewriteObligation, RewritePlan,
    RewriteStateUpdate,
};

fn settings() -> NovelSettings {
    NovelSettings {
        novel_id: "novel-1".to_string(),
        protagonist_name: "许纸".to_string(),
        protagonist_aliases: String::new(),
        rewritten_protagonist_name: "白纸".to_string(),
        additional_feminize_names: String::new(),
        bust: "普通".to_string(),
        body_type: "少女".to_string(),
        rewrite_mode: "strict".to_string(),
        advanced_settings: String::new(),
        relationship_targets: "[]".to_string(),
        updated_at: "now".to_string(),
    }
}

/// The coverage in the text of a review.
fn coverage_of(output: &str) -> Result<Vec<ReviewCoverageItem>, String> {
    let value: serde_json::Value = serde_json::from_str(output).map_err(|e| e.to_string())?;
    let items = value["coverage"].as_array().cloned().unwrap_or_default();
    Ok(items
        .iter()
        .map(|item| ReviewCoverageItem {
            obligation_id: item["obligation_id"].as_str().unwrap_or("").to_string(),
            status: item["status"].as_str().unwrap_or("").to_string(),
            chapter_indexes: item["chapter_indexes"]
                .as_array()
                .map(|list| list.iter().filter_map(|x| x.as_i64()).collect())
                .unwrap_or_default(),
            evidence: item["evidence"].as_str().unwrap_or("").to_string(),
        })
        .collect())
}

#[test]
fn coverage_evidence_accepts_a_real_fragment_majority_but_not_half_fabrication() {
    let rewrites = vec![ParsedChapterRewrite {
        id: "chapter-3".to_string(),
        index: 3,
        title: "第三章".to_string(),
        text: "她手掌轻轻拢了拢稀少的头发。中间还有一段叙述。大叔看着这姑娘病恹恹的样子，也不好意思靠太近。".to_string(),
    }];
    let mut item = ReviewCoverageItem {
        obligation_id: "O-1".to_string(),
        status: "satisfied".to_string(),
        chapter_indexes: vec![3],
        evidence: "她手掌轻轻拢了拢稀少的头发 大叔看着这姑娘病恹恹的样子，也不好意思靠太近!".to_string(),
    };

    assert!(evidence_exists_in_rewrite(&item, &rewrites));

    item.evidence.push_str("；管理员主动送给她一份礼物");
    assert!(evidence_exists_in_rewrite(&item, &rewrites));

    item.evidence.push_str("；管理员又主动替她安排了住处");
    assert!(!evidence_exists_in_rewrite(&item, &rewrites));
}

#[test]
fn coverage_evidence_accepts_two_thirds_exact_quotes_and_rejects_a_weak_match() {
    let rewrites = vec![ParsedChapterRewrite {
        id: "chapter-5".to_string(),
        index: 5,
        title: "第五章".to_string(),
        text: "她说：‘她是女神！’随后俯下身，长发如瀑布般垂落。".to_string(),
    }];
    let mut item = ReviewCoverageItem {
        obligation_id: "O-1".to_string(),
        status: "satisfied".to_string(),
        chapter_indexes: vec![5],
        evidence: "虫猿：‘她是女神！’；旁白：‘俯下身，长发如瀑布般垂落’；概括：‘不存在的第三段证据’"
            .to_string(),
    };

    assert!(evidence_exists_in_rewrite(&item, &rewrites));

    item.evidence = "虫猿：‘她是女神！’；概括：‘不存在的第二段证据’；概括：‘不存在的第三段证据’"
        .to_string();
    assert!(!evidence_exists_in_rewrite(&item, &rewrites));
}

#[test]
fn coverage_evidence_splits_unquoted_ellipsis_separated_excerpts() {
    let rewrites = vec![ParsedChapterRewrite {
        id: "chapter-3".to_string(),
        index: 3,
        title: "第三章".to_string(),
        text: "大叔眼里涌出不加掩饰的心疼和怜悯。姑娘，你身体不好可别省着。她笑得像是个脸色苍白却带着狡黠的少女。".to_string(),
    }];
    let item = ReviewCoverageItem {
        obligation_id: "O-1".to_string(),
        status: "satisfied".to_string(),
        chapter_indexes: vec![3],
        evidence: "眼里涌出不加掩饰的心疼和怜悯……姑娘，你身体不好可别省着……笑得像是个脸色苍白却带着狡黠的少女".to_string(),
    };

    assert!(evidence_exists_in_rewrite(&item, &rewrites));
}

#[test]
fn coverage_evidence_tolerates_one_character_transcription_drift() {
    let rewrites = vec![ParsedChapterRewrite {
        id: "chapter-1".to_string(),
        index: 1,
        title: "第一章".to_string(),
        text: "她吃力地拖着行李箱一路上气不接下气，细瘦的手臂几乎拽不动轮子。用清秀的字迹记录进程。".to_string(),
    }];
    let item = ReviewCoverageItem {
        obligation_id: "O-1".to_string(),
        status: "satisfied".to_string(),
        chapter_indexes: vec![1],
        evidence: "吃力地拖着行李箱一路上气不接上气，细瘦的手臂几乎拽不动轮子；她用清秀的字迹记录进程".to_string(),
    };

    assert!(evidence_exists_in_rewrite(&item, &rewrites));
}

#[test]
fn coverage_evidence_counts_specific_three_character_terms() {
    let rewrites = vec![ParsedChapterRewrite {
        id: "chapter-3".to_string(),
        index: 3,
        title: "第三章".to_string(),
        text: "白纸发现海生动物已经登陆，又用清秀的字迹记录下光武纪的后面一页，并命名为新生纪。".to_string(),
    }];
    let item = ReviewCoverageItem {
        obligation_id: "O-1".to_string(),
        status: "satisfied".to_string(),
        chapter_indexes: vec![3],
        evidence: "白纸观察到；又用清秀的字迹记录下光武纪的后面一页；新生纪"
            .to_string(),
    };

    assert!(evidence_exists_in_rewrite(&item, &rewrites));
}

#[test]
fn gate_rejects_partial_or_duplicate_coverage() {
    let plan = RewritePlan {
        plan_version: "protagonist-graph-v1".to_string(),
        graph_additions: Vec::new(),
        obligations: vec![RewriteObligation {
            obligation_id: "O-1".to_string(),
            node_id: "N-1".to_string(),
            chapter_index: 1,
            rule_ids: Vec::new(),
            preserve: Vec::new(),
            required_changes: Vec::new(),
            deep_delta_categories: Vec::new(),
            forbidden_regressions: Vec::new(),
            downstream_effects: Vec::new(),
            planned_state_updates: Vec::new(),
        }],
        planned_state_updates: Vec::new(),
        cross_shard_dependencies: Vec::new(),
    };
    let partial = vec![ReviewCoverageItem {
        obligation_id: "O-1".to_string(),
        status: "partial".to_string(),
        chapter_indexes: vec![1],
        evidence: "证据".to_string(),
    }];
    assert!(!coverage_gate_passes(&plan, &partial, &[]));
}

#[test]
fn reviewer_state_echo_is_ignored_and_plan_states_are_canonicalized() {
    let first = RewriteStateUpdate {
        thread_key: "基因获取线".to_string(),
        state_type: "获得".to_string(),
        value: "白纸购得猩猩血液并约定长期合作".to_string(),
        chapter_index: 3,
        source_obligation_ids: vec!["O-1".to_string()],
    };
    let duplicate = RewriteStateUpdate {
        value: "白纸购得猩猩血液".to_string(),
        source_obligation_ids: vec!["O-2".to_string()],
        ..first.clone()
    };
    let plan = RewritePlan {
        plan_version: "protagonist-graph-v2".to_string(),
        graph_additions: Vec::new(),
        obligations: vec![
            RewriteObligation {
                obligation_id: "O-1".to_string(),
                node_id: "N-1".to_string(),
                chapter_index: 3,
                rule_ids: Vec::new(),
                preserve: Vec::new(),
                required_changes: Vec::new(),
                deep_delta_categories: Vec::new(),
                forbidden_regressions: Vec::new(),
                downstream_effects: Vec::new(),
                planned_state_updates: vec![first.clone()],
            },
            RewriteObligation {
                obligation_id: "O-2".to_string(),
                node_id: "N-2".to_string(),
                chapter_index: 3,
                rule_ids: Vec::new(),
                preserve: Vec::new(),
                required_changes: Vec::new(),
                deep_delta_categories: Vec::new(),
                forbidden_regressions: Vec::new(),
                downstream_effects: Vec::new(),
                planned_state_updates: vec![duplicate],
            },
        ],
        planned_state_updates: Vec::new(),
        cross_shard_dependencies: Vec::new(),
    };

    assert_eq!(canonical_planned_state_updates(&plan), vec![first]);
}

#[test]
fn review_can_pass_without_echoing_contract_state_metadata() {
    let state = RewriteStateUpdate {
        thread_key: "人际关系线".to_string(),
        state_type: "边界".to_string(),
        value: "白纸与陈熙保持普通朋友关系".to_string(),
        chapter_index: 3,
        source_obligation_ids: vec!["O-1".to_string()],
    };
    let plan = RewritePlan {
        plan_version: "protagonist-graph-v2".to_string(),
        graph_additions: Vec::new(),
        obligations: vec![RewriteObligation {
            obligation_id: "O-1".to_string(),
            node_id: "N-1".to_string(),
            chapter_index: 3,
            rule_ids: vec!["R3_PRESERVE".to_string()],
            preserve: vec!["保留普通朋友关系".to_string()],
            required_changes: Vec::new(),
            deep_delta_categories: Vec::new(),
            forbidden_regressions: Vec::new(),
            downstream_effects: Vec::new(),
            planned_state_updates: vec![state.clone()],
        }],
        planned_state_updates: Vec::new(),
        cross_shard_dependencies: Vec::new(),
    };
    let rewrites = vec![ParsedChapterRewrite {
        id: "chapter-3".to_string(),
        index: 3,
        title: "第三章".to_string(),
        text: "白纸与陈熙仍是普通朋友。".to_string(),
    }];
    let output = r#"{
      "approved": true,
      "coverage": [{"obligation_id":"O-1","status":"satisfied","chapter_indexes":[3],"evidence":"模型误引了不存在的后续对话"}],
      "issues": []
    }"#;

    let parsed =
        parse_rewrite_review_decision_output(
            output,
            &settings(),
            &plan,
            &rewrites,
            &["O-1".to_string()],
            coverage_of(output),
        )
        .unwrap();

    assert!(parsed.decision.approved);
    assert_eq!(parsed.state_updates, vec![state]);
}

#[test]
fn preserve_regression_still_blocks_and_gets_an_actionable_fix() {
    let obligation = RewriteObligation {
        obligation_id: "O-1".to_string(),
        node_id: "N-1".to_string(),
        chapter_index: 5,
        rule_ids: vec!["R3_PRESERVE".to_string()],
        preserve: vec!["保留第五章结尾，不得提前搬入第六章对话".to_string()],
        required_changes: Vec::new(),
        deep_delta_categories: Vec::new(),
        forbidden_regressions: Vec::new(),
        downstream_effects: Vec::new(),
        planned_state_updates: Vec::new(),
    };

    assert_eq!(
        obligation_fix_summary(&obligation),
        "按原文恢复并保留：保留第五章结尾，不得提前搬入第六章对话"
    );
    let plan = RewritePlan {
        plan_version: "protagonist-graph-v2.2".to_string(),
        graph_additions: Vec::new(),
        obligations: vec![obligation],
        planned_state_updates: Vec::new(),
        cross_shard_dependencies: Vec::new(),
    };
    let rewrites = vec![ParsedChapterRewrite {
        id: "chapter-5".to_string(),
        index: 5,
        title: "第五章".to_string(),
        text: "正文仍在，但被提前搬入了后章对话。".to_string(),
    }];
    let output = r#"{
      "approved": false,
      "coverage": [{"obligation_id":"O-1","status":"regressed","chapter_indexes":[5],"evidence":"正文仍在"}],
      "issues": []
    }"#;

    let parsed =
        parse_rewrite_review_decision_output(
            output,
            &settings(),
            &plan,
            &rewrites,
            &["O-1".to_string()],
            coverage_of(output),
        )
        .unwrap();
    assert!(!parsed.decision.approved);
    assert!(parsed
        .decision
        .issues
        .iter()
        .any(|issue| issue.required_fix.contains("按原文恢复并保留")));
}

#[test]
fn top_level_planned_states_supersede_obligation_intermediate_states() {
    let early = RewriteStateUpdate {
        thread_key: "陈熙友谊线".to_string(),
        state_type: "互动模式".to_string(),
        value: "陈熙开始像保护闺蜜一样维护主角".to_string(),
        chapter_index: 5,
        source_obligation_ids: vec!["O-5".to_string()],
    };
    let final_state = RewriteStateUpdate {
        thread_key: "陈熙友谊线".to_string(),
        state_type: "互动模式".to_string(),
        value: "女性闺蜜间的调侃、照顾和亲密".to_string(),
        chapter_index: 7,
        source_obligation_ids: vec!["O-5".to_string(), "O-7".to_string()],
    };
    let obligation = |id: &str, chapter_index: i64, states: Vec<RewriteStateUpdate>| {
        RewriteObligation {
            obligation_id: id.to_string(),
            node_id: format!("N-{chapter_index}"),
            chapter_index,
            rule_ids: Vec::new(),
            preserve: Vec::new(),
            required_changes: Vec::new(),
            deep_delta_categories: Vec::new(),
            forbidden_regressions: Vec::new(),
            downstream_effects: Vec::new(),
            planned_state_updates: states,
        }
    };
    let plan = RewritePlan {
        plan_version: "protagonist-graph-v1".to_string(),
        graph_additions: Vec::new(),
        obligations: vec![
            obligation("O-5", 5, vec![early]),
            obligation("O-7", 7, vec![final_state.clone()]),
        ],
        planned_state_updates: vec![final_state.clone()],
        cross_shard_dependencies: Vec::new(),
    };

    assert_eq!(canonical_planned_state_updates(&plan), vec![final_state]);
}

#[test]
fn continuity_merge_keeps_latest_state_and_its_provenance() {
    let old = RewriteStateUpdate {
        thread_key: "承诺线".to_string(),
        state_type: "边界".to_string(),
        value: "旧状态".to_string(),
        chapter_index: 2,
        source_obligation_ids: vec!["O-old".to_string()],
    };
    let latest = RewriteStateUpdate {
        thread_key: "承诺线".to_string(),
        state_type: "边界".to_string(),
        value: "最新状态".to_string(),
        chapter_index: 5,
        source_obligation_ids: vec!["O-new".to_string()],
    };

    let merged = merge_continuity_states(vec![old], std::slice::from_ref(&latest));

    assert_eq!(merged, vec![latest]);
}
