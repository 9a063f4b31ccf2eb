//! What is read out of the answers of a review.
use yuri_rewrite::decision::{parse_review_decision_output, parse_rewrite_review_decision_output};
use yuri_rewrite::domain::{
    Chapter, NovelSettings, ParsedChapterRewrite, ReviewCoverageItem, RewriteObligation,
    RewritePlan, RewriteStateUpdate,
};
use yuri_rewrite::finalize::{validate_review_model_output, PlanEvidence};
use yuri_rewrite::json::extract_tailing_json_from_text;
use yuri_rewrite::prompts::{
    build_review_decision_json_repair_prompt, review_decision_parse_error_message,
};
use yuri_rewrite::review_filter::{review_issue_text, AuthorNotes};

fn sample_novel_settings() -> NovelSettings {
    NovelSettings {
        novel_id: "novel-1".to_string(),
        protagonist_name: "萧炎".to_string(),
        protagonist_aliases: "炎儿 -> 小妍儿".to_string(),
        rewritten_protagonist_name: "萧妍".to_string(),
        additional_feminize_names: "".to_string(),
        bust: "平胸".to_string(),
        body_type: "少女".to_string(),
        rewrite_mode: "strict".to_string(),
        advanced_settings: "".to_string(),
        relationship_targets: "[]".to_string(),
        updated_at: "now".to_string(),
    }
}

fn sample_rewrite_plan() -> RewritePlan {
    RewritePlan {
        plan_version: "protagonist-graph-v2.2".to_string(),
        graph_additions: Vec::new(),
        obligations: vec![RewriteObligation {
            obligation_id: "O-1".to_string(),
            node_id: "impact-1".to_string(),
            chapter_index: 1,
            rule_ids: vec!["R3_PROTAGONIST_NODE_DELTA".to_string()],
            preserve: vec!["主角入场".to_string()],
            required_changes: vec!["让旁人对她的入场方式产生可见反应".to_string()],
            deep_delta_categories: vec!["other_reaction".to_string()],
            forbidden_regressions: Vec::new(),
            downstream_effects: Vec::new(),
            planned_state_updates: Vec::new(),
        }],
        planned_state_updates: Vec::new(),
        cross_shard_dependencies: Vec::new(),
    }
}

/// The coverage in the text of a review.
fn coverage_of(output: &str) -> Result<Vec<ReviewCoverageItem>, String> {
    let value: serde_json::Value = serde_json::from_str(output).map_err(|e| e.to_string())?;
    let items = value["coverage"].as_array().cloned().unwrap_or_default();
    Ok(items
        .iter()
        .map(|item| ReviewCoverageItem {
            obligation_id: item["obligation_id"].as_str().unwrap_or("").to_string(),
            status: item["status"].as_str().unwrap_or("").to_string(),
            chapter_indexes: item["chapter_indexes"]
                .as_array()
                .map(|list| list.iter().filter_map(|x| x.as_i64()).collect())
                .unwrap_or_default(),
            evidence: item["evidence"].as_str().unwrap_or("").to_string(),
        })
        .collect())
}

#[test]
fn coverage_review_requires_real_rewrite_evidence_for_every_obligation() {
    let rewrites = vec![ParsedChapterRewrite {
        id: "chapter-1".to_string(),
        index: 1,
        title: "第一章".to_string(),
        text: "药老望着萧妍利落推门的动作，先是一怔，随后失笑。".to_string(),
    }];
    let valid = r#"{
      "approved": true,
      "coverage": [{"obligation_id":"O-1","status":"satisfied","chapter_indexes":[1],"evidence":"药老望着萧妍利落推门的动作，先是一怔"}],
      "issues": [],
      "state_updates": []
    }"#;
    let parsed = parse_rewrite_review_decision_output(
        valid,
        &sample_novel_settings(),
        &sample_rewrite_plan(),
        &rewrites,
        &[],
        coverage_of(valid),
    )
    .unwrap();
    assert!(parsed.decision.approved);

    let forged = valid.replace("药老望着萧妍利落推门的动作，先是一怔", "正文中不存在的证据");
    let parsed = parse_rewrite_review_decision_output(
        &forged,
        &sample_novel_settings(),
        &sample_rewrite_plan(),
        &rewrites,
        &[],
        coverage_of(&forged),
    )
    .unwrap();
    assert!(!parsed.decision.approved);
    assert!(parsed
        .decision
        .issues
        .iter()
        .any(|issue| issue.category == "obligation_coverage"));

    let wrong_chapter = valid.replace("\"chapter_indexes\":[1]", "\"chapter_indexes\":[2]");
    let parsed = parse_rewrite_review_decision_output(
        &wrong_chapter,
        &sample_novel_settings(),
        &sample_rewrite_plan(),
        &rewrites,
        &[],
        coverage_of(&wrong_chapter),
    )
    .unwrap();
    assert!(!parsed.decision.approved);
}

#[test]
fn review_decision_ignores_title_number_and_marker_index_mismatch() {
    let output = r#"{
      "approved": false,
      "summary": "标题编号与分片索引不一致",
      "issues": [
        {
          "chapter_index": 22,
          "severity": "blocking",
          "problem": "章节标题仍保留原章节号‘第0021章’，与当前分片索引22不对应。",
          "required_fix": "标题应改为第0022章或按分片索引统一。"
        }
      ]
    }"#;

    let decision = parse_review_decision_output(output, &sample_novel_settings())
        .expect("parse review decision");

    assert!(decision.approved);
    assert!(decision.issues.is_empty());
}

#[test]
fn review_decision_discards_compliant_blocking_items_but_keeps_real_defects() {
    let output = r#"{
      "approved": false,
      "summary": "存在一处未指定角色性别误改",
      "issues": [
        {
          "chapter_index": 14,
          "severity": "blocking",
          "problem": "原文‘少年’描述未指定性转的男性敌人，改写稿正确保留，符合规则。",
          "required_fix": "确认保留，无需修改。"
        },
        {
          "chapter_index": 13,
          "severity": "blocking",
          "problem": "主角与男性配角共同组成的群体原应使用‘他们’，改写稿却误改为‘她们’，违反混合性别群体代词规则。",
          "required_fix": "必须修正为‘他们’。"
        },
        {
          "chapter_index": 15,
          "severity": "blocking",
          "problem": "章节边界清晰，无缺句、重复或串章，章节完整。",
          "required_fix": "各项通过。"
        }
      ]
    }"#;

    let decision = parse_review_decision_output(output, &sample_novel_settings())
        .expect("parse review decision");

    assert!(!decision.approved);
    assert_eq!(decision.issues.len(), 1);
    assert_eq!(decision.issues[0].chapter_indexes, vec![13]);
    assert!(review_issue_text(&decision.issues[0]).contains("误改为‘她们’"));
    assert!(review_issue_text(&decision.issues[0]).contains("混合性别群体"));
}

#[test]
fn review_decision_ignores_unnecessary_title_feminization_but_keeps_target_name() {
    let output = r#"{
      "approved": false,
      "issues": [
        {
          "chapter_index": 7,
          "severity": "blocking",
          "problem": "标题‘斗之力，三段！’没有增加女性化意象。",
          "required_fix": "创意模式下应修改标题。"
        },
        {
          "chapter_index": 8,
          "severity": "blocking",
          "problem": "标题仍保留主角原名‘萧炎’。",
          "required_fix": "必须修改为设定姓名‘萧妍’。"
        }
      ]
    }"#;

    let decision = parse_review_decision_output(output, &sample_novel_settings())
        .expect("parse review decision");

    assert!(!decision.approved);
    assert_eq!(decision.issues.len(), 1);
    assert!(review_issue_text(&decision.issues[0]).contains("萧炎"));
}

#[test]
fn review_decision_supports_structured_and_legacy_issue_indexes() {
    let output = r#"{
      "approved": false,
      "issues": [
        {
          "chapter_indexes": [3, 2, 3],
          "scope": "chapter",
          "category": "gender_residue",
          "severity": "blocking",
          "problem": "两章仍有主角男性称谓。",
          "required_fix": "移除男性称谓。"
        },
        {
          "chapter_index": 4,
          "problem": "主角原名仍有残留。",
          "required_fix": "替换为设定姓名。"
        },
        "分片索引 5：主角仍被称为少爷，必须修改。"
      ]
    }"#;

    let decision = parse_review_decision_output(output, &sample_novel_settings())
        .expect("parse mixed review formats");

    assert!(!decision.approved);
    assert_eq!(decision.issues.len(), 3);
    assert_eq!(decision.issues[0].chapter_indexes, vec![2, 3]);
    assert_eq!(decision.issues[0].scope, "chapter");
    assert_eq!(decision.issues[0].category, "gender_residue");
    assert_eq!(decision.issues[1].chapter_indexes, vec![4]);
    assert_eq!(decision.issues[2].chapter_indexes, vec![5]);
}

#[test]
fn legacy_issue_does_not_treat_original_title_number_as_marker_index() {
    let output = r#"{
      "approved": false,
      "issues": ["第21章正文仍有主角男性称谓，需要修改。"]
    }"#;

    let decision = parse_review_decision_output(output, &sample_novel_settings())
        .expect("parse legacy issue");

    assert_eq!(decision.issues.len(), 1);
    assert!(decision.issues[0].chapter_indexes.is_empty());
    assert_eq!(decision.issues[0].scope, "shard");
}

#[test]
fn review_decision_parse_error_message_suggests_manual_retry() {
    let message = review_decision_parse_error_message(
        "第1-30章 · 分片 1/3",
        "expected value at line 11 column 23",
    );

    assert!(message.contains("审查决策无法解析"));
    assert!(message.contains("可以手动重试当前任务"));
    assert!(message.contains("JSON 输出更稳定的模型"));
}

#[test]
    fn review_decision_json_repair_prompt_preserves_original_semantics() {
        let invalid_output = r#"{
  "approved": false,
  "issues": [
    {"chapter_indexes":[1891],"problem":"改写稿中出现了 "少年" 称谓","required_fix":"改为少女"}
  ]
}"#;

        let prompt = build_review_decision_json_repair_prompt(
            invalid_output,
            "expected `,` or `}` at line 3 column 80",
            &sample_novel_settings(),
        );

        assert!(prompt.contains("只修复 JSON 格式"));
        assert!(prompt.contains("不要重新审查正文"));
        assert!(prompt.contains("不要新增或删除审查问题"));
        assert!(prompt.contains("\"chapter_indexes\": [1]"));
        assert!(prompt.contains("expected `,` or `}`"));
        assert!(prompt.contains("改写稿中出现了 \"少年\" 称谓"));
    }

#[test]
fn extract_tailing_json_from_reasoning_content() {
    // Reasoning text with JSON object at the end
    let reasoning = "审查分析：改写稿基本合格。输出JSON。{\n  \"approved\": true,\n  \"summary\": \"通过\"\n}";
    let extracted =
        extract_tailing_json_from_text(reasoning).expect("should extract trailing JSON object");
    let value: serde_json::Value =
        serde_json::from_str(&extracted).expect("extracted text must be valid JSON");
    assert_eq!(value["approved"], true);
    assert_eq!(value["summary"], "通过");

    // No valid JSON anywhere should return None.
    let plain = "这是一段普通的思考文字，不包含任何 JSON 结构。";
    assert!(extract_tailing_json_from_text(plain).is_none());

    // JSON array at the end.
    let reasoning_array = "思考中...最终输出：[\n  {\"name\": \"萧炎\", \"gender\": \"male\"},\n  {\"name\": \"萧妍\", \"gender\": \"female\"}\n]";
    let extracted_array = extract_tailing_json_from_text(reasoning_array)
        .expect("should extract trailing JSON array");
    let value_array: serde_json::Value =
        serde_json::from_str(&extracted_array).expect("extracted text must be valid JSON");
    assert_eq!(value_array.as_array().unwrap().len(), 2);

    // Empty text.
    assert!(extract_tailing_json_from_text("").is_none());
    assert!(extract_tailing_json_from_text("   ").is_none());
}

#[test]
fn the_trailing_json_is_taken_as_a_whole() {
    assert_eq!(
        extract_tailing_json_from_text("思考。{\"a\":{\"b\":1}}"),
        Some("{\"a\":{\"b\":1}}".to_string())
    );
    let answer = "{\"approved\": false, \"issues\": [{\"chapter_indexes\": [1], \"problem\": \"缺句\"}]}\n";
    assert_eq!(
        extract_tailing_json_from_text(&format!("先看 {{草稿}} 和 [1]。结论：{answer}")),
        Some(answer.to_string())
    );
    assert_eq!(extract_tailing_json_from_text("前 {\"a\": 1} 后"), None);
    assert_eq!(extract_tailing_json_from_text("[1] {\"a\": 1}"), Some("{\"a\": 1}".to_string()));
}

fn chapter(text: &str) -> Chapter {
    Chapter {
        id: "chapter-1".to_string(),
        novel_id: "novel-1".to_string(),
        index: 1,
        title: "第一章".to_string(),
        original_text: text.to_string(),
        analysis_json: None,
        rewrite_text: None,
        rewrite_edited: false,
        single_rewrite_original_available: false,
        analysis_status: "completed".to_string(),
        rewrite_status: "pending".to_string(),
        rewrite_validation_status: "unvalidated".to_string(),
        rewrite_obligation_total: 0,
        rewrite_obligation_satisfied: 0,
    }
}

fn rewrite(text: &str) -> ParsedChapterRewrite {
    ParsedChapterRewrite {
        id: "chapter-1".to_string(),
        index: 1,
        title: "第一章".to_string(),
        text: text.to_string(),
    }
}

fn no_notes() -> AuthorNotes {
    AuthorNotes { lines: Vec::new(), fragments: Vec::new() }
}

#[test]
fn a_review_is_held_against_the_text() {
    let shard = vec![chapter("萧炎推门。小炎来了。")];
    let output = r#"{"approved":false,"issues":[{"chapter_index":1,"category":"gender_residue","problem":"残留‘那少年推门’","required_fix":"改为少女"}]}"#;
    let read = |text: &str| {
        validate_review_model_output(
            output,
            &shard,
            &[rewrite(text)],
            &sample_novel_settings(),
            &no_notes(),
            None,
        )
        .expect("read")
    };
    let refuted = read("萧妍推门。妍儿来了。");
    assert!(refuted.review.decision.approved);
    assert_eq!(refuted.review.filtered.len(), 1);
    assert!(refuted.coverage.is_empty());
    let scanned = read("萧妍推门。小炎来了。");
    assert!(!scanned.review.decision.approved);
    assert_eq!(scanned.review.deterministic.len(), 1);
    assert_eq!(scanned.review.decision.issues, scanned.review.deterministic);
    let stands = read("那少年推门。");
    assert!(!stands.review.decision.approved);
    assert!(stands.review.filtered.is_empty());
}

#[test]
fn a_planned_review_brings_its_states() {
    let mut plan = sample_rewrite_plan();
    let state = RewriteStateUpdate {
        thread_key: "线".to_string(),
        state_type: "状态".to_string(),
        value: "入场".to_string(),
        chapter_index: 1,
        source_obligation_ids: vec!["O-1".to_string()],
    };
    plan.planned_state_updates = vec![state.clone()];
    let shard = vec![chapter("众人望去。")];
    let good = r#"{"approved":true,"coverage":[{"obligation_id":"O-1","status":"satisfied","chapter_indexes":[1],"evidence":"众人先是一怔"}],"issues":[]}"#;
    let read = |output: &str, coverage: Result<Vec<ReviewCoverageItem>, String>, text: &str| {
        validate_review_model_output(
            output,
            &shard,
            &[rewrite(text)],
            &sample_novel_settings(),
            &no_notes(),
            Some((&plan, PlanEvidence { preserving: Vec::new(), coverage })),
        )
    };
    let passed = read(good, coverage_of(good), "众人先是一怔，望向萧妍。").expect("read");
    assert!(passed.review.decision.approved);
    assert_eq!(passed.coverage.len(), 1);
    assert_eq!(passed.state_updates, vec![state]);
    let labelled =
        read(good, coverage_of(good), "众人先是一怔，身为女性的萧妍来了。").expect("read");
    assert!(!labelled.review.decision.approved);
    assert_eq!(labelled.review.deterministic[0].category, "stereotype");
    let missing = r#"{"approved":true,"coverage":[],"issues":[]}"#;
    let forgotten = read(missing, coverage_of(missing), "众人先是一怔。").expect("read");
    assert!(!forgotten.review.decision.approved);
    match read(good, Err("missing field".to_string()), "") {
        Err(message) => assert_eq!(message, "coverage 字段无效：missing field"),
        Ok(_) => panic!("the coverage cannot be read"),
    }
    assert!(read("坏", Ok(Vec::new()), "").is_err());
}
