//! How shards that were sent back are revised.
use yuri_rewrite::domain::{
    Chapter, NovelSettings, ParsedChapterRewrite, ReviewDecision, ReviewIssue, RewriteObligation,
    RewritePlan,
};
use yuri_rewrite::prompts::{
    build_batch_revision_prompt_with_context, build_targeted_revision_prompt, RevisionTexts,
};
use yuri_rewrite::repair::{
    build_repair_core_prompt, issue_text, merge_targeted_rewrites, plan_review_revision,
    repair_scope, RevisionPlan,
};
use yuri_rewrite::shard_context::{
    split_chapters_for_rewrite_recovery, split_revision_for_recovery,
};
use yuri_rewrite::targeted::{
    build_targeted_revision_context, format_review_issues, require_tagged_rewrite_output,
    review_warning_file_name, review_warning_outcome, review_warning_text,
    validate_targeted_rewrite_markers,
};

fn sample_chapter(index: i64, title: &str, original_text: &str) -> Chapter {
    Chapter {
        id: format!("chapter-{index}"),
        novel_id: "novel-1".to_string(),
        index,
        title: title.to_string(),
        original_text: original_text.to_string(),
        analysis_json: None,
        rewrite_text: None,
        rewrite_edited: false,
        single_rewrite_original_available: false,
        analysis_status: "completed".to_string(),
        rewrite_status: "pending".to_string(),
        rewrite_validation_status: "unvalidated".to_string(),
        rewrite_obligation_total: 0,
        rewrite_obligation_satisfied: 0,
    }
}

fn sample_novel_settings() -> NovelSettings {
    NovelSettings {
        novel_id: "novel-1".to_string(),
        protagonist_name: "萧炎".to_string(),
        protagonist_aliases: "炎儿 -> 小妍儿".to_string(),
        rewritten_protagonist_name: "萧妍".to_string(),
        additional_feminize_names: "".to_string(),
        bust: "平胸".to_string(),
        body_type: "少女".to_string(),
        rewrite_mode: "strict".to_string(),
        advanced_settings: "".to_string(),
        relationship_targets: "[]".to_string(),
        updated_at: "now".to_string(),
    }
}

fn sample_review_issue(
    chapter_indexes: Vec<i64>,
    scope: &str,
    category: &str,
    problem: &str,
) -> ReviewIssue {
    ReviewIssue {
        chapter_indexes,
        scope: scope.to_string(),
        category: category.to_string(),
        severity: "blocking".to_string(),
        problem: problem.to_string(),
        required_fix: "按要求修复。".to_string(),
    }
}

fn chapter_start_marker(chapter: &Chapter) -> String {
    format!("<<<YURI_REWRITE_CHAPTER_START index={} id={}>>>", chapter.index, chapter.id)
}

fn chapter_end_marker(chapter: &Chapter) -> String {
    format!("<<<YURI_REWRITE_CHAPTER_END index={} id={}>>>", chapter.index, chapter.id)
}

/// The texts that go with a revision, with the chapters and their rewrites between markers.
fn revision_texts(
    scope_name: &str,
    chapters: &[Chapter],
    rewrites: &[ParsedChapterRewrite],
    core_prompt: &str,
    scope: &str,
) -> RevisionTexts {
    let original = chapters
        .iter()
        .map(|chapter| {
            format!(
                "{}\n标题：{}\n正文：\n{}\n{}",
                chapter_start_marker(chapter),
                chapter.title,
                chapter.original_text,
                chapter_end_marker(chapter)
            )
        })
        .collect::<Vec<_>>()
        .join("\n\n");
    let rewritten = chapters
        .iter()
        .zip(rewrites)
        .map(|(chapter, rewrite)| {
            format!(
                "{}\n标题：{}\n正文：\n{}\n{}",
                chapter_start_marker(chapter),
                rewrite.title,
                rewrite.text,
                chapter_end_marker(chapter)
            )
        })
        .collect::<Vec<_>>()
        .join("\n\n");
    RevisionTexts {
        marker_guard: format!("【输出格式硬性要求】\n只输出{scope_name}。"),
        priority: "【规则优先级】\n姓名映射表和用户指定改名最高优先级；未指定角色、性别不明者和非人生物必须按原文。"
            .to_string(),
        core_section: core_prompt.to_string(),
        settings_section: "【压缩小说设定】".to_string(),
        cleanup_rule: "保守清理正文".to_string(),
        scope: scope.to_string(),
        original,
        rewritten,
        reminder: format!("再次确认：只输出{scope_name}的结果"),
        mode_label: "严格模式".to_string(),
        relationship_targets: None,
    }
}

#[test]
fn rewrite_recovery_split_halves_large_failed_shards() {
    let chapters = (1..=10)
        .map(|index| sample_chapter(index, &format!("第{index}章"), "原文"))
        .collect::<Vec<_>>();

    let (left, right) = split_chapters_for_rewrite_recovery(&chapters).expect("split ten");
    assert_eq!(left.len(), 5);
    assert_eq!(right.len(), 5);
    assert_eq!(left[0].index, 1);
    assert_eq!(right[0].index, 6);

    let (left, right) =
        split_chapters_for_rewrite_recovery(&chapters[..3]).expect("split three");
    assert_eq!(left.len(), 2);
    assert_eq!(right.len(), 1);
    assert!(split_chapters_for_rewrite_recovery(&chapters[..1]).is_none());
}

#[test]
fn review_revision_recovery_keeps_chapters_and_previous_rewrites_aligned() {
    let chapters = (1..=5)
        .map(|index| sample_chapter(index, &format!("第{index}章"), "原文"))
        .collect::<Vec<_>>();
    let rewrites = chapters
        .iter()
        .map(|chapter| ParsedChapterRewrite {
            id: chapter.id.clone(),
            index: chapter.index,
            title: chapter.title.clone(),
            text: format!("改写正文 {}", chapter.index),
        })
        .collect::<Vec<_>>();

    let split = split_revision_for_recovery(&chapters, &rewrites).expect("split revisions");
    let (left_chapters, left_rewrites) = split.left;
    let (right_chapters, right_rewrites) = split.right;

    assert_eq!(left_chapters.len(), 3);
    assert_eq!(right_chapters.len(), 2);
    for (chapter, rewrite) in left_chapters
        .iter()
        .zip(left_rewrites.iter())
        .chain(right_chapters.iter().zip(right_rewrites.iter()))
    {
        assert_eq!(chapter.id, rewrite.id);
        assert_eq!(chapter.index, rewrite.index);
    }
}

#[test]
fn review_revision_targets_only_valid_local_chapters() {
    let chapters = (1..=6)
        .map(|index| sample_chapter(index, &format!("第{index}章"), "原文"))
        .collect::<Vec<_>>();
    let decision = ReviewDecision {
        approved: false,
        issues: vec![
            sample_review_issue(vec![2], "chapter", "gender_residue", "第二章有残留。"),
            sample_review_issue(vec![4], "chapter", "name", "第四章姓名错误。"),
        ],
    };

    assert_eq!(
        plan_review_revision(&chapters, &decision),
        RevisionPlan::Targeted(vec![2, 4])
    );
}

#[test]
fn review_revision_falls_back_for_unscoped_cross_chapter_or_excessive_targets() {
    let chapters = (1..=6)
        .map(|index| sample_chapter(index, &format!("第{index}章"), "原文"))
        .collect::<Vec<_>>();
    let cases = [
        ReviewDecision {
            approved: false,
            issues: vec![sample_review_issue(
                vec![],
                "shard",
                "legacy",
                "问题无法定位。",
            )],
        },
        ReviewDecision {
            approved: false,
            issues: vec![sample_review_issue(
                vec![2, 3],
                "cross_chapter",
                "continuity",
                "跨章连续性断裂。",
            )],
        },
        ReviewDecision {
            approved: false,
            issues: vec![sample_review_issue(
                vec![1, 2, 3, 4],
                "chapter",
                "gender_residue",
                "多个章节有残留。",
            )],
        },
        ReviewDecision {
            approved: false,
            issues: vec![sample_review_issue(
                vec![99],
                "chapter",
                "name",
                "索引越界。",
            )],
        },
    ];

    for decision in cases {
        assert!(matches!(
            plan_review_revision(&chapters, &decision),
            RevisionPlan::Full(_)
        ));
    }
}

#[test]
fn targeted_merge_preserves_unaffected_chapters_byte_for_byte() {
    let originals = (1..=4)
        .map(|index| ParsedChapterRewrite {
            id: format!("chapter-{index}"),
            index,
            title: format!("第{index}章"),
            text: format!("  原样正文 {index}\n第二行  "),
        })
        .collect::<Vec<_>>();
    let replacement = ParsedChapterRewrite {
        id: "chapter-2".to_string(),
        index: 2,
        title: "第二章修复".to_string(),
        text: "修复正文".to_string(),
    };

    let merged = merge_targeted_rewrites(&originals, vec![replacement.clone()], &[2])
        .expect("merge targeted rewrite");

    assert_eq!(merged[1].text, replacement.text);
    assert_eq!(merged[0].text.as_bytes(), originals[0].text.as_bytes());
    assert_eq!(merged[2].text.as_bytes(), originals[2].text.as_bytes());
    assert_eq!(merged[3].text.as_bytes(), originals[3].text.as_bytes());
}

#[test]
fn targeted_marker_validation_rejects_missing_extra_and_wrong_id_markers() {
    let target = sample_chapter(2, "第二章", "原文");
    let extra = sample_chapter(3, "第三章", "原文");
    let valid = format!(
        "{}\n标题：第二章\n正文：\n修复正文\n{}",
        chapter_start_marker(&target),
        chapter_end_marker(&target)
    );
    assert!(validate_targeted_rewrite_markers(&valid, std::slice::from_ref(&target)).is_ok());

    let missing_end = format!(
        "{}\n标题：第二章\n正文：\n修复正文",
        chapter_start_marker(&target)
    );
    assert!(
        validate_targeted_rewrite_markers(&missing_end, std::slice::from_ref(&target)).is_err()
    );

    let with_extra = format!(
        "{}\n{}\n{}\n{}",
        chapter_start_marker(&target),
        chapter_end_marker(&target),
        chapter_start_marker(&extra),
        chapter_end_marker(&extra)
    );
    assert!(
        validate_targeted_rewrite_markers(&with_extra, std::slice::from_ref(&target)).is_err()
    );

    let wrong_id = valid.replace(&target.id, "wrong-id");
    assert!(
        validate_targeted_rewrite_markers(&wrong_id, std::slice::from_ref(&target)).is_err()
    );
}

#[test]
fn targeted_revision_context_contains_read_only_original_and_rewrite_neighbors() {
    let chapters = (1..=4)
        .map(|index| {
            sample_chapter(index, &format!("第{index}章"), &format!("原文内容 {index}"))
        })
        .collect::<Vec<_>>();
    let rewrites = chapters
        .iter()
        .map(|chapter| ParsedChapterRewrite {
            id: chapter.id.clone(),
            index: chapter.index,
            title: chapter.title.clone(),
            text: format!("改写内容 {}", chapter.index),
        })
        .collect::<Vec<_>>();

    let context =
        build_targeted_revision_context(&chapters, &rewrites, &[2_i64]);

    assert!(context.contains("原文内容 1"));
    assert!(context.contains("改写内容 1"));
    assert!(context.contains("原文内容 3"));
    assert!(context.contains("改写内容 3"));
    assert!(!context.contains("改写内容 2"));
}

#[test]
fn full_revision_prompt_is_compact_but_keeps_repair_context() {
    let chapters = vec![sample_chapter(1, "第一章", "原文主线内容。")];
    let rewrites = vec![ParsedChapterRewrite {
        id: chapters[0].id.clone(),
        index: chapters[0].index,
        title: chapters[0].title.clone(),
        text: "上一版改写稿正文。".to_string(),
    }];
    let decision = ReviewDecision {
        approved: false,
        issues: vec![sample_review_issue(
            vec![1],
            "chapter",
            "gender_residue",
            "第一章仍有主角男性称谓。",
        )],
    };

    let prompt = build_batch_revision_prompt_with_context(
        &revision_texts("当前分片章节", &chapters, &rewrites, "核心规则", "第1分片"),
        "## 姓名映射表\n萧炎 -> 萧妍",
        &decision,
    );

    assert!(prompt.contains("【输出格式硬性要求】"));
    assert!(prompt.contains("【规则优先级】"));
    assert!(prompt.contains("【压缩小说设定】"));
    assert!(prompt.contains("审查打回问题"));
    assert!(prompt.contains("第一章仍有主角男性称谓"));
    assert!(prompt.contains("相关一致性资产"));
    assert!(prompt.contains("当前章节原文"));
    assert!(prompt.contains("原文主线内容"));
    assert!(prompt.contains("上一版改写稿"));
    assert!(prompt.contains("上一版改写稿正文"));
    assert!(prompt.contains("保守清理正文"));
    assert!(prompt.contains("姓名映射表和用户指定改名最高优先级"));
    assert!(prompt.contains("未指定角色、性别不明者和非人生物必须按原文"));
    assert!(!prompt.contains("改写要求：\n1. 将原本男女性别叙事自然改写为双女主百合叙事。"));
    assert!(!prompt.contains("采用中度再创作：保留主线、冲突、章节顺序"));
}

#[test]
fn targeted_revision_prompt_contains_only_full_target_chapter_body() {
    let chapters = (1..=3)
        .map(|index| {
            sample_chapter(
                index,
                &format!("第{index}章"),
                &format!("原文内容 {index} {}", "很长正文".repeat(20)),
            )
        })
        .collect::<Vec<_>>();
    let rewrites = chapters
        .iter()
        .map(|chapter| ParsedChapterRewrite {
            id: chapter.id.clone(),
            index: chapter.index,
            title: chapter.title.clone(),
            text: format!("改写内容 {} {}", chapter.index, "很长改写".repeat(20)),
        })
        .collect::<Vec<_>>();
    let decision = ReviewDecision {
        approved: false,
        issues: vec![sample_review_issue(
            vec![2],
            "chapter",
            "gender_residue",
            "第二章仍有主角男性称谓。",
        )],
    };
    let adjacent =
        build_targeted_revision_context(&chapters, &rewrites, &[2_i64]);

    let prompt = build_targeted_revision_prompt(
        &revision_texts("目标章节", &chapters[1..2], &rewrites[1..2], "", ""),
        "姓名映射表：萧炎 -> 萧妍",
        &sample_novel_settings(),
        "",
        "",
        &decision,
        &adjacent,
    );

    assert!(prompt.contains("目标章节原文"));
    assert!(prompt.contains("原文内容 2"));
    assert!(prompt.contains("目标章节当前改写稿"));
    assert!(prompt.contains("改写内容 2"));
    assert!(prompt.contains("【输出格式硬性要求】"));
    assert!(prompt.contains("【规则优先级】"));
    assert!(prompt.contains("保守清理正文"));
    assert!(prompt.contains("再次确认：只输出目标章节的结果"));
    assert!(prompt.contains("相邻章节只读上下文"));
    assert!(prompt.contains("主角与男性共同被指代或群体含男性成员时使用“他们”"));
    assert!(prompt.contains("只有全员女性时才使用“她们”"));
    assert!(!prompt.contains(&format!("原文内容 1 {}", "很长正文".repeat(20))));
    assert!(!prompt.contains(&format!("原文内容 3 {}", "很长正文".repeat(20))));
    assert!(!prompt.contains(&chapter_start_marker(&chapters[0])));
    assert!(!prompt.contains(&chapter_start_marker(&chapters[2])));
}

#[test]
fn targeted_revision_prompt_keeps_the_structured_repair_contract() {
    let chapter = sample_chapter(1, "第一章", "她拖着行李箱回乡。 ");
    let rewrite = ParsedChapterRewrite {
        id: chapter.id.clone(),
        index: chapter.index,
        title: chapter.title.clone(),
        text: "她拖着行李箱回乡。".to_string(),
    };
    let decision = ReviewDecision {
        approved: false,
        issues: vec![sample_review_issue(
            vec![1],
            "chapter",
            "identity",
            "混合家庭代词错误。",
        )],
    };
    let contract_tail = "REQUIRED_CONTRACT_TAIL_脚步疲惫但仍有内心倔强";
    let repair_core = format!("{}{}", "修复规则。".repeat(400), contract_tail);

    let prompt = build_targeted_revision_prompt(
        &revision_texts(
            "目标章节",
            std::slice::from_ref(&chapter),
            std::slice::from_ref(&rewrite),
            &repair_core,
            "",
        ),
        "姓名映射表：许纸 -> 白纸",
        &sample_novel_settings(),
        &repair_core,
        "",
        &decision,
        "",
    );

    assert!(prompt.contains(contract_tail));
    assert!(prompt.contains("按契约模式逐项核对"));
    assert!(prompt.contains("R3_PRESERVE 必须恢复中性原意"));
}

fn rewrite(id: i64, index: i64, text: &str) -> ParsedChapterRewrite {
    ParsedChapterRewrite {
        id: format!("chapter-{id}"),
        index,
        title: "标题".to_string(),
        text: text.to_string(),
    }
}

#[test]
fn revised_chapters_have_to_fit() {
    let old = vec![rewrite(1, 1, "甲"), rewrite(2, 2, "乙"), rewrite(3, 3, "丙")];
    let merge = |revised: Vec<ParsedChapterRewrite>, targets: &[i64]| {
        merge_targeted_rewrites(&old, revised, targets)
    };
    assert_eq!(
        merge(vec![rewrite(3, 3, "新")], &[2]),
        Err("定向重写返回了非目标分片索引 3。".to_string())
    );
    assert_eq!(
        merge(vec![rewrite(2, 2, "新"), rewrite(2, 2, "又")], &[2, 3]),
        Err("定向重写返回了重复章节。".to_string())
    );
    assert_eq!(
        merge(vec![rewrite(2, 2, "新")], &[2, 3, 3]),
        Err("定向重写章节数量不匹配：期望 2 章，得到 1 章。".to_string())
    );
    assert_eq!(
        merge(vec![rewrite(9, 2, "新")], &[2]),
        Err("定向重写缺少章节 ID：chapter-2。".to_string())
    );
    assert_eq!(
        merge(vec![rewrite(2, 3, "新"), rewrite(3, 2, "新")], &[2, 3]),
        Err("定向重写章节 ID 与索引不匹配：chapter-2。".to_string())
    );
    assert_eq!(
        merge(vec![rewrite(3, 3, "新丙"), rewrite(1, 1, "新甲")], &[1, 3]),
        Ok(vec![rewrite(1, 1, "新甲"), rewrite(2, 2, "乙"), rewrite(3, 3, "新丙")])
    );
}

#[test]
fn markers_have_to_match_the_chapters() {
    let target = sample_chapter(2, "第二章", "原文");
    let check = |text: &str| validate_targeted_rewrite_markers(text, std::slice::from_ref(&target));
    let start = chapter_start_marker(&target);
    let end = chapter_end_marker(&target);
    assert_eq!(
        check(&format!("{start}{start}{end}")),
        Err("定向重写返回了重复的 START marker：index=2 id=chapter-2。".to_string())
    );
    assert_eq!(
        check("<<<YURI_REWRITE_CHAPTER_END index=2 id=other>>>"),
        Err("定向重写返回了非目标或 ID 不匹配的 marker：index=2 id=other。".to_string())
    );
    assert_eq!(
        check("<<<YURI_REWRITE_CHAPTER_START index=99999999999999999999 id=x>>>"),
        Err("定向重写返回了无效 marker 索引。".to_string())
    );
    assert_eq!(
        check(&start),
        Err("定向重写 marker 不完整：期望 1 组，得到 1 个开始 marker 和 0 个结束 marker。".to_string())
    );
    assert_eq!(validate_targeted_rewrite_markers("正文", &[]), Ok(()));
}

#[test]
fn reasons_for_a_full_revision_are_given() {
    let chapters = (1..=6)
        .map(|index| sample_chapter(index, "标题", "原文"))
        .collect::<Vec<_>>();
    let plan = |issues: Vec<ReviewIssue>| {
        plan_review_revision(&chapters, &ReviewDecision { approved: false, issues })
    };
    let full = |reason: &str| RevisionPlan::Full(reason.to_string());
    assert_eq!(plan(Vec::new()), full("审查未提供可执行的目标章节。"));
    assert_eq!(
        plan(vec![sample_review_issue(vec![1, 2, 3, 4, 1], "chapter", "name", "错")]),
        full("目标章节 4 个，超过当前分片 6 章的一半。")
    );
    assert_eq!(
        plan(vec![sample_review_issue(vec![7, 1], "chapter", "name", "错")]),
        full("审查问题包含当前分片之外的索引：7、1 [name] 错")
    );
    assert_eq!(
        plan(vec![sample_review_issue(vec![1], "chapter", "Word_ORDER", "错")]),
        full("问题涉及跨章一致性或章节结构：1 [Word_ORDER] 错")
    );
    assert_eq!(
        plan(vec![sample_review_issue(vec![3, 1], "CHAPTER", "name", "错")]),
        RevisionPlan::Targeted(vec![1, 3])
    );
    assert_eq!(
        issue_text(&sample_review_issue(vec![], "shard", "legacy", "错")),
        "未定位章节 [legacy] 错"
    );
}

#[test]
fn a_repair_is_told_which_obligations_failed() {
    let chapters = (1..=4)
        .map(|index| sample_chapter(index, "标题", "原文"))
        .collect::<Vec<_>>();
    let obligation = |id: &str| RewriteObligation {
        obligation_id: id.to_string(),
        node_id: "N".to_string(),
        chapter_index: 1,
        rule_ids: Vec::new(),
        preserve: Vec::new(),
        required_changes: Vec::new(),
        deep_delta_categories: Vec::new(),
        forbidden_regressions: Vec::new(),
        downstream_effects: Vec::new(),
        planned_state_updates: Vec::new(),
    };
    let plan = RewritePlan {
        plan_version: "v".to_string(),
        graph_additions: Vec::new(),
        obligations: vec![obligation("O-1"), obligation("O-2"), obligation("O-3")],
        planned_state_updates: Vec::new(),
        cross_shard_dependencies: Vec::new(),
    };
    let decision = ReviewDecision {
        approved: false,
        issues: vec![sample_review_issue(vec![2], "chapter", "name", "O-3 未完成，O-1 缺失")],
    };
    let scope = repair_scope(&chapters, &plan, &decision);
    assert_eq!(scope.target_indexes, Some(vec![2]));
    assert_eq!(scope.failed_obligation_ids, vec!["O-1".to_string(), "O-3".to_string()]);
    let unlocated = ReviewDecision {
        approved: false,
        issues: vec![sample_review_issue(vec![], "shard", "legacy", "错")],
    };
    assert_eq!(repair_scope(&chapters, &plan, &unlocated).target_indexes, None);
    assert_eq!(build_repair_core_prompt("文风", None), "文风");
    assert_eq!(
        build_repair_core_prompt("文风", Some(("规则", "契约", "状态", "文风"))),
        "规则\n\n【本次修复所需契约】\n契约\n\n【相关已通过连续性状态】\n状态\n\n【低优先级全局文风补充】\n文风"
    );
}

#[test]
fn warnings_name_the_issues_that_are_left() {
    let issues = vec![
        sample_review_issue(vec![1], "chapter", "core_prompt", "第三次仍未满足核心设定"),
        sample_review_issue(vec![2, 3], "chapter", "name", "错"),
    ];
    assert_eq!(format_review_issues(&[]), "未提供具体问题。");
    let listed = format_review_issues(&issues);
    assert!(listed.starts_with("1. "));
    assert!(listed.contains("\n2. "));
    assert_eq!(review_warning_file_name("测试:小说"), "测试_小说_审查警告.log");
    let text = review_warning_text("now", "测试:小说", "第1-3章", &issues);
    assert!(text.starts_with("\n===== now =====\n小说：测试:小说\n分片：第1-3章\n结果：第三次审查仍未通过"));
    assert!(text.contains("已保存第二次重写稿并继续处理后续分片"));
    assert!(text.ends_with(&format!("第三次审查问题：\n{listed}\n")));
    assert_eq!(review_warning_outcome("/a", "/b", None, None), "/a");
    assert_eq!(
        review_warning_outcome("/a", "/b", Some("满"), None),
        "/b（写入软件根目录失败，已改写入应用数据目录：满）"
    );
    assert_eq!(
        review_warning_outcome("/a", "/b", Some("满"), Some("断")),
        "警告日志写入失败；软件根目录错误：满；应用数据目录错误：断"
    );
    assert_eq!(require_tagged_rewrite_output("提示".to_string(), false), "提示");
    assert!(require_tagged_rewrite_output("提示".to_string(), true)
        .starts_with("提示\n\n【高级短自检包装】\n"));
}
