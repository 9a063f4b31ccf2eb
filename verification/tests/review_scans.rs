//! What the scans find in rewritten chapters, and which claims of a review they refute.
use yuri_rewrite::domain::{
    Chapter, NovelSettings, ParsedChapterRewrite, ReviewDecision, ReviewIssue,
};
use yuri_rewrite::overrewrite::{
    detect_cross_chapter_copy_issues, detect_graph_v2_overrewrite_issues,
};
use yuri_rewrite::pronouns::{
    correct_unambiguous_mixed_group_pronouns, detect_mixed_group_pronoun_regressions,
    merge_deterministic_protagonist_residue_issues,
};
use yuri_rewrite::residue::{
    detect_protagonist_derived_name_residue, detect_protagonist_name_logic_inconsistency,
    protagonist_residue_candidates_from_original,
};
use yuri_rewrite::review_filter::{
    filter_review_decision_against_rewrites, review_issue_text, AuthorNotes,
};

fn sample_chapter(index: i64, title: &str, original_text: &str) -> Chapter {
    Chapter {
        id: format!("chapter-{index}"),
        novel_id: "novel-1".to_string(),
        index,
        title: title.to_string(),
        original_text: original_text.to_string(),
        analysis_json: None,
        rewrite_text: None,
        rewrite_edited: false,
        single_rewrite_original_available: false,
        analysis_status: "completed".to_string(),
        rewrite_status: "pending".to_string(),
        rewrite_validation_status: "unvalidated".to_string(),
        rewrite_obligation_total: 0,
        rewrite_obligation_satisfied: 0,
    }
}

fn sample_novel_settings() -> NovelSettings {
    NovelSettings {
        novel_id: "novel-1".to_string(),
        protagonist_name: "萧炎".to_string(),
        protagonist_aliases: "炎儿 -> 小妍儿".to_string(),
        rewritten_protagonist_name: "萧妍".to_string(),
        additional_feminize_names: "".to_string(),
        bust: "平胸".to_string(),
        body_type: "少女".to_string(),
        rewrite_mode: "strict".to_string(),
        advanced_settings: "".to_string(),
        relationship_targets: "[]".to_string(),
        updated_at: "now".to_string(),
    }
}

fn sample_review_issue(
    chapter_indexes: Vec<i64>,
    scope: &str,
    category: &str,
    problem: &str,
) -> ReviewIssue {
    ReviewIssue {
        chapter_indexes,
        scope: scope.to_string(),
        category: category.to_string(),
        severity: "blocking".to_string(),
        problem: problem.to_string(),
        required_fix: "按要求修复。".to_string(),
    }
}

fn no_notes() -> AuthorNotes {
    AuthorNotes { lines: Vec::new(), fragments: Vec::new() }
}

#[test]
fn protagonist_residue_scan_detects_original_derived_nicknames() {
    let chapter = sample_chapter(
        368,
        "第0368章 童趣",
        "石昊挥了挥手。小昊，三日后你要进去。小昊姑娘，赶紧闭关吧。昊叔，我们从村后走。",
    );
    let rewrite = ParsedChapterRewrite {
        id: chapter.id.clone(),
        index: chapter.index,
        title: chapter.title.clone(),
        text:
            "石念昔挥了挥手。小昊，三日后你要进去。小昊姑娘，赶紧闭关吧。昊叔，我们从村后走。"
                .to_string(),
    };
    let mut settings = sample_novel_settings();
    settings.protagonist_name = "石昊".to_string();
    settings.rewritten_protagonist_name = "石念昔".to_string();

    let issues = detect_protagonist_derived_name_residue(
        std::slice::from_ref(&chapter),
        std::slice::from_ref(&rewrite),
        &settings,
    );

    assert_eq!(issues.len(), 1);
    let text = review_issue_text(&issues[0]);
    assert!(text.contains("小昊"));
    assert!(text.contains("昊叔"));
    let candidates = protagonist_residue_candidates_from_original(&chapter, "石昊");
    assert!(!candidates.iter().any(|candidate| candidate == "昊"));
}

#[test]
fn protagonist_residue_scan_allows_nickname_shared_with_rewritten_name() {
    let chapter = sample_chapter(
        5,
        "第五章",
        "许纸回村后，李婶招呼道：小纸，快来坐。",
    );
    let rewrite = ParsedChapterRewrite {
        id: chapter.id.clone(),
        index: chapter.index,
        title: chapter.title.clone(),
        text: "白纸回村后，李婶招呼道：小纸，快来坐。".to_string(),
    };
    let mut settings = sample_novel_settings();
    settings.protagonist_name = "许纸".to_string();
    settings.rewritten_protagonist_name = "白纸".to_string();

    assert!(detect_protagonist_derived_name_residue(
        std::slice::from_ref(&chapter),
        std::slice::from_ref(&rewrite),
        &settings,
    )
    .is_empty());
}

#[test]
fn graph_v2_blocks_gender_labels_but_allows_contextual_appearance() {
    let chapter = sample_chapter(1, "第一章", "白纸照了照镜子，又继续收拾行李。");
    let settings = sample_novel_settings();
    let appearance = ParsedChapterRewrite {
        id: chapter.id.clone(),
        index: chapter.index,
        title: chapter.title.clone(),
        text: "萧妍照了照镜子，乌黑长发垂在肩后，又继续收拾行李。".to_string(),
    };
    assert!(detect_graph_v2_overrewrite_issues(
        std::slice::from_ref(&chapter),
        std::slice::from_ref(&appearance),
        &settings,
    )
    .is_empty());

    let stereotyped = ParsedChapterRewrite {
        text: "萧妍照了照镜子，心想身为女性就该更温柔些，又继续收拾行李。"
            .to_string(),
        ..appearance
    };
    let issues = detect_graph_v2_overrewrite_issues(
        std::slice::from_ref(&chapter),
        std::slice::from_ref(&stereotyped),
        &settings,
    );
    assert!(issues.iter().any(|issue| issue.category == "stereotype"));
}

#[test]
fn graph_v2_preserves_neutral_terms_and_unmapped_character_names() {
    let mut chapter = sample_chapter(
        3,
        "第三章",
        "陈熙看着自己的偶像萧炎，忽然笑了起来。",
    );
    chapter.analysis_json = Some(
        r#"{"characters":["萧炎：主角","陈熙：儿时邻居"],"names":["陈熙：女性"]}"#
            .to_string(),
    );
    let rewrite = ParsedChapterRewrite {
        id: chapter.id.clone(),
        index: chapter.index,
        title: chapter.title.clone(),
        text: "她看着自己的榜样萧妍，忽然笑了起来。".to_string(),
    };

    let issues = detect_graph_v2_overrewrite_issues(
        std::slice::from_ref(&chapter),
        std::slice::from_ref(&rewrite),
        &sample_novel_settings(),
    );

    assert!(issues.iter().any(|issue| issue.category == "neutral_term"));
    assert!(issues.iter().any(|issue| {
        issue.category == "entity_name" && issue.problem.contains("陈熙")
    }));
}

#[test]
fn graph_v2_detects_content_copied_from_another_chapter() {
    let repeated = "幼年虫猿仰头望向天空质问巨人为何不曾拯救自己的父母和兄长";
    let chapters = vec![
        sample_chapter(5, "第五章", "白纸打开包裹，把道具放到桌上。"),
        sample_chapter(6, "第六章", &format!("{repeated}，随后接过了文明之火。")),
    ];
    let rewrites = vec![
        ParsedChapterRewrite {
            id: chapters[0].id.clone(),
            index: 5,
            title: chapters[0].title.clone(),
            text: format!("白纸打开包裹。{repeated}，随后接过了文明之火。"),
        },
        ParsedChapterRewrite {
            id: chapters[1].id.clone(),
            index: 6,
            title: chapters[1].title.clone(),
            text: format!("{repeated}，随后接过了文明之火。"),
        },
    ];

    let issues = detect_cross_chapter_copy_issues(&chapters, &rewrites);

    assert!(issues.iter().any(|issue| {
        issue.category == "boundary" && issue.chapter_indexes.contains(&5)
    }));
}

#[test]
fn protagonist_residue_scan_handles_multi_character_given_names() {
    let chapter = sample_chapter(12, "第十二章", "李火旺回头。小火旺别闹。旺哥今日出门。");
    let rewrite = ParsedChapterRewrite {
        id: chapter.id.clone(),
        index: chapter.index,
        title: chapter.title.clone(),
        text: "李火婉回头。小火旺别闹。旺哥今日出门。".to_string(),
    };
    let mut settings = sample_novel_settings();
    settings.protagonist_name = "李火旺".to_string();
    settings.rewritten_protagonist_name = "李火婉".to_string();

    let issues = detect_protagonist_derived_name_residue(
        std::slice::from_ref(&chapter),
        std::slice::from_ref(&rewrite),
        &settings,
    );

    assert_eq!(issues.len(), 1);
    let text = review_issue_text(&issues[0]);
    assert!(text.contains("小火旺"));
    assert!(text.contains("旺哥"));
}

#[test]
fn protagonist_residue_scan_ignores_bare_last_character_and_unseen_candidates() {
    let chapter = sample_chapter(9, "第九章", "石昊进入昊天塔。");
    let rewrite = ParsedChapterRewrite {
        id: chapter.id.clone(),
        index: chapter.index,
        title: chapter.title.clone(),
        text: "石念昔进入昊天塔。昊哥没有出现在原文，不能凭空当残留。".to_string(),
    };
    let mut settings = sample_novel_settings();
    settings.protagonist_name = "石昊".to_string();
    settings.rewritten_protagonist_name = "石念昔".to_string();

    let issues = detect_protagonist_derived_name_residue(
        std::slice::from_ref(&chapter),
        std::slice::from_ref(&rewrite),
        &settings,
    );

    assert!(issues.is_empty());
}

#[test]
fn protagonist_residue_scan_preserves_npc_with_shared_name_character() {
    let chapter = sample_chapter(
        370,
        "第0370章 双昊",
        "石昊脸上平静。秦昊走来，与石昊一样，以昊为名，只是姓氏不同。",
    );
    let rewrite = ParsedChapterRewrite {
        id: chapter.id.clone(),
        index: chapter.index,
        title: chapter.title.clone(),
        text: "石念昔脸上平静。秦昊走来，与她相似，只是姓氏不同。".to_string(),
    };
    let mut settings = sample_novel_settings();
    settings.protagonist_name = "石昊".to_string();
    settings.rewritten_protagonist_name = "石念昔".to_string();

    let issues = detect_protagonist_derived_name_residue(
        std::slice::from_ref(&chapter),
        std::slice::from_ref(&rewrite),
        &settings,
    );

    assert!(issues.is_empty());
    let candidates = protagonist_residue_candidates_from_original(&chapter, "石昊");
    assert!(!candidates.iter().any(|candidate| candidate == "秦昊"));
}

#[test]
fn protagonist_name_logic_scan_flags_old_name_semantic_conflict() {
    let chapter = sample_chapter(
        370,
        "第0370章 双昊",
        "石昊脸上平静。秦昊走来，与石昊一样，以昊为名，只是姓氏不同。",
    );
    let rewrite = ParsedChapterRewrite {
        id: chapter.id.clone(),
        index: chapter.index,
        title: chapter.title.clone(),
        text: "石念昔脸上平静。秦昊走来，与她原本同名，都曾以昊为名，只是姓氏不同。"
            .to_string(),
    };
    let mut settings = sample_novel_settings();
    settings.protagonist_name = "石昊".to_string();
    settings.rewritten_protagonist_name = "石念昔".to_string();

    let issues = detect_protagonist_name_logic_inconsistency(
        std::slice::from_ref(&chapter),
        std::slice::from_ref(&rewrite),
        &settings,
    );

    assert_eq!(issues.len(), 1);
    let text = review_issue_text(&issues[0]);
    assert!(text.contains("姓名逻辑矛盾"));
    assert!(text.contains("以昊为名"));
}

#[test]
fn protagonist_residue_scan_merges_with_ai_review_decision() {
    let chapter = sample_chapter(1, "第一章", "萧炎来了。小炎也来了。");
    let rewrite = ParsedChapterRewrite {
        id: chapter.id.clone(),
        index: chapter.index,
        title: chapter.title.clone(),
        text: "萧妍来了。小炎也来了。".to_string(),
    };
    let decision = ReviewDecision {
        approved: true,
        issues: Vec::new(),
    };

    let (decision, added) = merge_deterministic_protagonist_residue_issues(
        decision,
        std::slice::from_ref(&chapter),
        std::slice::from_ref(&rewrite),
        &sample_novel_settings(),
    );

    assert!(!decision.approved);
    assert_eq!(added.len(), 1);
    assert_eq!(decision.issues[0].chapter_indexes, vec![1]);
    assert!(review_issue_text(&decision.issues[0]).contains("小炎"));
}

#[test]
fn deterministic_scan_catches_blind_feminization_of_a_mixed_family_pronoun() {
    let chapter = sample_chapter(
        1,
        "第一章",
        "他们家在村里原先算是有矿。后来生意亏损，父母也气得倒下了。",
    );
    let rewrite = ParsedChapterRewrite {
        id: chapter.id.clone(),
        index: chapter.index,
        title: chapter.title.clone(),
        text: "她们家在村里原先算是有矿。后来生意亏损，父母也气得倒下了。"
            .to_string(),
    };

    let issues = detect_mixed_group_pronoun_regressions(&[chapter], &[rewrite]);

    assert_eq!(issues.len(), 1);
    assert!(review_issue_text(&issues[0]).contains("她们家"));
    assert!(review_issue_text(&issues[0]).contains("她家"));
}

#[test]
fn unambiguous_mixed_family_pronoun_is_corrected_without_a_model_call() {
    let chapter = sample_chapter(
        1,
        "第一章",
        "他们家在村里原先算是有矿。后来生意亏损，父母也气得倒下了。",
    );
    let mut rewrites = vec![ParsedChapterRewrite {
        id: chapter.id.clone(),
        index: chapter.index,
        title: chapter.title.clone(),
        text: "她们家在村里原先算是有矿。后来生意亏损，父母也气得倒下了。"
            .to_string(),
    }];

    assert_eq!(
        correct_unambiguous_mixed_group_pronouns(&[chapter], &mut rewrites),
        1
    );
    assert!(rewrites[0].text.contains("他们家"));
    assert!(!rewrites[0].text.contains("她们家"));
}

#[test]
fn a_second_correction_finds_nothing() {
    let chapter = sample_chapter(1, "第一章", "父亲说他们家要搬走。他们一家都同意。");
    let mut rewrites = vec![
        ParsedChapterRewrite {
            id: chapter.id.clone(),
            index: chapter.index,
            title: "她们家".to_string(),
            text: "父亲说她们家要搬走。她们一家都同意。".to_string(),
        },
        ParsedChapterRewrite {
            id: "other".to_string(),
            index: 2,
            title: "第二章".to_string(),
            text: "她们家".to_string(),
        },
    ];
    let chapters = vec![chapter];

    assert_eq!(correct_unambiguous_mixed_group_pronouns(&chapters, &mut rewrites), 2);
    assert_eq!(rewrites[0].text, "父亲说他们家要搬走。他们一家都同意。");
    assert_eq!(rewrites[0].title, "她们家");
    assert_eq!(rewrites[1].text, "她们家");
    let once = rewrites.clone();
    assert_eq!(correct_unambiguous_mixed_group_pronouns(&chapters, &mut rewrites), 0);
    assert_eq!(rewrites, once);
}

#[test]
fn deterministic_scan_allows_an_all_female_family_group() {
    let chapter = sample_chapter(1, "第一章", "他们家三姐妹一起回来了。");
    let rewrite = ParsedChapterRewrite {
        id: chapter.id.clone(),
        index: chapter.index,
        title: chapter.title.clone(),
        text: "她们家三姐妹一起回来了。".to_string(),
    };

    assert!(detect_mixed_group_pronoun_regressions(&[chapter], &[rewrite]).is_empty());
}

#[test]
fn review_decision_filters_hallucinated_source_name_residue() {
    let decision = ReviewDecision {
        approved: false,
        issues: vec![sample_review_issue(
            vec![27],
            "chapter",
            "gender_residue",
            "第27章中，原文‘石昊眼神清亮’未改写，残留主角男性姓名‘石昊’。",
        )],
    };
    let rewrites = vec![ParsedChapterRewrite {
        id: "chapter-27".to_string(),
        index: 27,
        title: "第27章".to_string(),
        text: "石林虎将石念昔抛上高空，石念昔眼神清亮。".to_string(),
    }];

    let mut settings = sample_novel_settings();
    settings.protagonist_name = "石昊".to_string();
    settings.rewritten_protagonist_name = "石念昔".to_string();
    let (filtered_decision, filtered_issues) =
        filter_review_decision_against_rewrites(
            decision,
            &[],
            &rewrites,
            &settings,
            &no_notes(),
        );

    assert!(filtered_decision.approved);
    assert!(filtered_decision.issues.is_empty());
    assert_eq!(filtered_issues.len(), 1);
}

#[test]
fn review_decision_keeps_verified_source_name_residue() {
    let decision = ReviewDecision {
        approved: false,
        issues: vec![sample_review_issue(
            vec![27],
            "chapter",
            "gender_residue",
            "第27章仍残留主角男性姓名‘萧炎’，必须修改。",
        )],
    };
    let rewrites = vec![ParsedChapterRewrite {
        id: "chapter-27".to_string(),
        index: 27,
        title: "第27章".to_string(),
        text: "萧炎抬起头。".to_string(),
    }];

    let (filtered_decision, filtered_issues) = filter_review_decision_against_rewrites(
        decision,
        &[],
        &rewrites,
        &sample_novel_settings(),
        &no_notes(),
    );

    assert!(!filtered_decision.approved);
    assert_eq!(filtered_decision.issues.len(), 1);
    assert!(filtered_issues.is_empty());
}

#[test]
fn review_decision_filters_hallucinated_quoted_gender_residue() {
    let decision = ReviewDecision {
        approved: false,
        issues: vec![sample_review_issue(
            vec![255],
            "chapter",
            "gender_residue",
            "第255章正文中，存在一处指代主角的男性化称谓残留：‘在场中防御的少年也很逆天’。此处少年明显指代正在防御的主角，必须修改为少女。",
        )],
    };
    let rewrites = vec![ParsedChapterRewrite {
        id: "chapter-255".to_string(),
        index: 255,
        title: "第255章".to_string(),
        text: "每一个人都震惊，在场中防御的少女也很逆天，居然以十大洞天挡住了。".to_string(),
    }];

    let (filtered_decision, filtered_issues) = filter_review_decision_against_rewrites(
        decision,
        &[],
        &rewrites,
        &sample_novel_settings(),
        &no_notes(),
    );

    assert!(filtered_decision.approved);
    assert!(filtered_decision.issues.is_empty());
    assert_eq!(filtered_issues.len(), 1);
}

#[test]
fn review_decision_keeps_quoted_gender_residue_present_in_rewrite() {
    let decision = ReviewDecision {
        approved: false,
        issues: vec![sample_review_issue(
            vec![255],
            "chapter",
            "gender_residue",
            "第255章正文中，存在一处指代主角的男性化称谓残留：‘在场中防御的少年也很逆天’。必须修改为少女。",
        )],
    };
    let rewrites = vec![ParsedChapterRewrite {
        id: "chapter-255".to_string(),
        index: 255,
        title: "第255章".to_string(),
        text: "每一个人都震惊，在场中防御的少年也很逆天，居然以十大洞天挡住了。".to_string(),
    }];

    let (filtered_decision, filtered_issues) = filter_review_decision_against_rewrites(
        decision,
        &[],
        &rewrites,
        &sample_novel_settings(),
        &no_notes(),
    );

    assert!(!filtered_decision.approved);
    assert_eq!(filtered_decision.issues.len(), 1);
    assert!(filtered_issues.is_empty());
}

#[test]
fn review_decision_filters_neutral_nickname_style_complaints() {
    let decision = ReviewDecision {
        approved: false,
        issues: vec![
            sample_review_issue(
                vec![254],
                "chapter",
                "gender_residue",
                "第254章中，旁白已有‘这凶残的少女开创了一个又一个另类的纪录’，但前文仍有感叹‘我就知道，这个家伙又要凶残到底了’，其中‘这个家伙’指代主角，保留了中性/偏男性泛指，与整体称为少女的风格不一致。",
            ),
            sample_review_issue(
                vec![244],
                "chapter",
                "gender_residue",
                "第244章中，‘熊孩子不时与人激战’仍保留中性昵称‘熊孩子’，建议改为石念昔。",
            ),
        ],
    };
    let rewrites = vec![
        ParsedChapterRewrite {
            id: "chapter-254".to_string(),
            index: 254,
            title: "第254章".to_string(),
            text: "旁白写道，这凶残的少女开创了一个又一个另类的纪录。陆地生灵感叹：我就知道，这个家伙又要凶残到底了。".to_string(),
        },
        ParsedChapterRewrite {
            id: "chapter-244".to_string(),
            index: 244,
            title: "第244章".to_string(),
            text: "在前行的路上，熊孩子不时与人激战，笑得很开心。".to_string(),
        },
    ];

    let (filtered_decision, filtered_issues) = filter_review_decision_against_rewrites(
        decision,
        &[],
        &rewrites,
        &sample_novel_settings(),
        &no_notes(),
    );

    assert!(filtered_decision.approved);
    assert!(filtered_decision.issues.is_empty());
    assert_eq!(filtered_issues.len(), 2);
}

#[test]
fn review_decision_keeps_explicit_male_reference_even_near_neutral_nickname() {
    let decision = ReviewDecision {
        approved: false,
        issues: vec![
            sample_review_issue(
                vec![244],
                "chapter",
                "gender_residue",
                "第244章中，‘这个家伙还是少年模样’明确将主角称为少年，必须修改。",
            ),
            sample_review_issue(
                vec![245],
                "chapter",
                "gender_residue",
                "第245章中，‘他抬头看向众人’仍使用男性代词指代主角，必须修改。",
            ),
        ],
    };
    let rewrites = vec![
        ParsedChapterRewrite {
            id: "chapter-244".to_string(),
            index: 244,
            title: "第244章".to_string(),
            text: "这个家伙还是少年模样，却挡住了众人。".to_string(),
        },
        ParsedChapterRewrite {
            id: "chapter-245".to_string(),
            index: 245,
            title: "第245章".to_string(),
            text: "他抬头看向众人，神情平静。".to_string(),
        },
    ];

    let (filtered_decision, filtered_issues) = filter_review_decision_against_rewrites(
        decision,
        &[],
        &rewrites,
        &sample_novel_settings(),
        &no_notes(),
    );

    assert!(!filtered_decision.approved);
    assert_eq!(filtered_decision.issues.len(), 2);
    assert!(filtered_issues.is_empty());
}

#[test]
fn review_decision_filters_ambiguous_non_human_pronoun_complaints() {
    let decision = ReviewDecision {
        approved: false,
        issues: vec![sample_review_issue(
            vec![88],
            "chapter",
            "gender_residue",
            "第88章中，灵兽原文性别不明，但改写稿仍称‘它盘踞在石台上’，没有改成女性代词。应改为‘她’以统一女性化。",
        )],
    };
    let rewrites = vec![ParsedChapterRewrite {
        id: "chapter-88".to_string(),
        index: 88,
        title: "第88章".to_string(),
        text: "那头灵兽沉默不语，它盘踞在石台上，双目发光。".to_string(),
    }];

    let (filtered_decision, filtered_issues) = filter_review_decision_against_rewrites(
        decision,
        &[],
        &rewrites,
        &sample_novel_settings(),
        &no_notes(),
    );

    assert!(filtered_decision.approved);
    assert!(filtered_decision.issues.is_empty());
    assert_eq!(filtered_issues.len(), 1);
}

#[test]
fn review_decision_allows_ambiguous_non_human_original_he_pronoun() {
    let decision = ReviewDecision {
        approved: false,
        issues: vec![sample_review_issue(
            vec![89],
            "chapter",
            "gender_residue",
            "第89章中，妖兽原文性别不明，但改写稿仍称‘他伏在洞口’，没有改成女性代词。应改为‘她’以统一女性化。",
        )],
    };
    let rewrites = vec![ParsedChapterRewrite {
        id: "chapter-89".to_string(),
        index: 89,
        title: "第89章".to_string(),
        text: "那头妖兽没有回应，他伏在洞口，像是在守着什么。".to_string(),
    }];

    let (filtered_decision, filtered_issues) = filter_review_decision_against_rewrites(
        decision,
        &[],
        &rewrites,
        &sample_novel_settings(),
        &no_notes(),
    );

    assert!(filtered_decision.approved);
    assert!(filtered_decision.issues.is_empty());
    assert_eq!(filtered_issues.len(), 1);
}

#[test]
fn review_decision_filters_missing_droppable_author_notes_only() {
    let chapter = sample_chapter(
        177,
        "第177章 归来",
        "她推门走进院中。\n作者年份勘误\n大家投\nし\n----------",
    );
    let rewrite = ParsedChapterRewrite {
        id: chapter.id.clone(),
        index: chapter.index,
        title: chapter.title.clone(),
        text: "她推门走进院中。".to_string(),
    };
    let decision = ReviewDecision {
        approved: false,
        issues: vec![
            sample_review_issue(
                vec![177],
                "chapter",
                "content_missing",
                "改写稿删除了原文中的“作者年份勘误”。",
            ),
            sample_review_issue(
                vec![177],
                "chapter",
                "content_missing",
                "改写稿未保留“大家投”。",
            ),
            sample_review_issue(
                vec![177],
                "chapter",
                "content_missing",
                "改写稿删除了单独的 し 和“----------”。",
            ),
        ],
    };

    let droppable = || {
        vec!["作者年份勘误", "大家投", "し", "----------"]
            .into_iter()
            .map(str::to_string)
            .collect::<Vec<_>>()
    };
    let notes = AuthorNotes { lines: droppable(), fragments: droppable() };

    let (filtered_decision, filtered_issues) = filter_review_decision_against_rewrites(
        decision,
        std::slice::from_ref(&chapter),
        std::slice::from_ref(&rewrite),
        &sample_novel_settings(),
        &notes,
    );

    assert!(filtered_decision.approved);
    assert_eq!(filtered_issues.len(), 3);
}

#[test]
fn review_decision_keeps_missing_story_or_protected_postscript() {
    let chapter = sample_chapter(
        180,
        "第180章 尾声",
        "她推门走进院中，终于见到了等待多年的人。\n完本感言\n感谢一路陪伴。",
    );
    let rewrite = ParsedChapterRewrite {
        id: chapter.id.clone(),
        index: chapter.index,
        title: chapter.title.clone(),
        text: "她推门走进院中。".to_string(),
    };
    let decision = ReviewDecision {
        approved: false,
        issues: vec![
            sample_review_issue(
                vec![180],
                "chapter",
                "content_missing",
                "改写稿删除了“终于见到了等待多年的人”。",
            ),
            sample_review_issue(
                vec![180],
                "chapter",
                "content_missing",
                "改写稿删除了“完本感言”。",
            ),
        ],
    };

    let (filtered_decision, filtered_issues) = filter_review_decision_against_rewrites(
        decision,
        std::slice::from_ref(&chapter),
        std::slice::from_ref(&rewrite),
        &sample_novel_settings(),
        &no_notes(),
    );

    assert!(!filtered_decision.approved);
    assert_eq!(filtered_decision.issues.len(), 2);
    assert!(filtered_issues.is_empty());
}
