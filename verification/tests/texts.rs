//! Texts that models send and that the library keeps, shows and compares.
use yuri_rewrite::analysis::{
    analysis_asset_char_limit, assets_from_analyses, assets_to_fill, collect_analysis_field,
    collect_analysis_terms, compact_analysis_asset, json_field_to_text, normalize_analysis_entry,
    truncate_analysis_asset_at_line,
};
use yuri_rewrite::coverage::{
    are_pieces_found, chapter_validations, coverage_fragment_exists, extract_quoted_coverage_evidence,
    normalize_coverage_evidence, split_coverage_evidence, within_one_edit,
};
use yuri_rewrite::decision::extract_review_issue_indexes;
use yuri_rewrite::dependency::{
    dependency_token, does_one_hold_other, is_searchable, is_thread_dependency,
    normalized_thread_key,
};
use yuri_rewrite::domain::{
    Chapter, NameMappingEntry, NovelSettings, ReviewCoverageItem, RewriteObligation, RewritePlan,
};
use yuri_rewrite::excerpt::{
    compact_log_line, format_model_log_content, sanitize_file_name, truncate_text,
    truncate_text_tail,
};
use yuri_rewrite::json::{
    escape_unescaped_json_control_chars, normalize_jsonish, parse_jsonish_value, readable_json,
    Json,
};
use yuri_rewrite::names::{
    build_name_mapping_asset, build_name_mapping_prompt, fallback_feminized_name,
    finish_name_mapping, parse_additional_feminize_name_entry,
    parse_generated_name_mapping_entries, parse_name_mapping_entries, start_name_mapping,
    upsert_name_mapping_entry,
};
use yuri_rewrite::overrewrite::{
    copied_shingle_example, names_in_analysis, normalize_copy_scan_text,
};
use yuri_rewrite::patterns::redact_sensitive_text;
use yuri_rewrite::prompts::{
    build_batch_review_decision_prompt_with_context, build_compact_review_constraints,
    build_graph_review_decision_prompt, compact_review_canon, ContractTexts, ReviewTexts,
};
use yuri_rewrite::residue::{protagonist_derived_name_candidates, split_review_sentences};
use yuri_rewrite::review_filter::extract_review_quoted_evidence;
use yuri_rewrite::settings::{
    api_key_storage_from_values, build_model_diagnosis, choose_stored_api_key, diagnosis_check,
    diagnosis_log, require_novel_settings, StoredKey,
};
use yuri_rewrite::targets::RelationshipTargetEntry;

fn settings() -> NovelSettings {
    NovelSettings {
        novel_id: "novel-1".to_string(),
        protagonist_name: "萧炎".to_string(),
        protagonist_aliases: String::new(),
        rewritten_protagonist_name: "萧妍".to_string(),
        additional_feminize_names: String::new(),
        bust: "平胸".to_string(),
        body_type: "少女".to_string(),
        rewrite_mode: "strict".to_string(),
        advanced_settings: String::new(),
        relationship_targets: "[]".to_string(),
        updated_at: "now".to_string(),
    }
}

fn entry(source: &str, target: &str) -> NameMappingEntry {
    NameMappingEntry { source: source.to_string(), target: target.to_string() }
}

#[test]
fn code_fences_are_taken_off() {
    assert_eq!(normalize_jsonish("  ```json\n{}\n```  "), "{}");
    assert_eq!(normalize_jsonish("``````{}``````"), "{}");
    assert_eq!(normalize_jsonish("```json```json{}"), "{}");
    assert_eq!(normalize_jsonish(" {} "), "{}");
}

#[test]
fn control_characters_are_escaped_inside_strings_only() {
    assert_eq!(
        escape_unescaped_json_control_chars("{\n\"a\":\"x\n\r\t\u{1}y\"\n}"),
        "{\n\"a\":\"x\\n\\r\\t\\u0001y\"\n}"
    );
    assert_eq!(escape_unescaped_json_control_chars("\"a\\\"\n\""), "\"a\\\"\\n\"");
    assert_eq!(escape_unescaped_json_control_chars("\"\u{85}\u{7f}\""), "\"\\u0085\\u007F\"");
}

#[test]
fn values_are_read_after_a_repair() {
    let value = parse_jsonish_value("```json\n{\"a\":\"x\ny\",\"n\":[1,2.5,null,true]}\n```").expect("read");
    assert_eq!(value.get_text("a").map(|s| s.as_str()), Some("x\ny"));
    let list = value.get_list("n").expect("a list");
    assert_eq!(list[0], Json::Number { integer: Some(1), text: "1".to_string() });
    assert_eq!(list[1], Json::Number { integer: None, text: "2.5".to_string() });
    assert_eq!(list[2], Json::Null);
    assert_eq!(list[3], Json::Bool(true));
    assert!(value.get("b").is_none());
}

#[test]
fn values_that_cannot_be_read_say_why() {
    assert!(parse_jsonish_value(" \n ").expect_err("blank").starts_with("AI 返回了空响应正文"));
    assert_eq!(
        parse_jsonish_value("{\"a\":}").expect_err("no value"),
        "expected value at line 1 column 6"
    );
    let message = parse_jsonish_value("{\"a\":\"x\ny\"").expect_err("no end");
    assert!(message.contains("；修复控制字符后仍失败："));
}

#[test]
fn long_texts_are_cut_with_a_note() {
    assert_eq!(truncate_text("一二三", 3), "一二三");
    assert_eq!(truncate_text("一二三四", 3), "一二三\n\n[由于上下文限制，本章后续内容已截断。]");
    assert_eq!(truncate_text_tail("一二三四", 4), "一二三四");
    assert_eq!(truncate_text_tail("一二三四", 3), "[由于上下文限制，本章前文已截断。]\n\n二三四");
    assert_eq!(compact_log_line("  a \n b\u{3000}c ", 5), "a b c");
    assert_eq!(compact_log_line("a b c", 4), "a b ...");
    assert_eq!(compact_log_line("", 0), "");
}

#[test]
fn logs_show_the_figures_of_a_call() {
    assert_eq!(
        format_model_log_content(" 正文 ", 120, 30, "2.50", "auto", Some(true)),
        "调用统计：\n- 输入字符数：120\n- 输出字符数：30\n- AI 调用耗时：2.50 秒\n- 复检：开启\n- 思考模式：auto\n\n正文"
    );
    assert!(format_model_log_content("", 0, 0, "0.00", "off", None).contains("- 复检：不适用\n"));
}

#[test]
fn file_names_hold_no_forbidden_characters() {
    assert_eq!(sanitize_file_name("测试:小说<1>/\\|?*\""), "测试_小说_1_______");
    assert_eq!(sanitize_file_name("  "), "novel");
    assert_eq!(sanitize_file_name("a b"), "a b");
}

#[test]
fn secrets_are_taken_out() {
    assert_eq!(
        redact_sensitive_text("GET https://x/?API_KEY=abc&b=1 Authorization: Bearer xyz, ok"),
        "GET https://x/?API_KEY=[REDACTED]&b=1 Authorization: Bearer [REDACTED], ok"
    );
    assert_eq!(redact_sensitive_text("token abc"), "token abc");
}

#[test]
fn name_entries_are_read() {
    let read = |s: &str| parse_additional_feminize_name_entry(s);
    assert_eq!(read(" 林动 => 林筝 "), Some(("林动".to_string(), Some("林筝".to_string()))));
    assert_eq!(read("林动→林动"), Some(("林动".to_string(), None)));
    assert_eq!(read(" -> 林筝"), None);
    assert_eq!(read("  "), None);
    assert_eq!(read("a=>b->c"), Some(("a=>b".to_string(), Some("c".to_string()))));
}

#[test]
fn fallback_names_keep_the_family_name() {
    assert_eq!(fallback_feminized_name("唐三"), "唐姗");
    assert_eq!(fallback_feminized_name("林动"), "林妍");
    assert_eq!(fallback_feminized_name("炎"), "妍");
    assert_eq!(fallback_feminized_name("动"), "妍");
    assert_eq!(fallback_feminized_name(""), "妍");
    assert_eq!(fallback_feminized_name("王龙虎"), "王珑琥");
}

#[test]
fn mappings_are_kept_complete() {
    let mut entries = vec![entry("甲", "乙")];
    upsert_name_mapping_entry(&mut entries, " 甲 ", " 丙 ");
    upsert_name_mapping_entry(&mut entries, "丁", "  ");
    upsert_name_mapping_entry(&mut entries, "戊", "己");
    assert_eq!(entries, vec![entry("甲", "丙"), entry("戊", "己")]);

    let mut settings = settings();
    settings.additional_feminize_names = "林动 -> 林筝\n唐三\n许仙".to_string();
    let work = start_name_mapping(vec![entry("林动", "旧")], &settings).expect("names to map");
    assert_eq!(work.missing, vec!["唐三".to_string(), "许仙".to_string()]);
    let asset = finish_name_mapping(work, &[entry("许仙", "许纤")], &settings);
    assert_eq!(asset.version, 1);
    assert_eq!(asset.protagonist, Some(entry("萧炎", "萧妍")));
    assert_eq!(
        asset.names,
        vec![entry("唐三", "唐姗"), entry("林动", "林筝"), entry("萧炎", "萧妍"), entry("许仙", "许纤")]
    );
    settings.protagonist_name = " ".to_string();
    settings.additional_feminize_names = String::new();
    assert!(start_name_mapping(Vec::new(), &settings).is_none());
}

#[test]
fn the_mapping_of_a_novel_holds_what_was_demanded() {
    let settings = NovelSettings {
        protagonist_aliases: "炎儿 -> 小妍儿".to_string(),
        additional_feminize_names: "林动 -> 林筝\n唐三".to_string(),
        ..settings()
    };
    let asset = build_name_mapping_asset(&settings, vec![entry("唐三", &fallback_feminized_name("唐三"))]);
    for pair in [("萧炎", "萧妍"), ("炎儿", "小妍儿"), ("林动", "林筝"), ("唐三", "唐姗")] {
        assert!(asset.names.contains(&entry(pair.0, pair.1)));
    }
    assert_eq!(asset.names.len(), 4);
}

#[test]
fn mappings_are_read_from_answers() {
    let sources = vec!["唐三".to_string(), " 林动 ".to_string()];
    assert_eq!(
        parse_generated_name_mapping_entries(
            r#"{"mappings":[{"original":"唐三","to":"唐姗"},{"source":"他人","target":"x"},{"from":"林动","rewritten":" 林冬 "},{"source":"唐三","target":"唐三"}]}"#,
            &sources
        ),
        Ok(vec![entry("唐三", "唐姗"), entry("林动", "林冬")])
    );
    assert_eq!(
        parse_generated_name_mapping_entries("{}", &sources),
        Err("姓名映射 JSON 缺少 names 数组。".to_string())
    );
    assert_eq!(
        parse_generated_name_mapping_entries(r#"{"names":[]}"#, &sources),
        Err("姓名映射 JSON 中没有可用映射。".to_string())
    );
    assert_eq!(
        parse_name_mapping_entries(
            r#"{"protagonist":{"source":"甲","target":"乙"},"names":[{"source":"甲","target":"丙"},{"source":"丁","target":""}]}"#
        ),
        vec![entry("甲", "丙")]
    );
    assert!(parse_name_mapping_entries("坏").is_empty());
    let prompt = build_name_mapping_prompt(&settings(), &sources);
    assert!(prompt.contains("强制映射：\n萧炎 -> 萧妍\n"));
    assert!(prompt.ends_with("待生成姓名：\n唐三\n 林动 "));
}

#[test]
fn values_are_put_into_words() {
    let value = parse_jsonish_value(r#"{"a":["x",{"b":[1],"a":"y"}," ",["z"],null,false,3.5]}"#).expect("read");
    assert_eq!(
        json_field_to_text(value.get("a").expect("a field")),
        "- x\n- {\n  \"a\": \"y\",\n  \"b\": [\n    1\n  ]\n}\n- - z\n- false\n- 3.5"
    );
    assert_eq!(json_field_to_text(&Json::Null), "");
}

#[test]
fn an_object_is_printed_as_it_was_read() {
    let text = r#"{"b":{"x":1.7976931348623155e308,"y":[2.2250738585072011e-308,0.1]},"a":4.35E-12}"#;
    let outside: serde_json::Value = serde_json::from_str(text).expect("read");
    let value = parse_jsonish_value(text).expect("read");
    assert_eq!(
        json_field_to_text(&value),
        serde_json::to_string_pretty(&outside).expect("print")
    );
    assert_eq!(
        json_field_to_text(value.get("b").expect("a field")),
        serde_json::to_string_pretty(&outside["b"]).expect("print")
    );
}

#[test]
fn the_readable_text_of_an_answer_is_found() {
    assert_eq!(readable_json("```json\n{\"a\": 1}\n```"), Ok("{\"a\": 1}".to_string()));
    assert_eq!(readable_json("{\"a\":\"x\ny\"}"), Ok("{\"a\":\"x\\ny\"}".to_string()));
    assert_eq!(readable_json("{\"a\":}"), Err("expected value at line 1 column 6".to_string()));
    assert!(readable_json(" ").expect_err("blank").starts_with("AI 返回了空响应正文"));
}

#[test]
fn assets_are_collected_from_analyses() {
    let rows = vec![
        (
            "第1章".to_string(),
            r#"{"characters":["萧炎：主角"],"terms":"斗气","names":["炎儿"],"rewrite_notes":""}"#.to_string(),
        ),
        ("第2章".to_string(), "坏".to_string()),
        ("第3章".to_string(), r#"{"characters":[]}"#.to_string()),
    ];
    assert_eq!(collect_analysis_field(&rows, "characters"), "## 第1章\n- 萧炎：主角");
    assert_eq!(collect_analysis_field(&rows, "locations"), "");
    assert_eq!(
        collect_analysis_terms(&rows),
        "## 第1章\n原文术语：\n斗气\n\n原文姓名与称谓：\n- 炎儿"
    );
    let assets = assets_to_fill(&rows);
    assert_eq!(
        assets.iter().map(|(kind, _)| kind.as_str()).collect::<Vec<_>>(),
        vec!["AI分析汇总", "人物卡", "术语表"]
    );
    assert_eq!(assets[1].1, "## 第1章\n- 萧炎：主角");
    assert!(assets_to_fill(&[]).is_empty());
    let all = assets_from_analyses(&rows);
    assert_eq!(
        all.iter().map(|(kind, _)| kind.as_str()).collect::<Vec<_>>(),
        vec!["AI分析汇总", "人物卡", "人物关系", "地点", "伏笔", "术语表"]
    );
    assert_eq!(all[3].1, "");
}

#[test]
fn entries_that_say_the_same_are_kept_once() {
    assert_eq!(normalize_analysis_entry("- 萧炎，主角 。"), "萧炎主角");
    assert_eq!(
        compact_analysis_asset("人物卡", "## 甲\r\n- 萧炎：主角\r## 甲\n\n萧炎 主角。\n-，\n 药老 "),
        "## 甲\n- 萧炎：主角\n## 甲\n药老"
    );
    assert_eq!(analysis_asset_char_limit("人物卡"), 7_000);
    assert_eq!(analysis_asset_char_limit("其他"), 3_000);
    let line = "字".repeat(1_500);
    let content = format!("{line}\n{line}\n尾");
    let note = "[地点已去重并达到长度上限，后续低相关条目已省略]";
    assert_eq!(truncate_analysis_asset_at_line("地点", &"字".repeat(3_000)), "字".repeat(3_000));
    assert_eq!(truncate_analysis_asset_at_line("地点", &"字".repeat(3_001)), note);
    let kept = truncate_analysis_asset_at_line("地点", &format!("{content}{line}"));
    assert_eq!(kept, format!("{line}\n{note}"));
    let first = "字".repeat(1_000);
    let second = "字".repeat(2_000 - 2 - note.chars().count());
    let kept = truncate_analysis_asset_at_line("地点", &format!("{first}\n{second}\n{first}"));
    assert_eq!(kept, format!("{first}\n{second}\n{note}"));
    assert_eq!(kept.chars().count(), 3_000);
    let kept = truncate_analysis_asset_at_line("地点", &format!("{first}\n{second}字\n{first}"));
    assert_eq!(kept, format!("{first}\n{note}"));
    let short = "字".repeat(10);
    let long = "字".repeat(2_964);
    let kept = truncate_analysis_asset_at_line(
        "地点",
        &format!("{short}\n{long}\n{}", "字".repeat(100)),
    );
    assert!(kept.chars().count() <= analysis_asset_char_limit("地点"));
}

#[test]
fn chapter_numbers_are_found_in_words() {
    assert_eq!(extract_review_issue_indexes("分片索引：5、chapter_index = 3，分片索引 5"), vec![3, 5]);
    assert!(extract_review_issue_indexes("第21章").is_empty());
    assert!(extract_review_issue_indexes("分片索引 99999999999999999999").is_empty());
}

#[test]
fn one_wrong_character_is_forgiven() {
    let chars = |s: &str| s.chars().collect::<Vec<_>>();
    assert!(within_one_edit(&chars("气不接下气"), &chars("气不接上气")));
    assert!(within_one_edit(&chars("abc"), &chars("abcd")));
    assert!(within_one_edit(&chars("abc"), &chars("abc")));
    assert!(!within_one_edit(&chars("abc"), &chars("acb")));
    assert!(!within_one_edit(&chars("ab"), &chars("abcd")));
    assert_eq!(normalize_coverage_evidence("她 说：“Hello！”"), "她说hello");
    assert_eq!(normalize_coverage_evidence("ÄÖ-İ1½"), "äöi\u{307}1½");
    assert!(coverage_fragment_exists("她说hello", "她说"));
    assert!(!coverage_fragment_exists("她说hello", "他说"));
    assert!(coverage_fragment_exists("一二三四五六七八九", "一二三四X六七八"));
    assert!(!coverage_fragment_exists("一二三四五六七八九", "一二三四X六七"));
    assert_eq!(split_coverage_evidence("戊己庚辛；甲乙丙丁 短。甲乙丙丁"), vec!["戊己庚辛", "甲乙丙丁"]);
    assert_eq!(extract_quoted_coverage_evidence("说：“甲乙丙”与'丁戊己'和“短”"), vec!["丁戊己", "甲乙丙"]);
}

#[test]
fn reviews_are_kept_by_chapter() {
    let chapter = |index: i64| Chapter {
        id: format!("chapter-{index}"),
        novel_id: "novel-1".to_string(),
        index,
        title: String::new(),
        original_text: String::new(),
        analysis_json: None,
        rewrite_text: None,
        rewrite_edited: false,
        single_rewrite_original_available: false,
        analysis_status: String::new(),
        rewrite_status: String::new(),
        rewrite_validation_status: String::new(),
        rewrite_obligation_total: 0,
        rewrite_obligation_satisfied: 0,
    };
    let obligation = |id: &str, chapter_index: i64| RewriteObligation {
        obligation_id: id.to_string(),
        node_id: String::new(),
        chapter_index,
        rule_ids: Vec::new(),
        preserve: Vec::new(),
        required_changes: Vec::new(),
        deep_delta_categories: Vec::new(),
        forbidden_regressions: Vec::new(),
        downstream_effects: Vec::new(),
        planned_state_updates: Vec::new(),
    };
    let item = |id: &str, status: &str| ReviewCoverageItem {
        obligation_id: id.to_string(),
        status: status.to_string(),
        chapter_indexes: Vec::new(),
        evidence: String::new(),
    };
    let plan = RewritePlan {
        plan_version: String::new(),
        graph_additions: Vec::new(),
        obligations: vec![obligation("O-1", 1), obligation("O-2", 1), obligation("O-3", 2)],
        planned_state_updates: Vec::new(),
        cross_shard_dependencies: Vec::new(),
    };
    let coverage = vec![item("O-1", "satisfied"), item("O-2", "partial"), item("O-3", "satisfied"), item("O-9", "satisfied")];
    let kept = chapter_validations(&[chapter(1), chapter(2), chapter(3)], &plan, false, &coverage);
    assert_eq!(kept.iter().map(|v| v.satisfied).collect::<Vec<_>>(), vec![1, 1, 0]);
    assert_eq!(kept[0].status, "failed");
    assert_eq!(chapter_validations(&[chapter(2)], &plan, true, &coverage)[0].status, "passed");
}

#[test]
fn dependencies_are_recognised() {
    assert_eq!(dependency_token(" thread: 承诺线 "), "承诺线");
    assert!(is_thread_dependency("thread:承诺线"));
    assert!(!is_thread_dependency("O-1"));
    assert_eq!(normalized_thread_key("主角-吉尔伽美什 关系线"), normalized_thread_key("主角吉尔伽美什关系线"));
}

#[test]
fn quotations_and_sentences_are_taken_apart() {
    assert_eq!(
        extract_review_quoted_evidence("正文‘他抬头看向众人’和“少年模样”"),
        vec!["他抬头看向众人".to_string(), "少年模样".to_string()]
    );
    assert_eq!(
        split_review_sentences("她来了。他走！\n完"),
        vec!["她来了。".to_string(), "他走！".to_string(), "完".to_string()]
    );
    assert_eq!(normalize_copy_scan_text("甲，乙 丙a1！"), "甲乙丙a1");
    let names = protagonist_derived_name_candidates("石昊");
    assert!(names.contains(&"小昊".to_string()));
    assert!(!names.contains(&"昊".to_string()));
}

#[test]
fn copied_passages_are_found() {
    let passage = "甲乙丙丁戊己庚辛壬癸子丑寅卯辰巳午未申酉戌亥天地玄黄宇宙洪荒日月盈昃";
    let text = format!("前文{passage}后文");
    let first = text.chars().take(32).collect::<String>();
    assert_eq!(copied_shingle_example(&text, &text, "", &text), Some(first));
    assert_eq!(copied_shingle_example(&text, &text, &text, &text), None);
    assert_eq!(copied_shingle_example(&text, &text, "", ""), None);
    let short = text.chars().take(33).collect::<String>();
    assert_eq!(copied_shingle_example(&text, &short, "", &text), None);
}

#[test]
fn persons_are_read_from_an_analysis() {
    let value = parse_jsonish_value(
        r#"{"characters":["- 陈熙（邻居）：朋友","甲","萧炎：主角",{"name":" 药老 "}],"names":["云·韵:女","a b：x"]}"#,
    )
    .expect("read");
    assert_eq!(
        names_in_analysis(&value, &["萧炎".to_string()]),
        vec!["陈熙".to_string(), "药老".to_string(), "云·韵".to_string()]
    );
}

#[test]
fn a_review_sees_the_assets_it_needs() {
    assert_eq!(
        compact_review_canon("## 地点\n山\n## 姓名映射表\n甲 -> 乙\n\n## 人物卡\n## 人物关系\n师徒"),
        "## 姓名映射表\n甲 -> 乙\n\n## 人物关系\n师徒"
    );
    assert_eq!(compact_review_canon("没有标题"), "没有标题");
    assert!(compact_review_canon(&"字".repeat(2_501)).ends_with("本章后续内容已截断。]"));
    let targets = Some(vec![RelationshipTargetEntry {
        name: "药老".to_string(),
        relationship: String::new(),
        notes: "师徒".to_string(),
    }]);
    let constraints = build_compact_review_constraints(&settings(), " ", "资料", "严格", &targets);
    assert!(constraints.starts_with("复检约束摘要：\n- 主角原名：萧炎\n- 主角改写名：萧妍\n- 其他指定女性化人物/姓名映射：无\n- 重点百合互动对象：药老（关系未指定）：师徒\n- 身材/体型：平胸 / 少女\n- 模式：严格\n- 高级设定：无\n- 核心设定：无\n\n相关一致性资料：\n资料\n\n只判断 blocking"));
    let texts = ReviewTexts {
        original: "原文章节文本".to_string(),
        rewritten: "改写章节文本".to_string(),
        canon: "姓名映射表：萧炎 -> 萧妍".to_string(),
        mode_label: "创意".to_string(),
        relationship_targets: None,
    };
    let prompt = build_batch_review_decision_prompt_with_context(&texts, &settings(), "", " ");
    for part in [
        "Blocking 清单",
        "混合性别群体必须使用“他们”",
        "不得仅因群体中包含女性主角就要求改成“她们”",
        "标题编号与 marker index 不一致不是问题",
        "不要输出通过项、优点、确认事项",
        "不代表标题章节编号",
        "动物、灵兽、妖兽、凶兽、神兽、器灵等非人生物",
        "保留原文人称代词和称谓",
        "仅与主角原名共享单字的未指定 NPC",
        "同名/旧名/以旧名某字为名",
        "JSON 输出硬性格式",
        "不得因为字段长度限制而省略问题",
        "problem 最多 120 字",
        "再次确认：只输出合法 JSON 对象",
        "处理范围约束：\n无\n\n原文章节：\n原文章节文本\n\n待审查改写稿：\n改写章节文本\n",
    ] {
        assert!(prompt.contains(part), "{part}");
    }
    let contract = ContractTexts {
        rule_pack: "规则包".to_string(),
        execution: "契约文本".to_string(),
        continuity: "连续状态".to_string(),
        scope: "范围".to_string(),
    };
    let prompt = build_graph_review_decision_prompt(&texts, &settings(), "风格", &contract);
    assert!(prompt.starts_with("你是主角主动重构质量门。只输出一个合法 JSON 对象，不输出 Markdown 或解释。\n\n规则包\n\n审批硬条件："));
    assert!(prompt.contains("\"status\": \"satisfied | partial | missed | regressed\""));
    assert!(prompt.ends_with("当前分片契约：\n契约文本\n\n当前关系线的已通过连续性状态：\n连续状态\n\n处理范围：\n范围\n\n原文章节：\n原文章节文本\n\n待审查改写稿：\n改写章节文本"));
}

#[test]
fn settings_have_to_be_complete() {
    assert_eq!(require_novel_settings(Some(settings())), Ok(settings()));
    assert_eq!(require_novel_settings(None), Err("请先填写设定".to_string()));
    let missing = NovelSettings { bust: " ".to_string(), ..settings() };
    assert_eq!(require_novel_settings(Some(missing)), Err("请先填写设定".to_string()));
}

#[test]
fn keys_of_the_system_come_first() {
    let key = |s: &str| Some(s.to_string());
    assert_eq!(api_key_storage_from_values(&key("a"), &key(" ")), (true, false));
    assert_eq!(api_key_storage_from_values(&None, &key("b")), (false, true));
    assert!(matches!(choose_stored_api_key(key("a"), key("b")), Ok(StoredKey::System(k)) if k == "a"));
    assert!(matches!(choose_stored_api_key(key(" "), key("b")), Ok(StoredKey::Database(k)) if k == "b"));
    match choose_stored_api_key(None, key("")) {
        Err(message) => assert_eq!(message, "未保存 API Key，请填写 API Key 后点击保存。"),
        Ok(_) => panic!("there is no key"),
    }
}

#[test]
fn diagnoses_are_logged() {
    let diagnosis = build_model_diagnosis(
        vec![diagnosis_check("连接", "ok", "正常"), diagnosis_check("JSON", "failed", "坏")],
        None,
    );
    assert_eq!(
        diagnosis_log(&diagnosis),
        ("error".to_string(), "诊断状态：failed\n- 连接 [ok] 正常\n- JSON [failed] 坏".to_string())
    );
    assert_eq!(
        diagnosis_log(&build_model_diagnosis(Vec::new(), None)),
        ("success".to_string(), "诊断状态：ok\n".to_string())
    );
}

#[test]
fn a_dependency_is_searched_for_when_it_is_long_enough() {
    let chars = |text: &str| text.chars().collect::<Vec<char>>();
    assert!(is_searchable(&chars("work")));
    assert!(!is_searchable(&chars("job")));
    assert!(is_searchable(&chars("名字")));
    assert!(!is_searchable(&chars("名")));
    assert!(does_one_hold_other(&chars("名字主线"), &chars("主线")));
    assert!(does_one_hold_other(&chars("主线"), &chars("名字主线")));
    assert!(!does_one_hold_other(&chars("支线"), &chars("名字主线")));
}

#[test]
fn evidence_is_found_as_a_whole_or_by_its_pieces() {
    let chars = |text: &str| text.chars().collect::<Vec<char>>();
    let text = chars("她推开门走进庭院看见了花");
    assert!(are_pieces_found(&chars("推开门走进庭院"), &[], &[], &text));
    assert!(are_pieces_found(&chars("无关"), &[chars("走进庭院看见")], &[], &text));
    assert!(!are_pieces_found(&chars("无关"), &[], &[chars("完全没有写过的句子")], &text));
    assert!(!are_pieces_found(&[], &[], &[], &text));
}
