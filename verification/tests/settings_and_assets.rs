//! Names, people and settings of a novel, and what is kept of its analyses.
use yuri_rewrite::analysis::{analysis_asset_char_limit, compact_analysis_asset};
use yuri_rewrite::domain::NovelSettings;
use yuri_rewrite::names::{
    additional_feminize_name_mappings, additional_feminize_name_sources,
    normalize_additional_feminize_names, required_feminized_name_sources,
};
use yuri_rewrite::settings::{build_model_diagnosis, diagnosis_check};
use yuri_rewrite::targets::{
    normalize_relationship_targets, relationship_targets_summary, RelationshipTargetEntry,
};

fn sample_novel_settings() -> NovelSettings {
    NovelSettings {
        novel_id: "novel-1".to_string(),
        protagonist_name: "萧炎".to_string(),
        protagonist_aliases: "炎儿 -> 小妍儿".to_string(),
        rewritten_protagonist_name: "萧妍".to_string(),
        additional_feminize_names: "".to_string(),
        bust: "平胸".to_string(),
        body_type: "少女".to_string(),
        rewrite_mode: "strict".to_string(),
        advanced_settings: "".to_string(),
        relationship_targets: "[]".to_string(),
        updated_at: "now".to_string(),
    }
}

#[test]
fn additional_feminize_name_helpers_preserve_optional_targets() {
    let normalized =
        normalize_additional_feminize_names(" 林动 -> 林筝 \n唐三，林动 -> 林冬\n空名 ->  ");

    assert_eq!(normalized, "林动 -> 林筝\n唐三\n空名");
    assert_eq!(
        additional_feminize_name_sources(&normalized),
        vec!["林动".to_string(), "唐三".to_string(), "空名".to_string()]
    );
    let mappings = additional_feminize_name_mappings(&normalized);
    assert_eq!(mappings.len(), 1);
    assert_eq!(mappings[0].source, "林动");
    assert_eq!(mappings[0].target, "林筝");
}

#[test]
fn required_feminized_sources_ignore_additional_mapping_targets() {
    let mut settings = sample_novel_settings();
    settings.protagonist_aliases = "炎儿".to_string();
    settings.additional_feminize_names = "林动 -> 林筝\n唐三".to_string();

    assert_eq!(
        required_feminized_name_sources(&settings),
        vec![
            "萧炎".to_string(),
            "炎儿".to_string(),
            "林动".to_string(),
            "唐三".to_string()
        ]
    );
}

#[test]
fn model_diagnosis_status_uses_worst_check() {
    let ok = build_model_diagnosis(vec![diagnosis_check("连接", "ok", "ok")], None);
    assert_eq!(ok.status, "ok");

    let warning = build_model_diagnosis(
        vec![
            diagnosis_check("连接", "ok", "ok"),
            diagnosis_check("JSON", "warning", "unstable"),
        ],
        Some("auto"),
    );
    assert_eq!(warning.status, "warning");
    assert_eq!(warning.recommended_thinking_mode.as_deref(), Some("auto"));

    let failed = build_model_diagnosis(
        vec![
            diagnosis_check("连接", "warning", "slow"),
            diagnosis_check("API Key", "failed", "bad key"),
        ],
        None,
    );
    assert_eq!(failed.status, "failed");
}

#[test]
fn compact_analysis_asset_deduplicates_and_limits_length_at_line_boundary() {
    let content = (0..300)
        .map(|index| {
            if index % 2 == 0 {
                "- 萧炎与小医仙同行。".to_string()
            } else {
                format!("- 低相关条目{index}：很长的历史分析内容。")
            }
        })
        .collect::<Vec<_>>()
        .join("\n");

    let compact = compact_analysis_asset("地点", &content);

    assert_eq!(compact.matches("萧炎与小医仙同行").count(), 1);
    assert!(compact.contains("已去重并达到长度上限"));
    assert!(compact.chars().count() <= analysis_asset_char_limit("地点"));
}

/// The rows in a JSON array of objects.
fn rows_of(input: &str) -> Option<Vec<RelationshipTargetEntry>> {
    let value: serde_json::Value = serde_json::from_str(input).ok()?;
    value
        .as_array()?
        .iter()
        .map(|row| {
            Some(RelationshipTargetEntry {
                name: row["name"].as_str()?.to_string(),
                relationship: row["relationship"].as_str()?.to_string(),
                notes: row["notes"].as_str()?.to_string(),
            })
        })
        .collect()
}

#[test]
fn relationship_targets_are_normalized_and_summarized() {
    let input = r#"
    [
      {"name":" 余靖秋 ","relationship":" 女主候选 ","notes":" 克制暧昧 "},
      {"name":"","relationship":"忽略","notes":"无姓名"},
      {"name":"池丘白","relationship":"","notes":""}
    ]
    "#;

    let normalized = normalize_relationship_targets(&rows_of(input));
    assert_eq!(
        normalized,
        r#"[{"name":"余靖秋","relationship":"女主候选","notes":"克制暧昧"},{"name":"池丘白","relationship":"","notes":""}]"#
    );
    let summary = relationship_targets_summary(&rows_of(&normalized));
    assert!(summary.contains("余靖秋（女主候选）：克制暧昧"));
    assert!(summary.contains("池丘白（关系未指定）"));
}
