//! Estimates of the work on a batch, and figures in logs.
use yuri_rewrite::domain::Chapter;
use yuri_rewrite::estimation::{
    chapter_text_chars, estimate_requests_for_chapters, estimate_wait_stages_for_chapters,
    extract_usize_after_label, extract_value_after_label, total_text_chars, RecentModelStats,
};
use yuri_rewrite::shard_context::split_chapters_for_parallelism;

fn chapter(index: i64, body: &str) -> Chapter {
    Chapter {
        id: format!("chapter-{index}"),
        novel_id: "novel-1".to_string(),
        index,
        title: format!("第{index}章"),
        original_text: body.to_string(),
        analysis_json: None,
        rewrite_text: None,
        rewrite_edited: false,
        single_rewrite_original_available: false,
        analysis_status: "completed".to_string(),
        rewrite_status: "pending".to_string(),
        rewrite_validation_status: "unvalidated".to_string(),
        rewrite_obligation_total: 0,
        rewrite_obligation_satisfied: 0,
    }
}

#[test]
fn estimate_requests_include_analysis_rewrite_and_optional_review() {
    let chapters = (1..=30)
        .map(|index| chapter(index, "原文"))
        .collect::<Vec<_>>();

    assert_eq!(estimate_requests_for_chapters(&chapters, 6, false), 12);
    assert_eq!(estimate_requests_for_chapters(&chapters, 6, true), 42);
    assert_eq!(estimate_requests_for_chapters(&chapters[..3], 10, true), 21);
    assert_eq!(estimate_requests_for_chapters(&[], 6, true), 0);
}

#[test]
fn estimate_wait_stages_follow_pipeline_not_shard_count() {
    let chapters = (1..=30)
        .map(|index| chapter(index, "原文"))
        .collect::<Vec<_>>();

    assert_eq!(split_chapters_for_parallelism(&chapters, 6).len(), 6);
    assert_eq!(estimate_wait_stages_for_chapters(&chapters, false), 2);
    assert_eq!(estimate_wait_stages_for_chapters(&chapters, true), 7);
    assert_eq!(estimate_wait_stages_for_chapters(&[], true), 0);
}

#[test]
fn counted_calls_give_averages() {
    let mut stats = RecentModelStats::new();
    assert_eq!(stats.success_calls, 0);
    assert_eq!(stats.failed_calls, 0);
    assert_eq!(stats.average_input_chars(), None);
    assert_eq!(stats.average_output_chars(), None);

    let log = "调用统计：\n- 输入字符数：120\n- 输出字符数：30\n- AI 调用耗时：2.50 秒\n\n正文";
    assert_eq!(stats.note_call("success", log).as_deref(), Some("2.50"));
    assert_eq!(stats.note_call("error", "HTTP 401"), None);
    assert_eq!(stats.note_call("warning", log), None);
    assert_eq!(stats.success_calls, 1);
    assert_eq!(stats.failed_calls, 1);
    assert_eq!(stats.average_input_chars(), Some(120));
    assert_eq!(stats.average_output_chars(), Some(30));

    stats.note_call("success", "输入字符数：81");
    assert_eq!(stats.average_input_chars(), Some(100));
    assert_eq!(stats.average_output_chars(), Some(30));
}

#[test]
fn figures_stand_behind_the_first_label() {
    assert_eq!(extract_value_after_label("a：  12.5x a：9", "a：").as_deref(), Some("12.5"));
    assert_eq!(extract_value_after_label("a：无", "a："), None);
    assert_eq!(extract_value_after_label("没有", "a："), None);
    assert_eq!(extract_usize_after_label("n=007", "n="), Some(7));
    assert_eq!(extract_usize_after_label("n=1.5", "n="), None);
    assert_eq!(extract_usize_after_label("n=99999999999999999999999", "n="), None);
}

#[test]
fn sizes_count_characters_and_titles() {
    let chapters = vec![chapter(1, "原文"), chapter(10, "正文内容")];
    assert_eq!(chapter_text_chars(&chapters[0]), 5);
    assert_eq!(total_text_chars(&chapters), 13);
}
