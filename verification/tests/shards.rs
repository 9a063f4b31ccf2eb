//! How the chapters of a batch are divided into shards.
use std::collections::HashSet;
use yuri_rewrite::domain::{Chapter, StagedChapterOutput};
use yuri_rewrite::shard_context::{
    build_contiguous_shard_work, build_readonly_adjacent_context, chapters_from_original,
    format_shard_context, split_chapters_for_parallelism,
};

fn chapter(index: i64) -> Chapter {
    Chapter {
        id: format!("chapter-{index}"),
        novel_id: "novel-1".to_string(),
        index,
        title: format!("第{index}章"),
        original_text: "原文正文".to_string(),
        analysis_json: None,
        rewrite_text: None,
        rewrite_edited: false,
        single_rewrite_original_available: false,
        analysis_status: "completed".to_string(),
        rewrite_status: "pending".to_string(),
        rewrite_validation_status: "unvalidated".to_string(),
        rewrite_obligation_total: 0,
        rewrite_obligation_satisfied: 0,
    }
}

fn chapter_with_rewrite() -> Chapter {
    Chapter {
        id: "chapter-1".to_string(),
        novel_id: "novel-1".to_string(),
        index: 1,
        title: "第一章".to_string(),
        original_text: "原文正文".to_string(),
        analysis_json: None,
        rewrite_text: Some("上一次改写稿".to_string()),
        rewrite_edited: true,
        single_rewrite_original_available: true,
        analysis_status: "completed".to_string(),
        rewrite_status: "completed".to_string(),
        rewrite_validation_status: "passed".to_string(),
        rewrite_obligation_total: 1,
        rewrite_obligation_satisfied: 1,
    }
}

#[test]
fn rewrite_parallelism_splits_batch_into_contiguous_shards() {
    let chapters = (1..=30).map(chapter).collect::<Vec<_>>();

    let six = split_chapters_for_parallelism(&chapters, 6);
    assert_eq!(six.len(), 6);
    assert!(six.iter().all(|shard| shard.len() == 5));
    assert_eq!(six[0][0].index, 1);
    assert_eq!(six[5][4].index, 30);

    let three = split_chapters_for_parallelism(&chapters, 3);
    assert_eq!(three.len(), 3);
    assert!(three.iter().all(|shard| shard.len() == 10));

    let ten = split_chapters_for_parallelism(&chapters, 10);
    assert_eq!(ten.len(), 10);
    assert!(ten.iter().all(|shard| shard.len() == 3));

    let single = split_chapters_for_parallelism(&chapters, 1);
    assert_eq!(single.len(), 1);
    assert_eq!(single[0].len(), 30);

    let uneven = split_chapters_for_parallelism(&chapters[..24], 10);
    assert_eq!(uneven.len(), 10);
    assert_eq!(
        uneven.iter().map(Vec::len).collect::<Vec<_>>(),
        vec![3, 3, 3, 3, 2, 2, 2, 2, 2, 2]
    );
    assert_eq!(uneven[0][0].index, 1);
    assert_eq!(uneven[9][1].index, 24);
}

#[test]
fn resumed_shards_remain_contiguous_after_parallelism_changes() {
    let chapters = (1..=100).map(chapter).collect::<Vec<_>>();
    let staged = chapters
        .iter()
        .filter(|chapter| matches!(chapter.index % 5, 0 | 1))
        .map(|chapter| chapter.id.clone())
        .collect::<HashSet<_>>();
    let pending = chapters
        .iter()
        .filter(|chapter| !staged.contains(&chapter.id))
        .cloned()
        .collect::<Vec<_>>();

    let twenty_five = build_contiguous_shard_work(&chapters, &pending, 25);
    let one = build_contiguous_shard_work(&chapters, &pending, 1);

    assert_eq!(staged.len(), 40);
    assert_eq!(pending.len(), 60);
    assert_eq!(twenty_five.len(), 20);
    assert_eq!(one.len(), 20);
    for work in twenty_five.iter().chain(one.iter()) {
        assert!(work
            .chapters
            .windows(2)
            .all(|pair| pair[1].index == pair[0].index + 1));
    }
    assert_eq!(
        twenty_five
            .iter()
            .flat_map(|work| work.chapters.iter())
            .count(),
        pending.len()
    );
    assert_eq!(
        one.iter()
            .flat_map(|work| work.chapters.iter())
            .map(|chapter| chapter.id.as_str())
            .collect::<HashSet<_>>(),
        pending
            .iter()
            .map(|chapter| chapter.id.as_str())
            .collect::<HashSet<_>>()
    );
}

#[test]
fn resumed_pending_chapters_do_not_cross_staged_gaps() {
    let chapters = (1..=10).map(chapter).collect::<Vec<_>>();
    let staged = [1, 2, 5, 6, 9]
        .into_iter()
        .map(|index| format!("chapter-{index}"))
        .collect::<HashSet<_>>();
    let pending = chapters
        .iter()
        .filter(|chapter| !staged.contains(&chapter.id))
        .cloned()
        .collect::<Vec<_>>();

    let work = build_contiguous_shard_work(&chapters, &pending, 1);
    let ranges = work
        .iter()
        .map(|work| {
            work.chapters
                .iter()
                .map(|chapter| chapter.index)
                .collect::<Vec<_>>()
        })
        .collect::<Vec<_>>();

    assert_eq!(ranges, vec![vec![3, 4], vec![7, 8], vec![10]]);
}

#[test]
fn resumed_pending_runs_split_only_inside_each_run() {
    let chapters = (1..=12).map(chapter).collect::<Vec<_>>();
    let staged = [1, 6, 7, 12]
        .into_iter()
        .map(|index| format!("chapter-{index}"))
        .collect::<HashSet<_>>();
    let pending = chapters
        .iter()
        .filter(|chapter| !staged.contains(&chapter.id))
        .cloned()
        .collect::<Vec<_>>();

    let work = build_contiguous_shard_work(&chapters, &pending, 3);
    let ranges = work
        .iter()
        .map(|work| {
            work.chapters
                .iter()
                .map(|chapter| chapter.index)
                .collect::<Vec<_>>()
        })
        .collect::<Vec<_>>();

    assert_eq!(ranges, vec![vec![2, 3, 4, 5], vec![8, 9, 10, 11]]);
    assert!(ranges.iter().all(|range| range.windows(2).all(|pair| pair[1] == pair[0] + 1)));
}

#[test]
fn resumed_shards_include_completed_neighbors_as_read_only_context() {
    let chapters = (1..=5).map(chapter).collect::<Vec<_>>();
    let target = vec![chapters[2].clone()];
    let work = build_contiguous_shard_work(&chapters, &target, 1);
    let staged = vec![
        (
            chapters[1].id.clone(),
            StagedChapterOutput {
                title: Some("第二章改写".to_string()),
                content: Some("前文已完成改写".to_string()),
            },
        ),
        (
            chapters[3].id.clone(),
            StagedChapterOutput {
                title: None,
                content: Some("后文已完成改写".to_string()),
            },
        ),
    ];

    let context = build_readonly_adjacent_context(&work[0], &staged, "rewrite");

    assert!(context.contains("前一相邻章节"));
    assert!(context.contains("第二章改写"));
    assert!(context.contains("前文已完成改写"));
    assert!(context.contains("后一相邻章节"));
    assert!(context.contains("后文已完成改写"));
    assert!(!context.contains("YURI_REWRITE_CHAPTER_START"));
}

#[test]
fn shard_context_limits_model_to_current_shard_chapters() {
    let chapters = (25..=27).map(chapter).collect::<Vec<_>>();

    let context = format_shard_context(8, 10, 10, "第1-30章", &chapters);

    assert!(!context.contains("分片 9/10"));
    assert!(!context.contains("并发请求数"));
    assert!(context.contains("第25-27章"));
    assert!(context.contains("第25章、第26章、第27章"));
    assert!(context.contains("严禁输出输入外的任何章节"));
}

#[test]
fn fresh_batch_runs_strip_saved_rewrites_from_model_source() {
    let original = chapter_with_rewrite();

    let prepared = chapters_from_original(std::slice::from_ref(&original));

    assert_eq!(prepared[0].original_text, "原文正文");
    assert!(prepared[0].rewrite_text.is_none());
    assert_eq!(original.rewrite_text.as_deref(), Some("上一次改写稿"));
}
