//! How shards are asked for until an answer can be read.
use yuri_rewrite::analysis_call::{
    analysis_repair_context, analysis_repair_prompt, parse_analysis_model_output, AnalysisReply,
    AnalysisRun, ParsedChapterAnalysis,
};
use yuri_rewrite::domain::{Chapter, NovelSettings, ParsedChapterRewrite, ReviewDecision, ReviewIssue};
use yuri_rewrite::review_rounds::{
    review_step, settle_targeted_revision, start_revision, ReviewReply, ReviewStage, ReviewStep,
    RevisionStart, Round, StrictOutcome, StrictReview,
};
use yuri_rewrite::shard_call::{
    parse_rewrite_model_output, parse_rewrite_model_output_with_check, retry_prompt, rewrite_form,
    shard_call_step, CallNext, CallReply, CallStage, Subdivision, WorkKind,
};

fn chapter(index: i64) -> Chapter {
    Chapter {
        id: format!("chapter-{index}"),
        novel_id: "novel-1".to_string(),
        index,
        title: format!("第{index}章"),
        original_text: "原文".to_string(),
        analysis_json: None,
        rewrite_text: None,
        rewrite_edited: false,
        single_rewrite_original_available: false,
        analysis_status: "completed".to_string(),
        rewrite_status: "pending".to_string(),
        rewrite_validation_status: "unvalidated".to_string(),
        rewrite_obligation_total: 0,
        rewrite_obligation_satisfied: 0,
    }
}

fn rewrite(index: i64, text: &str) -> ParsedChapterRewrite {
    ParsedChapterRewrite {
        id: format!("chapter-{index}"),
        index,
        title: format!("第{index}章"),
        text: text.to_string(),
    }
}

fn settings() -> NovelSettings {
    NovelSettings {
        novel_id: "novel-1".to_string(),
        protagonist_name: " 萧炎 ".to_string(),
        protagonist_aliases: String::new(),
        rewritten_protagonist_name: "萧妍".to_string(),
        additional_feminize_names: String::new(),
        bust: "普通".to_string(),
        body_type: "少女".to_string(),
        rewrite_mode: "strict".to_string(),
        advanced_settings: String::new(),
        relationship_targets: "[]".to_string(),
        updated_at: "now".to_string(),
    }
}

fn issue(chapter_indexes: Vec<i64>) -> ReviewIssue {
    ReviewIssue {
        chapter_indexes,
        scope: "chapter".to_string(),
        category: "name".to_string(),
        severity: "blocking".to_string(),
        problem: "姓名错误".to_string(),
        required_fix: "改正".to_string(),
    }
}

fn decision(approved: bool, issues: Vec<ReviewIssue>) -> ReviewDecision {
    ReviewDecision { approved, issues }
}

fn unreadable(error: &str) -> CallReply {
    CallReply::Unreadable { error: error.to_string(), output: "坏输出".to_string() }
}

fn step(kind: WorkKind, fixed_form: bool, stage: CallStage, reply: CallReply) -> CallNext {
    shard_call_step(kind, fixed_form, stage, reply, "原提示", " 范围 ")
}

fn failed(next: CallNext) -> String {
    match next {
        CallNext::Finished(Err(message)) => message,
        _ => panic!("the shard fails"),
    }
}

fn divided(next: CallNext) -> String {
    match next {
        CallNext::Subdivide { error } => error,
        _ => panic!("the shard is divided"),
    }
}

#[test]
fn an_answer_that_is_read_ends_the_call() {
    for stage in [CallStage::First, CallStage::FormatRepair, CallStage::Retry] {
        match step(WorkKind::Rewrite, true, stage, CallReply::Parsed(vec![rewrite(1, "正文")])) {
            CallNext::Finished(Ok(list)) => assert_eq!(list[0].text, "正文"),
            _ => panic!("the shard is done"),
        }
    }
}

#[test]
fn a_first_call_without_an_answer_fails() {
    let reply = || CallReply::Failed("断网".to_string());
    assert_eq!(failed(step(WorkKind::Rewrite, false, CallStage::First, reply())), "断网");
    assert_eq!(
        failed(step(WorkKind::Revision, false, CallStage::First, reply())),
        "审查打回后重写失败：断网"
    );
    assert_eq!(failed(step(WorkKind::Revision, true, CallStage::FormatRepair, reply())), "断网");
}

#[test]
fn a_fixed_form_is_repaired_once() {
    match step(WorkKind::Rewrite, true, CallStage::First, unreadable("缺标记")) {
        CallNext::FormatRepair { prompt } => assert_eq!(
            prompt,
            "上次输出格式校验失败：缺标记\n请按原要求重新输出完整分片。不要减少或改变契约义务。\n\n原提示"
        ),
        _ => panic!("the form is repaired"),
    }
    match step(WorkKind::Revision, true, CallStage::First, unreadable("缺标签")) {
        CallNext::FormatRepair { prompt } => assert_eq!(
            prompt,
            "上次修复输出的短自检包装或 marker 格式无效：缺标签\n请按原修复要求重新输出；必须且只能包含唯一 <rewrite_check> 和唯一 <output>。\n\n原提示"
        ),
        _ => panic!("the form is repaired"),
    }
    assert_eq!(
        failed(step(WorkKind::Rewrite, true, CallStage::FormatRepair, unreadable("仍缺标记"))),
        "仍缺标记"
    );
}

#[test]
fn a_free_form_is_asked_for_again_and_then_divided() {
    match step(WorkKind::Revision, false, CallStage::First, unreadable("缺标记")) {
        CallNext::Retry { context, output } => {
            assert_eq!(context, "范围\n\n必须重新输出当前分片的全部章节，并完整保留每章开始和结束标记。");
            assert_eq!(output, "坏输出");
        }
        _ => panic!("the shard is asked for again"),
    }
    match shard_call_step(
        WorkKind::Rewrite,
        false,
        CallStage::First,
        unreadable("缺标记"),
        "原提示",
        "  ",
    ) {
        CallNext::Retry { context, .. } => {
            assert!(context.starts_with("请完全重新输出当前分片"));
        }
        _ => panic!("the shard is asked for again"),
    }
    assert_eq!(
        divided(step(WorkKind::Rewrite, false, CallStage::Retry, unreadable("空正文"))),
        "解析失败后已自动重试，但重试输出仍无法解析：空正文"
    );
    assert_eq!(
        divided(step(WorkKind::Revision, false, CallStage::Retry, CallReply::Failed("断网".to_string()))),
        "审查打回重写解析失败后自动重试也失败：断网"
    );
    assert_eq!(
        retry_prompt(WorkKind::Rewrite, "基础", "坏"),
        "基础\n\n上一次无法解析的输出如下，仅供你避开格式错误，不要照抄空正文或错误边界：\n坏"
    );
}

#[test]
fn a_contract_is_needed_for_its_strategy() {
    assert_eq!(rewrite_form(true, true, true), Ok(true));
    assert_eq!(rewrite_form(true, true, false), Ok(false));
    assert_eq!(rewrite_form(false, false, true), Ok(false));
    assert_eq!(
        rewrite_form(true, false, true),
        Err("主角主动重构缺少分片改写契约。".to_string())
    );
}

#[test]
fn what_was_cut_off_is_not_read() {
    let parsed = || Ok(vec![rewrite(1, "正文")]);
    assert_eq!(
        parse_rewrite_model_output(Some("截断".to_string()), parsed()),
        Err("截断".to_string())
    );
    assert_eq!(parse_rewrite_model_output(None, parsed()), parsed());
    assert_eq!(
        parse_rewrite_model_output_with_check(None, Err("缺标签".to_string()), parsed()),
        Err("缺标签".to_string())
    );
    assert_eq!(
        parse_rewrite_model_output_with_check(
            Some("截断".to_string()),
            Err("缺标签".to_string()),
            parsed()
        ),
        Err("截断".to_string())
    );
    assert_eq!(parse_rewrite_model_output_with_check(None, Ok(()), parsed()), parsed());
}

#[test]
fn a_divided_shard_is_reunited_in_order() {
    let shard = (1..=3).map(chapter).collect::<Vec<_>>();
    let mut parts = Subdivision::start(WorkKind::Rewrite, &shard, &[], "第1-3章", "坏").expect("divisible");
    let next = parts.next_piece().expect("a part");
    assert_eq!(next.label, "第1-3章 · 自动细分 1");
    assert_eq!(next.chapters.len(), 2);
    parts.piece_unreadable("还是坏").expect("divisible");
    let labels = parts.pending.iter().map(|piece| piece.label.as_str()).collect::<Vec<_>>();
    assert_eq!(
        labels,
        vec![
            "第1-3章 · 自动细分 1 · 继续细分 1",
            "第1-3章 · 自动细分 1 · 继续细分 2",
            "第1-3章 · 自动细分 2"
        ]
    );
    parts.piece_parsed(vec![rewrite(2, "乙")]);
    parts.piece_parsed(vec![rewrite(1, "甲")]);
    assert_eq!(
        parts.piece_unreadable("单章坏"),
        Err("自动细分到单章后仍无法解析：单章坏".to_string())
    );
    assert_eq!(parts.piece_failed("断网"), "自动细分改写调用失败：断网");
    parts.piece_parsed(vec![rewrite(3, "丙")]);
    assert!(parts.next_piece().is_none());
    let texts = parts
        .finish()
        .expect("complete")
        .into_iter()
        .map(|rewrite| rewrite.text)
        .collect::<Vec<_>>();
    assert_eq!(texts, vec!["甲", "乙", "丙"]);
}

#[test]
fn a_divided_shard_has_to_be_complete() {
    let shard = (1..=2).map(chapter).collect::<Vec<_>>();
    let rewrites = (1..=2).map(|index| rewrite(index, "旧")).collect::<Vec<_>>();
    let mut parts =
        Subdivision::start(WorkKind::Revision, &shard, &rewrites, "标签", "坏").expect("divisible");
    assert_eq!(parts.next_piece().expect("a part").label, "标签 · 审查打回自动细分 1");
    assert_eq!(parts.next_piece().expect("a part").rewrites[0].index, 1);
    assert_eq!(parts.piece_failed("断网"), "审查打回自动细分调用失败：断网");
    parts.piece_parsed(vec![rewrite(1, "甲")]);
    parts.piece_parsed(Vec::new());
    assert_eq!(
        parts.finish(),
        Err("审查打回自动细分后章节数量不匹配：期望 2 章，得到 1 章。".to_string())
    );
    match Subdivision::start(WorkKind::Revision, &shard, &rewrites[..1], "标签", "坏") {
        Err(message) => assert_eq!(message, "审查打回重写自动细分到单章后仍无法解析：坏"),
        Ok(_) => panic!("the rewrites do not match the chapters"),
    }
    match Subdivision::start(WorkKind::Rewrite, &shard[..1], &[], "标签", "坏") {
        Err(message) => assert_eq!(message, "坏"),
        Ok(_) => panic!("a chapter cannot be divided"),
    }
}

fn answer(error: &str) -> ReviewReply {
    ReviewReply::Unreadable { error: error.to_string(), output: "{坏}".to_string() }
}

#[test]
fn an_unreadable_review_is_repaired_once() {
    match review_step(ReviewStage::First, answer("缺括号"), "分片", "要求", true, &settings()) {
        ReviewStep::Repair { prompt, stage } => {
            assert_eq!(
                prompt,
                "审查 JSON 校验失败：缺括号\n只修复 JSON 结构和字段完整性，不重新审查、不改变 coverage 状态或证据。必须保留 coverage、issues、state_updates。\n\n原审查要求：\n要求\n\n待修复输出：\n{坏}"
            );
            assert!(matches!(stage, ReviewStage::Repair(error) if error == "缺括号"));
        }
        _ => panic!("the review is repaired"),
    }
    match review_step(ReviewStage::First, answer("缺括号"), "分片", "要求", false, &settings()) {
        ReviewStep::Repair { prompt, .. } => {
            assert!(prompt.starts_with("上一次审查决策输出不是合法 JSON，解析错误：缺括号\n"));
            assert!(prompt.contains("- 主角原名：萧炎\n- 主角改写名：萧妍\n"));
            assert!(prompt.ends_with("待修复原输出：\n{坏}"));
        }
        _ => panic!("the review is repaired"),
    }
    let repair = || ReviewStage::Repair("甲".to_string());
    match review_step(repair(), answer("乙"), "分片", "要求", true, &settings()) {
        ReviewStep::Finished(Err(message)) => {
            assert!(message.starts_with("分片：审查决策无法解析：甲；格式修复重试后仍失败：乙。可以手动重试"))
        }
        _ => panic!("the review has failed"),
    }
    match review_step(
        repair(),
        ReviewReply::Failed("断网".to_string()),
        "分片",
        "要求",
        true,
        &settings(),
    ) {
        ReviewStep::Finished(Err(message)) => {
            assert!(message.starts_with("分片：审查决策无法解析：甲；格式修复重试调用失败：断网。"))
        }
        _ => panic!("the review has failed"),
    }
    match review_step(
        ReviewStage::First,
        ReviewReply::Failed("断网".to_string()),
        "分片",
        "要求",
        true,
        &settings(),
    ) {
        ReviewStep::Finished(Err(message)) => assert_eq!(message, "分片：断网"),
        _ => panic!("the review has failed"),
    }
    match review_step(
        repair(),
        ReviewReply::Decided(decision(true, Vec::new())),
        "分片",
        "要求",
        true,
        &settings(),
    ) {
        ReviewStep::Finished(Ok(decision)) => assert!(decision.approved),
        _ => panic!("the review has ended"),
    }
}

#[test]
fn a_shard_goes_back_twice_and_is_then_refused() {
    let shard = vec![chapter(1)];
    let (mut review, corrected) = StrictReview::start(&shard, vec![rewrite(1, "初稿")]);
    assert_eq!(corrected, 0);
    assert_eq!(review.round, Round::First);
    assert_eq!(review.label("分片"), "分片");
    assert_eq!(review.phase(), "review");
    assert!(matches!(
        review.decided(decision(true, Vec::new()), "分片", true),
        StrictOutcome::Accept
    ));
    assert!(matches!(
        review.decided(decision(false, vec![issue(vec![1])]), "分片", true),
        StrictOutcome::Revise(d) if d.issues.len() == 1
    ));
    review.revised(&shard, vec![rewrite(1, "二稿")]);
    assert_eq!(review.label("分片"), "分片 · 第二次审查");
    assert_eq!(review.phase(), "review");
    assert!(matches!(
        review.decided(decision(false, Vec::new()), "分片", false),
        StrictOutcome::Revise(_)
    ));
    review.revised(&shard, vec![rewrite(1, "三稿")]);
    assert_eq!(review.label("分片"), "分片 · 第三次审查");
    assert_eq!(review.phase(), "final_review");
    assert_eq!(review.rewrites[0].text, "三稿");
    match review.decided(decision(false, Vec::new()), "分片", true) {
        StrictOutcome::Refuse { message, .. } => assert_eq!(
            message,
            "__YURI_QUALITY_GATE__:分片 第三次覆盖审查仍未通过，草稿已保留但未保存为改写稿。"
        ),
        _ => panic!("a planned shard is refused"),
    }
    assert!(matches!(
        review.decided(decision(false, Vec::new()), "分片", false),
        StrictOutcome::AcceptWithWarning(_)
    ));
}

#[test]
fn group_forms_are_put_right_before_each_review() {
    let mut original = chapter(1);
    original.original_text = "他们家在村里。父母也在。".to_string();
    let shard = vec![original];
    let (review, corrected) = StrictReview::start(&shard, vec![rewrite(1, "她们家在村里。父母也在。")]);
    assert_eq!(corrected, 1);
    assert_eq!(review.rewrites[0].text, "他们家在村里。父母也在。");
}

#[test]
fn a_revision_of_some_chapters_falls_back_on_its_first_fault() {
    let shard = (1..=4).map(chapter).collect::<Vec<_>>();
    let rewrites = (1..=4).map(|index| rewrite(index, "旧")).collect::<Vec<_>>();
    let sent_back = decision(false, vec![issue(vec![2]), issue(vec![])]);
    match start_revision(&shard, &rewrites, &sent_back) {
        RevisionStart::Full(reason) => assert_eq!(
            reason,
            "审查问题未提供可定位的分片索引：未定位章节 [name] 姓名错误"
        ),
        RevisionStart::Targeted(_) => panic!("an issue names no chapter"),
    }
    let revision = match start_revision(&shard, &rewrites, &decision(false, vec![issue(vec![2])])) {
        RevisionStart::Targeted(revision) => revision,
        RevisionStart::Full(_) => panic!("one chapter of four is revised"),
    };
    assert_eq!(revision.indexes, vec![2]);
    assert_eq!(revision.chapters.len(), 1);
    assert_eq!(revision.rewrites[0].index, 2);
    assert_eq!(revision.decision.issues.len(), 1);
    assert!(revision.context.contains("分片索引 1 · 标题：第1章"));
    assert!(revision.context.contains("分片索引 3 · 标题：第3章"));
    assert!(!revision.context.contains("分片索引 4"));

    let body = "<<<YURI_REWRITE_CHAPTER_START index=2 id=chapter-2>>>\n新\n<<<YURI_REWRITE_CHAPTER_END index=2 id=chapter-2>>>";
    let settle = |body: Result<String, String>, parsed| {
        settle_targeted_revision(&rewrites, &revision, body, parsed)
    };
    let merged = settle(Ok(body.to_string()), Ok(vec![rewrite(2, "新")])).expect("merged");
    assert_eq!(
        merged.iter().map(|rewrite| rewrite.text.as_str()).collect::<Vec<_>>(),
        vec!["旧", "新", "旧", "旧"]
    );
    assert_eq!(
        settle(Err("断网".to_string()), Ok(Vec::new())),
        Err("断网".to_string())
    );
    assert_eq!(
        settle(Ok("没有标记".to_string()), Ok(Vec::new())),
        Err("定向重写 marker 不完整：期望 1 组，得到 0 个开始 marker 和 0 个结束 marker。".to_string())
    );
    assert_eq!(
        settle(Ok(body.to_string()), Err("空正文".to_string())),
        Err("空正文".to_string())
    );
    assert_eq!(
        settle(Ok(body.to_string()), Ok(Vec::new())),
        Err("定向重写章节数量不匹配：期望 1 章，得到 0 章。".to_string())
    );
}

fn analysis(index: i64) -> ParsedChapterAnalysis {
    ParsedChapterAnalysis { id: format!("chapter-{index}"), json: "{}".to_string() }
}

fn bad(error: &str, label: &str) -> AnalysisReply {
    AnalysisReply::Unreadable { error: error.to_string(), label: label.to_string() }
}

const CUT_OFF: &str = "模型输出因达到长度上限被截断：stop";

#[test]
fn an_analysis_that_is_cut_off_is_divided() {
    let shard = (1..=3).map(chapter).collect::<Vec<_>>();
    let mut run = AnalysisRun::start(&shard, " 范围 ", "分片");
    assert!(!run.is_done());
    run.step(bad(CUT_OFF, "分片")).expect("divisible");
    assert_eq!(run.pending.len(), 2);
    assert_eq!(run.pending[0].stem, "分片 · 长度恢复 1/2 · ");
    assert_eq!(run.pending[0].chapters.len(), 2);
    assert!(run.pending[0].context.starts_with("范围\n\n长度恢复说明："));
    run.step(AnalysisReply::Parsed(vec![analysis(1), analysis(2)])).expect("read");
    assert_eq!(run.pending[0].stem, "分片 · 长度恢复 2/2 · ");
    assert_eq!(
        run.step(bad(CUT_OFF, "分片 · 长度恢复 2/2 · 第3章")),
        Err("分析输出在 64K 上限下仍被截断，且当前已是单章分片（分片 · 长度恢复 2/2 · 第3章）。请缩短该章原文、关闭思考或更换输出上限更高的模型。".to_string())
    );
    run.step(bad("缺括号", "标签")).expect("repaired once");
    assert!(run.repairing);
    run.step(AnalysisReply::Parsed(vec![analysis(3)])).expect("read");
    assert!(run.is_done());
    assert!(!run.repairing);
    assert_eq!(
        run.merged.iter().map(|analysis| analysis.id.as_str()).collect::<Vec<_>>(),
        vec!["chapter-1", "chapter-2", "chapter-3"]
    );
}

#[test]
fn an_analysis_is_repaired_once() {
    let shard = vec![chapter(1)];
    let mut run = AnalysisRun::start(&shard, "范围", "分片");
    assert_eq!(
        run.step(AnalysisReply::Failed("断网".to_string())),
        Err("断网".to_string())
    );
    run.step(bad("缺括号", "分片")).expect("repaired once");
    let message = run.step(bad("还缺", "分片")).expect_err("not repaired again");
    assert!(message.starts_with("分析输出格式多次修复后仍无法解析：还缺。任务可以暂停后手动继续"));
    let message = run.step(AnalysisReply::Failed("断网".to_string())).expect_err("no answer");
    assert!(message.starts_with("分析输出格式修复重试调用失败：断网。任务可以暂停后手动继续"));
    assert_eq!(
        analysis_repair_context("  "),
        "只输出当前输入级一致性资产 JSON 对象；不要输出 Markdown、解释、空内容或 chapters 数组；JSON 字符串内换行必须写成 \\n。"
    );
    let prompt = analysis_repair_prompt("基础", "缺括号", "坏");
    assert!(prompt.starts_with("基础\n\n上一次输出的具体校验失败原因：\n缺括号\n\n必须针对以上原因修复。"));
    assert!(prompt.ends_with("不要原样照抄：\n坏"));
}

#[test]
fn analyses_need_valid_nodes() {
    let parsed = || Ok(vec![analysis(1)]);
    assert_eq!(parse_analysis_model_output(None, parsed(), vec![None]), parsed());
    assert_eq!(
        parse_analysis_model_output(None, parsed(), vec![None, Some("甲".to_string()), Some("乙".to_string())]),
        Err("甲".to_string())
    );
    assert_eq!(
        parse_analysis_model_output(None, Err("坏".to_string()), Vec::new()),
        Err("坏".to_string())
    );
    assert_eq!(
        parse_analysis_model_output(Some("截断".to_string()), parsed(), Vec::new()),
        Err("截断".to_string())
    );
}
