//! The prompts of a review and of the revisions that follow it.
use vstd::prelude::*;
use crate::domain::{NovelSettings, NovelSettingsView, ReviewDecision, ReviewIssue, ReviewIssueView};
use crate::excerpt::{head, truncate_text};
use crate::prompt_laws::{
    law_contract_review_shows_all, law_review_shows_both_texts, law_revision_shows_all,
    law_targeted_revision_shows_all,
};
use crate::targeted::{number_issues, numbered_issues};
use crate::targets::{
    entries_words, relationship_targets_summary, rows_view, tidy_entries, RelationshipTargetEntry,
};
use crate::text::{
    blank, chars_of, holds, is_blank, join, join_texts, lemma_views_push, lines, lines_of, matches_chars,
    same_text, starts, string_of, trim, trim_chars, trimmed, views,
};
use vstd::slice::slice_subrange;

verus! {

/// Texts that a review is shown: the chapters and their rewrites between markers, the assets of
/// the novel, the name of the rewriting mode, and the people whose bonds are looked after.
pub struct ReviewTexts {
    pub original: String,
    pub rewritten: String,
    pub canon: String,
    pub mode_label: String,
    pub relationship_targets: Option<Vec<RelationshipTargetEntry>>,
}

/// Texts that come from the contract of a shard.
pub struct ContractTexts {
    pub rule_pack: String,
    pub execution: String,
    pub continuity: String,
    pub scope: String,
}

/// Texts that a revision is shown: how markers are written, which rules come first, the settings,
/// what may be cleaned up, and the chapters and their rewrites between markers.
pub struct RevisionTexts {
    pub marker_guard: String,
    pub priority: String,
    pub core_section: String,
    pub settings_section: String,
    pub cleanup_rule: String,
    pub scope: String,
    pub original: String,
    pub rewritten: String,
    pub reminder: String,
    pub mode_label: String,
    pub relationship_targets: Option<Vec<RelationshipTargetEntry>>,
}

/// What a repair of a decision may and may not change.
pub const REPAIR_RULES: &'static str = r#"

请只修复 JSON 格式，不要重新审查正文，不要新增或删除审查问题，不要改变 approved / summary / issues 的语义。
如果原输出中有中文引号、未转义英文引号、真实换行、尾逗号或 Markdown 包裹，请修复为合法 JSON。

必须输出一个 JSON 对象，格式如下：
{
  "approved": false,
  "summary": "一句话总体判断",
  "issues": [
    {
      "chapter_indexes": [1],
      "scope": "chapter",
      "category": "gender_residue",
      "severity": "blocking",
      "problem": "具体问题",
      "required_fix": "必须如何修改"
    }
  ]
}

如果原输出语义是完全合格，则输出：
{
  "approved": true,
  "summary": "合格",
  "issues": []
}

字段要求：
- approved 必须是布尔值。
- issues 必须是数组。
- issue.severity 必须是 "blocking"。
- chapter_indexes 使用 marker index；如果原输出只有 chapter_index，请转为 chapter_indexes 数组。
- 主角原名："#;

/// What a review stops at, in short.
pub const BLOCKING_SUMMARY: &'static str = r#"

只判断 blocking：主角/指定角色明确男性残留、用户指定的 `原姓名 -> 改写后姓名` 未被逐字使用、主角改名后的同名/旧名/以旧名某字为名等姓名逻辑矛盾、未指定角色误改性别、混合性别群体或含男性成员的群体被误称为“她们”、逻辑/边界/缺句/重复/串章、外貌关系或核心设定实质矛盾。重点百合互动对象用于维护关系连续性，不能作为误改未指定角色性别或改变主线逻辑的理由。标题默认保留；marker index 不是标题编号。仅与主角原名共享单字的未指定 NPC 不得当作主角残留。性别不明的动物、灵兽等非人生物保留原文代词可通过。明显的作者更新提示、求票互动、简短勘误、分隔线和孤立乱码可删除；完本感言、卷末后记、正式后记、番外和剧情正文不可删除。只有确认全员女性时才使用“她们”；群体含男性成员时使用“他们”或准确群体称呼。"#;

/// What a review looks for and how it answers.
pub const REVIEW_TASK: &'static str = r#"【JSON 输出硬性格式】
- 必须只输出一个合法 JSON 对象，不要 Markdown，不要解释，不要代码块，不要前后缀。
- JSON 字符串内的换行必须写成 \n，英文双引号必须写成 \"，不得输出未转义控制字符。
- 必须报告所有 blocking 问题，不得因为字段长度限制而省略问题。

请以“审查专家”身份判断改写稿是否合格。只列会导致打回的 blocking 问题，不直接改写正文。

Blocking 清单：
- 主角或指定性转角色在改写稿中仍有明确男性姓名、代词、身份、称谓、身体特征或社会角色残留。
- 未指定性转的角色被误改性别、亲属关系、称谓或代词。
- 主角与男性角色共同被复数指代，或群体中包含任一未指定性转的男性成员时，改写稿却使用“她们”；此类混合性别群体必须使用“他们”或准确的群体称呼。只有确认全员女性时才使用“她们”。
- 当前改写稿缺句、重复、串章、空正文、额外章节、marker/章节边界错误，或破坏原文事件顺序、因果、战力、伏笔、人物动机。
- 外貌、能力状态、关系推进、核心设定或高级设定出现实质矛盾。
- 主角改名后，改写稿仍保留“同名、原名、旧名、以旧名某字为名、名字含义”等暴露旧主角姓名或与新姓名矛盾的表达。
- 标题只有在明确出现主角原名，或明确描述主角男性身份、男性称谓、男性身体状态时才算问题；标题编号与 marker index 不一致不是问题。

排除项：
- 每个问题必须引用“待审查改写稿”中仍存在的实际文字；只出现在原文中的证据不得列入 issues。
- 不要把仅与主角原名共享单字的未指定 NPC 当成主角残留。例如主角“石昊”改为“石念昔”时，未被指定或映射的 NPC“秦昊”仍应保留，不是 blocking。
- “这家伙”“这个家伙”“家伙”“熊孩子”“孩子”“吃货”“小鬼”等中性昵称本身不是男性残留。只有同处证据明确出现“少年”“男孩”“男子”“公子”“少爷”“小子”“他”等男性指代且确实指向主角，才是 blocking。
- 原文未明确性别或性别模糊的动物、灵兽、妖兽、凶兽、神兽、器灵等非人生物，改写稿保留原文人称代词和称谓不是问题。
- 群体成员性别不明时，保留原文“他们”或使用中性群体称呼不是问题；不得仅因群体中包含女性主角就要求改成“她们”。
- 原文中明显不属于小说正文的作者更新提示、求票求收藏、简短勘误、作者与读者互动、装饰分隔线和孤立乱码允许删除，不得按缺句或内容缺失打回。完本感言、卷末后记、正式后记、番外和实际剧情正文不在此排除项内；无法确定时必须按正文严格审查。
- 不要输出通过项、优点、确认事项、建议性润色或“无需修改”的内容。

问题字段长度：
- 不限制 issues 数量；同一章存在多个不同 blocking 问题时必须分别列出。
- 同一章同类问题重复出现时可以合并为一条，但 problem 必须包含最关键的当前改写稿短引用。
- summary 最多 80 字。
- problem 最多 120 字，只写当前改写稿中的短证据和为什么 blocking。
- required_fix 最多 120 字，只写必须如何修复。

只输出合法 JSON，不要 Markdown，不要解释。格式：
{
  "approved": false,
  "summary": "一句话总体判断",
  "issues": [
    {
      "chapter_indexes": [1],
      "scope": "chapter",
      "category": "gender_residue",
      "severity": "blocking",
      "problem": "具体问题",
      "required_fix": "必须如何修改"
    }
  ]
}

如果完全合格：
{
  "approved": true,
  "summary": "合格",
  "issues": []
}

`chapter_indexes` 使用 marker 内部 index 定位，不代表标题章节编号。`scope` 只能是 `chapter` 或 `cross_chapter`；跨章连续性、边界、缺失、重复或串章问题使用 `cross_chapter`。兼容旧格式时可使用单个 `chapter_index`。所有 issues 的 severity 必须为 `blocking`；没有实际阻断问题时必须返回 approved=true 和空 issues。

"#;

/// What a review is reminded of at the end.
pub const REVIEW_REMINDER: &'static str = r#"

再次确认：只输出合法 JSON 对象；不要 Markdown、解释或代码块；字符串内换行写成 \n，英文双引号写成 \"；不得因字段长度限制漏报 blocking 问题。"#;

/// What a review of a planned rewrite looks for and how it answers.
pub const GRAPH_REVIEW_TASK: &'static str = r#"

审批硬条件：
1. 契约中的每个 obligation_id 必须在 coverage 中恰好出现一次，不能出现未知义务。
2. 按 rule_ids 中的节点模式验收：R3_CAUSAL_TRANSFORM / R3_DERIVED_TRANSFORM 必须完成全部最小因果变化；R3_SURFACE_ADAPT 只验收身份、称谓、身体或场景相关外貌适配；R3_PRESERVE 必须确认原文中性心理、动作、关系、专名和措辞未被无故改写。不得要求所有节点产生深层变化。
3. 逐项比较原文、契约和当前改写稿。required_changes 非空时必须拆开核对每个数组项及分号分隔硬要求；R3_PRESERVE 的 required_changes 应为空，正文保留证据即可 satisfied。partial、missed、regressed 一律 blocking。
4. coverage.evidence 必须逐字引用当前改写稿中真实存在的短证据；同一义务有多个实质子要求时，用中文分号分隔对应的多段短引用。不得引用原文、契约、自行概括或用省略号拼接成不存在的连续句。
5. 剧情、结果、能力、身份、关系性质、marker、边界或连续性回归均为 blocking。
6. state_updates 只逐字段原样复制契约对象最外层 planned_state_updates（包括 value）；不要重复 obligations[].planned_state_updates 中已被后续状态覆盖的中间状态。只报告本稿确实建立且可供后文使用的状态，不得概括、改写或新增状态。
7. 以下过度改写同样 blocking：凭空出现“身为女性/女人”“我一个女人”“同为女子”“枉为女性”；以女性特有的母性、柔弱、细腻、慈悲、爱美购物偏好解释行为；把普通女性关系升级为闺蜜/暧昧/母女；替换偶像、英雄、巨人、巨兽、造物主等中性词；删除或用代词代替未映射人物姓名；把后续章节内容提前复制进本章。
8. 外貌描写本身允许存在。只有与当前身体观察、身体互动或即时反应无关，或由外貌进一步推出温柔、母性、柔弱等人格时才判过度修改。

输出结构：
{
  "approved": false,
  "coverage": [{
    "obligation_id": "O-...",
    "status": "satisfied | partial | missed | regressed",
    "chapter_indexes": [1],
    "evidence": "当前改写稿逐字短引用"
  }],
  "issues": [{
    "chapter_indexes": [1],
    "scope": "chapter | cross_chapter",
    "category": "obligation_coverage | overrewrite | stereotype | neutral_term | entity_name | plot | identity | ability | boundary | continuity | marker",
    "severity": "blocking",
    "problem": "具体问题",
    "required_fix": "按义务 ID 说明必须如何修复"
  }],
  "state_updates": [{
    "thread_key": "关系线",
    "state_type": "状态类型",
    "value": "最新有效状态",
    "chapter_index": 1,
    "source_obligation_ids": ["O-..."]
  }]
}

只有 coverage 全部 satisfied、证据真实、issues 为空且 state_updates 与计划一致时 approved 才能为 true。

复检约束：
"#;

/// What is asked for where a review gives no issue.
pub const REVISE_ALL: &'static str = "审查专家未给出具体问题，但判定不通过；请全面复查主角女性化、指定角色女性化、未指定角色性别保持、称谓、逻辑和章节边界。";

/// What is asked for where a review of some chapters gives no issue.
pub const REVISE_TARGETS: &'static str = "审查专家未给出具体问题；请只复查目标章节中的主角女性化、姓名映射、未指定角色性别保持、逻辑和章节边界。";

/// How a shard that was sent back is revised.
pub const REVISION_TASK: &'static str = r#"

审查专家已打回上一版改写稿。请你作为原改写专家，根据下面的问题清单重新输出当前分片的完整改写结果。

修复要求：
1. 不要只局部补丁，必须重新输出当前分片所有章节的完整标题和正文。
2. 保留原章节顺序和所有 `<<<YURI_REWRITE_CHAPTER_START ...>>>` / `<<<YURI_REWRITE_CHAPTER_END ...>>>` marker，marker 的 index 和 id 必须逐字复制。
3. 逐条修复审查问题，同时继续遵守姓名映射、女性化要求、未指定角色性别保持、外貌一致性、百合关系连续性和原文逻辑。
4. "#;

/// Further rules for such a revision.
pub const REVISION_RULES: &'static str = r#"
5. 主角与男性共同被指代或群体含男性成员时必须使用“他们”或准确群体称呼，只有确认全员女性时才使用“她们”；性别不明非人生物保留原文代词和称谓可通过。
6. 只输出当前分片章节，不要解释、不要 Markdown、不要输出审查意见。

审查打回问题：
"#;

/// Rules for a revision of some chapters.
pub const TARGETED_RULES: &'static str = r#"
- 保留原章节顺序、原文主线、因果、战力、伏笔、人物动机和目标章节 marker。
- 先修复 blocking 问题，再按契约模式逐项核对：R3_CAUSAL_TRANSFORM / R3_DERIVED_TRANSFORM 只补齐 required_changes 中有证据的最小变化；R3_SURFACE_ADAPT 只做身份、称谓、身体或场景相关外貌适配；R3_PRESERVE 必须恢复中性原意，不得补写心理、反应或关系变化。适量外貌描写允许保留或添加，但必须与当前身体观察、互动或即时反应直接相关，且不能推出母性、柔弱、温柔等人格。不得改坏已合格内容。未指定性转角色保持原文姓名、性别和代词；主角与男性共同被指代或群体含男性成员时使用“他们”或准确群体称呼，只有全员女性时才使用“她们”；性别不明的动物、灵兽等非人生物保留原文代词可通过。
- "#;

/// How the revised chapters are given.
pub const TARGETED_FORMAT: &'static str = r#"
- 每个目标章节必须完整输出原 `<<<YURI_REWRITE_CHAPTER_START ...>>>` 和 `<<<YURI_REWRITE_CHAPTER_END ...>>>`，marker 的 index 和 id 逐字复制。
- 只输出目标章节的 marker、标题、正文；不要解释、不要 Markdown。

分片约束：
"#;

// ---- parts of prompts -----------------------------------------------------------------------
/// A text without the space around it; `无` where there is nothing else.
pub open spec fn or_none(text: Seq<char>) -> Seq<char> {
    if blank(text) {
        "无"@
    } else {
        trim(text)
    }
}

pub fn or_none_of(text: &str) -> (r: String)
    ensures
        r@ == or_none(text@),
{
    if is_blank(text) {
        "无".to_string()
    } else {
        trimmed(text)
    }
}

/// The beginning of such a text.
pub open spec fn short_or_none(text: Seq<char>, max: int) -> Seq<char> {
    if blank(text) {
        "无"@
    } else {
        head(trim(text), max)
    }
}

fn short_or_none_of(text: &str, max: usize) -> (r: String)
    ensures
        r@ == short_or_none(text@, max as int),
{
    if is_blank(text) {
        "无".to_string()
    } else {
        let t = trimmed(text);
        truncate_text(t.as_str(), max)
    }
}

/// The new name of the protagonist, or the rule by which it is found.
pub open spec fn rewritten_name_or_rule(settings: NovelSettingsView) -> Seq<char> {
    if blank(settings.rewritten_protagonist_name) {
        "按姓名映射表或同音近音规则生成，并保持一致"@
    } else {
        trim(settings.rewritten_protagonist_name)
    }
}

fn rewritten_name_of(settings: &NovelSettings) -> (r: String)
    ensures
        r@ == rewritten_name_or_rule(settings@),
{
    if is_blank(settings.rewritten_protagonist_name.as_str()) {
        "按姓名映射表或同音近音规则生成，并保持一致".to_string()
    } else {
        trimmed(settings.rewritten_protagonist_name.as_str())
    }
}

/// The issues, numbered, or what stands in their place where there are none.
pub open spec fn issues_or(issues: Seq<ReviewIssueView>, other: Seq<char>) -> Seq<char> {
    if issues.len() == 0 {
        other
    } else {
        join(numbered_issues(issues), "\n"@)
    }
}

fn issues_or_of(issues: &[ReviewIssue], other: &str) -> (r: String)
    ensures
        r@ == issues_or(views(issues@), other@),
{
    if issues.len() == 0 {
        other.to_string()
    } else {
        number_issues(issues)
    }
}

// ---- the assets that a review needs ---------------------------------------------------------
/// The sections of the assets that a review needs.
pub open spec fn is_review_section(name: Seq<char>) -> bool {
    name == "姓名映射表"@ || name == "人物卡"@ || name == "人物关系"@
}

/// The assets as far as they were read: the sections that are shown, and the name and the lines
/// of the section that is being read.
pub struct CanonScan {
    pub selected: Seq<Seq<char>>,
    pub name: Seq<char>,
    pub rows: Seq<Seq<char>>,
}

/// The sections that are shown once the current one has ended.
pub open spec fn closed_sections(scan: CanonScan) -> Seq<Seq<char>> {
    if is_review_section(scan.name) && scan.rows.len() > 0 {
        scan.selected.push("## "@ + scan.name + "\n"@ + head(join(scan.rows, "\n"@), 1_200))
    } else {
        scan.selected
    }
}

/// What is read from lines: a line that starts with `## ` begins a section, and blank lines count
/// for nothing.
pub open spec fn canon_scan(rows: Seq<Seq<char>>) -> CanonScan
    decreases rows.len(),
{
    if rows.len() == 0 {
        CanonScan { selected: Seq::empty(), name: Seq::empty(), rows: Seq::empty() }
    } else {
        let before = canon_scan(rows.drop_last());
        let row = trim(rows.last());
        if starts(row, "## "@) {
            CanonScan {
                selected: closed_sections(before),
                name: trim(row.skip(3)),
                rows: Seq::empty(),
            }
        } else if row.len() > 0 {
            CanonScan { rows: before.rows.push(rows.last()), ..before }
        } else {
            before
        }
    }
}

/// The sections of the assets that a review needs; the beginning of the assets where there are
/// none.
pub open spec fn canon_excerpt(canon: Seq<char>) -> Seq<char> {
    let selected = closed_sections(canon_scan(lines(canon)));
    if selected.len() == 0 {
        head(canon, 2_500)
    } else {
        join(selected, "\n\n"@)
    }
}

fn is_review_section_name(name: &str) -> (r: bool)
    ensures
        r == is_review_section(name@),
{
    same_text(name, "姓名映射表") || same_text(name, "人物卡") || same_text(name, "人物关系")
}

/// Ends the current section.
fn close_section(selected: &mut Vec<String>, name: &str, rows: &[String])
    ensures
        views(final(selected)@) == closed_sections(
            (CanonScan { selected: views(old(selected)@), name: name@, rows: views(rows@) }),
        ),
{
    if is_review_section_name(name) && rows.len() > 0 {
        let body = join_texts(rows, "\n");
        let body = truncate_text(body.as_str(), 1_200);
        let mut section = "## ".to_string();
        section.append(name);
        section.append("\n");
        section.append(body.as_str());
        let ghost before = selected@;
        selected.push(section);
        proof {
            lemma_views_push(before, selected@.last());
        }
    }
}

pub fn compact_review_canon(canon_text: &str) -> (r: String)
    ensures
        r@ == canon_excerpt(canon_text@),
{
    let text = chars_of(canon_text);
    let rows = lines_of(text.as_slice());
    let mark = chars_of("## ");
    let ghost all = views(rows@);
    let mut selected: Vec<String> = Vec::new();
    let mut name = String::new();
    let mut current: Vec<String> = Vec::new();
    let mut i: usize = 0;
    proof {
        reveal_strlit("## ");
        assert(views(selected@) =~= canon_scan(all.take(0)).selected);
        assert(views(current@) =~= canon_scan(all.take(0)).rows);
        assert(name@ =~= canon_scan(all.take(0)).name);
    }
    while i < rows.len()
        invariant
            i <= rows@.len(),
            all == views(rows@),
            mark@ == "## "@,
            mark@.len() == 3,
            views(selected@) == canon_scan(all.take(i as int)).selected,
            views(current@) == canon_scan(all.take(i as int)).rows,
            name@ == canon_scan(all.take(i as int)).name,
        decreases rows@.len() - i,
    {
        proof {
            assert(all.take(i + 1).drop_last() =~= all.take(i as int));
            assert(all.take(i + 1).last() == rows@[i as int]@);
        }
        let row = trim_chars(rows[i].as_slice());
        if matches_chars(row, mark.as_slice(), 0) {
            close_section(&mut selected, name.as_str(), current.as_slice());
            let title = slice_subrange(row, 3, row.len());
            proof {
                assert(title@ =~= row@.skip(3));
            }
            name = string_of(trim_chars(title));
            current = Vec::new();
            proof {
                assert(views(current@) =~= Seq::<Seq<char>>::empty());
            }
        } else if row.len() > 0 {
            let ghost before = current@;
            current.push(string_of(rows[i].as_slice()));
            proof {
                lemma_views_push(before, current@.last());
            }
        }
        i += 1;
    }
    proof {
        assert(all.take(i as int) =~= all);
    }
    close_section(&mut selected, name.as_str(), current.as_slice());
    if selected.len() == 0 {
        truncate_text(canon_text, 2_500)
    } else {
        join_texts(selected.as_slice(), "\n\n")
    }
}

// ---- the prompts ----------------------------------------------------------------------------

/// What is said where a decision cannot be read.
pub open spec fn unreadable_decision(shard_label: Seq<char>, error: Seq<char>) -> Seq<char> {
    shard_label + "：审查决策无法解析："@ + error + "。可以手动重试当前任务；如果频繁出现，请为复检选择 JSON 输出更稳定的模型，或降低并发后再试。"@
}

pub fn review_decision_parse_error_message(shard_label: &str, error: &str) -> (r: String)
    ensures
        r@ == unreadable_decision(shard_label@, error@),
{
    let mut out = shard_label.to_string();
    out.append("：审查决策无法解析：");
    out.append(error);
    out.append("。可以手动重试当前任务；如果频繁出现，请为复检选择 JSON 输出更稳定的模型，或降低并发后再试。");
    out
}

/// Asks for a decision again in valid JSON, with nothing else changed.
pub open spec fn decision_repair_prompt(
    invalid_output: Seq<char>,
    parse_error: Seq<char>,
    settings: NovelSettingsView,
) -> Seq<char> {
    "上一次审查决策输出不是合法 JSON，解析错误："@
        + parse_error
        + REPAIR_RULES@
        + trim(settings.protagonist_name)
        + "\n- 主角改写名："@
        + trim(settings.rewritten_protagonist_name)
        + "\n\n只输出修复后的 JSON，不要 Markdown，不要解释。\n\n待修复原输出：\n"@
        + head(invalid_output, 12_000)
}

pub fn build_review_decision_json_repair_prompt(
    invalid_output: &str,
    parse_error: &str,
    settings: &NovelSettings,
) -> (r: String)
    ensures
        r@ == decision_repair_prompt(invalid_output@, parse_error@, settings@),
{
    let name = trimmed(settings.protagonist_name.as_str());
    let rewritten = trimmed(settings.rewritten_protagonist_name.as_str());
    let shown = truncate_text(invalid_output, 12_000);
    let mut out = "上一次审查决策输出不是合法 JSON，解析错误：".to_string();
    out.append(parse_error);
    out.append(REPAIR_RULES);
    out.append(name.as_str());
    out.append("\n- 主角改写名：");
    out.append(rewritten.as_str());
    out.append("\n\n只输出修复后的 JSON，不要 Markdown，不要解释。\n\n待修复原输出：\n");
    out.append(shown.as_str());
    out
}

/// What a review has to know of the settings.
pub open spec fn review_constraints(
    settings: NovelSettingsView,
    core_prompt: Seq<char>,
    canon_text: Seq<char>,
    mode_label: Seq<char>,
    targets: Seq<char>,
) -> Seq<char> {
    "复检约束摘要：\n- 主角原名："@ + trim(settings.protagonist_name) + "\n- 主角改写名："@
        + rewritten_name_or_rule(settings) + "\n- 其他指定女性化人物/姓名映射："@
        + or_none(settings.additional_feminize_names) + "\n- 重点百合互动对象："@ + targets + "\n- 身材/体型："@
        + settings.bust + " / "@ + settings.body_type + "\n- 模式："@ + mode_label + "\n- 高级设定："@
        + short_or_none(settings.advanced_settings, 2_000) + "\n- 核心设定："@
        + short_or_none(core_prompt, 2_000) + "\n\n相关一致性资料：\n"@ + canon_excerpt(canon_text)
        + BLOCKING_SUMMARY@
}

pub fn build_compact_review_constraints(
    settings: &NovelSettings,
    core_prompt: &str,
    canon_text: &str,
    mode_label: &str,
    relationship_targets: &Option<Vec<RelationshipTargetEntry>>,
) -> (r: String)
    ensures
        r@ == review_constraints(
            settings@,
            core_prompt@,
            canon_text@,
            mode_label@,
            entries_words(tidy_entries(rows_view(*relationship_targets))),
        ),
{
    let name = trimmed(settings.protagonist_name.as_str());
    let rewritten = rewritten_name_of(settings);
    let others = or_none_of(settings.additional_feminize_names.as_str());
    let targets = relationship_targets_summary(relationship_targets);
    let advanced = short_or_none_of(settings.advanced_settings.as_str(), 2_000);
    let core = short_or_none_of(core_prompt, 2_000);
    let canon = compact_review_canon(canon_text);
    let mut out = "复检约束摘要：\n- 主角原名：".to_string();
    out.append(name.as_str());
    out.append("\n- 主角改写名：");
    out.append(rewritten.as_str());
    out.append("\n- 其他指定女性化人物/姓名映射：");
    out.append(others.as_str());
    out.append("\n- 重点百合互动对象：");
    out.append(targets.as_str());
    out.append("\n- 身材/体型：");
    out.append(settings.bust.as_str());
    out.append(" / ");
    out.append(settings.body_type.as_str());
    out.append("\n- 模式：");
    out.append(mode_label);
    out.append("\n- 高级设定：");
    out.append(advanced.as_str());
    out.append("\n- 核心设定：");
    out.append(core.as_str());
    out.append("\n\n相关一致性资料：\n");
    out.append(canon.as_str());
    out.append(BLOCKING_SUMMARY);
    out
}

/// Asks for a review of a shard.
pub fn build_batch_review_decision_prompt_with_context(
    texts: &ReviewTexts,
    settings: &NovelSettings,
    core_prompt: &str,
    shard_context: &str,
) -> (r: String)
    ensures
        r@ == REVIEW_TASK@
            + review_constraints(settings@, core_prompt@, texts.canon@, texts.mode_label@, entries_words(tidy_entries(rows_view(texts.relationship_targets))))
            + "\n\n处理范围约束：\n"@ + or_none(shard_context@) + "\n\n原文章节：\n"@ + texts.original@
            + "\n\n待审查改写稿：\n"@ + texts.rewritten@ + REVIEW_REMINDER@,
        holds(r@, or_none(shard_context@)),
        holds(r@, "\n\n原文章节：\n"@ + texts.original@),
        holds(r@, "\n\n待审查改写稿：\n"@ + texts.rewritten@),
{
    let constraints = build_compact_review_constraints(
        settings,
        core_prompt,
        texts.canon.as_str(),
        texts.mode_label.as_str(),
        &texts.relationship_targets,
    );
    let scope = or_none_of(shard_context);
    let mut out = REVIEW_TASK.to_string();
    out.append(constraints.as_str());
    out.append("\n\n处理范围约束：\n");
    out.append(scope.as_str());
    out.append("\n\n原文章节：\n");
    out.append(texts.original.as_str());
    out.append("\n\n待审查改写稿：\n");
    out.append(texts.rewritten.as_str());
    out.append(REVIEW_REMINDER);
    proof {
        law_review_shows_both_texts(
            constraints@,
            scope@,
            texts.original@,
            texts.rewritten@,
        );
    }
    out
}

/// Asks for a review of a shard that was rewritten under a contract.
pub fn build_graph_review_decision_prompt(
    texts: &ReviewTexts,
    settings: &NovelSettings,
    style_prompt: &str,
    contract: &ContractTexts,
) -> (r: String)
    ensures
        r@ == "你是主角主动重构质量门。只输出一个合法 JSON 对象，不输出 Markdown 或解释。\n\n"@ + contract.rule_pack@
            + GRAPH_REVIEW_TASK@
            + review_constraints(settings@, style_prompt@, texts.canon@, texts.mode_label@, entries_words(tidy_entries(rows_view(texts.relationship_targets))))
            + "\n\n当前分片契约：\n"@ + contract.execution@ + "\n\n当前关系线的已通过连续性状态：\n"@
            + contract.continuity@ + "\n\n处理范围：\n"@ + contract.scope@ + "\n\n原文章节：\n"@
            + texts.original@ + "\n\n待审查改写稿：\n"@ + texts.rewritten@,
        holds(r@, contract.rule_pack@),
        holds(r@, contract.execution@),
        holds(r@, contract.continuity@),
        holds(r@, contract.scope@),
        holds(r@, "\n\n原文章节：\n"@ + texts.original@),
        holds(r@, "\n\n待审查改写稿：\n"@ + texts.rewritten@),
{
    let constraints = build_compact_review_constraints(
        settings,
        style_prompt,
        texts.canon.as_str(),
        texts.mode_label.as_str(),
        &texts.relationship_targets,
    );
    let mut out = "你是主角主动重构质量门。只输出一个合法 JSON 对象，不输出 Markdown 或解释。\n\n".to_string();
    out.append(contract.rule_pack.as_str());
    out.append(GRAPH_REVIEW_TASK);
    out.append(constraints.as_str());
    out.append("\n\n当前分片契约：\n");
    out.append(contract.execution.as_str());
    out.append("\n\n当前关系线的已通过连续性状态：\n");
    out.append(contract.continuity.as_str());
    out.append("\n\n处理范围：\n");
    out.append(contract.scope.as_str());
    out.append("\n\n原文章节：\n");
    out.append(texts.original.as_str());
    out.append("\n\n待审查改写稿：\n");
    out.append(texts.rewritten.as_str());
    proof {
        law_contract_review_shows_all(
            contract.rule_pack@,
            constraints@,
            contract.execution@,
            contract.continuity@,
            contract.scope@,
            texts.original@,
            texts.rewritten@,
        );
    }
    out
}

/// Asks for a revision of a whole shard.
pub fn build_batch_revision_prompt_with_context(
    texts: &RevisionTexts,
    canon_text: &str,
    decision: &ReviewDecision,
) -> (r: String)
    ensures
        r@ == texts.marker_guard@ + "\n\n"@ + texts.priority@ + "\n\n"@ + texts.core_section@
            + "\n\n"@ + texts.settings_section@ + REVISION_TASK@ + texts.cleanup_rule@
            + REVISION_RULES@ + issues_or(decision@.issues, REVISE_ALL@) + "\n\n相关一致性资产：\n"@
            + canon_text@ + "\n\n处理范围约束：\n"@ + texts.scope@ + "\n\n当前章节原文：\n"@ + texts.original@
            + "\n\n上一版改写稿：\n"@ + texts.rewritten@ + "\n\n"@ + texts.reminder@,
        holds(r@, texts.marker_guard@),
        holds(r@, issues_or(decision@.issues, REVISE_ALL@)),
        holds(r@, canon_text@),
        holds(r@, texts.scope@),
        holds(r@, "\n\n当前章节原文：\n"@ + texts.original@),
        holds(r@, "\n\n上一版改写稿：\n"@ + texts.rewritten@),
{
    let issues = issues_or_of(decision.issues.as_slice(), REVISE_ALL);
    let mut out = texts.marker_guard.as_str().to_string();
    out.append("\n\n");
    out.append(texts.priority.as_str());
    out.append("\n\n");
    out.append(texts.core_section.as_str());
    out.append("\n\n");
    out.append(texts.settings_section.as_str());
    out.append(REVISION_TASK);
    out.append(texts.cleanup_rule.as_str());
    out.append(REVISION_RULES);
    out.append(issues.as_str());
    out.append("\n\n相关一致性资产：\n");
    out.append(canon_text);
    out.append("\n\n处理范围约束：\n");
    out.append(texts.scope.as_str());
    out.append("\n\n当前章节原文：\n");
    out.append(texts.original.as_str());
    out.append("\n\n上一版改写稿：\n");
    out.append(texts.rewritten.as_str());
    out.append("\n\n");
    out.append(texts.reminder.as_str());
    proof {
        law_revision_shows_all(
            texts.marker_guard@,
            texts.priority@,
            texts.core_section@,
            texts.settings_section@,
            texts.cleanup_rule@,
            issues@,
            canon_text@,
            texts.scope@,
            texts.original@,
            texts.rewritten@,
            texts.reminder@,
        );
    }
    out
}

/// Asks for a revision of some chapters of a shard.
pub fn build_targeted_revision_prompt(
    texts: &RevisionTexts,
    canon_text: &str,
    settings: &NovelSettings,
    core_prompt: &str,
    shard_context: &str,
    decision: &ReviewDecision,
    adjacent_context: &str,
) -> (r: String)
    ensures
        r@ == "请定向修复审查打回的目标章节。只输出目标章节，禁止输出相邻只读章节或其他章节。\n\n"@ + texts.marker_guard@ + "\n\n"@
            + texts.priority@ + "\n\n必须遵守：\n- 主角原名："@ + trim(settings@.protagonist_name)
            + "；主角改写名："@ + rewritten_name_or_rule(settings@) + "；其他指定女性化人物/姓名映射："@
            + or_none(settings@.additional_feminize_names) + "。\n- 重点百合互动对象："@
            + entries_words(tidy_entries(rows_view(texts.relationship_targets)))
            + "。这些对象只用于维护百合互动和关系连续性，不得因此改变未指定角色性别或原文主线逻辑。\n- 身材/体型："@ + settings@.bust + " / "@
            + settings@.body_type + "；改写模式："@ + texts.mode_label@ + "。\n- 核心设定："@
            + short_or_none(core_prompt@, 12_000) + "\n- 高级设定："@
            + short_or_none(settings@.advanced_settings, 1_200) + TARGETED_RULES@
            + texts.cleanup_rule@ + TARGETED_FORMAT@ + or_none(shard_context@) + "\n\n审查打回问题：\n"@
            + issues_or(decision@.issues, REVISE_TARGETS@) + "\n\n相关一致性资料：\n"@ + canon_text@
            + "\n\n相邻章节只读上下文（不得输出）：\n"@ + adjacent_context@ + "\n\n目标章节原文：\n"@ + texts.original@
            + "\n\n目标章节当前改写稿：\n"@ + texts.rewritten@ + "\n\n"@ + texts.reminder@,
        holds(r@, texts.marker_guard@),
        holds(r@, trim(settings@.protagonist_name)),
        holds(r@, rewritten_name_or_rule(settings@)),
        holds(r@, issues_or(decision@.issues, REVISE_TARGETS@)),
        holds(r@, canon_text@),
        holds(r@, "\n\n相邻章节只读上下文（不得输出）：\n"@ + adjacent_context@),
        holds(r@, "\n\n目标章节原文：\n"@ + texts.original@),
        holds(r@, "\n\n目标章节当前改写稿：\n"@ + texts.rewritten@),
{
    let issues = issues_or_of(decision.issues.as_slice(), REVISE_TARGETS);
    let name = trimmed(settings.protagonist_name.as_str());
    let rewritten = rewritten_name_of(settings);
    let others = or_none_of(settings.additional_feminize_names.as_str());
    let targets = relationship_targets_summary(&texts.relationship_targets);
    let core = short_or_none_of(core_prompt, 12_000);
    let advanced = short_or_none_of(settings.advanced_settings.as_str(), 1_200);
    let scope = or_none_of(shard_context);
    let mut out = "请定向修复审查打回的目标章节。只输出目标章节，禁止输出相邻只读章节或其他章节。\n\n".to_string();
    out.append(texts.marker_guard.as_str());
    out.append("\n\n");
    out.append(texts.priority.as_str());
    out.append("\n\n必须遵守：\n- 主角原名：");
    out.append(name.as_str());
    out.append("；主角改写名：");
    out.append(rewritten.as_str());
    out.append("；其他指定女性化人物/姓名映射：");
    out.append(others.as_str());
    out.append("。\n- 重点百合互动对象：");
    out.append(targets.as_str());
    out.append("。这些对象只用于维护百合互动和关系连续性，不得因此改变未指定角色性别或原文主线逻辑。\n- 身材/体型：");
    out.append(settings.bust.as_str());
    out.append(" / ");
    out.append(settings.body_type.as_str());
    out.append("；改写模式：");
    out.append(texts.mode_label.as_str());
    out.append("。\n- 核心设定：");
    out.append(core.as_str());
    out.append("\n- 高级设定：");
    out.append(advanced.as_str());
    out.append(TARGETED_RULES);
    out.append(texts.cleanup_rule.as_str());
    out.append(TARGETED_FORMAT);
    out.append(scope.as_str());
    out.append("\n\n审查打回问题：\n");
    out.append(issues.as_str());
    out.append("\n\n相关一致性资料：\n");
    out.append(canon_text);
    out.append("\n\n相邻章节只读上下文（不得输出）：\n");
    out.append(adjacent_context);
    out.append("\n\n目标章节原文：\n");
    out.append(texts.original.as_str());
    out.append("\n\n目标章节当前改写稿：\n");
    out.append(texts.rewritten.as_str());
    out.append("\n\n");
    out.append(texts.reminder.as_str());
    proof {
        law_targeted_revision_shows_all(
            texts.marker_guard@,
            texts.priority@,
            name@,
            rewritten@,
            others@,
            targets@,
            settings.bust@,
            settings.body_type@,
            texts.mode_label@,
            core@,
            advanced@,
            texts.cleanup_rule@,
            scope@,
            issues@,
            canon_text@,
            adjacent_context@,
            texts.original@,
            texts.rewritten@,
            texts.reminder@,
        );
    }
    out
}

} // verus!
