//! What a prompt is for: all that it is made of stands in it.
use vstd::prelude::*;
use crate::domain::{NovelSettingsView, ReviewIssueView};
use crate::excerpt::head;
use crate::prompts::{
    canon_excerpt, canon_scan, closed_sections, issues_or, or_none, review_constraints,
    rewritten_name_or_rule, short_or_none, BLOCKING_SUMMARY, CanonScan, GRAPH_REVIEW_TASK,
    REVIEW_REMINDER, REVIEW_TASK, REVISION_RULES, REVISION_TASK, TARGETED_FORMAT, TARGETED_RULES,
};
use crate::review_filter::issue_line;
use crate::targeted::numbered_issues;
use crate::text::{blank, decimal, holds, join, lines, starts, trim};
use crate::text_laws::{
    law_holding_is_transitive, law_joined_text_holds_its_parts, lemma_glue, lemma_glued_holds,
    lemma_holds_end, lemma_holds_more, lemma_holds_start, lemma_push_contains, lemma_regroup,
};

verus! {

/// The summary for a review holds both names of the protagonist, the other names, the people whose
/// bonds matter, both measures, the mode, the settings and what the assets say.
#[verifier::rlimit(40)]
pub proof fn law_summary_says_all(
    settings: NovelSettingsView,
    core_prompt: Seq<char>,
    canon_text: Seq<char>,
    mode_label: Seq<char>,
    targets: Seq<char>,
)
    ensures
        ({
            let text = review_constraints(settings, core_prompt, canon_text, mode_label, targets);
            &&& holds(text, trim(settings.protagonist_name))
            &&& !blank(settings.rewritten_protagonist_name) ==> holds(
                text,
                trim(settings.rewritten_protagonist_name),
            )
            &&& !blank(settings.additional_feminize_names) ==> holds(
                text,
                trim(settings.additional_feminize_names),
            )
            &&& holds(text, targets)
            &&& holds(text, settings.bust)
            &&& holds(text, settings.body_type)
            &&& holds(text, mode_label)
            &&& !blank(settings.advanced_settings) ==> holds(
                text,
                head(trim(settings.advanced_settings), 2_000),
            )
            &&& !blank(core_prompt) ==> holds(text, head(trim(core_prompt), 2_000))
            &&& holds(text, canon_excerpt(canon_text))
        }),
{
    let q0 = Seq::<Seq<char>>::empty();
    let q1 = q0.push(trim(settings.protagonist_name));
    let q2 = q1.push("\n- 主角改写名："@);
    let q3 = q2.push(rewritten_name_or_rule(settings));
    let q4 = q3.push("\n- 其他指定女性化人物/姓名映射："@);
    let q5 = q4.push(or_none(settings.additional_feminize_names));
    let q6 = q5.push("\n- 重点百合互动对象："@);
    let q7 = q6.push(targets);
    let q8 = q7.push("\n- 身材/体型："@);
    let q9 = q8.push(settings.bust);
    let q10 = q9.push(" / "@);
    let q11 = q10.push(settings.body_type);
    let q12 = q11.push("\n- 模式："@);
    let q13 = q12.push(mode_label);
    let q14 = q13.push("\n- 高级设定："@);
    let q15 = q14.push(short_or_none(settings.advanced_settings, 2_000));
    let q16 = q15.push("\n- 核心设定："@);
    let q17 = q16.push(short_or_none(core_prompt, 2_000));
    let q18 = q17.push("\n\n相关一致性资料：\n"@);
    let q19 = q18.push(canon_excerpt(canon_text));
    let q20 = q19.push(BLOCKING_SUMMARY@);
    let first = "复检约束摘要：\n- 主角原名："@;
    lemma_glue(first, q0, trim(settings.protagonist_name));
    lemma_glue(first, q1, "\n- 主角改写名："@);
    lemma_glue(first, q2, rewritten_name_or_rule(settings));
    lemma_glue(first, q3, "\n- 其他指定女性化人物/姓名映射："@);
    lemma_glue(first, q4, or_none(settings.additional_feminize_names));
    lemma_glue(first, q5, "\n- 重点百合互动对象："@);
    lemma_glue(first, q6, targets);
    lemma_glue(first, q7, "\n- 身材/体型："@);
    lemma_glue(first, q8, settings.bust);
    lemma_glue(first, q9, " / "@);
    lemma_glue(first, q10, settings.body_type);
    lemma_glue(first, q11, "\n- 模式："@);
    lemma_glue(first, q12, mode_label);
    lemma_glue(first, q13, "\n- 高级设定："@);
    lemma_glue(first, q14, short_or_none(settings.advanced_settings, 2_000));
    lemma_glue(first, q15, "\n- 核心设定："@);
    lemma_glue(first, q16, short_or_none(core_prompt, 2_000));
    lemma_glue(first, q17, "\n\n相关一致性资料：\n"@);
    lemma_glue(first, q18, canon_excerpt(canon_text));
    lemma_glue(first, q19, BLOCKING_SUMMARY@);
    lemma_glued_holds(first, q20);
    assert(q20[0] == trim(settings.protagonist_name));
    assert(q20[2] == rewritten_name_or_rule(settings));
    assert(q20[4] == or_none(settings.additional_feminize_names));
    assert(q20[6] == targets);
    assert(q20[8] == settings.bust);
    assert(q20[10] == settings.body_type);
    assert(q20[12] == mode_label);
    assert(q20[14] == short_or_none(settings.advanced_settings, 2_000));
    assert(q20[16] == short_or_none(core_prompt, 2_000));
    assert(q20[18] == canon_excerpt(canon_text));
}

/// The request for a review holds the original, the rewrite, the summary and the scope.
pub proof fn law_review_shows_both_texts(
    constraints: Seq<char>,
    scope: Seq<char>,
    original: Seq<char>,
    rewritten: Seq<char>,
)
    ensures
        ({
            let text = REVIEW_TASK@ + constraints + "\n\n处理范围约束：\n"@ + scope + "\n\n原文章节：\n"@
                + original + "\n\n待审查改写稿：\n"@ + rewritten + REVIEW_REMINDER@;
            &&& holds(text, constraints)
            &&& holds(text, scope)
            &&& holds(text, "\n\n原文章节：\n"@ + original)
            &&& holds(text, "\n\n待审查改写稿：\n"@ + rewritten)
        }),
{
    let q0 = Seq::<Seq<char>>::empty();
    let q1 = q0.push(constraints);
    let q2 = q1.push("\n\n处理范围约束：\n"@);
    let q3 = q2.push(scope);
    let first = REVIEW_TASK@;
    lemma_glue(first, q0, constraints);
    lemma_glue(first, q1, "\n\n处理范围约束：\n"@);
    lemma_glue(first, q2, scope);
    lemma_glued_holds(first, q3);
    assert(q3[0] == constraints);
    assert(q3[2] == scope);
    let start = REVIEW_TASK@ + constraints + "\n\n处理范围约束：\n"@ + scope;
    let text = start + "\n\n原文章节：\n"@ + original + "\n\n待审查改写稿：\n"@ + rewritten + REVIEW_REMINDER@;
    law_labelled_texts_stand_in_the_whole(
        start,
        "\n\n原文章节：\n"@,
        original,
        "\n\n待审查改写稿：\n"@,
        rewritten,
    );
    let shown = start + "\n\n原文章节：\n"@ + original + "\n\n待审查改写稿：\n"@ + rewritten;
    lemma_holds_more(shown, REVIEW_REMINDER@, start);
    lemma_holds_more(shown, REVIEW_REMINDER@, "\n\n原文章节：\n"@ + original);
    lemma_holds_more(shown, REVIEW_REMINDER@, "\n\n待审查改写稿：\n"@ + rewritten);
    law_holding_is_transitive(text, start, constraints);
    law_holding_is_transitive(text, start, scope);
}

/// The request for a review under a contract holds the rules, the contract, the continuity, the
/// scope, the original and the rewrite.
pub proof fn law_contract_review_shows_all(
    rule_pack: Seq<char>,
    constraints: Seq<char>,
    execution: Seq<char>,
    continuity: Seq<char>,
    scope: Seq<char>,
    original: Seq<char>,
    rewritten: Seq<char>,
)
    ensures
        ({
            let text = "你是主角主动重构质量门。只输出一个合法 JSON 对象，不输出 Markdown 或解释。\n\n"@ + rule_pack
                + GRAPH_REVIEW_TASK@ + constraints + "\n\n当前分片契约：\n"@ + execution
                + "\n\n当前关系线的已通过连续性状态：\n"@ + continuity + "\n\n处理范围：\n"@ + scope + "\n\n原文章节：\n"@
                + original + "\n\n待审查改写稿：\n"@ + rewritten;
            &&& holds(text, rule_pack)
            &&& holds(text, constraints)
            &&& holds(text, execution)
            &&& holds(text, continuity)
            &&& holds(text, scope)
            &&& holds(text, "\n\n原文章节：\n"@ + original)
            &&& holds(text, "\n\n待审查改写稿：\n"@ + rewritten)
        }),
{
    let q0 = Seq::<Seq<char>>::empty();
    let q1 = q0.push(rule_pack);
    let q2 = q1.push(GRAPH_REVIEW_TASK@);
    let q3 = q2.push(constraints);
    let q4 = q3.push("\n\n当前分片契约：\n"@);
    let q5 = q4.push(execution);
    let q6 = q5.push("\n\n当前关系线的已通过连续性状态：\n"@);
    let q7 = q6.push(continuity);
    let q8 = q7.push("\n\n处理范围：\n"@);
    let q9 = q8.push(scope);
    let first = "你是主角主动重构质量门。只输出一个合法 JSON 对象，不输出 Markdown 或解释。\n\n"@;
    lemma_glue(first, q0, rule_pack);
    lemma_glue(first, q1, GRAPH_REVIEW_TASK@);
    lemma_glue(first, q2, constraints);
    lemma_glue(first, q3, "\n\n当前分片契约：\n"@);
    lemma_glue(first, q4, execution);
    lemma_glue(first, q5, "\n\n当前关系线的已通过连续性状态：\n"@);
    lemma_glue(first, q6, continuity);
    lemma_glue(first, q7, "\n\n处理范围：\n"@);
    lemma_glue(first, q8, scope);
    lemma_glued_holds(first, q9);
    assert(q9[0] == rule_pack);
    assert(q9[2] == constraints);
    assert(q9[4] == execution);
    assert(q9[6] == continuity);
    assert(q9[8] == scope);
    let start = "你是主角主动重构质量门。只输出一个合法 JSON 对象，不输出 Markdown 或解释。\n\n"@ + rule_pack
        + GRAPH_REVIEW_TASK@ + constraints + "\n\n当前分片契约：\n"@ + execution + "\n\n当前关系线的已通过连续性状态：\n"@
        + continuity + "\n\n处理范围：\n"@ + scope;
    let text = start + "\n\n原文章节：\n"@ + original + "\n\n待审查改写稿：\n"@ + rewritten;
    law_labelled_texts_stand_in_the_whole(
        start,
        "\n\n原文章节：\n"@,
        original,
        "\n\n待审查改写稿：\n"@,
        rewritten,
    );
    law_holding_is_transitive(text, start, rule_pack);
    law_holding_is_transitive(text, start, constraints);
    law_holding_is_transitive(text, start, execution);
    law_holding_is_transitive(text, start, continuity);
    law_holding_is_transitive(text, start, scope);
}

/// A text that ends with labelled texts holds each of them with its label.
pub proof fn law_labelled_texts_stand_in_the_whole(
    start: Seq<char>,
    a: Seq<char>,
    b: Seq<char>,
    c: Seq<char>,
    d: Seq<char>,
)
    ensures
        holds(start + a + b + c + d, start),
        holds(start + a + b + c + d, a + b),
        holds(start + a + b + c + d, c + d),
{
    let x = a + b;
    let y = c + d;
    lemma_regroup(start, a, b);
    lemma_regroup(start + a + b, c, d);
    let q0 = Seq::<Seq<char>>::empty();
    let q1 = q0.push(x);
    let q2 = q1.push(y);
    let first = start;
    lemma_glue(first, q0, x);
    lemma_glue(first, q1, y);
    lemma_glued_holds(first, q2);
    assert(q2[0] == x);
    assert(q2[1] == y);
}

/// The request for a revision of a shard holds the rules, the settings, the issues, the assets, the
/// scope, the original and the rewrite so far, these two under their own headings.
#[verifier::rlimit(40)]
pub proof fn law_revision_shows_all(
    marker_guard: Seq<char>,
    priority: Seq<char>,
    core_section: Seq<char>,
    settings_section: Seq<char>,
    cleanup_rule: Seq<char>,
    issues: Seq<char>,
    canon_text: Seq<char>,
    scope: Seq<char>,
    original: Seq<char>,
    rewritten: Seq<char>,
    reminder: Seq<char>,
)
    ensures
        ({
            let text = marker_guard + "\n\n"@ + priority + "\n\n"@ + core_section + "\n\n"@
                + settings_section + REVISION_TASK@ + cleanup_rule + REVISION_RULES@ + issues
                + "\n\n相关一致性资产：\n"@ + canon_text + "\n\n处理范围约束：\n"@ + scope + "\n\n当前章节原文：\n"@ + original
                + "\n\n上一版改写稿：\n"@ + rewritten + "\n\n"@ + reminder;
            &&& holds(text, marker_guard)
            &&& holds(text, priority)
            &&& holds(text, core_section)
            &&& holds(text, settings_section)
            &&& holds(text, cleanup_rule)
            &&& holds(text, issues)
            &&& holds(text, canon_text)
            &&& holds(text, scope)
            &&& holds(text, "\n\n当前章节原文：\n"@ + original)
            &&& holds(text, "\n\n上一版改写稿：\n"@ + rewritten)
            &&& holds(text, reminder)
        }),
{
    let q0 = Seq::<Seq<char>>::empty();
    let q1 = q0.push("\n\n"@);
    let q2 = q1.push(priority);
    let q3 = q2.push("\n\n"@);
    let q4 = q3.push(core_section);
    let q5 = q4.push("\n\n"@);
    let q6 = q5.push(settings_section);
    let q7 = q6.push(REVISION_TASK@);
    let q8 = q7.push(cleanup_rule);
    let q9 = q8.push(REVISION_RULES@);
    let q10 = q9.push(issues);
    let q11 = q10.push("\n\n相关一致性资产：\n"@);
    let q12 = q11.push(canon_text);
    let q13 = q12.push("\n\n处理范围约束：\n"@);
    let q14 = q13.push(scope);
    let first = marker_guard;
    lemma_glue(first, q0, "\n\n"@);
    lemma_glue(first, q1, priority);
    lemma_glue(first, q2, "\n\n"@);
    lemma_glue(first, q3, core_section);
    lemma_glue(first, q4, "\n\n"@);
    lemma_glue(first, q5, settings_section);
    lemma_glue(first, q6, REVISION_TASK@);
    lemma_glue(first, q7, cleanup_rule);
    lemma_glue(first, q8, REVISION_RULES@);
    lemma_glue(first, q9, issues);
    lemma_glue(first, q10, "\n\n相关一致性资产：\n"@);
    lemma_glue(first, q11, canon_text);
    lemma_glue(first, q12, "\n\n处理范围约束：\n"@);
    lemma_glue(first, q13, scope);
    lemma_glued_holds(first, q14);
    assert(q14[1] == priority);
    assert(q14[3] == core_section);
    assert(q14[5] == settings_section);
    assert(q14[7] == cleanup_rule);
    assert(q14[9] == issues);
    assert(q14[11] == canon_text);
    assert(q14[13] == scope);
    let start = marker_guard + "\n\n"@ + priority + "\n\n"@ + core_section + "\n\n"@ + settings_section
        + REVISION_TASK@ + cleanup_rule + REVISION_RULES@ + issues + "\n\n相关一致性资产：\n"@ + canon_text
        + "\n\n处理范围约束：\n"@ + scope;
    let shown = start + "\n\n当前章节原文：\n"@ + original + "\n\n上一版改写稿：\n"@ + rewritten;
    let text = shown + "\n\n"@ + reminder;
    law_labelled_texts_stand_in_the_whole(
        start,
        "\n\n当前章节原文：\n"@,
        original,
        "\n\n上一版改写稿：\n"@,
        rewritten,
    );
    lemma_holds_start(shown, "\n\n"@);
    lemma_holds_more(shown + "\n\n"@, reminder, shown);
    lemma_holds_end(shown + "\n\n"@, reminder);
    law_holding_is_transitive(text, shown, start);
    law_holding_is_transitive(text, shown, "\n\n当前章节原文：\n"@ + original);
    law_holding_is_transitive(text, shown, "\n\n上一版改写稿：\n"@ + rewritten);
    law_holding_is_transitive(text, start, marker_guard);
    law_holding_is_transitive(text, start, priority);
    law_holding_is_transitive(text, start, core_section);
    law_holding_is_transitive(text, start, settings_section);
    law_holding_is_transitive(text, start, cleanup_rule);
    law_holding_is_transitive(text, start, issues);
    law_holding_is_transitive(text, start, canon_text);
    law_holding_is_transitive(text, start, scope);
}

/// The request for a revision of some chapters holds the rules, the names, the settings, the scope,
/// the issues, the assets, and under their own headings the chapters beside them, the original and
/// the rewrite so far.
#[verifier::rlimit(60)]
#[verifier::spinoff_prover]
pub proof fn law_targeted_revision_shows_all(
    marker_guard: Seq<char>,
    priority: Seq<char>,
    name: Seq<char>,
    new_name: Seq<char>,
    others: Seq<char>,
    targets: Seq<char>,
    bust: Seq<char>,
    body_type: Seq<char>,
    mode_label: Seq<char>,
    core: Seq<char>,
    advanced: Seq<char>,
    cleanup_rule: Seq<char>,
    scope: Seq<char>,
    issues: Seq<char>,
    canon_text: Seq<char>,
    adjacent: Seq<char>,
    original: Seq<char>,
    rewritten: Seq<char>,
    reminder: Seq<char>,
)
    ensures
        ({
            let text = "请定向修复审查打回的目标章节。只输出目标章节，禁止输出相邻只读章节或其他章节。\n\n"@ + marker_guard + "\n\n"@ + priority + "\n\n必须遵守：\n- 主角原名："@ + name + "；主角改写名："@ + new_name + "；其他指定女性化人物/姓名映射："@ + others + "。\n- 重点百合互动对象："@ + targets + "。这些对象只用于维护百合互动和关系连续性，不得因此改变未指定角色性别或原文主线逻辑。\n- 身材/体型："@ + bust + " / "@ + body_type + "；改写模式："@ + mode_label + "。\n- 核心设定："@ + core + "\n- 高级设定："@ + advanced + TARGETED_RULES@ + cleanup_rule + TARGETED_FORMAT@ + scope + "\n\n审查打回问题：\n"@ + issues + "\n\n相关一致性资料：\n"@ + canon_text
                + "\n\n相邻章节只读上下文（不得输出）：\n"@ + adjacent + "\n\n目标章节原文：\n"@ + original + "\n\n目标章节当前改写稿：\n"@
                + rewritten + "\n\n"@ + reminder;
            &&& holds(text, marker_guard)
            &&& holds(text, priority)
            &&& holds(text, name)
            &&& holds(text, new_name)
            &&& holds(text, others)
            &&& holds(text, targets)
            &&& holds(text, bust)
            &&& holds(text, body_type)
            &&& holds(text, mode_label)
            &&& holds(text, core)
            &&& holds(text, advanced)
            &&& holds(text, cleanup_rule)
            &&& holds(text, scope)
            &&& holds(text, issues)
            &&& holds(text, canon_text)
            &&& holds(text, "\n\n相邻章节只读上下文（不得输出）：\n"@ + adjacent)
            &&& holds(text, "\n\n目标章节原文：\n"@ + original)
            &&& holds(text, "\n\n目标章节当前改写稿：\n"@ + rewritten)
            &&& holds(text, reminder)
        }),
{
    let q0 = Seq::<Seq<char>>::empty();
    let q1 = q0.push(marker_guard);
    let q2 = q1.push("\n\n"@);
    let q3 = q2.push(priority);
    let q4 = q3.push("\n\n必须遵守：\n- 主角原名："@);
    let q5 = q4.push(name);
    let q6 = q5.push("；主角改写名："@);
    let q7 = q6.push(new_name);
    let q8 = q7.push("；其他指定女性化人物/姓名映射："@);
    let q9 = q8.push(others);
    let q10 = q9.push("。\n- 重点百合互动对象："@);
    let q11 = q10.push(targets);
    let q12 = q11.push("。这些对象只用于维护百合互动和关系连续性，不得因此改变未指定角色性别或原文主线逻辑。\n- 身材/体型："@);
    let q13 = q12.push(bust);
    let q14 = q13.push(" / "@);
    let q15 = q14.push(body_type);
    let q16 = q15.push("；改写模式："@);
    let q17 = q16.push(mode_label);
    let q18 = q17.push("。\n- 核心设定："@);
    let q19 = q18.push(core);
    let q20 = q19.push("\n- 高级设定："@);
    let q21 = q20.push(advanced);
    let q22 = q21.push(TARGETED_RULES@);
    let q23 = q22.push(cleanup_rule);
    let q24 = q23.push(TARGETED_FORMAT@);
    let q25 = q24.push(scope);
    let q26 = q25.push("\n\n审查打回问题：\n"@);
    let q27 = q26.push(issues);
    let q28 = q27.push("\n\n相关一致性资料：\n"@);
    let q29 = q28.push(canon_text);
    let first = "请定向修复审查打回的目标章节。只输出目标章节，禁止输出相邻只读章节或其他章节。\n\n"@;
    lemma_glue(first, q0, marker_guard);
    lemma_glue(first, q1, "\n\n"@);
    lemma_glue(first, q2, priority);
    lemma_glue(first, q3, "\n\n必须遵守：\n- 主角原名："@);
    lemma_glue(first, q4, name);
    lemma_glue(first, q5, "；主角改写名："@);
    lemma_glue(first, q6, new_name);
    lemma_glue(first, q7, "；其他指定女性化人物/姓名映射："@);
    lemma_glue(first, q8, others);
    lemma_glue(first, q9, "。\n- 重点百合互动对象："@);
    lemma_glue(first, q10, targets);
    lemma_glue(first, q11, "。这些对象只用于维护百合互动和关系连续性，不得因此改变未指定角色性别或原文主线逻辑。\n- 身材/体型："@);
    lemma_glue(first, q12, bust);
    lemma_glue(first, q13, " / "@);
    lemma_glue(first, q14, body_type);
    lemma_glue(first, q15, "；改写模式："@);
    lemma_glue(first, q16, mode_label);
    lemma_glue(first, q17, "。\n- 核心设定："@);
    lemma_glue(first, q18, core);
    lemma_glue(first, q19, "\n- 高级设定："@);
    lemma_glue(first, q20, advanced);
    lemma_glue(first, q21, TARGETED_RULES@);
    lemma_glue(first, q22, cleanup_rule);
    lemma_glue(first, q23, TARGETED_FORMAT@);
    lemma_glue(first, q24, scope);
    lemma_glue(first, q25, "\n\n审查打回问题：\n"@);
    lemma_glue(first, q26, issues);
    lemma_glue(first, q27, "\n\n相关一致性资料：\n"@);
    lemma_glue(first, q28, canon_text);
    lemma_glued_holds(first, q29);
    assert(q29[0] == marker_guard);
    assert(q29[2] == priority);
    assert(q29[4] == name);
    assert(q29[6] == new_name);
    assert(q29[8] == others);
    assert(q29[10] == targets);
    assert(q29[12] == bust);
    assert(q29[14] == body_type);
    assert(q29[16] == mode_label);
    assert(q29[18] == core);
    assert(q29[20] == advanced);
    assert(q29[22] == cleanup_rule);
    assert(q29[24] == scope);
    assert(q29[26] == issues);
    assert(q29[28] == canon_text);
    let start = "请定向修复审查打回的目标章节。只输出目标章节，禁止输出相邻只读章节或其他章节。\n\n"@ + marker_guard + "\n\n"@ + priority + "\n\n必须遵守：\n- 主角原名："@ + name + "；主角改写名："@ + new_name + "；其他指定女性化人物/姓名映射："@ + others + "。\n- 重点百合互动对象："@ + targets + "。这些对象只用于维护百合互动和关系连续性，不得因此改变未指定角色性别或原文主线逻辑。\n- 身材/体型："@ + bust + " / "@ + body_type + "；改写模式："@ + mode_label + "。\n- 核心设定："@ + core + "\n- 高级设定："@ + advanced + TARGETED_RULES@ + cleanup_rule + TARGETED_FORMAT@ + scope + "\n\n审查打回问题：\n"@ + issues + "\n\n相关一致性资料：\n"@ + canon_text;
    let known = start + "\n\n相邻章节只读上下文（不得输出）：\n"@ + adjacent;
    let shown = known + "\n\n目标章节原文：\n"@ + original + "\n\n目标章节当前改写稿：\n"@ + rewritten;
    let text = shown + "\n\n"@ + reminder;
    lemma_two_behind(start, "\n\n相邻章节只读上下文（不得输出）：\n"@, adjacent);
    law_labelled_texts_stand_in_the_whole(
        known,
        "\n\n目标章节原文：\n"@,
        original,
        "\n\n目标章节当前改写稿：\n"@,
        rewritten,
    );
    lemma_two_behind(shown, "\n\n"@, reminder);
    lemma_holds_end(shown + "\n\n"@, reminder);
    law_holding_is_transitive(text, shown, known);
    law_holding_is_transitive(text, known, start);
    law_holding_is_transitive(text, known, "\n\n相邻章节只读上下文（不得输出）：\n"@ + adjacent);
    law_holding_is_transitive(text, shown, "\n\n目标章节原文：\n"@ + original);
    law_holding_is_transitive(text, shown, "\n\n目标章节当前改写稿：\n"@ + rewritten);
    law_holding_is_transitive(text, start, marker_guard);
    law_holding_is_transitive(text, start, priority);
    law_holding_is_transitive(text, start, name);
    law_holding_is_transitive(text, start, new_name);
    law_holding_is_transitive(text, start, others);
    law_holding_is_transitive(text, start, targets);
    law_holding_is_transitive(text, start, bust);
    law_holding_is_transitive(text, start, body_type);
    law_holding_is_transitive(text, start, mode_label);
    law_holding_is_transitive(text, start, core);
    law_holding_is_transitive(text, start, advanced);
    law_holding_is_transitive(text, start, cleanup_rule);
    law_holding_is_transitive(text, start, scope);
    law_holding_is_transitive(text, start, issues);
    law_holding_is_transitive(text, start, canon_text);
}

proof fn lemma_two_behind(start: Seq<char>, a: Seq<char>, b: Seq<char>)
    ensures
        holds(start + a + b, start),
        holds(start + a + b, a + b),
{
    lemma_holds_start(start, a);
    lemma_holds_more(start + a, b, start);
    lemma_holds_end(start, a + b);
    lemma_regroup(start, a, b);
}

/// The issues of a review stand in a revision, each by its own line.
pub proof fn law_revision_lists_every_issue(
    issues: Seq<ReviewIssueView>,
    other: Seq<char>,
    i: int,
)
    requires
        0 <= i < issues.len(),
    ensures
        holds(issues_or(issues, other), issue_line(issues[i])),
{
    let parts = numbered_issues(issues);
    law_joined_text_holds_its_parts(parts, "\n"@, i);
    lemma_holds_end(decimal(i + 1) + ". "@, issue_line(issues[i]));
    law_holding_is_transitive(issues_or(issues, other), parts[i], issue_line(issues[i]));
}

// ---- the assets that a review is shown ------------------------------------------------------
/// Whether a line begins a section.
pub open spec fn begins_section(row: Seq<char>) -> bool {
    starts(trim(row), "## "@)
}

proof fn lemma_rows_are_read(before: Seq<Seq<char>>, rows: Seq<Seq<char>>)
    requires
        before.len() > 0,
        begins_section(before.last()),
        forall|i: int|
            0 <= i < rows.len() ==> trim(#[trigger] rows[i]).len() > 0 && !begins_section(rows[i]),
    ensures
        canon_scan(before + rows).rows == rows,
        canon_scan(before + rows).name == trim(trim(before.last()).skip(3)),
    decreases rows.len(),
{
    if rows.len() == 0 {
        assert(before + rows =~= before);
        assert(canon_scan(before).rows =~= rows);
    } else {
        let rest = rows.drop_last();
        assert forall|i: int| 0 <= i < rest.len() implies trim(#[trigger] rest[i]).len() > 0
            && !begins_section(rest[i]) by {
            assert(rest[i] == rows[i]);
        }
        lemma_rows_are_read(before, rest);
        assert((before + rows).drop_last() =~= before + rest);
        assert((before + rows).last() == rows.last());
        assert(trim(rows[rows.len() - 1]).len() > 0 && !begins_section(rows[rows.len() - 1]));
        assert(rest.push(rows.last()) =~= rows);
    }
}

proof fn lemma_selected_stays(before: Seq<Seq<char>>, rows: Seq<Seq<char>>, x: Seq<char>)
    requires
        canon_scan(before).selected.contains(x),
    ensures
        canon_scan(before + rows).selected.contains(x),
        closed_sections(canon_scan(before + rows)).contains(x),
    decreases rows.len(),
{
    let scan = canon_scan(before + rows);
    if rows.len() == 0 {
        assert(before + rows =~= before);
    } else {
        let rest = rows.drop_last();
        lemma_selected_stays(before, rest, x);
        assert((before + rows).drop_last() =~= before + rest);
    }
    lemma_push_contains(
        scan.selected,
        "## "@ + scan.name + "\n"@ + head(join(scan.rows, "\n"@), 1_200),
        x,
    );
}

/// A section of the assets on names, characters or relationships is shown to a review, wherever it
/// stands, with the lines under its heading.
pub proof fn law_needed_section_is_shown(
    before: Seq<Seq<char>>,
    heading: Seq<char>,
    rows: Seq<Seq<char>>,
    behind: Seq<Seq<char>>,
)
    requires
        begins_section(heading),
        trim(trim(heading).skip(3)) == "姓名映射表"@ || trim(trim(heading).skip(3)) == "人物卡"@ || trim(
            trim(heading).skip(3),
        ) == "人物关系"@,
        rows.len() > 0,
        forall|i: int|
            0 <= i < rows.len() ==> trim(#[trigger] rows[i]).len() > 0 && !begins_section(rows[i]),
        behind.len() > 0 ==> begins_section(behind[0]),
    ensures
        closed_sections(canon_scan(before.push(heading) + rows + behind)).contains(
            "## "@ + trim(trim(heading).skip(3)) + "\n"@ + head(join(rows, "\n"@), 1_200),
        ),
{
    let open = before.push(heading);
    let name = trim(trim(heading).skip(3));
    let shown = "## "@ + name + "\n"@ + head(join(rows, "\n"@), 1_200);
    lemma_rows_are_read(open, rows);
    let scan = canon_scan(open + rows);
    lemma_push_contains(scan.selected, shown, shown);
    if behind.len() == 0 {
        assert(open + rows + behind =~= open + rows);
    } else {
        let next = (open + rows).push(behind[0]);
        assert(next.drop_last() =~= open + rows);
        assert(canon_scan(next).selected.contains(shown));
        lemma_selected_stays(next, behind.skip(1), shown);
        assert(next + behind.skip(1) =~= open + rows + behind);
    }
}

/// A section on anything else is not shown.
pub proof fn law_other_section_is_not_shown(scan: CanonScan)
    requires
        scan.name != "姓名映射表"@,
        scan.name != "人物卡"@,
        scan.name != "人物关系"@,
    ensures
        closed_sections(scan) == scan.selected,
{
}

/// What a review is shown of the assets holds each section that was chosen.
pub proof fn law_excerpt_holds_every_section(canon: Seq<char>, i: int)
    requires
        0 <= i < closed_sections(canon_scan(lines(canon))).len(),
    ensures
        holds(canon_excerpt(canon), closed_sections(canon_scan(lines(canon)))[i]),
{
    law_joined_text_holds_its_parts(closed_sections(canon_scan(lines(canon))), "\n\n"@, i);
}

} // verus!
