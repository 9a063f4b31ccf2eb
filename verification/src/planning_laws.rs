//! What planning is for: a plan speaks of the protagonist by the new name, a kept contract is used
//! again exactly where nothing it rests on has changed, and what was wished for is kept.
use vstd::prelude::*;
use crate::contracts::{common_contract, fits_at, ContractRecord, ContractWish};
use crate::domain::{
    ChapterView, ModelProfileView, NovelSettingsView, RewriteObligationView, RewritePlanView,
};
use crate::estimation::{in_figure, labelled_figure, leading_figure, total_size};
use crate::json::json_quoted;
use crate::order::{law_sorting_keeps_the_elements, sorted_by};
use crate::planning::{
    alias_separators, chapter_source, chapter_sources, fingerprint_parts, first_repair, length_key,
    longest_first, names_to_replace, obligation_count, old_names, plan_next, renamed, renamed_plan,
    second_repair, settings_fields, without_repeats, PlanNextView, PlanReply, PlanStage,
    SECOND_REPAIR_RULES,
};
use crate::targets::{
    entries_json, entries_words, entry_json, entry_words, tidy_entries, tidy_entry,
    RelationshipTargetEntryView,
};
use crate::text::{
    ascii_digit, blank, decimal, holds, join, lemma_find_from, matches_at, replace_all, split_on,
    trim, trim_start, white,
};
use crate::text_laws::{
    law_holding_is_transitive, law_joined_text_holds_its_parts, law_replacing_nothing,
    law_replacing_the_first_match, lemma_holds_inside, lemma_push_contains,
};

verus! {

// ---- the names of the protagonist -----------------------------------------------------------
proof fn lemma_old_names(parts: Seq<Seq<char>>, target: Seq<char>, x: Seq<char>)
    ensures
        old_names(parts, target).contains(x) <==> x.len() > 0 && x != target && exists|i: int|
            0 <= i < parts.len() && trim(#[trigger] parts[i]) == x,
    decreases parts.len(),
{
    if parts.len() > 0 {
        let rest = parts.drop_last();
        lemma_old_names(rest, target, x);
        lemma_push_contains(old_names(rest, target), trim(parts.last()), x);
        if exists|i: int| 0 <= i < rest.len() && trim(#[trigger] rest[i]) == x {
            let i = choose|i: int| 0 <= i < rest.len() && trim(#[trigger] rest[i]) == x;
            assert(trim(parts[i]) == x);
        }
        if trim(parts.last()) == x {
            assert(trim(parts[parts.len() - 1]) == x);
        }
        if exists|i: int| 0 <= i < parts.len() && trim(#[trigger] parts[i]) == x {
            let i = choose|i: int| 0 <= i < parts.len() && trim(#[trigger] parts[i]) == x;
            if i < rest.len() {
                assert(trim(rest[i]) == x);
            }
        }
    } else {
        assert(!old_names(parts, target).contains(x));
    }
}

proof fn lemma_without_repeats(s: Seq<Seq<char>>, key: spec_fn(Seq<char>) -> int)
    requires
        sorted_by(s, key),
    ensures
        forall|x: Seq<char>| #[trigger] without_repeats(s).contains(x) <==> s.contains(x),
        s.len() > 0 ==> without_repeats(s).len() > 0 && without_repeats(s).last() == s.last(),
        sorted_by(without_repeats(s), key),
    decreases s.len(),
{
    if s.len() > 1 {
        let rest = s.drop_last();
        assert(sorted_by(rest, key)) by {
            assert forall|i: int, j: int| 0 <= i < j < rest.len() implies key(#[trigger] rest[i])
                <= key(#[trigger] rest[j]) by {
                assert(key(s[i]) <= key(s[j]));
            }
        }
        lemma_without_repeats(rest, key);
        let before = without_repeats(rest);
        let r = without_repeats(s);
        assert(rest.push(s.last()) =~= s);
        assert forall|x: Seq<char>| #[trigger] r.contains(x) <==> s.contains(x) by {
            lemma_push_contains(before, s.last(), x);
            lemma_push_contains(rest, s.last(), x);
            assert(before.contains(before[before.len() - 1]));
            assert(before.contains(x) <==> rest.contains(x));
        }
        assert forall|i: int, j: int| 0 <= i < j < r.len() implies key(#[trigger] r[i]) <= key(
            #[trigger] r[j],
        ) by {
            if j < before.len() {
                assert(key(before[i]) <= key(before[j]));
            } else {
                assert(before.contains(before[i]));
                assert(rest.contains(before[i]));
                let k = rest.index_of(before[i]);
                assert(key(s[k]) <= key(s[s.len() - 1]));
            }
        }
    }
}

/// The names that give way are the protagonist's name and aliases, without the new name itself, and
/// a longer one always before a shorter one.
pub proof fn law_old_names_give_way(settings: NovelSettingsView, x: Seq<char>)
    ensures
        names_to_replace(settings).contains(x) <==> x.len() > 0 && x != trim(
            settings.rewritten_protagonist_name,
        ) && (x == trim(settings.protagonist_name) || exists|i: int|
            0 <= i < split_on(settings.protagonist_aliases, alias_separators()).len() && trim(
                #[trigger] split_on(settings.protagonist_aliases, alias_separators())[i],
            ) == x),
        forall|i: int, j: int|
            0 <= i < j < names_to_replace(settings).len() ==> (#[trigger] names_to_replace(
                settings,
            )[i]).len() >= (#[trigger] names_to_replace(settings)[j]).len(),
{
    broadcast use vstd::seq_lib::group_to_multiset_ensures;

    let aliases = split_on(settings.protagonist_aliases, alias_separators());
    let parts = seq![settings.protagonist_name] + aliases;
    let target = trim(settings.rewritten_protagonist_name);
    let old = old_names(parts, target);
    let sorted = longest_first(old);
    lemma_old_names(parts, target, x);
    law_sorting_keeps_the_elements(old, length_key());
    lemma_without_repeats(sorted, length_key());
    let names = names_to_replace(settings);
    assert(names.contains(x) <==> sorted.contains(x));
    assert(sorted.contains(x) <==> old.contains(x)) by {
        assert(sorted.to_multiset().contains(x) <==> sorted.contains(x));
        assert(old.to_multiset().contains(x) <==> old.contains(x));
    }
    if exists|i: int| 0 <= i < parts.len() && trim(#[trigger] parts[i]) == x {
        let i = choose|i: int| 0 <= i < parts.len() && trim(#[trigger] parts[i]) == x;
        if i > 0 {
            assert(parts[i] == aliases[i - 1]);
        }
    }
    if x == trim(settings.protagonist_name) {
        assert(trim(parts[0]) == x);
    }
    if exists|i: int| 0 <= i < aliases.len() && trim(#[trigger] aliases[i]) == x {
        let i = choose|i: int| 0 <= i < aliases.len() && trim(#[trigger] aliases[i]) == x;
        assert(parts[i + 1] == aliases[i]);
        assert(trim(parts[i + 1]) == x);
    }
    assert forall|i: int, j: int| 0 <= i < j < names.len() implies (#[trigger] names[i]).len() >= (
    #[trigger] names[j]).len() by {
        assert(length_key()(names[i]) <= length_key()(names[j]));
    }
}

/// What stands between two aliases: a line break, a comma, an enumeration comma or a semicolon.
pub proof fn law_what_parts_aliases(c: char)
    ensures
        alias_separators().contains(c) <==> c == '\n' || c == '\r' || c == ',' || c == '，' || c == '、'
            || c == ';' || c == '；',
{
    let s = alias_separators();
    assert(s.len() == 7);
    assert(s[0] == '\n' && s[1] == '\r' && s[2] == ',' && s[3] == '，' && s[4] == '、' && s[5] == ';'
        && s[6] == '；');
}

/// A text that has none of the old names stays as it is.
pub proof fn law_text_without_old_names_stays(
    text: Seq<char>,
    names: Seq<Seq<char>>,
    target: Seq<char>,
)
    requires
        forall|i: int| 0 <= i < names.len() ==> !holds(text, #[trigger] names[i]),
    ensures
        renamed(text, names, target) == text,
    decreases names.len(),
{
    if names.len() > 0 {
        let rest = names.drop_last();
        assert forall|i: int| 0 <= i < rest.len() implies !holds(text, #[trigger] rest[i]) by {
            assert(rest[i] == names[i]);
        }
        law_text_without_old_names_stays(text, rest, target);
        assert(!holds(text, names[names.len() - 1]));
        law_replacing_nothing(text, names.last(), target);
    }
}

proof fn lemma_longer_is_not_held(t: Seq<char>, p: Seq<char>)
    requires
        t.len() <= p.len(),
        t != p,
    ensures
        !holds(t, p),
{
    if holds(t, p) {
        let i = choose|i: int| matches_at(t, p, i);
        assert(i == 0);
        assert(t.subrange(0, t.len() as int) =~= t);
    }
}

proof fn lemma_name_becomes_target(names: Seq<Seq<char>>, target: Seq<char>, k: int)
    requires
        0 <= k < names.len(),
        names[k].len() > 0,
        forall|i: int, j: int|
            0 <= i < j < names.len() ==> (#[trigger] names[i]).len() >= (#[trigger] names[j]).len(),
        forall|i: int| 0 <= i < names.len() ==> !holds(target, #[trigger] names[i]),
    ensures
        renamed(names[k], names, target) == target,
    decreases names.len(),
{
    let rest = names.drop_last();
    let last = names[names.len() - 1];
    let name = names[k];
    assert forall|i: int, j: int| 0 <= i < j < rest.len() implies (#[trigger] rest[i]).len() >= (
    #[trigger] rest[j]).len() by {
        assert(names[i].len() >= names[j].len());
    }
    assert forall|i: int| 0 <= i < rest.len() implies !holds(target, #[trigger] rest[i]) by {
        assert(rest[i] == names[i]);
    }
    if exists|j: int| 0 <= j < rest.len() && #[trigger] rest[j] == name {
        let j = choose|j: int| 0 <= j < rest.len() && #[trigger] rest[j] == name;
        lemma_name_becomes_target(rest, target, j);
        assert(!holds(target, last));
        law_replacing_nothing(target, last, target);
    } else {
        assert(k == names.len() - 1) by {
            if k < names.len() - 1 {
                assert(rest[k] == name);
            }
        }
        assert forall|i: int| 0 <= i < rest.len() implies !holds(name, #[trigger] rest[i]) by {
            assert(names[i].len() >= names[k].len());
            assert(rest[i] != name);
            lemma_longer_is_not_held(name, rest[i]);
        }
        law_text_without_old_names_stays(name, rest, target);
        let none = Seq::<char>::empty();
        assert(none + name + none =~= name);
        law_replacing_the_first_match(none, name, none, target);
        assert(none + target + replace_all(none, name, target) =~= target);
    }
}

/// A planned state whose value is a name of the protagonist has the new name as its value
/// afterwards, in the plan itself and in its obligations, where the new name has no old one in it.
pub proof fn law_old_name_becomes_the_new_one(
    plan: RewritePlanView,
    settings: NovelSettingsView,
    name: Seq<char>,
    o: int,
    i: int,
)
    requires
        !blank(settings.rewritten_protagonist_name),
        names_to_replace(settings).contains(name),
        forall|k: int|
            0 <= k < names_to_replace(settings).len() ==> !holds(
                trim(settings.rewritten_protagonist_name),
                #[trigger] names_to_replace(settings)[k],
            ),
    ensures
        0 <= i < plan.planned_state_updates.len() && plan.planned_state_updates[i].value == name
            ==> renamed_plan(plan, settings).planned_state_updates[i].value == trim(
            settings.rewritten_protagonist_name,
        ),
        0 <= o < plan.obligations.len() && 0 <= i
            < plan.obligations[o].planned_state_updates.len()
            && plan.obligations[o].planned_state_updates[i].value == name ==> renamed_plan(
            plan,
            settings,
        ).obligations[o].planned_state_updates[i].value == trim(
            settings.rewritten_protagonist_name,
        ),
{
    let names = names_to_replace(settings);
    let target = trim(settings.rewritten_protagonist_name);
    law_old_names_give_way(settings, name);
    let k = names.index_of(name);
    assert(names[k] == name);
    lemma_name_becomes_target(names, target, k);
}

/// Without a new name a plan stays as it is.
pub proof fn law_plan_without_a_new_name_stays(plan: RewritePlanView, settings: NovelSettingsView)
    requires
        trim(settings.rewritten_protagonist_name).len() == 0,
    ensures
        renamed_plan(plan, settings) == plan,
{
}

// ---- asking for a plan ----------------------------------------------------------------------
/// A repair says what was wrong, what was asked for and what came back.
pub proof fn law_repair_says_all(error: Seq<char>, prompt: Seq<char>, output: Seq<char>)
    ensures
        holds(first_repair(error, prompt, output), error),
        holds(first_repair(error, prompt, output), prompt),
        holds(first_repair(error, prompt, output), output),
        holds(second_repair(error, prompt, output), error),
        holds(second_repair(error, prompt, output), prompt),
        holds(second_repair(error, prompt, output), output),
{
    let a = first_repair(error, prompt, output);
    let s0 = "规划输出校验失败："@;
    let s1 = "\n\n请依据原始规划要求修复下列输出。不得删除节点义务，不得伪造原文证据。\n\n原始规划要求：\n"@;
    let s2 = "\n\n待修复输出：\n"@;
    lemma_holds_inside(s0, error, s1 + prompt + s2 + output);
    assert(s0 + error + (s1 + prompt + s2 + output) =~= a);
    lemma_holds_inside(s0 + error + s1, prompt, s2 + output);
    assert(s0 + error + s1 + prompt + (s2 + output) =~= a);
    lemma_holds_inside(s0 + error + s1 + prompt + s2, output, Seq::empty());
    assert(s0 + error + s1 + prompt + s2 + output + Seq::empty() =~= a);
    let b = second_repair(error, prompt, output);
    let t0 = "上一次修复仍未通过确定性校验："@;
    let t1 = SECOND_REPAIR_RULES@;
    let t2 = "\n\n上一次修复输出：\n"@;
    lemma_holds_inside(t0, error, t1 + prompt + t2 + output);
    assert(t0 + error + (t1 + prompt + t2 + output) =~= b);
    lemma_holds_inside(t0 + error + t1, prompt, t2 + output);
    assert(t0 + error + t1 + prompt + (t2 + output) =~= b);
    lemma_holds_inside(t0 + error + t1 + prompt + t2, output, Seq::empty());
    assert(t0 + error + t1 + prompt + t2 + output + Seq::empty() =~= b);
}

/// An answer that is no valid plan is never taken for one: it is repaired, and what is asked then
/// holds the error, the request and the answer; after the second repair the error is the outcome.
pub proof fn law_invalid_plan_is_not_taken(
    stage: PlanStage,
    error: String,
    output: String,
    prompt: Seq<char>,
    settings: NovelSettingsView,
)
    ensures
        ({
            let next = plan_next(stage, PlanReply::Invalid { error, output }, prompt, settings);
            &&& stage is SecondRepair ==> next == PlanNextView::Failed(error@)
            &&& !(stage is SecondRepair) ==> (next matches PlanNextView::Ask {
                prompt: asked,
                stage: s,
            } && holds(asked, error@) && holds(asked, prompt) && holds(asked, output@))
        }),
{
    law_repair_says_all(error@, prompt, output@);
}

/// The obligations of a chapter are counted one by one.
pub proof fn law_obligation_counts_for_its_chapter(
    obligations: Seq<RewriteObligationView>,
    o: RewriteObligationView,
    index: i64,
)
    ensures
        obligation_count(Seq::empty(), index) == 0,
        o.chapter_index == index ==> obligation_count(obligations.push(o), index)
            == obligation_count(obligations, index) + 1,
        o.chapter_index != index ==> obligation_count(obligations.push(o), index)
            == obligation_count(obligations, index),
{
    assert(obligations.push(o).drop_last() =~= obligations);
}

/// The text that a fingerprint is taken of holds all that a contract rests on: each chapter's
/// number, title, text and draft, the graph, the continuity, each setting, the style, the version
/// of the rules and the model.
#[verifier::rlimit(40)]
pub proof fn law_fingerprint_rests_on_everything(
    chapters: Seq<ChapterView>,
    graph_json: Seq<char>,
    continuity_json: Seq<char>,
    settings: NovelSettingsView,
    style_prompt: Seq<char>,
    profile: ModelProfileView,
    rule_pack_version: Seq<char>,
    c: int,
)
    ensures
        ({
            let text = join(
                fingerprint_parts(
                    chapters,
                    graph_json,
                    continuity_json,
                    settings,
                    style_prompt,
                    profile,
                    rule_pack_version,
                ),
                "\n"@,
            );
            &&& 0 <= c < chapters.len() ==> holds(text, decimal(chapters[c].index as int))
            &&& 0 <= c < chapters.len() ==> holds(text, chapters[c].title)
            &&& 0 <= c < chapters.len() ==> holds(text, chapters[c].original_text)
            &&& 0 <= c < chapters.len() ==> (chapters[c].rewrite_text matches Some(t) ==> holds(
                text,
                t,
            ))
            &&& holds(text, graph_json)
            &&& holds(text, continuity_json)
            &&& holds(text, settings.protagonist_name)
            &&& holds(text, settings.protagonist_aliases)
            &&& holds(text, settings.rewritten_protagonist_name)
            &&& holds(text, settings.additional_feminize_names)
            &&& holds(text, settings.bust)
            &&& holds(text, settings.body_type)
            &&& holds(text, settings.rewrite_mode)
            &&& holds(text, settings.advanced_settings)
            &&& holds(text, settings.relationship_targets)
            &&& holds(text, style_prompt)
            &&& holds(text, rule_pack_version)
            &&& holds(text, profile.id)
            &&& holds(text, profile.model)
        }),
{
    let parts = fingerprint_parts(
        chapters,
        graph_json,
        continuity_json,
        settings,
        style_prompt,
        profile,
        rule_pack_version,
    );
    let text = join(parts, "\n"@);
    law_joined_text_holds_its_parts(parts, "\n"@, 0);
    law_joined_text_holds_its_parts(parts, "\n"@, 1);
    law_joined_text_holds_its_parts(parts, "\n"@, 2);
    law_joined_text_holds_its_parts(parts, "\n"@, 3);
    law_joined_text_holds_its_parts(parts, "\n"@, 4);
    law_joined_text_holds_its_parts(parts, "\n"@, 5);
    law_joined_text_holds_its_parts(parts, "\n"@, 6);
    law_joined_text_holds_its_parts(parts, "\n"@, 7);
    lemma_fields_are_held(settings, text);
    if 0 <= c < chapters.len() {
        lemma_chapter_is_held(chapters, c, text);
    }
}

proof fn lemma_fields_are_held(settings: NovelSettingsView, text: Seq<char>)
    requires
        holds(text, join(settings_fields(settings), "|"@)),
    ensures
        holds(text, settings.protagonist_name),
        holds(text, settings.protagonist_aliases),
        holds(text, settings.rewritten_protagonist_name),
        holds(text, settings.additional_feminize_names),
        holds(text, settings.bust),
        holds(text, settings.body_type),
        holds(text, settings.rewrite_mode),
        holds(text, settings.advanced_settings),
        holds(text, settings.relationship_targets),
{
    let fields = settings_fields(settings);
    let part = join(fields, "|"@);
    assert forall|i: int| 0 <= i < fields.len() implies holds(text, #[trigger] fields[i]) by {
        law_joined_text_holds_its_parts(fields, "|"@, i);
        law_holding_is_transitive(text, part, fields[i]);
    }
    assert(fields[0] == settings.protagonist_name);
    assert(fields[1] == settings.protagonist_aliases);
    assert(fields[2] == settings.rewritten_protagonist_name);
    assert(fields[3] == settings.additional_feminize_names);
    assert(fields[4] == settings.bust);
    assert(fields[5] == settings.body_type);
    assert(fields[6] == settings.rewrite_mode);
    assert(fields[7] == settings.advanced_settings);
    assert(fields[8] == settings.relationship_targets);
}

proof fn lemma_chapter_is_held(chapters: Seq<ChapterView>, c: int, text: Seq<char>)
    requires
        0 <= c < chapters.len(),
        holds(text, join(chapter_sources(chapters), "\n---\n"@)),
    ensures
        holds(text, decimal(chapters[c].index as int)),
        holds(text, chapters[c].title),
        holds(text, chapters[c].original_text),
        chapters[c].rewrite_text matches Some(t) ==> holds(text, t),
{
    let sources = chapter_sources(chapters);
    let chapter = chapters[c];
    let source = chapter_source(chapter);
    law_joined_text_holds_its_parts(sources, "\n---\n"@, c);
    law_holding_is_transitive(text, join(sources, "\n---\n"@), source);
    let number = decimal(chapter.index as int);
    let draft = match chapter.rewrite_text {
        Some(t) => t,
        None => Seq::empty(),
    };
    let mark = "\nCURRENT_DRAFT:"@;
    let none = Seq::<char>::empty();
    lemma_holds_inside(
        none,
        number,
        "\n"@ + chapter.title + "\n"@ + chapter.original_text + mark + draft,
    );
    assert(none + number + ("\n"@ + chapter.title + "\n"@ + chapter.original_text + mark + draft)
        =~= source);
    lemma_holds_inside(
        number + "\n"@,
        chapter.title,
        "\n"@ + chapter.original_text + mark + draft,
    );
    assert(number + "\n"@ + chapter.title + ("\n"@ + chapter.original_text + mark + draft)
        =~= source);
    lemma_holds_inside(
        number + "\n"@ + chapter.title + "\n"@,
        chapter.original_text,
        mark + draft,
    );
    assert(number + "\n"@ + chapter.title + "\n"@ + chapter.original_text + (mark + draft)
        =~= source);
    lemma_holds_inside(
        number + "\n"@ + chapter.title + "\n"@ + chapter.original_text + mark,
        draft,
        none,
    );
    assert(number + "\n"@ + chapter.title + "\n"@ + chapter.original_text + mark + draft + none
        =~= source);
    law_holding_is_transitive(text, source, number);
    law_holding_is_transitive(text, source, chapter.title);
    law_holding_is_transitive(text, source, chapter.original_text);
    law_holding_is_transitive(text, source, draft);
}

// ---- contracts ------------------------------------------------------------------------------
/// A kept contract is no longer used where anything differs: the inputs, the rules, the batch, the
/// run, or what became of it.
pub proof fn law_changed_contract_is_not_used(
    records: Seq<Option<ContractRecord>>,
    wish: ContractWish,
    i: int,
)
    requires
        0 <= i < records.len(),
        records[i] is Some ==> {
            let record = records[i]->0;
            ||| record.fingerprint@ != wish.fingerprint@
            ||| record.rule_pack_version@ != wish.rule_pack_version@
            ||| record.batch_index != Some(wish.batch_index)
            ||| record.run_id@ != wish.run_id@
            ||| record.status@ != "planned"@ && record.status@ != "failed"@
            ||| (records[0] matches Some(first) && first.contract_json@ != record.contract_json@)
        },
    ensures
        common_contract(records, wish) is None,
{
    assert(!fits_at(records, wish, i));
}

/// A contract that all chapters have, planned or failed, from the same run and batch and under the
/// same rules and inputs, is used again.
pub proof fn law_unchanged_contract_is_used(
    records: Seq<Option<ContractRecord>>,
    wish: ContractWish,
    contract: Seq<char>,
)
    requires
        records.len() > 0,
        forall|i: int|
            0 <= i < records.len() ==> {
                &&& #[trigger] records[i] is Some
                &&& records[i]->0.contract_json@ == contract
                &&& records[i]->0.fingerprint@ == wish.fingerprint@
                &&& records[i]->0.rule_pack_version@ == wish.rule_pack_version@
                &&& records[i]->0.batch_index == Some(wish.batch_index)
                &&& records[i]->0.run_id@ == wish.run_id@
                &&& records[i]->0.status@ == "planned"@ || records[i]->0.status@ == "failed"@
            },
    ensures
        common_contract(records, wish) == Some(contract),
{
    assert(records[0] is Some);
    assert forall|i: int| 0 <= i < records.len() implies fits_at(records, wish, i) by {
        assert(records[i] is Some);
    }
}

// ---- wishes for relationships ---------------------------------------------------------------
/// Every row with a name is kept, without the space around its texts, and no row is made up.
pub proof fn law_named_rows_are_kept(
    rows: Seq<RelationshipTargetEntryView>,
    x: RelationshipTargetEntryView,
)
    ensures
        tidy_entries(rows).contains(x) <==> exists|i: int|
            0 <= i < rows.len() && !blank((#[trigger] rows[i]).name) && x.name == trim(rows[i].name)
                && x.relationship == trim(rows[i].relationship) && x.notes == trim(rows[i].notes),
    decreases rows.len(),
{
    if rows.len() > 0 {
        let rest = rows.drop_last();
        let last = rows.last();
        law_named_rows_are_kept(rest, x);
        lemma_push_contains(tidy_entries(rest), tidy_entry(last), x);
        if tidy_entries(rest).contains(x) {
            let i = choose|i: int|
                0 <= i < rest.len() && !blank((#[trigger] rest[i]).name) && x.name == trim(
                    rest[i].name,
                ) && x.relationship == trim(rest[i].relationship) && x.notes == trim(rest[i].notes);
            assert(!blank(rows[i].name));
        }
        if !blank(last.name) && x == tidy_entry(last) {
            assert(!blank(rows[rows.len() - 1].name));
        }
        if exists|i: int|
            0 <= i < rows.len() && !blank((#[trigger] rows[i]).name) && x.name == trim(rows[i].name)
                && x.relationship == trim(rows[i].relationship) && x.notes == trim(rows[i].notes) {
            let i = choose|i: int|
                0 <= i < rows.len() && !blank((#[trigger] rows[i]).name) && x.name == trim(
                    rows[i].name,
                ) && x.relationship == trim(rows[i].relationship) && x.notes == trim(rows[i].notes);
            if i < rest.len() {
                assert(!blank(rest[i].name));
            } else {
                assert(x == tidy_entry(last));
            }
        }
    } else {
        assert(!tidy_entries(rows).contains(x));
    }
}

/// The rows in words show the name, the relationship and the notes of each.
pub proof fn law_words_show_every_row(rows: Seq<RelationshipTargetEntryView>, i: int)
    requires
        0 <= i < rows.len(),
    ensures
        holds(entries_words(rows), rows[i].name),
        holds(entries_words(rows), rows[i].relationship),
        holds(entries_words(rows), rows[i].notes),
{
    let parts = Seq::new(rows.len(), |i: int| entry_words(rows[i]));
    law_joined_text_holds_its_parts(parts, "\n"@, i);
    let whole = entries_words(rows);
    let row = rows[i];
    let words = parts[i];
    let none = Seq::<char>::empty();
    let bond = if row.relationship.len() == 0 {
        "关系未指定"@
    } else {
        row.relationship
    };
    let end = if row.notes.len() == 0 {
        "）"@
    } else {
        "）："@ + row.notes
    };
    assert(row.name + "（"@ + bond + end =~= words);
    lemma_holds_inside(none, row.name, "（"@ + bond + end);
    assert(none + row.name + ("（"@ + bond + end) =~= words);
    law_holding_is_transitive(whole, words, row.name);
    if row.relationship.len() > 0 {
        lemma_holds_inside(row.name + "（"@, bond, end);
        law_holding_is_transitive(whole, words, row.relationship);
    } else {
        lemma_nothing_is_held(whole, row.relationship);
    }
    if row.notes.len() > 0 {
        lemma_holds_inside(row.name + "（"@ + bond + "）："@, row.notes, none);
        assert(row.name + "（"@ + bond + "）："@ + row.notes + none =~= words);
        law_holding_is_transitive(whole, words, row.notes);
    } else {
        lemma_nothing_is_held(whole, row.notes);
    }
}

proof fn lemma_nothing_is_held(t: Seq<char>, p: Seq<char>)
    requires
        p.len() == 0,
    ensures
        holds(t, p),
{
    lemma_holds_inside(Seq::empty(), p, t);
    assert(Seq::empty() + p + t =~= t);
}

/// The rows as they are kept hold each text of each row under its own key.
pub proof fn law_kept_rows_hold_every_text(rows: Seq<RelationshipTargetEntryView>, i: int)
    requires
        0 <= i < rows.len(),
    ensures
        holds(entries_json(rows), "\"name\":"@ + json_quoted(rows[i].name)),
        holds(entries_json(rows), "\"relationship\":"@ + json_quoted(rows[i].relationship)),
        holds(entries_json(rows), "\"notes\":"@ + json_quoted(rows[i].notes)),
{
    let parts = Seq::new(rows.len(), |i: int| entry_json(rows[i]));
    let inner = join(parts, ","@);
    let whole = entries_json(rows);
    law_joined_text_holds_its_parts(parts, ","@, i);
    lemma_holds_inside("["@, inner, "]"@);
    let row = rows[i];
    let words = parts[i];
    let a = "\"name\":"@ + json_quoted(row.name);
    let b = "\"relationship\":"@ + json_quoted(row.relationship);
    let c = "\"notes\":"@ + json_quoted(row.notes);
    reveal_strlit("{\"name\":");
    reveal_strlit("\"name\":");
    reveal_strlit(",\"relationship\":");
    reveal_strlit("\"relationship\":");
    reveal_strlit(",\"notes\":");
    reveal_strlit("\"notes\":");
    let open = seq!['{'];
    let comma = seq![','];
    assert("{\"name\":"@ =~= open + "\"name\":"@);
    assert(",\"relationship\":"@ =~= comma + "\"relationship\":"@);
    assert(",\"notes\":"@ =~= comma + "\"notes\":"@);
    assert(open + a + comma + b + comma + c + "}"@ =~= words);
    lemma_holds_inside(open, a, comma + b + comma + c + "}"@);
    assert(open + a + (comma + b + comma + c + "}"@) =~= words);
    lemma_holds_inside(open + a + comma, b, comma + c + "}"@);
    assert(open + a + comma + b + (comma + c + "}"@) =~= words);
    lemma_holds_inside(open + a + comma + b + comma, c, "}"@);
    law_holding_is_transitive(inner, words, a);
    law_holding_is_transitive(inner, words, b);
    law_holding_is_transitive(inner, words, c);
    law_holding_is_transitive(whole, inner, a);
    law_holding_is_transitive(whole, inner, b);
    law_holding_is_transitive(whole, inner, c);
}

// ---- figures --------------------------------------------------------------------------------
/// Each chapter adds its title and its text to the size.
pub proof fn law_size_of_chapters(chapters: Seq<ChapterView>, c: ChapterView)
    ensures
        total_size(Seq::empty()) == 0,
        total_size(chapters.push(c)) == total_size(chapters) + c.title.len() + c.original_text.len(),
{
    assert(chapters.push(c).drop_last() =~= chapters);
}

proof fn lemma_leading_figure(figure: Seq<char>, rest: Seq<char>)
    requires
        forall|i: int| 0 <= i < figure.len() ==> ascii_digit(#[trigger] figure[i]) || figure[i] == '.',
        rest.len() > 0 ==> !ascii_digit(rest[0]) && rest[0] != '.',
    ensures
        leading_figure(figure + rest) == figure,
    decreases figure.len(),
{
    let s = figure + rest;
    if figure.len() == 0 {
        assert(s =~= rest);
        assert(leading_figure(s) =~= figure);
    } else {
        let less = figure.skip(1);
        assert(s.skip(1) =~= less + rest);
        assert forall|i: int| 0 <= i < less.len() implies ascii_digit(#[trigger] less[i]) || less[i]
            == '.' by {
            assert(less[i] == figure[i + 1]);
        }
        lemma_leading_figure(less, rest);
        assert(in_figure(figure[0]));
        assert(seq![s[0]] + less =~= figure);
    }
}

/// The figure behind a label is read whole, up to the first character that belongs to no figure.
pub proof fn law_figure_behind_a_label(
    before: Seq<char>,
    label: Seq<char>,
    figure: Seq<char>,
    rest: Seq<char>,
)
    requires
        forall|j: int|
            0 <= j < before.len() ==> !#[trigger] matches_at(
                before + label + figure + rest,
                label,
                j,
            ),
        figure.len() > 0,
        !white(figure[0]),
        forall|i: int| 0 <= i < figure.len() ==> ascii_digit(#[trigger] figure[i]) || figure[i] == '.',
        rest.len() > 0 ==> !ascii_digit(rest[0]) && rest[0] != '.',
    ensures
        labelled_figure(before + label + figure + rest, label) == Some(figure),
{
    let text = before + label + figure + rest;
    let at = before.len() as int;
    assert(text.subrange(at, at + label.len()) =~= label);
    assert(matches_at(text, label, at));
    lemma_find_from(text, label, 0);
    let tail = text.skip(at + label.len());
    assert(tail =~= figure + rest);
    assert(trim_start(tail) == tail);
    lemma_leading_figure(figure, rest);
}

} // verus!
