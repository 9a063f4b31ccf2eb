//! The contract of a shard: the names in its planned states, its fingerprint, and the prompts
//! that repair it.
use vstd::prelude::*;
use crate::domain::{
    Chapter, ChapterView, Duplicate, ModelProfile, ModelProfileView, NovelSettings,
    NovelSettingsView, RewriteObligation, RewriteObligationView, RewritePlan, RewritePlanView,
    RewriteStateUpdate, RewriteStateUpdateView,
};
use crate::order::{insert_by, lemma_insert_by_at, sort_by};
use crate::text::{
    chars_of, copy_chars, decimal, i64_text, join, join_texts, lemma_views_push, replace_all,
    replace_chars, same_chars, split_chars, split_on, string_of, trim, trim_chars, trimmed, views,
};

verus! {

// ---- the protagonist's name in the planned states -------------------------------------------
/// What stands between two aliases.
pub open spec fn alias_separators() -> Seq<char> {
    seq!['\n', '\r', ',', '，', '、', ';', '；']
}

/// The texts, trimmed, without the empty ones and those that equal `target`.
pub open spec fn old_names(parts: Seq<Seq<char>>, target: Seq<char>) -> Seq<Seq<char>>
    decreases parts.len(),
{
    if parts.len() == 0 {
        Seq::empty()
    } else {
        let before = old_names(parts.drop_last(), target);
        let name = trim(parts.last());
        if name.len() == 0 || name == target {
            before
        } else {
            before.push(name)
        }
    }
}

/// Longer texts have smaller keys.
pub open spec fn length_key() -> spec_fn(Seq<char>) -> int {
    |x: Seq<char>| -(x.len() as int)
}

/// The texts with the longest first; those of one length stay in their order.
pub open spec fn longest_first(s: Seq<Seq<char>>) -> Seq<Seq<char>> {
    sort_by(s, length_key())
}

/// The texts without those that equal the one before.
pub open spec fn without_repeats(s: Seq<Seq<char>>) -> Seq<Seq<char>>
    decreases s.len(),
{
    if s.len() <= 1 {
        s
    } else {
        let before = without_repeats(s.drop_last());
        if before.last() == s.last() {
            before
        } else {
            before.push(s.last())
        }
    }
}

/// The names that give way to the new name of the protagonist, in the order in which they do.
pub open spec fn names_to_replace(settings: NovelSettingsView) -> Seq<Seq<char>> {
    without_repeats(
        longest_first(
            old_names(
                seq![settings.protagonist_name] + split_on(
                    settings.protagonist_aliases,
                    alias_separators(),
                ),
                trim(settings.rewritten_protagonist_name),
            ),
        ),
    )
}

/// A text with each of the names replaced, one name after the other.
pub open spec fn renamed(text: Seq<char>, names: Seq<Seq<char>>, target: Seq<char>) -> Seq<char>
    decreases names.len(),
{
    if names.len() == 0 {
        text
    } else {
        replace_all(renamed(text, names.drop_last(), target), names.last(), target)
    }
}

/// States with the names replaced in their values.
pub open spec fn renamed_states(
    states: Seq<RewriteStateUpdateView>,
    names: Seq<Seq<char>>,
    target: Seq<char>,
) -> Seq<RewriteStateUpdateView> {
    Seq::new(
        states.len(),
        |i: int|
            RewriteStateUpdateView { value: renamed(states[i].value, names, target), ..states[i] },
    )
}

/// Obligations with the names replaced in the values of their states.
pub open spec fn renamed_obligations(
    obligations: Seq<RewriteObligationView>,
    names: Seq<Seq<char>>,
    target: Seq<char>,
) -> Seq<RewriteObligationView> {
    Seq::new(
        obligations.len(),
        |i: int|
            RewriteObligationView {
                planned_state_updates: renamed_states(
                    obligations[i].planned_state_updates,
                    names,
                    target,
                ),
                ..obligations[i]
            },
    )
}

/// A contract whose planned states speak of the protagonist by the new name.
pub open spec fn renamed_plan(plan: RewritePlanView, settings: NovelSettingsView) -> RewritePlanView {
    let target = trim(settings.rewritten_protagonist_name);
    let names = names_to_replace(settings);
    if target.len() == 0 {
        plan
    } else {
        RewritePlanView {
            planned_state_updates: renamed_states(plan.planned_state_updates, names, target),
            obligations: renamed_obligations(plan.obligations, names, target),
            ..plan
        }
    }
}

proof fn lemma_views_insert(s: Seq<Vec<char>>, at: int, x: Vec<char>)
    requires
        0 <= at <= s.len(),
    ensures
        views(s.insert(at, x)) == views(s).insert(at, x@),
{
    assert(views(s.insert(at, x)) =~= views(s).insert(at, x@));
}

proof fn lemma_without_repeats_nonempty(s: Seq<Seq<char>>)
    requires
        s.len() > 0,
    ensures
        without_repeats(s).len() > 0,
    decreases s.len(),
{
    if s.len() > 1 {
        lemma_without_repeats_nonempty(s.drop_last());
    }
}

fn insert_name(list: &mut Vec<Vec<char>>, x: Vec<char>)
    ensures
        views(final(list)@) == insert_by(views(old(list)@), x@, length_key()),
{
    let ghost all = views(list@);
    let mut at: usize = list.len();
    while at > 0 && list[at - 1].len() < x.len()
        invariant
            at <= list@.len(),
            all == views(list@),
            list@ == old(list)@,
            forall|k: int| at <= k < all.len() ==> (#[trigger] all[k]).len() < x@.len(),
        decreases at,
    {
        proof {
            assert(all[at - 1] == list@[at - 1]@);
        }
        at -= 1;
    }
    proof {
        if at > 0 {
            assert(all[at - 1] == list@[at - 1]@);
        }
        lemma_insert_by_at(all, x@, length_key(), at as int);
        lemma_views_insert(list@, at as int, x);
    }
    list.insert(at, x);
}

fn sort_longest_first(s: Vec<Vec<char>>) -> (r: Vec<Vec<char>>)
    ensures
        views(r@) == longest_first(views(s@)),
{
    let ghost all = views(s@);
    let mut out: Vec<Vec<char>> = Vec::new();
    let mut i: usize = 0;
    proof {
        assert(views(out@) =~= longest_first(all.take(0)));
    }
    while i < s.len()
        invariant
            i <= s@.len(),
            all == views(s@),
            views(out@) == longest_first(all.take(i as int)),
        decreases s@.len() - i,
    {
        proof {
            assert(all.take(i + 1).drop_last() =~= all.take(i as int));
            assert(all.take(i + 1).last() == s@[i as int]@);
        }
        insert_name(&mut out, copy_chars(s[i].as_slice()));
        i += 1;
    }
    proof {
        assert(all.take(i as int) =~= all);
    }
    out
}

fn drop_repeats(s: Vec<Vec<char>>) -> (r: Vec<Vec<char>>)
    ensures
        views(r@) == without_repeats(views(s@)),
{
    let ghost all = views(s@);
    let mut out: Vec<Vec<char>> = Vec::new();
    let mut i: usize = 0;
    proof {
        assert(views(out@) =~= without_repeats(all.take(0)));
    }
    while i < s.len()
        invariant
            i <= s@.len(),
            all == views(s@),
            views(out@) == without_repeats(all.take(i as int)),
        decreases s@.len() - i,
    {
        proof {
            assert(all.take(i + 1).drop_last() =~= all.take(i as int));
            assert(all.take(i + 1).last() == s@[i as int]@);
            if i > 0 {
                lemma_without_repeats_nonempty(all.take(i as int));
                assert(views(out@).last() == out@.last()@);
            }
        }
        let repeated = out.len() > 0 && same_chars(out[out.len() - 1].as_slice(), s[i].as_slice());
        let ghost before = out@;
        if !repeated {
            out.push(copy_chars(s[i].as_slice()));
            proof {
                lemma_views_push(before, out@.last());
            }
        }
        proof {
            if i == 0 {
                assert(views(out@) =~= all.take(1));
            }
        }
        i += 1;
    }
    proof {
        assert(all.take(i as int) =~= all);
    }
    out
}

fn names_to_replace_of(settings: &NovelSettings, target: &[char]) -> (r: Vec<Vec<char>>)
    requires
        target@ == trim(settings@.rewritten_protagonist_name),
    ensures
        views(r@) == names_to_replace(settings@),
{
    let separators: [char; 7] = ['\n', '\r', ',', '，', '、', ';', '；'];
    proof {
        assert(separators@ =~= alias_separators());
    }
    let aliases = chars_of(settings.protagonist_aliases.as_str());
    let mut more = split_chars(aliases.as_slice(), &separators);
    let mut parts: Vec<Vec<char>> = Vec::new();
    parts.push(chars_of(settings.protagonist_name.as_str()));
    let ghost rest = more@;
    parts.append(&mut more);
    let ghost all = seq![settings@.protagonist_name] + split_on(
        settings@.protagonist_aliases,
        alias_separators(),
    );
    proof {
        assert(views(parts@) =~= all);
    }
    let mut names: Vec<Vec<char>> = Vec::new();
    let mut i: usize = 0;
    proof {
        assert(views(names@) =~= old_names(all.take(0), target@));
    }
    while i < parts.len()
        invariant
            i <= parts@.len(),
            all == views(parts@),
            views(names@) == old_names(all.take(i as int), target@),
        decreases parts@.len() - i,
    {
        proof {
            assert(all.take(i + 1).drop_last() =~= all.take(i as int));
            assert(all.take(i + 1).last() == parts@[i as int]@);
        }
        let name = trim_chars(parts[i].as_slice());
        if name.len() > 0 && !same_chars(name, target) {
            let ghost before = names@;
            names.push(copy_chars(name));
            proof {
                lemma_views_push(before, names@.last());
            }
        }
        i += 1;
    }
    proof {
        assert(all.take(i as int) =~= all);
    }
    drop_repeats(sort_longest_first(names))
}

fn rename(text: &str, names: &[Vec<char>], target: &[char]) -> (r: String)
    ensures
        r@ == renamed(text@, views(names@), target@),
{
    let ghost all = views(names@);
    let mut out = chars_of(text);
    let mut i: usize = 0;
    while i < names.len()
        invariant
            i <= names@.len(),
            all == views(names@),
            out@ == renamed(text@, all.take(i as int), target@),
        decreases names@.len() - i,
    {
        proof {
            assert(all.take(i + 1).drop_last() =~= all.take(i as int));
            assert(all.take(i + 1).last() == names@[i as int]@);
        }
        out = replace_chars(out.as_slice(), names[i].as_slice(), target);
        i += 1;
    }
    proof {
        assert(all.take(i as int) =~= all);
    }
    string_of(out.as_slice())
}

fn rename_states(states: &[RewriteStateUpdate], names: &[Vec<char>], target: &[char]) -> (r: Vec<
    RewriteStateUpdate,
>)
    ensures
        views(r@) == renamed_states(views(states@), views(names@), target@),
{
    let ghost goal = renamed_states(views(states@), views(names@), target@);
    let mut out: Vec<RewriteStateUpdate> = Vec::new();
    let mut i: usize = 0;
    while i < states.len()
        invariant
            i <= states@.len(),
            goal == renamed_states(views(states@), views(names@), target@),
            views(out@) == goal.take(i as int),
        decreases states@.len() - i,
    {
        let mut state = states[i].duplicate();
        state.value = rename(states[i].value.as_str(), names, target);
        let ghost before = out@;
        out.push(state);
        proof {
            lemma_views_push(before, out@.last());
            assert(views(states@)[i as int] == states@[i as int]@);
            assert(out@.last()@ =~= goal[i as int]);
            assert(views(out@) =~= goal.take(i + 1));
        }
        i += 1;
    }
    proof {
        assert(goal.take(i as int) =~= goal);
    }
    out
}

fn rename_obligations(
    obligations: &[RewriteObligation],
    names: &[Vec<char>],
    target: &[char],
) -> (r: Vec<RewriteObligation>)
    ensures
        views(r@) == renamed_obligations(views(obligations@), views(names@), target@),
{
    let ghost goal = renamed_obligations(views(obligations@), views(names@), target@);
    let mut out: Vec<RewriteObligation> = Vec::new();
    let mut i: usize = 0;
    while i < obligations.len()
        invariant
            i <= obligations@.len(),
            goal == renamed_obligations(views(obligations@), views(names@), target@),
            views(out@) == goal.take(i as int),
        decreases obligations@.len() - i,
    {
        let mut obligation = obligations[i].duplicate();
        obligation.planned_state_updates = rename_states(
            obligations[i].planned_state_updates.as_slice(),
            names,
            target,
        );
        let ghost before = out@;
        out.push(obligation);
        proof {
            lemma_views_push(before, out@.last());
            assert(views(obligations@)[i as int] == obligations@[i as int]@);
            assert(out@.last()@ =~= goal[i as int]);
            assert(views(out@) =~= goal.take(i + 1));
        }
        i += 1;
    }
    proof {
        assert(goal.take(i as int) =~= goal);
    }
    out
}

/// Lets the planned states of a contract speak of the protagonist by the new name, where there is
/// one.
pub fn normalize_planned_state_identity(plan: &mut RewritePlan, settings: &NovelSettings)
    ensures
        final(plan)@ == renamed_plan(old(plan)@, settings@),
{
    let name = chars_of(settings.rewritten_protagonist_name.as_str());
    let target = trim_chars(name.as_slice());
    if target.len() == 0 {
        return;
    }
    let names = names_to_replace_of(settings, target);
    let states = rename_states(plan.planned_state_updates.as_slice(), names.as_slice(), target);
    let obligations = rename_obligations(plan.obligations.as_slice(), names.as_slice(), target);
    plan.planned_state_updates = states;
    plan.obligations = obligations;
    proof {
        assert(plan@ =~= renamed_plan(old(plan)@, settings@));
    }
}

/// The profile with which the form of an answer is repaired: without thinking, and else the same.
pub fn structured_repair_profile(profile: &ModelProfile) -> (r: ModelProfile)
    ensures
        r@ == (ModelProfileView { thinking_mode: "off"@, ..profile@ }),
{
    let mut out = profile.duplicate();
    out.thinking_mode = "off".to_string();
    proof {
        assert(out@ =~= ModelProfileView { thinking_mode: "off"@, ..profile@ });
    }
    out
}

// ---- prompts that repair a plan -------------------------------------------------------------
/// Asks for a plan again, with the fault that was found in it.
pub fn plan_repair_prompt(error: &str, prompt: &str, output: &str) -> (r: String)
    ensures
        r@ == first_repair(error@, prompt@, output@),
{
    let mut out = "规划输出校验失败：".to_string();
    out.append(error);
    out.append("\n\n请依据原始规划要求修复下列输出。不得删除节点义务，不得伪造原文证据。\n\n原始规划要求：\n");
    out.append(prompt);
    out.append("\n\n待修复输出：\n");
    out.append(output);
    out
}

/// What a second repair of a plan has to keep to.
pub const SECOND_REPAIR_RULES: &'static str = "\n\n请只修复这个错误并返回完整 JSON。保留全部节点和义务；R3_PRESERVE 若只是保留中性原文，则 required_changes 为空；若当前稿已有过度新增，使用 R3_PRESERVE + R3_RESTORE_SOURCE，并仅写删除新增或恢复原文的 required_changes。用于删除的指令可以引用待删除坏词，但不得把坏词作为新增要求。\n\n原始规划要求：\n";

/// Asks for a plan once more after a repair that left a fault.
pub fn second_plan_repair_prompt(error: &str, prompt: &str, output: &str) -> (r: String)
    ensures
        r@ == second_repair(error@, prompt@, output@),
{
    let mut out = "上一次修复仍未通过确定性校验：".to_string();
    out.append(error);
    out.append(SECOND_REPAIR_RULES);
    out.append(prompt);
    out.append("\n\n上一次修复输出：\n");
    out.append(output);
    out
}

// ---- asking for a plan ----------------------------------------------------------------------
/// Which call is made for a plan.
#[derive(Debug, Clone, Copy, PartialEq, Eq)]
pub enum PlanStage {
    First,
    Repair,
    SecondRepair,
}

/// What came of a call: no answer, an answer that is no valid plan, or a plan.
pub enum PlanReply {
    Failed(String),
    Invalid { error: String, output: String },
    Planned(RewritePlan),
}

/// What follows: the planning has ended, or a repair is asked for.
pub enum PlanNext {
    Finished(Result<RewritePlan, String>),
    Ask { prompt: String, stage: PlanStage },
}

pub enum PlanNextView {
    Planned(RewritePlanView),
    Failed(Seq<char>),
    Ask { prompt: Seq<char>, stage: PlanStage },
}

impl View for PlanNext {
    type V = PlanNextView;

    open spec fn view(&self) -> PlanNextView {
        match self {
            PlanNext::Finished(Ok(p)) => PlanNextView::Planned(p@),
            PlanNext::Finished(Err(m)) => PlanNextView::Failed(m@),
            PlanNext::Ask { prompt, stage } => PlanNextView::Ask { prompt: prompt@, stage: *stage },
        }
    }
}

pub open spec fn first_repair(error: Seq<char>, prompt: Seq<char>, output: Seq<char>) -> Seq<char> {
    "规划输出校验失败："@ + error + "\n\n请依据原始规划要求修复下列输出。不得删除节点义务，不得伪造原文证据。\n\n原始规划要求：\n"@ + prompt
        + "\n\n待修复输出：\n"@ + output
}

pub open spec fn second_repair(error: Seq<char>, prompt: Seq<char>, output: Seq<char>) -> Seq<char> {
    "上一次修复仍未通过确定性校验："@ + error + SECOND_REPAIR_RULES@ + prompt + "\n\n上一次修复输出：\n"@ + output
}

/// What follows from the outcome of a call. A plan that is not valid is repaired twice at the most;
/// one that is speaks of the protagonist by the new name.
pub open spec fn plan_next(
    stage: PlanStage,
    reply: PlanReply,
    prompt: Seq<char>,
    settings: NovelSettingsView,
) -> PlanNextView {
    match reply {
        PlanReply::Planned(plan) => PlanNextView::Planned(renamed_plan(plan@, settings)),
        PlanReply::Failed(e) => PlanNextView::Failed(e@),
        PlanReply::Invalid { error, output } => match stage {
            PlanStage::First => PlanNextView::Ask {
                prompt: first_repair(error@, prompt, output@),
                stage: PlanStage::Repair,
            },
            PlanStage::Repair => PlanNextView::Ask {
                prompt: second_repair(error@, prompt, output@),
                stage: PlanStage::SecondRepair,
            },
            PlanStage::SecondRepair => PlanNextView::Failed(error@),
        },
    }
}

pub fn plan_step(stage: PlanStage, reply: PlanReply, prompt: &str, settings: &NovelSettings) -> (r:
    PlanNext)
    ensures
        r@ == plan_next(stage, reply, prompt@, settings@),
{
    match reply {
        PlanReply::Planned(plan) => {
            let mut plan = plan;
            normalize_planned_state_identity(&mut plan, settings);
            PlanNext::Finished(Ok(plan))
        },
        PlanReply::Failed(e) => PlanNext::Finished(Err(e)),
        PlanReply::Invalid { error, output } => match stage {
            PlanStage::First => PlanNext::Ask {
                prompt: plan_repair_prompt(error.as_str(), prompt, output.as_str()),
                stage: PlanStage::Repair,
            },
            PlanStage::Repair => PlanNext::Ask {
                prompt: second_plan_repair_prompt(error.as_str(), prompt, output.as_str()),
                stage: PlanStage::SecondRepair,
            },
            PlanStage::SecondRepair => PlanNext::Finished(Err(error)),
        },
    }
}

// ---- the obligations of a chapter -----------------------------------------------------------
/// How many obligations a chapter has.
pub open spec fn obligation_count(obligations: Seq<RewriteObligationView>, index: i64) -> nat
    decreases obligations.len(),
{
    if obligations.len() == 0 {
        0
    } else {
        obligation_count(obligations.drop_last(), index) + (if obligations.last().chapter_index
            == index {
            1nat
        } else {
            0
        })
    }
}

pub fn count_obligations_for_chapter(plan: &RewritePlan, chapter_index: i64) -> (r: usize)
    ensures
        r == obligation_count(plan@.obligations, chapter_index),
{
    let ghost all = plan@.obligations;
    let mut count: usize = 0;
    let mut i: usize = 0;
    while i < plan.obligations.len()
        invariant
            i <= plan.obligations@.len(),
            all == views(plan.obligations@),
            count <= i,
            count == obligation_count(all.take(i as int), chapter_index),
        decreases plan.obligations@.len() - i,
    {
        proof {
            assert(all.take(i + 1).drop_last() =~= all.take(i as int));
            assert(all.take(i + 1).last() == plan.obligations@[i as int]@);
        }
        if plan.obligations[i].chapter_index == chapter_index {
            count += 1;
        }
        i += 1;
    }
    proof {
        assert(all.take(i as int) =~= all);
    }
    count
}

// ---- the fingerprint ------------------------------------------------------------------------
/// What the fingerprint takes of a chapter.
pub open spec fn chapter_source(chapter: ChapterView) -> Seq<char> {
    decimal(chapter.index as int) + "\n"@ + chapter.title + "\n"@ + chapter.original_text
        + "\nCURRENT_DRAFT:"@ + (match chapter.rewrite_text {
        Some(t) => t,
        None => Seq::empty(),
    })
}

pub open spec fn chapter_sources(chapters: Seq<ChapterView>) -> Seq<Seq<char>> {
    Seq::new(chapters.len(), |i: int| chapter_source(chapters[i]))
}

/// What the fingerprint takes of the settings.
pub open spec fn settings_fields(settings: NovelSettingsView) -> Seq<Seq<char>> {
    seq![
        settings.protagonist_name,
        settings.protagonist_aliases,
        settings.rewritten_protagonist_name,
        settings.additional_feminize_names,
        settings.bust,
        settings.body_type,
        settings.rewrite_mode,
        settings.advanced_settings,
        settings.relationship_targets,
    ]
}

/// All that a contract depends on, line by line.
pub open spec fn fingerprint_parts(
    chapters: Seq<ChapterView>,
    graph_json: Seq<char>,
    continuity_json: Seq<char>,
    settings: NovelSettingsView,
    style_prompt: Seq<char>,
    profile: ModelProfileView,
    rule_pack_version: Seq<char>,
) -> Seq<Seq<char>> {
    seq![
        join(chapter_sources(chapters), "\n---\n"@),
        graph_json,
        continuity_json,
        join(settings_fields(settings), "|"@),
        style_prompt,
        rule_pack_version,
        profile.id,
        profile.model,
    ]
}

/// The SHA-256 digest of a text in hexadecimal digits.
pub uninterp spec fn sha256_hex(text: Seq<char>) -> Seq<char>;

/// `Sha256::digest` of the bytes of a text, printed with lower-case hexadecimal digits: it depends
/// on the text alone.
#[verifier::external_body]
fn digest_text(text: &str) -> (r: String)
    ensures
        r@ == sha256_hex(text@),
{
    format!("{:x}", <sha2::Sha256 as sha2::Digest>::digest(text.as_bytes()))
}

fn chapter_source_of(chapter: &Chapter) -> (r: String)
    ensures
        r@ == chapter_source(chapter@),
{
    let mut out = i64_text(chapter.index);
    out.append("\n");
    out.append(chapter.title.as_str());
    out.append("\n");
    out.append(chapter.original_text.as_str());
    out.append("\nCURRENT_DRAFT:");
    match &chapter.rewrite_text {
        Some(t) => {
            out.append(t.as_str());
        },
        None => {
            proof {
                assert(out@ + Seq::<char>::empty() =~= out@);
            }
        },
    }
    out
}

/// The text of which the fingerprint is taken.
pub fn fingerprint_payload(
    chapters: &[Chapter],
    graph_json: &str,
    continuity_json: &str,
    settings: &NovelSettings,
    style_prompt: &str,
    profile: &ModelProfile,
    rule_pack_version: &str,
) -> (r: String)
    ensures
        r@ == join(
            fingerprint_parts(
                views(chapters@),
                graph_json@,
                continuity_json@,
                settings@,
                style_prompt@,
                profile@,
                rule_pack_version@,
            ),
            "\n"@,
        ),
{
    let ghost goal = chapter_sources(views(chapters@));
    let mut sources: Vec<String> = Vec::new();
    let mut i: usize = 0;
    while i < chapters.len()
        invariant
            i <= chapters@.len(),
            goal == chapter_sources(views(chapters@)),
            views(sources@) == goal.take(i as int),
        decreases chapters@.len() - i,
    {
        let ghost before = sources@;
        sources.push(chapter_source_of(&chapters[i]));
        proof {
            lemma_views_push(before, sources@.last());
            assert(views(chapters@)[i as int] == chapters@[i as int]@);
            assert(views(sources@) =~= goal.take(i + 1));
        }
        i += 1;
    }
    proof {
        assert(goal.take(i as int) =~= goal);
    }
    let fields: Vec<String> = vec![
        settings.protagonist_name.clone(),
        settings.protagonist_aliases.clone(),
        settings.rewritten_protagonist_name.clone(),
        settings.additional_feminize_names.clone(),
        settings.bust.clone(),
        settings.body_type.clone(),
        settings.rewrite_mode.clone(),
        settings.advanced_settings.clone(),
        settings.relationship_targets.clone(),
    ];
    proof {
        assert(views(fields@) =~= settings_fields(settings@));
    }
    let parts: Vec<String> = vec![
        join_texts(sources.as_slice(), "\n---\n"),
        graph_json.to_string(),
        continuity_json.to_string(),
        join_texts(fields.as_slice(), "|"),
        style_prompt.to_string(),
        rule_pack_version.to_string(),
        profile.id.clone(),
        profile.model.clone(),
    ];
    proof {
        assert(views(parts@) =~= fingerprint_parts(
            views(chapters@),
            graph_json@,
            continuity_json@,
            settings@,
            style_prompt@,
            profile@,
            rule_pack_version@,
        ));
    }
    join_texts(parts.as_slice(), "\n")
}

/// The fingerprint of all that a contract depends on.
pub fn plan_fingerprint(
    chapters: &[Chapter],
    graph_json: &str,
    continuity_json: &str,
    settings: &NovelSettings,
    style_prompt: &str,
    profile: &ModelProfile,
    rule_pack_version: &str,
) -> (r: String)
    ensures
        r@ == sha256_hex(
            join(
                fingerprint_parts(
                    views(chapters@),
                    graph_json@,
                    continuity_json@,
                    settings@,
                    style_prompt@,
                    profile@,
                    rule_pack_version@,
                ),
                "\n"@,
            ),
        ),
{
    let payload = fingerprint_payload(
        chapters,
        graph_json,
        continuity_json,
        settings,
        style_prompt,
        profile,
        rule_pack_version,
    );
    digest_text(payload.as_str())
}

// ---- laws -----------------------------------------------------------------------------------
/// The renaming touches the values of planned states only: their threads, kinds, chapters and
/// obligations stay, and so does all else in the contract.
pub proof fn law_renaming_keeps_the_threads(
    plan: RewritePlanView,
    settings: NovelSettingsView,
    i: int,
)
    requires
        0 <= i < plan.planned_state_updates.len(),
    ensures
        ({
            let after = renamed_plan(plan, settings);
            let old_state = plan.planned_state_updates[i];
            let new_state = after.planned_state_updates[i];
            &&& after.planned_state_updates.len() == plan.planned_state_updates.len()
            &&& after.obligations.len() == plan.obligations.len()
            &&& new_state.thread_key == old_state.thread_key
            &&& new_state.state_type == old_state.state_type
            &&& new_state.chapter_index == old_state.chapter_index
            &&& new_state.source_obligation_ids == old_state.source_obligation_ids
            &&& after.plan_version == plan.plan_version
            &&& after.graph_additions == plan.graph_additions
            &&& after.cross_shard_dependencies == plan.cross_shard_dependencies
        }),
{
}

/// A change of any one of the texts changes what they give when joined.
pub proof fn law_joined_text_shows_each_part(
    parts: Seq<Seq<char>>,
    k: int,
    other: Seq<char>,
    sep: Seq<char>,
)
    requires
        0 <= k < parts.len(),
        join(parts.update(k, other), sep) == join(parts, sep),
    ensures
        other == parts[k],
    decreases parts.len(),
{
    let changed = parts.update(k, other);
    let n = parts.len() as int;
    if n > 1 {
        let a = join(parts.drop_last(), sep);
        let b = join(changed.drop_last(), sep);
        if k == n - 1 {
            assert(changed.drop_last() =~= parts.drop_last());
            let whole = a + sep + parts.last();
            let whole2 = a + sep + other;
            assert(whole == whole2);
            assert(whole.len() == whole2.len());
            let p = (a + sep).len() as int;
            assert(whole.subrange(p, whole.len() as int) =~= parts.last());
            assert(whole2.subrange(p, whole2.len() as int) =~= other);
        } else {
            assert(changed.drop_last() =~= parts.drop_last().update(k, other));
            let whole = a + sep + parts.last();
            let whole2 = b + sep + parts.last();
            assert(changed.last() == parts.last());
            assert(whole == whole2);
            assert(whole.len() == a.len() + sep.len() + parts.last().len());
            assert(whole2.len() == b.len() + sep.len() + parts.last().len());
            assert(whole.subrange(0, a.len() as int) =~= a);
            assert(whole2.subrange(0, b.len() as int) =~= b);
            law_joined_text_shows_each_part(parts.drop_last(), k, other, sep);
        }
    }
}

/// A contract keeps its fingerprint only where what the digest is taken of is the same: a change
/// of the chapters, the graph, the continuity, the settings, the style, the rules or the profile
/// alone changes that text.
pub proof fn law_fingerprint_text_shows_each_input(
    chapters: Seq<ChapterView>,
    graph_json: Seq<char>,
    continuity_json: Seq<char>,
    settings: NovelSettingsView,
    style_prompt: Seq<char>,
    profile: ModelProfileView,
    rule_pack_version: Seq<char>,
    k: int,
    other: Seq<char>,
)
    requires
        0 <= k < 8,
    ensures
        ({
            let parts = fingerprint_parts(
                chapters,
                graph_json,
                continuity_json,
                settings,
                style_prompt,
                profile,
                rule_pack_version,
            );
            other != parts[k] ==> join(parts.update(k, other), "\n"@) != join(parts, "\n"@)
        }),
{
    let parts = fingerprint_parts(
        chapters,
        graph_json,
        continuity_json,
        settings,
        style_prompt,
        profile,
        rule_pack_version,
    );
    if join(parts.update(k, other), "\n"@) == join(parts, "\n"@) {
        law_joined_text_shows_each_part(parts, k, other, "\n"@);
    }
}

/// How many calls came before a stage.
pub open spec fn stage_rank(stage: PlanStage) -> int {
    match stage {
        PlanStage::First => 0,
        PlanStage::Repair => 1,
        PlanStage::SecondRepair => 2,
    }
}

/// A plan is asked for three times at the most: every further call is at a later stage.
pub proof fn law_planning_ends(
    stage: PlanStage,
    reply: PlanReply,
    prompt: Seq<char>,
    settings: NovelSettingsView,
)
    ensures
        plan_next(stage, reply, prompt, settings) matches PlanNextView::Ask { stage: next, .. }
            ==> stage_rank(stage) < stage_rank(next) <= 2,
{
}

} // verus!
