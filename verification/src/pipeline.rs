//! The rewriting of a batch: what is prepared for each shard, in which order the shards are
//! worked on, and how their outcomes are put together.
use vstd::prelude::*;
use vstd::set_lib::{lemma_int_range, lemma_len_subset, set_int_range};
use crate::coverage::obligation_states;
use crate::dependency::is_levels;
use crate::domain::{
    duplicate_all, Duplicate, ParsedChapterRewrite, RewritePlan, RewritePlanView,
    RewriteStateUpdate, RewriteStateUpdateView, StagedChapterOutput,
};
use crate::order::{law_sorting_keeps_the_elements, lemma_insert_by_at, sort_by};
use crate::shard_context::{
    adjacent_context, build_readonly_adjacent_context, format_shard_context_with_neighbors,
    format_shard_label, shard_context, shard_label, ChapterShardWork,
};
use crate::text::{lemma_views_push, views};

verus! {

// ---- contracts one behind the other ---------------------------------------------------------
/// All states that a contract sets: its own, and those of its obligations.
pub open spec fn contract_states(plan: RewritePlanView) -> Seq<RewriteStateUpdateView> {
    plan.planned_state_updates + obligation_states(plan.obligations)
}

/// Adds the states that a contract sets to those of the contracts before it.
pub fn extend_states(states: &mut Vec<RewriteStateUpdate>, plan: &RewritePlan)
    ensures
        views(final(states)@) == views(old(states)@) + contract_states(plan@),
{
    let ghost start = views(states@);
    let mut own = duplicate_all(plan.planned_state_updates.as_slice());
    let ghost own_states = own@;
    states.append(&mut own);
    let ghost all = plan@.obligations;
    let mut i: usize = 0;
    proof {
        assert(views(states@) =~= start + plan@.planned_state_updates + obligation_states(
            all.take(0),
        ));
    }
    while i < plan.obligations.len()
        invariant
            i <= plan.obligations@.len(),
            all == views(plan.obligations@),
            views(states@) == start + plan@.planned_state_updates + obligation_states(
                all.take(i as int),
            ),
        decreases plan.obligations@.len() - i,
    {
        proof {
            assert(all.take(i + 1).drop_last() =~= all.take(i as int));
            assert(all.take(i + 1).last() == plan.obligations@[i as int]@);
        }
        let ghost before = states@;
        let mut more = duplicate_all(plan.obligations[i].planned_state_updates.as_slice());
        let ghost added = more@;
        states.append(&mut more);
        proof {
            assert(views(states@) =~= views(before) + views(added));
            assert(views(states@) =~= start + plan@.planned_state_updates + obligation_states(
                all.take(i + 1),
            ));
        }
        i += 1;
    }
    proof {
        assert(all.take(i as int) =~= all);
        assert(views(states@) =~= start + contract_states(plan@));
    }
}

/// The draft that a shard goes on with: one that an interrupted run left, under the same contract.
pub fn usable_draft(
    graph_strategy: bool,
    draft: Option<Vec<ParsedChapterRewrite>>,
    plan_is_reused: bool,
) -> (r: Option<Vec<ParsedChapterRewrite>>)
    ensures
        r == if graph_strategy && plan_is_reused {
            draft
        } else {
            None
        },
        r is Some ==> graph_strategy && plan_is_reused && draft == r,
{
    if graph_strategy && plan_is_reused {
        draft
    } else {
        None
    }
}

/// What is said where the planning of a shard failed.
pub fn planning_error(shard_label: &str, error: &str) -> (r: String)
    ensures
        r@ == shard_label@ + "：规划失败："@ + error@,
{
    let mut m = shard_label.to_string();
    m.append("：规划失败：");
    m.append(error);
    m
}

/// What is said where a shard failed.
pub fn shard_error(shard_label: &str, error: &str) -> (r: String)
    ensures
        r@ == shard_label@ + "："@ + error@,
{
    let mut m = shard_label.to_string();
    m.append("：");
    m.append(error);
    m
}

/// The contracts of all shards; every shard has to have one.
pub fn require_plans(plans: Vec<Option<RewritePlan>>) -> (r: Result<Vec<RewritePlan>, String>)
    ensures
        match r {
            Ok(v) => v@.len() == plans@.len() && forall|i: int|
                0 <= i < plans@.len() ==> (#[trigger] plans@[i]) is Some && views(v@)[i]
                    == plans@[i]->0@,
            Err(m) => m@ == "主角主动重构分片缺少改写契约。"@ && exists|i: int|
                0 <= i < plans@.len() && (#[trigger] plans@[i]) is None,
        },
{
    let mut out: Vec<RewritePlan> = Vec::new();
    let mut i: usize = 0;
    while i < plans.len()
        invariant
            i <= plans@.len(),
            out@.len() == i,
            forall|k: int|
                0 <= k < i ==> (#[trigger] plans@[k]) is Some && views(out@)[k] == plans@[k]->0@,
        decreases plans@.len() - i,
    {
        match &plans[i] {
            Some(plan) => {
                let ghost before = out@;
                out.push(plan.duplicate());
                proof {
                    lemma_views_push(before, out@.last());
                }
            },
            None => {
                return Err("主角主动重构分片缺少改写契约。".to_string());
            },
        }
        i += 1;
    }
    Ok(out)
}

// ---- what goes with a shard -----------------------------------------------------------------
/// The label of a shard, the chapters beside it, and the context that is made of them.
pub struct ShardSetting {
    pub label: String,
    pub readonly_context: String,
    pub context: String,
}

/// Prepares a shard of a batch.
pub fn prepare_shard(
    work: &ChapterShardWork,
    shard_index: usize,
    shard_total: usize,
    parallelism: usize,
    batch_label: &str,
    staged: &[(String, StagedChapterOutput)],
    phase: &str,
) -> (r: ShardSetting)
    requires
        shard_index < usize::MAX,
    ensures
        r.label@ == shard_label(
            batch_label@,
            shard_index as int,
            shard_total as int,
            views(work.chapters@),
        ),
        r.readonly_context@ == adjacent_context(work@, staged@, phase@),
        r.context@ == shard_context(views(work.chapters@), r.readonly_context@),
{
    let label = format_shard_label(
        batch_label,
        shard_index,
        shard_total,
        work.chapters.as_slice(),
    );
    let readonly_context = build_readonly_adjacent_context(work, staged, phase);
    let context = format_shard_context_with_neighbors(
        shard_index,
        shard_total,
        parallelism,
        batch_label,
        work.chapters.as_slice(),
        readonly_context.as_str(),
    );
    ShardSetting { label, readonly_context, context }
}

// ---- waves ----------------------------------------------------------------------------------
/// The first shards that have a level.
pub open spec fn wave_among(levels: Seq<usize>, level: usize) -> Seq<usize>
    decreases levels.len(),
{
    if levels.len() == 0 {
        Seq::empty()
    } else {
        let before = wave_among(levels.drop_last(), level);
        if levels.last() == level {
            before.push((levels.len() - 1) as usize)
        } else {
            before
        }
    }
}

/// An ascending list of different levels with one more level.
pub open spec fn with_level(list: Seq<usize>, level: usize) -> Seq<usize>
    decreases list.len(),
{
    if list.len() == 0 || list.last() < level {
        list.push(level)
    } else if list.last() == level {
        list
    } else {
        with_level(list.drop_last(), level).push(list.last())
    }
}

/// The different levels, ascending.
pub open spec fn distinct_levels(levels: Seq<usize>) -> Seq<usize>
    decreases levels.len(),
{
    if levels.len() == 0 {
        Seq::empty()
    } else {
        with_level(distinct_levels(levels.drop_last()), levels.last())
    }
}

/// The waves in which shards are worked on: one for each level, from the lowest on.
pub open spec fn waves_of(levels: Seq<usize>) -> Seq<Seq<usize>> {
    Seq::new(
        distinct_levels(levels).len(),
        |i: int| wave_among(levels, distinct_levels(levels)[i]),
    )
}

fn add_level(list: &mut Vec<usize>, level: usize)
    ensures
        final(list)@ == with_level(old(list)@, level),
{
    let ghost all = list@;
    let mut at: usize = list.len();
    proof {
        assert(all.take(at as int) =~= all);
        assert(with_level(all.take(at as int), level) + all.skip(at as int) =~= with_level(
            all,
            level,
        ));
    }
    while at > 0 && list[at - 1] > level
        invariant
            at <= list@.len(),
            list@ == all,
            with_level(all, level) == with_level(all.take(at as int), level) + all.skip(at as int),
        decreases at,
    {
        proof {
            assert(all.take(at as int).drop_last() =~= all.take(at - 1));
            assert(with_level(all.take(at - 1), level).push(all[at - 1]) + all.skip(at as int)
                =~= with_level(all.take(at - 1), level) + all.skip(at - 1));
        }
        at -= 1;
    }
    if at > 0 && list[at - 1] == level {
        proof {
            assert(all.take(at as int) + all.skip(at as int) =~= all);
        }
        return;
    }
    proof {
        assert(all.take(at as int).push(level) + all.skip(at as int) =~= all.insert(
            at as int,
            level,
        ));
    }
    list.insert(at, level);
}

fn distinct_levels_of(levels: &[usize]) -> (r: Vec<usize>)
    ensures
        r@ == distinct_levels(levels@),
{
    let ghost all = levels@;
    let mut out: Vec<usize> = Vec::new();
    let mut i: usize = 0;
    while i < levels.len()
        invariant
            i <= levels@.len(),
            all == levels@,
            out@ == distinct_levels(all.take(i as int)),
        decreases levels@.len() - i,
    {
        proof {
            assert(all.take(i + 1).drop_last() =~= all.take(i as int));
        }
        add_level(&mut out, levels[i]);
        i += 1;
    }
    proof {
        assert(all.take(i as int) =~= all);
    }
    out
}

fn wave_of(levels: &[usize], level: usize) -> (r: Vec<usize>)
    ensures
        r@ == wave_among(levels@, level),
{
    let ghost all = levels@;
    let mut out: Vec<usize> = Vec::new();
    let mut i: usize = 0;
    while i < levels.len()
        invariant
            i <= levels@.len(),
            all == levels@,
            out@ == wave_among(all.take(i as int), level),
        decreases levels@.len() - i,
    {
        proof {
            assert(all.take(i + 1).drop_last() =~= all.take(i as int));
        }
        if levels[i] == level {
            out.push(i);
        }
        i += 1;
    }
    proof {
        assert(all.take(i as int) =~= all);
    }
    out
}

/// The shards by waves: a wave is begun when all before it are done.
pub fn build_waves(levels: &[usize]) -> (r: Vec<Vec<usize>>)
    ensures
        views(r@) == waves_of(levels@),
{
    let distinct = distinct_levels_of(levels);
    let ghost goal = waves_of(levels@);
    let mut out: Vec<Vec<usize>> = Vec::new();
    let mut i: usize = 0;
    while i < distinct.len()
        invariant
            i <= distinct@.len(),
            distinct@ == distinct_levels(levels@),
            goal == waves_of(levels@),
            views(out@) == goal.take(i as int),
        decreases distinct@.len() - i,
    {
        let ghost before = out@;
        out.push(wave_of(levels, distinct[i]));
        proof {
            lemma_views_push(before, out@.last());
            assert(views(out@) =~= goal.take(i + 1));
        }
        i += 1;
    }
    proof {
        assert(goal.take(i as int) =~= goal);
    }
    out
}

// ---- outcomes -------------------------------------------------------------------------------
/// The outcome of a shard under its number.
pub type ShardOutcomeView<V> = (usize, Seq<V>);

pub open spec fn outcome_view<T: View>(x: (usize, Vec<T>)) -> ShardOutcomeView<T::V> {
    (x.0, views(x.1@))
}

pub open spec fn outcome_views<T: View>(s: Seq<(usize, Vec<T>)>) -> Seq<ShardOutcomeView<T::V>> {
    Seq::new(s.len(), |i: int| outcome_view(s[i]))
}

pub open spec fn number_key<V>() -> spec_fn(ShardOutcomeView<V>) -> int {
    |x: ShardOutcomeView<V>| x.0 as int
}

/// All outcomes one behind the other.
pub open spec fn joined<V>(outcomes: Seq<ShardOutcomeView<V>>) -> Seq<V>
    decreases outcomes.len(),
{
    if outcomes.len() == 0 {
        Seq::empty()
    } else {
        joined(outcomes.drop_last()) + outcomes.last().1
    }
}

fn sort_outcomes<T: Duplicate>(outcomes: Vec<(usize, Vec<T>)>) -> (r: Vec<(usize, Vec<T>)>)
    ensures
        outcome_views(r@) == sort_by(outcome_views(outcomes@), number_key()),
{
    let ghost all = outcome_views(outcomes@);
    let mut out: Vec<(usize, Vec<T>)> = Vec::new();
    let mut i: usize = 0;
    proof {
        assert(outcome_views(out@) =~= sort_by(all.take(0), number_key()));
    }
    while i < outcomes.len()
        invariant
            i <= outcomes@.len(),
            all == outcome_views(outcomes@),
            outcome_views(out@) == sort_by(all.take(i as int), number_key()),
        decreases outcomes@.len() - i,
    {
        let number = outcomes[i].0;
        let list = duplicate_all(outcomes[i].1.as_slice());
        let x = (number, list);
        let ghost sorted = outcome_views(out@);
        let ghost before = out@;
        let ghost x_view = outcome_view(x);
        proof {
            assert(all.take(i + 1).drop_last() =~= all.take(i as int));
            assert(all.take(i + 1).last() == x_view);
        }
        let mut at: usize = out.len();
        while at > 0 && out[at - 1].0 > number
            invariant
                at <= out@.len(),
                out@ == before,
                sorted == outcome_views(before),
                x_view.0 == number,
                forall|k: int|
                    at <= k < sorted.len() ==> number_key()(#[trigger] sorted[k]) > number_key()(
                        x_view,
                    ),
            decreases at,
        {
            proof {
                assert(sorted[at - 1] == outcome_view(out@[at - 1]));
            }
            at -= 1;
        }
        proof {
            if at > 0 {
                assert(sorted[at - 1] == outcome_view(out@[at - 1]));
            }
            lemma_insert_by_at(sorted, x_view, number_key(), at as int);
            assert(outcome_views(before.insert(at as int, x)) =~= sorted.insert(
                at as int,
                x_view,
            ));
        }
        out.insert(at, x);
        i += 1;
    }
    proof {
        assert(all.take(i as int) =~= all);
    }
    out
}

/// The chapters of all shards in the order of the shards, whatever the order in which they were
/// done.
pub fn gather_outcomes<T: Duplicate>(outcomes: Vec<(usize, Vec<T>)>) -> (r: Vec<T>)
    ensures
        views(r@) == joined(sort_by(outcome_views(outcomes@), number_key())),
{
    let sorted = sort_outcomes(outcomes);
    let ghost all = outcome_views(sorted@);
    let mut out: Vec<T> = Vec::new();
    let mut i: usize = 0;
    proof {
        assert(views(out@) =~= joined(all.take(0)));
    }
    while i < sorted.len()
        invariant
            i <= sorted@.len(),
            all == outcome_views(sorted@),
            views(out@) == joined(all.take(i as int)),
        decreases sorted@.len() - i,
    {
        proof {
            assert(all.take(i + 1).drop_last() =~= all.take(i as int));
            assert(all.take(i + 1).last() == outcome_view(sorted@[i as int]));
        }
        let ghost before = out@;
        let mut more = duplicate_all(sorted[i].1.as_slice());
        let ghost added = more@;
        out.append(&mut more);
        proof {
            assert(views(out@) =~= views(before) + views(added));
        }
        i += 1;
    }
    proof {
        assert(all.take(i as int) =~= all);
    }
    out
}

// ---- laws -----------------------------------------------------------------------------------
proof fn lemma_with_level(list: Seq<usize>, level: usize)
    requires
        forall|i: int, j: int| 0 <= i < j < list.len() ==> (#[trigger] list[i]) < (
        #[trigger] list[j]),
    ensures
        ({
            let r = with_level(list, level);
            &&& forall|i: int, j: int|
                0 <= i < j < r.len() ==> (#[trigger] r[i]) < (#[trigger] r[j])
            &&& forall|x: usize| #[trigger] r.contains(x) <==> list.contains(x) || x == level
        }),
    decreases list.len(),
{
    let r = with_level(list, level);
    if list.len() == 0 || list.last() < level {
        assert forall|x: usize| #[trigger] r.contains(x) <==> list.contains(x) || x == level by {
            if list.contains(x) {
                assert(r[list.index_of(x)] == x);
            }
            if x == level {
                assert(r[list.len() as int] == x);
            }
        }
        assert forall|i: int, j: int| 0 <= i < j < r.len() implies (#[trigger] r[i]) < (
        #[trigger] r[j]) by {
            if j == list.len() && i < list.len() - 1 {
                assert(list[i] < list[list.len() - 1]);
            }
        }
    } else if list.last() == level {
        assert(list[list.len() - 1] == level);
    } else {
        let rest = list.drop_last();
        lemma_with_level(rest, level);
        let inner = with_level(rest, level);
        assert forall|x: usize| #[trigger] r.contains(x) <==> list.contains(x) || x == level by {
            assert(inner.contains(x) <==> rest.contains(x) || x == level);
            if r.contains(x) {
                let k = r.index_of(x);
                if k < inner.len() {
                    assert(inner[k] == x);
                    if rest.contains(x) {
                        assert(list[rest.index_of(x)] == x);
                    }
                } else {
                    assert(list[list.len() - 1] == x);
                }
            }
            if inner.contains(x) {
                assert(r[inner.index_of(x)] == x);
            }
            if list.contains(x) {
                let k = list.index_of(x);
                if k < rest.len() {
                    assert(rest[k] == x);
                } else {
                    assert(r[inner.len() as int] == x);
                }
            }
        }
        assert forall|i: int, j: int| 0 <= i < j < r.len() implies (#[trigger] r[i]) < (
        #[trigger] r[j]) by {
            if j == inner.len() {
                assert(inner.contains(inner[i]));
                if rest.contains(inner[i]) {
                    let k = rest.index_of(inner[i]);
                    assert(list[k] < list[list.len() - 1]);
                }
            } else {
                assert(inner[i] < inner[j]);
            }
        }
    }
}

proof fn lemma_distinct_levels(levels: Seq<usize>)
    ensures
        ({
            let r = distinct_levels(levels);
            &&& forall|i: int, j: int|
                0 <= i < j < r.len() ==> (#[trigger] r[i]) < (#[trigger] r[j])
            &&& forall|x: usize| #[trigger] r.contains(x) <==> levels.contains(x)
        }),
    decreases levels.len(),
{
    if levels.len() > 0 {
        let rest = levels.drop_last();
        lemma_distinct_levels(rest);
        lemma_with_level(distinct_levels(rest), levels.last());
        assert forall|x: usize| #[trigger] distinct_levels(levels).contains(x) <==> levels.contains(
            x,
        ) by {
            if levels.contains(x) {
                let k = levels.index_of(x);
                if k < rest.len() {
                    assert(rest[k] == x);
                }
            }
            if rest.contains(x) {
                assert(levels[rest.index_of(x)] == x);
            }
            if x == levels.last() {
                assert(levels[levels.len() - 1] == x);
            }
        }
    }
}

proof fn lemma_wave_members(levels: Seq<usize>, level: usize)
    requires
        levels.len() <= usize::MAX,
    ensures
        forall|x: usize| #[trigger]
            wave_among(levels, level).contains(x) <==> x < levels.len() && levels[x as int]
                == level,
    decreases levels.len(),
{
    if levels.len() > 0 {
        let rest = levels.drop_last();
        let before = wave_among(rest, level);
        let r = wave_among(levels, level);
        let last = (levels.len() - 1) as usize;
        lemma_wave_members(rest, level);
        assert forall|x: usize| #[trigger] r.contains(x) <==> x < levels.len() && levels[x as int]
            == level by {
            assert(before.contains(x) <==> x < rest.len() && rest[x as int] == level);
            if levels.last() == level {
                assert(r == before.push(last));
                if before.contains(x) {
                    assert(r[before.index_of(x)] == x);
                }
                if x == last {
                    assert(r[before.len() as int] == x);
                }
                if r.contains(x) {
                    let k = r.index_of(x);
                    if k < before.len() {
                        assert(before[k] == x);
                    }
                }
            }
        }
    }
}

/// Every shard is in the wave of its level.
pub proof fn law_every_shard_has_a_wave(levels: Seq<usize>, shard: usize)
    requires
        levels.len() <= usize::MAX,
        shard < levels.len(),
    ensures
        exists|w: int|
            0 <= w < waves_of(levels).len() && #[trigger] waves_of(levels)[w].contains(shard),
{
    lemma_distinct_levels(levels);
    let level = levels[shard as int];
    assert(levels.contains(level));
    assert(distinct_levels(levels).contains(level));
    let w = distinct_levels(levels).index_of(level);
    lemma_wave_members(levels, level);
    assert(waves_of(levels)[w].contains(shard));
}

/// A shard is worked on in a later wave than every shard that it waits for.
pub proof fn law_waves_follow_the_dependencies(
    edges: Set<(int, int)>,
    levels: Seq<usize>,
    first: usize,
    second: usize,
    a: int,
    b: int,
)
    requires
        levels.len() <= usize::MAX,
        is_levels(edges, levels),
        first < levels.len(),
        second < levels.len(),
        edges.contains((first as int, second as int)),
        0 <= a < waves_of(levels).len(),
        0 <= b < waves_of(levels).len(),
        waves_of(levels)[a].contains(first),
        waves_of(levels)[b].contains(second),
    ensures
        a < b,
{
    lemma_distinct_levels(levels);
    lemma_wave_members(levels, distinct_levels(levels)[a]);
    lemma_wave_members(levels, distinct_levels(levels)[b]);
    assert(levels[first as int] == distinct_levels(levels)[a]);
    assert(levels[second as int] == distinct_levels(levels)[b]);
    if b < a {
        assert(distinct_levels(levels)[b] < distinct_levels(levels)[a]);
    }
}

// ---- the run of a batch ---------------------------------------------------------------------
/// The run of a batch: its waves, the one that is worked on, the shards of that wave which are
/// not done yet, and the outcomes of those which are.
pub struct BatchRun<T> {
    pub waves: Vec<Vec<usize>>,
    pub at: usize,
    pub waiting: Vec<usize>,
    pub outcomes: Vec<(usize, Vec<T>)>,
}

proof fn lemma_push_contains(list: Seq<usize>, x: usize, s: usize)
    ensures
        list.push(x).contains(s) <==> list.contains(s) || s == x,
{
    let after = list.push(x);
    if list.contains(s) {
        assert(after[list.index_of(s)] == s);
    }
    if s == x {
        assert(after[list.len() as int] == s);
    }
    if after.contains(s) {
        let i = after.index_of(s);
        if i < list.len() {
            assert(list[i] == s);
        }
    }
}

proof fn lemma_wave_is_distinct(levels: Seq<usize>, level: usize)
    requires
        levels.len() <= usize::MAX,
    ensures
        wave_among(levels, level).no_duplicates(),
    decreases levels.len(),
{
    if levels.len() > 0 {
        let rest = levels.drop_last();
        lemma_wave_is_distinct(rest, level);
        lemma_wave_members(rest, level);
        let before = wave_among(rest, level);
        assert(!before.contains((levels.len() - 1) as usize));
    }
}

/// Whether every wave has a shard, and no shard stands twice in the waves.
pub open spec fn waves_are_apart(waves: Seq<Seq<usize>>) -> bool {
    &&& forall|w: int| 0 <= w < waves.len() ==> (#[trigger] waves[w]).len() > 0
    &&& forall|w: int| 0 <= w < waves.len() ==> (#[trigger] waves[w]).no_duplicates()
    &&& forall|a: int, b: int, shard: usize|
        0 <= a < waves.len() && 0 <= b < waves.len() && #[trigger] waves[a].contains(shard)
            && #[trigger] waves[b].contains(shard) ==> a == b
}

/// No shard is in two waves or twice in one, and no wave is empty.
pub proof fn law_waves_are_apart(levels: Seq<usize>)
    requires
        levels.len() <= usize::MAX,
    ensures
        waves_are_apart(waves_of(levels)),
{
    let waves = waves_of(levels);
    let distinct = distinct_levels(levels);
    lemma_distinct_levels(levels);
    assert forall|w: int| 0 <= w < waves.len() implies (#[trigger] waves[w]).len() > 0 by {
        let level = distinct[w];
        assert(distinct.contains(level));
        let i = levels.index_of(level);
        lemma_wave_members(levels, level);
        assert(wave_among(levels, level).contains(i as usize));
    }
    assert forall|w: int| 0 <= w < waves.len() implies (
    #[trigger] waves[w]).no_duplicates() by {
        lemma_wave_is_distinct(levels, distinct[w]);
    }
    assert forall|a: int, b: int, shard: usize|
        0 <= a < waves.len() && 0 <= b < waves.len() && #[trigger] waves[a].contains(shard)
            && #[trigger] waves[b].contains(shard) implies a == b by {
        lemma_wave_members(levels, distinct[a]);
        lemma_wave_members(levels, distinct[b]);
        if a < b {
            assert(distinct[a] < distinct[b]);
        } else if b < a {
            assert(distinct[b] < distinct[a]);
        }
    }
}

/// The shards of a wave; none behind the last wave.
pub open spec fn wave_at(waves: Seq<Seq<usize>>, at: int) -> Seq<usize> {
    if 0 <= at < waves.len() {
        waves[at]
    } else {
        Seq::empty()
    }
}

/// The shards of the outcomes, in the order in which they were done.
pub open spec fn shards_done<T>(outcomes: Seq<(usize, Vec<T>)>) -> Seq<usize> {
    Seq::new(outcomes.len(), |i: int| outcomes[i].0)
}

/// The shards that are waited for when one of them is done.
pub open spec fn without_shard(waiting: Seq<usize>, shard: usize) -> Seq<usize> {
    waiting.remove(waiting.index_of(shard))
}

proof fn lemma_without_shard(waiting: Seq<usize>, shard: usize)
    requires
        waiting.no_duplicates(),
        waiting.contains(shard),
    ensures
        without_shard(waiting, shard).no_duplicates(),
        forall|s: usize| #[trigger]
            without_shard(waiting, shard).contains(s) <==> waiting.contains(s) && s != shard,
{
    let i = waiting.index_of(shard);
    let left = without_shard(waiting, shard);
    assert forall|s: usize| #[trigger] left.contains(s) <==> waiting.contains(s) && s != shard by {
        if left.contains(s) {
            let k = left.index_of(s);
            let j = if k < i {
                k
            } else {
                k + 1
            };
            assert(waiting[j] == s);
        }
        if waiting.contains(s) && s != shard {
            let j = waiting.index_of(s);
            let k = if j < i {
                j
            } else {
                j - 1
            };
            assert(left[k] == s);
        }
    }
}

impl<T: Duplicate> BatchRun<T> {
    /// The waves before the current one are done, and of the current one every shard is done or
    /// waited for, and not both. Nothing else is done, and nothing is done or waited for twice.
    pub open spec fn well_formed(&self) -> bool {
        let waves = views(self.waves@);
        let done = shards_done(self.outcomes@);
        &&& waves_are_apart(waves)
        &&& self.at <= waves.len()
        &&& self.waiting@.no_duplicates()
        &&& done.no_duplicates()
        &&& forall|w: int, shard: usize|
            0 <= w < self.at && #[trigger] waves[w].contains(shard) ==> done.contains(shard)
        &&& forall|shard: usize|
            #![trigger self.waiting@.contains(shard)]
            #![trigger wave_at(waves, self.at as int).contains(shard)]
            self.waiting@.contains(shard) <==> wave_at(waves, self.at as int).contains(shard)
                && !done.contains(shard)
        &&& forall|shard: usize| #[trigger]
            done.contains(shard) ==> exists|w: int|
                0 <= w <= self.at && w < waves.len() && #[trigger] waves[w].contains(shard)
        &&& self.at < waves.len() ==> self.waiting@.len() > 0
    }

    /// Begins with the shards of the lowest level.
    pub fn start(levels: &[usize]) -> (r: BatchRun<T>)
        ensures
            r.well_formed(),
            views(r.waves@) == waves_of(levels@),
            r.at == 0,
            r.waiting@ == wave_at(waves_of(levels@), 0),
            r.outcomes@.len() == 0,
    {
        let total: usize = levels.len();
        let waves = build_waves(levels);
        let outcomes: Vec<(usize, Vec<T>)> = Vec::new();
        let waiting = if waves.len() > 0 {
            copy_numbers(waves[0].as_slice())
        } else {
            Vec::new()
        };
        proof {
            law_waves_are_apart(levels@);
            assert(waiting@ =~= wave_at(views(waves@), 0));
        }
        BatchRun { waves, at: 0, waiting, outcomes }
    }

    /// A shard that was waited for is done. When it was the last one of its wave, the next wave
    /// begins.
    pub fn shard_done(&mut self, shard: usize, outcome: Vec<T>)
        requires
            old(self).well_formed(),
            old(self).waiting@.contains(shard),
        ensures
            final(self).well_formed(),
            final(self).waves@ == old(self).waves@,
            outcome_views(final(self).outcomes@) == outcome_views(old(self).outcomes@).push(
                (shard, views(outcome@)),
            ),
            ({
                let left = without_shard(old(self).waiting@, shard);
                if left.len() > 0 {
                    final(self).at == old(self).at && final(self).waiting@ == left
                } else {
                    final(self).at == old(self).at + 1 && final(self).waiting@ == wave_at(
                        views(old(self).waves@),
                        old(self).at + 1,
                    )
                }
            }),
    {
        let total: usize = self.waves.len();
        let ghost waves = views(self.waves@);
        let ghost before = self.outcomes@;
        let ghost waited = self.waiting@;
        let ghost old_at = self.at as int;
        let ghost left = without_shard(waited, shard);
        let mut i: usize = 0;
        while i < self.waiting.len() && self.waiting[i] != shard
            invariant
                i <= self.waiting@.len(),
                *self == *old(self),
                forall|k: int| 0 <= k < i ==> #[trigger] self.waiting@[k] != shard,
            decreases self.waiting@.len() - i,
        {
            i += 1;
        }
        proof {
            let k = waited.index_of(shard);
            assert(waited[k] == shard);
            assert(i == k);
            lemma_without_shard(waited, shard);
            assert(wave_at(waves, old_at).contains(shard));
        }
        self.waiting.remove(i);
        let ghost done_before = shards_done(before);
        self.outcomes.push((shard, outcome));
        proof {
            assert(self.waiting@ == left);
            assert(outcome_views(self.outcomes@) =~= outcome_views(before).push(
                (shard, views(outcome@)),
            ));
            assert(shards_done(self.outcomes@) =~= done_before.push(shard));
            assert forall|s: usize| #[trigger] done_before.push(shard).contains(s)
                <==> done_before.contains(s) || s == shard by {
                lemma_push_contains(done_before, shard, s);
            }
        }
        if self.waiting.len() == 0 {
            self.at = self.at + 1;
            if self.at < total {
                self.waiting = copy_numbers(self.waves[self.at].as_slice());
            }
        }
        proof {
            let done = shards_done(self.outcomes@);
            assert(done == done_before.push(shard));
            if left.len() == 0 {
                assert(self.waiting@ =~= wave_at(waves, old_at + 1));
            }
            assert forall|w: int, s: usize|
                0 <= w < self.at && #[trigger] waves[w].contains(s) implies done.contains(s) by {
                if w == old_at {
                    assert(wave_at(waves, old_at).contains(s));
                    if waited.contains(s) && s != shard {
                        assert(left.contains(s));
                    }
                } else {
                    assert(done_before.contains(s));
                }
            }
            assert forall|s: usize| #[trigger] done.contains(s) implies exists|w: int|
                0 <= w <= self.at && w < waves.len() && #[trigger] waves[w].contains(s) by {
                if s == shard {
                    assert(waves[old_at].contains(s));
                } else {
                    assert(done_before.contains(s));
                    let w = choose|w: int|
                        0 <= w <= old_at && w < waves.len() && #[trigger] waves[w].contains(s);
                    assert(waves[w].contains(s));
                }
            }
            let now = wave_at(waves, self.at as int);
            assert forall|s: usize|
                self.waiting@.contains(s) <==> #[trigger] now.contains(s) && !done.contains(s) by {
                if left.len() > 0 {
                    assert(wave_at(waves, old_at).contains(s) == now.contains(s));
                } else if now.contains(s) && done.contains(s) {
                    assert(waves[old_at + 1].contains(s));
                    if s == shard {
                        assert(waves[old_at].contains(s));
                    } else {
                        assert(done_before.contains(s));
                        let w = choose|w: int|
                            0 <= w <= old_at && w < waves.len() && #[trigger] waves[w].contains(s);
                        assert(waves[w].contains(s));
                    }
                }
            }
        }
    }

    /// Whether all shards are done.
    pub fn is_finished(&self) -> (r: bool)
        ensures
            r == (self.at >= self.waves@.len()),
    {
        self.at >= self.waves.len()
    }

    /// The outcomes of all shards, in the order of the shards.
    pub fn finish(self) -> (r: Vec<T>)
        ensures
            views(r@) == joined(sort_by(outcome_views(self.outcomes@), number_key())),
    {
        gather_outcomes(self.outcomes)
    }
}

fn copy_numbers(v: &[usize]) -> (r: Vec<usize>)
    ensures
        r@ == v@,
{
    let mut out: Vec<usize> = Vec::new();
    let mut i: usize = 0;
    while i < v.len()
        invariant
            i <= v@.len(),
            out@ == v@.take(i as int),
        decreases v@.len() - i,
    {
        out.push(v[i]);
        i += 1;
    }
    out
}

/// While a shard is worked on, all shards that it waits for are done.
pub proof fn law_shard_starts_after_its_dependencies<T: Duplicate>(
    run: BatchRun<T>,
    edges: Set<(int, int)>,
    levels: Seq<usize>,
    first: usize,
    second: usize,
)
    requires
        run.well_formed(),
        views(run.waves@) == waves_of(levels),
        levels.len() <= usize::MAX,
        is_levels(edges, levels),
        first < levels.len(),
        second < levels.len(),
        edges.contains((first as int, second as int)),
        run.waiting@.contains(second),
    ensures
        shards_done(run.outcomes@).contains(first),
{
    let waves = waves_of(levels);
    assert(wave_at(waves, run.at as int).contains(second));
    assert(waves[run.at as int].contains(second));
    law_every_shard_has_a_wave(levels, first);
    let w = choose|w: int| 0 <= w < waves.len() && #[trigger] waves[w].contains(first);
    law_waves_follow_the_dependencies(edges, levels, first, second, w, run.at as int);
    assert(views(run.waves@)[w].contains(first));
}

proof fn lemma_numbers_below(numbers: Seq<usize>, n: nat)
    requires
        numbers.no_duplicates(),
        forall|s: usize| #[trigger] numbers.contains(s) ==> s < n,
    ensures
        numbers.len() <= n,
        (forall|s: usize| s < n ==> #[trigger] numbers.contains(s)) && n <= usize::MAX
            ==> numbers.len() == n,
{
    let ints = numbers.map_values(|x: usize| x as int);
    assert(ints.no_duplicates());
    ints.unique_seq_to_set();
    let range = set_int_range(0, n as int);
    lemma_int_range(0, n as int);
    assert forall|x: int| #[trigger] ints.to_set().contains(x) implies range.contains(x) by {
        let i = ints.index_of(x);
        assert(numbers.contains(numbers[i]));
    }
    lemma_len_subset(ints.to_set(), range);
    if (forall|s: usize| s < n ==> #[trigger] numbers.contains(s)) && n <= usize::MAX {
        assert forall|x: int| #[trigger] range.contains(x) implies ints.to_set().contains(x) by {
            assert(numbers.contains(x as usize));
            let i = numbers.index_of(x as usize);
            assert(ints[i] == x);
        }
        lemma_len_subset(range, ints.to_set());
    }
}

proof fn lemma_run_is_within<T: Duplicate>(run: BatchRun<T>, levels: Seq<usize>, shard: usize)
    requires
        run.well_formed(),
        views(run.waves@) == waves_of(levels),
        levels.len() <= usize::MAX,
        shards_done(run.outcomes@).contains(shard) || run.waiting@.contains(shard),
    ensures
        shard < levels.len(),
{
    let waves = waves_of(levels);
    let w = if shards_done(run.outcomes@).contains(shard) {
        choose|w: int| 0 <= w <= run.at && w < waves.len() && #[trigger] waves[w].contains(shard)
    } else {
        assert(wave_at(waves, run.at as int).contains(shard));
        run.at as int
    };
    lemma_wave_members(levels, distinct_levels(levels)[w]);
    assert(waves[w].contains(shard));
}

/// There are never more outcomes than shards, and fewer as long as a shard is waited for: with
/// each shard that is done the run comes nearer to its end.
pub proof fn law_run_comes_to_an_end<T: Duplicate>(run: BatchRun<T>, levels: Seq<usize>)
    requires
        run.well_formed(),
        views(run.waves@) == waves_of(levels),
        levels.len() <= usize::MAX,
    ensures
        run.outcomes@.len() + run.waiting@.len() <= levels.len(),
        run.at < run.waves@.len() ==> run.outcomes@.len() < levels.len(),
{
    let done = shards_done(run.outcomes@);
    let both = done + run.waiting@;
    assert forall|i: int, j: int| 0 <= i < j < both.len() implies both[i] != both[j] by {
        if i < done.len() && j >= done.len() {
            assert(done.contains(both[i]));
            assert(run.waiting@.contains(both[j]));
        }
    }
    assert forall|s: usize| #[trigger] both.contains(s) implies s < levels.len() by {
        let i = both.index_of(s);
        if i < done.len() {
            assert(done.contains(s));
        } else {
            assert(run.waiting@[i - done.len()] == s);
        }
        lemma_run_is_within(run, levels, s);
    }
    lemma_numbers_below(both, levels.len());
}

/// When a run is finished, every shard has been done once, and nothing else has been done.
pub proof fn law_finished_run_has_all_outcomes<T: Duplicate>(run: BatchRun<T>, levels: Seq<usize>)
    requires
        run.well_formed(),
        views(run.waves@) == waves_of(levels),
        levels.len() <= usize::MAX,
        run.at >= run.waves@.len(),
    ensures
        run.outcomes@.len() == levels.len(),
        shards_done(run.outcomes@).no_duplicates(),
        forall|shard: usize| #[trigger]
            shards_done(run.outcomes@).contains(shard) <==> shard < levels.len(),
{
    let done = shards_done(run.outcomes@);
    let waves = waves_of(levels);
    assert forall|shard: usize| #[trigger] done.contains(shard) <==> shard < levels.len() by {
        if done.contains(shard) {
            lemma_run_is_within(run, levels, shard);
        }
        if shard < levels.len() {
            law_every_shard_has_a_wave(levels, shard);
            let w = choose|w: int| 0 <= w < waves.len() && #[trigger] waves[w].contains(shard);
            assert(views(run.waves@)[w].contains(shard));
        }
    }
    lemma_numbers_below(done, levels.len());
}

proof fn lemma_ascending_numbers(s: Seq<usize>, i: int)
    requires
        forall|a: int, b: int| 0 <= a < b < s.len() ==> (#[trigger] s[a]) < (#[trigger] s[b]),
        0 <= i < s.len(),
    ensures
        s[i] >= i,
    decreases i,
{
    if i > 0 {
        lemma_ascending_numbers(s, i - 1);
        assert(s[i - 1] < s[i]);
    }
}

proof fn lemma_ascending_numbers_below(s: Seq<usize>, i: int)
    requires
        forall|a: int, b: int| 0 <= a < b < s.len() ==> (#[trigger] s[a]) < (#[trigger] s[b]),
        forall|a: int| 0 <= a < s.len() ==> (#[trigger] s[a]) < s.len(),
        0 <= i < s.len(),
    ensures
        s[i] <= i,
    decreases s.len() - i,
{
    if i + 1 < s.len() {
        lemma_ascending_numbers_below(s, i + 1);
        assert(s[i] < s[i + 1]);
    }
}

/// The outcomes of a finished run come out in the order of the shards, one of each.
pub proof fn law_finished_run_is_in_order<T: Duplicate>(
    run: BatchRun<T>,
    levels: Seq<usize>,
    shard: int,
)
    requires
        run.well_formed(),
        views(run.waves@) == waves_of(levels),
        levels.len() <= usize::MAX,
        run.at >= run.waves@.len(),
        0 <= shard < levels.len(),
    ensures
        sort_by(outcome_views(run.outcomes@), number_key()).len() == levels.len(),
        sort_by(outcome_views(run.outcomes@), number_key())[shard].0 == shard,
        outcome_views(run.outcomes@).contains(
            sort_by(outcome_views(run.outcomes@), number_key())[shard],
        ),
{
    broadcast use vstd::seq_lib::group_to_multiset_ensures;

    law_finished_run_has_all_outcomes(run, levels);
    let all = outcome_views(run.outcomes@);
    let done = shards_done(run.outcomes@);
    let key = number_key::<T::V>();
    let sorted = sort_by(all, key);
    law_sorting_keeps_the_elements(all, key);
    let numbers = Seq::new(sorted.len(), |i: int| sorted[i].0);
    assert forall|i: int| 0 <= i < sorted.len() implies all.contains(#[trigger] sorted[i]) by {
        assert(sorted.contains(sorted[i]));
        assert(sorted.to_multiset().count(sorted[i]) > 0);
    }
    assert forall|s: usize| #[trigger] numbers.contains(s) <==> s < levels.len() by {
        if numbers.contains(s) {
            let i = numbers.index_of(s);
            assert(all.contains(sorted[i]));
            let k = all.index_of(sorted[i]);
            assert(done[k] == s);
            assert(done.contains(s));
        }
        if s < levels.len() {
            assert(done.contains(s));
            let k = done.index_of(s);
            assert(all.contains(all[k]));
            assert(all.to_multiset().count(all[k]) > 0);
            assert(sorted.contains(all[k]));
            assert(numbers[sorted.index_of(all[k])] == s);
        }
    }
    lemma_all_numbers_are_distinct(numbers);
    assert forall|a: int, b: int| 0 <= a < b < numbers.len() implies (#[trigger] numbers[a]) < (
    #[trigger] numbers[b]) by {
        assert(key(sorted[a]) <= key(sorted[b]));
    }
    assert forall|a: int| 0 <= a < numbers.len() implies (#[trigger] numbers[a])
        < numbers.len() by {
        assert(numbers.contains(numbers[a]));
    }
    lemma_ascending_numbers(numbers, shard);
    lemma_ascending_numbers_below(numbers, shard);
}

proof fn lemma_all_numbers_are_distinct(numbers: Seq<usize>)
    requires
        numbers.len() <= usize::MAX,
        forall|s: usize| #[trigger] numbers.contains(s) <==> s < numbers.len(),
    ensures
        numbers.no_duplicates(),
{
    let ints = numbers.map_values(|x: usize| x as int);
    lemma_int_range(0, numbers.len() as int);
    assert forall|x: int| #[trigger]
        set_int_range(0, numbers.len() as int).contains(x) <==> ints.to_set().contains(x) by {
        if ints.to_set().contains(x) {
            let i = ints.index_of(x);
            assert(numbers.contains(numbers[i]));
        }
        if 0 <= x < numbers.len() {
            assert(numbers.contains(x as usize));
            assert(ints[numbers.index_of(x as usize)] == x);
        }
    }
    assert(ints.to_set() =~= set_int_range(0, numbers.len() as int));
    ints.lemma_no_dup_set_cardinality();
    assert forall|a: int, b: int| 0 <= a < b < numbers.len() implies numbers[a] != numbers[b] by {
        assert(ints[a] != ints[b]);
    }
}

} // verus!
