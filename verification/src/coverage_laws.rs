//! What the coverage of a plan is for: what was promised is looked for where it was promised, and
//! the states that a plan sets are the ones that are carried on.
use vstd::prelude::*;
use crate::coverage::{
    all_planned, canonical_states, count_found, ends_fragment, evidence_found, evidence_in,
    evidence_pieces, fix_summary, fragment_found, gate_open, insert_state, long_fragments,
    merged_states, mostly_found, nearly_holds, obligation_chapter, obligation_ids,
    obligation_states, one_edit, one_place, one_removed, planned_position, quotations,
    quoted_fragments, same_planned_state, same_state, satisfied_count, satisfied_ids, sort_states,
    state_position, validations, with_state, with_states,
};
use crate::domain::{
    ChapterView, ParsedChapterRewriteView, ReviewCoverageItemView, ReviewIssueView,
    RewriteObligationView, RewritePlanView, RewriteStateUpdateView,
};
use crate::order::law_sorted_texts_are_distinct;
use crate::review_laws::law_quotation_is_found;
use crate::text::{blank, holds, join, normalized, trim, white};
use crate::text_laws::{
    law_holding_is_transitive, law_joined_text_holds_its_parts, lemma_holds_inside,
    lemma_push_contains, lemma_sum_contains,
};

verus! {

// ---- states ---------------------------------------------------------------------------------
proof fn lemma_insert_contains(
    s: Seq<RewriteStateUpdateView>,
    x: RewriteStateUpdateView,
    y: RewriteStateUpdateView,
)
    ensures
        insert_state(s, x).contains(y) <==> s.contains(y) || y == x,
    decreases s.len(),
{
    if s.len() == 0 {
        assert(seq![x][0] == x);
    } else {
        let rest = s.drop_last();
        lemma_insert_contains(rest, x, y);
        lemma_push_contains(insert_state(rest, x), s.last(), y);
        lemma_push_contains(rest, s.last(), y);
        lemma_push_contains(s, x, y);
        assert(rest.push(s.last()) =~= s);
    }
}

/// Sorting states neither loses nor adds one.
pub proof fn law_sorted_states_are_the_states(
    s: Seq<RewriteStateUpdateView>,
    y: RewriteStateUpdateView,
)
    ensures
        sort_states(s).contains(y) <==> s.contains(y),
    decreases s.len(),
{
    if s.len() > 0 {
        let rest = s.drop_last();
        law_sorted_states_are_the_states(rest, y);
        lemma_insert_contains(sort_states(rest), s.last(), y);
        lemma_push_contains(rest, s.last(), y);
        assert(rest.push(s.last()) =~= s);
    }
}

proof fn lemma_planned_position(
    list: Seq<RewriteStateUpdateView>,
    x: RewriteStateUpdateView,
    i: int,
)
    requires
        0 <= i <= list.len(),
    ensures
        planned_position(list, x, i) matches Some(k) ==> i <= k < list.len() && same_planned_state(
            list[k],
            x,
        ),
        planned_position(list, x, i) is None ==> forall|k: int|
            i <= k < list.len() ==> !same_planned_state(#[trigger] list[k], x),
    decreases list.len() - i,
{
    if i < list.len() && !same_planned_state(list[i], x) {
        lemma_planned_position(list, x, i + 1);
    }
}

/// Whether the list has a state of the thread and kind of another, at least as late in the story.
pub open spec fn planned_by(list: Seq<RewriteStateUpdateView>, x: RewriteStateUpdateView) -> bool {
    exists|k: int|
        0 <= k < list.len() && trim((#[trigger] list[k]).thread_key) == trim(x.thread_key) && trim(
            list[k].state_type,
        ) == trim(x.state_type) && list[k].chapter_index >= x.chapter_index
}

proof fn lemma_all_planned(states: Seq<RewriteStateUpdateView>)
    ensures
        forall|i: int|
            0 <= i < states.len() ==> planned_by(all_planned(states), #[trigger] states[i]),
        forall|y: RewriteStateUpdateView| #[trigger]
            all_planned(states).contains(y) ==> states.contains(y),
        forall|i: int, j: int|
            0 <= i < j < all_planned(states).len() ==> !same_planned_state(
                #[trigger] all_planned(states)[i],
                #[trigger] all_planned(states)[j],
            ),
    decreases states.len(),
{
    if states.len() > 0 {
        let rest = states.drop_last();
        let x = states.last();
        let before = all_planned(rest);
        let after = all_planned(states);
        lemma_all_planned(rest);
        lemma_planned_position(before, x, 0);
        assert forall|i: int| 0 <= i < states.len() implies planned_by(
            after,
            #[trigger] states[i],
        ) by {
            match planned_position(before, x, 0) {
                Some(k) => {
                    if i < rest.len() {
                        assert(rest[i] == states[i]);
                        assert(planned_by(before, rest[i]));
                        let m = choose|m: int|
                            0 <= m < before.len() && trim((#[trigger] before[m]).thread_key) == trim(
                                rest[i].thread_key,
                            ) && trim(before[m].state_type) == trim(rest[i].state_type)
                                && before[m].chapter_index >= rest[i].chapter_index;
                        assert(trim(after[m].thread_key) == trim(states[i].thread_key));
                    } else {
                        assert(trim(after[k].thread_key) == trim(states[i].thread_key));
                    }
                },
                None => {
                    if i < rest.len() {
                        assert(rest[i] == states[i]);
                        assert(planned_by(before, rest[i]));
                        let m = choose|m: int|
                            0 <= m < before.len() && trim((#[trigger] before[m]).thread_key) == trim(
                                rest[i].thread_key,
                            ) && trim(before[m].state_type) == trim(rest[i].state_type)
                                && before[m].chapter_index >= rest[i].chapter_index;
                        assert(after[m] == before[m]);
                    } else {
                        assert(after[after.len() - 1] == x);
                    }
                },
            }
        }
        assert(rest.push(x) =~= states);
        assert forall|y: RewriteStateUpdateView| #[trigger] after.contains(y) implies states.contains(
            y,
        ) by {
            lemma_push_contains(rest, x, y);
            let m = after.index_of(y);
            if m < before.len() && after[m] == before[m] {
                assert(before.contains(y));
            } else {
                assert(y == x);
            }
        }
        assert forall|i: int, j: int| 0 <= i < j < after.len() implies !same_planned_state(
            #[trigger] after[i],
            #[trigger] after[j],
        ) by {
            match planned_position(before, x, 0) {
                Some(k) => {
                    assert(!same_planned_state(before[i], before[j]));
                    assert(same_planned_state(before[k], x));
                },
                None => {
                    if j < before.len() {
                        assert(!same_planned_state(before[i], before[j]));
                    } else {
                        assert(!same_planned_state(before[i], x));
                    }
                },
            }
        }
    }
}

/// The states that a plan sets itself come before those of its obligations: where it has any, its
/// states are taken from them alone, and of each thread and kind the latest stays.
pub proof fn law_plan_sets_its_own_states(plan: RewritePlanView)
    requires
        plan.planned_state_updates.len() > 0,
    ensures
        forall|y: RewriteStateUpdateView| #[trigger]
            canonical_states(plan).contains(y) ==> plan.planned_state_updates.contains(y),
        forall|i: int|
            0 <= i < plan.planned_state_updates.len() ==> planned_by(
                canonical_states(plan),
                #[trigger] plan.planned_state_updates[i],
            ),
{
    lemma_canonical(plan, plan.planned_state_updates);
}

proof fn lemma_canonical(plan: RewritePlanView, states: Seq<RewriteStateUpdateView>)
    requires
        canonical_states(plan) == sort_states(all_planned(states)),
    ensures
        forall|y: RewriteStateUpdateView| #[trigger]
            canonical_states(plan).contains(y) ==> states.contains(y),
        forall|i: int|
            0 <= i < states.len() ==> planned_by(canonical_states(plan), #[trigger] states[i]),
{
    lemma_all_planned(states);
    let all = all_planned(states);
    let sorted = sort_states(all);
    assert forall|y: RewriteStateUpdateView| #[trigger] sorted.contains(y) implies states.contains(
        y,
    ) by {
        law_sorted_states_are_the_states(all, y);
    }
    assert forall|i: int| 0 <= i < states.len() implies planned_by(
        sorted,
        #[trigger] states[i],
    ) by {
        assert(planned_by(all, states[i]));
        let m = choose|m: int|
            0 <= m < all.len() && trim((#[trigger] all[m]).thread_key) == trim(states[i].thread_key)
                && trim(all[m].state_type) == trim(states[i].state_type) && all[m].chapter_index
                >= states[i].chapter_index;
        assert(all.contains(all[m]));
        law_sorted_states_are_the_states(all, all[m]);
        let k = sorted.index_of(all[m]);
        assert(sorted[k] == all[m]);
    }
}

proof fn lemma_obligation_states(
    obligations: Seq<RewriteObligationView>,
    y: RewriteStateUpdateView,
)
    ensures
        obligation_states(obligations).contains(y) <==> exists|i: int|
            0 <= i < obligations.len() && (#[trigger] obligations[i]).planned_state_updates.contains(
                y,
            ),
    decreases obligations.len(),
{
    if obligations.len() > 0 {
        let rest = obligations.drop_last();
        lemma_obligation_states(rest, y);
        lemma_sum_contains(
            obligation_states(rest),
            obligations.last().planned_state_updates,
            y,
        );
        if obligation_states(rest).contains(y) {
            let i = choose|i: int|
                0 <= i < rest.len() && (#[trigger] rest[i]).planned_state_updates.contains(y);
            assert(obligations[i] == rest[i]);
        }
        if obligations.last().planned_state_updates.contains(y) {
            assert(obligations[obligations.len() - 1].planned_state_updates.contains(y));
        }
        if exists|i: int|
            0 <= i < obligations.len() && (#[trigger] obligations[i]).planned_state_updates.contains(
                y,
            ) {
            let i = choose|i: int|
                0 <= i < obligations.len() && (
                #[trigger] obligations[i]).planned_state_updates.contains(y);
            if i < rest.len() {
                assert(rest[i] == obligations[i]);
            }
        }
    } else {
        assert(!obligation_states(obligations).contains(y));
    }
}

/// A plan without states of its own sets those of its obligations: none of them is lost but to a
/// later one of its thread and kind.
pub proof fn law_plan_sets_the_states_of_its_obligations(
    plan: RewritePlanView,
    o: int,
    y: RewriteStateUpdateView,
)
    requires
        plan.planned_state_updates.len() == 0,
        0 <= o < plan.obligations.len(),
        plan.obligations[o].planned_state_updates.contains(y),
    ensures
        planned_by(canonical_states(plan), y),
{
    let states = obligation_states(plan.obligations);
    lemma_obligation_states(plan.obligations, y);
    lemma_canonical(plan, states);
    let i = states.index_of(y);
    assert(states[i] == y);
}

proof fn lemma_with_state_contains(
    list: Seq<RewriteStateUpdateView>,
    x: RewriteStateUpdateView,
    keep_later: bool,
    y: RewriteStateUpdateView,
)
    ensures
        with_state(list, x, keep_later).contains(y) ==> list.contains(y) || y == x,
        list.contains(y) && !same_state(y, x) ==> with_state(list, x, keep_later).contains(y),
        !keep_later ==> with_state(list, x, keep_later).contains(x),
{
    lemma_position_fits(list, x, 0);
    let after = with_state(list, x, keep_later);
    match state_position(list, x, 0) {
        Some(k) => {
            if after.contains(y) {
                let m = after.index_of(y);
                if after[m] == list[m] {
                    assert(list.contains(list[m]));
                }
            }
            if list.contains(y) && !same_state(y, x) {
                let m = list.index_of(y);
                assert(m != k);
                assert(after[m] == y);
            }
            if !keep_later {
                assert(after[k] == x);
            }
        },
        None => {
            lemma_push_contains(list, x, y);
            lemma_push_contains(list, x, x);
        },
    }
}

proof fn lemma_position_fits(
    list: Seq<RewriteStateUpdateView>,
    x: RewriteStateUpdateView,
    i: int,
)
    requires
        0 <= i <= list.len(),
    ensures
        state_position(list, x, i) matches Some(k) ==> i <= k < list.len() && same_state(
            list[k],
            x,
        ),
    decreases list.len() - i,
{
    if i < list.len() && !same_state(list[i], x) {
        lemma_position_fits(list, x, i + 1);
    }
}

proof fn lemma_with_states_contains(
    list: Seq<RewriteStateUpdateView>,
    more: Seq<RewriteStateUpdateView>,
    keep_later: bool,
    y: RewriteStateUpdateView,
)
    ensures
        with_states(list, more, keep_later).contains(y) ==> list.contains(y) || more.contains(y),
        list.contains(y) && (forall|i: int|
            0 <= i < more.len() ==> !same_state(y, #[trigger] more[i])) ==> with_states(
            list,
            more,
            keep_later,
        ).contains(y),
    decreases more.len(),
{
    if more.len() > 0 {
        let rest = more.drop_last();
        lemma_with_states_contains(list, rest, keep_later, y);
        lemma_with_state_contains(with_states(list, rest, keep_later), more.last(), keep_later, y);
        lemma_push_contains(rest, more.last(), y);
        assert(rest.push(more.last()) =~= more);
        if forall|i: int| 0 <= i < more.len() ==> !same_state(y, #[trigger] more[i]) {
            assert forall|i: int| 0 <= i < rest.len() implies !same_state(
                y,
                #[trigger] rest[i],
            ) by {
                assert(rest[i] == more[i]);
            }
            assert(!same_state(y, more[more.len() - 1]));
        }
    }
}

proof fn lemma_last_state_stays(existing: Seq<RewriteStateUpdateView>, i: int)
    requires
        0 <= i < existing.len(),
        forall|j: int| i < j < existing.len() ==> !same_state(existing[i], #[trigger] existing[j]),
    ensures
        with_states(Seq::empty(), existing, false).contains(existing[i]),
    decreases existing.len(),
{
    let rest = existing.drop_last();
    let before = with_states(Seq::empty(), rest, false);
    lemma_with_state_contains(before, existing.last(), false, existing[i]);
    if i < rest.len() {
        assert forall|j: int| i < j < rest.len() implies !same_state(rest[i], #[trigger] rest[j]) by {
            assert(rest[j] == existing[j]);
        }
        lemma_last_state_stays(rest, i);
        assert(!same_state(existing[i], existing[existing.len() - 1]));
    }
}

/// The states after a merge are old ones or new ones. An old state that no update is about stays
/// as it is.
pub proof fn law_merge_leaves_other_states(
    existing: Seq<RewriteStateUpdateView>,
    updates: Seq<RewriteStateUpdateView>,
    i: int,
)
    requires
        0 <= i < existing.len(),
        forall|j: int| i < j < existing.len() ==> !same_state(existing[i], #[trigger] existing[j]),
        forall|j: int| 0 <= j < updates.len() ==> !same_state(existing[i], #[trigger] updates[j]),
    ensures
        merged_states(existing, updates).contains(existing[i]),
{
    lemma_last_state_stays(existing, i);
    let start = with_states(Seq::empty(), existing, false);
    lemma_with_states_contains(start, updates, true, existing[i]);
    law_sorted_states_are_the_states(with_states(start, updates, true), existing[i]);
}

/// A merge makes up no state.
pub proof fn law_merge_adds_no_state(
    existing: Seq<RewriteStateUpdateView>,
    updates: Seq<RewriteStateUpdateView>,
    y: RewriteStateUpdateView,
)
    requires
        merged_states(existing, updates).contains(y),
    ensures
        existing.contains(y) || updates.contains(y),
{
    let start = with_states(Seq::empty(), existing, false);
    law_sorted_states_are_the_states(with_states(start, updates, true), y);
    lemma_with_states_contains(start, updates, true, y);
    lemma_with_states_contains(Seq::empty(), existing, false, y);
}

/// A state is replaced by one of its own thread and kind from the same chapter or a later one, and
/// not by one from an earlier chapter.
pub proof fn law_later_state_decides(old: RewriteStateUpdateView, new: RewriteStateUpdateView)
    requires
        old.thread_key == new.thread_key,
        old.state_type == new.state_type,
    ensures
        merged_states(seq![old], seq![new]) == if new.chapter_index >= old.chapter_index {
            seq![new]
        } else {
            seq![old]
        },
{
    reveal_with_fuel(with_states, 3);
    reveal_with_fuel(sort_states, 3);
    reveal_with_fuel(insert_state, 3);
    reveal_with_fuel(state_position, 3);
    assert(seq![old].drop_last() =~= Seq::empty());
    assert(seq![new].drop_last() =~= Seq::empty());
    let start = with_states(Seq::empty(), seq![old], false);
    assert(start =~= seq![old]);
    let all = with_states(start, seq![new], true);
    assert(all =~= if new.chapter_index >= old.chapter_index {
        seq![new]
    } else {
        seq![old]
    });
    assert(all.drop_last() =~= Seq::empty());
    assert(sort_states(all) =~= all);
}

// ---- what lets a rewrite pass ---------------------------------------------------------------
proof fn lemma_satisfied_ids(coverage: Seq<ReviewCoverageItemView>, id: Seq<char>)
    ensures
        satisfied_ids(coverage).contains(id) <==> exists|i: int|
            0 <= i < coverage.len() && (#[trigger] coverage[i]).status == "satisfied"@
                && coverage[i].obligation_id == id,
    decreases coverage.len(),
{
    if coverage.len() > 0 {
        let rest = coverage.drop_last();
        lemma_satisfied_ids(rest, id);
        lemma_push_contains(satisfied_ids(rest), coverage.last().obligation_id, id);
        if satisfied_ids(rest).contains(id) {
            let i = choose|i: int|
                0 <= i < rest.len() && (#[trigger] rest[i]).status == "satisfied"@
                    && rest[i].obligation_id == id;
            assert(coverage[i].obligation_id == id);
        }
        if coverage.last().status == "satisfied"@ && coverage.last().obligation_id == id {
            assert(coverage[coverage.len() - 1].obligation_id == id);
        }
        if exists|i: int|
            0 <= i < coverage.len() && (#[trigger] coverage[i]).status == "satisfied"@
                && coverage[i].obligation_id == id {
            let i = choose|i: int|
                0 <= i < coverage.len() && (#[trigger] coverage[i]).status == "satisfied"@
                    && coverage[i].obligation_id == id;
            if i < rest.len() {
                assert(rest[i].obligation_id == id);
            }
        }
    } else {
        assert(!satisfied_ids(coverage).contains(id));
    }
}

/// A rewrite does not pass as long as an issue is left, there are too few items or too many, or an
/// obligation has no item that is satisfied.
pub proof fn law_gate_is_shut(
    plan: RewritePlanView,
    coverage: Seq<ReviewCoverageItemView>,
    issues: Seq<ReviewIssueView>,
    o: int,
)
    requires
        issues.len() > 0 || coverage.len() != plan.obligations.len() || (0 <= o
            < plan.obligations.len() && forall|i: int|
            0 <= i < coverage.len() ==> (#[trigger] coverage[i]).status != "satisfied"@
                || coverage[i].obligation_id != plan.obligations[o].obligation_id),
    ensures
        !gate_open(plan, coverage, issues),
{
    if gate_open(plan, coverage, issues) {
        let expected = obligation_ids(plan.obligations);
        let id = plan.obligations[o].obligation_id;
        assert(expected[o] == id);
        assert(expected.to_set().contains(id));
        assert(satisfied_ids(coverage).to_set().contains(id));
        lemma_satisfied_ids(coverage, id);
    }
}

/// A rewrite passes where there is no issue and the items are the obligations, each once and each
/// satisfied.
pub proof fn law_gate_opens(
    plan: RewritePlanView,
    coverage: Seq<ReviewCoverageItemView>,
    issues: Seq<ReviewIssueView>,
)
    requires
        issues.len() == 0,
        coverage.len() == plan.obligations.len(),
        forall|i: int|
            0 <= i < coverage.len() ==> (#[trigger] coverage[i]).status == "satisfied"@
                && coverage[i].obligation_id == plan.obligations[i].obligation_id,
        forall|i: int, j: int|
            0 <= i < j < coverage.len() ==> (#[trigger] coverage[i]).obligation_id != (
            #[trigger] coverage[j]).obligation_id,
    ensures
        gate_open(plan, coverage, issues),
{
    let ids = obligation_ids(plan.obligations);
    lemma_all_satisfied(coverage);
    assert(satisfied_ids(coverage) =~= ids);
    assert forall|i: int, j: int| 0 <= i < ids.len() && 0 <= j < ids.len() && i != j implies ids[i]
        != ids[j] by {
        if i < j {
            assert(coverage[i].obligation_id != coverage[j].obligation_id);
        } else {
            assert(coverage[j].obligation_id != coverage[i].obligation_id);
        }
    }
    assert(ids.no_duplicates());
    ids.unique_seq_to_set();
}

proof fn lemma_all_satisfied(coverage: Seq<ReviewCoverageItemView>)
    requires
        forall|i: int| 0 <= i < coverage.len() ==> (#[trigger] coverage[i]).status == "satisfied"@,
    ensures
        satisfied_ids(coverage).len() == coverage.len(),
        forall|i: int|
            0 <= i < coverage.len() ==> #[trigger] satisfied_ids(coverage)[i]
                == coverage[i].obligation_id,
    decreases coverage.len(),
{
    if coverage.len() > 0 {
        let rest = coverage.drop_last();
        assert forall|i: int| 0 <= i < rest.len() implies (#[trigger] rest[i]).status
            == "satisfied"@ by {
            assert(rest[i] == coverage[i]);
        }
        lemma_all_satisfied(rest);
        assert(coverage[coverage.len() - 1].status == "satisfied"@);
    }
}

/// What is kept of a review: one record for each chapter, in order, passed exactly if the review
/// approved.
pub proof fn law_every_chapter_has_its_record(
    shard: Seq<ChapterView>,
    plan: RewritePlanView,
    approved: bool,
    coverage: Seq<ReviewCoverageItemView>,
    i: int,
)
    requires
        0 <= i < shard.len(),
    ensures
        validations(shard, plan, approved, coverage).len() == shard.len(),
        validations(shard, plan, approved, coverage)[i].chapter_id == shard[i].id,
        approved ==> validations(shard, plan, approved, coverage)[i].status == "passed"@,
        !approved ==> validations(shard, plan, approved, coverage)[i].status == "failed"@,
{
}

/// An item counts for the chapter of its obligation, and for that alone, if it is satisfied.
pub proof fn law_item_counts_for_its_chapter(
    coverage: Seq<ReviewCoverageItemView>,
    item: ReviewCoverageItemView,
    obligations: Seq<RewriteObligationView>,
    o: int,
    chapter: i64,
)
    requires
        0 <= o < obligations.len(),
        obligations[o].obligation_id == item.obligation_id,
        forall|j: int|
            0 <= j < obligations.len() && j != o ==> (#[trigger] obligations[j]).obligation_id
                != item.obligation_id,
    ensures
        satisfied_count(coverage.push(item), obligations, chapter) == satisfied_count(
            coverage,
            obligations,
            chapter,
        ) + (if item.status == "satisfied"@ && obligations[o].chapter_index == chapter {
            1nat
        } else {
            0nat
        }),
{
    lemma_obligation_chapter(obligations, item.obligation_id, o);
    assert(coverage.push(item).drop_last() =~= coverage);
}

proof fn lemma_obligation_chapter(
    obligations: Seq<RewriteObligationView>,
    id: Seq<char>,
    o: int,
)
    requires
        0 <= o < obligations.len(),
        obligations[o].obligation_id == id,
        forall|j: int|
            0 <= j < obligations.len() && j != o ==> (#[trigger] obligations[j]).obligation_id != id,
    ensures
        obligation_chapter(obligations, id) == Some(obligations[o].chapter_index),
    decreases obligations.len(),
{
    if o < obligations.len() - 1 {
        assert(obligations[obligations.len() - 1].obligation_id != id);
        lemma_obligation_chapter(obligations.drop_last(), id, o);
    }
}

/// What has to be done names every change that an obligation asks for, or else all that it keeps.
pub proof fn law_fix_names_the_changes(o: RewriteObligationView, i: int)
    ensures
        0 <= i < o.required_changes.len() ==> holds(fix_summary(o), o.required_changes[i]),
        o.required_changes.len() == 0 && 0 <= i < o.preserve.len() ==> holds(
            fix_summary(o),
            o.preserve[i],
        ),
{
    if 0 <= i < o.required_changes.len() {
        law_joined_text_holds_its_parts(o.required_changes, "；"@, i);
    }
    if o.required_changes.len() == 0 && 0 <= i < o.preserve.len() {
        let kept = join(o.preserve, "；"@);
        law_joined_text_holds_its_parts(o.preserve, "；"@, i);
        lemma_holds_inside("按原文恢复并保留："@, kept, Seq::empty());
        assert("按原文恢复并保留："@ + kept + Seq::empty() =~= fix_summary(o));
        law_holding_is_transitive(fix_summary(o), kept, o.preserve[i]);
    }
}

// ---- evidence -------------------------------------------------------------------------------
/// Evidence is looked for in the chapters that the item names and nowhere else, and none is found
/// where none is given.
pub proof fn law_evidence_comes_from_the_named_chapters(
    item: ReviewCoverageItemView,
    rewrites: Seq<ParsedChapterRewriteView>,
)
    requires
        blank(item.evidence) || (forall|i: int|
            0 <= i < rewrites.len() ==> (item.chapter_indexes.len() > 0
                && !item.chapter_indexes.contains((#[trigger] rewrites[i]).index)) || !evidence_in(
                trim(item.evidence),
                normalized(rewrites[i].title + "\n"@ + rewrites[i].text),
            )),
    ensures
        !evidence_found(item, rewrites),
{
}

/// What a fragment is: a piece of the evidence without marks and in lower case, if that has three
/// characters or more.
pub proof fn law_fragments_are_the_long_pieces(pieces: Seq<Seq<char>>, x: Seq<char>)
    ensures
        long_fragments(pieces).contains(x) <==> x.len() >= 3 && exists|i: int|
            0 <= i < pieces.len() && normalized(#[trigger] pieces[i]) == x,
    decreases pieces.len(),
{
    if pieces.len() > 0 {
        let rest = pieces.drop_last();
        law_fragments_are_the_long_pieces(rest, x);
        lemma_push_contains(long_fragments(rest), normalized(pieces.last()), x);
        if exists|i: int| 0 <= i < rest.len() && normalized(#[trigger] rest[i]) == x {
            let i = choose|i: int| 0 <= i < rest.len() && normalized(#[trigger] rest[i]) == x;
            assert(normalized(pieces[i]) == x);
        }
        if normalized(pieces.last()) == x {
            assert(normalized(pieces[pieces.len() - 1]) == x);
        }
        if exists|i: int| 0 <= i < pieces.len() && normalized(#[trigger] pieces[i]) == x {
            let i = choose|i: int| 0 <= i < pieces.len() && normalized(#[trigger] pieces[i]) == x;
            if i < rest.len() {
                assert(normalized(rest[i]) == x);
            }
        }
    } else {
        assert(!long_fragments(pieces).contains(x));
    }
}

/// What the evidence quotes, in any of four kinds of quotation marks, is a fragment of it.
pub proof fn law_quotation_is_a_fragment(
    before: Seq<char>,
    quoted: Seq<char>,
    behind: Seq<char>,
    open: char,
    close: char,
)
    requires
        (open == '“' && close == '”') || (open == '‘' && close == '’') || (open == '"' && close
            == '"') || (open == '\'' && close == '\''),
        forall|i: int| 0 <= i < before.len() ==> #[trigger] before[i] != open,
        forall|i: int| 0 <= i < quoted.len() ==> #[trigger] quoted[i] != close,
        normalized(quoted).len() >= 3,
    ensures
        quoted_fragments(before.push(open) + quoted + seq![close] + behind).contains(
            normalized(quoted),
        ),
{
    let e = before.push(open) + quoted + seq![close] + behind;
    law_quotation_is_found(before, quoted, behind, open, close);
    let a = quotations(e, '“', '”');
    let b = quotations(e, '‘', '’');
    let c = quotations(e, '"', '"');
    let d = quotations(e, '\'', '\'');
    lemma_sum_contains(a, b, quoted);
    lemma_sum_contains(a + b, c, quoted);
    lemma_sum_contains(a + b + c, d, quoted);
    let all = a + b + c + d;
    let k = all.index_of(quoted);
    assert(all[k] == quoted);
    law_fragments_are_the_long_pieces(all, normalized(quoted));
    law_sorted_texts_are_distinct(long_fragments(all), false);
}

proof fn lemma_pieces_grow(s: Seq<char>)
    ensures
        evidence_pieces(s).len() > 0,
    decreases s.len(),
{
    if s.len() > 0 {
        lemma_pieces_grow(s.drop_last());
    }
}

proof fn lemma_piece_without_end(a: Seq<char>, b: Seq<char>)
    requires
        forall|i: int| 0 <= i < b.len() ==> !ends_fragment(#[trigger] b[i]),
    ensures
        evidence_pieces(a + b) == evidence_pieces(a).drop_last().push(
            evidence_pieces(a).last() + b,
        ),
    decreases b.len(),
{
    lemma_pieces_grow(a);
    if b.len() == 0 {
        assert(a + b =~= a);
        assert(evidence_pieces(a).last() + b =~= evidence_pieces(a).last());
        assert(evidence_pieces(a).drop_last().push(evidence_pieces(a).last()) =~= evidence_pieces(
            a,
        ));
    } else {
        let rest = b.drop_last();
        assert forall|i: int| 0 <= i < rest.len() implies !ends_fragment(#[trigger] rest[i]) by {
            assert(rest[i] == b[i]);
        }
        lemma_piece_without_end(a, rest);
        assert((a + b).drop_last() =~= a + rest);
        assert(!ends_fragment(b[b.len() - 1]));
        let init = evidence_pieces(a + rest);
        assert(init.drop_last() =~= evidence_pieces(a).drop_last());
        assert((evidence_pieces(a).last() + rest).push(b.last()) =~= evidence_pieces(a).last() + b);
    }
}

proof fn lemma_pieces_stay(a: Seq<char>, c: char, b: Seq<char>)
    requires
        ends_fragment(c),
    ensures
        evidence_pieces(a.push(c) + b) == evidence_pieces(a) + evidence_pieces(b),
    decreases b.len(),
{
    lemma_pieces_grow(b);
    if b.len() == 0 {
        assert(a.push(c) + b =~= a.push(c));
        assert(a.push(c).drop_last() =~= a);
        assert(evidence_pieces(a).push(Seq::<char>::empty()) =~= evidence_pieces(a) + seq![
            Seq::<char>::empty(),
        ]);
    } else {
        let rest = b.drop_last();
        lemma_pieces_grow(rest);
        lemma_pieces_stay(a, c, rest);
        assert((a.push(c) + b).drop_last() =~= a.push(c) + rest);
        let x = evidence_pieces(a);
        let y = evidence_pieces(rest);
        assert((x + y).push(Seq::<char>::empty()) =~= x + y.push(Seq::<char>::empty()));
        assert((x + y).drop_last() =~= x + y.drop_last());
        let z = y.last().push(b.last());
        assert((x + y.drop_last()).push(z) =~= x + y.drop_last().push(z));
    }
}

/// The evidence is taken apart at each mark that ends a sentence, and only there.
pub proof fn law_evidence_parts_at_a_mark(a: Seq<char>, c: char, b: Seq<char>)
    requires
        white(c) || c == '。' || c == '！' || c == '？' || c == '!' || c == '?' || c == '；' || c == ';'
            || c == '…' || c == '⋯' || c == '.' || c == '．',
    ensures
        evidence_pieces(a.push(c) + b) == evidence_pieces(a) + evidence_pieces(b),
{
    let marks = seq!['。', '！', '？', '!', '?', '；', ';', '…', '⋯', '.', '．'];
    assert(marks[0] == '。' && marks[1] == '！' && marks[2] == '？' && marks[3] == '!' && marks[4]
        == '?' && marks[5] == '；' && marks[6] == ';' && marks[7] == '…' && marks[8] == '⋯'
        && marks[9] == '.' && marks[10] == '．');
    lemma_pieces_stay(a, c, b);
}

/// A text without such a mark is one piece.
pub proof fn law_evidence_without_a_mark_is_one_piece(s: Seq<char>)
    requires
        forall|i: int|
            0 <= i < s.len() ==> !white(#[trigger] s[i]) && s[i] != '。' && s[i] != '！' && s[i] != '？'
                && s[i] != '!' && s[i] != '?' && s[i] != '；' && s[i] != ';' && s[i] != '…' && s[i]
                != '⋯' && s[i] != '.' && s[i] != '．',
    ensures
        evidence_pieces(s) == seq![s],
{
    assert forall|i: int| 0 <= i < s.len() implies !ends_fragment(#[trigger] s[i]) by {
        let marks = seq!['。', '！', '？', '!', '?', '；', ';', '…', '⋯', '.', '．'];
        assert(marks.len() == 11);
        assert(!marks.contains(s[i]));
    }
    let none = Seq::<char>::empty();
    lemma_piece_without_end(none, s);
    assert(none + s =~= s);
    assert(evidence_pieces(none) =~= seq![none]);
    assert(seq![none].drop_last().push(none + s) =~= seq![s]);
}

/// A text that has every fragment has most of them; one that has none has not.
pub proof fn law_all_or_none_of_the_fragments(fragments: Seq<Seq<char>>, text: Seq<char>)
    ensures
        fragments.len() > 0 && (forall|i: int|
            0 <= i < fragments.len() ==> fragment_found(text, #[trigger] fragments[i]))
            ==> mostly_found(fragments, text),
        (forall|i: int|
            0 <= i < fragments.len() ==> !fragment_found(text, #[trigger] fragments[i]))
            ==> !mostly_found(fragments, text),
{
    lemma_count_all(fragments, text);
}

proof fn lemma_count_all(fragments: Seq<Seq<char>>, text: Seq<char>)
    ensures
        (forall|i: int| 0 <= i < fragments.len() ==> fragment_found(text, #[trigger] fragments[i]))
            ==> count_found(fragments, text) == fragments.len(),
        (forall|i: int|
            0 <= i < fragments.len() ==> !fragment_found(text, #[trigger] fragments[i]))
            ==> count_found(fragments, text) == 0,
    decreases fragments.len(),
{
    if fragments.len() > 0 {
        let rest = fragments.drop_last();
        lemma_count_all(rest, text);
        if forall|i: int|
            0 <= i < fragments.len() ==> fragment_found(text, #[trigger] fragments[i]) {
            assert forall|i: int| 0 <= i < rest.len() implies fragment_found(
                text,
                #[trigger] rest[i],
            ) by {
                assert(rest[i] == fragments[i]);
            }
            assert(fragment_found(text, fragments[fragments.len() - 1]));
        }
        if forall|i: int|
            0 <= i < fragments.len() ==> !fragment_found(text, #[trigger] fragments[i]) {
            assert forall|i: int| 0 <= i < rest.len() implies !fragment_found(
                text,
                #[trigger] rest[i],
            ) by {
                assert(rest[i] == fragments[i]);
            }
            assert(!fragment_found(text, fragments[fragments.len() - 1]));
        }
    }
}

/// Two fragments of which the text lacks one are not mostly found, and of three one may be missing.
pub proof fn law_two_thirds_are_enough(
    a: Seq<char>,
    b: Seq<char>,
    c: Seq<char>,
    text: Seq<char>,
)
    requires
        !fragment_found(text, c),
    ensures
        !mostly_found(seq![a, c], text),
        !mostly_found(seq![c, a], text),
        fragment_found(text, a) && fragment_found(text, b) ==> mostly_found(seq![a, b, c], text)
            && mostly_found(seq![a, c, b], text) && mostly_found(seq![c, a, b], text),
{
    reveal_with_fuel(count_found, 4);
    assert(seq![a, c].drop_last() =~= seq![a]);
    assert(seq![c, a].drop_last() =~= seq![c]);
    assert(seq![a, b, c].drop_last() =~= seq![a, b]);
    assert(seq![a, c, b].drop_last() =~= seq![a, c]);
    assert(seq![c, a, b].drop_last() =~= seq![c, a]);
    assert(seq![a, b].drop_last() =~= seq![a]);
    assert(seq![a].drop_last() =~= Seq::empty());
    assert(seq![c].drop_last() =~= Seq::empty());
}

/// A long fragment is found with one character wrong, one too many or one too few.
pub proof fn law_one_slip_is_forgiven(
    before: Seq<char>,
    part: Seq<char>,
    behind: Seq<char>,
    k: int,
    c: char,
)
    requires
        0 <= k < part.len(),
        part.len() >= 9,
    ensures
        fragment_found(before + part + behind, part),
        fragment_found(before + part.update(k, c) + behind, part),
        fragment_found(before + part.remove(k) + behind, part),
        fragment_found(before + part + behind, part.remove(k)),
{
    let n = before.len() as int;
    lemma_holds_inside(before, part, behind);
    let a = before + part.update(k, c) + behind;
    assert(a.subrange(n, n + part.len()) =~= part.update(k, c));
    assert(one_place(part.update(k, c), part));
    assert(nearly_holds(a, part)) by {
        assert(one_edit(a.subrange(n, n + part.len()), part));
    }
    let b = before + part.remove(k) + behind;
    assert(b.subrange(n, n + part.len() - 1) =~= part.remove(k));
    assert(one_removed(part, part.remove(k)));
    assert(nearly_holds(b, part)) by {
        assert(one_edit(b.subrange(n, n + part.len() - 1), part));
    }
    let d = before + part + behind;
    assert(d.subrange(n, n + part.len()) =~= part);
    assert(nearly_holds(d, part.remove(k))) by {
        assert(one_edit(d.subrange(n, n + part.len()), part.remove(k)));
    }
}

/// A short fragment is found only as it is.
pub proof fn law_short_fragment_is_found_as_it_is(text: Seq<char>, fragment: Seq<char>)
    requires
        fragment.len() < 8,
    ensures
        fragment_found(text, fragment) <==> holds(text, fragment),
{
}

/// Of eight characters or more one may be wrong; of fewer none.
pub proof fn law_eight_characters_are_long(
    before: Seq<char>,
    part: Seq<char>,
    behind: Seq<char>,
    k: int,
    c: char,
)
    requires
        0 <= k < part.len(),
        part.len() >= 8,
    ensures
        fragment_found(before + part.update(k, c) + behind, part),
{
    let n = before.len() as int;
    let a = before + part.update(k, c) + behind;
    assert(a.subrange(n, n + part.len()) =~= part.update(k, c));
    assert(one_place(part.update(k, c), part));
    assert(nearly_holds(a, part)) by {
        assert(one_edit(a.subrange(n, n + part.len()), part));
    }
}

/// Of two planned states of one thread and kind the later one stays, and of two of one chapter the
/// first.
pub proof fn law_first_state_of_a_chapter_stays(
    a: RewriteStateUpdateView,
    b: RewriteStateUpdateView,
)
    requires
        trim(a.thread_key) == trim(b.thread_key),
        trim(a.state_type) == trim(b.state_type),
    ensures
        all_planned(seq![a, b]) == if b.chapter_index > a.chapter_index {
            seq![b]
        } else {
            seq![a]
        },
{
    reveal_with_fuel(all_planned, 3);
    reveal_with_fuel(planned_position, 3);
    assert(seq![a, b].drop_last() =~= seq![a]);
    assert(seq![a].drop_last() =~= Seq::empty());
    let first = all_planned(seq![a]);
    assert(first =~= seq![a]);
    assert(planned_position(first, b, 0) == Some(0int));
    assert(all_planned(seq![a, b]) =~= if b.chapter_index > a.chapter_index {
        seq![b]
    } else {
        seq![a]
    });
}

} // verus!
