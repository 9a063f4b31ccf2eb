//! What the order of the shards is for: a shard comes after every shard that it builds on, and
//! waits for no other.
use vstd::prelude::*;
use crate::dependency::{
    all_declared, claims, declared_edges, dependency_prefixes, earliest_owner, fuzzy_owner,
    graph_edges, graph_threads, is_levels, key_threads, latest_owner, link_edges, named_owner,
    node_claimed, node_owner, obligation_claimed, obligation_owner, obligation_threads,
    plan_threads, repeated_claim, resembles, resolve, shard_order, stands_next_above, state_threads,
    threads, token_of, without_prefix, Claim, Resolution,
};
use crate::domain::{
    RewriteObligationView, RewritePlanView, RewriteStateUpdateView, SourceImpactLinkView,
    SourceImpactNodeView,
};
use crate::text::{all_ascii, holds, normalized, starts, trim, white};
use crate::text_laws::{lemma_push_contains, lemma_sum_contains, lemma_trimmed_already};

verus! {

// ---- what a plan claims ---------------------------------------------------------------------
/// Whether a plan has an obligation on a node.
pub open spec fn claims_node(plan: RewritePlanView, id: Seq<char>) -> bool {
    exists|i: int| 0 <= i < plan.obligations.len() && (#[trigger] plan.obligations[i]).node_id == id
}

/// Whether a plan has an obligation of this name.
pub open spec fn claims_obligation(plan: RewritePlanView, id: Seq<char>) -> bool {
    exists|i: int|
        0 <= i < plan.obligations.len() && (#[trigger] plan.obligations[i]).obligation_id == id
}

/// Whether one of some states belongs to a thread.
pub open spec fn advances(states: Seq<RewriteStateUpdateView>, key: Seq<char>) -> bool {
    exists|i: int| 0 <= i < states.len() && trim((#[trigger] states[i]).thread_key) == key
}

/// Whether a shard owns a thread: its plan sets a state of it, or it claims a node that the graph
/// puts on it.
pub open spec fn owns_thread(
    plans: Seq<RewritePlanView>,
    graph: Seq<SourceImpactNodeView>,
    shard: int,
    key: Seq<char>,
) -> bool {
    ||| advances(plans[shard].planned_state_updates, key)
    ||| exists|i: int|
        0 <= i < plans[shard].obligations.len() && advances(
            (#[trigger] plans[shard].obligations[i]).planned_state_updates,
            key,
        )
    ||| exists|g: int, k: int|
        0 <= g < graph.len() && claims_node(plans[shard], graph[g].node_id) && 0 <= k
            < graph[g].thread_keys.len() && trim(#[trigger] graph[g].thread_keys[k]) == key
}

proof fn lemma_claim_is_listed(plans: Seq<RewritePlanView>, a: int, i: int) -> (k: int)
    requires
        0 <= a < plans.len(),
        0 <= i < plans[a].obligations.len(),
    ensures
        0 <= k < claims(plans).len(),
        claims(plans)[k].shard == a,
        claims(plans)[k].node == plans[a].obligations[i].node_id,
        claims(plans)[k].obligation == plans[a].obligations[i].obligation_id,
    decreases plans.len(),
{
    if a == plans.len() - 1 {
        claims(plans.drop_last()).len() + i
    } else {
        lemma_claim_is_listed(plans.drop_last(), a, i)
    }
}

proof fn lemma_listed_is_claimed(plans: Seq<RewritePlanView>, k: int) -> (i: int)
    requires
        0 <= k < claims(plans).len(),
    ensures
        0 <= claims(plans)[k].shard < plans.len(),
        0 <= i < plans[claims(plans)[k].shard].obligations.len(),
        claims(plans)[k].node == plans[claims(plans)[k].shard].obligations[i].node_id,
        claims(plans)[k].obligation == plans[claims(plans)[k].shard].obligations[i].obligation_id,
    decreases plans.len(),
{
    let before = claims(plans.drop_last());
    if k < before.len() {
        lemma_listed_is_claimed(plans.drop_last(), k)
    } else {
        k - before.len()
    }
}

proof fn lemma_owner_of_node(list: Seq<Claim>, k: int)
    requires
        repeated_claim(list) is None,
        0 <= k < list.len(),
    ensures
        node_owner(list, list[k].node) == Some(list[k].shard),
        obligation_owner(list, list[k].obligation) == Some(list[k].shard),
    decreases list.len(),
{
    if k < list.len() - 1 {
        let before = list.drop_last();
        lemma_owner_of_node(before, k);
        assert(before[k] == list[k]);
    }
}

proof fn lemma_owner_claims(list: Seq<Claim>, id: Seq<char>) -> (k: (int, int))
    ensures
        node_owner(list, id) matches Some(o) ==> 0 <= k.0 < list.len() && list[k.0].node == id
            && list[k.0].shard == o,
        obligation_owner(list, id) matches Some(o) ==> 0 <= k.1 < list.len()
            && list[k.1].obligation == id && list[k.1].shard == o,
    decreases list.len(),
{
    if list.len() == 0 {
        (0, 0)
    } else {
        let rest = lemma_owner_claims(list.drop_last(), id);
        (
            if list.last().node == id {
                list.len() - 1
            } else {
                rest.0
            },
            if list.last().obligation == id {
                list.len() - 1
            } else {
                rest.1
            },
        )
    }
}

proof fn lemma_node_owner(plans: Seq<RewritePlanView>, a: int, id: Seq<char>)
    requires
        repeated_claim(claims(plans)) is None,
        0 <= a < plans.len(),
    ensures
        claims_node(plans[a], id) <==> node_owner(claims(plans), id) == Some(a),
        claims_obligation(plans[a], id) <==> obligation_owner(claims(plans), id) == Some(a),
{
    let list = claims(plans);
    if claims_node(plans[a], id) {
        let i = choose|i: int|
            0 <= i < plans[a].obligations.len() && (#[trigger] plans[a].obligations[i]).node_id
                == id;
        let k = lemma_claim_is_listed(plans, a, i);
        lemma_owner_of_node(list, k);
    }
    if claims_obligation(plans[a], id) {
        let i = choose|i: int|
            0 <= i < plans[a].obligations.len() && (
            #[trigger] plans[a].obligations[i]).obligation_id == id;
        let k = lemma_claim_is_listed(plans, a, i);
        lemma_owner_of_node(list, k);
    }
    let k = lemma_owner_claims(list, id);
    if node_owner(list, id) == Some(a) {
        let i = lemma_listed_is_claimed(plans, k.0);
        assert(plans[a].obligations[i].node_id == id);
    }
    if obligation_owner(list, id) == Some(a) {
        let i = lemma_listed_is_claimed(plans, k.1);
        assert(plans[a].obligations[i].obligation_id == id);
    }
}

proof fn lemma_repeated_is_seen(list: Seq<Claim>, i: int, j: int)
    requires
        0 <= i < j < list.len(),
        list[i].node == list[j].node || list[i].obligation == list[j].obligation,
    ensures
        repeated_claim(list) is Some,
    decreases list.len(),
{
    let before = list.drop_last();
    if j < list.len() - 1 {
        lemma_repeated_is_seen(before, i, j);
    } else {
        assert(before[i] == list[i]);
        if list[i].node == list[j].node {
            assert(node_claimed(before, list.last().node));
        } else {
            assert(obligation_claimed(before, list.last().obligation));
        }
    }
}

/// Plans that claim one node or one obligation twice are refused, be it in one shard or in two.
pub proof fn law_shared_claims_are_refused(
    plans: Seq<RewritePlanView>,
    graph: Seq<SourceImpactNodeView>,
    a: int,
    i: int,
    b: int,
    j: int,
)
    requires
        0 <= a < plans.len(),
        0 <= b < plans.len(),
        0 <= i < plans[a].obligations.len(),
        0 <= j < plans[b].obligations.len(),
        (a, i) != (b, j),
        plans[a].obligations[i].node_id == plans[b].obligations[j].node_id
            || plans[a].obligations[i].obligation_id == plans[b].obligations[j].obligation_id,
    ensures
        shard_order(plans, graph) is Err,
{
    let list = claims(plans);
    let k = lemma_place_of_claim(plans, a, i);
    let l = lemma_place_of_claim(plans, b, j);
    lemma_places_differ(plans, a, i, b, j);
    if k < l {
        lemma_repeated_is_seen(list, k, l);
    } else {
        lemma_repeated_is_seen(list, l, k);
    }
}

spec fn claims_before(plans: Seq<RewritePlanView>, a: int) -> int {
    claims(plans.take(a)).len() as int
}

proof fn lemma_place_of_claim(plans: Seq<RewritePlanView>, a: int, i: int) -> (k: int)
    requires
        0 <= a < plans.len(),
        0 <= i < plans[a].obligations.len(),
    ensures
        k == claims_before(plans, a) + i,
        0 <= k < claims(plans).len(),
        claims(plans)[k].shard == a,
        claims(plans)[k].node == plans[a].obligations[i].node_id,
        claims(plans)[k].obligation == plans[a].obligations[i].obligation_id,
    decreases plans.len(),
{
    if a == plans.len() - 1 {
        assert(plans.take(a) =~= plans.drop_last());
        claims_before(plans, a) + i
    } else {
        let k = lemma_place_of_claim(plans.drop_last(), a, i);
        assert(plans.drop_last().take(a) =~= plans.take(a));
        k
    }
}

proof fn lemma_claims_grow(plans: Seq<RewritePlanView>, a: int, b: int)
    requires
        0 <= a < b <= plans.len(),
    ensures
        claims_before(plans, a) + plans[a].obligations.len() <= claims_before(plans, b),
    decreases b,
{
    assert(plans.take(b).drop_last() =~= plans.take(b - 1));
    assert(plans.take(b).last() == plans[b - 1]);
    if a < b - 1 {
        lemma_claims_grow(plans, a, b - 1);
    }
}

proof fn lemma_places_differ(plans: Seq<RewritePlanView>, a: int, i: int, b: int, j: int)
    requires
        0 <= a < plans.len(),
        0 <= b < plans.len(),
        0 <= i < plans[a].obligations.len(),
        0 <= j < plans[b].obligations.len(),
        (a, i) != (b, j),
    ensures
        claims_before(plans, a) + i != claims_before(plans, b) + j,
{
    if a < b {
        lemma_claims_grow(plans, a, b);
    } else if b < a {
        lemma_claims_grow(plans, b, a);
    }
}

// ---- links of the story ---------------------------------------------------------------------
proof fn lemma_link_edges(
    list: Seq<Claim>,
    source: int,
    links: Seq<SourceImpactLinkView>,
    e: (int, int),
)
    ensures
        link_edges(list, source, links).contains(e) <==> e.0 == source && e.0 != e.1 && exists|l: int|
            0 <= l < links.len() && node_owner(list, (#[trigger] links[l]).target) == Some(e.1),
    decreases links.len(),
{
    if links.len() > 0 {
        let before = links.drop_last();
        lemma_link_edges(list, source, before, e);
        if exists|l: int|
            0 <= l < links.len() && node_owner(list, (#[trigger] links[l]).target) == Some(e.1) {
            let l = choose|l: int|
                0 <= l < links.len() && node_owner(list, (#[trigger] links[l]).target) == Some(e.1);
            if l < before.len() {
                assert(before[l] == links[l]);
            }
        }
        if exists|l: int|
            0 <= l < before.len() && node_owner(list, (#[trigger] before[l]).target) == Some(
                e.1,
            ) {
            let l = choose|l: int|
                0 <= l < before.len() && node_owner(list, (#[trigger] before[l]).target) == Some(
                    e.1,
                );
            assert(links[l] == before[l]);
        }
        if node_owner(list, links.last().target) == Some(e.1) {
            assert(links[links.len() - 1] == links.last());
        }
    }
}

proof fn lemma_graph_edges(list: Seq<Claim>, graph: Seq<SourceImpactNodeView>, e: (int, int))
    ensures
        graph_edges(list, graph).contains(e) <==> exists|g: int|
            0 <= g < graph.len() && node_owner(list, (#[trigger] graph[g]).node_id) == Some(e.0)
                && link_edges(list, e.0, graph[g].links).contains(e),
    decreases graph.len(),
{
    if graph.len() > 0 {
        let before = graph.drop_last();
        lemma_graph_edges(list, before, e);
        let last = graph.last();
        if node_owner(list, last.node_id) is Some {
            lemma_link_edges(list, node_owner(list, last.node_id)->0, last.links, e);
        }
        if exists|g: int|
            0 <= g < graph.len() && node_owner(list, (#[trigger] graph[g]).node_id) == Some(e.0)
                && link_edges(list, e.0, graph[g].links).contains(e) {
            let g = choose|g: int|
                0 <= g < graph.len() && node_owner(list, (#[trigger] graph[g]).node_id) == Some(
                    e.0,
                ) && link_edges(list, e.0, graph[g].links).contains(e);
            if g < before.len() {
                assert(before[g] == graph[g]);
            }
        }
        if exists|g: int|
            0 <= g < before.len() && node_owner(list, (#[trigger] before[g]).node_id) == Some(e.0)
                && link_edges(list, e.0, before[g].links).contains(e) {
            let g = choose|g: int|
                0 <= g < before.len() && node_owner(list, (#[trigger] before[g]).node_id) == Some(
                    e.0,
                ) && link_edges(list, e.0, before[g].links).contains(e);
            assert(graph[g] == before[g]);
        }
        if node_owner(list, last.node_id) == Some(e.0) && link_edges(list, e.0, last.links).contains(
            e,
        ) {
            assert(graph[graph.len() - 1] == last);
        }
    }
}

/// Whether a node that one shard claims leads to a node that another one claims.
pub open spec fn leads_to(
    plans: Seq<RewritePlanView>,
    graph: Seq<SourceImpactNodeView>,
    a: int,
    b: int,
) -> bool {
    exists|g: int, l: int|
        0 <= g < graph.len() && 0 <= l < graph[g].links.len() && claims_node(
            plans[a],
            graph[g].node_id,
        ) && claims_node(plans[b], (#[trigger] graph[g].links[l]).target)
}

proof fn lemma_link_is_edge(
    plans: Seq<RewritePlanView>,
    graph: Seq<SourceImpactNodeView>,
    a: int,
    b: int,
)
    requires
        repeated_claim(claims(plans)) is None,
        0 <= a < plans.len(),
        0 <= b < plans.len(),
    ensures
        graph_edges(claims(plans), graph).contains((a, b)) <==> a != b && leads_to(
            plans,
            graph,
            a,
            b,
        ),
{
    let list = claims(plans);
    lemma_graph_edges(list, graph, (a, b));
    if graph_edges(list, graph).contains((a, b)) {
        let g = choose|g: int|
            0 <= g < graph.len() && node_owner(list, (#[trigger] graph[g]).node_id) == Some(a)
                && link_edges(list, a, graph[g].links).contains((a, b));
        lemma_link_edges(list, a, graph[g].links, (a, b));
        let l = choose|l: int|
            0 <= l < graph[g].links.len() && node_owner(
                list,
                (#[trigger] graph[g].links[l]).target,
            ) == Some(b);
        lemma_node_owner(plans, a, graph[g].node_id);
        lemma_node_owner(plans, b, graph[g].links[l].target);
    }
    if a != b && leads_to(plans, graph, a, b) {
        let (g, l) = choose|g: int, l: int|
            0 <= g < graph.len() && 0 <= l < graph[g].links.len() && claims_node(
                plans[a],
                graph[g].node_id,
            ) && claims_node(plans[b], (#[trigger] graph[g].links[l]).target);
        lemma_node_owner(plans, a, graph[g].node_id);
        lemma_node_owner(plans, b, graph[g].links[l].target);
        lemma_link_edges(list, a, graph[g].links, (a, b));
        assert(graph[g].links[l] == graph[g].links[l]);
        assert(link_edges(list, a, graph[g].links).contains((a, b)));
        assert(node_owner(list, graph[g].node_id) == Some(a));
    }
}

/// Where a node that one shard claims leads to a node that another one claims, the first shard
/// stands on a lower level than the second, whichever comes first in the book.
pub proof fn law_links_order_the_shards(
    plans: Seq<RewritePlanView>,
    graph: Seq<SourceImpactNodeView>,
    levels: Seq<usize>,
    a: int,
    b: int,
)
    requires
        shard_order(plans, graph) is Ok,
        is_levels(shard_order(plans, graph)->Ok_0, levels),
        levels.len() == plans.len(),
        0 <= a < plans.len(),
        0 <= b < plans.len(),
        a != b,
        leads_to(plans, graph, a, b),
    ensures
        levels[a] < levels[b],
{
    lemma_link_is_edge(plans, graph, a, b);
    assert(shard_order(plans, graph)->Ok_0.contains((a, b)));
}

// ---- declared dependencies ------------------------------------------------------------------
proof fn lemma_declared_of_shard(
    list: Seq<Claim>,
    owners: Seq<(Seq<char>, int)>,
    shard: int,
    total: int,
    dependencies: Seq<Seq<char>>,
    e: (int, int),
)
    requires
        declared_edges(list, owners, shard, total, dependencies) is Ok,
    ensures
        declared_edges(list, owners, shard, total, dependencies)->Ok_0.contains(e) <==> e.1
            == shard && exists|d: int|
            0 <= d < dependencies.len() && (resolve(
                list,
                owners,
                shard,
                total,
                #[trigger] dependencies[d],
            ) matches Resolution::After(before) && before.contains(e.0)),
        forall|d: int|
            0 <= d < dependencies.len() ==> !(resolve(
                list,
                owners,
                shard,
                total,
                #[trigger] dependencies[d],
            ) is Empty) && !(resolve(list, owners, shard, total, dependencies[d]) is Unknown),
    decreases dependencies.len(),
{
    if dependencies.len() > 0 {
        let rest = dependencies.drop_last();
        lemma_declared_of_shard(list, owners, shard, total, rest, e);
        let all = declared_edges(list, owners, shard, total, dependencies)->Ok_0;
        let earlier = declared_edges(list, owners, shard, total, rest)->Ok_0;
        assert forall|d: int| 0 <= d < dependencies.len() implies !(resolve(
            list,
            owners,
            shard,
            total,
            #[trigger] dependencies[d],
        ) is Empty) && !(resolve(list, owners, shard, total, dependencies[d]) is Unknown) by {
            if d < rest.len() {
                assert(rest[d] == dependencies[d]);
            }
        }
        if e.1 == shard && exists|d: int|
            0 <= d < dependencies.len() && (resolve(
                list,
                owners,
                shard,
                total,
                #[trigger] dependencies[d],
            ) matches Resolution::After(before) && before.contains(e.0)) {
            let d = choose|d: int|
                0 <= d < dependencies.len() && (resolve(
                    list,
                    owners,
                    shard,
                    total,
                    #[trigger] dependencies[d],
                ) matches Resolution::After(before) && before.contains(e.0));
            if d < rest.len() {
                assert(rest[d] == dependencies[d]);
                assert(earlier.contains(e));
            }
            assert(all.contains(e));
        }
        if all.contains(e) {
            if earlier.contains(e) {
                let d = choose|d: int|
                    0 <= d < rest.len() && (resolve(
                        list,
                        owners,
                        shard,
                        total,
                        #[trigger] rest[d],
                    ) matches Resolution::After(before) && before.contains(e.0));
                assert(dependencies[d] == rest[d]);
            } else {
                assert(dependencies[dependencies.len() - 1] == dependencies.last());
            }
        }
    }
}

proof fn lemma_all_declared(
    list: Seq<Claim>,
    owners: Seq<(Seq<char>, int)>,
    plans: Seq<RewritePlanView>,
    n: int,
    e: (int, int),
)
    requires
        0 <= n <= plans.len(),
        all_declared(list, owners, plans, n) is Ok,
    ensures
        all_declared(list, owners, plans, n)->Ok_0.contains(e) <==> 0 <= e.1 < n && exists|d: int|
            0 <= d < plans[e.1].cross_shard_dependencies.len() && (resolve(
                list,
                owners,
                e.1,
                plans.len() as int,
                #[trigger] plans[e.1].cross_shard_dependencies[d],
            ) matches Resolution::After(before) && before.contains(e.0)),
        forall|s: int, d: int|
            0 <= s < n && 0 <= d < plans[s].cross_shard_dependencies.len() ==> !(resolve(
                list,
                owners,
                s,
                plans.len() as int,
                #[trigger] plans[s].cross_shard_dependencies[d],
            ) is Empty) && !(resolve(
                list,
                owners,
                s,
                plans.len() as int,
                plans[s].cross_shard_dependencies[d],
            ) is Unknown),
    decreases n,
{
    if n > 0 {
        lemma_all_declared(list, owners, plans, n - 1, e);
        lemma_declared_of_shard(
            list,
            owners,
            n - 1,
            plans.len() as int,
            plans[n - 1].cross_shard_dependencies,
            e,
        );
    }
}

/// What a declared dependency comes to is what the shard waits for.
proof fn lemma_resolved_is_kept(
    plans: Seq<RewritePlanView>,
    graph: Seq<SourceImpactNodeView>,
    levels: Seq<usize>,
    a: int,
    shard: int,
    d: int,
)
    requires
        shard_order(plans, graph) is Ok,
        is_levels(shard_order(plans, graph)->Ok_0, levels),
        levels.len() == plans.len(),
        0 <= a < plans.len(),
        0 <= shard < plans.len(),
        0 <= d < plans[shard].cross_shard_dependencies.len(),
        resolve(
            claims(plans),
            threads(plans, graph),
            shard,
            plans.len() as int,
            plans[shard].cross_shard_dependencies[d],
        ) matches Resolution::After(before) && before.contains(a),
    ensures
        levels[a] < levels[shard],
{
    let list = claims(plans);
    let owners = threads(plans, graph);
    lemma_all_declared(list, owners, plans, plans.len() as int, (a, shard));
    let raw = plans[shard].cross_shard_dependencies[d];
    assert(all_declared(list, owners, plans, plans.len() as int)->Ok_0.contains((a, shard)));
    assert(shard_order(plans, graph)->Ok_0.contains((a, shard)));
}

proof fn lemma_state_threads(states: Seq<RewriteStateUpdateView>, shard: int, x: (Seq<char>, int))
    ensures
        state_threads(states, shard).contains(x) <==> x.1 == shard && x.0.len() > 0 && advances(
            states,
            x.0,
        ),
    decreases states.len(),
{
    if states.len() > 0 {
        let rest = states.drop_last();
        lemma_state_threads(rest, shard, x);
        let added = (trim(states.last().thread_key), shard);
        lemma_push_contains(state_threads(rest, shard), added, x);
        if advances(states, x.0) {
            let i = choose|i: int|
                0 <= i < states.len() && trim((#[trigger] states[i]).thread_key) == x.0;
            if i < rest.len() {
                assert(rest[i] == states[i]);
            }
        }
        if advances(rest, x.0) {
            let i = choose|i: int|
                0 <= i < rest.len() && trim((#[trigger] rest[i]).thread_key) == x.0;
            assert(states[i] == rest[i]);
        }
        assert(states[states.len() - 1] == states.last());
    }
}

proof fn lemma_obligation_threads(
    obligations: Seq<RewriteObligationView>,
    shard: int,
    x: (Seq<char>, int),
)
    ensures
        obligation_threads(obligations, shard).contains(x) <==> x.1 == shard && x.0.len() > 0
            && exists|i: int|
            0 <= i < obligations.len() && advances(
                (#[trigger] obligations[i]).planned_state_updates,
                x.0,
            ),
    decreases obligations.len(),
{
    if obligations.len() > 0 {
        let rest = obligations.drop_last();
        lemma_obligation_threads(rest, shard, x);
        lemma_state_threads(obligations.last().planned_state_updates, shard, x);
        lemma_sum_contains(
            obligation_threads(rest, shard),
            state_threads(obligations.last().planned_state_updates, shard),
            x,
        );
        if exists|i: int|
            0 <= i < obligations.len() && advances(
                (#[trigger] obligations[i]).planned_state_updates,
                x.0,
            ) {
            let i = choose|i: int|
                0 <= i < obligations.len() && advances(
                    (#[trigger] obligations[i]).planned_state_updates,
                    x.0,
                );
            if i < rest.len() {
                assert(rest[i] == obligations[i]);
            }
        }
        if exists|i: int|
            0 <= i < rest.len() && advances((#[trigger] rest[i]).planned_state_updates, x.0) {
            let i = choose|i: int|
                0 <= i < rest.len() && advances((#[trigger] rest[i]).planned_state_updates, x.0);
            assert(obligations[i] == rest[i]);
        }
        assert(obligations[obligations.len() - 1] == obligations.last());
    }
}

/// Whether the plan of a shard sets a state of a thread.
spec fn plan_owns(plan: RewritePlanView, key: Seq<char>) -> bool {
    ||| advances(plan.planned_state_updates, key)
    ||| exists|i: int|
        0 <= i < plan.obligations.len() && advances(
            (#[trigger] plan.obligations[i]).planned_state_updates,
            key,
        )
}

proof fn lemma_plan_threads(plans: Seq<RewritePlanView>, x: (Seq<char>, int))
    ensures
        plan_threads(plans).contains(x) <==> 0 <= x.1 < plans.len() && x.0.len() > 0 && plan_owns(
            plans[x.1],
            x.0,
        ),
    decreases plans.len(),
{
    if plans.len() > 0 {
        let rest = plans.drop_last();
        let shard = plans.len() - 1;
        let last = plans.last();
        lemma_plan_threads(rest, x);
        lemma_obligation_threads(last.obligations, shard, x);
        lemma_state_threads(last.planned_state_updates, shard, x);
        lemma_sum_contains(
            plan_threads(rest),
            obligation_threads(last.obligations, shard),
            x,
        );
        lemma_sum_contains(
            plan_threads(rest) + obligation_threads(last.obligations, shard),
            state_threads(last.planned_state_updates, shard),
            x,
        );
        if 0 <= x.1 < rest.len() {
            assert(rest[x.1] == plans[x.1]);
        }
    }
}

proof fn lemma_key_threads(keys: Seq<Seq<char>>, shard: int, x: (Seq<char>, int))
    ensures
        key_threads(keys, shard).contains(x) <==> x.1 == shard && x.0.len() > 0 && exists|k: int|
            0 <= k < keys.len() && trim(#[trigger] keys[k]) == x.0,
    decreases keys.len(),
{
    if keys.len() > 0 {
        let rest = keys.drop_last();
        lemma_key_threads(rest, shard, x);
        lemma_push_contains(key_threads(rest, shard), (trim(keys.last()), shard), x);
        if exists|k: int| 0 <= k < keys.len() && trim(#[trigger] keys[k]) == x.0 {
            let k = choose|k: int| 0 <= k < keys.len() && trim(#[trigger] keys[k]) == x.0;
            if k < rest.len() {
                assert(rest[k] == keys[k]);
            }
        }
        if exists|k: int| 0 <= k < rest.len() && trim(#[trigger] rest[k]) == x.0 {
            let k = choose|k: int| 0 <= k < rest.len() && trim(#[trigger] rest[k]) == x.0;
            assert(keys[k] == rest[k]);
        }
        assert(keys[keys.len() - 1] == keys.last());
    }
}

/// Whether the graph puts a node that a shard claims on a thread.
spec fn graph_owns(
    list: Seq<Claim>,
    graph: Seq<SourceImpactNodeView>,
    shard: int,
    key: Seq<char>,
) -> bool {
    exists|g: int, k: int|
        0 <= g < graph.len() && node_owner(list, graph[g].node_id) == Some(shard) && 0 <= k
            < graph[g].thread_keys.len() && trim(#[trigger] graph[g].thread_keys[k]) == key
}

proof fn lemma_graph_threads(graph: Seq<SourceImpactNodeView>, list: Seq<Claim>, x: (Seq<char>, int))
    ensures
        graph_threads(graph, list).contains(x) <==> x.0.len() > 0 && graph_owns(
            list,
            graph,
            x.1,
            x.0,
        ),
    decreases graph.len(),
{
    if graph.len() > 0 {
        let rest = graph.drop_last();
        let last = graph.last();
        lemma_graph_threads(rest, list, x);
        if node_owner(list, last.node_id) is Some {
            let owner = node_owner(list, last.node_id)->0;
            lemma_key_threads(last.thread_keys, owner, x);
            lemma_sum_contains(graph_threads(rest, list), key_threads(last.thread_keys, owner), x);
        }
        if graph_owns(list, graph, x.1, x.0) {
            let (g, k) = choose|g: int, k: int|
                0 <= g < graph.len() && node_owner(list, graph[g].node_id) == Some(x.1) && 0 <= k
                    < graph[g].thread_keys.len() && trim(#[trigger] graph[g].thread_keys[k]) == x.0;
            if g < rest.len() {
                assert(rest[g] == graph[g]);
                assert(trim(rest[g].thread_keys[k]) == x.0);
            } else {
                assert(trim(last.thread_keys[k]) == x.0);
            }
        }
        if graph_owns(list, rest, x.1, x.0) {
            let (g, k) = choose|g: int, k: int|
                0 <= g < rest.len() && node_owner(list, rest[g].node_id) == Some(x.1) && 0 <= k
                    < rest[g].thread_keys.len() && trim(#[trigger] rest[g].thread_keys[k]) == x.0;
            assert(trim(graph[g].thread_keys[k]) == x.0);
        }
        if node_owner(list, last.node_id) == Some(x.1) && exists|k: int|
            0 <= k < last.thread_keys.len() && trim(#[trigger] last.thread_keys[k]) == x.0 {
            let k = choose|k: int|
                0 <= k < last.thread_keys.len() && trim(#[trigger] last.thread_keys[k]) == x.0;
            assert(trim(graph[graph.len() - 1].thread_keys[k]) == x.0);
        }
    }
}

/// The list of threads says which shard owns which.
proof fn lemma_threads(
    plans: Seq<RewritePlanView>,
    graph: Seq<SourceImpactNodeView>,
    shard: int,
    key: Seq<char>,
)
    requires
        repeated_claim(claims(plans)) is None,
        0 <= shard < plans.len(),
        key.len() > 0,
    ensures
        threads(plans, graph).contains((key, shard)) <==> owns_thread(plans, graph, shard, key),
{
    let list = claims(plans);
    lemma_plan_threads(plans, (key, shard));
    lemma_graph_threads(graph, list, (key, shard));
    lemma_sum_contains(plan_threads(plans), graph_threads(graph, list), (key, shard));
    if graph_owns(list, graph, shard, key) {
        let (g, k) = choose|g: int, k: int|
            0 <= g < graph.len() && node_owner(list, graph[g].node_id) == Some(shard) && 0 <= k
                < graph[g].thread_keys.len() && trim(#[trigger] graph[g].thread_keys[k]) == key;
        lemma_node_owner(plans, shard, graph[g].node_id);
        assert(trim(graph[g].thread_keys[k]) == key);
    }
    if exists|g: int, k: int|
        0 <= g < graph.len() && claims_node(plans[shard], graph[g].node_id) && 0 <= k
            < graph[g].thread_keys.len() && trim(#[trigger] graph[g].thread_keys[k]) == key {
        let (g, k) = choose|g: int, k: int|
            0 <= g < graph.len() && claims_node(plans[shard], graph[g].node_id) && 0 <= k
                < graph[g].thread_keys.len() && trim(#[trigger] graph[g].thread_keys[k]) == key;
        lemma_node_owner(plans, shard, graph[g].node_id);
        assert(trim(graph[g].thread_keys[k]) == key);
    }
}

proof fn lemma_latest(owners: Seq<(Seq<char>, int)>, key: Seq<char>, bound: int)
    ensures
        match latest_owner(owners, key, bound) {
            Some(o) => 0 <= o < bound && owners.contains((key, o)) && forall|u: int|
                o < u < bound ==> !#[trigger] owners.contains((key, u)),
            None => forall|u: int| 0 <= u < bound ==> !#[trigger] owners.contains((key, u)),
        },
    decreases bound,
{
    if bound > 0 && !owners.contains((key, bound - 1)) {
        lemma_latest(owners, key, bound - 1);
    }
}

/// Whether no shard claims a node or an obligation of this name.
pub open spec fn claimed_by_none(plans: Seq<RewritePlanView>, id: Seq<char>) -> bool {
    forall|s: int|
        0 <= s < plans.len() ==> !claims_node(#[trigger] plans[s], id) && !claims_obligation(
            plans[s],
            id,
        )
}

proof fn lemma_claimed_by_none(plans: Seq<RewritePlanView>, id: Seq<char>)
    requires
        claimed_by_none(plans, id),
    ensures
        named_owner(claims(plans), id) is None,
{
    let list = claims(plans);
    let k = lemma_owner_claims(list, id);
    if node_owner(list, id) is Some {
        let i = lemma_listed_is_claimed(plans, k.0);
        let s = list[k.0].shard;
        assert(plans[s].obligations[i].node_id == id);
        assert(claims_node(plans[s], id));
    }
    if obligation_owner(list, id) is Some {
        let i = lemma_listed_is_claimed(plans, k.1);
        let s = list[k.1].shard;
        assert(plans[s].obligations[i].obligation_id == id);
        assert(claims_obligation(plans[s], id));
    }
}

/// A shard that declares a dependency on a node of another shard comes after that shard, unless
/// the name is also that of a thread of its own.
pub proof fn law_declared_node_comes_first(
    plans: Seq<RewritePlanView>,
    graph: Seq<SourceImpactNodeView>,
    levels: Seq<usize>,
    a: int,
    shard: int,
    d: int,
)
    requires
        shard_order(plans, graph) is Ok,
        is_levels(shard_order(plans, graph)->Ok_0, levels),
        levels.len() == plans.len(),
        0 <= a < plans.len(),
        0 <= shard < plans.len(),
        a != shard,
        0 <= d < plans[shard].cross_shard_dependencies.len(),
        claims_node(plans[a], token_of(plans[shard].cross_shard_dependencies[d])),
        !owns_thread(plans, graph, shard, token_of(plans[shard].cross_shard_dependencies[d])),
    ensures
        levels[a] < levels[shard],
{
    let list = claims(plans);
    let owners = threads(plans, graph);
    let token = token_of(plans[shard].cross_shard_dependencies[d]);
    lemma_all_declared(list, owners, plans, plans.len() as int, (a, shard));
    let raw = plans[shard].cross_shard_dependencies[d];
    assert(!(resolve(list, owners, shard, plans.len() as int, raw) is Empty));
    lemma_node_owner(plans, a, token);
    lemma_threads(plans, graph, shard, token);
    lemma_resolved_is_kept(plans, graph, levels, a, shard, d);
}

/// A shard that declares a dependency on an obligation of another shard, where no node has that
/// name, comes after that shard, unless the name is also that of a thread of its own.
pub proof fn law_declared_obligation_comes_first(
    plans: Seq<RewritePlanView>,
    graph: Seq<SourceImpactNodeView>,
    levels: Seq<usize>,
    a: int,
    shard: int,
    d: int,
)
    requires
        shard_order(plans, graph) is Ok,
        is_levels(shard_order(plans, graph)->Ok_0, levels),
        levels.len() == plans.len(),
        0 <= a < plans.len(),
        0 <= shard < plans.len(),
        a != shard,
        0 <= d < plans[shard].cross_shard_dependencies.len(),
        claims_obligation(plans[a], token_of(plans[shard].cross_shard_dependencies[d])),
        forall|s: int|
            0 <= s < plans.len() ==> !claims_node(
                #[trigger] plans[s],
                token_of(plans[shard].cross_shard_dependencies[d]),
            ),
        !owns_thread(plans, graph, shard, token_of(plans[shard].cross_shard_dependencies[d])),
    ensures
        levels[a] < levels[shard],
{
    let list = claims(plans);
    let owners = threads(plans, graph);
    let token = token_of(plans[shard].cross_shard_dependencies[d]);
    lemma_all_declared(list, owners, plans, plans.len() as int, (a, shard));
    let raw = plans[shard].cross_shard_dependencies[d];
    assert(!(resolve(list, owners, shard, plans.len() as int, raw) is Empty));
    lemma_node_owner(plans, a, token);
    let k = lemma_owner_claims(list, token);
    if node_owner(list, token) is Some {
        let i = lemma_listed_is_claimed(plans, k.0);
        let s = list[k.0].shard;
        assert(plans[s].obligations[i].node_id == token);
        assert(claims_node(plans[s], token));
    }
    lemma_threads(plans, graph, shard, token);
    lemma_resolved_is_kept(plans, graph, levels, a, shard, d);
}

/// A shard that declares a dependency on a thread comes after the nearest earlier shard that owns
/// the thread.
pub proof fn law_declared_thread_comes_first(
    plans: Seq<RewritePlanView>,
    graph: Seq<SourceImpactNodeView>,
    levels: Seq<usize>,
    a: int,
    shard: int,
    d: int,
)
    requires
        shard_order(plans, graph) is Ok,
        is_levels(shard_order(plans, graph)->Ok_0, levels),
        levels.len() == plans.len(),
        0 <= a < shard < plans.len(),
        0 <= d < plans[shard].cross_shard_dependencies.len(),
        claimed_by_none(plans, token_of(plans[shard].cross_shard_dependencies[d])),
        owns_thread(plans, graph, a, token_of(plans[shard].cross_shard_dependencies[d])),
        forall|u: int|
            a < u < shard ==> !#[trigger] owns_thread(
                plans,
                graph,
                u,
                token_of(plans[shard].cross_shard_dependencies[d]),
            ),
    ensures
        levels[a] < levels[shard],
{
    let list = claims(plans);
    let owners = threads(plans, graph);
    let token = token_of(plans[shard].cross_shard_dependencies[d]);
    lemma_all_declared(list, owners, plans, plans.len() as int, (a, shard));
    let raw = plans[shard].cross_shard_dependencies[d];
    assert(!(resolve(list, owners, shard, plans.len() as int, raw) is Empty));
    lemma_claimed_by_none(plans, token);
    lemma_threads(plans, graph, a, token);
    lemma_latest(owners, token, shard);
    let o = latest_owner(owners, token, shard)->0;
    if o > a {
        lemma_threads(plans, graph, o, token);
    }
    assert(o == a);
    lemma_resolved_is_kept(plans, graph, levels, a, shard, d);
}

/// A shard that declares a dependency on a thread under a name that no thread has comes after
/// every earlier shard that owns a thread whose name holds that name, or stands in it; and where
/// there is none, after all earlier shards.
pub proof fn law_unknown_thread_is_waited_for(
    plans: Seq<RewritePlanView>,
    graph: Seq<SourceImpactNodeView>,
    levels: Seq<usize>,
    a: int,
    shard: int,
    d: int,
)
    requires
        shard_order(plans, graph) is Ok,
        is_levels(shard_order(plans, graph)->Ok_0, levels),
        levels.len() == plans.len(),
        0 <= a < shard < plans.len(),
        0 <= d < plans[shard].cross_shard_dependencies.len(),
        claimed_by_none(plans, token_of(plans[shard].cross_shard_dependencies[d])),
        forall|u: int|
            0 <= u < plans.len() ==> !#[trigger] owns_thread(
                plans,
                graph,
                u,
                token_of(plans[shard].cross_shard_dependencies[d]),
            ),
        names_like(plans, graph, a, token_of(plans[shard].cross_shard_dependencies[d])) || forall|
            u: int,
        |
            0 <= u < shard ==> !#[trigger] names_like(
                plans,
                graph,
                u,
                token_of(plans[shard].cross_shard_dependencies[d]),
            ),
    ensures
        levels[a] < levels[shard],
{
    let list = claims(plans);
    let owners = threads(plans, graph);
    let raw = plans[shard].cross_shard_dependencies[d];
    let token = token_of(raw);
    lemma_all_declared(list, owners, plans, plans.len() as int, (a, shard));
    assert(!(resolve(list, owners, shard, plans.len() as int, raw) is Empty));
    assert(!(resolve(list, owners, shard, plans.len() as int, raw) is Unknown));
    lemma_claimed_by_none(plans, token);
    lemma_latest(owners, token, shard);
    if latest_owner(owners, token, shard) is Some {
        lemma_threads(plans, graph, latest_owner(owners, token, shard)->0, token);
    }
    lemma_earliest(owners, token, shard, plans.len() as int);
    if earliest_owner(owners, token, shard, plans.len() as int) is Some {
        lemma_threads(
            plans,
            graph,
            earliest_owner(owners, token, shard, plans.len() as int)->0,
            token,
        );
    }
    lemma_threads(plans, graph, shard, token);
    assert forall|u: int| 0 <= u < shard implies (#[trigger] fuzzy_owner(owners, token, shard, u)
        <==> names_like(plans, graph, u, token)) by {
        lemma_fuzzy(plans, graph, shard, u, token);
    }
    assert(fuzzy_owner(owners, token, shard, a) == names_like(plans, graph, a, token));
    if exists|o: int| fuzzy_owner(owners, token, shard, o) {
        let o = choose|o: int| fuzzy_owner(owners, token, shard, o);
        assert(names_like(plans, graph, o, token));
    }
    lemma_resolved_is_kept(plans, graph, levels, a, shard, d);
}

/// Whether a shard owns a thread whose name, with letters and digits alone, holds the given one
/// or stands in it; a name too short for that is like none.
pub open spec fn names_like(
    plans: Seq<RewritePlanView>,
    graph: Seq<SourceImpactNodeView>,
    shard: int,
    name: Seq<char>,
) -> bool {
    &&& normalized(name).len() >= 4 || (normalized(name).len() >= 2 && !all_ascii(normalized(name)))
    &&& exists|key: Seq<char>|
        key.len() > 0 && #[trigger] owns_thread(plans, graph, shard, key) && (holds(
            normalized(key),
            normalized(name),
        ) || holds(normalized(name), normalized(key)))
}

proof fn lemma_thread_has_name(
    plans: Seq<RewritePlanView>,
    graph: Seq<SourceImpactNodeView>,
    x: (Seq<char>, int),
)
    requires
        threads(plans, graph).contains(x),
    ensures
        x.0.len() > 0,
{
    lemma_plan_threads(plans, x);
    lemma_graph_threads(graph, claims(plans), x);
    lemma_sum_contains(plan_threads(plans), graph_threads(graph, claims(plans)), x);
}

proof fn lemma_fuzzy(
    plans: Seq<RewritePlanView>,
    graph: Seq<SourceImpactNodeView>,
    shard: int,
    u: int,
    name: Seq<char>,
)
    requires
        repeated_claim(claims(plans)) is None,
        0 <= u < shard < plans.len(),
    ensures
        fuzzy_owner(threads(plans, graph), name, shard, u) <==> names_like(plans, graph, u, name),
{
    let owners = threads(plans, graph);
    let wanted = normalized(name);
    if fuzzy_owner(owners, name, shard, u) {
        let i = choose|i: int|
            0 <= i < owners.len() && (#[trigger] owners[i]).1 == u && resembles(
                owners[i].0,
                wanted,
            );
        assert(owners.contains(owners[i]));
        lemma_thread_has_name(plans, graph, owners[i]);
        assert(owners[i] == (owners[i].0, u));
        lemma_threads(plans, graph, u, owners[i].0);
        assert(owns_thread(plans, graph, u, owners[i].0));
    }
    if names_like(plans, graph, u, name) {
        let key = choose|key: Seq<char>|
            key.len() > 0 && #[trigger] owns_thread(plans, graph, u, key) && (holds(
                normalized(key),
                wanted,
            ) || holds(wanted, normalized(key)));
        lemma_threads(plans, graph, u, key);
        let i = owners.index_of((key, u));
        assert(owners[i] == (key, u));
        assert(resembles(owners[i].0, wanted));
    }
}

proof fn lemma_earliest(owners: Seq<(Seq<char>, int)>, key: Seq<char>, from: int, total: int)
    ensures
        earliest_owner(owners, key, from, total) matches Some(o) ==> from <= o < total
            && owners.contains((key, o)),
    decreases total - from,
{
    if from < total && !owners.contains((key, from)) {
        lemma_earliest(owners, key, from + 1, total);
    }
}

/// A shard that declares no dependency and whose nodes no other shard's node leads to waits for
/// nothing.
pub proof fn law_free_shard_is_in_the_first_wave(
    plans: Seq<RewritePlanView>,
    graph: Seq<SourceImpactNodeView>,
    levels: Seq<usize>,
    shard: int,
)
    requires
        shard_order(plans, graph) is Ok,
        is_levels(shard_order(plans, graph)->Ok_0, levels),
        levels.len() == plans.len(),
        0 <= shard < plans.len(),
        plans[shard].cross_shard_dependencies.len() == 0,
        forall|a: int|
            0 <= a < plans.len() && a != shard ==> !#[trigger] leads_to(plans, graph, a, shard),
    ensures
        levels[shard] == 0,
{
    let list = claims(plans);
    let owners = threads(plans, graph);
    let order = shard_order(plans, graph)->Ok_0;
    if levels[shard] > 0 {
        assert(stands_next_above(order, levels, shard));
        let u = choose|u: int|
            0 <= u < levels.len() && #[trigger] order.contains((u, shard)) && levels[u] + 1
                == levels[shard];
        lemma_all_declared(list, owners, plans, plans.len() as int, (u, shard));
        lemma_link_is_edge(plans, graph, u, shard);
        assert(leads_to(plans, graph, u, shard));
    }
}

/// A declared dependency without a name, and one on something that no shard has and that is no
/// thread, are refused.
pub proof fn law_unresolved_dependency_is_refused(
    plans: Seq<RewritePlanView>,
    graph: Seq<SourceImpactNodeView>,
    shard: int,
    d: int,
)
    requires
        0 <= shard < plans.len(),
        0 <= d < plans[shard].cross_shard_dependencies.len(),
        ({
            let raw = plans[shard].cross_shard_dependencies[d];
            token_of(raw).len() == 0 || (claimed_by_none(plans, token_of(raw)) && (forall|u: int|
                0 <= u < plans.len() ==> !#[trigger] owns_thread(
                    plans,
                    graph,
                    u,
                    token_of(raw),
                )) && !starts(trim(raw), "thread:"@) && !starts(trim(raw), "thread_key:"@))
        }),
    ensures
        shard_order(plans, graph) is Err,
{
    let list = claims(plans);
    let owners = threads(plans, graph);
    let raw = plans[shard].cross_shard_dependencies[d];
    let token = token_of(raw);
    let total = plans.len() as int;
    if repeated_claim(list) is None && all_declared(list, owners, plans, total) is Ok {
        lemma_all_declared(list, owners, plans, total, (0, 0));
        assert(!(resolve(list, owners, shard, total, raw) is Empty));
        assert(!(resolve(list, owners, shard, total, raw) is Unknown));
        lemma_claimed_by_none(plans, token);
        lemma_latest(owners, token, shard);
        if latest_owner(owners, token, shard) is Some {
            lemma_threads(plans, graph, latest_owner(owners, token, shard)->0, token);
        }
        lemma_earliest(owners, token, shard, total);
        if earliest_owner(owners, token, shard, total) is Some {
            lemma_threads(plans, graph, earliest_owner(owners, token, shard, total)->0, token);
        }
        lemma_threads(plans, graph, shard, token);
    }
}

/// A name stands for itself, alone or behind one of the words that say what it is the name of.
pub proof fn law_name_of_a_dependency(prefix: Seq<char>, id: Seq<char>)
    requires
        prefix == "node:"@ || prefix == "obligation:"@ || prefix == "thread:"@ || prefix
            == "node_id:"@ || prefix == "obligation_id:"@ || prefix == "thread_key:"@,
        id.len() > 0,
        !white(id[0]),
        !white(id.last()),
    ensures
        token_of(prefix + id) == id,
        (forall|i: int| 0 <= i < id.len() ==> #[trigger] id[i] != ':') ==> token_of(id) == id,
{
    reveal_strlit("node:");
    reveal_strlit("obligation:");
    reveal_strlit("thread:");
    reveal_strlit("node_id:");
    reveal_strlit("obligation_id:");
    reveal_strlit("thread_key:");
    let list = dependency_prefixes();
    let whole = prefix + id;
    lemma_trimmed_already(id);
    lemma_trimmed_already(whole);
    assert(whole.subrange(prefix.len() as int, whole.len() as int) =~= id);
    assert(whole.subrange(0, prefix.len() as int) =~= prefix);
    reveal_with_fuel(without_prefix, 8);
    assert forall|k: int| 0 <= k < 6 && list[k] != prefix implies !starts(
        whole,
        #[trigger] list[k],
    ) by {
        if starts(whole, list[k]) {
            let n = list[k].len() as int;
            assert(whole.subrange(0, n) == list[k]);
            let m = if n < prefix.len() {
                n
            } else {
                prefix.len() as int
            };
            assert forall|j: int| 0 <= j < m implies prefix[j] == #[trigger] list[k][j] by {
                assert(whole.subrange(0, n)[j] == list[k][j]);
                assert(whole[j] == prefix[j]);
            }
            assert(prefix[0] == list[k][0]);
            assert(prefix[4] == list[k][4]);
            if m > 6 {
                assert(prefix[6] == list[k][6]);
            }
            if m > 10 {
                assert(prefix[10] == list[k][10]);
            }
        }
    }
    assert(starts(whole, prefix));
    assert(list[0] == "node:"@ && list[1] == "obligation:"@ && list[2] == "thread:"@ && list[3]
        == "node_id:"@ && list[4] == "obligation_id:"@ && list[5] == "thread_key:"@);
    if forall|i: int| 0 <= i < id.len() ==> #[trigger] id[i] != ':' {
        assert forall|k: int| 0 <= k < 6 implies !starts(id, #[trigger] list[k]) by {
            if starts(id, list[k]) {
                let n = list[k].len() as int;
                assert(id.subrange(0, n)[n - 1] == list[k][n - 1]);
                assert(id[n - 1] == ':');
            }
        }
    }
}

/// A shard waits no longer than it has to: where it is not in the first wave, one that it comes
/// behind is in the wave right before.
pub proof fn law_shard_waits_no_longer_than_it_has_to(
    plans: Seq<RewritePlanView>,
    graph: Seq<SourceImpactNodeView>,
    levels: Seq<usize>,
    shard: int,
) -> (a: int)
    requires
        shard_order(plans, graph) is Ok,
        is_levels(shard_order(plans, graph)->Ok_0, levels),
        levels.len() == plans.len(),
        0 <= shard < plans.len(),
        levels[shard] > 0,
    ensures
        0 <= a < plans.len(),
        shard_order(plans, graph)->Ok_0.contains((a, shard)),
        levels[a] + 1 == levels[shard],
{
    let edges = shard_order(plans, graph)->Ok_0;
    assert(stands_next_above(edges, levels, shard));
    choose|a: int|
        0 <= a < levels.len() && #[trigger] edges.contains((a, shard)) && levels[a] + 1
            == levels[shard]
}

/// Two shards that each lead to the other have no order.
pub proof fn law_circle_has_no_order(
    plans: Seq<RewritePlanView>,
    graph: Seq<SourceImpactNodeView>,
    levels: Seq<usize>,
    a: int,
    b: int,
)
    requires
        shard_order(plans, graph) is Ok,
        levels.len() == plans.len(),
        0 <= a < plans.len(),
        0 <= b < plans.len(),
        a != b,
        leads_to(plans, graph, a, b),
        leads_to(plans, graph, b, a),
    ensures
        !is_levels(shard_order(plans, graph)->Ok_0, levels),
{
    if is_levels(shard_order(plans, graph)->Ok_0, levels) {
        law_links_order_the_shards(plans, graph, levels, a, b);
        law_links_order_the_shards(plans, graph, levels, b, a);
    }
}

} // verus!
