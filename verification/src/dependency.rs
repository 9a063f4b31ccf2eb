//! The order in which the shards of a batch can be rewritten: a shard waits for every shard that
//! its plan, or the graph of the story, makes it depend on.
use vstd::prelude::*;
use crate::dependency_laws::{law_links_order_the_shards, leads_to};
use crate::domain::{
    RewriteObligation, RewriteObligationView, RewritePlan, RewritePlanView, RewriteStateUpdate,
    RewriteStateUpdateView, SourceImpactLink, SourceImpactLinkView, SourceImpactNode,
    SourceImpactNodeView,
};
use crate::text::{
    all_ascii, blank, chars_are_ascii, chars_have, chars_of, decimal, holds, is_blank, join,
    join_texts, lemma_views_push, matches_chars, normalized, normalized_chars, same_text, starts,
    string_of, trim, trim_chars, trimmed, usize_text, views,
};
use vstd::slice::slice_subrange;

verus! {

// ---- dependency names -----------------------------------------------------------------------
/// The prefixes that may stand before the name in a dependency.
pub open spec fn dependency_prefixes() -> Seq<Seq<char>> {
    seq!["node:"@, "obligation:"@, "thread:"@, "node_id:"@, "obligation_id:"@, "thread_key:"@]
}

/// The name behind the first of the prefixes from `k` on that the text begins with; the text
/// itself where it begins with none.
pub open spec fn without_prefix(value: Seq<char>, prefixes: Seq<Seq<char>>, k: int) -> Seq<char>
    decreases prefixes.len() - k,
{
    if k < 0 || k >= prefixes.len() {
        value
    } else if starts(value, prefixes[k]) {
        trim(value.subrange(prefixes[k].len() as int, value.len() as int))
    } else {
        without_prefix(value, prefixes, k + 1)
    }
}

/// The name that a dependency refers to.
pub open spec fn token_of(value: Seq<char>) -> Seq<char> {
    without_prefix(trim(value), dependency_prefixes(), 0)
}

pub fn dependency_token(value: &str) -> (r: String)
    ensures
        r@ == token_of(value@),
{
    let all = chars_of(value);
    let name = trim_chars(all.as_slice());
    let prefixes: Vec<&str> = vec!["node:", "obligation:", "thread:", "node_id:", "obligation_id:",
        "thread_key:"];
    let ghost names = dependency_prefixes();
    proof {
        assert(views(prefixes@) =~= names);
    }
    let mut k: usize = 0;
    while k < prefixes.len()
        invariant
            k <= prefixes@.len(),
            views(prefixes@) == names,
            name@ == trim(value@),
            names == dependency_prefixes(),
            without_prefix(name@, names, 0) == without_prefix(name@, names, k as int),
        decreases prefixes@.len() - k,
    {
        let prefix = chars_of(prefixes[k]);
        proof {
            assert(prefix@ == names[k as int]);
        }
        if matches_chars(name, prefix.as_slice(), 0) {
            return string_of(trim_chars(slice_subrange(name, prefix.len(), name.len())));
        }
        k += 1;
    }
    string_of(name)
}

/// Whether a dependency names a thread of the story.
pub open spec fn names_thread(value: Seq<char>) -> bool {
    starts(trim(value), "thread:"@) || starts(trim(value), "thread_key:"@)
}

pub fn is_thread_dependency(value: &str) -> (r: bool)
    ensures
        r == names_thread(value@),
{
    let all = chars_of(value);
    let name = trim_chars(all.as_slice());
    let short = chars_of("thread:");
    let long = chars_of("thread_key:");
    matches_chars(name, short.as_slice(), 0) || matches_chars(name, long.as_slice(), 0)
}

pub fn normalized_thread_key(value: &str) -> (r: String)
    ensures
        r@ == normalized(value@),
{
    let all = chars_of(value);
    let out = normalized_chars(all.as_slice());
    string_of(out.as_slice())
}

// ---- what the shards own --------------------------------------------------------------------
/// A shard's claim to rewrite a node under an obligation.
pub struct Claim {
    pub shard: int,
    pub node: Seq<char>,
    pub obligation: Seq<char>,
}

pub open spec fn shard_claims(obligations: Seq<RewriteObligationView>, shard: int) -> Seq<Claim> {
    Seq::new(
        obligations.len(),
        |i: int|
            Claim {
                shard,
                node: obligations[i].node_id,
                obligation: obligations[i].obligation_id,
            },
    )
}

/// The claims of all shards, shard by shard.
pub open spec fn claims(plans: Seq<RewritePlanView>) -> Seq<Claim>
    decreases plans.len(),
{
    if plans.len() == 0 {
        Seq::<Claim>::empty()
    } else {
        claims(plans.drop_last()) + shard_claims(plans.last().obligations, plans.len() - 1)
    }
}

pub open spec fn node_claimed(list: Seq<Claim>, id: Seq<char>) -> bool {
    exists|i: int| 0 <= i < list.len() && (#[trigger] list[i]).node == id
}

pub open spec fn obligation_claimed(list: Seq<Claim>, id: Seq<char>) -> bool {
    exists|i: int| 0 <= i < list.len() && (#[trigger] list[i]).obligation == id
}

/// What is wrong with the first claim whose node or obligation an earlier claim has taken.
pub open spec fn repeated_claim(list: Seq<Claim>) -> Option<Seq<char>>
    decreases list.len(),
{
    if list.len() == 0 {
        None
    } else if repeated_claim(list.drop_last()) is Some {
        repeated_claim(list.drop_last())
    } else if node_claimed(list.drop_last(), list.last().node) {
        Some("节点 "@ + list.last().node + " 同时出现在多个分片契约中。"@)
    } else if obligation_claimed(list.drop_last(), list.last().obligation) {
        Some("义务 "@ + list.last().obligation + " 同时出现在多个分片契约中。"@)
    } else {
        None
    }
}

/// The shard that claims a node.
pub open spec fn node_owner(list: Seq<Claim>, id: Seq<char>) -> Option<int>
    decreases list.len(),
{
    if list.len() == 0 {
        None
    } else if list.last().node == id {
        Some(list.last().shard)
    } else {
        node_owner(list.drop_last(), id)
    }
}

/// The shard that claims an obligation.
pub open spec fn obligation_owner(list: Seq<Claim>, id: Seq<char>) -> Option<int>
    decreases list.len(),
{
    if list.len() == 0 {
        None
    } else if list.last().obligation == id {
        Some(list.last().shard)
    } else {
        obligation_owner(list.drop_last(), id)
    }
}

/// The shard that claims a node or an obligation of this name; a node comes first.
pub open spec fn named_owner(list: Seq<Claim>, id: Seq<char>) -> Option<int> {
    match node_owner(list, id) {
        Some(o) => Some(o),
        None => obligation_owner(list, id),
    }
}

/// The threads of some states, each with the shard; a blank key names no thread.
pub open spec fn state_threads(states: Seq<RewriteStateUpdateView>, shard: int) -> Seq<
    (Seq<char>, int),
>
    decreases states.len(),
{
    if states.len() == 0 {
        Seq::empty()
    } else if blank(states.last().thread_key) {
        state_threads(states.drop_last(), shard)
    } else {
        state_threads(states.drop_last(), shard).push((trim(states.last().thread_key), shard))
    }
}

pub open spec fn obligation_threads(obligations: Seq<RewriteObligationView>, shard: int) -> Seq<
    (Seq<char>, int),
>
    decreases obligations.len(),
{
    if obligations.len() == 0 {
        Seq::empty()
    } else {
        obligation_threads(obligations.drop_last(), shard) + state_threads(
            obligations.last().planned_state_updates,
            shard,
        )
    }
}

/// The threads that the plans advance, each with the shard that does.
pub open spec fn plan_threads(plans: Seq<RewritePlanView>) -> Seq<(Seq<char>, int)>
    decreases plans.len(),
{
    if plans.len() == 0 {
        Seq::empty()
    } else {
        plan_threads(plans.drop_last()) + obligation_threads(
            plans.last().obligations,
            plans.len() - 1,
        ) + state_threads(plans.last().planned_state_updates, plans.len() - 1)
    }
}

pub open spec fn key_threads(keys: Seq<Seq<char>>, shard: int) -> Seq<(Seq<char>, int)>
    decreases keys.len(),
{
    if keys.len() == 0 {
        Seq::empty()
    } else if blank(keys.last()) {
        key_threads(keys.drop_last(), shard)
    } else {
        key_threads(keys.drop_last(), shard).push((trim(keys.last()), shard))
    }
}

/// The threads of the nodes of the graph that a shard claims, each with that shard.
pub open spec fn graph_threads(graph: Seq<SourceImpactNodeView>, list: Seq<Claim>) -> Seq<
    (Seq<char>, int),
>
    decreases graph.len(),
{
    if graph.len() == 0 {
        Seq::empty()
    } else {
        let before = graph_threads(graph.drop_last(), list);
        match node_owner(list, graph.last().node_id) {
            Some(owner) => before + key_threads(graph.last().thread_keys, owner),
            None => before,
        }
    }
}

/// Every thread with each shard that owns it.
pub open spec fn threads(
    plans: Seq<RewritePlanView>,
    graph: Seq<SourceImpactNodeView>,
) -> Seq<(Seq<char>, int)> {
    plan_threads(plans) + graph_threads(graph, claims(plans))
}

/// The last shard before `bound` that owns the thread.
pub open spec fn latest_owner(owners: Seq<(Seq<char>, int)>, key: Seq<char>, bound: int) -> Option<
    int,
>
    decreases bound,
{
    if bound <= 0 {
        None
    } else if owners.contains((key, bound - 1)) {
        Some(bound - 1)
    } else {
        latest_owner(owners, key, bound - 1)
    }
}

/// The first shard from `from` on, of `total`, that owns the thread.
pub open spec fn earliest_owner(
    owners: Seq<(Seq<char>, int)>,
    key: Seq<char>,
    from: int,
    total: int,
) -> Option<int>
    decreases total - from,
{
    if from >= total {
        None
    } else if owners.contains((key, from)) {
        Some(from)
    } else {
        earliest_owner(owners, key, from + 1, total)
    }
}

/// Whether an abbreviated thread name is long enough to be looked up.
pub open spec fn searchable(dependency: Seq<char>) -> bool {
    dependency.len() >= (if all_ascii(dependency) {
        4int
    } else {
        2int
    })
}

/// Whether a shard before `shard` owns a thread whose name resembles the dependency: of the two
/// normalized names one holds the other.
pub open spec fn fuzzy_owner(
    owners: Seq<(Seq<char>, int)>,
    dependency: Seq<char>,
    shard: int,
    owner: int,
) -> bool {
    let wanted = normalized(dependency);
    &&& searchable(wanted)
    &&& 0 <= owner < shard
    &&& exists|i: int|
        0 <= i < owners.len() && (#[trigger] owners[i]).1 == owner && resembles(
            owners[i].0,
            wanted,
        )
}

pub open spec fn resembles(thread: Seq<char>, wanted: Seq<char>) -> bool {
    one_holds_other(normalized(thread), wanted)
}

/// Whether one of two names holds the other.
pub open spec fn one_holds_other(a: Seq<char>, b: Seq<char>) -> bool {
    holds(a, b) || holds(b, a)
}

pub fn does_one_hold_other(a: &[char], b: &[char]) -> (r: bool)
    ensures
        r == one_holds_other(a@, b@),
{
    chars_have(a, b) || chars_have(b, a)
}

pub fn is_searchable(dependency: &[char]) -> (r: bool)
    ensures
        r == searchable(dependency@),
{
    dependency.len() >= 4 || (dependency.len() >= 2 && !chars_are_ascii(dependency))
}

// ---- the dependencies of a shard ------------------------------------------------------------
/// What one declared dependency comes to.
pub enum Resolution {
    /// It names what the shard itself creates, and orders nothing.
    Own,
    /// The shard comes after these shards.
    After(Set<int>),
    /// It names nothing.
    Empty,
    /// It names what no shard owns.
    Unknown,
}

pub open spec fn resolve(
    list: Seq<Claim>,
    owners: Seq<(Seq<char>, int)>,
    shard: int,
    total: int,
    raw: Seq<char>,
) -> Resolution {
    let token = token_of(raw);
    let named = named_owner(list, token);
    let latest = latest_owner(owners, token, shard);
    let later = earliest_owner(owners, token, shard, total);
    if token.len() == 0 {
        Resolution::Empty
    } else if named == Some(shard) || (owners.contains((token, shard)) && latest is None) {
        Resolution::Own
    } else if named is Some {
        Resolution::After(set![named->0])
    } else if latest is Some {
        Resolution::After(set![latest->0])
    } else if later is Some {
        Resolution::After(set![later->0])
    } else if !names_thread(raw) {
        Resolution::Unknown
    } else if exists|o: int| fuzzy_owner(owners, token, shard, o) {
        Resolution::After(Set::new(|o: int| fuzzy_owner(owners, token, shard, o)))
    } else {
        Resolution::After(Set::new(|o: int| 0 <= o < shard))
    }
}

/// The pairs in which the shard comes second.
pub open spec fn into_shard(before: Set<int>, shard: int) -> Set<(int, int)> {
    Set::new(|e: (int, int)| e.1 == shard && before.contains(e.0))
}

/// The pairs that the declared dependencies of a shard give, or what is wrong with the first
/// one that cannot be resolved.
pub open spec fn declared_edges(
    list: Seq<Claim>,
    owners: Seq<(Seq<char>, int)>,
    shard: int,
    total: int,
    dependencies: Seq<Seq<char>>,
) -> Result<Set<(int, int)>, Seq<char>>
    decreases dependencies.len(),
{
    if dependencies.len() == 0 {
        Ok(Set::empty())
    } else {
        match declared_edges(list, owners, shard, total, dependencies.drop_last()) {
            Err(e) => Err(e),
            Ok(edges) => match resolve(list, owners, shard, total, dependencies.last()) {
                Resolution::Own => Ok(edges),
                Resolution::After(before) => Ok(edges.union(into_shard(before, shard))),
                Resolution::Empty => Err("分片 "@ + decimal(shard + 1) + " 包含空的跨分片依赖。"@),
                Resolution::Unknown => Err(
                    "分片 "@ + decimal(shard + 1) + " 引用了无法解析的跨分片依赖："@
                        + dependencies.last(),
                ),
            },
        }
    }
}

/// The pairs that the declared dependencies of the first `n` shards give.
pub open spec fn all_declared(
    list: Seq<Claim>,
    owners: Seq<(Seq<char>, int)>,
    plans: Seq<RewritePlanView>,
    n: int,
) -> Result<Set<(int, int)>, Seq<char>>
    decreases n,
{
    if n <= 0 {
        Ok(Set::empty())
    } else {
        match all_declared(list, owners, plans, n - 1) {
            Err(e) => Err(e),
            Ok(edges) => match declared_edges(
                list,
                owners,
                n - 1,
                plans.len() as int,
                plans[n - 1].cross_shard_dependencies,
            ) {
                Err(e) => Err(e),
                Ok(more) => Ok(edges.union(more)),
            },
        }
    }
}

/// The pairs that the links of one node give.
pub open spec fn link_edges(
    list: Seq<Claim>,
    source: int,
    links: Seq<SourceImpactLinkView>,
) -> Set<(int, int)>
    decreases links.len(),
{
    if links.len() == 0 {
        Set::empty()
    } else {
        let before = link_edges(list, source, links.drop_last());
        match node_owner(list, links.last().target) {
            Some(target) => if source != target {
                before.insert((source, target))
            } else {
                before
            },
            None => before,
        }
    }
}

/// The pairs that the links of the graph give: the shard of a node comes before the shards of
/// the nodes that it leads to.
pub open spec fn graph_edges(list: Seq<Claim>, graph: Seq<SourceImpactNodeView>) -> Set<(int, int)>
    decreases graph.len(),
{
    if graph.len() == 0 {
        Set::empty()
    } else {
        let before = graph_edges(list, graph.drop_last());
        match node_owner(list, graph.last().node_id) {
            Some(source) => before.union(link_edges(list, source, graph.last().links)),
            None => before,
        }
    }
}

/// Which shard has to come before which, or why the plans do not fit together.
pub open spec fn shard_order(
    plans: Seq<RewritePlanView>,
    graph: Seq<SourceImpactNodeView>,
) -> Result<Set<(int, int)>, Seq<char>> {
    let list = claims(plans);
    match repeated_claim(list) {
        Some(e) => Err(e),
        None => match all_declared(list, threads(plans, graph), plans, plans.len() as int) {
            Err(e) => Err(e),
            Ok(declared) => Ok(graph_edges(list, graph).union(declared)),
        },
    }
}

// ---- levels ---------------------------------------------------------------------------------
/// Whether each member of a set has to wait for another member.
#[verifier::opaque]
pub open spec fn self_feeding(edges: Set<(int, int)>, s: Set<int>) -> bool {
    forall|v: int| #[trigger] s.contains(v) ==> exists|u: int| s.contains(u) && #[trigger] edges.contains((u, v))
}

/// Whether a shard lies on a cycle or behind one, so that its turn never comes.
pub open spec fn stuck(edges: Set<(int, int)>, v: int) -> bool {
    exists|s: Set<int>| #[trigger] s.contains(v) && self_feeding(edges, s)
}

/// The numbers, from one on, of the shards below `n` whose turn never comes.
pub open spec fn stuck_numbers(edges: Set<(int, int)>, n: int) -> Seq<Seq<char>>
    decreases n,
{
    if n <= 0 {
        Seq::empty()
    } else if stuck(edges, n - 1) {
        stuck_numbers(edges, n - 1).push(decimal(n))
    } else {
        stuck_numbers(edges, n - 1)
    }
}

/// Whether the levels are the lengths of the longest chains that lead to the shards: a shard
/// stands above every shard that it waits for, and on the level next to the highest of them.
pub open spec fn is_levels(edges: Set<(int, int)>, levels: Seq<usize>) -> bool {
    &&& forall|u: int, v: int| #[trigger]
        edges.contains((u, v)) && 0 <= u < levels.len() && 0 <= v < levels.len() ==> levels[u]
            < levels[v]
    &&& forall|v: int|
        0 <= v < levels.len() && levels[v] > 0 ==> #[trigger] stands_next_above(edges, levels, v)
}

/// Whether a shard waits for one on the level just below its own.
pub open spec fn stands_next_above(edges: Set<(int, int)>, levels: Seq<usize>, v: int) -> bool {
    exists|u: int|
        0 <= u < levels.len() && #[trigger] edges.contains((u, v)) && levels[u] + 1 == levels[v]
}

// ---- computing the owners -------------------------------------------------------------------
struct OwnedClaim {
    shard: usize,
    node: String,
    obligation: String,
}

impl View for OwnedClaim {
    type V = Claim;

    closed spec fn view(&self) -> Claim {
        Claim { shard: self.shard as int, node: self.node@, obligation: self.obligation@ }
    }
}

/// A thread of the story and a shard that owns it.
pub struct ThreadOwner {
    pub key: String,
    pub shard: usize,
}

impl View for ThreadOwner {
    type V = (Seq<char>, int);

    open spec fn view(&self) -> (Seq<char>, int) {
        (self.key@, self.shard as int)
    }
}

fn collect_claims(plans: &[RewritePlan]) -> (r: Vec<OwnedClaim>)
    ensures
        views(r@) == claims(views(plans@)),
        forall|k: int| 0 <= k < r@.len() ==> (#[trigger] r@[k]).shard < plans@.len(),
{
    let mut out: Vec<OwnedClaim> = Vec::new();
    let mut i: usize = 0;
    let ghost all = views(plans@);
    while i < plans.len()
        invariant
            i <= plans@.len(),
            all == views(plans@),
            views(out@) == claims(all.take(i as int)),
            forall|k: int| 0 <= k < out@.len() ==> (#[trigger] out@[k]).shard < plans@.len(),
        decreases plans@.len() - i,
    {
        let obligations = &plans[i].obligations;
        let ghost own = views(obligations@);
        let ghost before = views(out@);
        proof {
            assert(all.take(i + 1).drop_last() =~= all.take(i as int));
            assert(all.take(i + 1).last().obligations == own);
            assert(before + shard_claims(own.take(0), i as int) =~= before);
        }
        let mut j: usize = 0;
        while j < obligations.len()
            invariant
                i < plans@.len(),
                j <= obligations@.len(),
                own == views(obligations@),
                views(out@) == before + shard_claims(own.take(j as int), i as int),
                forall|k: int| 0 <= k < out@.len() ==> (#[trigger] out@[k]).shard < plans@.len(),
            decreases obligations@.len() - j,
        {
            let ghost earlier = out@;
            out.push(
                OwnedClaim {
                    shard: i,
                    node: obligations[j].node_id.clone(),
                    obligation: obligations[j].obligation_id.clone(),
                },
            );
            proof {
                lemma_views_push(earlier, out@.last());
                assert(own[j as int] == obligations@[j as int]@);
                assert(views(out@) =~= before + shard_claims(own.take(j + 1), i as int));
            }
            j += 1;
        }
        proof {
            assert(own.take(j as int) =~= own);
        }
        i += 1;
    }
    proof {
        assert(all.take(i as int) =~= all);
    }
    out
}

fn find_node(list: &[OwnedClaim], n: usize, id: &str) -> (r: Option<usize>)
    requires
        n <= list@.len(),
    ensures
        match r {
            Some(shard) => node_owner(views(list@).take(n as int), id@) == Some(shard as int)
                && exists|k: int| 0 <= k < n && (#[trigger] list@[k]).shard == shard,
            None => node_owner(views(list@).take(n as int), id@) is None,
        },
{
    let ghost all = views(list@);
    let mut k: usize = n;
    while k > 0
        invariant
            k <= n <= list@.len(),
            all == views(list@),
            node_owner(all.take(n as int), id@) == node_owner(all.take(k as int), id@),
        decreases k,
    {
        proof {
            assert(all.take(k as int).last() == list@[k - 1]@);
            assert(all.take(k as int).drop_last() =~= all.take(k - 1));
        }
        if same_text(list[k - 1].node.as_str(), id) {
            return Some(list[k - 1].shard);
        }
        k -= 1;
    }
    None
}

fn find_obligation(list: &[OwnedClaim], n: usize, id: &str) -> (r: Option<usize>)
    requires
        n <= list@.len(),
    ensures
        match r {
            Some(shard) => obligation_owner(views(list@).take(n as int), id@) == Some(shard as int)
                && exists|k: int| 0 <= k < n && (#[trigger] list@[k]).shard == shard,
            None => obligation_owner(views(list@).take(n as int), id@) is None,
        },
{
    let ghost all = views(list@);
    let mut k: usize = n;
    while k > 0
        invariant
            k <= n <= list@.len(),
            all == views(list@),
            obligation_owner(all.take(n as int), id@) == obligation_owner(all.take(k as int), id@),
        decreases k,
    {
        proof {
            assert(all.take(k as int).last() == list@[k - 1]@);
            assert(all.take(k as int).drop_last() =~= all.take(k - 1));
        }
        if same_text(list[k - 1].obligation.as_str(), id) {
            return Some(list[k - 1].shard);
        }
        k -= 1;
    }
    None
}

proof fn lemma_owner_claimed(list: Seq<Claim>, id: Seq<char>)
    ensures
        node_claimed(list, id) == (node_owner(list, id) is Some),
        obligation_claimed(list, id) == (obligation_owner(list, id) is Some),
    decreases list.len(),
{
    if list.len() > 0 {
        let rest = list.drop_last();
        lemma_owner_claimed(rest, id);
        if node_claimed(rest, id) {
            let i = choose|i: int| 0 <= i < rest.len() && (#[trigger] rest[i]).node == id;
            assert(list[i].node == id);
        }
        if obligation_claimed(rest, id) {
            let i = choose|i: int| 0 <= i < rest.len() && (#[trigger] rest[i]).obligation == id;
            assert(list[i].obligation == id);
        }
        if node_claimed(list, id) && list.last().node != id {
            let i = choose|i: int| 0 <= i < list.len() && (#[trigger] list[i]).node == id;
            assert(rest[i].node == id);
        }
        if obligation_claimed(list, id) && list.last().obligation != id {
            let i = choose|i: int| 0 <= i < list.len() && (#[trigger] list[i]).obligation == id;
            assert(rest[i].obligation == id);
        }
        if list.last().node == id {
            assert(list[list.len() - 1].node == id);
        }
        if list.last().obligation == id {
            assert(list[list.len() - 1].obligation == id);
        }
    }
}

proof fn lemma_repeated_prefix(list: Seq<Claim>, n: int)
    requires
        0 <= n <= list.len(),
        repeated_claim(list.take(n)) is Some,
    ensures
        repeated_claim(list) == repeated_claim(list.take(n)),
    decreases list.len() - n,
{
    if n < list.len() {
        assert(list.take(n + 1).drop_last() =~= list.take(n));
        lemma_repeated_prefix(list, n + 1);
    } else {
        assert(list.take(n) =~= list);
    }
}

fn check_claims(list: &[OwnedClaim]) -> (r: Option<String>)
    ensures
        match r {
            Some(m) => repeated_claim(views(list@)) == Some(m@),
            None => repeated_claim(views(list@)) is None,
        },
{
    let ghost all = views(list@);
    let mut k: usize = 0;
    while k < list.len()
        invariant
            k <= list@.len(),
            all == views(list@),
            repeated_claim(all.take(k as int)) is None,
        decreases list@.len() - k,
    {
        proof {
            assert(all.take(k + 1).drop_last() =~= all.take(k as int));
            assert(all.take(k + 1).last() == list@[k as int]@);
            lemma_owner_claimed(all.take(k as int), list@[k as int].node@);
            lemma_owner_claimed(all.take(k as int), list@[k as int].obligation@);
        }
        if find_node(list, k, list[k].node.as_str()).is_some() {
            let mut m = "节点 ".to_string();
            m.append(list[k].node.as_str());
            m.append(" 同时出现在多个分片契约中。");
            proof {
                lemma_repeated_prefix(all, k + 1);
            }
            return Some(m);
        }
        if find_obligation(list, k, list[k].obligation.as_str()).is_some() {
            let mut m = "义务 ".to_string();
            m.append(list[k].obligation.as_str());
            m.append(" 同时出现在多个分片契约中。");
            proof {
                lemma_repeated_prefix(all, k + 1);
            }
            return Some(m);
        }
        k += 1;
    }
    proof {
        assert(all.take(k as int) =~= all);
    }
    None
}

fn add_state_threads(out: &mut Vec<ThreadOwner>, states: &[RewriteStateUpdate], shard: usize)
    ensures
        views(final(out)@) == views(old(out)@) + state_threads(views(states@), shard as int),
        forall|k: int|
            0 <= k < final(out)@.len() ==> (#[trigger] final(out)@[k]).shard == shard || (k
                < old(out)@.len() && final(out)@[k] == old(out)@[k]),
{
    let ghost start = out@;
    let ghost all = views(states@);
    let mut i: usize = 0;
    proof {
        assert(views(start) + state_threads(all.take(0), shard as int) =~= views(start));
    }
    while i < states.len()
        invariant
            i <= states@.len(),
            all == views(states@),
            start == old(out)@,
            views(out@) == views(start) + state_threads(all.take(i as int), shard as int),
            forall|k: int|
                0 <= k < out@.len() ==> (#[trigger] out@[k]).shard == shard || (k < start.len()
                    && out@[k] == start[k]),
        decreases states@.len() - i,
    {
        let ghost before = out@;
        proof {
            assert(all.take(i + 1).drop_last() =~= all.take(i as int));
            assert(all.take(i + 1).last() == states@[i as int]@);
        }
        if !is_blank(states[i].thread_key.as_str()) {
            out.push(ThreadOwner { key: trimmed(states[i].thread_key.as_str()), shard });
            proof {
                lemma_views_push(before, out@.last());
                assert(views(out@) =~= views(start) + state_threads(
                    all.take(i + 1),
                    shard as int,
                ));
            }
        }
        i += 1;
    }
    proof {
        assert(all.take(i as int) =~= all);
    }
}

fn add_key_threads(out: &mut Vec<ThreadOwner>, keys: &[String], shard: usize)
    ensures
        views(final(out)@) == views(old(out)@) + key_threads(views(keys@), shard as int),
        forall|k: int|
            0 <= k < final(out)@.len() ==> (#[trigger] final(out)@[k]).shard == shard || (k
                < old(out)@.len() && final(out)@[k] == old(out)@[k]),
{
    let ghost start = out@;
    let ghost all = views(keys@);
    let mut i: usize = 0;
    proof {
        assert(views(start) + key_threads(all.take(0), shard as int) =~= views(start));
    }
    while i < keys.len()
        invariant
            i <= keys@.len(),
            all == views(keys@),
            start == old(out)@,
            views(out@) == views(start) + key_threads(all.take(i as int), shard as int),
            forall|k: int|
                0 <= k < out@.len() ==> (#[trigger] out@[k]).shard == shard || (k < start.len()
                    && out@[k] == start[k]),
        decreases keys@.len() - i,
    {
        let ghost before = out@;
        proof {
            assert(all.take(i + 1).drop_last() =~= all.take(i as int));
            assert(all.take(i + 1).last() == keys@[i as int]@);
        }
        if !is_blank(keys[i].as_str()) {
            out.push(ThreadOwner { key: trimmed(keys[i].as_str()), shard });
            proof {
                lemma_views_push(before, out@.last());
                assert(views(out@) =~= views(start) + key_threads(all.take(i + 1), shard as int));
            }
        }
        i += 1;
    }
    proof {
        assert(all.take(i as int) =~= all);
    }
}

fn add_obligation_threads(
    out: &mut Vec<ThreadOwner>,
    obligations: &[RewriteObligation],
    shard: usize,
)
    ensures
        views(final(out)@) == views(old(out)@) + obligation_threads(
            views(obligations@),
            shard as int,
        ),
        forall|k: int|
            0 <= k < final(out)@.len() ==> (#[trigger] final(out)@[k]).shard == shard || (k
                < old(out)@.len() && final(out)@[k] == old(out)@[k]),
{
    let ghost start = out@;
    let ghost all = views(obligations@);
    let mut i: usize = 0;
    proof {
        assert(views(start) + obligation_threads(all.take(0), shard as int) =~= views(start));
    }
    while i < obligations.len()
        invariant
            i <= obligations@.len(),
            all == views(obligations@),
            start == old(out)@,
            views(out@) == views(start) + obligation_threads(all.take(i as int), shard as int),
            forall|k: int|
                0 <= k < out@.len() ==> (#[trigger] out@[k]).shard == shard || (k < start.len()
                    && out@[k] == start[k]),
        decreases obligations@.len() - i,
    {
        proof {
            assert(all.take(i + 1).drop_last() =~= all.take(i as int));
            assert(all.take(i + 1).last() == obligations@[i as int]@);
        }
        add_state_threads(out, obligations[i].planned_state_updates.as_slice(), shard);
        i += 1;
        proof {
            assert(views(out@) =~= views(start) + obligation_threads(
                all.take(i as int),
                shard as int,
            ));
        }
    }
    proof {
        assert(all.take(i as int) =~= all);
    }
}

fn collect_threads(
    plans: &[RewritePlan],
    graph: &[SourceImpactNode],
    list: &[OwnedClaim],
) -> (r: Vec<ThreadOwner>)
    requires
        views(list@) == claims(views(plans@)),
        forall|k: int| 0 <= k < list@.len() ==> (#[trigger] list@[k]).shard < plans@.len(),
    ensures
        views(r@) == threads(views(plans@), views(graph@)),
        forall|k: int| 0 <= k < r@.len() ==> (#[trigger] r@[k]).shard < plans@.len(),
{
    let ghost all = views(plans@);
    let ghost nodes = views(graph@);
    let ghost owned = views(list@);
    let mut out: Vec<ThreadOwner> = Vec::new();
    let mut i: usize = 0;
    while i < plans.len()
        invariant
            i <= plans@.len(),
            all == views(plans@),
            views(out@) == plan_threads(all.take(i as int)),
            forall|k: int| 0 <= k < out@.len() ==> (#[trigger] out@[k]).shard < plans@.len(),
        decreases plans@.len() - i,
    {
        let ghost before = views(out@);
        proof {
            assert(all.take(i + 1).drop_last() =~= all.take(i as int));
            assert(all.take(i + 1).last() == plans@[i as int]@);
        }
        add_obligation_threads(&mut out, plans[i].obligations.as_slice(), i);
        add_state_threads(&mut out, plans[i].planned_state_updates.as_slice(), i);
        i += 1;
    }
    let ghost planned = views(out@);
    proof {
        assert(all.take(i as int) =~= all);
        assert(planned + graph_threads(nodes.take(0), owned) =~= planned);
    }
    let mut j: usize = 0;
    while j < graph.len()
        invariant
            j <= graph@.len(),
            nodes == views(graph@),
            owned == views(list@),
            views(out@) == planned + graph_threads(nodes.take(j as int), owned),
            forall|k: int| 0 <= k < out@.len() ==> (#[trigger] out@[k]).shard < plans@.len(),
            forall|k: int| 0 <= k < list@.len() ==> (#[trigger] list@[k]).shard < plans@.len(),
        decreases graph@.len() - j,
    {
        let ghost before = views(out@);
        proof {
            assert(nodes.take(j + 1).drop_last() =~= nodes.take(j as int));
            assert(nodes.take(j + 1).last() == graph@[j as int]@);
            assert(owned.take(owned.len() as int) =~= owned);
        }
        match find_node(list, list.len(), graph[j].node_id.as_str()) {
            Some(owner) => {
                add_key_threads(&mut out, graph[j].thread_keys.as_slice(), owner);
                proof {
                    assert(views(out@) =~= planned + graph_threads(nodes.take(j + 1), owned));
                }
            },
            None => {},
        }
        j += 1;
    }
    proof {
        assert(nodes.take(j as int) =~= nodes);
    }
    out
}

/// Whether a shard owns a thread.
fn owns_thread(owners: &[ThreadOwner], key: &str, shard: usize) -> (r: bool)
    ensures
        r == views(owners@).contains((key@, shard as int)),
{
    let ghost all = views(owners@);
    let mut i: usize = 0;
    while i < owners.len()
        invariant
            i <= owners@.len(),
            all == views(owners@),
            forall|k: int| 0 <= k < i ==> all[k] != (key@, shard as int),
        decreases owners@.len() - i,
    {
        proof {
            assert(all[i as int] == owners@[i as int]@);
        }
        if owners[i].shard == shard && same_text(owners[i].key.as_str(), key) {
            return true;
        }
        i += 1;
    }
    false
}

/// The shards before the given one that own a thread whose name resembles the dependency, in
/// ascending order.
pub fn fuzzy_prior_thread_owners(
    dependency: &str,
    shard_index: usize,
    thread_owners: &[ThreadOwner],
) -> (r: Vec<usize>)
    ensures
        forall|o: usize|
            r@.contains(o) <==> fuzzy_owner(
                views(thread_owners@),
                dependency@,
                shard_index as int,
                o as int,
            ),
        forall|a: int, b: int| 0 <= a < b < r@.len() ==> r@[a] < r@[b],
{
    let all = chars_of(dependency);
    let wanted = normalized_chars(all.as_slice());
    let mut out: Vec<usize> = Vec::new();
    if !is_searchable(wanted.as_slice()) {
        return out;
    }
    let ghost owners = views(thread_owners@);
    let mut o: usize = 0;
    while o < shard_index
        invariant
            o <= shard_index,
            owners == views(thread_owners@),
            wanted@ == normalized(dependency@),
            searchable(wanted@),
            forall|x: usize|
                out@.contains(x) <==> x < o && fuzzy_owner(
                    owners,
                    dependency@,
                    shard_index as int,
                    x as int,
                ),
            forall|a: int| 0 <= a < out@.len() ==> (#[trigger] out@[a]) < o,
            forall|a: int, b: int| 0 <= a < b < out@.len() ==> out@[a] < out@[b],
        decreases shard_index - o,
    {
        let ghost before = out@;
        let found = resembling_thread(thread_owners, wanted.as_slice(), o);
        if found {
            out.push(o);
        }
        proof {
            assert(found == fuzzy_owner(owners, dependency@, shard_index as int, o as int));
            assert forall|x: usize|
                out@.contains(x) <==> x < o + 1 && fuzzy_owner(
                    owners,
                    dependency@,
                    shard_index as int,
                    x as int,
                ) by {
                if found {
                    assert(out@ == before.push(o));
                    assert(out@.contains(x) <==> before.contains(x) || x == o) by {
                        if before.contains(x) {
                            let k = before.index_of(x);
                            assert(out@[k] == x);
                        }
                        if x == o {
                            assert(out@[before.len() as int] == o);
                        }
                    }
                }
            }
        }
        o += 1;
    }
    out
}

fn resembling_thread(owners: &[ThreadOwner], wanted: &[char], shard: usize) -> (r: bool)
    ensures
        r == exists|i: int|
            0 <= i < owners@.len() && (#[trigger] views(owners@)[i]).1 == shard && resembles(
                views(owners@)[i].0,
                wanted@,
            ),
{
    let ghost all = views(owners@);
    let mut i: usize = 0;
    while i < owners.len()
        invariant
            i <= owners@.len(),
            all == views(owners@),
            forall|k: int|
                0 <= k < i ==> !((#[trigger] all[k]).1 == shard && resembles(all[k].0, wanted@)),
        decreases owners@.len() - i,
    {
        proof {
            assert(all[i as int] == owners@[i as int]@);
        }
        if owners[i].shard == shard {
            let key = chars_of(owners[i].key.as_str());
            let thread = normalized_chars(key.as_slice());
            if does_one_hold_other(thread.as_slice(), wanted) {
                return true;
            }
        }
        i += 1;
    }
    false
}

fn find_latest_owner(owners: &[ThreadOwner], key: &str, bound: usize) -> (r: Option<usize>)
    ensures
        match r {
            Some(o) => o < bound && latest_owner(views(owners@), key@, bound as int) == Some(
                o as int,
            ),
            None => latest_owner(views(owners@), key@, bound as int) is None,
        },
{
    let mut b: usize = bound;
    while b > 0
        invariant
            b <= bound,
            latest_owner(views(owners@), key@, bound as int) == latest_owner(
                views(owners@),
                key@,
                b as int,
            ),
        decreases b,
    {
        if owns_thread(owners, key, b - 1) {
            return Some(b - 1);
        }
        b -= 1;
    }
    None
}

fn find_earliest_owner(owners: &[ThreadOwner], key: &str, from: usize, total: usize) -> (r: Option<
    usize,
>)
    ensures
        match r {
            Some(o) => from <= o < total && earliest_owner(
                views(owners@),
                key@,
                from as int,
                total as int,
            ) == Some(o as int),
            None => earliest_owner(views(owners@), key@, from as int, total as int) is None,
        },
{
    let mut o: usize = from;
    while o < total
        invariant
            from <= o,
            earliest_owner(views(owners@), key@, from as int, total as int) == earliest_owner(
                views(owners@),
                key@,
                o as int,
                total as int,
            ),
        decreases total - o,
    {
        if owns_thread(owners, key, o) {
            return Some(o);
        }
        o += 1;
    }
    None
}

// ---- computing the edges --------------------------------------------------------------------
/// The pairs of a list as a set.
pub open spec fn edge_set(edges: Seq<(usize, usize)>) -> Set<(int, int)> {
    Set::new(
        |e: (int, int)|
            exists|i: int|
                0 <= i < edges.len() && (#[trigger] edges[i]).0 == e.0 && edges[i].1 == e.1,
    )
}

/// Whether both ends of each pair lie below `n`.
pub open spec fn edges_below(edges: Seq<(usize, usize)>, n: int) -> bool {
    forall|i: int| 0 <= i < edges.len() ==> (#[trigger] edges[i]).0 < n && edges[i].1 < n
}

proof fn lemma_edge_push(edges: Seq<(usize, usize)>, from: usize, to: usize)
    ensures
        edge_set(edges.push((from, to))) == edge_set(edges).insert((from as int, to as int)),
{
    let more = edges.push((from, to));
    assert forall|e: (int, int)|
        edge_set(more).contains(e) == edge_set(edges).insert((from as int, to as int)).contains(
            e,
        ) by {
        if edge_set(edges).contains(e) {
            let i = choose|i: int|
                0 <= i < edges.len() && (#[trigger] edges[i]).0 == e.0 && edges[i].1 == e.1;
            assert(more[i].0 == e.0 && more[i].1 == e.1);
        }
        if e == (from as int, to as int) {
            assert(more[edges.len() as int].0 == e.0);
        }
        if edge_set(more).contains(e) && e != (from as int, to as int) {
            let i = choose|i: int|
                0 <= i < more.len() && (#[trigger] more[i]).0 == e.0 && more[i].1 == e.1;
            assert(edges[i].0 == e.0 && edges[i].1 == e.1);
        }
    }
    assert(edge_set(more) =~= edge_set(edges).insert((from as int, to as int)));
}

/// Adds the pair of two shards, the first of which comes before the second. A shard cannot come
/// before itself. A pair that is there already is not added again.
pub fn add_edge(edges: &mut Vec<(usize, usize)>, from: usize, to: usize) -> (r: Result<(), String>)
    requires
        to < usize::MAX,
    ensures
        from == to ==> final(edges)@ == old(edges)@ && (r matches Err(m) && m@ == "分片 "@ + decimal(
            to + 1,
        ) + " 声明了指向自身的跨分片依赖。"@),
        from != to ==> r is Ok && edge_set(final(edges)@) == edge_set(old(edges)@).insert(
            (from as int, to as int),
        ),
        old(edges)@.no_duplicates() ==> final(edges)@.no_duplicates(),
        forall|n: int|
            edges_below(old(edges)@, n) && from < n && to < n ==> #[trigger] edges_below(
                final(edges)@,
                n,
            ),
{
    if from == to {
        let mut m = "分片 ".to_string();
        let number = usize_text(to + 1);
        m.append(number.as_str());
        m.append(" 声明了指向自身的跨分片依赖。");
        return Err(m);
    }
    let mut i: usize = 0;
    while i < edges.len()
        invariant
            from != to,
            edges@ == old(edges)@,
            i <= edges@.len(),
            forall|k: int| 0 <= k < i ==> edges@[k] != (from, to),
        decreases edges@.len() - i,
    {
        if edges[i].0 == from && edges[i].1 == to {
            proof {
                assert(edge_set(edges@) =~= edge_set(edges@).insert((from as int, to as int)));
            }
            return Ok(());
        }
        i += 1;
    }
    proof {
        lemma_edge_push(edges@, from, to);
    }
    edges.push((from, to));
    Ok(())
}

enum Resolved {
    Own,
    After(Vec<usize>),
    Empty,
    Unknown,
}

/// The members of a list as a set of integers.
pub open spec fn index_set(list: Seq<usize>) -> Set<int> {
    Set::new(|o: int| 0 <= o <= usize::MAX && list.contains(o as usize))
}

fn resolve_dependency(
    list: &[OwnedClaim],
    owners: &[ThreadOwner],
    shard: usize,
    total: usize,
    raw: &str,
) -> (r: Resolved)
    requires
        shard < total,
        forall|k: int| 0 <= k < list@.len() ==> (#[trigger] list@[k]).shard < total,
    ensures
        match (r, resolve(views(list@), views(owners@), shard as int, total as int, raw@)) {
            (Resolved::Own, Resolution::Own) => true,
            (Resolved::After(v), Resolution::After(s)) => index_set(v@) == s && forall|k: int|
                0 <= k < v@.len() ==> (#[trigger] v@[k]) < total && v@[k] != shard,
            (Resolved::Empty, Resolution::Empty) => true,
            (Resolved::Unknown, Resolution::Unknown) => true,
            _ => false,
        },
{
    let token = dependency_token(raw);
    let ghost all = views(list@);
    let ghost pairs = views(owners@);
    proof {
        assert(all.take(all.len() as int) =~= all);
    }
    if token.as_str().is_empty() {
        return Resolved::Empty;
    }
    let node = find_node(list, list.len(), token.as_str());
    let named = match node {
        Some(o) => Some(o),
        None => find_obligation(list, list.len(), token.as_str()),
    };
    let latest = find_latest_owner(owners, token.as_str(), shard);
    if let Some(o) = named {
        if o == shard {
            return Resolved::Own;
        }
    }
    if latest.is_none() && owns_thread(owners, token.as_str(), shard) {
        return Resolved::Own;
    }
    if let Some(o) = named {
        return Resolved::After(single(o));
    }
    if let Some(o) = latest {
        return Resolved::After(single(o));
    }
    if let Some(o) = find_earliest_owner(owners, token.as_str(), shard + 1, total) {
        return Resolved::After(single(o));
    }
    if !is_thread_dependency(raw) {
        return Resolved::Unknown;
    }
    let fuzzy = fuzzy_prior_thread_owners(token.as_str(), shard, owners);
    if fuzzy.len() > 0 {
        proof {
            assert(fuzzy@.contains(fuzzy@[0]));
            assert(fuzzy_owner(pairs, token@, shard as int, fuzzy@[0] as int));
            assert(index_set(fuzzy@) =~= Set::new(
                |o: int| fuzzy_owner(pairs, token@, shard as int, o),
            )) by {
                assert forall|o: int|
                    index_set(fuzzy@).contains(o) == fuzzy_owner(
                        pairs,
                        token@,
                        shard as int,
                        o,
                    ) by {
                    if fuzzy_owner(pairs, token@, shard as int, o) {
                        assert(fuzzy@.contains(o as usize));
                    }
                }
            }
            assert forall|k: int| 0 <= k < fuzzy@.len() implies (#[trigger] fuzzy@[k]) < total
                && fuzzy@[k] != shard by {
                assert(fuzzy@.contains(fuzzy@[k]));
            }
        }
        return Resolved::After(fuzzy);
    }
    proof {
        assert forall|o: int| !fuzzy_owner(pairs, token@, shard as int, o) by {
            if fuzzy_owner(pairs, token@, shard as int, o) {
                assert(fuzzy@.contains(o as usize));
            }
        }
    }
    let mut prior: Vec<usize> = Vec::new();
    let mut o: usize = 0;
    while o < shard
        invariant
            o <= shard,
            prior@.len() == o,
            forall|k: int| 0 <= k < o ==> (#[trigger] prior@[k]) == k,
        decreases shard - o,
    {
        prior.push(o);
        o += 1;
    }
    proof {
        assert forall|x: int| index_set(prior@).contains(x) == (0 <= x < shard) by {
            if 0 <= x < shard {
                assert(prior@[x] == x as usize);
            }
        }
        assert(index_set(prior@) =~= Set::new(|x: int| 0 <= x < shard));
    }
    Resolved::After(prior)
}

fn single(o: usize) -> (r: Vec<usize>)
    ensures
        r@ == seq![o],
        index_set(r@) == set![o as int],
{
    let mut out: Vec<usize> = Vec::new();
    out.push(o);
    proof {
        assert(out@ =~= seq![o]);
        assert(out@[0] == o);
        assert(index_set(out@) =~= set![o as int]);
    }
    out
}

proof fn lemma_into_shard(before: Seq<usize>, k: int, shard: int)
    requires
        0 <= k < before.len(),
    ensures
        into_shard(index_set(before.take(k + 1)), shard) == into_shard(
            index_set(before.take(k)),
            shard,
        ).insert((before[k] as int, shard)),
{
    let a = before.take(k);
    let b = before.take(k + 1);
    assert forall|o: int| index_set(b).contains(o) == (index_set(a).contains(o) || o == before[k]) by {
        if index_set(a).contains(o) {
            let i = a.index_of(o as usize);
            assert(b[i] == o as usize);
        }
        if o == before[k] {
            assert(b[k] == o as usize);
        }
        if index_set(b).contains(o) && o != before[k] {
            let i = b.index_of(o as usize);
            assert(a[i] == o as usize);
        }
    }
    assert(into_shard(index_set(b), shard) =~= into_shard(index_set(a), shard).insert(
        (before[k] as int, shard),
    ));
}

fn add_edges_into(edges: &mut Vec<(usize, usize)>, before: &[usize], shard: usize, total: usize)
    requires
        shard < total,
        edges_below(old(edges)@, total as int),
        old(edges)@.no_duplicates(),
        forall|k: int|
            0 <= k < before@.len() ==> (#[trigger] before@[k]) < total && before@[k] != shard,
    ensures
        edge_set(final(edges)@) == edge_set(old(edges)@).union(
            into_shard(index_set(before@), shard as int),
        ),
        edges_below(final(edges)@, total as int),
        final(edges)@.no_duplicates(),
{
    let ghost start = edge_set(edges@);
    let mut k: usize = 0;
    proof {
        assert(start.union(into_shard(index_set(before@.take(0)), shard as int)) =~= start);
    }
    while k < before.len()
        invariant
            shard < total,
            k <= before@.len(),
            edge_set(edges@) == start.union(
                into_shard(index_set(before@.take(k as int)), shard as int),
            ),
            edges_below(edges@, total as int),
            edges@.no_duplicates(),
            forall|i: int|
                0 <= i < before@.len() ==> (#[trigger] before@[i]) < total && before@[i] != shard,
        decreases before@.len() - k,
    {
        proof {
            lemma_into_shard(before@, k as int, shard as int);
        }
        let added = add_edge(edges, before[k], shard);
        proof {
            assert(edge_set(edges@) =~= start.union(
                into_shard(index_set(before@.take(k + 1)), shard as int),
            ));
        }
        k += 1;
    }
    proof {
        assert(before@.take(k as int) =~= before@);
    }
}

fn add_link_edges(
    edges: &mut Vec<(usize, usize)>,
    list: &[OwnedClaim],
    source: usize,
    links: &[SourceImpactLink],
    total: usize,
)
    requires
        source < total,
        edges_below(old(edges)@, total as int),
        old(edges)@.no_duplicates(),
        forall|k: int| 0 <= k < list@.len() ==> (#[trigger] list@[k]).shard < total,
    ensures
        edge_set(final(edges)@) == edge_set(old(edges)@).union(
            link_edges(views(list@), source as int, views(links@)),
        ),
        edges_below(final(edges)@, total as int),
        final(edges)@.no_duplicates(),
{
    let ghost start = edge_set(edges@);
    let ghost owned = views(list@);
    let ghost all = views(links@);
    let mut i: usize = 0;
    proof {
        assert(start.union(link_edges(owned, source as int, all.take(0))) =~= start);
    }
    while i < links.len()
        invariant
            source < total,
            i <= links@.len(),
            owned == views(list@),
            all == views(links@),
            edge_set(edges@) == start.union(link_edges(owned, source as int, all.take(i as int))),
            edges_below(edges@, total as int),
            edges@.no_duplicates(),
            forall|k: int| 0 <= k < list@.len() ==> (#[trigger] list@[k]).shard < total,
        decreases links@.len() - i,
    {
        proof {
            assert(all.take(i + 1).drop_last() =~= all.take(i as int));
            assert(all.take(i + 1).last() == links@[i as int]@);
            assert(owned.take(owned.len() as int) =~= owned);
        }
        if let Some(target) = find_node(list, list.len(), links[i].target.as_str()) {
            if source != target {
                let added = add_edge(edges, source, target);
            }
        }
        proof {
            assert(edge_set(edges@) =~= start.union(
                link_edges(owned, source as int, all.take(i + 1)),
            ));
        }
        i += 1;
    }
    proof {
        assert(all.take(i as int) =~= all);
    }
}

fn collect_graph_edges(list: &[OwnedClaim], graph: &[SourceImpactNode], total: usize) -> (r: Vec<
    (usize, usize),
>)
    requires
        forall|k: int| 0 <= k < list@.len() ==> (#[trigger] list@[k]).shard < total,
    ensures
        edge_set(r@) == graph_edges(views(list@), views(graph@)),
        edges_below(r@, total as int),
        r@.no_duplicates(),
{
    let ghost owned = views(list@);
    let ghost all = views(graph@);
    let mut edges: Vec<(usize, usize)> = Vec::new();
    let mut i: usize = 0;
    proof {
        assert(edge_set(edges@) =~= Set::empty());
    }
    while i < graph.len()
        invariant
            i <= graph@.len(),
            owned == views(list@),
            all == views(graph@),
            edge_set(edges@) == graph_edges(owned, all.take(i as int)),
            edges_below(edges@, total as int),
            edges@.no_duplicates(),
            forall|k: int| 0 <= k < list@.len() ==> (#[trigger] list@[k]).shard < total,
        decreases graph@.len() - i,
    {
        proof {
            assert(all.take(i + 1).drop_last() =~= all.take(i as int));
            assert(all.take(i + 1).last() == graph@[i as int]@);
            assert(owned.take(owned.len() as int) =~= owned);
        }
        if let Some(source) = find_node(list, list.len(), graph[i].node_id.as_str()) {
            add_link_edges(&mut edges, list, source, graph[i].links.as_slice(), total);
        }
        i += 1;
    }
    proof {
        assert(all.take(i as int) =~= all);
    }
    edges
}

fn add_declared_edges(
    edges: &mut Vec<(usize, usize)>,
    list: &[OwnedClaim],
    owners: &[ThreadOwner],
    shard: usize,
    total: usize,
    dependencies: &[String],
) -> (r: Result<(), String>)
    requires
        shard < total,
        edges_below(old(edges)@, total as int),
        old(edges)@.no_duplicates(),
        forall|k: int| 0 <= k < list@.len() ==> (#[trigger] list@[k]).shard < total,
    ensures
        edges_below(final(edges)@, total as int),
        final(edges)@.no_duplicates(),
        match declared_edges(
            views(list@),
            views(owners@),
            shard as int,
            total as int,
            views(dependencies@),
        ) {
            Ok(more) => r is Ok && edge_set(final(edges)@) == edge_set(old(edges)@).union(more),
            Err(e) => r matches Err(m) && m@ == e,
        },
{
    let ghost start = edge_set(edges@);
    let ghost owned = views(list@);
    let ghost pairs = views(owners@);
    let ghost all = views(dependencies@);
    let ghost end = all.len() as int;
    let mut i: usize = 0;
    proof {
        assert(start.union(Set::empty()) =~= start);
    }
    while i < dependencies.len()
        invariant
            shard < total,
            i <= dependencies@.len(),
            owned == views(list@),
            pairs == views(owners@),
            all == views(dependencies@),
            declared_edges(owned, pairs, shard as int, total as int, all.take(i as int)) matches Ok(
                more,
            ) && edge_set(edges@) == start.union(more),
            edges_below(edges@, total as int),
            edges@.no_duplicates(),
            forall|k: int| 0 <= k < list@.len() ==> (#[trigger] list@[k]).shard < total,
        decreases dependencies@.len() - i,
    {
        proof {
            assert(all.take(i + 1).drop_last() =~= all.take(i as int));
            assert(all.take(i + 1).last() == dependencies@[i as int]@);
        }
        let ghost so_far = declared_edges(
            owned,
            pairs,
            shard as int,
            total as int,
            all.take(i as int),
        )->Ok_0;
        match resolve_dependency(list, owners, shard, total, dependencies[i].as_str()) {
            Resolved::Own => {},
            Resolved::After(before) => {
                add_edges_into(edges, before.as_slice(), shard, total);
                proof {
                    let more = into_shard(index_set(before@), shard as int);
                    assert(start.union(so_far).union(more) =~= start.union(so_far.union(more)));
                }
            },
            Resolved::Empty => {
                let mut m = "分片 ".to_string();
                let number = usize_text(shard + 1);
                m.append(number.as_str());
                m.append(" 包含空的跨分片依赖。");
                proof {
                    lemma_declared_prefix(
                        owned,
                        pairs,
                        shard as int,
                        total as int,
                        all,
                        i + 1,
                    );
                }
                return Err(m);
            },
            Resolved::Unknown => {
                let mut m = "分片 ".to_string();
                let number = usize_text(shard + 1);
                m.append(number.as_str());
                m.append(" 引用了无法解析的跨分片依赖：");
                m.append(dependencies[i].as_str());
                proof {
                    lemma_declared_prefix(
                        owned,
                        pairs,
                        shard as int,
                        total as int,
                        all,
                        i + 1,
                    );
                }
                return Err(m);
            },
        }
        i += 1;
    }
    proof {
        assert(all.take(i as int) =~= all);
    }
    Ok(())
}

proof fn lemma_declared_prefix(
    list: Seq<Claim>,
    owners: Seq<(Seq<char>, int)>,
    shard: int,
    total: int,
    dependencies: Seq<Seq<char>>,
    n: int,
)
    requires
        0 <= n <= dependencies.len(),
        declared_edges(list, owners, shard, total, dependencies.take(n)) is Err,
    ensures
        declared_edges(list, owners, shard, total, dependencies) == declared_edges(
            list,
            owners,
            shard,
            total,
            dependencies.take(n),
        ),
    decreases dependencies.len() - n,
{
    if n < dependencies.len() {
        assert(dependencies.take(n + 1).drop_last() =~= dependencies.take(n));
        lemma_declared_prefix(list, owners, shard, total, dependencies, n + 1);
    } else {
        assert(dependencies.take(n) =~= dependencies);
    }
}

proof fn lemma_all_declared_prefix(
    list: Seq<Claim>,
    owners: Seq<(Seq<char>, int)>,
    plans: Seq<RewritePlanView>,
    n: int,
    m: int,
)
    requires
        n <= m,
        all_declared(list, owners, plans, n) is Err,
    ensures
        all_declared(list, owners, plans, m) == all_declared(list, owners, plans, n),
    decreases m - n,
{
    if n < m {
        lemma_all_declared_prefix(list, owners, plans, n, m - 1);
    }
}

/// The pairs of shards of which the first has to come before the second.
fn collect_edges(plans: &[RewritePlan], graph: &[SourceImpactNode]) -> (r: Result<
    Vec<(usize, usize)>,
    String,
>)
    ensures
        match shard_order(views(plans@), views(graph@)) {
            Ok(order) => r matches Ok(edges) && edge_set(edges@) == order && edges_below(
                edges@,
                plans@.len() as int,
            ) && edges@.no_duplicates(),
            Err(e) => r matches Err(m) && m@ == e,
        },
{
    let list = collect_claims(plans);
    if let Some(m) = check_claims(list.as_slice()) {
        return Err(m);
    }
    let owners = collect_threads(plans, graph, list.as_slice());
    let total = plans.len();
    let mut edges = collect_graph_edges(list.as_slice(), graph, total);
    let ghost all = views(plans@);
    let ghost owned = views(list@);
    let ghost pairs = views(owners@);
    let ghost linked = edge_set(edges@);
    let mut i: usize = 0;
    proof {
        assert(linked.union(Set::empty()) =~= linked);
    }
    while i < total
        invariant
            i <= total == plans@.len(),
            all == views(plans@),
            owned == views(list@),
            pairs == views(owners@),
            owned == claims(all),
            repeated_claim(owned) is None,
            pairs == threads(all, views(graph@)),
            linked == graph_edges(owned, views(graph@)),
            all_declared(owned, pairs, all, i as int) matches Ok(more) && edge_set(edges@)
                == linked.union(more),
            edges_below(edges@, total as int),
            edges@.no_duplicates(),
            forall|k: int| 0 <= k < list@.len() ==> (#[trigger] list@[k]).shard < total,
        decreases total - i,
    {
        let ghost so_far = all_declared(owned, pairs, all, i as int)->Ok_0;
        proof {
            assert(all[i as int] == plans@[i as int]@);
        }
        let added = add_declared_edges(
            &mut edges,
            list.as_slice(),
            owners.as_slice(),
            i,
            total,
            plans[i].cross_shard_dependencies.as_slice(),
        );
        match added {
            Err(m) => {
                proof {
                    lemma_all_declared_prefix(owned, pairs, all, i + 1, total as int);
                }
                return Err(m);
            },
            Ok(_) => {
                proof {
                    let more = declared_edges(
                        owned,
                        pairs,
                        i as int,
                        total as int,
                        all[i as int].cross_shard_dependencies,
                    )->Ok_0;
                    assert(linked.union(so_far).union(more) =~= linked.union(so_far.union(more)));
                }
            },
        }
        i += 1;
    }
    Ok(edges)
}

// ---- computing the levels -------------------------------------------------------------------
/// How many entries are false.
pub open spec fn count_open(done: Seq<bool>) -> nat
    decreases done.len(),
{
    if done.len() == 0 {
        0
    } else {
        count_open(done.drop_last()) + (if done.last() {
            0nat
        } else {
            1nat
        })
    }
}

proof fn lemma_count_close(done: Seq<bool>, v: int)
    requires
        0 <= v < done.len(),
        !done[v],
    ensures
        count_open(done.update(v, true)) + 1 == count_open(done),
    decreases done.len(),
{
    let after = done.update(v, true);
    if v == done.len() - 1 {
        assert(after.drop_last() =~= done.drop_last());
    } else {
        lemma_count_close(done.drop_last(), v);
        assert(after.drop_last() =~= done.drop_last().update(v, true));
    }
}

proof fn lemma_count_none(done: Seq<bool>)
    ensures
        count_open(done) <= done.len(),
        count_open(done) == 0 ==> forall|v: int| 0 <= v < done.len() ==> done[v],
        (forall|v: int| 0 <= v < done.len() ==> !done[v]) ==> count_open(done) == done.len(),
    decreases done.len(),
{
    if done.len() > 0 {
        let rest = done.drop_last();
        lemma_count_none(rest);
        assert forall|v: int| 0 <= v < rest.len() implies rest[v] == done[v] by {}
        if forall|v: int| 0 <= v < done.len() ==> !done[v] {
            assert(forall|v: int| 0 <= v < rest.len() ==> !rest[v]);
        }
        if count_open(done) == 0 {
            assert(forall|v: int| 0 <= v < done.len() ==> done[v]) by {
                assert forall|v: int| 0 <= v < done.len() implies done[v] by {
                    if v < rest.len() {
                        assert(rest[v]);
                    }
                }
            }
        }
    }
}

/// Whether what a shard waits for has its level already.
spec fn settled(edges: Set<(int, int)>, done: Seq<bool>, v: int) -> bool {
    forall|u: int| #[trigger] edges.contains((u, v)) ==> 0 <= u < done.len() && done[u]
}

fn is_settled(edges: &[(usize, usize)], done: &[bool], v: usize) -> (r: bool)
    requires
        edges_below(edges@, done@.len() as int),
    ensures
        r == settled(edge_set(edges@), done@, v as int),
        !r ==> exists|u: int|
            #[trigger] edge_set(edges@).contains((u, v as int)) && 0 <= u < done@.len() && !done@[u],
{
    let mut i: usize = 0;
    while i < edges.len()
        invariant
            i <= edges@.len(),
            edges_below(edges@, done@.len() as int),
            forall|k: int| 0 <= k < i && (#[trigger] edges@[k]).1 == v ==> done@[edges@[k].0 as int],
        decreases edges@.len() - i,
    {
        proof {
            assert(edges@[i as int].0 < done@.len());
        }
        if edges[i].1 == v && !done[edges[i].0] {
            proof {
                assert(edge_set(edges@).contains((edges@[i as int].0 as int, v as int)));
            }
            return false;
        }
        i += 1;
    }
    true
}

/// The first shard without a level that waits for none without a level.
fn find_ready(edges: &[(usize, usize)], done: &[bool]) -> (r: Option<usize>)
    requires
        edges_below(edges@, done@.len() as int),
    ensures
        match r {
            Some(v) => v < done@.len() && !done@[v as int] && settled(
                edge_set(edges@),
                done@,
                v as int,
            ),
            None => forall|v: int|
                0 <= v < done@.len() && !(#[trigger] done@[v]) ==> exists|u: int|
                    #[trigger] edge_set(edges@).contains((u, v)) && 0 <= u < done@.len()
                        && !done@[u],
        },
{
    let mut v: usize = 0;
    while v < done.len()
        invariant
            v <= done@.len(),
            edges_below(edges@, done@.len() as int),
            forall|w: int|
                0 <= w < v && !(#[trigger] done@[w]) ==> exists|u: int|
                    #[trigger] edge_set(edges@).contains((u, w)) && 0 <= u < done@.len()
                        && !done@[u],
        decreases done@.len() - v,
    {
        if !done[v] && is_settled(edges, done, v) {
            return Some(v);
        }
        v += 1;
    }
    None
}

/// The level above all those that the shard waits for.
fn level_above(edges: &[(usize, usize)], levels: &[usize], v: usize, bound: usize) -> (r: usize)
    requires
        edges_below(edges@, levels@.len() as int),
        forall|u: int| #[trigger]
            edge_set(edges@).contains((u, v as int)) ==> levels@[u] < bound,
    ensures
        r <= bound,
        forall|u: int| #[trigger] edge_set(edges@).contains((u, v as int)) ==> levels@[u] < r,
        r > 0 ==> exists|u: int|
            0 <= u < levels@.len() && #[trigger] edge_set(edges@).contains((u, v as int))
                && levels@[u] + 1 == r,
{
    let mut level: usize = 0;
    let mut i: usize = 0;
    while i < edges.len()
        invariant
            i <= edges@.len(),
            level <= bound,
            edges_below(edges@, levels@.len() as int),
            forall|u: int| #[trigger]
                edge_set(edges@).contains((u, v as int)) ==> levels@[u] < bound,
            forall|k: int|
                0 <= k < i && (#[trigger] edges@[k]).1 == v ==> levels@[edges@[k].0 as int] < level,
            level > 0 ==> exists|u: int|
                0 <= u < levels@.len() && #[trigger] edge_set(edges@).contains((u, v as int))
                    && levels@[u] + 1 == level,
        decreases edges@.len() - i,
    {
        proof {
            assert(edges@[i as int].0 < levels@.len());
        }
        if edges[i].1 == v {
            proof {
                assert(edge_set(edges@).contains((edges@[i as int].0 as int, v as int)));
            }
            if levels[edges[i].0] + 1 > level {
                level = levels[edges[i].0] + 1;
            }
        }
        i += 1;
    }
    level
}

proof fn feeder(edges: Set<(int, int)>, s: Set<int>, v: int) -> (u: int)
    requires
        self_feeding(edges, s),
        s.contains(v),
    ensures
        s.contains(u),
        edges.contains((u, v)),
{
    reveal(self_feeding);
    choose|u: int| s.contains(u) && #[trigger] edges.contains((u, v))
}

/// A shard that has a level is on no cycle and behind none.
proof fn lemma_levelled_not_stuck(
    edges: Set<(int, int)>,
    done: Seq<bool>,
    levels: Seq<usize>,
    s: Set<int>,
    v: int,
)
    requires
        levels.len() == done.len(),
        0 <= v < done.len(),
        done[v],
        forall|w: int| 0 <= w < done.len() && done[w] ==> settled(edges, done, w),
        forall|u: int, w: int| #[trigger]
            edges.contains((u, w)) && 0 <= w < done.len() && done[w] ==> levels[u] < levels[w],
        self_feeding(edges, s),
    ensures
        !s.contains(v),
    decreases levels[v],
{
    if s.contains(v) {
        let u = feeder(edges, s, v);
        assert(settled(edges, done, v));
        lemma_levelled_not_stuck(edges, done, levels, s, u);
    }
}

/// Gives each shard its level, as far as the cycles leave it one.
fn assign_levels(edges: &[(usize, usize)], total: usize) -> (r: (Vec<usize>, Vec<bool>))
    requires
        edges_below(edges@, total as int),
    ensures
        r.0@.len() == total,
        r.1@.len() == total,
        forall|v: int| 0 <= v < total ==> (#[trigger] r.1@[v] <==> !stuck(edge_set(edges@), v)),
        (forall|v: int| 0 <= v < total ==> #[trigger] r.1@[v]) ==> is_levels(
            edge_set(edges@),
            r.0@,
        ),
{
    let ghost order = edge_set(edges@);
    let mut levels: Vec<usize> = Vec::new();
    let mut done: Vec<bool> = Vec::new();
    let mut i: usize = 0;
    while i < total
        invariant
            i <= total,
            levels@.len() == i,
            done@.len() == i,
            forall|v: int| 0 <= v < i ==> !(#[trigger] done@[v]),
        decreases total - i,
    {
        levels.push(0);
        done.push(false);
        i += 1;
    }
    let mut visited: usize = 0;
    proof {
        lemma_count_none(done@);
    }
    loop
        invariant
            edges_below(edges@, total as int),
            order == edge_set(edges@),
            levels@.len() == total,
            done@.len() == total,
            visited + count_open(done@) == total,
            forall|v: int| 0 <= v < total && #[trigger] done@[v] ==> settled(order, done@, v),
            forall|v: int| 0 <= v < total && #[trigger] done@[v] ==> levels@[v] < visited,
            forall|u: int, v: int| #[trigger]
                order.contains((u, v)) && 0 <= v < total && done@[v] ==> levels@[u] < levels@[v],
            forall|v: int|
                0 <= v < total && #[trigger] done@[v] && levels@[v] > 0 ==> exists|u: int|
                    0 <= u < total && #[trigger] order.contains((u, v)) && levels@[u] + 1
                        == levels@[v],
        ensures
            levels@.len() == total,
            done@.len() == total,
            forall|v: int| 0 <= v < total && #[trigger] done@[v] ==> settled(order, done@, v),
            forall|u: int, v: int| #[trigger]
                order.contains((u, v)) && 0 <= v < total && done@[v] ==> levels@[u] < levels@[v],
            forall|v: int|
                0 <= v < total && #[trigger] done@[v] && levels@[v] > 0 ==> exists|u: int|
                    0 <= u < total && #[trigger] order.contains((u, v)) && levels@[u] + 1
                        == levels@[v],
            forall|v: int|
                0 <= v < total && !(#[trigger] done@[v]) ==> exists|u: int|
                    #[trigger] order.contains((u, v)) && 0 <= u < total && !done@[u],
        decreases total - visited,
    {
        let ready = find_ready(edges, done.as_slice());
        if ready.is_none() {
            break;
        }
        let v = ready.unwrap();
        let ghost before = levels@;
        let ghost open = done@;
        proof {
            lemma_count_close(open, v as int);
            assert forall|u: int| #[trigger] order.contains((u, v as int)) implies levels@[u]
                < visited by {
                assert(done@[u]);
            }
        }
        let level = level_above(edges, levels.as_slice(), v, visited);
        levels.set(v, level);
        done.set(v, true);
        visited += 1;
        proof {
            assert forall|w: int| 0 <= w < total && #[trigger] done@[w] implies settled(
                order,
                done@,
                w,
            ) by {
                assert forall|u: int| #[trigger] order.contains((u, w)) implies 0 <= u < done@.len()
                    && done@[u] by {
                    if w != v {
                        assert(open[w]);
                        assert(settled(order, open, w));
                    }
                }
            }
            assert forall|u: int, w: int| #[trigger]
                order.contains((u, w)) && 0 <= w < total && done@[w] implies levels@[u]
                < levels@[w] by {
                if w != v {
                    assert(open[w]);
                    assert(settled(order, open, w));
                    assert(open[u]);
                    assert(u != v);
                } else {
                    assert(settled(order, open, w));
                    assert(u != v);
                }
            }
            assert forall|w: int|
                0 <= w < total && #[trigger] done@[w] && levels@[w] > 0 implies exists|u: int|
                0 <= u < total && #[trigger] order.contains((u, w)) && levels@[u] + 1
                    == levels@[w] by {
                if w != v {
                    assert(open[w]);
                    let u = choose|u: int|
                        0 <= u < total && #[trigger] order.contains((u, w)) && before[u] + 1
                            == before[w];
                    assert(settled(order, open, w));
                    assert(levels@[u] == before[u]);
                    assert(order.contains((u, w)));
                } else {
                    let u = choose|u: int|
                        0 <= u < total && #[trigger] order.contains((u, w)) && before[u] + 1
                            == level;
                    assert(settled(order, open, w));
                    assert(levels@[u] == before[u]);
                    assert(order.contains((u, w)));
                }
            }
        }
    }
    proof {
        let rest = Set::new(|v: int| 0 <= v < total && !done@[v]);
        assert(self_feeding(order, rest)) by {
            reveal(self_feeding);
            assert forall|v: int| #[trigger] rest.contains(v) implies exists|u: int|
                rest.contains(u) && #[trigger] order.contains((u, v)) by {
                assert(!done@[v]);
                let u = choose|u: int|
                    #[trigger] order.contains((u, v)) && 0 <= u < total && !done@[u];
                assert(rest.contains(u) && order.contains((u, v)));
            }
        }
        assert forall|v: int| 0 <= v < total implies (#[trigger] done@[v] <==> !stuck(order, v)) by {
            if done@[v] {
                assert forall|s: Set<int>| #[trigger] s.contains(v) && self_feeding(order, s) implies false by {
                    lemma_levelled_not_stuck(order, done@, levels@, s, v);
                }
            } else {
                assert(rest.contains(v));
            }
        }
        if forall|v: int| 0 <= v < total ==> #[trigger] done@[v] {
            assert forall|v: int| 0 <= v < levels@.len() && (#[trigger] levels@[v])
                > 0 implies exists|u: int|
                0 <= u < levels@.len() && #[trigger] order.contains((u, v)) && levels@[u] + 1
                    == levels@[v] by {
                assert(done@[v]);
            }
            assert forall|u: int, v: int| #[trigger]
                order.contains((u, v)) && 0 <= u < levels@.len() && 0 <= v
                    < levels@.len() implies levels@[u] < levels@[v] by {
                assert(done@[v]);
            }
        }
    }
    (levels, done)
}

/// The message that names the shards whose turn never comes.
pub open spec fn cycle_message(edges: Set<(int, int)>, total: int) -> Seq<char> {
    "跨分片依赖存在循环，涉及分片："@ + join(stuck_numbers(edges, total), "、"@)
}

/// The level of each shard: shards of one level can be rewritten at the same time, once those
/// of all lower levels are done.
pub fn build_dependency_levels(plans: &[RewritePlan], graph: &[SourceImpactNode]) -> (r: Result<
    Vec<usize>,
    String,
>)
    ensures
        match shard_order(views(plans@), views(graph@)) {
            Err(e) => r matches Err(m) && m@ == e,
            Ok(order) => match r {
                Ok(levels) => levels@.len() == plans@.len() && is_levels(order, levels@)
                    && stuck_numbers(order, plans@.len() as int).len() == 0,
                Err(m) => stuck_numbers(order, plans@.len() as int).len() > 0 && m@
                    == cycle_message(order, plans@.len() as int),
            },
        },
        r matches Ok(levels) ==> forall|a: int, b: int|
            0 <= a < plans@.len() && 0 <= b < plans@.len() && a != b && #[trigger] leads_to(
                views(plans@),
                views(graph@),
                a,
                b,
            ) ==> levels@[a] < levels@[b],
{
    let total = plans.len();
    let edges = match collect_edges(plans, graph) {
        Ok(edges) => edges,
        Err(m) => {
            return Err(m);
        },
    };
    let ghost order = edge_set(edges@);
    let (levels, done) = assign_levels(edges.as_slice(), total);
    let mut cyclic: Vec<String> = Vec::new();
    let mut v: usize = 0;
    while v < total
        invariant
            v <= total,
            done@.len() == total,
            views(cyclic@) == stuck_numbers(order, v as int),
            cyclic@.len() == 0 ==> forall|w: int| 0 <= w < v ==> #[trigger] done@[w],
            forall|w: int| 0 <= w < total ==> (#[trigger] done@[w] <==> !stuck(order, w)),
        decreases total - v,
    {
        if !done[v] {
            let ghost before = cyclic@;
            cyclic.push(usize_text(v + 1));
            proof {
                lemma_views_push(before, cyclic@.last());
            }
        }
        v += 1;
    }
    if cyclic.len() > 0 {
        let mut m = "跨分片依赖存在循环，涉及分片：".to_string();
        let numbers = join_texts(cyclic.as_slice(), "、");
        m.append(numbers.as_str());
        return Err(m);
    }
    proof {
        assert forall|a: int, b: int|
            0 <= a < plans@.len() && 0 <= b < plans@.len() && a != b && #[trigger] leads_to(
                views(plans@),
                views(graph@),
                a,
                b,
            ) implies levels@[a] < levels@[b] by {
            law_links_order_the_shards(views(plans@), views(graph@), levels@, a, b);
        }
    }
    Ok(levels)
}

// ---- laws -----------------------------------------------------------------------------------
/// The order of the shards leaves no choice of levels: two ways to number them by `is_levels` are
/// the same.
pub proof fn law_levels_unique(edges: Set<(int, int)>, a: Seq<usize>, b: Seq<usize>)
    requires
        a.len() == b.len(),
        is_levels(edges, a),
        is_levels(edges, b),
    ensures
        a == b,
{
    assert forall|v: int| 0 <= v < a.len() implies a[v] == b[v] by {
        lemma_level_not_above(edges, a, b, v);
        lemma_level_not_above(edges, b, a, v);
    }
    assert(a =~= b);
}

proof fn lemma_level_not_above(edges: Set<(int, int)>, a: Seq<usize>, b: Seq<usize>, v: int)
    requires
        a.len() == b.len(),
        is_levels(edges, a),
        is_levels(edges, b),
        0 <= v < a.len(),
    ensures
        a[v] <= b[v],
    decreases a[v],
{
    if a[v] > 0 {
        assert(stands_next_above(edges, a, v));
        let u = choose|u: int|
            0 <= u < a.len() && #[trigger] edges.contains((u, v)) && a[u] + 1 == a[v];
        lemma_level_not_above(edges, a, b, u);
    }
}

/// Shards of one level never wait for one another.
pub proof fn law_level_is_independent(edges: Set<(int, int)>, levels: Seq<usize>, u: int, v: int)
    requires
        is_levels(edges, levels),
        0 <= u < levels.len(),
        0 <= v < levels.len(),
        levels[u] == levels[v],
    ensures
        !edges.contains((u, v)),
        !edges.contains((v, u)),
{
}

/// Where the shards can be numbered by levels, no shard waits on a cycle.
pub proof fn law_levels_exclude_cycles(edges: Set<(int, int)>, levels: Seq<usize>, v: int)
    requires
        is_levels(edges, levels),
        forall|e: (int, int)| #[trigger]
            edges.contains(e) ==> 0 <= e.0 < levels.len() && 0 <= e.1 < levels.len(),
        0 <= v < levels.len(),
    ensures
        !stuck(edges, v),
{
    let done = Seq::new(levels.len(), |i: int| true);
    assert forall|s: Set<int>| #[trigger] s.contains(v) && self_feeding(edges, s) implies false by {
        assert forall|w: int| 0 <= w < done.len() && done[w] implies settled(edges, done, w) by {}
        lemma_levelled_not_stuck(edges, done, levels, s, v);
    }
}

} // verus!
