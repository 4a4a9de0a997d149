use vstd::prelude::*;
use std::collections::HashMap;
use crate::errors::{GraphError, numbered, numbered_message};
use crate::graph::{GraphContainer, ProcessedGraph};
use crate::heap::{outranks, SearchState, StateHeap};
use vstd::multiset::Multiset;

verus! {

broadcast use vstd::std_specs::hash::group_hash_axioms;

/// Estimates the remaining cost from `node` to `end`, possibly looking ahead
/// to the waypoint after `end`. Implementations decide the estimate; the
/// route search is sound for every estimate.
pub trait RouteHeuristic {
    fn estimate(&self, graph: &ProcessedGraph, node: u32, end: u32, next: Option<u32>) -> u32;
}

/// No estimate: every node is taken as next to the end, so that the search
/// looks for a cheapest route.
pub struct ZeroEstimate;

impl RouteHeuristic for ZeroEstimate {
    fn estimate(&self, graph: &ProcessedGraph, node: u32, end: u32, next: Option<u32>) -> (r: u32)
        ensures
            r == 0,
    {
        0
    }
}

/// A search state's identity: a node together with the external id of the
/// node it was reached from.
#[derive(Clone, Copy, PartialEq, Eq, Debug)]
pub struct VisitedKey {
    pub node_id: u32,
    pub prev_external_id: Option<i64>,
}

pub open spec fn code_stride() -> int {
    0x4_0000_0000_0000_0000
}

pub open spec fn prev_tag(p: Option<i64>) -> int {
    match p {
        None => 0,
        Some(x) => x + 0x8000_0000_0000_0001,
    }
}

/// A one-to-one integer code of a search key.
pub open spec fn key_code(k: VisitedKey) -> int {
    k.node_id * code_stride() + prev_tag(k.prev_external_id)
}

proof fn lemma_key_code_injective(a: VisitedKey, b: VisitedKey)
    requires
        key_code(a) == key_code(b),
    ensures
        a == b,
{
    let ta = prev_tag(a.prev_external_id);
    let tb = prev_tag(b.prev_external_id);
    assert(0 <= ta < code_stride() && 0 <= tb < code_stride());
    let na = a.node_id as int;
    let nb = b.node_id as int;
    assert(na == nb) by (nonlinear_arith)
        requires
            na * 0x4_0000_0000_0000_0000 + ta == nb * 0x4_0000_0000_0000_0000 + tb,
            0 <= ta < 0x4_0000_0000_0000_0000,
            0 <= tb < 0x4_0000_0000_0000_0000,
            na >= 0,
            nb >= 0,
    ;
}

fn key_code_exec(k: &VisitedKey) -> (r: u128)
    ensures
        r == key_code(*k),
{
    let tag: u128 = match k.prev_external_id {
        None => 0,
        Some(x) => ((x as i128) + 0x8000_0000_0000_0001i128) as u128,
    };
    (k.node_id as u128) * 0x4_0000_0000_0000_0000u128 + tag
}

/// One move of the search: along an edge, remembering where it came from,
/// and never straight back to the node it came from.
pub open spec fn is_step(g: &ProcessedGraph, p: VisitedKey, k: VisitedKey) -> bool {
    &&& p.node_id < g.n()
    &&& k.node_id < g.n()
    &&& g.has_edge(p.node_id, k.node_id)
    &&& k.prev_external_id == Some(g.ext(p.node_id))
    &&& p.prev_external_id != Some(g.ext(k.node_id))
}

/// A walk of search states from `start`.
pub open spec fn is_search_walk(g: &ProcessedGraph, ks: Seq<VisitedKey>, start: VisitedKey) -> bool {
    &&& ks.len() >= 1
    &&& ks[0] == start
    &&& forall|i: int| 0 <= i < ks.len() - 1 ==> #[trigger] is_step(g, ks[i], ks[i + 1])
}

/// External ids along a walk.
pub open spec fn walk_external_ids(g: &ProcessedGraph, ks: Seq<VisitedKey>) -> Seq<i64> {
    ks.map_values(|k: VisitedKey| g.ext(k.node_id))
}

/// A route through `g` from `start` (first reached from `initial_prev`) to a
/// node with external id `end`, given by external ids, that never turns
/// straight back.
pub open spec fn is_route(
    g: &ProcessedGraph,
    path: Seq<i64>,
    start: u32,
    initial_prev: Option<i64>,
    end: u32,
) -> bool {
    exists|ks: Seq<VisitedKey>|
        #![trigger walk_external_ids(g, ks)]
        is_search_walk(g, ks, VisitedKey { node_id: start, prev_external_id: initial_prev })
            && ks.last().node_id == end && path == walk_external_ids(g, ks)
}

pub open spec fn sum_g(order: Seq<int>, gm: Map<u128, u32>) -> int
    decreases order.len(),
{
    if order.len() == 0 {
        0
    } else {
        sum_g(order.drop_last(), gm) + gm[order.last() as u128]
    }
}

proof fn lemma_sum_g_update(order: Seq<int>, gm: Map<u128, u32>, x: u128, v: u32)
    requires
        order.no_duplicates(),
        order.contains(x as int),
        forall|i: int| 0 <= i < order.len() ==> 0 <= #[trigger] order[i] <= u128::MAX,
    ensures
        sum_g(order, gm.insert(x, v)) == sum_g(order, gm) - gm[x] + v,
    decreases order.len(),
{
    let l = order.last();
    if l == x as int {
        assert(!order.drop_last().contains(x as int)) by {
            if order.drop_last().contains(x as int) {
                let j = choose|j: int| 0 <= j < order.drop_last().len() && order.drop_last()[j] == x as int;
                assert(order[j] == order[order.len() - 1]);
            }
        }
        lemma_sum_g_unchanged(order.drop_last(), gm, x, v);
    } else {
        let j = choose|j: int| 0 <= j < order.len() && order[j] == x as int;
        assert(order.drop_last()[j] == x as int);
        lemma_sum_g_update(order.drop_last(), gm, x, v);
        assert(l as u128 != x);
    }
}

proof fn lemma_sum_g_unchanged(order: Seq<int>, gm: Map<u128, u32>, x: u128, v: u32)
    requires
        !order.contains(x as int),
        forall|i: int| 0 <= i < order.len() ==> 0 <= #[trigger] order[i] <= u128::MAX,
    ensures
        sum_g(order, gm.insert(x, v)) == sum_g(order, gm),
    decreases order.len(),
{
    if order.len() > 0 {
        assert(order.last() != x as int);
        assert forall|k: int| !order.drop_last().contains(k) || order.contains(k) by {
            if order.drop_last().contains(k) {
                let j = choose|j: int| 0 <= j < order.drop_last().len() && order.drop_last()[j] == k;
                assert(order[j] == k);
            }
        }
        lemma_sum_g_unchanged(order.drop_last(), gm, x, v);
    }
}

proof fn lemma_order_bound(order: Seq<int>, u: int)
    requires
        order.no_duplicates(),
        u >= 0,
        forall|i: int| 0 <= i < order.len() ==> 0 <= #[trigger] order[i] < u,
    ensures
        order.len() <= u,
{
    order.unique_seq_to_set();
    vstd::set_lib::lemma_int_range(0, u);
    assert(order.to_set().subset_of(vstd::set_lib::set_int_range(0, u)));
    vstd::set_lib::lemma_len_subset(order.to_set(), vstd::set_lib::set_int_range(0, u));
}

pub open spec fn state_key(s: SearchState) -> VisitedKey {
    VisitedKey { node_id: s.node_id, prev_external_id: s.prev_external_id }
}

/// The search's bookkeeping: costs, predecessors, and the ghost facts that
/// make predecessor chains valid walks that end at the start.
#[verifier::opaque]
pub open spec fn search_inv(
    g: &ProcessedGraph,
    start: VisitedKey,
    gs: Map<u128, u32>,
    cf: Map<u128, VisitedKey>,
    keys: Map<u128, VisitedKey>,
    stamp: Map<u128, nat>,
    clock: nat,
) -> bool {
    let sc = key_code(start) as u128;
    &&& gs.contains_key(sc) && gs[sc] == 0 && !cf.contains_key(sc)
    &&& keys.contains_key(sc) && keys[sc] == start
    &&& forall|x: u128| #[trigger] cf.contains_key(x) ==> gs.contains_key(x)
    &&& forall|x: u128| #[trigger] gs.contains_key(x) ==> x == sc || cf.contains_key(x)
    &&& forall|x: u128| #[trigger] gs.contains_key(x) ==> keys.contains_key(x) && key_code(keys[x])
        == x && keys[x].node_id < g.n() && stamp.contains_key(x) && stamp[x] < clock
    &&& forall|x: u128| #[trigger] cf.contains_key(x) ==> {
        let p = cf[x];
        let pc = key_code(p) as u128;
        &&& gs.contains_key(pc)
        &&& is_step(g, p, keys[x])
        &&& gs[pc] <= gs[x]
        &&& (gs[pc] < gs[x] || stamp[pc] < stamp[x])
    }
}

/// Follows predecessors back from `current_key` and lists the nodes from the
/// start of the search to it.
fn reconstruct_path(
    current_key: VisitedKey,
    came_from: &HashMap<u128, VisitedKey>,
    Ghost(g): Ghost<&ProcessedGraph>,
    Ghost(start): Ghost<VisitedKey>,
    Ghost(gs): Ghost<Map<u128, u32>>,
    Ghost(keys): Ghost<Map<u128, VisitedKey>>,
    Ghost(stamp): Ghost<Map<u128, nat>>,
    Ghost(clock): Ghost<nat>,
) -> (r: (Vec<u32>, Ghost<Seq<VisitedKey>>))
    requires
        search_inv(g, start, gs, came_from@, keys, stamp, clock),
        gs.contains_key(key_code(current_key) as u128),
    ensures
        is_search_walk(g, r.1@, start),
        r.1@.last() == current_key,
        r.0@ == r.1@.map_values(|k: VisitedKey| k.node_id),
        !came_from@.contains_key(key_code(current_key) as u128) ==> r.1@ == seq![current_key],
        forall|i: int| 0 <= i < r.1@.len() - 1 ==> came_from@.contains_key(#[trigger] key_code(r.1@[i + 1]) as u128)
            && came_from@[key_code(r.1@[i + 1]) as u128] == r.1@[i],
{
    reveal(search_inv);
    let ghost cf = came_from@;
    let mut cur = current_key;
    let mut rev: Vec<u32> = Vec::new();
    rev.push(cur.node_id);
    let ghost mut ks: Seq<VisitedKey> = seq![cur];
    proof {
        let c = key_code(cur) as u128;
        lemma_key_code_injective(keys[c], cur);
    }
    loop
        invariant
            search_inv(g, start, gs, cf, keys, stamp, clock),
            cf == came_from@,
            gs.contains_key(key_code(cur) as u128),
            keys[key_code(cur) as u128] == cur,
            ks.len() >= 1,
            ks[0] == current_key,
            ks.last() == cur,
            forall|i: int| 0 <= i < ks.len() - 1 ==> #[trigger] is_step(g, ks[i + 1], ks[i]),
            rev@ == ks.map_values(|k: VisitedKey| k.node_id),
            !cf.contains_key(key_code(current_key) as u128) ==> ks.len() == 1,
            forall|i: int| 0 <= i < ks.len() - 1 ==> cf.contains_key(#[trigger] key_code(ks[i]) as u128)
                && cf[key_code(ks[i]) as u128] == ks[i + 1],
        ensures
            search_inv(g, start, gs, cf, keys, stamp, clock),
            gs.contains_key(key_code(cur) as u128),
            !cf.contains_key(key_code(cur) as u128),
            keys[key_code(cur) as u128] == cur,
            ks.len() >= 1,
            ks[0] == current_key,
            ks.last() == cur,
            forall|i: int| 0 <= i < ks.len() - 1 ==> #[trigger] is_step(g, ks[i + 1], ks[i]),
            rev@ == ks.map_values(|k: VisitedKey| k.node_id),
            !cf.contains_key(key_code(current_key) as u128) ==> ks.len() == 1,
            forall|i: int| 0 <= i < ks.len() - 1 ==> cf.contains_key(#[trigger] key_code(ks[i]) as u128)
                && cf[key_code(ks[i]) as u128] == ks[i + 1],
        decreases gs[key_code(cur) as u128], stamp[key_code(cur) as u128],
    {
        proof {
            reveal(search_inv);
        }
        let code = key_code_exec(&cur);
        match came_from.get(&code) {
            Some(p) => {
                let p = *p;
                proof {
                    let pc = key_code(p) as u128;
                    lemma_key_code_injective(keys[pc], p);
                    ks = ks.push(p);
                }
                rev.push(p.node_id);
                cur = p;
            },
            None => {
                break;
            },
        }
    }
    proof {
        let sc = key_code(start) as u128;
        let c = key_code(cur) as u128;
        assert(c == sc);
        lemma_key_code_injective(cur, start);
    }
    let mut path: Vec<u32> = Vec::new();
    let n = rev.len();
    let mut i: usize = 0;
    while i < n
        invariant
            n == rev@.len(),
            i <= n,
            path@.len() == i,
            forall|j: int| 0 <= j < i ==> path@[j] == #[trigger] rev@[n - 1 - j],
        decreases n - i,
    {
        path.push(rev[n - 1 - i]);
        i = i + 1;
    }
    let ghost fwd = ks.reverse();
    proof {
        assert forall|j: int| 0 <= j < fwd.len() - 1 implies #[trigger] is_step(g, fwd[j], fwd[j + 1]) by {
            let a = ks.len() - 1 - j;
            assert(fwd[j] == ks[a] && fwd[j + 1] == ks[a - 1]);
            assert(is_step(g, ks[(a - 1) + 1], ks[a - 1]));
        }
        assert forall|j: int| 0 <= j < path@.len() implies path@[j] == fwd.map_values(
            |k: VisitedKey| k.node_id,
        )[j] by {
            assert(path@[j] == rev@[n - 1 - j]);
        }
        assert(path@ == fwd.map_values(|k: VisitedKey| k.node_id));
        if !cf.contains_key(key_code(current_key) as u128) {
            assert(fwd =~= seq![current_key]);
        }
        assert forall|j: int| 0 <= j < fwd.len() - 1 implies cf.contains_key(#[trigger] key_code(fwd[j + 1]) as u128)
            && cf[key_code(fwd[j + 1]) as u128] == fwd[j] by {
            let a = ks.len() - 1 - j;
            assert(fwd[j] == ks[a] && fwd[j + 1] == ks[a - 1]);
            assert(cf.contains_key(key_code(ks[a - 1]) as u128) && cf[key_code(ks[a - 1]) as u128] == ks[(a - 1) + 1]);
        }
    }
    (path, Ghost(fwd))
}


/// The search state that edge `e` of the node of state `k` leads to.
pub open spec fn edge_next(g: &ProcessedGraph, k: VisitedKey, e: int) -> VisitedKey {
    VisitedKey { node_id: g.out_edges(k.node_id)[e].0, prev_external_id: Some(g.ext(k.node_id)) }
}

/// Edge `e` of the node of state `k` leads straight back to the node that
/// `k` came from.
pub open spec fn turns_back(g: &ProcessedGraph, k: VisitedKey, e: int) -> bool {
    k.prev_external_id == Some(g.ext(g.out_edges(k.node_id)[e].0))
}

/// A walk of search states from `start` along edges: edge `es[i]` of the node
/// of state `i` leads to state `i + 1`, never straight back.
pub open spec fn is_edge_walk(g: &ProcessedGraph, ks: Seq<VisitedKey>, es: Seq<int>, start: VisitedKey) -> bool {
    &&& ks.len() >= 1
    &&& ks[0] == start
    &&& es.len() + 1 == ks.len()
    &&& forall|i: int|
        0 <= i < es.len() ==> 0 <= #[trigger] es[i] < g.out_edges(ks[i].node_id).len() && edge_next(g, ks[i], es[i])
            == ks[i + 1] && !turns_back(g, ks[i], es[i])
}

/// The summed cost of the first `n` edges of a walk.
pub open spec fn edge_walk_cost(g: &ProcessedGraph, ks: Seq<VisitedKey>, es: Seq<int>, n: int) -> int
    decreases n,
{
    if n <= 0 {
        0
    } else {
        edge_walk_cost(g, ks, es, n - 1) + g.out_edges(ks[n - 1].node_id)[es[n - 1]].1
    }
}

/// No walk from node `s`, first reached from `prev`, to node `t` costs less
/// than the largest cost.
pub open spec fn leg_unreachable(g: &ProcessedGraph, s: u32, prev: Option<i64>, t: u32) -> bool {
    forall|ks: Seq<VisitedKey>, es: Seq<int>|
        #[trigger] is_edge_walk(g, ks, es, VisitedKey { node_id: s, prev_external_id: prev }) && ks.last().node_id == t
            ==> edge_walk_cost(g, ks, es, es.len() as int) >= u32::MAX
}

/// Edge `e` from the state recorded under code `x` has been tried: it turns
/// back, or through it the cost reaches the largest cost, or its target is
/// recorded no dearer than through it.
pub open spec fn edge_tried(g: &ProcessedGraph, gs: Map<u128, u32>, keys: Map<u128, VisitedKey>, x: u128, e: int) -> bool {
    let k = keys[x];
    let c = g.out_edges(k.node_id)[e].1;
    let nc = key_code(edge_next(g, k, e)) as u128;
    turns_back(g, k, e) || gs[x] + c >= u32::MAX || (gs.contains_key(nc) && gs[nc] <= gs[x] + c)
}

/// The frontier of the search: every recorded state is settled, with all its
/// edges tried and not at the end node, or waits in the open set at its
/// recorded cost; the state `cur`, while it is being settled, has its first
/// `j` edges tried.
pub open spec fn frontier_ok(
    g: &ProcessedGraph,
    end: u32,
    done: Set<u128>,
    gs: Map<u128, u32>,
    keys: Map<u128, VisitedKey>,
    open: Multiset<SearchState>,
    cur: Option<u128>,
    j: int,
) -> bool {
    &&& forall|x: u128| #[trigger] done.contains(x) ==> {
        &&& gs.contains_key(x)
        &&& keys[x].node_id != end
        &&& cur != Some(x)
        &&& forall|e: int| 0 <= e < g.out_edges(keys[x].node_id).len() ==> #[trigger] edge_tried(g, gs, keys, x, e)
    }
    &&& forall|x: u128| #[trigger] gs.contains_key(x) && !done.contains(x) && cur != Some(x) ==> exists|st: SearchState|
        #![trigger open.count(st)]
        open.count(st) > 0 && key_code(state_key(st)) == x && st.cost == gs[x]
    &&& cur matches Some(xc) ==> {
        &&& gs.contains_key(xc)
        &&& keys[xc].node_id != end
        &&& !done.contains(xc)
        &&& forall|e: int| 0 <= e < j ==> #[trigger] edge_tried(g, gs, keys, xc, e)
    }
}

/// Taking from the open set a state dearer than its recorded cost keeps the
/// frontier.
proof fn lemma_frontier_skip(
    g: &ProcessedGraph,
    end: u32,
    done: Set<u128>,
    gs: Map<u128, u32>,
    keys: Map<u128, VisitedKey>,
    open: Multiset<SearchState>,
    st: SearchState,
)
    requires
        frontier_ok(g, end, done, gs, keys, open, None, 0),
        gs.contains_key(key_code(state_key(st)) as u128),
        st.cost > gs[key_code(state_key(st)) as u128],
    ensures
        frontier_ok(g, end, done, gs, keys, open.remove(st), None, 0),
{
    let open2 = open.remove(st);
    assert forall|x: u128| #[trigger] gs.contains_key(x) && !done.contains(x) && None::<u128> != Some(x) implies exists|st2: SearchState|
        #![trigger open2.count(st2)]
        open2.count(st2) > 0 && key_code(state_key(st2)) == x && st2.cost == gs[x] by {
        let w = choose|w: SearchState| #![trigger open.count(w)] open.count(w) > 0 && key_code(state_key(w)) == x && w.cost == gs[x];
        assert(w != st);
        assert(open2.count(w) > 0);
    }
}

/// Taking from the open set a state at its recorded cost starts settling it.
proof fn lemma_frontier_settle(
    g: &ProcessedGraph,
    end: u32,
    done: Set<u128>,
    gs: Map<u128, u32>,
    keys: Map<u128, VisitedKey>,
    open: Multiset<SearchState>,
    st: SearchState,
    x: u128,
)
    requires
        frontier_ok(g, end, done, gs, keys, open, None, 0),
        x == key_code(state_key(st)) as u128,
        gs.contains_key(x),
        keys[x].node_id != end,
    ensures
        frontier_ok(g, end, done.remove(x), gs, keys, open.remove(st), Some(x), 0),
{
    let open2 = open.remove(st);
    let done2 = done.remove(x);
    assert forall|y: u128| #[trigger] gs.contains_key(y) && !done2.contains(y) && Some(x) != Some(y) implies exists|st2: SearchState|
        #![trigger open2.count(st2)]
        open2.count(st2) > 0 && key_code(state_key(st2)) == y && st2.cost == gs[y] by {
        let w = choose|w: SearchState| #![trigger open.count(w)] open.count(w) > 0 && key_code(state_key(w)) == y && w.cost == gs[y];
        assert(w != st);
        assert(open2.count(w) > 0);
    }
}

/// Once all its edges are tried, the state being settled is settled.
proof fn lemma_frontier_settled(
    g: &ProcessedGraph,
    end: u32,
    done: Set<u128>,
    gs: Map<u128, u32>,
    keys: Map<u128, VisitedKey>,
    open: Multiset<SearchState>,
    x: u128,
)
    requires
        frontier_ok(g, end, done, gs, keys, open, Some(x), g.out_edges(keys[x].node_id).len() as int),
    ensures
        frontier_ok(g, end, done.insert(x), gs, keys, open, None, 0),
{
    let done2 = done.insert(x);
    assert forall|y: u128| #[trigger] done2.contains(y) implies {
        &&& gs.contains_key(y)
        &&& keys[y].node_id != end
        &&& None::<u128> != Some(y)
        &&& forall|e: int| 0 <= e < g.out_edges(keys[y].node_id).len() ==> #[trigger] edge_tried(g, gs, keys, y, e)
    } by {
        if y != x {
            assert(done.contains(y));
        }
    }
}

/// Trying an edge that turns back changes nothing and counts as tried.
proof fn lemma_frontier_turn_back(
    g: &ProcessedGraph,
    end: u32,
    done: Set<u128>,
    gs: Map<u128, u32>,
    keys: Map<u128, VisitedKey>,
    open: Multiset<SearchState>,
    x: u128,
    j: int,
)
    requires
        frontier_ok(g, end, done, gs, keys, open, Some(x), j),
        turns_back(g, keys[x], j),
    ensures
        frontier_ok(g, end, done, gs, keys, open, Some(x), j + 1),
{
    assert(edge_tried(g, gs, keys, x, j));
}

/// Relaxing edge `j` of the state being settled keeps the frontier, with
/// the edge tried; a state recorded at a lower cost is no longer settled.
proof fn lemma_frontier_relax(
    g: &ProcessedGraph,
    end: u32,
    done: Set<u128>,
    gs: Map<u128, u32>,
    keys: Map<u128, VisitedKey>,
    open: Multiset<SearchState>,
    gs2: Map<u128, u32>,
    keys2: Map<u128, VisitedKey>,
    open2: Multiset<SearchState>,
    x: u128,
    j: int,
)
    requires
        frontier_ok(g, end, done, gs, keys, open, Some(x), j),
        forall|y: u128| #[trigger] gs.contains_key(y) ==> key_code(keys[y]) == y,
        0 <= j < g.out_edges(keys[x].node_id).len(),
        !turns_back(g, keys[x], j),
        ({
            let nk = edge_next(g, keys[x], j);
            let nc = key_code(nk) as u128;
            let c = g.out_edges(keys[x].node_id)[j].1;
            let new_cost = if gs[x] + c >= u32::MAX { u32::MAX as int } else { gs[x] + c };
            let known = if gs.contains_key(nc) { gs[nc] as int } else { u32::MAX as int };
            &&& new_cost < known ==> {
                &&& gs2 == gs.insert(nc, new_cost as u32)
                &&& keys2 == keys.insert(nc, nk)
                &&& exists|st: SearchState| #![trigger state_key(st)] open2 == open.insert(st) && st.cost == new_cost && state_key(st) == nk
            }
            &&& new_cost >= known ==> gs2 == gs && keys2 == keys && open2 == open
        }),
    ensures
        ({
            let nc = key_code(edge_next(g, keys[x], j)) as u128;
            frontier_ok(g, end, if gs2 == gs { done } else { done.remove(nc) }, gs2, keys2, open2, Some(x), j + 1)
        }),
{
    let k = keys[x];
    let nk = edge_next(g, k, j);
    let nc = key_code(nk) as u128;
    let c = g.out_edges(k.node_id)[j].1;
    let new_cost = if gs[x] + c >= u32::MAX { u32::MAX as int } else { gs[x] + c };
    let known = if gs.contains_key(nc) { gs[nc] as int } else { u32::MAX as int };
    if new_cost < known {
        let done2 = done.remove(nc);
        assert(gs2 != gs) by {
            if gs.contains_key(nc) {
                assert(gs2[nc] != gs[nc]);
            } else {
                assert(gs2.contains_key(nc));
            }
        }
        let st = choose|st: SearchState| #![trigger state_key(st)] open2 == open.insert(st) && st.cost == new_cost && state_key(st) == nk;
        assert(nc != x) by {
            if nc == x {
                assert(known == gs[x]);
            }
        }
        assert(keys2[x] == k);
        assert(gs2[x] == gs[x]);
        assert forall|y: u128| #[trigger] done2.contains(y) implies {
            &&& gs2.contains_key(y)
            &&& keys2[y].node_id != end
            &&& Some(x) != Some(y)
            &&& forall|e: int| 0 <= e < g.out_edges(keys2[y].node_id).len() ==> #[trigger] edge_tried(g, gs2, keys2, y, e)
        } by {
            assert(done.contains(y));
            assert(y != nc);
            assert(keys2[y] == keys[y]);
            assert forall|e: int| 0 <= e < g.out_edges(keys2[y].node_id).len() implies #[trigger] edge_tried(g, gs2, keys2, y, e) by {
                assert(edge_tried(g, gs, keys, y, e));
            }
        }
        assert forall|y: u128| #[trigger] gs2.contains_key(y) && !done2.contains(y) && Some(x) != Some(y) implies exists|st2: SearchState|
            #![trigger open2.count(st2)]
            open2.count(st2) > 0 && key_code(state_key(st2)) == y && st2.cost == gs2[y] by {
            if y == nc {
                assert(open2.count(st) > 0);
            } else {
                let w = choose|w: SearchState| #![trigger open.count(w)] open.count(w) > 0 && key_code(state_key(w)) == y && w.cost == gs[y];
                assert(open2.count(w) > 0);
            }
        }
        assert forall|e: int| 0 <= e < j + 1 implies #[trigger] edge_tried(g, gs2, keys2, x, e) by {
            if e < j {
                assert(edge_tried(g, gs, keys, x, e));
            }
        }
    } else {
        assert forall|y: u128| #[trigger] done.contains(y) implies {
            &&& gs2.contains_key(y)
            &&& keys2[y].node_id != end
            &&& Some(x) != Some(y)
            &&& forall|e: int| 0 <= e < g.out_edges(keys2[y].node_id).len() ==> #[trigger] edge_tried(g, gs2, keys2, y, e)
        } by {
        }
        assert(edge_tried(g, gs2, keys2, x, j));
    }
}

/// With the open set empty, no walk from the start reaches the end node at a
/// cost below the largest cost.
proof fn lemma_frontier_exhausted(
    g: &ProcessedGraph,
    end: u32,
    done: Set<u128>,
    gs: Map<u128, u32>,
    keys: Map<u128, VisitedKey>,
    start: VisitedKey,
    ks: Seq<VisitedKey>,
    es: Seq<int>,
    n: int,
)
    requires
        frontier_ok(g, end, done, gs, keys, Multiset::empty(), None, 0),
        forall|y: u128| #[trigger] gs.contains_key(y) ==> key_code(keys[y]) == y,
        gs.contains_key(key_code(start) as u128),
        gs[key_code(start) as u128] == 0,
        is_edge_walk(g, ks, es, start),
        0 <= n < ks.len(),
        edge_walk_cost(g, ks, es, n) < u32::MAX,
    ensures
        gs.contains_key(key_code(ks[n]) as u128),
        gs[key_code(ks[n]) as u128] <= edge_walk_cost(g, ks, es, n),
        keys[key_code(ks[n]) as u128] == ks[n],
        ks[n].node_id != end,
    decreases n,
{
    let xn = key_code(ks[n]) as u128;
    if n == 0 {
        assert(ks[0] == start);
    } else {
        let i = n - 1;
        let c = g.out_edges(ks[i].node_id)[es[i]].1;
        assert(edge_walk_cost(g, ks, es, n) == edge_walk_cost(g, ks, es, i) + c);
        lemma_frontier_exhausted(g, end, done, gs, keys, start, ks, es, i);
        let xi = key_code(ks[i]) as u128;
        assert(Multiset::<SearchState>::empty().count(SearchState { cost: 0, estimated_total_cost: 0, node_id: 0, prev_external_id: None }) == 0);
        if !done.contains(xi) {
            let w = choose|w: SearchState| #![trigger Multiset::<SearchState>::empty().count(w)] Multiset::<SearchState>::empty().count(w) > 0 && key_code(state_key(w)) == xi && w.cost == gs[xi];
        }
        assert(done.contains(xi));
        assert(0 <= es[i] < g.out_edges(ks[i].node_id).len());
        assert(edge_tried(g, gs, keys, xi, es[i]));
        assert(edge_next(g, ks[i], es[i]) == ks[i + 1]);
        assert(ks[i + 1] == ks[n]);
        lemma_key_code_injective(keys[xn], ks[n]);
    }
    if done.contains(xn) {
    } else {
        let w = choose|w: SearchState| #![trigger Multiset::<SearchState>::empty().count(w)] Multiset::<SearchState>::empty().count(w) > 0 && key_code(state_key(w)) == xn && w.cost == gs[xn];
    }
    lemma_key_code_injective(keys[xn], ks[n]);
}

/// The measure that every round of the search lowers: unused key space and
/// the costs recorded so far.
pub open spec fn search_measure(n: nat, order: Seq<int>, gs: Map<u128, u32>) -> int {
    (n * code_stride() - order.len()) * (u32::MAX + 1) + sum_g(order, gs)
}

/// The open set, best costs and predecessors of one search.
struct SearchBook {
    open_set: StateHeap,
    g_score: HashMap<u128, u32>,
    came_from: HashMap<u128, VisitedKey>,
    keys: Ghost<Map<u128, VisitedKey>>,
    stamp: Ghost<Map<u128, nat>>,
    clock: Ghost<nat>,
    order: Ghost<Seq<int>>,
}

impl SearchBook {
    #[verifier::opaque]
    spec fn inv(&self, g: &ProcessedGraph, start: VisitedKey) -> bool {
        let n = g.n();
        let keys = self.keys@;
        let gs = self.g_score@;
        let order = self.order@;
        &&& self.open_set.wf()
        &&& search_inv(g, start, gs, self.came_from@, keys, self.stamp@, self.clock@)
        &&& forall|st: SearchState| #[trigger] self.open_set@.count(st) > 0 ==> {
            let c = key_code(state_key(st)) as u128;
            &&& st.node_id < n
            &&& gs.contains_key(c)
            &&& gs[c] <= st.cost
            &&& keys[c] == state_key(st)
        }
        &&& order.no_duplicates()
        &&& forall|x: u128| order.contains(x as int) <==> #[trigger] gs.contains_key(x)
        &&& forall|i: int| 0 <= i < order.len() ==> 0 <= #[trigger] order[i] < n * code_stride()
    }

    spec fn measure(&self, g: &ProcessedGraph) -> int {
        search_measure(g.n(), self.order@, self.g_score@)
    }

    proof fn lemma_measure_nonneg(&self, g: &ProcessedGraph, start: VisitedKey)
        requires
            self.inv(g, start),
        ensures
            self.measure(g) >= 0,
    {
        reveal(SearchBook::inv);
        lemma_order_bound(self.order@, g.n() * code_stride());
        lemma_sum_g_nonneg(self.order@, self.g_score@);
    }

    proof fn lemma_search_inv(&self, g: &ProcessedGraph, start: VisitedKey)
        requires
            self.inv(g, start),
        ensures
            search_inv(g, start, self.g_score@, self.came_from@, self.keys@, self.stamp@, self.clock@),
    {
        reveal(SearchBook::inv);
    }

    /// A fresh search from `start`, holding just the first state.
    fn begin(graph: &ProcessedGraph, start: VisitedKey, first_estimate: u32) -> (b: Self)
        requires
            graph.wf(),
            start.node_id < graph.n(),
        ensures
            b.inv(graph, start),
            b.g_score@ == Map::<u128, u32>::empty().insert(key_code(start) as u128, 0u32),
            b.came_from@ == Map::<u128, VisitedKey>::empty(),
            b.open_set@ == Multiset::<SearchState>::empty().insert(
                SearchState {
                    cost: 0,
                    estimated_total_cost: first_estimate,
                    node_id: start.node_id,
                    prev_external_id: start.prev_external_id,
                },
            ),
    {
        reveal(SearchBook::inv);
        reveal(search_inv);
        let ghost n = graph.n();
        let ghost sc: u128 = key_code(start) as u128;
        let mut g_score: HashMap<u128, u32> = HashMap::new();
        let start_code = key_code_exec(&start);
        g_score.insert(start_code, 0);
        let ghost k0 = Map::<u128, VisitedKey>::empty().insert(sc, start);
        let ghost s0 = Map::<u128, nat>::empty().insert(sc, 0);
        let ghost c0: nat = 1;
        let ghost o0: Seq<int> = seq![sc as int];
        let keys0 = Ghost(k0);
        let stamp0 = Ghost(s0);
        let clock0 = Ghost(c0);
        let order0 = Ghost(o0);
        let mut book = SearchBook {
            open_set: StateHeap::new(),
            g_score,
            came_from: HashMap::new(),
            keys: keys0,
            stamp: stamp0,
            clock: clock0,
            order: order0,
        };
        let first = SearchState {
            cost: 0,
            estimated_total_cost: first_estimate,
            node_id: start.node_id,
            prev_external_id: start.prev_external_id,
        };
        book.open_set.push(first);
        proof {
            assert(key_code(start) < n * code_stride()) by (nonlinear_arith)
                requires
                    key_code(start) == start.node_id * code_stride() + prev_tag(
                        start.prev_external_id,
                    ),
                    start.node_id < n,
                    prev_tag(start.prev_external_id) < code_stride(),
            ;
            assert forall|st: SearchState| #[trigger] book.open_set@.count(st) > 0 implies st == first by {}
            assert forall|x: u128| o0.contains(x as int) <==> #[trigger] book.g_score@.contains_key(x) by {
                if o0.contains(x as int) {
                    let j = choose|j: int| 0 <= j < o0.len() && o0[j] == x as int;
                    assert(j == 0);
                }
                if x == sc {
                    assert(o0[0] == x as int);
                }
            }
        }
        book
    }

    /// Takes the best state out of the open set.
    fn pop_best(&mut self, Ghost(g): Ghost<&ProcessedGraph>, Ghost(start): Ghost<VisitedKey>) -> (r: Option<SearchState>)
        requires
            old(self).inv(g, start),
        ensures
            final(self).inv(g, start),
            final(self).measure(g) == old(self).measure(g),
            final(self).g_score@ == old(self).g_score@,
            final(self).came_from@ == old(self).came_from@,
            final(self).keys@ == old(self).keys@,
            match r {
                None => old(self).open_set@.len() == 0 && final(self).open_set@ == old(self).open_set@,
                Some(st) => {
                    let c = key_code(state_key(st)) as u128;
                    &&& old(self).open_set@.count(st) > 0
                    &&& final(self).open_set@ == old(self).open_set@.remove(st)
                    &&& forall|y: SearchState| #[trigger] old(self).open_set@.count(y) > 0 ==> outranks(st, y)
                    &&& final(self).open_set@.len() + 1 == old(self).open_set@.len()
                    &&& st.node_id < g.n()
                    &&& final(self).g_score@.contains_key(c)
                    &&& final(self).g_score@[c] <= st.cost
                    &&& final(self).keys@[c] == state_key(st)
                },
            },
    {
        reveal(SearchBook::inv);
        let ghost before = self.open_set@;
        let r = self.open_set.pop();
        proof {
            if let Some(st) = r {
                assert forall|x: SearchState| #[trigger] self.open_set@.count(x) > 0 implies before.count(x) > 0 by {}
            }
        }
        r
    }

    /// Tries the edge from `current` to `neighbor_id` of cost `cost`: records
    /// and queues the neighbor when this reaches it more cheaply than before.
    fn relax<H: RouteHeuristic>(
        &mut self,
        graph: &ProcessedGraph,
        Ghost(start): Ghost<VisitedKey>,
        current: SearchState,
        current_node_external_id: i64,
        neighbor_id: u32,
        cost: u16,
        end_node_id: u32,
        next_waypoint_node: Option<u32>,
        heuristic: Option<&H>,
    )
        requires
            graph.wf(),
            old(self).inv(graph, start),
            current.node_id < graph.n(),
            neighbor_id < graph.n(),
            graph.has_edge(current.node_id, neighbor_id),
            current.prev_external_id != Some(graph.ext(neighbor_id)),
            current_node_external_id == graph.ext(current.node_id),
            old(self).g_score@.contains_key(key_code(state_key(current)) as u128),
            old(self).g_score@[key_code(state_key(current)) as u128] == current.cost,
            old(self).keys@[key_code(state_key(current)) as u128] == state_key(current),
        ensures
            final(self).inv(graph, start),
            final(self).measure(graph) < old(self).measure(graph) || (final(self).measure(graph)
                == old(self).measure(graph) && final(self).open_set@.len()
                == old(self).open_set@.len()),
            final(self).g_score@.contains_key(key_code(state_key(current)) as u128),
            final(self).g_score@[key_code(state_key(current)) as u128] == current.cost,
            final(self).keys@[key_code(state_key(current)) as u128] == state_key(current),
            ({
                let nk = VisitedKey { node_id: neighbor_id, prev_external_id: Some(current_node_external_id) };
                let nc = key_code(nk) as u128;
                let new_cost = if current.cost + cost >= u32::MAX { u32::MAX as int } else { current.cost + cost };
                let known = if old(self).g_score@.contains_key(nc) { old(self).g_score@[nc] as int } else { u32::MAX as int };
                &&& new_cost < known ==> {
                    &&& final(self).g_score@ == old(self).g_score@.insert(nc, new_cost as u32)
                    &&& final(self).keys@ == old(self).keys@.insert(nc, nk)
                    &&& final(self).came_from@ == old(self).came_from@.insert(nc, state_key(current))
                    &&& exists|st: SearchState| #![trigger state_key(st)] final(self).open_set@ == old(self).open_set@.insert(st)
                        && st.cost == new_cost && state_key(st) == nk && keyed_by_estimate(
                        heuristic,
                        graph,
                        end_node_id,
                        next_waypoint_node,
                        st,
                    )
                }
                &&& new_cost >= known ==> {
                    &&& final(self).g_score@ == old(self).g_score@
                    &&& final(self).keys@ == old(self).keys@
                    &&& final(self).came_from@ == old(self).came_from@
                    &&& final(self).open_set@ == old(self).open_set@
                }
            }),
    {
        reveal(SearchBook::inv);
        let ghost n = graph.n();
        let current_key = VisitedKey { node_id: current.node_id, prev_external_id: current.prev_external_id };
        let current_code = key_code_exec(&current_key);
        let new_cost = current.cost.saturating_add(cost as u32);
        let neighbor_key = VisitedKey { node_id: neighbor_id, prev_external_id: Some(current_node_external_id) };
        let neighbor_code = key_code_exec(&neighbor_key);
        let known = match self.g_score.get(&neighbor_code) {
            Some(v) => *v,
            None => u32::MAX,
        };
        if new_cost < known {
            proof {
                if neighbor_code == current_code {
                    lemma_key_code_injective(neighbor_key, current_key);
                }
                assert(is_step(graph, current_key, neighbor_key));
                if self.g_score@.contains_key(neighbor_code) {
                    lemma_keys_coded(graph, start, self.g_score@, self.came_from@, self.keys@, self.stamp@, self.clock@, neighbor_code);
                    lemma_key_code_injective(self.keys@[neighbor_code], neighbor_key);
                }
                assert(key_code(neighbor_key) < n * code_stride()) by (nonlinear_arith)
                    requires
                        key_code(neighbor_key) == neighbor_key.node_id * code_stride() + prev_tag(
                            neighbor_key.prev_external_id,
                        ),
                        neighbor_key.node_id < n,
                        prev_tag(neighbor_key.prev_external_id) < code_stride(),
                ;
            }
            let ghost old_gs = self.g_score@;
            let ghost old_cf = self.came_from@;
            let ghost old_order = self.order@;
            let ghost old_keys = self.keys@;
            let ghost old_stamp = self.stamp@;
            let ghost old_clock = self.clock@;
            self.g_score.insert(neighbor_code, new_cost);
            self.came_from.insert(neighbor_code, current_key);
            proof {
                self.keys@ = old_keys.insert(neighbor_code, neighbor_key);
                self.stamp@ = old_stamp.insert(neighbor_code, old_clock);
                self.clock@ = old_clock + 1;
                if old_gs.contains_key(neighbor_code) {
                    lemma_sum_g_update(old_order, old_gs, neighbor_code, new_cost);
                } else {
                    lemma_sum_g_unchanged(old_order, old_gs, neighbor_code, new_cost);
                    self.order@ = old_order.push(neighbor_code as int);
                    assert(self.order@.drop_last() == old_order);
                    lemma_order_bound(old_order, n * code_stride());
                    assert forall|x: u128| self.order@.contains(x as int) <==> #[trigger] self.g_score@.contains_key(x) by {
                        if self.order@.contains(x as int) && x != neighbor_code {
                            let j = choose|j: int| 0 <= j < self.order@.len() && self.order@[j] == x as int;
                            assert(j < old_order.len());
                            assert(old_order[j] == x as int);
                        }
                        if old_gs.contains_key(x) {
                            assert(old_order.contains(x as int));
                            let j = choose|j: int| 0 <= j < old_order.len() && old_order[j] == x as int;
                            assert(self.order@[j] == x as int);
                        }
                        if x == neighbor_code {
                            assert(self.order@[old_order.len() as int] == x as int);
                        }
                    }
                    assert(self.order@.no_duplicates()) by {
                        assert(!old_order.contains(neighbor_code as int));
                    }
                }
                lemma_record_step(
                    graph,
                    start,
                    old_gs,
                    old_cf,
                    old_keys,
                    old_stamp,
                    old_clock,
                    current_key,
                    neighbor_key,
                    new_cost,
                );
            }
            let h_cost = match heuristic {
                Some(h) => {
                    let estimate = H::estimate;
                    estimate(h, graph, neighbor_id, end_node_id, next_waypoint_node)
                },
                None => 0,
            };
            let st = SearchState {
                cost: new_cost,
                estimated_total_cost: new_cost.saturating_add(h_cost),
                node_id: neighbor_id,
                prev_external_id: Some(current_node_external_id),
            };
            let ghost before = self.open_set@;
            self.open_set.push(st);
            proof {
                assert forall|x: SearchState| #[trigger] self.open_set@.count(x) > 0 implies {
                    let c = key_code(state_key(x)) as u128;
                    &&& x.node_id < n
                    &&& self.g_score@.contains_key(c)
                    &&& self.g_score@[c] <= x.cost
                    &&& self.keys@[c] == state_key(x)
                } by {
                    if x != st {
                        assert(before.count(x) > 0);
                        let c = key_code(state_key(x)) as u128;
                        if c == neighbor_code {
                            lemma_key_code_injective(state_key(x), neighbor_key);
                        }
                    }
                }
                assert(self.open_set@ == old(self).open_set@.insert(st));
                assert(st.cost == new_cost && state_key(st) == neighbor_key);
            }
        }
    }
}

proof fn lemma_sum_g_nonneg(order: Seq<int>, gm: Map<u128, u32>)
    ensures
        sum_g(order, gm) >= 0,
    decreases order.len(),
{
    if order.len() > 0 {
        lemma_sum_g_nonneg(order.drop_last(), gm);
    }
}

proof fn lemma_keys_coded(
    g: &ProcessedGraph,
    start: VisitedKey,
    gs: Map<u128, u32>,
    cf: Map<u128, VisitedKey>,
    keys: Map<u128, VisitedKey>,
    stamp: Map<u128, nat>,
    clock: nat,
    x: u128,
)
    requires
        search_inv(g, start, gs, cf, keys, stamp, clock),
        gs.contains_key(x),
    ensures
        key_code(keys[x]) == x,
{
    reveal(search_inv);
}

/// Every recorded state is filed under its own code.
proof fn lemma_all_keys_coded(
    g: &ProcessedGraph,
    start: VisitedKey,
    gs: Map<u128, u32>,
    cf: Map<u128, VisitedKey>,
    keys: Map<u128, VisitedKey>,
    stamp: Map<u128, nat>,
    clock: nat,
)
    requires
        search_inv(g, start, gs, cf, keys, stamp, clock),
    ensures
        forall|y: u128| #[trigger] gs.contains_key(y) ==> key_code(keys[y]) == y,
        gs.contains_key(key_code(start) as u128),
        gs[key_code(start) as u128] == 0,
{
    reveal(search_inv);
}

/// Recording `p` as the predecessor of `k` at a lower cost keeps the
/// bookkeeping sound.
proof fn lemma_record_step(
    g: &ProcessedGraph,
    start: VisitedKey,
    gs: Map<u128, u32>,
    cf: Map<u128, VisitedKey>,
    keys: Map<u128, VisitedKey>,
    stamp: Map<u128, nat>,
    clock: nat,
    p: VisitedKey,
    k: VisitedKey,
    v: u32,
)
    requires
        search_inv(g, start, gs, cf, keys, stamp, clock),
        is_step(g, p, k),
        gs.contains_key(key_code(p) as u128),
        gs[key_code(p) as u128] <= v,
        key_code(p) != key_code(k),
        gs.contains_key(key_code(k) as u128) ==> v < gs[key_code(k) as u128] && keys[key_code(k) as u128] == k,
        !gs.contains_key(key_code(k) as u128) ==> v < u32::MAX,
        0 <= key_code(k) <= u128::MAX,
    ensures
        ({
            let kc = key_code(k) as u128;
            search_inv(
                g,
                start,
                gs.insert(kc, v),
                cf.insert(kc, p),
                keys.insert(kc, k),
                stamp.insert(kc, clock),
                clock + 1,
            )
        }),
{
    reveal(search_inv);
    let kc = key_code(k) as u128;
    let pc = key_code(p) as u128;
    let gs2 = gs.insert(kc, v);
    let cf2 = cf.insert(kc, p);
    let keys2 = keys.insert(kc, k);
    let stamp2 = stamp.insert(kc, clock);
    let sc = key_code(start) as u128;
    assert(kc != sc) by {
        if kc == sc {
            assert(gs[sc] == 0);
        }
    }
    assert forall|x: u128| #[trigger] cf2.contains_key(x) implies {
        let q = cf2[x];
        let qc = key_code(q) as u128;
        &&& gs2.contains_key(qc)
        &&& is_step(g, q, keys2[x])
        &&& gs2[qc] <= gs2[x]
        &&& (gs2[qc] < gs2[x] || stamp2[qc] < stamp2[x])
    } by {
        if x != kc {
            let q = cf[x];
            let qc = key_code(q) as u128;
            assert(gs.contains_key(qc));
        }
    }
}

/// The predecessor link of the state recorded under `x` follows edge `e`
/// of its predecessor's node, which does not turn straight back, and the
/// predecessor's cost plus the edge's cost is no more than `x`'s.
pub open spec fn link_edge(
    g: &ProcessedGraph,
    gs: Map<u128, u32>,
    cf: Map<u128, VisitedKey>,
    keys: Map<u128, VisitedKey>,
    x: u128,
    e: int,
) -> bool {
    let p = cf[x];
    &&& 0 <= e < g.out_edges(p.node_id).len()
    &&& edge_next(g, p, e) == keys[x]
    &&& !turns_back(g, p, e)
    &&& gs[key_code(p) as u128] + g.out_edges(p.node_id)[e].1 <= gs[x]
}

/// Every predecessor link follows an edge that costs no more than the step
/// in recorded costs.
pub open spec fn links_costed(g: &ProcessedGraph, gs: Map<u128, u32>, cf: Map<u128, VisitedKey>, keys: Map<u128, VisitedKey>) -> bool {
    forall|x: u128| #[trigger] cf.contains_key(x) ==> exists|e: int| link_edge(g, gs, cf, keys, x, e)
}

/// Recording a cheaper step from `cur` along edge `e` keeps the links costed.
proof fn lemma_links_costed_step(
    g: &ProcessedGraph,
    gs: Map<u128, u32>,
    cf: Map<u128, VisitedKey>,
    keys: Map<u128, VisitedKey>,
    cur: VisitedKey,
    e: int,
    nk: VisitedKey,
    new_cost: u32,
)
    requires
        links_costed(g, gs, cf, keys),
        forall|x: u128| #[trigger] cf.contains_key(x) ==> gs.contains_key(key_code(cf[x]) as u128),
        gs.contains_key(key_code(cur) as u128),
        key_code(cur) != key_code(nk),
        0 <= e < g.out_edges(cur.node_id).len(),
        edge_next(g, cur, e) == nk,
        !turns_back(g, cur, e),
        gs[key_code(cur) as u128] + g.out_edges(cur.node_id)[e].1 == new_cost,
        gs.contains_key(key_code(nk) as u128) ==> new_cost < gs[key_code(nk) as u128],
    ensures
        links_costed(
            g,
            gs.insert(key_code(nk) as u128, new_cost),
            cf.insert(key_code(nk) as u128, cur),
            keys.insert(key_code(nk) as u128, nk),
        ),
{
    let nc = key_code(nk) as u128;
    let gs1 = gs.insert(nc, new_cost);
    let cf1 = cf.insert(nc, cur);
    let keys1 = keys.insert(nc, nk);
    assert forall|x: u128| #[trigger] cf1.contains_key(x) implies exists|e2: int| link_edge(g, gs1, cf1, keys1, x, e2) by {
        if x == nc {
            assert(link_edge(g, gs1, cf1, keys1, x, e));
        } else {
            let e2 = choose|e2: int| link_edge(g, gs, cf, keys, x, e2);
            assert(link_edge(g, gs1, cf1, keys1, x, e2));
        }
    }
}

/// Along a walk from the start that costs less than the largest cost, up to
/// its state `n`, the frontier has an open state on the walk no dearer than
/// the walk up to it, or state `n` is settled no dearer than the walk to it.
proof fn lemma_walk_frontier(
    g: &ProcessedGraph,
    end: u32,
    done: Set<u128>,
    gs: Map<u128, u32>,
    keys: Map<u128, VisitedKey>,
    open: Multiset<SearchState>,
    start: VisitedKey,
    ks: Seq<VisitedKey>,
    es: Seq<int>,
    n: int,
)
    requires
        frontier_ok(g, end, done, gs, keys, open, None, 0),
        forall|y: u128| #[trigger] gs.contains_key(y) ==> key_code(keys[y]) == y,
        gs.contains_key(key_code(start) as u128),
        gs[key_code(start) as u128] == 0,
        is_edge_walk(g, ks, es, start),
        0 <= n < ks.len(),
        edge_walk_cost(g, ks, es, n) < u32::MAX,
    ensures
        (exists|j: int, st: SearchState|
            #![trigger open.count(st), ks[j]]
            0 <= j <= n && open.count(st) > 0 && state_key(st) == ks[j] && st.cost <= edge_walk_cost(g, ks, es, j))
            || ({
            let xn = key_code(ks[n]) as u128;
            &&& gs.contains_key(xn)
            &&& gs[xn] <= edge_walk_cost(g, ks, es, n)
            &&& keys[xn] == ks[n]
            &&& done.contains(xn)
        }),
    decreases n,
{
    let xn = key_code(ks[n]) as u128;
    if n == 0 {
        assert(ks[0] == start);
        lemma_key_code_injective(keys[xn], ks[n]);
        if !done.contains(xn) {
            let w = choose|w: SearchState| #![trigger open.count(w)] open.count(w) > 0 && key_code(state_key(w)) == xn && w.cost == gs[xn];
            lemma_key_code_injective(state_key(w), ks[n]);
            assert(0 <= n <= n && open.count(w) > 0 && state_key(w) == ks[n] && w.cost <= edge_walk_cost(g, ks, es, n));
        }
    } else {
        let i = n - 1;
        let c = g.out_edges(ks[i].node_id)[es[i]].1;
        assert(edge_walk_cost(g, ks, es, n) == edge_walk_cost(g, ks, es, i) + c);
        lemma_walk_frontier(g, end, done, gs, keys, open, start, ks, es, i);
        if exists|j: int, st: SearchState|
            #![trigger open.count(st), ks[j]]
            0 <= j <= i && open.count(st) > 0 && state_key(st) == ks[j] && st.cost <= edge_walk_cost(g, ks, es, j) {
            let (j, st) = choose|j: int, st: SearchState|
                #![trigger open.count(st), ks[j]]
                0 <= j <= i && open.count(st) > 0 && state_key(st) == ks[j] && st.cost <= edge_walk_cost(g, ks, es, j);
            assert(0 <= j <= n && open.count(st) > 0 && state_key(st) == ks[j] && st.cost <= edge_walk_cost(g, ks, es, j));
        } else {
            let xi = key_code(ks[i]) as u128;
            assert(done.contains(xi));
            assert(0 <= es[i] < g.out_edges(ks[i].node_id).len());
            assert(edge_tried(g, gs, keys, xi, es[i]));
            assert(edge_next(g, ks[i], es[i]) == ks[i + 1]);
            assert(ks[i + 1] == ks[n]);
            lemma_key_code_injective(keys[xn], ks[n]);
            if !done.contains(xn) {
                let w = choose|w: SearchState| #![trigger open.count(w)] open.count(w) > 0 && key_code(state_key(w)) == xn && w.cost == gs[xn];
                lemma_key_code_injective(state_key(w), ks[n]);
                assert(0 <= n <= n && open.count(w) > 0 && state_key(w) == ks[n] && w.cost <= edge_walk_cost(g, ks, es, n));
            }
        }
    }
}

/// A walk's costs never fall below nothing.
proof fn lemma_walk_cost_nonneg(g: &ProcessedGraph, ks: Seq<VisitedKey>, es: Seq<int>, n: int)
    ensures
        edge_walk_cost(g, ks, es, n) >= 0,
    decreases n,
{
    if n > 0 {
        lemma_walk_cost_nonneg(g, ks, es, n - 1);
    }
}

/// The first `m` steps of the walk from its state `j` cost what the walk
/// costs up to state `j + m` less what it costs up to state `j`.
proof fn lemma_suffix_cost(g: &ProcessedGraph, ks: Seq<VisitedKey>, es: Seq<int>, j: int, m: int)
    requires
        0 <= j,
        0 <= m,
        j + m <= es.len(),
        es.len() + 1 == ks.len(),
    ensures
        edge_walk_cost(g, ks.subrange(j, ks.len() as int), es.subrange(j, es.len() as int), m) == edge_walk_cost(
            g,
            ks,
            es,
            j + m,
        ) - edge_walk_cost(g, ks, es, j),
    decreases m,
{
    if m > 0 {
        lemma_suffix_cost(g, ks, es, j, m - 1);
        assert(ks.subrange(j, ks.len() as int)[m - 1] == ks[j + m - 1]);
        assert(es.subrange(j, es.len() as int)[m - 1] == es[j + m - 1]);
    }
}

/// The rest of a walk from its state `j` is a walk from that state, to the
/// same last state, costing what the whole walk costs less its first `j`
/// steps.
proof fn lemma_walk_suffix(g: &ProcessedGraph, ks: Seq<VisitedKey>, es: Seq<int>, start: VisitedKey, j: int)
    requires
        is_edge_walk(g, ks, es, start),
        0 <= j < ks.len(),
    ensures
        is_edge_walk(g, ks.subrange(j, ks.len() as int), es.subrange(j, es.len() as int), ks[j]),
        ks.subrange(j, ks.len() as int).last() == ks.last(),
        edge_walk_cost(g, ks.subrange(j, ks.len() as int), es.subrange(j, es.len() as int), es.len() - j)
            == edge_walk_cost(g, ks, es, es.len() as int) - edge_walk_cost(g, ks, es, j),
{
    let ks2 = ks.subrange(j, ks.len() as int);
    let es2 = es.subrange(j, es.len() as int);
    assert forall|i: int| 0 <= i < es2.len() implies 0 <= #[trigger] es2[i] < g.out_edges(ks2[i].node_id).len()
        && edge_next(g, ks2[i], es2[i]) == ks2[i + 1] && !turns_back(g, ks2[i], es2[i]) by {
        assert(es2[i] == es[i + j] && ks2[i] == ks[i + j] && ks2[i + 1] == ks[i + j + 1]);
    }
    lemma_suffix_cost(g, ks, es, j, es.len() - j);
}

/// A walk of recorded states, each the recorded predecessor of the next,
/// is an edge walk that costs no more than the last state's recorded cost.
proof fn lemma_chain_walk(
    g: &ProcessedGraph,
    start: VisitedKey,
    gs: Map<u128, u32>,
    cf: Map<u128, VisitedKey>,
    keys: Map<u128, VisitedKey>,
    ks: Seq<VisitedKey>,
) -> (es: Seq<int>)
    requires
        links_costed(g, gs, cf, keys),
        forall|y: u128| #[trigger] gs.contains_key(y) ==> key_code(keys[y]) == y,
        forall|x: u128| #[trigger] cf.contains_key(x) ==> gs.contains_key(x),
        gs.contains_key(key_code(start) as u128),
        gs[key_code(start) as u128] == 0,
        ks.len() >= 1,
        ks[0] == start,
        forall|i: int| 0 <= i < ks.len() - 1 ==> cf.contains_key(#[trigger] key_code(ks[i + 1]) as u128) && cf[key_code(
            ks[i + 1],
        ) as u128] == ks[i],
    ensures
        is_edge_walk(g, ks, es, start),
        edge_walk_cost(g, ks, es, es.len() as int) <= gs[key_code(ks.last()) as u128],
    decreases ks.len(),
{
    if ks.len() == 1 {
        let es: Seq<int> = Seq::empty();
        assert(edge_walk_cost(g, ks, es, 0) == 0);
        es
    } else {
        let pre = ks.drop_last();
        assert forall|i: int| 0 <= i < pre.len() - 1 implies cf.contains_key(#[trigger] key_code(pre[i + 1]) as u128) && cf[key_code(
            pre[i + 1],
        ) as u128] == pre[i] by {
            assert(pre[i + 1] == ks[i + 1] && pre[i] == ks[i]);
        }
        let es0 = lemma_chain_walk(g, start, gs, cf, keys, pre);
        let l = ks.len() - 2;
        let x = key_code(ks[l + 1]) as u128;
        assert(cf.contains_key(x) && cf[x] == ks[l]);
        let e = choose|e: int| link_edge(g, gs, cf, keys, x, e);
        assert(link_edge(g, gs, cf, keys, x, e));
        assert(gs.contains_key(x));
        lemma_key_code_injective(keys[x], ks[l + 1]);
        let es = es0.push(e);
        assert forall|i: int| 0 <= i < es.len() implies 0 <= #[trigger] es[i] < g.out_edges(ks[i].node_id).len()
            && edge_next(g, ks[i], es[i]) == ks[i + 1] && !turns_back(g, ks[i], es[i]) by {
            if i < es0.len() {
                assert(es[i] == es0[i] && pre[i] == ks[i] && pre[i + 1] == ks[i + 1]);
            }
        }
        assert forall|k: int| 0 <= k <= es0.len() implies edge_walk_cost(g, ks, es, k) == edge_walk_cost(g, pre, es0, k) by {
            lemma_walk_cost_same(g, ks, es, pre, es0, k);
        }
        assert(pre.last() == ks[l]);
        es
    }
}

/// Two walks that agree on their first `k` states and edges cost the same
/// over them.
proof fn lemma_walk_cost_same(g: &ProcessedGraph, ks: Seq<VisitedKey>, es: Seq<int>, ks2: Seq<VisitedKey>, es2: Seq<int>, k: int)
    requires
        0 <= k <= es2.len(),
        k <= es.len(),
        es2.len() < ks2.len(),
        es.len() < ks.len(),
        forall|i: int| 0 <= i < k ==> ks[i] == ks2[i] && es[i] == es2[i],
    ensures
        edge_walk_cost(g, ks, es, k) == edge_walk_cost(g, ks2, es2, k),
    decreases k,
{
    if k > 0 {
        lemma_walk_cost_same(g, ks, es, ks2, es2, k - 1);
    }
}

/// The predecessors of recorded states are recorded.
proof fn lemma_parents_recorded(
    g: &ProcessedGraph,
    start: VisitedKey,
    gs: Map<u128, u32>,
    cf: Map<u128, VisitedKey>,
    keys: Map<u128, VisitedKey>,
    stamp: Map<u128, nat>,
    clock: nat,
)
    requires
        search_inv(g, start, gs, cf, keys, stamp, clock),
    ensures
        forall|x: u128| #[trigger] cf.contains_key(x) ==> gs.contains_key(key_code(cf[x]) as u128) && gs.contains_key(x),
{
    reveal(search_inv);
}

/// `x` held to the largest cost.
pub open spec fn capped(x: int) -> int {
    if x > u32::MAX {
        u32::MAX as int
    } else {
        x
    }
}

/// The node of the waypoint with external id `id`, where it is one of the
/// graph.
pub open spec fn waypoint_node(g: &ProcessedGraph, id: Option<i64>) -> Option<u32> {
    match id {
        Some(x) => if g.node_id_map@.contains_key(x) {
            Some(g.node_id_map@[x])
        } else {
            None
        },
        None => None,
    }
}

/// `st` waits in the open set under its cost plus what `heuristic` estimates
/// from its node to `end`, held to the largest cost; without an estimate,
/// under its cost alone.
pub open spec fn keyed_by_estimate<H: RouteHeuristic>(
    heuristic: Option<&H>,
    g: &ProcessedGraph,
    end: u32,
    next: Option<u32>,
    st: SearchState,
) -> bool {
    match heuristic {
        None => st.estimated_total_cost == st.cost,
        Some(h) => exists|r: u32|
            #[trigger] call_ensures(H::estimate, (h, g, st.node_id, end, next), r) && st.estimated_total_cost
                == capped(st.cost + r),
    }
}

/// `h` never estimates more than a walk from the node to `end` costs: no
/// estimate it gives for a node exceeds the cost of any walk from a state at
/// that node to the end.
pub open spec fn admissible<H: RouteHeuristic>(h: &H, g: &ProcessedGraph, end: u32, next: Option<u32>) -> bool {
    forall|r: u32, ks: Seq<VisitedKey>, es: Seq<int>|
        #![trigger call_ensures(H::estimate, (h, g, ks[0].node_id, end, next), r), is_edge_walk(g, ks, es, ks[0])]
        call_ensures(H::estimate, (h, g, ks[0].node_id, end, next), r) && is_edge_walk(g, ks, es, ks[0])
            && ks.last().node_id == end ==> r <= edge_walk_cost(g, ks, es, es.len() as int)
}

/// The zero estimate never overestimates, whatever the graph and the end:
/// no walk costs less than nothing.
pub proof fn lemma_zero_estimate_admissible(z: &ZeroEstimate, g: &ProcessedGraph, end: u32, next: Option<u32>)
    ensures
        admissible(z, g, end, next),
{
    assert forall|r: u32, ks: Seq<VisitedKey>, es: Seq<int>|
        #[trigger] call_ensures(ZeroEstimate::estimate, (z, g, ks[0].node_id, end, next), r) && #[trigger] is_edge_walk(g, ks, es, ks[0])
            && ks.last().node_id == end implies r <= edge_walk_cost(g, ks, es, es.len() as int) by {
        lemma_walk_cost_nonneg(g, ks, es, es.len() as int);
    }
}

/// No estimate, or one that never overestimates.
pub open spec fn estimate_admissible<H: RouteHeuristic>(
    heuristic: Option<&H>,
    g: &ProcessedGraph,
    end: u32,
    next: Option<u32>,
) -> bool {
    match heuristic {
        None => true,
        Some(h) => admissible(h, g, end, next),
    }
}

/// With an estimate that never overestimates, the state taken from the open
/// set is no dearer than any walk to the end: along the walk the frontier
/// holds an open state no dearer than the walk up to it, whose key, its cost
/// plus the estimate for the rest, is at most the walk's cost; the state
/// taken comes first, and its key is at least its cost.
proof fn lemma_goal_cheapest<H: RouteHeuristic>(
    g: &ProcessedGraph,
    end: u32,
    next: Option<u32>,
    heuristic: Option<&H>,
    done: Set<u128>,
    gs: Map<u128, u32>,
    keys: Map<u128, VisitedKey>,
    open: Multiset<SearchState>,
    start: VisitedKey,
    current: SearchState,
    bound: int,
)
    requires
        frontier_ok(g, end, done, gs, keys, open, None, 0),
        forall|y: u128| #[trigger] gs.contains_key(y) ==> key_code(keys[y]) == y,
        gs.contains_key(key_code(start) as u128),
        gs[key_code(start) as u128] == 0,
        forall|st: SearchState| #[trigger] open.count(st) > 0 ==> keyed_by_estimate(heuristic, g, end, next, st),
        estimate_admissible(heuristic, g, end, next),
        open.count(current) > 0,
        forall|y: SearchState| #[trigger] open.count(y) > 0 ==> outranks(current, y),
        bound <= current.cost,
    ensures
        forall|ks2: Seq<VisitedKey>, es2: Seq<int>|
            #[trigger] is_edge_walk(g, ks2, es2, start) && ks2.last().node_id == end ==> bound <= edge_walk_cost(
                g,
                ks2,
                es2,
                es2.len() as int,
            ),
{
    assert forall|ks2: Seq<VisitedKey>, es2: Seq<int>|
        #[trigger] is_edge_walk(g, ks2, es2, start) && ks2.last().node_id == end implies bound <= edge_walk_cost(
            g,
            ks2,
            es2,
            es2.len() as int,
        ) by {
        let n = es2.len() as int;
        let total = edge_walk_cost(g, ks2, es2, n);
        if total < u32::MAX {
            lemma_walk_frontier(g, end, done, gs, keys, open, start, ks2, es2, n);
            let xn = key_code(ks2[n]) as u128;
            if done.contains(xn) && gs.contains_key(xn) && keys[xn] == ks2[n] {
                assert(keys[xn].node_id != end);
                assert(ks2[n] == ks2.last());
            }
            let (j, st) = choose|j: int, st: SearchState|
                #![trigger open.count(st), ks2[j]]
                0 <= j <= n && open.count(st) > 0 && state_key(st) == ks2[j] && st.cost <= edge_walk_cost(g, ks2, es2, j);
            lemma_walk_suffix(g, ks2, es2, start, j);
            let sks = ks2.subrange(j, ks2.len() as int);
            let ses = es2.subrange(j, es2.len() as int);
            assert(ses.len() == n - j);
            let rest = edge_walk_cost(g, sks, ses, ses.len() as int);
            lemma_walk_cost_nonneg(g, sks, ses, ses.len() as int);
            assert(keyed_by_estimate(heuristic, g, end, next, st));
            assert(keyed_by_estimate(heuristic, g, end, next, current));
            assert(outranks(current, st));
            match heuristic {
                None => {},
                Some(h) => {
                    let r = choose|r: u32|
                        #[trigger] call_ensures(H::estimate, (h, g, st.node_id, end, next), r)
                            && st.estimated_total_cost == capped(st.cost + r);
                    assert(sks[0] == ks2[j]);
                    assert(call_ensures(H::estimate, (h, g, sks[0].node_id, end, next), r));
                    assert(is_edge_walk(g, sks, ses, sks[0]));
                    assert(r <= rest);
                    let rc = choose|rc: u32|
                        #[trigger] call_ensures(H::estimate, (h, g, current.node_id, end, next), rc)
                            && current.estimated_total_cost == capped(current.cost + rc);
                },
            }
        }
    }
}

/// What a segment search may answer: an error for a start or end that is
/// not a node of the graph, with its message; the one-node route from a
/// node to itself; no route only where no walk costs less than the largest
/// cost; else a route that never turns straight back.
pub open spec fn segment_outcome(
    graph: &ProcessedGraph,
    start_osm_id: i64,
    end_osm_id: i64,
    initial_prev_node_osm_id: Option<i64>,
    r: Result<Option<Vec<i64>>, GraphError>,
) -> bool {
            let m = graph.node_id_map@;
            &&& !m.contains_key(start_osm_id) ==> (r matches Err(GraphError::RoutingError(msg)) && msg@
                == numbered_message("Start node "@, start_osm_id, " not in graph"@))
            &&& m.contains_key(start_osm_id) && !m.contains_key(end_osm_id) ==> (r matches Err(
                GraphError::RoutingError(msg),
            ) && msg@ == numbered_message("End node "@, end_osm_id, " not in graph"@))
            &&& m.contains_key(start_osm_id) && start_osm_id == end_osm_id ==> (r matches Ok(Some(p))
                && p@ == seq![start_osm_id])
            &&& match r {
                Err(e) => (!m.contains_key(start_osm_id) || !m.contains_key(end_osm_id))
                    && e is RoutingError,
                Ok(None) => m.contains_key(start_osm_id) && m.contains_key(end_osm_id) && leg_unreachable(
                    graph,
                    m[start_osm_id],
                    initial_prev_node_osm_id,
                    m[end_osm_id],
                ),
                Ok(Some(p)) => m.contains_key(start_osm_id) && m.contains_key(end_osm_id)
                    && is_route(graph, p@, m[start_osm_id], initial_prev_node_osm_id, m[end_osm_id])
                    && p@.len() >= 1 && p@[0] == start_osm_id && p@.last() == end_osm_id,
            }
        }

/// A route's walk, with the edge taken at each step, from the start state to
/// the end node.
pub open spec fn walks_route(g: &ProcessedGraph, start: VisitedKey, end: u32, ks: Seq<VisitedKey>, es: Seq<int>, p: Seq<i64>) -> bool {
    &&& is_edge_walk(g, ks, es, start)
    &&& ks.last().node_id == end
    &&& walk_external_ids(g, ks) == p
}

/// `p` is a cheapest route: it is the walk of some edge walk from `start` to
/// `end` that costs no more than any other.
pub open spec fn cheapest_route(g: &ProcessedGraph, start: VisitedKey, end: u32, p: Seq<i64>) -> bool {
    exists|ks: Seq<VisitedKey>, es: Seq<int>|
        #[trigger] walks_route(g, start, end, ks, es, p) && forall|ks2: Seq<VisitedKey>, es2: Seq<int>|
            #[trigger] is_edge_walk(g, ks2, es2, start) && ks2.last().node_id == end ==> edge_walk_cost(
                g,
                ks,
                es,
                es.len() as int,
            ) <= edge_walk_cost(g, ks2, es2, es2.len() as int)
}

/// A* from `start_osm_id` to `end_osm_id` over search states that remember
/// the previous node, so that no route turns straight back. The first state
/// counts as reached from `initial_prev_node_osm_id`; `heuristic` estimates
/// the cost still to go, looking ahead to `next_waypoint_osm_id`.
pub fn find_route_segment_astar<H: RouteHeuristic>(
    graph: &ProcessedGraph,
    start_osm_id: i64,
    end_osm_id: i64,
    initial_prev_node_osm_id: Option<i64>,
    next_waypoint_osm_id: Option<i64>,
    heuristic: &H,
) -> (r: Result<Option<Vec<i64>>, GraphError>)
    requires
        graph.wf(),
    ensures
        segment_outcome(graph, start_osm_id, end_osm_id, initial_prev_node_osm_id, r),
        admissible(heuristic, graph, graph.node_id_map@[end_osm_id], waypoint_node(graph, next_waypoint_osm_id)) ==> (
        r matches Ok(Some(p)) ==> cheapest_route(
            graph,
            VisitedKey { node_id: graph.node_id_map@[start_osm_id], prev_external_id: initial_prev_node_osm_id },
            graph.node_id_map@[end_osm_id],
            p@,
        )),
{
    search_segment(graph, start_osm_id, end_osm_id, initial_prev_node_osm_id, next_waypoint_osm_id, Some(heuristic))
}

/// The segment search without an estimate: a cheapest route from
/// `start_osm_id`, first reached from `initial_prev_node_osm_id`, to
/// `end_osm_id` that never turns straight back.
pub fn find_cheapest_route_segment(
    graph: &ProcessedGraph,
    start_osm_id: i64,
    end_osm_id: i64,
    initial_prev_node_osm_id: Option<i64>,
) -> (r: Result<Option<Vec<i64>>, GraphError>)
    requires
        graph.wf(),
    ensures
        segment_outcome(graph, start_osm_id, end_osm_id, initial_prev_node_osm_id, r),
        r matches Ok(Some(p)) ==> cheapest_route(
            graph,
            VisitedKey { node_id: graph.node_id_map@[start_osm_id], prev_external_id: initial_prev_node_osm_id },
            graph.node_id_map@[end_osm_id],
            p@,
        ),
{
    search_segment::<ZeroEstimate>(graph, start_osm_id, end_osm_id, initial_prev_node_osm_id, None, None)
}

/// A* from `start_osm_id` to `end_osm_id` over search states that remember
/// the previous node, so that no route turns straight back. The first state
/// counts as reached from `initial_prev_node_osm_id`. Without an estimate
/// the route found is a cheapest one.
fn search_segment<H: RouteHeuristic>(
    graph: &ProcessedGraph,
    start_osm_id: i64,
    end_osm_id: i64,
    initial_prev_node_osm_id: Option<i64>,
    next_waypoint_osm_id: Option<i64>,
    heuristic: Option<&H>,
) -> (r: Result<Option<Vec<i64>>, GraphError>)
    requires
        graph.wf(),
    ensures
        segment_outcome(graph, start_osm_id, end_osm_id, initial_prev_node_osm_id, r),
        estimate_admissible(heuristic, graph, graph.node_id_map@[end_osm_id], waypoint_node(graph, next_waypoint_osm_id))
            ==> (r matches Ok(Some(p)) ==> cheapest_route(
            graph,
            VisitedKey { node_id: graph.node_id_map@[start_osm_id], prev_external_id: initial_prev_node_osm_id },
            graph.node_id_map@[end_osm_id],
            p@,
        )),
{
    let start_node_id = match graph.node_id_map.get(&start_osm_id) {
        Some(id) => *id,
        None => {
            return Err(
                GraphError::RoutingError(numbered("Start node ", start_osm_id, " not in graph")),
            );
        },
    };
    let end_node_id = match graph.node_id_map.get(&end_osm_id) {
        Some(id) => *id,
        None => {
            return Err(
                GraphError::RoutingError(numbered("End node ", end_osm_id, " not in graph")),
            );
        },
    };
    let next_waypoint_node: Option<u32> = match next_waypoint_osm_id {
        Some(id) => match graph.node_id_map.get(&id) {
            Some(n) => Some(*n),
            None => None,
        },
        None => None,
    };
    let ghost n = graph.n();
    let start_key = VisitedKey { node_id: start_node_id, prev_external_id: initial_prev_node_osm_id };
    let initial_h_cost = match heuristic {
        Some(h) => {
            let estimate = H::estimate;
            let r = estimate(h, graph, start_node_id, end_node_id, next_waypoint_node);
            proof {
                assert(call_ensures(H::estimate, (h, graph, start_node_id, end_node_id, next_waypoint_node), r));
                assert(capped(0 + r) == r);
            }
            r
        },
        None => 0,
    };
    let mut book = SearchBook::begin(graph, start_key, initial_h_cost);
    let ghost mut done: Set<u128> = Set::empty();
    let ghost mut at_start = true;
    let ghost first_state = SearchState {
        cost: 0,
        estimated_total_cost: initial_h_cost,
        node_id: start_node_id,
        prev_external_id: initial_prev_node_osm_id,
    };
    proof {
        let sc = key_code(start_key) as u128;
        let first = SearchState {
            cost: 0,
            estimated_total_cost: initial_h_cost,
            node_id: start_key.node_id,
            prev_external_id: start_key.prev_external_id,
        };
        assert(state_key(first) == start_key);
        assert(keyed_by_estimate(heuristic, graph, end_node_id, next_waypoint_node, first));
        assert forall|x: u128| #[trigger] book.g_score@.contains_key(x) && !done.contains(x) && None::<u128> != Some(x) implies exists|st: SearchState|
            #![trigger book.open_set@.count(st)]
            book.open_set@.count(st) > 0 && key_code(state_key(st)) == x && st.cost == book.g_score@[x] by {
            assert(x == sc);
            assert(book.open_set@.count(first) > 0);
        }
    }
    loop
        invariant
            graph.wf(),
            n == graph.n(),
            start_node_id < n,
            end_node_id < n,
            start_node_id == graph.node_id_map@[start_osm_id],
            end_node_id == graph.node_id_map@[end_osm_id],
            graph.node_id_map@.contains_key(start_osm_id),
            graph.node_id_map@.contains_key(end_osm_id),
            start_key == (VisitedKey { node_id: start_node_id, prev_external_id: initial_prev_node_osm_id }),
            book.inv(graph, start_key),
            frontier_ok(graph, end_node_id, done, book.g_score@, book.keys@, book.open_set@, None, 0),
            links_costed(graph, book.g_score@, book.came_from@, book.keys@),
            next_waypoint_node == waypoint_node(graph, next_waypoint_osm_id),
            forall|st: SearchState| #[trigger] book.open_set@.count(st) > 0 ==> keyed_by_estimate(
                heuristic,
                graph,
                end_node_id,
                next_waypoint_node,
                st,
            ),
            at_start ==> book.came_from@ == Map::<u128, VisitedKey>::empty() && book.open_set@
                == Multiset::<SearchState>::empty().insert(first_state),
            !at_start ==> start_node_id != end_node_id,
            first_state == (SearchState {
                cost: 0,
                estimated_total_cost: initial_h_cost,
                node_id: start_node_id,
                prev_external_id: initial_prev_node_osm_id,
            }),
        ensures
            book.inv(graph, start_key),
            frontier_ok(graph, end_node_id, done, book.g_score@, book.keys@, book.open_set@, None, 0),
            book.open_set@.len() == 0,
            start_node_id != end_node_id,
        decreases book.measure(graph), book.open_set@.len(),
    {
        proof {
            book.lemma_measure_nonneg(graph, start_key);
        }
        let ghost m0 = book.measure(graph);
        let ghost h0 = book.open_set@.len();
        let ghost open0 = book.open_set@;
        let current = match book.pop_best(Ghost(graph), Ghost(start_key)) {
            Some(c) => c,
            None => {
                break;
            },
        };
        let ghost was_start = at_start;
        proof {
            if at_start {
                assert(open0.count(current) > 0);
                assert(current == first_state);
            }
            at_start = false;
        }
        let current_key = VisitedKey { node_id: current.node_id, prev_external_id: current.prev_external_id };
        let current_code = key_code_exec(&current_key);
        if current.node_id == end_node_id {
            proof {
                book.lemma_search_inv(graph, start_key);
            }
            let (path_internal, Ghost(ks)) = reconstruct_path(
                current_key,
                &book.came_from,
                Ghost(graph),
                Ghost(start_key),
                Ghost(book.g_score@),
                Ghost(book.keys@),
                Ghost(book.stamp@),
                Ghost(book.clock@),
            );
            proof {
                assert forall|j: int| 0 <= j < ks.len() implies (#[trigger] ks[j]).node_id < graph.n() by {
                    if j < ks.len() - 1 {
                        assert(is_step(graph, ks[j], ks[j + 1]));
                    } else if j > 0 {
                        assert(is_step(graph, ks[j - 1], ks[(j - 1) + 1]));
                    }
                }
            }
            let mut path_external: Vec<i64> = Vec::new();
            let mut i: usize = 0;
            while i < path_internal.len()
                invariant
                    graph.wf(),
                    i <= path_internal@.len(),
                    path_internal@ == ks.map_values(|k: VisitedKey| k.node_id),
                    forall|j: int| 0 <= j < ks.len() ==> (#[trigger] ks[j]).node_id < graph.n(),
                    path_external@.len() == i,
                    forall|j: int| 0 <= j < i ==> path_external@[j] == #[trigger] walk_external_ids(graph, ks)[j],
                decreases path_internal@.len() - i,
            {
                let id = path_internal[i];
                assert(id == ks[i as int].node_id);
                path_external.push(graph.nodes[id as usize].external_id);
                i = i + 1;
            }
            proof {
                let p = path_external@;
                assert(p == walk_external_ids(graph, ks));
                assert(ks.last().node_id == end_node_id);
                assert(is_search_walk(graph, ks, VisitedKey { node_id: start_node_id, prev_external_id: initial_prev_node_osm_id }));
                assert(is_route(graph, p, start_node_id, initial_prev_node_osm_id, end_node_id));
                assert(p[0] == graph.ext(start_node_id));
                assert(p.last() == graph.ext(end_node_id));
                if estimate_admissible(heuristic, graph, end_node_id, next_waypoint_node) {
                    let gs = book.g_score@;
                    let cf = book.came_from@;
                    let keys = book.keys@;
                    lemma_search_coded(&book, graph, start_key);
                    lemma_parents_recorded(graph, start_key, gs, cf, keys, book.stamp@, book.clock@);
                    let es = lemma_chain_walk(graph, start_key, gs, cf, keys, ks);
                    let bound = edge_walk_cost(graph, ks, es, es.len() as int);
                    assert(key_code(ks.last()) == key_code(state_key(current)));
                    lemma_goal_cheapest(graph, end_node_id, next_waypoint_node, heuristic, done, gs, keys, open0, start_key, current, bound);
                    assert(walks_route(graph, start_key, end_node_id, ks, es, p));
                }
                if was_start {
                    assert(book.came_from@ == Map::<u128, VisitedKey>::empty());
                    assert(!book.came_from@.contains_key(current_code));
                    assert(ks =~= seq![current_key]);
                    assert(p.len() == 1);
                    assert(p =~= seq![start_osm_id]);
                }
            }
            return Ok(Some(path_external));
        }
        let recorded = match book.g_score.get(&current_code) {
            Some(v) => *v,
            None => u32::MAX,
        };
        if current.cost > recorded {
            proof {
                book.lemma_measure_nonneg(graph, start_key);
                lemma_frontier_skip(graph, end_node_id, done, book.g_score@, book.keys@, open0, current);
            }
            continue;
        }
        proof {
            lemma_frontier_settle(graph, end_node_id, done, book.g_score@, book.keys@, open0, current, current_code);
            done = done.remove(current_code);
        }
        let current_node_external_id = graph.nodes[current.node_id as usize].external_id;
        let edges = graph.neighbors(current.node_id);
        let ghost h1 = book.open_set@.len();
        let mut e: usize = 0;
        while e < edges.len()
            invariant
                graph.wf(),
                n == graph.n(),
                start_key == (VisitedKey { node_id: start_node_id, prev_external_id: initial_prev_node_osm_id }),
                book.inv(graph, start_key),
                edges@ == graph.out_edges(current.node_id),
                current.node_id < n,
                current_code == key_code(current_key),
                current_key == state_key(current),
                book.g_score@.contains_key(current_code),
                book.g_score@[current_code] == current.cost,
                book.keys@[current_code] == current_key,
                current_node_external_id == graph.ext(current.node_id),
                e <= edges@.len(),
                book.measure(graph) < m0 || book.open_set@.len() == h1,
                book.measure(graph) <= m0,
                h1 < h0,
                current.node_id != end_node_id,
                frontier_ok(graph, end_node_id, done, book.g_score@, book.keys@, book.open_set@, Some(current_code), e as int),
                links_costed(graph, book.g_score@, book.came_from@, book.keys@),
                forall|st: SearchState| #[trigger] book.open_set@.count(st) > 0 ==> keyed_by_estimate(
                    heuristic,
                    graph,
                    end_node_id,
                    next_waypoint_node,
                    st,
                ),
            decreases edges@.len() - e,
        {
            let (neighbor_id, cost) = edges[e];
            proof {
                graph.lemma_offsets_bounded(current.node_id as int);
                assert(graph.out_edges(current.node_id)[e as int] == graph.edges@[graph.offsets@[current.node_id as int] + e]);
                assert(neighbor_id == graph.out_edges(current.node_id)[e as int].0);
                assert(graph.has_edge(current.node_id, neighbor_id));
            }
            let neighbor_external_id = graph.nodes[neighbor_id as usize].external_id;
            let ghost gs0 = book.g_score@;
            let ghost keys0 = book.keys@;
            let ghost cf0 = book.came_from@;
            let ghost open1 = book.open_set@;
            proof {
                lemma_search_coded(&book, graph, start_key);
                book.lemma_search_inv(graph, start_key);
                lemma_parents_recorded(graph, start_key, gs0, cf0, keys0, book.stamp@, book.clock@);
                assert(book.keys@[current_code] == current_key);
                assert(edge_next(graph, current_key, e as int) == VisitedKey { node_id: neighbor_id, prev_external_id: Some(current_node_external_id) });
            }
            if current.prev_external_id == Some(neighbor_external_id) {
                proof {
                    lemma_frontier_turn_back(graph, end_node_id, done, gs0, keys0, open1, current_code, e as int);
                }
            } else {
                book.relax(
                    graph,
                    Ghost(start_key),
                    current,
                    current_node_external_id,
                    neighbor_id,
                    cost,
                    end_node_id,
                    next_waypoint_node,
                    heuristic,
                );
                proof {
                    lemma_frontier_relax(
                        graph,
                        end_node_id,
                        done,
                        gs0,
                        keys0,
                        open1,
                        book.g_score@,
                        book.keys@,
                        book.open_set@,
                        current_code,
                        e as int,
                    );
                    let nk = edge_next(graph, keys0[current_code], e as int);
                    let nc = key_code(nk) as u128;
                    if book.g_score@ != gs0 {
                        done = done.remove(nc);
                        if key_code(current_key) == key_code(nk) {
                            lemma_key_code_injective(current_key, nk);
                        }
                        assert(nk == VisitedKey { node_id: neighbor_id, prev_external_id: Some(current_node_external_id) });
                        assert(!turns_back(graph, current_key, e as int));
                        lemma_links_costed_step(
                            graph,
                            gs0,
                            cf0,
                            keys0,
                            current_key,
                            e as int,
                            nk,
                            book.g_score@[nc],
                        );
                    }
                }
            }
            e = e + 1;
        }
        proof {
            book.lemma_measure_nonneg(graph, start_key);
            lemma_frontier_settled(graph, end_node_id, done, book.g_score@, book.keys@, book.open_set@, current_code);
            done = done.insert(current_code);
        }
    }
    proof {
        lemma_search_coded(&book, graph, start_key);
        let gs = book.g_score@;
        let keys = book.keys@;
        assert(book.open_set@ =~= Multiset::<SearchState>::empty());
        assert forall|ks: Seq<VisitedKey>, es: Seq<int>|
            #[trigger] is_edge_walk(graph, ks, es, start_key) && ks.last().node_id == end_node_id implies edge_walk_cost(
            graph,
            ks,
            es,
            es.len() as int,
        ) >= u32::MAX by {
            if edge_walk_cost(graph, ks, es, es.len() as int) < u32::MAX {
                lemma_frontier_exhausted(graph, end_node_id, done, gs, keys, start_key, ks, es, es.len() as int);
            }
        }
    }
    Ok(None)
}

/// The recorded states of a search are filed under their codes, and the
/// start is recorded at cost 0.
proof fn lemma_search_coded(book: &SearchBook, g: &ProcessedGraph, start: VisitedKey)
    requires
        book.inv(g, start),
    ensures
        forall|y: u128| #[trigger] book.g_score@.contains_key(y) ==> key_code(book.keys@[y]) == y,
        book.g_score@.contains_key(key_code(start) as u128),
        book.g_score@[key_code(start) as u128] == 0,
{
    book.lemma_search_inv(g, start);
    lemma_all_keys_coded(g, start, book.g_score@, book.came_from@, book.keys@, book.stamp@, book.clock@);
}


/// `seg` is a route from waypoint `w1` to waypoint `w2`, given by external ids,
/// whose first node counts as reached from `prev`.
pub open spec fn is_leg(g: &ProcessedGraph, seg: Seq<i64>, w1: i64, w2: i64, prev: Option<i64>) -> bool {
    let m = g.node_id_map@;
    &&& m.contains_key(w1)
    &&& m.contains_key(w2)
    &&& seg.len() >= 1
    &&& seg[0] == w1
    &&& seg.last() == w2
    &&& is_route(g, seg, m[w1], prev, m[w2])
}

/// The node from which leg `i` of `legs` counts as reached: the node before the
/// end of the last earlier leg that moved, and none before the first leg.
pub open spec fn leg_prev(legs: Seq<Seq<i64>>, i: int) -> Option<i64>
    decreases i,
{
    if i <= 0 {
        None
    } else {
        let l = legs[i - 1];
        if l.len() >= 2 {
            Some(l[l.len() - 2])
        } else {
            leg_prev(legs, i - 1)
        }
    }
}

proof fn lemma_leg_prev_push(legs: Seq<Seq<i64>>, x: Seq<i64>, i: int)
    requires
        0 <= i <= legs.len(),
    ensures
        leg_prev(legs.push(x), i) == leg_prev(legs, i),
    decreases i,
{
    if i > 0 {
        assert(legs.push(x)[i - 1] == legs[i - 1]);
        lemma_leg_prev_push(legs, x, i - 1);
    }
}

/// Routes joined end to start: each later leg leaves out the node where the
/// previous one ended.
pub open spec fn join_legs(legs: Seq<Seq<i64>>) -> Seq<i64>
    decreases legs.len(),
{
    if legs.len() == 0 {
        Seq::empty()
    } else {
        let acc = join_legs(legs.drop_last());
        if acc.len() == 0 {
            legs.last()
        } else {
            acc + legs.last().drop_first()
        }
    }
}

/// A route through all waypoints in order, leg by leg, each leg starting as if
/// reached from where the route came from.
pub open spec fn is_waypoint_route(g: &ProcessedGraph, path: Seq<i64>, waypoints: Seq<i64>) -> bool {
    exists|legs: Seq<Seq<i64>>|
        #![trigger join_legs(legs)]
        legs.len() + 1 == waypoints.len() && (forall|i: int|
            0 <= i < legs.len() ==> #[trigger] is_leg(g, legs[i], waypoints[i], waypoints[i + 1], leg_prev(legs, i)))
            && path == join_legs(legs)
}

proof fn lemma_join_legs_ends(legs: Seq<Seq<i64>>)
    requires
        legs.len() >= 1,
        forall|i: int| 0 <= i < legs.len() ==> (#[trigger] legs[i]).len() >= 1,
        forall|i: int| 0 <= i < legs.len() - 1 ==> (#[trigger] legs[i]).last() == legs[i + 1][0],
    ensures
        join_legs(legs).len() >= 1,
        join_legs(legs)[0] == legs[0][0],
        join_legs(legs).last() == legs.last().last(),
    decreases legs.len(),
{
    let pre = legs.drop_last();
    if pre.len() >= 1 {
        assert forall|i: int| 0 <= i < pre.len() - 1 implies (#[trigger] pre[i]).last() == pre[i + 1][0] by {
            assert(legs[i].last() == legs[i + 1][0]);
        }
        lemma_join_legs_ends(pre);
        let acc = join_legs(pre);
        let l = legs.last();
        assert(l[0] == pre.last().last()) by {
            assert(legs[legs.len() - 2].last() == legs[(legs.len() - 2) + 1][0]);
        }
        if l.len() == 1 {
            assert(acc + l.drop_first() == acc);
        }
    } else {
        assert(join_legs(pre).len() == 0);
    }
}

/// The waypoint after the end of leg `i`, if there is one.
pub open spec fn after_leg(wp: Seq<i64>, i: int) -> Option<i64> {
    if i + 2 < wp.len() {
        Some(wp[i + 2])
    } else {
        None
    }
}

/// Each leg for which `h` never overestimates, looking ahead past the leg's
/// end, is a cheapest route from the leg's start, reached as the legs before
/// it give, to its end.
pub open spec fn legs_cheapest<H: RouteHeuristic>(h: &H, g: &ProcessedGraph, wp: Seq<i64>, legs: Seq<Seq<i64>>) -> bool {
    let m = g.node_id_map@;
    forall|i: int|
        0 <= i < legs.len() && admissible(h, g, m[wp[i + 1]], waypoint_node(g, after_leg(wp, i))) ==> cheapest_route(
            g,
            VisitedKey { node_id: m[wp[i]], prev_external_id: leg_prev(legs, i) },
            m[wp[i + 1]],
            #[trigger] legs[i],
        )
}

/// A route through all waypoints in order whose legs are cheapest routes
/// wherever `h` never overestimates.
pub open spec fn is_cheapest_legs_route<H: RouteHeuristic>(h: &H, g: &ProcessedGraph, path: Seq<i64>, wp: Seq<i64>) -> bool {
    exists|legs: Seq<Seq<i64>>|
        #![trigger join_legs(legs)]
        legs.len() + 1 == wp.len() && legs_cheapest(h, g, wp, legs) && path == join_legs(legs)
}

/// The legs `legs` were found, each from the arrival the legs before it
/// give, and the next leg has no route from the arrival they give.
pub open spec fn stuck_after(g: &ProcessedGraph, wp: Seq<i64>, legs: Seq<Seq<i64>>) -> bool {
    let i = legs.len() as int;
    let m = g.node_id_map@;
    &&& i + 1 < wp.len()
    &&& forall|k: int| 0 <= k < i ==> #[trigger] is_leg(g, legs[k], wp[k], wp[k + 1], leg_prev(legs, k))
    &&& m.contains_key(wp[i])
    &&& m.contains_key(wp[i + 1])
    &&& leg_unreachable(g, m[wp[i]], leg_prev(legs, i), m[wp[i + 1]])
}

/// Waypoint `j` is the first that is not a node of the map.
pub open spec fn first_missing_at(m: Map<i64, u32>, wp: Seq<i64>, j: int) -> bool {
    &&& 0 <= j < wp.len()
    &&& !m.contains_key(wp[j])
    &&& forall|k: int| 0 <= k < j ==> m.contains_key(#[trigger] wp[k])
}

/// The error of the leg that meets the first missing waypoint `j`: the first
/// leg's start, or else the end of the leg before it.
pub open spec fn missing_waypoint_message(wp: Seq<i64>, j: int) -> Seq<char> {
    if j == 0 {
        numbered_message("Start node "@, wp[0], " not in graph"@)
    } else {
        numbered_message("End node "@, wp[j], " not in graph"@)
    }
}

/// Routes through `waypoints` in order, leg by leg; each leg starts as if
/// reached from the node before the end of the previous leg, so that the route
/// does not turn straight back at a waypoint.
pub fn find_route_through_waypoints<H: RouteHeuristic>(
    graph: &ProcessedGraph,
    waypoints: &[i64],
    heuristic: &H,
) -> (r: Result<Option<Vec<i64>>, GraphError>)
    requires
        waypoints@.len() >= 2 ==> graph.wf(),
    ensures
        ({
            let m = graph.node_id_map@;
            let wp = waypoints@;
            &&& wp.len() < 2 ==> (r matches Err(GraphError::RoutingError(msg)) && msg@
                == "At least 2 points are required"@)
            &&& (wp.len() >= 2 && forall|i: int| 0 <= i < wp.len() ==> m.contains_key(#[trigger] wp[i]))
                ==> r is Ok
            &&& match r {
                Err(e) => wp.len() < 2 || (e matches GraphError::RoutingError(msg) && exists|j: int|
                    #[trigger] first_missing_at(m, wp, j) && msg@ == missing_waypoint_message(wp, j)),
                Ok(None) => exists|legs: Seq<Seq<i64>>| #[trigger] stuck_after(graph, wp, legs),
                Ok(Some(p)) => is_waypoint_route(graph, p@, wp) && p@.len() >= 1 && p@[0] == wp[0]
                    && p@.last() == wp.last() && is_cheapest_legs_route(heuristic, graph, p@, wp),
            }
        }),
{
    if waypoints.len() < 2 {
        return Err(GraphError::RoutingError(crate::errors::owned("At least 2 points are required")));
    }
    let ghost wp = waypoints@;
    let mut full_path: Vec<i64> = Vec::new();
    let mut last_predecessor_id: Option<i64> = None;
    let ghost mut legs: Seq<Seq<i64>> = Seq::empty();
    let mut i: usize = 0;
    while i < waypoints.len() - 1
        invariant
            graph.wf(),
            wp == waypoints@,
            wp.len() >= 2,
            i <= wp.len() - 1,
            legs.len() == i,
            forall|j: int| 0 <= j < i ==> #[trigger] is_leg(graph, legs[j], wp[j], wp[j + 1], leg_prev(legs, j)),
            last_predecessor_id == leg_prev(legs, i as int),
            full_path@ == join_legs(legs),
            i > 0 ==> full_path@.len() >= 1,
            forall|k: int| 0 <= k <= i && i > 0 ==> graph.node_id_map@.contains_key(#[trigger] wp[k]),
            legs_cheapest(heuristic, graph, wp, legs),
        decreases wp.len() - 1 - i,
    {
        let start_osm_id = waypoints[i];
        let end_osm_id = waypoints[i + 1];
        let next_waypoint_osm_id = if i + 2 < waypoints.len() {
            Some(waypoints[i + 2])
        } else {
            None
        };
        let segment = find_route_segment_astar(
            graph,
            start_osm_id,
            end_osm_id,
            last_predecessor_id,
            next_waypoint_osm_id,
            heuristic,
        );
        let segment_path = match segment {
            Err(e) => {
                proof {
                    let m = graph.node_id_map@;
                    if !m.contains_key(wp[i as int]) {
                        assert(i == 0);
                        assert(first_missing_at(m, wp, 0));
                    } else {
                        assert(!m.contains_key(wp[i + 1]));
                        assert(first_missing_at(m, wp, i + 1));
                    }
                }
                return Err(e);
            },
            Ok(None) => {
                proof {
                    let m = graph.node_id_map@;
                    assert(leg_unreachable(graph, m[wp[i as int]], last_predecessor_id, m[wp[i + 1]]));
                    assert(stuck_after(graph, wp, legs));
                }
                return Ok(None);
            },
            Ok(Some(p)) => p,
        };
        let ghost seg = segment_path@;
        let ghost prev_legs = legs;
        proof {
            let m = graph.node_id_map@;
            assert(is_route(graph, seg, m[start_osm_id], last_predecessor_id, m[end_osm_id]));
            lemma_leg_prev_push(legs, seg, i as int);
            legs = legs.push(seg);
            assert(is_leg(graph, seg, wp[i as int], wp[i + 1], leg_prev(legs, i as int)));
            assert(legs.drop_last() =~= legs.subrange(0, i as int));
            assert(legs.drop_last() == prev_legs);
        }
        if segment_path.len() < 2 {
            if full_path.len() == 0 {
                full_path.push(start_osm_id);
                assert(full_path@ == seg);
            } else {
                assert(seg.drop_first().len() == 0);
                assert(full_path@ == full_path@ + seg.drop_first());
            }
        } else {
            last_predecessor_id = Some(segment_path[segment_path.len() - 2]);
            if full_path.len() == 0 {
                let mut k: usize = 0;
                while k < segment_path.len()
                    invariant
                        k <= segment_path@.len(),
                        full_path@ == segment_path@.subrange(0, k as int),
                    decreases segment_path@.len() - k,
                {
                    full_path.push(segment_path[k]);
                    k = k + 1;
                }
                assert(full_path@ == seg);
            } else {
                let ghost before = full_path@;
                let mut k: usize = 1;
                while k < segment_path.len()
                    invariant
                        1 <= k <= segment_path@.len(),
                        full_path@ == before + segment_path@.subrange(1, k as int),
                    decreases segment_path@.len() - k,
                {
                    full_path.push(segment_path[k]);
                    k = k + 1;
                }
                assert(segment_path@.subrange(1, segment_path@.len() as int) == seg.drop_first());
            }
        }
        proof {
            assert forall|j: int| 0 <= j < i + 1 implies #[trigger] is_leg(graph, legs[j], wp[j], wp[j + 1], leg_prev(legs, j)) by {
                if j < i {
                    assert(legs[j] == prev_legs[j]);
                    lemma_leg_prev_push(prev_legs, seg, j);
                }
            }
            assert(legs[i as int] == seg);
            let m = graph.node_id_map@;
            assert(next_waypoint_osm_id == after_leg(wp, i as int));
            assert forall|j: int|
                0 <= j < legs.len() && admissible(heuristic, graph, m[wp[j + 1]], waypoint_node(graph, after_leg(wp, j)))
                implies cheapest_route(
                graph,
                VisitedKey { node_id: m[wp[j]], prev_external_id: leg_prev(legs, j) },
                m[wp[j + 1]],
                #[trigger] legs[j],
            ) by {
                if j < i {
                    assert(legs[j] == prev_legs[j]);
                    lemma_leg_prev_push(prev_legs, seg, j);
                }
            }
        }
        i = i + 1;
    }
    proof {
        assert forall|j: int| 0 <= j < legs.len() implies (#[trigger] legs[j]).len() >= 1 by {
            assert(is_leg(graph, legs[j], wp[j], wp[j + 1], leg_prev(legs, j)));
        }
        assert forall|j: int| 0 <= j < legs.len() - 1 implies (#[trigger] legs[j]).last() == legs[j + 1][0] by {
            assert(is_leg(graph, legs[j], wp[j], wp[j + 1], leg_prev(legs, j)));
            assert(is_leg(graph, legs[j + 1], wp[j + 1], wp[j + 1 + 1], leg_prev(legs, j + 1)));
        }
        lemma_join_legs_ends(legs);
        assert(is_leg(graph, legs[0], wp[0], wp[1], leg_prev(legs, 0)));
        assert(is_leg(graph, legs[legs.len() - 1], wp[legs.len() - 1], wp[(legs.len() - 1) + 1], leg_prev(legs, legs.len() - 1)));
        assert(is_waypoint_route(graph, full_path@, wp));
        assert(is_cheapest_legs_route(heuristic, graph, full_path@, wp));
    }
    Ok(Some(full_path))
}


impl GraphContainer {
    /// Routes through `waypoints` on the graph of profile `profile_id`.
    #[verifier::spinoff_prover]
    pub fn route<H: RouteHeuristic>(&self, profile_id: &str, waypoints: &[i64], heuristic: &H) -> (r: Result<
        Option<Vec<i64>>,
        GraphError,
    >)
        requires
            waypoints@.len() >= 2 ==> self.wf(),
        ensures
            waypoints@.len() < 2 ==> (r matches Err(GraphError::RoutingError(msg)) && msg@
                == "At least two waypoints are required for routing."@),
            waypoints@.len() >= 2 && self.profile_index(profile_id@) is None ==> (r matches Err(
                GraphError::ProfileNotFound(s),
            ) && s@ == profile_id@),
            waypoints@.len() >= 2 && self.profile_index(profile_id@) is Some ==> {
                let g = &self.profiles@[self.profile_index(profile_id@)->0].1;
                let m = g.node_id_map@;
                let wp = waypoints@;
                &&& (forall|i: int| 0 <= i < wp.len() ==> m.contains_key(#[trigger] wp[i])) ==> r is Ok
                &&& match r {
                    Err(e) => e matches GraphError::RoutingError(msg) && exists|j: int|
                        #[trigger] first_missing_at(m, wp, j) && msg@ == missing_waypoint_message(wp, j),
                    Ok(None) => exists|legs: Seq<Seq<i64>>| #[trigger] stuck_after(g, wp, legs),
                    Ok(Some(p)) => is_waypoint_route(g, p@, wp) && p@.len() >= 1 && p@[0] == wp[0]
                        && p@.last() == wp.last() && is_cheapest_legs_route(heuristic, g, p@, wp),
                }
            },
    {
        if waypoints.len() < 2 {
            return Err(
                GraphError::RoutingError(
                    crate::errors::owned("At least two waypoints are required for routing."),
                ),
            );
        }
        let idx = match self.find_profile(profile_id) {
            Some(i) => i,
            None => {
                return Err(GraphError::ProfileNotFound(crate::errors::owned(profile_id)));
            },
        };
        assert(self.profiles@[idx as int].1.wf());
        let r = find_route_through_waypoints(&self.profiles[idx].1, waypoints, heuristic);
        proof {
            let g = &self.profiles@[idx as int].1;
            match &r {
                Ok(None) => {
                    let legs = choose|legs: Seq<Seq<i64>>| #[trigger] stuck_after(g, waypoints@, legs);
                    assert(stuck_after(g, waypoints@, legs));
                },
                Err(_) => {
                    let j = choose|j: int| #[trigger] first_missing_at(g.node_id_map@, waypoints@, j);
                    assert(first_missing_at(g.node_id_map@, waypoints@, j));
                },
                Ok(Some(p)) => {
                    assert(is_waypoint_route(g, p@, waypoints@));
                    assert(is_cheapest_legs_route(heuristic, g, p@, waypoints@));
                },
            }
            assert(self.profile_index(profile_id@)->0 == idx as int);
            let m = g.node_id_map@;
            let wp = waypoints@;
            assert((forall|i: int| 0 <= i < wp.len() ==> m.contains_key(#[trigger] wp[i])) ==> r is Ok);
            assert(match r {
                Err(e) => e matches GraphError::RoutingError(msg) && exists|j: int|
                    #[trigger] first_missing_at(m, wp, j) && msg@ == missing_waypoint_message(wp, j),
                Ok(None) => exists|legs: Seq<Seq<i64>>| #[trigger] stuck_after(g, wp, legs),
                Ok(Some(p)) => is_waypoint_route(g, p@, wp) && p@.len() >= 1 && p@[0] == wp[0]
                    && p@.last() == wp.last() && is_cheapest_legs_route(heuristic, g, p@, wp),
            });
        }
        r
    }
}

} // verus!
