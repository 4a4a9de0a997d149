use vstd::prelude::*;
use vstd::multiset::Multiset;
use std::collections::HashMap;
use crate::errors::{numbered, numbered_message, GraphError};
use crate::pqueue::{MinHeap, QueueOrder};
use crate::routegraph::{RouteEdge, RouteGraph};
use crate::shortest::{costs_nonnegative, out_edges};
use crate::turns::{
    chain_len, chain_nodes, chain_ways, dedup_runs, is_turn_allowed, lemma_stops_unique,
    reconstruct_path_with_ways, stops_after, turn_allowed, walk_back, RouteResult, TurnRestrictionData,
};

verus! {

broadcast use vstd::std_specs::hash::group_hash_axioms;

/// The floating-point side of a search over a map graph: the distances and
/// bearings that order and prune the search.
pub trait SearchGuide {
    /// The estimated cost from `node` to the end.
    fn estimate(&self, node: i64) -> i64;

    /// Whether `node`, just taken from the open set and not the end, lies
    /// too far off the best progress so far to be expanded. The first node
    /// taken, and any node without a position, is expanded without asking.
    fn rejects(&self, node: i64) -> bool;

    /// Notes that `node` is being expanded.
    fn expand(&mut self, node: i64);

    /// Notes where `to` lies, and whether the step from `from` to `to` leads
    /// too far off to be tried; a step to the end is tried whatever it says.
    fn prunes(&mut self, from: i64, to: i64) -> bool;

    /// Whether the search is to start in a given direction.
    fn has_bearing(&self) -> bool;

    /// How well the step from `from` to `to` follows the starting direction:
    /// positive when it does, at most zero when it does not.
    fn bearing_score(&self, from: i64, to: i64) -> i64;
}

/// A state of the search: a node, the node and way it was reached by, the
/// cost of reaching it and that cost plus the estimate to the end.
#[derive(Clone, Copy, PartialEq, Eq, Debug)]
pub struct NodeWithPrevious {
    pub node_id: i64,
    pub previous_node_id: Option<i64>,
    pub previous_way_id: Option<i64>,
    pub cost: i64,
    pub estimated_total_cost: i64,
}

/// `a` leaves the open set no later than `b`: the smaller estimate first, and
/// on equal estimates the smaller cost.
pub open spec fn goes_first(a: NodeWithPrevious, b: NodeWithPrevious) -> bool {
    a.estimated_total_cost < b.estimated_total_cost || (a.estimated_total_cost
        == b.estimated_total_cost && a.cost <= b.cost)
}

impl QueueOrder for NodeWithPrevious {
    open spec fn first(a: Self, b: Self) -> bool {
        goes_first(a, b)
    }

    proof fn lemma_total(a: Self, b: Self) {
    }

    proof fn lemma_trans(a: Self, b: Self, c: Self) {
    }

    fn first_exec(a: &Self, b: &Self) -> (r: bool) {
        a.estimated_total_cost < b.estimated_total_cost || (a.estimated_total_cost
            == b.estimated_total_cost && a.cost <= b.cost)
    }
}

/// The state reached at `to` from `from` along `way`, at cost `cost` with
/// estimate `est`.
pub open spec fn step_state(to: i64, from: i64, way: i64, cost: i64, est: i64) -> NodeWithPrevious {
    NodeWithPrevious {
        node_id: to,
        previous_node_id: Some(from),
        previous_way_id: Some(way),
        cost,
        estimated_total_cost: est,
    }
}

/// `x` held to the range of `i64`.
pub open spec fn clamped(x: int) -> int {
    if x > i64::MAX {
        i64::MAX as int
    } else if x < i64::MIN {
        i64::MIN as int
    } else {
        x
    }
}

/// The state queued at `to` from `from` along `way` at cost `cost`, when the
/// guide estimates `estimate` from `to` to the end: its key is the cost plus
/// the estimate, held to the range of `i64`.
pub open spec fn queued_state(to: i64, from: i64, way: i64, cost: i64, estimate: i64) -> NodeWithPrevious {
    step_state(to, from, way, cost, clamped(cost + estimate) as i64)
}

/// Queued states leave the open set by cost plus estimate: of two states
/// queued with their guide estimates, the one whose cost plus estimate is
/// smaller goes first, and on equal sums the cheaper one.
pub proof fn lemma_queued_by_cost_plus_estimate(
    a_to: i64,
    a_from: i64,
    a_way: i64,
    a_cost: i64,
    a_estimate: i64,
    b_to: i64,
    b_from: i64,
    b_way: i64,
    b_cost: i64,
    b_estimate: i64,
)
    requires
        i64::MIN <= a_cost + a_estimate <= i64::MAX,
        i64::MIN <= b_cost + b_estimate <= i64::MAX,
    ensures
        a_cost + a_estimate < b_cost + b_estimate ==> goes_first(
            queued_state(a_to, a_from, a_way, a_cost, a_estimate),
            queued_state(b_to, b_from, b_way, b_cost, b_estimate),
        ) && !goes_first(
            queued_state(b_to, b_from, b_way, b_cost, b_estimate),
            queued_state(a_to, a_from, a_way, a_cost, a_estimate),
        ),
        a_cost + a_estimate == b_cost + b_estimate ==> (goes_first(
            queued_state(a_to, a_from, a_way, a_cost, a_estimate),
            queued_state(b_to, b_from, b_way, b_cost, b_estimate),
        ) <==> a_cost <= b_cost),
{
}

/// Some edge of `from` leads to `to` along way `way`.
pub open spec fn has_edge(adj: Map<i64, Vec<RouteEdge>>, from: i64, to: i64, way: i64) -> bool {
    exists|j: int|
        #![trigger out_edges(adj, from)[j]]
        0 <= j < out_edges(adj, from).len() && out_edges(adj, from)[j].to_node == to && out_edges(
            adj,
            from,
        )[j].way_id == way
}

/// `nodes` runs from `start` to `end`, each node reached from the one before
/// by an edge along the way of the same place in `steps`; `ways` lists those
/// ways, each run of one way once.
pub open spec fn is_way_route(
    adj: Map<i64, Vec<RouteEdge>>,
    start: i64,
    end: i64,
    nodes: Seq<i64>,
    steps: Seq<i64>,
    ways: Seq<i64>,
) -> bool {
    &&& nodes.len() == steps.len() + 1
    &&& nodes[0] == start
    &&& nodes.last() == end
    &&& forall|i: int| 0 <= i < steps.len() ==> #[trigger] has_edge(adj, nodes[i], nodes[i + 1], steps[i])
    &&& ways == dedup_runs(steps)
}

/// A search state as the node it stands at, the node before it and the way
/// between them.
pub open spec fn arrival(e: NodeWithPrevious) -> (i64, Option<i64>, Option<i64>) {
    (e.node_id, e.previous_node_id, e.previous_way_id)
}

/// From arrival `a` the search may go on to arrival `b`: `a`'s node is not
/// the end, an edge leads from it to `b`'s node along `b`'s way, and the
/// restrictions allow that way after the way by which `a` was reached.
pub open spec fn arrival_step(
    adj: Map<i64, Vec<RouteEdge>>,
    rs: Seq<TurnRestrictionData>,
    end: i64,
    a: (i64, Option<i64>, Option<i64>),
    b: (i64, Option<i64>, Option<i64>),
) -> bool {
    &&& a.0 != end
    &&& b.1 == Some(a.0)
    &&& b.2 is Some
    &&& has_edge(adj, a.0, b.0, b.2->0)
    &&& turn_allowed(rs, a.2, a.0, b.2->0)
}

/// `ch` is a chain of arrivals from the start, reached by no way, each
/// following the one before.
pub open spec fn is_derivation(
    adj: Map<i64, Vec<RouteEdge>>,
    rs: Seq<TurnRestrictionData>,
    start: i64,
    end: i64,
    ch: Seq<(i64, Option<i64>, Option<i64>)>,
) -> bool {
    &&& ch.len() >= 1
    &&& ch[0] == (start, None::<i64>, None::<i64>)
    &&& forall|k: int| 0 <= k < ch.len() - 1 ==> #[trigger] arrival_step(adj, rs, end, ch[k], ch[k + 1])
}

/// The search can make arrival `a`: a chain of arrivals from the start ends
/// there.
pub open spec fn can_arrive(
    adj: Map<i64, Vec<RouteEdge>>,
    rs: Seq<TurnRestrictionData>,
    start: i64,
    end: i64,
    a: (i64, Option<i64>, Option<i64>),
) -> bool {
    exists|ch: Seq<(i64, Option<i64>, Option<i64>)>| #[trigger] is_derivation(adj, rs, start, end, ch) && ch.last() == a
}

/// Node `v`, other than the end, can be arrived at along a way from which
/// the restrictions allow the turn onto way `w`.
pub open spec fn turn_into(
    adj: Map<i64, Vec<RouteEdge>>,
    rs: Seq<TurnRestrictionData>,
    start: i64,
    end: i64,
    v: i64,
    w: i64,
) -> bool {
    exists|a: (i64, Option<i64>, Option<i64>)|
        #[trigger] can_arrive(adj, rs, start, end, a) && a.0 == v && v != end && turn_allowed(rs, a.2, v, w)
}

/// Every step of the route after the first leaves its node on a way onto
/// which an allowed turn leads from some arrival of the search at that node.
pub open spec fn turns_along(
    adj: Map<i64, Vec<RouteEdge>>,
    rs: Seq<TurnRestrictionData>,
    start: i64,
    end: i64,
    nodes: Seq<i64>,
    steps: Seq<i64>,
) -> bool {
    forall|i: int| 0 < i < steps.len() ==> #[trigger] turn_into(adj, rs, start, end, nodes[i], steps[i])
}

proof fn lemma_arrive_step(
    adj: Map<i64, Vec<RouteEdge>>,
    rs: Seq<TurnRestrictionData>,
    start: i64,
    end: i64,
    a: (i64, Option<i64>, Option<i64>),
    b: (i64, Option<i64>, Option<i64>),
)
    requires
        can_arrive(adj, rs, start, end, a),
        arrival_step(adj, rs, end, a, b),
    ensures
        can_arrive(adj, rs, start, end, b),
{
    let ch = choose|ch: Seq<(i64, Option<i64>, Option<i64>)>| #[trigger] is_derivation(adj, rs, start, end, ch) && ch.last() == a;
    let ch2 = ch.push(b);
    assert forall|k: int| 0 <= k < ch2.len() - 1 implies #[trigger] arrival_step(adj, rs, end, ch2[k], ch2[k + 1]) by {
        if k < ch.len() - 1 {
            assert(ch2[k] == ch[k] && ch2[k + 1] == ch[k + 1]);
        } else {
            assert(ch2[k] == a);
        }
    }
    assert(is_derivation(adj, rs, start, end, ch2));
    assert(ch2.last() == b);
}

/// The route runs from `start` to `end` along edges of the graph without
/// passing any node twice, and each step after the first leaves its node on
/// a way onto which the restrictions allow the turn from some way by which
/// the search can arrive at that node.
pub open spec fn routes_along(
    adj: Map<i64, Vec<RouteEdge>>,
    rs: Seq<TurnRestrictionData>,
    start: i64,
    end: i64,
    r: RouteResult,
) -> bool {
    &&& r.nodes@.no_duplicates()
    &&& exists|steps: Seq<i64>| #[trigger] is_way_route(adj, start, end, r.nodes@, steps, r.ways@) && turns_along(adj, rs, start, end, r.nodes@, steps)
}

/// An open state is the start's, reached by no way, or was reached from its
/// previous node along an edge on its previous way.
pub open spec fn entry_ok(adj: Map<i64, Vec<RouteEdge>>, start: i64, e: NodeWithPrevious) -> bool {
    match e.previous_way_id {
        None => e.node_id == start,
        Some(pw) => e.previous_node_id is Some && has_edge(adj, e.previous_node_id->0, e.node_id, pw),
    }
}

/// Every predecessor link other than the start's was made by an allowed
/// turn from an arrival of the search, and every open state is sound and an
/// arrival that the search can make.
pub open spec fn turns_inv(
    adj: Map<i64, Vec<RouteEdge>>,
    rs: Seq<TurnRestrictionData>,
    start: i64,
    end: i64,
    cf: Map<i64, (i64, i64)>,
    open: Multiset<NodeWithPrevious>,
) -> bool {
    &&& forall|u: i64| #[trigger] cf.contains_key(u) ==> cf[u].0 == start || turn_into(adj, rs, start, end, cf[u].0, cf[u].1)
    &&& forall|e: NodeWithPrevious| #[trigger] open.count(e) > 0 ==> entry_ok(adj, start, e) && can_arrive(
        adj,
        rs,
        start,
        end,
        arrival(e),
    )
}

/// The predecessor recorded for `u` is sound: an edge leads from it to `u`,
/// it was reached no more dearly and, at equal cost, earlier, and it is the
/// start or has a predecessor of its own.
pub open spec fn link_ok(
    adj: Map<i64, Vec<RouteEdge>>,
    start: i64,
    gs: Map<i64, i64>,
    cf: Map<i64, (i64, i64)>,
    ts: Map<i64, nat>,
    u: i64,
) -> bool {
    let v = cf[u].0;
    &&& gs.contains_key(u)
    &&& gs.contains_key(v)
    &&& (gs[v] < gs[u] || (gs[v] == gs[u] && ts[v] < ts[u]))
    &&& has_edge(adj, v, u, cf[u].1)
    &&& (v == start || cf.contains_key(v))
}

/// What a search from `start` keeps: the start costs nothing and has no
/// predecessor, costs are not negative, every predecessor link is sound, and
/// every open state is at the start or at a node with a predecessor.
pub open spec fn search_inv(
    adj: Map<i64, Vec<RouteEdge>>,
    start: i64,
    gs: Map<i64, i64>,
    cf: Map<i64, (i64, i64)>,
    ts: Map<i64, nat>,
    clock: nat,
    open: Multiset<NodeWithPrevious>,
) -> bool {
    &&& gs.contains_key(start)
    &&& gs[start] == 0
    &&& !cf.contains_key(start)
    &&& forall|u: i64| #[trigger] gs.contains_key(u) ==> gs[u] >= 0 && ts.contains_key(u) && ts[u] < clock
    &&& forall|u: i64| #[trigger] cf.contains_key(u) ==> link_ok(adj, start, gs, cf, ts, u)
    &&& forall|e: NodeWithPrevious| #[trigger] open.count(e) > 0 ==> e.node_id == start || cf.contains_key(e.node_id)
}

proof fn lemma_walk_back_shift(cf: Map<i64, (i64, i64)>, x: i64, j: nat)
    requires
        cf.contains_key(x),
    ensures
        walk_back(cf, x, j + 1) == walk_back(cf, cf[x].0, j),
    decreases j,
{
    if j > 0 {
        lemma_walk_back_shift(cf, x, (j - 1) as nat);
        assert(walk_back(cf, x, j + 1) == cf[walk_back(cf, x, j)].0);
        assert(walk_back(cf, cf[x].0, j) == cf[walk_back(cf, cf[x].0, (j - 1) as nat)].0);
    } else {
        assert(walk_back(cf, x, 0) == x);
        assert(walk_back(cf, x, 1) == cf[walk_back(cf, x, 0)].0);
    }
}

/// Following predecessors back from a node that is the start or has a
/// predecessor stops, after `k` steps, at the start.
proof fn lemma_chain_to_start(
    adj: Map<i64, Vec<RouteEdge>>,
    start: i64,
    gs: Map<i64, i64>,
    cf: Map<i64, (i64, i64)>,
    ts: Map<i64, nat>,
    clock: nat,
    open: Multiset<NodeWithPrevious>,
    x: i64,
) -> (k: nat)
    requires
        search_inv(adj, start, gs, cf, ts, clock, open),
        x == start || cf.contains_key(x),
    ensures
        stops_after(cf, x, k),
        walk_back(cf, x, k) == start,
    decreases gs[x], ts[x],
{
    if !cf.contains_key(x) {
        0
    } else {
        assert(link_ok(adj, start, gs, cf, ts, x));
        let v = cf[x].0;
        assert(gs.contains_key(v));
        assert(gs[v] >= 0);
        let k0 = lemma_chain_to_start(adj, start, gs, cf, ts, clock, open, v);
        lemma_walk_back_shift(cf, x, k0);
        assert forall|j: nat| j < k0 + 1 implies cf.contains_key(#[trigger] walk_back(cf, x, j)) by {
            if j > 0 {
                lemma_walk_back_shift(cf, x, (j - 1) as nat);
                assert(cf.contains_key(walk_back(cf, v, (j - 1) as nat)));
            }
        }
        k0 + 1
    }
}

/// The predecessor chain from a popped node gives a route from the start.
proof fn lemma_chain_route(
    adj: Map<i64, Vec<RouteEdge>>,
    start: i64,
    gs: Map<i64, i64>,
    cf: Map<i64, (i64, i64)>,
    ts: Map<i64, nat>,
    clock: nat,
    open: Multiset<NodeWithPrevious>,
    end: i64,
    rs: Seq<TurnRestrictionData>,
)
    requires
        search_inv(adj, start, gs, cf, ts, clock, open),
        turns_inv(adj, rs, start, end, cf, open),
        end == start || cf.contains_key(end),
    ensures
        exists|k: nat| stops_after(cf, end, k),
        is_way_route(
            adj,
            start,
            end,
            chain_nodes(cf, end),
            chain_ways(cf, end),
            dedup_runs(chain_ways(cf, end)),
        ),
        turns_along(adj, rs, start, end, chain_nodes(cf, end), chain_ways(cf, end)),
        !cf.contains_key(end) ==> chain_nodes(cf, end) == seq![end] && chain_ways(cf, end).len() == 0,
        chain_nodes(cf, end).no_duplicates(),
{
    let k = lemma_chain_to_start(adj, start, gs, cf, ts, clock, open, end);
    let k1 = chain_len(cf, end);
    lemma_stops_unique(cf, end, k, k1);
    let nodes = chain_nodes(cf, end);
    let steps = chain_ways(cf, end);
    assert(nodes[0] == walk_back(cf, end, k));
    assert(nodes.last() == walk_back(cf, end, 0));
    assert forall|i: int| 0 <= i < steps.len() implies #[trigger] has_edge(adj, nodes[i], nodes[i + 1], steps[i]) by {
        let y = walk_back(cf, end, (k - 1 - i) as nat);
        assert(cf.contains_key(y));
        assert(link_ok(adj, start, gs, cf, ts, y));
        assert(nodes[i + 1] == y);
        assert(walk_back(cf, end, (k - i) as nat) == cf[y].0);
        assert(nodes[i] == cf[y].0);
        assert(steps[i] == cf[y].1);
    }
    assert forall|i: int| 0 < i < steps.len() implies #[trigger] turn_into(adj, rs, start, end, nodes[i], steps[i]) by {
        let y = walk_back(cf, end, (k - 1 - i) as nat);
        assert(cf.contains_key(y));
        assert(walk_back(cf, end, (k - i) as nat) == cf[y].0);
        assert(nodes[i] == cf[y].0);
        assert(steps[i] == cf[y].1);
        assert(cf.contains_key(walk_back(cf, end, (k - i) as nat)));
    }
    if !cf.contains_key(end) {
        assert(stops_after(cf, end, 0));
        lemma_stops_unique(cf, end, 0, k);
        assert(nodes =~= seq![end]);
    }
    assert forall|a: int, b: int| 0 <= a < nodes.len() && 0 <= b < nodes.len() && a != b implies nodes[a] != nodes[b] by {
        if a < b {
            lemma_chain_descends(adj, start, gs, cf, ts, clock, open, end, k, (k - b) as nat, (k - a) as nat);
        } else {
            lemma_chain_descends(adj, start, gs, cf, ts, clock, open, end, k, (k - a) as nat, (k - b) as nat);
        }
    }
}

/// Walking predecessors back, each node was reached more cheaply than the
/// ones after it or, at equal cost, earlier; so no node comes twice.
proof fn lemma_chain_descends(
    adj: Map<i64, Vec<RouteEdge>>,
    start: i64,
    gs: Map<i64, i64>,
    cf: Map<i64, (i64, i64)>,
    ts: Map<i64, nat>,
    clock: nat,
    open: Multiset<NodeWithPrevious>,
    x: i64,
    k: nat,
    i: nat,
    j: nat,
)
    requires
        search_inv(adj, start, gs, cf, ts, clock, open),
        stops_after(cf, x, k),
        i < j <= k,
    ensures
        ({
            let a = walk_back(cf, x, j);
            let b = walk_back(cf, x, i);
            gs.contains_key(a) && gs.contains_key(b) && (gs[a] < gs[b] || (gs[a] == gs[b] && ts[a] < ts[b]))
        }),
    decreases j - i,
{
    let u = walk_back(cf, x, (j - 1) as nat);
    assert(cf.contains_key(u));
    assert(link_ok(adj, start, gs, cf, ts, u));
    assert(walk_back(cf, x, j) == cf[u].0);
    if j > i + 1 {
        lemma_chain_descends(adj, start, gs, cf, ts, clock, open, x, k, i, (j - 1) as nat);
    }
}

/// The open set, best costs and predecessors of one search.
struct Search {
    open_set: MinHeap<NodeWithPrevious>,
    g_score: HashMap<i64, i64>,
    came_from: HashMap<i64, (i64, i64)>,
    visited: HashMap<i64, Vec<(Option<i64>, Option<i64>)>>,
    stamp: Ghost<Map<i64, nat>>,
    clock: Ghost<nat>,
}

impl Search {
    spec fn inv(&self, adj: Map<i64, Vec<RouteEdge>>, start: i64) -> bool {
        &&& self.open_set.wf()
        &&& search_inv(adj, start, self.g_score@, self.came_from@, self.stamp@, self.clock@, self.open_set@)
    }

    /// The open states and predecessor links are sound for the turn rules.
    spec fn turns_ok(&self, adj: Map<i64, Vec<RouteEdge>>, rs: Seq<TurnRestrictionData>, start: i64, end: i64) -> bool {
        turns_inv(adj, rs, start, end, self.came_from@, self.open_set@)
    }

    /// Whether the state of `node` reached from `prev` was expanded already.
    fn was_visited(&self, node: i64, prev: (Option<i64>, Option<i64>)) -> (b: bool)
        ensures
            !self.visited@.contains_key(node) ==> !b,
    {
        match self.visited.get(&node) {
            None => false,
            Some(list) => {
                let mut i: usize = 0;
                while i < list.len()
                    invariant
                        self.visited@.contains_key(node),
                    decreases list@.len() - i,
                {
                    let (a, b) = list[i];
                    let same_node = match (a, prev.0) {
                        (Some(x), Some(y)) => x == y,
                        (None, None) => true,
                        _ => false,
                    };
                    let same_way = match (b, prev.1) {
                        (Some(x), Some(y)) => x == y,
                        (None, None) => true,
                        _ => false,
                    };
                    if same_node && same_way {
                        return true;
                    }
                    i = i + 1;
                }
                false
            },
        }
    }

    /// Records that the state of `node` reached from `prev` is expanded.
    fn mark_visited(&mut self, node: i64, prev: (Option<i64>, Option<i64>))
        ensures
            final(self).open_set == old(self).open_set,
            final(self).g_score == old(self).g_score,
            final(self).came_from == old(self).came_from,
            final(self).stamp == old(self).stamp,
            final(self).clock == old(self).clock,
            forall|x: i64| x != node ==> (final(self).visited@.contains_key(x) <==> old(self).visited@.contains_key(x)),
    {
        let mut list = match self.visited.remove(&node) {
            Some(l) => l,
            None => Vec::new(),
        };
        list.push(prev);
        self.visited.insert(node, list);
    }

    /// A fresh search from `start`, holding just the first state.
    fn begin(
        Ghost(adj): Ghost<Map<i64, Vec<RouteEdge>>>,
        Ghost(rs): Ghost<Seq<TurnRestrictionData>>,
        Ghost(end): Ghost<i64>,
        start: i64,
        first_estimate: i64,
    ) -> (s: Self)
        ensures
            s.inv(adj, start),
            s.turns_ok(adj, rs, start, end),
            s.came_from@ == Map::<i64, (i64, i64)>::empty(),
            s.g_score@ == Map::<i64, i64>::empty().insert(start, 0),
            s.visited@ == Map::<i64, Vec<(Option<i64>, Option<i64>)>>::empty(),
            s.open_set@ == Multiset::<NodeWithPrevious>::empty().insert(
                NodeWithPrevious {
                    node_id: start,
                    previous_node_id: None,
                    previous_way_id: None,
                    cost: 0,
                    estimated_total_cost: first_estimate,
                },
            ),
    {
        let mut g_score: HashMap<i64, i64> = HashMap::new();
        g_score.insert(start, 0);
        let mut s = Search {
            open_set: MinHeap::new(),
            g_score,
            came_from: HashMap::new(),
            visited: HashMap::new(),
            stamp: Ghost(Map::<i64, nat>::empty().insert(start, 0)),
            clock: Ghost(1),
        };
        let first = NodeWithPrevious {
            node_id: start,
            previous_node_id: None,
            previous_way_id: None,
            cost: 0,
            estimated_total_cost: first_estimate,
        };
        s.open_set.push(first);
        proof {
            assert forall|e: NodeWithPrevious| #[trigger] s.open_set@.count(e) > 0 implies e.node_id == start by {
                assert(e == first);
            }
            let ch = seq![arrival(first)];
            assert(is_derivation(adj, rs, start, end, ch));
            assert forall|e: NodeWithPrevious| #[trigger] s.open_set@.count(e) > 0 implies entry_ok(adj, start, e)
                && can_arrive(adj, rs, start, end, arrival(e)) by {
                assert(e == first);
                assert(ch.last() == arrival(e));
            }
        }
        s
    }

    /// Tries `edge` out of the state `current`, reached at `current_g`:
    /// records and queues its target when the turn is allowed and this
    /// reaches the target more cheaply than before.
    fn relax<G: SearchGuide>(
        &mut self,
        Ghost(adj): Ghost<Map<i64, Vec<RouteEdge>>>,
        start: Ghost<i64>,
        end: Ghost<i64>,
        restrictions: &Vec<TurnRestrictionData>,
        current: &NodeWithPrevious,
        current_g: i64,
        edge: &RouteEdge,
        guide: &G,
    )
        requires
            old(self).inv(adj, start@),
            old(self).turns_ok(adj, restrictions@, start@, end@),
            entry_ok(adj, start@, *current),
            can_arrive(adj, restrictions@, start@, end@, arrival(*current)),
            current.node_id != end@,
            current.node_id == start@ || old(self).came_from@.contains_key(current.node_id),
            old(self).g_score@.contains_key(current.node_id),
            old(self).g_score@[current.node_id] == current_g,
            has_edge(adj, current.node_id, edge.to_node, edge.way_id),
            edge.cost >= 0,
        ensures
            final(self).inv(adj, start@),
            final(self).turns_ok(adj, restrictions@, start@, end@),
            final(self).visited == old(self).visited,
            final(self).g_score@.contains_key(current.node_id),
            final(self).g_score@[current.node_id] == current_g,
            forall|u: i64| old(self).came_from@.contains_key(u) ==> #[trigger] final(self).came_from@.contains_key(u),
            ({
                let to = edge.to_node;
                let tentative = current_g + edge.cost;
                let known = if old(self).g_score@.contains_key(to) {
                    old(self).g_score@[to] as int
                } else {
                    i64::MAX as int
                };
                let improves = tentative <= i64::MAX && tentative < known && turn_allowed(
                    restrictions@,
                    current.previous_way_id,
                    current.node_id,
                    edge.way_id,
                );
                &&& improves ==> {
                    &&& final(self).came_from@ == old(self).came_from@.insert(to, (current.node_id, edge.way_id))
                    &&& final(self).g_score@ == old(self).g_score@.insert(to, tentative as i64)
                    &&& exists|e: i64|
                        call_ensures(G::estimate, (guide, to), e) && final(self).open_set@ == old(self).open_set@.insert(
                            #[trigger] queued_state(to, current.node_id, edge.way_id, tentative as i64, e),
                        )
                }
                &&& !improves ==> {
                    &&& final(self).came_from@ == old(self).came_from@
                    &&& final(self).g_score@ == old(self).g_score@
                    &&& final(self).open_set@ == old(self).open_set@
                }
            }),
    {
        let tentative = match current_g.checked_add(edge.cost) {
            Some(t) => t,
            None => {
                return;
            },
        };
        let known = match self.g_score.get(&edge.to_node) {
            Some(g) => *g,
            None => i64::MAX,
        };
        if !(tentative < known) {
            return;
        }
        if !is_turn_allowed(restrictions, current.previous_way_id, current.node_id, edge.way_id) {
            return;
        }
        let ghost gs0 = self.g_score@;
        let ghost cf0 = self.came_from@;
        let ghost ts0 = self.stamp@;
        let ghost c0 = self.clock@;
        let ghost open0 = self.open_set@;
        let ghost to = edge.to_node;
        assert(to != start@);
        assert(to != current.node_id);
        self.came_from.insert(edge.to_node, (current.node_id, edge.way_id));
        self.g_score.insert(edge.to_node, tentative);
        self.stamp = Ghost(ts0.insert(to, c0));
        self.clock = Ghost(c0 + 1);
        let estimate = G::estimate;
        let to_estimate = estimate(guide, edge.to_node);
        let next = NodeWithPrevious {
            node_id: edge.to_node,
            previous_node_id: Some(current.node_id),
            previous_way_id: Some(edge.way_id),
            cost: tentative,
            estimated_total_cost: add_clamped(tentative, to_estimate),
        };
        self.open_set.push(next);
        proof {
            assert(next == queued_state(edge.to_node, current.node_id, edge.way_id, tentative, to_estimate));
            assert(next == step_state(edge.to_node, current.node_id, edge.way_id, tentative, next.estimated_total_cost));
            let gs = self.g_score@;
            let cf = self.came_from@;
            let ts = self.stamp@;
            assert forall|u: i64| #[trigger] gs.contains_key(u) implies gs[u] >= 0 && ts.contains_key(u) && ts[u]
                < self.clock@ by {
                if u != to {
                    assert(gs0.contains_key(u));
                }
            }
            assert forall|u: i64| #[trigger] cf.contains_key(u) implies link_ok(adj, start@, gs, cf, ts, u) by {
                if u == to {
                    assert(cf[u] == (current.node_id, edge.way_id));
                } else {
                    assert(cf0.contains_key(u));
                    assert(link_ok(adj, start@, gs0, cf0, ts0, u));
                    let v = cf0[u].0;
                    if v == to {
                        assert(gs0.contains_key(to));
                    }
                }
            }
            assert forall|e: NodeWithPrevious| #[trigger] self.open_set@.count(e) > 0 implies e.node_id == start@
                || cf.contains_key(e.node_id) by {
                if e != next {
                    assert(open0.count(e) > 0);
                }
            }
            assert(arrival_step(adj, restrictions@, end@, arrival(*current), arrival(next)));
            lemma_arrive_step(adj, restrictions@, start@, end@, arrival(*current), arrival(next));
            assert forall|e: NodeWithPrevious| #[trigger] self.open_set@.count(e) > 0 implies entry_ok(adj, start@, e)
                && can_arrive(adj, restrictions@, start@, end@, arrival(e)) by {
                if e != next {
                    assert(open0.count(e) > 0);
                }
            }
            assert forall|u: i64| #[trigger] cf.contains_key(u) implies cf[u].0 == start@ || turn_into(
                adj,
                restrictions@,
                start@,
                end@,
                cf[u].0,
                cf[u].1,
            ) by {
                if u == to {
                    assert(can_arrive(adj, restrictions@, start@, end@, arrival(*current)));
                } else {
                    assert(cf0.contains_key(u));
                }
            }
        }
    }
}

/// `a + b`, held to the range of `i64`.
fn add_clamped(a: i64, b: i64) -> (r: i64)
    ensures
        r == clamped(a + b),
{
    match a.checked_add(b) {
        Some(s) => s,
        None => if b > 0 {
            i64::MAX
        } else {
            i64::MIN
        },
    }
}

/// The candidates ordered best first: scores falling, and on equal scores
/// positions rising.
pub open spec fn best_ordered(r: Seq<(usize, i64)>) -> bool {
    forall|a: int, b: int| 0 <= a < b < r.len() ==> r[a].1 > r[b].1 || (r[a].1 == r[b].1 && r[a].0 < r[b].0)
}

/// Puts `c` into `r` after every entry that scores at least as well; `c`
/// comes after every entry of `r` in position.
fn insert_ranked(r: &mut Vec<(usize, i64)>, c: (usize, i64)) -> (p: Ghost<int>)
    requires
        best_ordered(old(r)@),
        forall|j: int| 0 <= j < old(r)@.len() ==> #[trigger] old(r)@[j].0 < c.0,
    ensures
        0 <= p@ <= old(r)@.len(),
        final(r)@ == old(r)@.insert(p@, c),
        best_ordered(final(r)@),
{
    let mut p: usize = 0;
    while p < r.len() && r[p].1 >= c.1
        invariant
            p <= r@.len(),
            forall|j: int| 0 <= j < p ==> r@[j].1 >= c.1,
        decreases r@.len() - p,
    {
        p = p + 1;
    }
    let ghost r0 = r@;
    proof {
        assert forall|j: int| p <= j < r0.len() implies r0[j].1 < c.1 by {
            if j > p {
                assert(r0[p as int].1 < c.1);
            }
        }
    }
    r.insert(p, c);
    proof {
        let r1 = r@;
        assert(r1 == r0.insert(p as int, c));
        assert forall|a: int, b: int| 0 <= a < b < r1.len() implies r1[a].1 > r1[b].1 || (r1[a].1 == r1[b].1
            && r1[a].0 < r1[b].0) by {
            if b < p {
            } else if b == p {
                assert(r1[a] == r0[a]);
                assert(r0[a].0 < c.0);
            } else if a < p {
                assert(r1[b] == r0[b - 1]);
            } else if a == p {
                assert(r1[b] == r0[b - 1]);
            } else {
                assert(r1[a] == r0[a - 1]);
                assert(r1[b] == r0[b - 1]);
            }
        }
    }
    Ghost(p as int)
}

/// The good candidates, best score first, ties in their order: `cands`
/// holds edge positions in increasing order, each with a score.
fn best_first(cands: &Vec<(usize, i64)>) -> (r: Vec<(usize, i64)>)
    requires
        forall|a: int, b: int| 0 <= a < b < cands@.len() ==> cands@[a].0 < cands@[b].0,
    ensures
        forall|j: int| 0 <= j < r@.len() ==> r@[j].1 > 0 && cands@.contains(#[trigger] r@[j]),
        forall|i: int| 0 <= i < cands@.len() && cands@[i].1 > 0 ==> r@.contains(#[trigger] cands@[i]),
        best_ordered(r@),
{
    let mut r: Vec<(usize, i64)> = Vec::new();
    let mut i: usize = 0;
    while i < cands.len()
        invariant
            i <= cands@.len(),
            forall|a: int, b: int| 0 <= a < b < cands@.len() ==> cands@[a].0 < cands@[b].0,
            forall|j: int|
                0 <= j < r@.len() ==> r@[j].1 > 0 && exists|k: int| 0 <= k < i && cands@[k] == #[trigger] r@[j],
            forall|k: int| 0 <= k < i && cands@[k].1 > 0 ==> r@.contains(#[trigger] cands@[k]),
            best_ordered(r@),
        decreases cands@.len() - i,
    {
        let c = cands[i];
        if c.1 > 0 {
            let ghost r0 = r@;
            proof {
                assert forall|j: int| 0 <= j < r0.len() implies #[trigger] r0[j].0 < c.0 by {
                    let k = choose|k: int| 0 <= k < i && cands@[k] == #[trigger] r0[j];
                }
            }
            let Ghost(p) = insert_ranked(&mut r, c);
            proof {
                assert forall|j: int| 0 <= j < r@.len() implies r@[j].1 > 0 && exists|k: int|
                    0 <= k < i + 1 && cands@[k] == #[trigger] r@[j] by {
                    if j < p {
                        assert(r@[j] == r0[j]);
                    } else if j == p {
                        assert(cands@[i as int] == r@[j]);
                    } else {
                        assert(r@[j] == r0[j - 1]);
                    }
                }
                assert forall|k: int| 0 <= k < i + 1 && cands@[k].1 > 0 implies r@.contains(#[trigger] cands@[k]) by {
                    if k == i {
                        assert(r@[p] == c);
                    } else {
                        assert(r0.contains(cands@[k]));
                        let j = choose|j: int| 0 <= j < r0.len() && r0[j] == cands@[k];
                        if j < p {
                            assert(r@[j] == r0[j]);
                        } else {
                            assert(r@[j + 1] == r0[j]);
                        }
                    }
                }
            }
        }
        i = i + 1;
    }
    proof {
        assert forall|j: int| 0 <= j < r@.len() implies r@[j].1 > 0 && cands@.contains(#[trigger] r@[j]) by {
            let k = choose|k: int| 0 <= k < i && cands@[k] == #[trigger] r@[j];
        }
    }
    r
}

/// `start` has at least one edge, and each of its edges leads to `end` at a
/// cost below the largest.
pub open spec fn only_steps_to(adj: Map<i64, Vec<RouteEdge>>, start: i64, end: i64) -> bool {
    &&& adj.contains_key(start)
    &&& adj[start]@.len() > 0
    &&& forall|k: int| 0 <= k < adj[start]@.len() ==> (#[trigger] adj[start]@[k]).to_node == end && adj[start]@[k].cost
        < i64::MAX
}

/// `start` reaches `end` through one node without a position and nothing
/// else: every edge out of `start` leads to that node, every edge out of it
/// leads to `end`, each turn there onto one of its edges is allowed whatever
/// way it was reached by, and every such edge costs less than 2^62.
pub open spec fn through_unplaced(
    adj: Map<i64, Vec<RouteEdge>>,
    rs: Seq<TurnRestrictionData>,
    pos: Map<i64, (u64, u64)>,
    start: i64,
    end: i64,
) -> bool {
    adj.contains_key(start) && adj[start]@.len() > 0 && {
        let v = adj[start]@[0].to_node;
        &&& v != start
        &&& v != end
        &&& start != end
        &&& !pos.contains_key(v)
        &&& adj.contains_key(v)
        &&& adj[v]@.len() > 0
        &&& forall|k: int| 0 <= k < adj[start]@.len() ==> (#[trigger] adj[start]@[k]).to_node == v && adj[start]@[k].cost
            < 0x4000_0000_0000_0000
        &&& forall|k: int| 0 <= k < adj[v]@.len() ==> (#[trigger] adj[v]@[k]).to_node == end && adj[v]@[k].cost
            < 0x4000_0000_0000_0000
        &&& forall|w: i64, k: int| 0 <= k < adj[v]@.len() ==> #[trigger] turn_allowed(rs, Some(w), v, adj[v]@[k].way_id)
    }
}

/// A* from `start_node_id` to `end_node_id` over the routing graph, led and
/// pruned by `guide`: on the first step towards the starting direction where
/// one is given, and then towards the end; at most `max_iterations` states
/// are taken from the open set.
///
/// A node's best cost and predecessor are kept per node, while states are
/// expanded per node and arrival; so a route is returned as its
/// predecessors last stood, and a dearer arrival at a node already reached
/// more cheaply is not followed up, even where only it could turn onwards.
///
/// With negative costs, predecessors could form a cycle, so costs are not
/// negative here. A step whose cost would pass `i64::MAX` is not taken.
pub fn find_route_astar<G: SearchGuide>(
    graph: &RouteGraph,
    start_node_id: i64,
    end_node_id: i64,
    max_iterations: u64,
    guide: &mut G,
) -> (r: Result<Option<RouteResult>, GraphError>)
    requires
        costs_nonnegative(graph.adjacency_list@),
    ensures
        !graph.adjacency_list@.contains_key(start_node_id) || !graph.adjacency_list@.contains_key(end_node_id)
            ==> r matches Ok(None),
        graph.adjacency_list@.contains_key(start_node_id) && graph.adjacency_list@.contains_key(end_node_id) ==> {
            let pos = graph.positions@;
            &&& !pos.contains_key(start_node_id) ==> (r matches Err(GraphError::InvalidOsmData(m)) && m@
                == numbered_message("Start node "@, start_node_id, " not found"@))
            &&& pos.contains_key(start_node_id) && !pos.contains_key(end_node_id) ==> (r matches Err(
                GraphError::InvalidOsmData(m),
            ) && m@ == numbered_message("End node "@, end_node_id, " not found"@))
            &&& pos.contains_key(start_node_id) && pos.contains_key(end_node_id) ==> r is Ok
            &&& pos.contains_key(start_node_id) && start_node_id == end_node_id && max_iterations >= 1 ==> (r matches Ok(
                Some(route),
            ) && route.nodes@ == seq![start_node_id] && route.ways@.len() == 0)
            &&& pos.contains_key(start_node_id) && pos.contains_key(end_node_id) && start_node_id != end_node_id
                && max_iterations >= 2 && only_steps_to(graph.adjacency_list@, start_node_id, end_node_id) ==> (r matches Ok(
                Some(_),
            ))
            &&& pos.contains_key(start_node_id) && pos.contains_key(end_node_id) && through_unplaced(
                graph.adjacency_list@,
                graph.turn_restrictions@,
                pos,
                start_node_id,
                end_node_id,
            ) && max_iterations >= graph.adjacency_list@[start_node_id]@.len() + 2 ==> (r matches Ok(Some(_)))
        },
        r matches Ok(Some(route)) ==> routes_along(
            graph.adjacency_list@,
            graph.turn_restrictions@,
            start_node_id,
            end_node_id,
            route,
        ),
{
    let ghost adj = graph.adjacency_list@;
    let ghost rs = graph.turn_restrictions@;
    if !graph.adjacency_list.contains_key(&start_node_id) || !graph.adjacency_list.contains_key(&end_node_id) {
        return Ok(None);
    }
    if !graph.positions.contains_key(&start_node_id) {
        return Err(GraphError::InvalidOsmData(numbered("Start node ", start_node_id, " not found")));
    }
    if !graph.positions.contains_key(&end_node_id) {
        return Err(GraphError::InvalidOsmData(numbered("End node ", end_node_id, " not found")));
    }
    let first_estimate = guide.estimate(start_node_id);
    let mut search = Search::begin(Ghost(adj), Ghost(rs), Ghost(end_node_id), start_node_id, first_estimate);
    let ghost first = NodeWithPrevious {
        node_id: start_node_id,
        previous_node_id: None,
        previous_way_id: None,
        cost: 0,
        estimated_total_cost: first_estimate,
    };
    let mut first_segment = true;
    let mut expanded_any = false;
    let mut iterations: u64 = 0;
    let ghost ts = through_unplaced(adj, rs, graph.positions@, start_node_id, end_node_id);
    let ghost kk: int = adj[start_node_id]@.len() as int;
    let ghost v: i64 = if kk > 0 {
        adj[start_node_id]@[0].to_node
    } else {
        0
    };
    let ghost mut vset: Multiset<NodeWithPrevious> = Multiset::empty();
    let ghost mut eset: Multiset<NodeWithPrevious> = Multiset::empty();
    loop
        invariant
            ts == through_unplaced(adj, rs, graph.positions@, start_node_id, end_node_id),
            kk == adj[start_node_id]@.len(),
            kk > 0 ==> v == adj[start_node_id]@[0].to_node,
            iterations >= 1 ==> !first_segment && expanded_any,
            ts ==> iterations <= kk + 1,
            ts && iterations >= 1 ==> {
                &&& search.open_set@ == vset.add(eset)
                &&& forall|st: NodeWithPrevious| #[trigger] vset.count(st) > 0 ==> st.node_id == v && st.previous_way_id is Some
                &&& forall|st: NodeWithPrevious| #[trigger] eset.count(st) > 0 ==> st.node_id == end_node_id
                &&& vset.len() + iterations <= kk + 1
                &&& iterations == 1 ==> vset.len() >= 1 && !search.g_score@.contains_key(end_node_id)
                    && !search.visited@.contains_key(v)
                &&& iterations >= 2 ==> eset.len() >= 1
                &&& search.g_score@.contains_key(v) && search.g_score@[v] < 0x4000_0000_0000_0000
            },
            adj == graph.adjacency_list@,
            rs == graph.turn_restrictions@,
            adj.contains_key(start_node_id),
            adj.contains_key(end_node_id),
            graph.positions@.contains_key(start_node_id),
            graph.positions@.contains_key(end_node_id),
            costs_nonnegative(adj),
            search.inv(adj, start_node_id),
            search.turns_ok(adj, rs, start_node_id, end_node_id),
            iterations <= max_iterations,
            start_node_id == end_node_id ==> iterations == 0,
            first.node_id == start_node_id && first.previous_node_id is None && first.previous_way_id is None,
            !search.visited@.contains_key(end_node_id),
            only_steps_to(adj, start_node_id, end_node_id) && start_node_id != end_node_id ==> iterations <= 1,
            iterations == 1 && only_steps_to(adj, start_node_id, end_node_id) ==> search.open_set@.len() > 0 && (
            forall|st: NodeWithPrevious| #[trigger] search.open_set@.count(st) > 0 ==> st.node_id == end_node_id),
            iterations == 0 ==> {
                &&& search.open_set@ == Multiset::<NodeWithPrevious>::empty().insert(first)
                &&& search.g_score@ == Map::<i64, i64>::empty().insert(start_node_id, 0)
                &&& search.came_from@ == Map::<i64, (i64, i64)>::empty()
                &&& search.visited@ == Map::<i64, Vec<(Option<i64>, Option<i64>)>>::empty()
                &&& vset == Multiset::<NodeWithPrevious>::empty()
                &&& eset == Multiset::<NodeWithPrevious>::empty()
                &&& !expanded_any
            },
        decreases max_iterations - iterations,
    {
        let ghost open0 = search.open_set@;
        let current = match search.open_set.pop() {
            None => {
                return Ok(None);
            },
            Some(c) => c,
        };
        proof {
            if iterations == 0 {
                assert(open0.count(current) > 0);
                assert(current == first);
            }
            assert(entry_ok(adj, start_node_id, current) && can_arrive(adj, rs, start_node_id, end_node_id, arrival(current))) by {
                assert(open0.count(current) > 0);
            }
            assert forall|e: NodeWithPrevious| #[trigger] search.open_set@.count(e) > 0 implies entry_ok(adj, start_node_id, e)
                && can_arrive(adj, rs, start_node_id, end_node_id, arrival(e)) by {
                assert(open0.count(e) > 0);
            }
            if ts && iterations >= 1 && current.node_id != end_node_id {
                assert(open0.count(current) > 0);
                if eset.count(current) > 0 {
                    assert(current.node_id == end_node_id);
                }
                assert(vset.count(current) > 0);
                assert(search.open_set@ =~= vset.remove(current).add(eset));
                let vr = vset.remove(current);
                assert(vr.insert(current) =~= vset);
                vstd::multiset::lemma_insert_len(vr, current);
                vset = vr;
            }
        }
        if iterations >= max_iterations {
            return Ok(None);
        }
        let ghost first_round = iterations == 0;
        iterations = iterations + 1;
        let current_node_id = current.node_id;
        assert(current_node_id == start_node_id || search.came_from@.contains_key(current_node_id));
        assert(search.g_score@.contains_key(current_node_id)) by {
            if current_node_id != start_node_id {
                assert(link_ok(
                    adj,
                    start_node_id,
                    search.g_score@,
                    search.came_from@,
                    search.stamp@,
                    current_node_id,
                ));
            }
        }
        let current_g_score = match search.g_score.get(&current_node_id) {
            Some(g) => *g,
            None => i64::MAX,
        };
        assert(first_round ==> current == first && current_g_score == 0);
        let prev = (current.previous_node_id, current.previous_way_id);
        if search.was_visited(current_node_id, prev) {
            continue;
        }
        if current_node_id == end_node_id {
            proof {
                lemma_chain_route(
                    adj,
                    start_node_id,
                    search.g_score@,
                    search.came_from@,
                    search.stamp@,
                    search.clock@,
                    search.open_set@,
                    end_node_id,
                    rs,
                );
            }
            let (nodes, ways) = reconstruct_path_with_ways(&search.came_from, end_node_id);
            let route = RouteResult { nodes, ways };
            assert(is_way_route(
                adj,
                start_node_id,
                end_node_id,
                route.nodes@,
                chain_ways(search.came_from@, end_node_id),
                route.ways@,
            ) && turns_along(adj, rs, start_node_id, end_node_id, route.nodes@, chain_ways(search.came_from@, end_node_id)));
            proof {
                if first_round {
                    assert(!search.came_from@.contains_key(end_node_id));
                }
            }
            return Ok(Some(route));
        }
        if expanded_any && graph.positions.contains_key(&current_node_id) && guide.rejects(current_node_id) {
            continue;
        }
        search.mark_visited(current_node_id, prev);
        guide.expand(current_node_id);
        expanded_any = true;
        let using_initial_bearing = first_segment && guide.has_bearing();
        assert(using_initial_bearing ==> first_round);
        first_segment = false;
        let edges = match graph.adjacency_list.get(&current_node_id) {
            None => {
                continue;
            },
            Some(e) => e,
        };
        assert(out_edges(adj, current_node_id) == edges@);
        if using_initial_bearing {
            let mut cands: Vec<(usize, i64)> = Vec::new();
            let mut i: usize = 0;
            while i < edges.len()
                invariant
                    i <= edges@.len(),
                    forall|a: int| 0 <= a < cands@.len() ==> #[trigger] cands@[a].0 < i,
                    forall|a: int, b: int| 0 <= a < b < cands@.len() ==> cands@[a].0 < cands@[b].0,
                    ts == through_unplaced(adj, graph.turn_restrictions@, graph.positions@, start_node_id, end_node_id),
                    kk > 0 ==> v == adj[start_node_id]@[0].to_node,
                    ts && first_round ==> cands@.len() == 0 && current_node_id == start_node_id && edges@ == adj[start_node_id]@,
                decreases edges@.len() - i,
            {
                let to = edges[i].to_node;
                if graph.positions.contains_key(&to) {
                    let pruned = guide.prunes(current_node_id, to);
                    if !pruned || to == end_node_id {
                        let score = guide.bearing_score(current_node_id, to);
                        cands.push((i, score));
                    }
                }
                i = i + 1;
            }
            let good = best_first(&cands);
            proof {
                if ts && first_round && good@.len() > 0 {
                    assert(cands@.contains(good@[0]));
                }
            }
            if good.len() > 0 {
                let n = if good.len() > 3 {
                    3
                } else {
                    good.len()
                };
                let mut j: usize = 0;
                while j < n
                    invariant
                        first_round,
                        n <= good@.len(),
                        forall|a: int| 0 <= a < good@.len() ==> cands@.contains(#[trigger] good@[a]),
                        forall|a: int| 0 <= a < cands@.len() ==> #[trigger] cands@[a].0 < edges@.len(),
                        adj == graph.adjacency_list@,
                        costs_nonnegative(adj),
                        out_edges(adj, current_node_id) == edges@,
                        adj.contains_key(current_node_id),
                        adj[current_node_id] == edges,
                        search.inv(adj, start_node_id),
                        search.turns_ok(adj, graph.turn_restrictions@, start_node_id, end_node_id),
                        entry_ok(adj, start_node_id, current),
                        can_arrive(adj, graph.turn_restrictions@, start_node_id, end_node_id, arrival(current)),
                        current_node_id != end_node_id,
                        current_node_id == current.node_id,
                        current_node_id == start_node_id || search.came_from@.contains_key(current_node_id),
                        search.g_score@.contains_key(current_node_id),
                        search.g_score@[current_node_id] == current_g_score,
                        !search.visited@.contains_key(end_node_id),
                        first_round ==> current.previous_way_id is None && current.previous_node_id is None && current_g_score == 0
                            && current_node_id == start_node_id,
                        first_round && only_steps_to(adj, start_node_id, end_node_id) ==> {
                            &&& forall|st: NodeWithPrevious| #[trigger] search.open_set@.count(st) > 0 ==> st.node_id == end_node_id
                            &&& search.open_set@.len() > 0 || !search.g_score@.contains_key(end_node_id)
                            &&& j > 0 ==> search.open_set@.len() > 0
                        },
                    ts == through_unplaced(adj, graph.turn_restrictions@, graph.positions@, start_node_id, end_node_id),
                    kk == adj[start_node_id]@.len(),
                    kk > 0 ==> v == adj[start_node_id]@[0].to_node,
                    ts && first_round ==> {
                        &&& current_node_id == start_node_id
                        &&& current.previous_way_id is None
                        &&& search.open_set@ == vset
                        &&& eset == Multiset::<NodeWithPrevious>::empty()
                        &&& forall|st: NodeWithPrevious| #[trigger] vset.count(st) > 0 ==> st.node_id == v && st.previous_way_id is Some
                        &&& vset.len() <= j
                        &&& j > 0 ==> vset.len() >= 1
                        &&& search.g_score@.contains_key(v) == (vset.len() >= 1)
                        &&& search.g_score@.contains_key(v) ==> search.g_score@[v] < 0x4000_0000_0000_0000
                        &&& !search.g_score@.contains_key(end_node_id)
                        &&& !search.visited@.contains_key(v)
                        &&& edges@.len() == kk
                        &&& iterations == 1
                    },
                    ts && !first_round ==> {
                        &&& current_node_id == v
                        &&& current.previous_way_id is Some
                        &&& current_g_score < 0x4000_0000_0000_0000
                        &&& search.open_set@ == vset.add(eset)
                        &&& forall|st: NodeWithPrevious| #[trigger] vset.count(st) > 0 ==> st.node_id == v && st.previous_way_id is Some
                        &&& forall|st: NodeWithPrevious| #[trigger] eset.count(st) > 0 ==> st.node_id == end_node_id
                        &&& search.g_score@.contains_key(v) && search.g_score@[v] < 0x4000_0000_0000_0000
                        &&& j > 0 ==> eset.len() >= 1
                        &&& eset.len() >= 1 || !search.g_score@.contains_key(end_node_id)
                        &&& vset.len() + iterations <= kk + 1
                    },
                    decreases n - j,
                {
                    let k = good[j].0;
                    assert(cands@.contains(good@[j as int]));
                    assert(k < edges@.len());
                    let edge = &edges[k];
                    assert(adj[current_node_id]@[k as int] == *edge);
                    assert(has_edge(adj, current_node_id, edge.to_node, edge.way_id)) by {
                        assert(out_edges(adj, current_node_id)[k as int] == *edge);
                    }
                    let ghost o_before = search.open_set@;
                    let ghost g_before = search.g_score@;
                    proof {
                        if ts {
                            if first_round {
                                assert(edge.to_node == v);
                            } else {
                                assert(edge.to_node == end_node_id);
                                assert(turn_allowed(graph.turn_restrictions@, current.previous_way_id, current_node_id, edge.way_id));
                            }
                        }
                    }
                    search.relax(
                        Ghost(adj),
                        Ghost(start_node_id),
                        Ghost(end_node_id),
                        &graph.turn_restrictions,
                        &current,
                        current_g_score,
                        edge,
                        guide,
                    );
                    proof {
                        if ts && !first_round && !g_before.contains_key(end_node_id) {
                            assert(search.open_set@.len() == o_before.len() + 1);
                        }
                        if ts && search.open_set@ != o_before {
                            let tentative = (current_g_score + edge.cost) as i64;
                            let e = choose|e: i64| call_ensures(G::estimate, (guide, edge.to_node), e) && search.open_set@ == o_before.insert(queued_state(edge.to_node, current.node_id, edge.way_id, tentative, e));
                            let est = clamped(tentative + e) as i64;
                            let st = step_state(edge.to_node, current.node_id, edge.way_id, tentative, est);
                            if first_round {
                                assert(search.open_set@ =~= vset.insert(st));
                                vset = vset.insert(st);
                            } else {
                                assert(search.open_set@ =~= vset.add(eset.insert(st)));
                                eset = eset.insert(st);
                            }
                        }
                    }
                    j = j + 1;
                }
            } else {
                let mut k: usize = 0;
                while k < edges.len()
                    invariant
                        first_round,
                        k <= edges@.len(),
                        adj == graph.adjacency_list@,
                        costs_nonnegative(adj),
                        out_edges(adj, current_node_id) == edges@,
                        adj.contains_key(current_node_id),
                        adj[current_node_id] == edges,
                        search.inv(adj, start_node_id),
                        search.turns_ok(adj, graph.turn_restrictions@, start_node_id, end_node_id),
                        entry_ok(adj, start_node_id, current),
                        can_arrive(adj, graph.turn_restrictions@, start_node_id, end_node_id, arrival(current)),
                        current_node_id != end_node_id,
                        current_node_id == current.node_id,
                        current_node_id == start_node_id || search.came_from@.contains_key(current_node_id),
                        search.g_score@.contains_key(current_node_id),
                        search.g_score@[current_node_id] == current_g_score,
                        !search.visited@.contains_key(end_node_id),
                        first_round ==> current.previous_way_id is None && current.previous_node_id is None && current_g_score == 0
                            && current_node_id == start_node_id,
                        first_round && only_steps_to(adj, start_node_id, end_node_id) ==> {
                            &&& forall|st: NodeWithPrevious| #[trigger] search.open_set@.count(st) > 0 ==> st.node_id == end_node_id
                            &&& search.open_set@.len() > 0 || !search.g_score@.contains_key(end_node_id)
                            &&& k > 0 ==> search.open_set@.len() > 0
                        },
                    ts == through_unplaced(adj, graph.turn_restrictions@, graph.positions@, start_node_id, end_node_id),
                    kk == adj[start_node_id]@.len(),
                    kk > 0 ==> v == adj[start_node_id]@[0].to_node,
                    ts && first_round ==> {
                        &&& current_node_id == start_node_id
                        &&& current.previous_way_id is None
                        &&& search.open_set@ == vset
                        &&& eset == Multiset::<NodeWithPrevious>::empty()
                        &&& forall|st: NodeWithPrevious| #[trigger] vset.count(st) > 0 ==> st.node_id == v && st.previous_way_id is Some
                        &&& vset.len() <= k
                        &&& k > 0 ==> vset.len() >= 1
                        &&& search.g_score@.contains_key(v) == (vset.len() >= 1)
                        &&& search.g_score@.contains_key(v) ==> search.g_score@[v] < 0x4000_0000_0000_0000
                        &&& !search.g_score@.contains_key(end_node_id)
                        &&& !search.visited@.contains_key(v)
                        &&& edges@.len() == kk
                        &&& iterations == 1
                    },
                    ts && !first_round ==> {
                        &&& current_node_id == v
                        &&& current.previous_way_id is Some
                        &&& current_g_score < 0x4000_0000_0000_0000
                        &&& search.open_set@ == vset.add(eset)
                        &&& forall|st: NodeWithPrevious| #[trigger] vset.count(st) > 0 ==> st.node_id == v && st.previous_way_id is Some
                        &&& forall|st: NodeWithPrevious| #[trigger] eset.count(st) > 0 ==> st.node_id == end_node_id
                        &&& search.g_score@.contains_key(v) && search.g_score@[v] < 0x4000_0000_0000_0000
                        &&& k > 0 ==> eset.len() >= 1
                        &&& eset.len() >= 1 || !search.g_score@.contains_key(end_node_id)
                        &&& vset.len() + iterations <= kk + 1
                    },
                    decreases edges@.len() - k,
                {
                    let edge = &edges[k];
                    let turns_back = match current.previous_node_id {
                        Some(p) => p == edge.to_node,
                        None => false,
                    };
                    if !turns_back {
                        assert(adj[current_node_id]@[k as int] == *edge);
                        assert(has_edge(adj, current_node_id, edge.to_node, edge.way_id)) by {
                            assert(out_edges(adj, current_node_id)[k as int] == *edge);
                        }
                        let ghost o_before = search.open_set@;
                        let ghost g_before = search.g_score@;
                        proof {
                            if ts {
                                if first_round {
                                    assert(edge.to_node == v);
                                } else {
                                    assert(edge.to_node == end_node_id);
                                    assert(turn_allowed(graph.turn_restrictions@, current.previous_way_id, current_node_id, edge.way_id));
                                }
                            }
                        }
                        search.relax(
                            Ghost(adj),
                            Ghost(start_node_id),
                            Ghost(end_node_id),
                            &graph.turn_restrictions,
                            &current,
                            current_g_score,
                            edge,
                            guide,
                        );
                        proof {
                            if ts && !first_round && !g_before.contains_key(end_node_id) {
                                assert(search.open_set@.len() == o_before.len() + 1);
                            }
                            if ts && search.open_set@ != o_before {
                                let tentative = (current_g_score + edge.cost) as i64;
                                let e = choose|e: i64| call_ensures(G::estimate, (guide, edge.to_node), e) && search.open_set@ == o_before.insert(queued_state(edge.to_node, current.node_id, edge.way_id, tentative, e));
                            let est = clamped(tentative + e) as i64;
                                let st = step_state(edge.to_node, current.node_id, edge.way_id, tentative, est);
                                if first_round {
                                    assert(search.open_set@ =~= vset.insert(st));
                                    vset = vset.insert(st);
                                } else {
                                    assert(search.open_set@ =~= vset.add(eset.insert(st)));
                                    eset = eset.insert(st);
                                }
                            }
                        }
                    }
                    k = k + 1;
                }
            }
        } else {
            let mut k: usize = 0;
            while k < edges.len()
                invariant
                    k <= edges@.len(),
                    adj == graph.adjacency_list@,
                    costs_nonnegative(adj),
                    out_edges(adj, current_node_id) == edges@,
                    adj.contains_key(current_node_id),
                    adj[current_node_id] == edges,
                    search.inv(adj, start_node_id),
                    search.turns_ok(adj, graph.turn_restrictions@, start_node_id, end_node_id),
                    entry_ok(adj, start_node_id, current),
                    can_arrive(adj, graph.turn_restrictions@, start_node_id, end_node_id, arrival(current)),
                    current_node_id != end_node_id,
                    current_node_id == current.node_id,
                    current_node_id == start_node_id || search.came_from@.contains_key(current_node_id),
                    search.g_score@.contains_key(current_node_id),
                    search.g_score@[current_node_id] == current_g_score,
                    !search.visited@.contains_key(end_node_id),
                    first_round ==> current.previous_way_id is None && current.previous_node_id is None && current_g_score == 0
                        && current_node_id == start_node_id,
                    first_round && only_steps_to(adj, start_node_id, end_node_id) ==> {
                        &&& forall|st: NodeWithPrevious| #[trigger] search.open_set@.count(st) > 0 ==> st.node_id == end_node_id
                        &&& search.open_set@.len() > 0 || !search.g_score@.contains_key(end_node_id)
                        &&& k > 0 ==> search.open_set@.len() > 0
                    },
                ts == through_unplaced(adj, graph.turn_restrictions@, graph.positions@, start_node_id, end_node_id),
                kk == adj[start_node_id]@.len(),
                kk > 0 ==> v == adj[start_node_id]@[0].to_node,
                ts && first_round ==> {
                    &&& current_node_id == start_node_id
                    &&& current.previous_way_id is None
                    &&& search.open_set@ == vset
                    &&& eset == Multiset::<NodeWithPrevious>::empty()
                    &&& forall|st: NodeWithPrevious| #[trigger] vset.count(st) > 0 ==> st.node_id == v && st.previous_way_id is Some
                    &&& vset.len() <= k
                    &&& k > 0 ==> vset.len() >= 1
                    &&& search.g_score@.contains_key(v) == (vset.len() >= 1)
                    &&& search.g_score@.contains_key(v) ==> search.g_score@[v] < 0x4000_0000_0000_0000
                    &&& !search.g_score@.contains_key(end_node_id)
                    &&& !search.visited@.contains_key(v)
                    &&& edges@.len() == kk
                    &&& iterations == 1
                },
                ts && !first_round ==> {
                    &&& current_node_id == v
                    &&& current.previous_way_id is Some
                    &&& current_g_score < 0x4000_0000_0000_0000
                    &&& search.open_set@ == vset.add(eset)
                    &&& forall|st: NodeWithPrevious| #[trigger] vset.count(st) > 0 ==> st.node_id == v && st.previous_way_id is Some
                    &&& forall|st: NodeWithPrevious| #[trigger] eset.count(st) > 0 ==> st.node_id == end_node_id
                    &&& search.g_score@.contains_key(v) && search.g_score@[v] < 0x4000_0000_0000_0000
                    &&& k > 0 ==> eset.len() >= 1
                    &&& eset.len() >= 1 || !search.g_score@.contains_key(end_node_id)
                    &&& vset.len() + iterations <= kk + 1
                },
                decreases edges@.len() - k,
            {
                let edge = &edges[k];
                let skip = graph.positions.contains_key(&edge.to_node) && guide.prunes(current_node_id, edge.to_node)
                    && edge.to_node != end_node_id;
                if !skip {
                    assert(adj[current_node_id]@[k as int] == *edge);
                    assert(has_edge(adj, current_node_id, edge.to_node, edge.way_id)) by {
                        assert(out_edges(adj, current_node_id)[k as int] == *edge);
                    }
                    let ghost o_before = search.open_set@;
                    let ghost g_before = search.g_score@;
                    proof {
                        if ts {
                            if first_round {
                                assert(edge.to_node == v);
                            } else {
                                assert(edge.to_node == end_node_id);
                                assert(turn_allowed(graph.turn_restrictions@, current.previous_way_id, current_node_id, edge.way_id));
                            }
                        }
                    }
                    search.relax(
                        Ghost(adj),
                        Ghost(start_node_id),
                        Ghost(end_node_id),
                        &graph.turn_restrictions,
                        &current,
                        current_g_score,
                        edge,
                        guide,
                    );
                    proof {
                        if ts && !first_round && !g_before.contains_key(end_node_id) {
                            assert(search.open_set@.len() == o_before.len() + 1);
                        }
                        if ts && search.open_set@ != o_before {
                            let tentative = (current_g_score + edge.cost) as i64;
                            let e = choose|e: i64| call_ensures(G::estimate, (guide, edge.to_node), e) && search.open_set@ == o_before.insert(queued_state(edge.to_node, current.node_id, edge.way_id, tentative, e));
                            let est = clamped(tentative + e) as i64;
                            let st = step_state(edge.to_node, current.node_id, edge.way_id, tentative, est);
                            if first_round {
                                assert(search.open_set@ =~= vset.insert(st));
                                vset = vset.insert(st);
                            } else {
                                assert(search.open_set@ =~= vset.add(eset.insert(st)));
                                eset = eset.insert(st);
                            }
                        }
                    }
                }
                k = k + 1;
            }
        }
    }
}

} // verus!
