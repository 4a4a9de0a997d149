use vstd::prelude::*;
use std::collections::HashMap;
use crate::osm::{OsmGraph, Profile};
use crate::text::str_eq;
use crate::turns::{collect_turn_restrictions, TurnRestrictionData};
use crate::types::{get_tag, tag_value, Node, Way};

verus! {

broadcast use vstd::std_specs::hash::group_hash_axioms;

/// An edge of the routing graph: its target node, the way it runs along and
/// its cost.
#[derive(Clone, Copy, Debug, PartialEq, Eq)]
pub struct RouteEdge {
    pub to_node: i64,
    pub way_id: i64,
    pub cost: i64,
}

/// The routing graph of a map graph: each node's outgoing edges, in the
/// order the ways were read, the turn restrictions, and the position of each
/// node (latitude and longitude as the bits of 64-bit floats).
pub struct RouteGraph {
    pub adjacency_list: HashMap<i64, Vec<RouteEdge>>,
    pub turn_restrictions: Vec<TurnRestrictionData>,
    pub positions: HashMap<i64, (u64, u64)>,
}

/// The floating-point part of routing over a map graph: what the segment
/// between two known nodes costs on a way with a base cost.
pub trait SegmentCost {
    fn segment_cost(&self, from: &Node, to: &Node, base_cost: i64) -> i64;
}

/// A way is one-way: a roundabout, or tagged `oneway=yes`.
pub open spec fn is_oneway(w: Way) -> bool {
    tag_value(w.tags@, "junction"@) == Some("roundabout"@) || tag_value(w.tags@, "oneway"@) == Some("yes"@)
}

/// The number of segments of a way.
pub open spec fn segments(w: Way) -> int {
    if w.node_refs@.len() >= 1 {
        w.node_refs@.len() - 1
    } else {
        0
    }
}

/// The edges out of node `n` that segment `i` of the way gives, as target
/// and way: forward always, backward unless the way is one-way.
pub open spec fn segment_out(w: Way, oneway: bool, i: int, n: i64) -> Seq<(i64, i64)> {
    let a = w.node_refs@[i];
    let b = w.node_refs@[i + 1];
    (if a == n { seq![(b, w.id)] } else { Seq::empty() }) + (if !oneway && b == n { seq![(a, w.id)] } else { Seq::empty() })
}

/// The edges out of `n` from the first `k` segments of a way.
pub open spec fn way_out(w: Way, oneway: bool, k: int, n: i64) -> Seq<(i64, i64)>
    decreases k,
{
    if k <= 0 {
        Seq::empty()
    } else {
        way_out(w, oneway, k - 1, n) + segment_out(w, oneway, k - 1, n)
    }
}

/// The edges out of `n` from all the ways, in order.
pub open spec fn ways_out(ws: Seq<Way>, n: i64) -> Seq<(i64, i64)>
    decreases ws.len(),
{
    if ws.len() == 0 {
        Seq::empty()
    } else {
        ways_out(ws.drop_last(), n) + way_out(ws.last(), is_oneway(ws.last()), segments(ws.last()), n)
    }
}

/// An edge list as targets and ways.
pub open spec fn edge_targets(es: Seq<RouteEdge>) -> Seq<(i64, i64)> {
    es.map_values(|e: RouteEdge| (e.to_node, e.way_id))
}

/// The ids of the nodes.
pub open spec fn node_ids(nodes: Seq<Node>) -> Set<i64> {
    Set::new(|id: i64| exists|k: int| 0 <= k < nodes.len() && #[trigger] nodes[k].id == id)
}

/// The costs of the edges out of `n` that segment `i` of the way gives, in
/// the order of `segment_out`, when the segment costs `c`.
pub open spec fn segment_costs(w: Way, oneway: bool, i: int, n: i64, c: i64) -> Seq<i64> {
    let a = w.node_refs@[i];
    let b = w.node_refs@[i + 1];
    (if a == n { seq![c] } else { Seq::empty() }) + (if !oneway && b == n { seq![c] } else { Seq::empty() })
}

/// The costs of the edges out of `n` from the first `k` segments of a way,
/// segment `i` costing `cs[i]`.
pub open spec fn way_costs(w: Way, oneway: bool, k: int, n: i64, cs: Seq<i64>) -> Seq<i64>
    decreases k,
{
    if k <= 0 {
        Seq::empty()
    } else {
        way_costs(w, oneway, k - 1, n, cs) + segment_costs(w, oneway, k - 1, n, cs[k - 1])
    }
}

/// The costs of the edges out of `n` from all the ways, in order, segment `i`
/// of way `w` costing `css[w][i]`.
pub open spec fn ways_costs(ws: Seq<Way>, n: i64, css: Seq<Seq<i64>>) -> Seq<i64>
    decreases ws.len(),
{
    if ws.len() == 0 {
        Seq::empty()
    } else {
        ways_costs(ws.drop_last(), n, css.drop_last()) + way_costs(
            ws.last(),
            is_oneway(ws.last()),
            segments(ws.last()),
            n,
            css.last(),
        )
    }
}

/// `c` is what `cost.segment_cost` gave for a node of `nodes` with id `from`,
/// a node of `nodes` with id `to` and the base cost `base`.
pub open spec fn segment_priced<C: SegmentCost>(nodes: Seq<Node>, cost: C, from: i64, to: i64, base: i64, c: i64) -> bool {
    exists|a: int, b: int|
        0 <= a < nodes.len() && 0 <= b < nodes.len() && nodes[a].id == from && nodes[b].id == to && call_ensures(
            C::segment_cost,
            (&cost, &nodes[a], &nodes[b], base),
            c,
        )
}

/// `cs` gives a cost to each segment of the way: a segment between two
/// known nodes costs what `cost` gives for them, one with an end that is not
/// a known node costs the base cost times 1000.
pub open spec fn segment_costs_ok<C: SegmentCost>(w: Way, base: i64, known: Set<i64>, nodes: Seq<Node>, cost: C, cs: Seq<i64>) -> bool {
    &&& cs.len() == segments(w)
    &&& forall|i: int| 0 <= i < cs.len() && !(known.contains(w.node_refs@[i]) && known.contains(w.node_refs@[i + 1]))
        ==> #[trigger] cs[i] == base * 1000
    &&& forall|i: int| 0 <= i < cs.len() && known.contains(w.node_refs@[i]) && known.contains(w.node_refs@[i + 1])
        ==> segment_priced(nodes, cost, w.node_refs@[i], w.node_refs@[i + 1], base, #[trigger] cs[i])
}

/// `css` gives a cost to each segment of each way, as `segment_costs_ok` says.
pub open spec fn ways_costs_ok<C: SegmentCost>(ws: Seq<Way>, p: Profile, known: Set<i64>, nodes: Seq<Node>, cost: C, css: Seq<Seq<i64>>) -> bool {
    &&& css.len() == ws.len()
    &&& forall|w: int| 0 <= w < ws.len() ==> segment_costs_ok(#[trigger] ws[w], base_cost_of(p, ws[w]), known, nodes, cost, css[w])
}

/// The segments of the ways cost `css`, each in both of its directions.
pub open spec fn costed_by<C: SegmentCost>(
    adj: Map<i64, Vec<RouteEdge>>,
    ws: Seq<Way>,
    p: Profile,
    known: Set<i64>,
    nodes: Seq<Node>,
    cost: C,
    css: Seq<Seq<i64>>,
) -> bool {
    &&& ways_costs_ok(ws, p, known, nodes, cost, css)
    &&& forall|n: i64| #[trigger] edge_costs(adj, n) == ways_costs(ws, n, css)
}

/// The costs of the edges out of `n`.
pub open spec fn edge_costs(adj: Map<i64, Vec<RouteEdge>>, n: i64) -> Seq<i64> {
    if adj.contains_key(n) {
        adj[n]@.map_values(|e: RouteEdge| e.cost)
    } else {
        Seq::empty()
    }
}

/// The base cost of a way: the profile's penalty for the way's value of the
/// profile's key, else the default.
pub open spec fn base_cost_of(p: Profile, w: Way) -> i64 {
    match tag_value(w.tags@, p.key@) {
        Some(v) => match penalty_of(p.penalties.penalties@, v) {
            Some(c) => c,
            None => p.penalties.default,
        },
        None => p.penalties.default,
    }
}

/// The penalty listed last for value `v`.
pub open spec fn penalty_of(ps: Seq<(String, i64)>, v: Seq<char>) -> Option<i64>
    decreases ps.len(),
{
    if ps.len() == 0 {
        None
    } else if ps.last().0@ == v {
        Some(ps.last().1)
    } else {
        penalty_of(ps.drop_last(), v)
    }
}

/// Every penalty of the profile can be scaled by 1000.
pub open spec fn penalties_scalable(p: Profile) -> bool {
    &&& -9_223_372_036_854_775 <= p.penalties.default <= 9_223_372_036_854_775
    &&& forall|i: int| 0 <= i < p.penalties.penalties@.len() ==> -9_223_372_036_854_775 <= (#[trigger] p.penalties.penalties@[i]).1
        <= 9_223_372_036_854_775
}

fn penalty_exec(ps: &Vec<(String, i64)>, v: &str) -> (r: Option<i64>)
    ensures
        r == penalty_of(ps@, v@),
        r matches Some(c) ==> exists|i: int| 0 <= i < ps@.len() && (#[trigger] ps@[i]).1 == c,
{
    let mut i = ps.len();
    assert(ps@.subrange(0, i as int) == ps@);
    while i > 0
        invariant
            i <= ps@.len(),
            penalty_of(ps@, v@) == penalty_of(ps@.subrange(0, i as int), v@),
        decreases i,
    {
        proof {
            assert(ps@.subrange(0, i as int).drop_last() == ps@.subrange(0, i - 1));
        }
        if str_eq(ps[i - 1].0.as_str(), v) {
            assert(ps@[i - 1].1 == ps@[i - 1].1);
            return Some(ps[i - 1].1);
        }
        i = i - 1;
    }
    None
}

/// The base cost of a way under the profile.
fn base_cost(p: &Profile, w: &Way) -> (c: i64)
    requires
        penalties_scalable(*p),
    ensures
        c == base_cost_of(*p, *w),
        -9_223_372_036_854_775 <= c <= 9_223_372_036_854_775,
{
    match get_tag(&w.tags, p.key.as_str()) {
        Some(v) => match penalty_exec(&p.penalties.penalties, v.as_str()) {
            Some(c) => c,
            None => p.penalties.default,
        },
        None => p.penalties.default,
    }
}

/// Whether a way is one-way.
fn oneway_exec(w: &Way) -> (b: bool)
    ensures
        b == is_oneway(*w),
{
    proof {
        reveal_strlit("junction");
        reveal_strlit("roundabout");
        reveal_strlit("oneway");
        reveal_strlit("yes");
    }
    let round = match get_tag(&w.tags, "junction") {
        Some(v) => str_eq(v.as_str(), "roundabout"),
        None => false,
    };
    if round {
        return true;
    }
    match get_tag(&w.tags, "oneway") {
        Some(v) => str_eq(v.as_str(), "yes"),
        None => false,
    }
}

/// Appends an edge to the list of node `n`, making the list when missing.
fn push_edge(adj: &mut HashMap<i64, Vec<RouteEdge>>, n: i64, e: RouteEdge)
    ensures
        final(adj)@.contains_key(n),
        final(adj)@[n]@ == (if old(adj)@.contains_key(n) { old(adj)@[n]@ } else { Seq::empty() }).push(e),
        forall|x: i64| x != n ==> (#[trigger] final(adj)@.contains_key(x) == old(adj)@.contains_key(x)),
        forall|x: i64| x != n && old(adj)@.contains_key(x) ==> #[trigger] final(adj)@[x] == old(adj)@[x],
{
    let mut list = match adj.remove(&n) {
        Some(l) => l,
        None => Vec::new(),
    };
    list.push(e);
    adj.insert(n, list);
}

proof fn lemma_push_listed(a0: Map<i64, Vec<RouteEdge>>, a1: Map<i64, Vec<RouteEdge>>, n0: i64, e: RouteEdge)
    requires
        a1.contains_key(n0),
        a1[n0]@ == (if a0.contains_key(n0) { a0[n0]@ } else { Seq::empty() }).push(e),
        forall|x: i64| x != n0 ==> (#[trigger] a1.contains_key(x) == a0.contains_key(x)),
        forall|x: i64| x != n0 && a0.contains_key(x) ==> #[trigger] a1[x] == a0[x],
    ensures
        forall|x: i64| #[trigger] listed(a1, x) == if x == n0 { listed(a0, x).push((e.to_node, e.way_id)) } else { listed(a0, x) },
        forall|x: i64| #[trigger] a1.contains_key(x) == (a0.contains_key(x) || x == n0),
        forall|x: i64| #[trigger] edge_costs(a1, x) == if x == n0 { edge_costs(a0, x).push(e.cost) } else { edge_costs(a0, x) },
{
    assert forall|x: i64| #[trigger] edge_costs(a1, x) == if x == n0 { edge_costs(a0, x).push(e.cost) } else { edge_costs(a0, x) } by {
        if x == n0 {
            assert(edge_costs(a1, x) =~= edge_costs(a0, x).push(e.cost));
        }
    }
    assert forall|x: i64| #[trigger] listed(a1, x) == if x == n0 { listed(a0, x).push((e.to_node, e.way_id)) } else { listed(a0, x) } by {
        if x == n0 {
            assert(edge_targets(a1[x]@) =~= listed(a0, x).push((e.to_node, e.way_id)));
        }
    }
}

/// The edges out of `n` so far, by the map.
pub open spec fn listed(adj: Map<i64, Vec<RouteEdge>>, n: i64) -> Seq<(i64, i64)> {
    if adj.contains_key(n) {
        edge_targets(adj[n]@)
    } else {
        Seq::empty()
    }
}

/// Appends the edges of one way's segments to the node lists, and gives the
/// cost of each segment, which both of its edges carry.
#[verifier::spinoff_prover]
#[verifier::rlimit(60)]
fn add_way_edges<C: SegmentCost>(
    adj: &mut HashMap<i64, Vec<RouteEdge>>,
    way: &Way,
    oneway: bool,
    base: i64,
    index: &HashMap<i64, usize>,
    nodes: &Vec<Node>,
    cost: &C,
    Ghost(known): Ghost<Set<i64>>,
) -> (cs: Ghost<Seq<i64>>)
    requires
        -9_223_372_036_854_775 <= base <= 9_223_372_036_854_775,
        forall|id: i64| #[trigger] index@.contains_key(id) ==> index@[id] < nodes@.len() && nodes@[index@[id] as int].id == id,
        forall|id: i64| #[trigger] index@.contains_key(id) <==> known.contains(id),
    ensures
        forall|n: i64| #[trigger] listed(final(adj)@, n) == listed(old(adj)@, n) + way_out(*way, oneway, segments(*way), n),
        forall|n: i64| #[trigger] final(adj)@.contains_key(n) <==> (old(adj)@.contains_key(n) || way_out(*way, oneway, segments(*way), n).len() > 0),
        segment_costs_ok(*way, base, known, nodes@, *cost, cs@),
        forall|n: i64| #[trigger] edge_costs(final(adj)@, n) == edge_costs(old(adj)@, n) + way_costs(
            *way,
            oneway,
            segments(*way),
            n,
            cs@,
        ),
{
    let segs: usize = if way.node_refs.len() >= 1 { way.node_refs.len() - 1 } else { 0 };
    let ghost mut costs: Seq<i64> = Seq::empty();
    let mut i: usize = 0;
    while i < segs
        invariant
            segs == segments(*way),
            -9_223_372_036_854_775 <= base <= 9_223_372_036_854_775,
            forall|id: i64| #[trigger] index@.contains_key(id) ==> index@[id] < nodes@.len() && nodes@[index@[id] as int].id == id,
            i <= segs,
            costs.len() == i,
            forall|j: int| 0 <= j < i && !(known.contains(way.node_refs@[j]) && known.contains(way.node_refs@[j + 1]))
                ==> #[trigger] costs[j] == base * 1000,
            forall|j: int| 0 <= j < i && known.contains(way.node_refs@[j]) && known.contains(way.node_refs@[j + 1])
                ==> segment_priced(nodes@, *cost, way.node_refs@[j], way.node_refs@[j + 1], base, #[trigger] costs[j]),
            forall|n: i64| #[trigger] listed(adj@, n) == listed(old(adj)@, n) + way_out(*way, oneway, i as int, n),
            forall|n: i64| #[trigger] adj@.contains_key(n) <==> (old(adj)@.contains_key(n) || way_out(*way, oneway, i as int, n).len() > 0),
            forall|id: i64| #[trigger] index@.contains_key(id) <==> known.contains(id),
            forall|n: i64| #[trigger] edge_costs(adj@, n) == edge_costs(old(adj)@, n) + way_costs(*way, oneway, i as int, n, costs),
        decreases segs - i,
    {
        let from_node = way.node_refs[i];
        let to_node = way.node_refs[i + 1];
        let c = match (index.get(&from_node), index.get(&to_node)) {
            (Some(a), Some(b)) => {
                let f = C::segment_cost;
                let r = f(cost, &nodes[*a], &nodes[*b], base);
                assert(segment_priced(nodes@, *cost, from_node, to_node, base, r)) by {
                    assert(call_ensures(C::segment_cost, (cost, &nodes@[*a as int], &nodes@[*b as int], base), r));
                }
                r
            },
            _ => base * 1000,
        };
        let ghost a0 = adj@;
        let ghost costs0 = costs;
        push_edge(adj, from_node, RouteEdge { to_node, way_id: way.id, cost: c });
        let ghost a1 = adj@;
        if !oneway {
            push_edge(adj, to_node, RouteEdge { to_node: from_node, way_id: way.id, cost: c });
        }
        proof {
            costs = costs.push(c);
            let e1 = RouteEdge { to_node, way_id: way.id, cost: c };
            let e2 = RouteEdge { to_node: from_node, way_id: way.id, cost: c };
            lemma_push_listed(a0, a1, from_node, e1);
            if !oneway {
                lemma_push_listed(a1, adj@, to_node, e2);
            } else {
                assert(adj@ == a1);
            }
            assert forall|j: int| 0 <= j < i + 1 && !(known.contains(way.node_refs@[j]) && known.contains(way.node_refs@[j + 1]))
                implies #[trigger] costs[j] == base * 1000 by {
                if j < i {
                    assert(costs[j] == costs0[j]);
                }
            }
            lemma_costs_step(old(adj)@, a0, a1, adj@, *way, oneway, i as int, costs0, c);
            assert forall|n: i64| #[trigger] listed(adj@, n) == listed(old(adj)@, n) + way_out(*way, oneway, i + 1, n)
                && (adj@.contains_key(n) <==> (old(adj)@.contains_key(n) || way_out(*way, oneway, i + 1, n).len() > 0)) by {
                let so = segment_out(*way, oneway, i as int, n);
                assert(way_out(*way, oneway, i + 1, n) == way_out(*way, oneway, i as int, n) + so);
                assert(listed(a0, n) == listed(old(adj)@, n) + way_out(*way, oneway, i as int, n));
                assert(listed(adj@, n) =~= listed(a0, n) + so);
                assert(listed(old(adj)@, n) + way_out(*way, oneway, i + 1, n) =~= listed(a0, n) + so);
            }
        }
        i = i + 1;
    }
    Ghost(costs)
}

proof fn lemma_costs_step(
    a: Map<i64, Vec<RouteEdge>>,
    a0: Map<i64, Vec<RouteEdge>>,
    a1: Map<i64, Vec<RouteEdge>>,
    a2: Map<i64, Vec<RouteEdge>>,
    w: Way,
    oneway: bool,
    i: int,
    cs: Seq<i64>,
    c: i64,
)
    requires
        0 <= i < segments(w),
        cs.len() == i,
        forall|n: i64| #[trigger] edge_costs(a0, n) == edge_costs(a, n) + way_costs(w, oneway, i, n, cs),
        forall|x: i64| #[trigger] edge_costs(a1, x) == if x == w.node_refs@[i] { edge_costs(a0, x).push(c) } else { edge_costs(a0, x) },
        !oneway ==> forall|x: i64| #[trigger] edge_costs(a2, x) == if x == w.node_refs@[i + 1] { edge_costs(a1, x).push(c) } else { edge_costs(a1, x) },
        oneway ==> a2 == a1,
    ensures
        forall|n: i64| #[trigger] edge_costs(a2, n) == edge_costs(a, n) + way_costs(w, oneway, i + 1, n, cs.push(c)),
{
    assert forall|n: i64| #[trigger] edge_costs(a2, n) == edge_costs(a, n) + way_costs(w, oneway, i + 1, n, cs.push(c)) by {
        lemma_way_costs_prefix(w, oneway, i, n, cs, c);
        let sc = segment_costs(w, oneway, i, n, c);
        assert(cs.push(c)[i] == c);
        assert(way_costs(w, oneway, i + 1, n, cs.push(c)) == way_costs(w, oneway, i, n, cs) + sc);
        assert(edge_costs(a2, n) =~= edge_costs(a0, n) + sc);
    }
}

/// The costs of the first `k` segments depend on the first `k` segment costs
/// only.
proof fn lemma_way_costs_prefix(w: Way, oneway: bool, k: int, n: i64, cs: Seq<i64>, c: i64)
    requires
        0 <= k <= cs.len(),
    ensures
        way_costs(w, oneway, k, n, cs.push(c)) == way_costs(w, oneway, k, n, cs),
    decreases k,
{
    if k > 0 {
        lemma_way_costs_prefix(w, oneway, k - 1, n, cs, c);
        assert(cs.push(c)[k - 1] == cs[k - 1]);
    }
}

/// Builds the routing graph of a map graph: for every segment of every way
/// an edge forward, and one backward unless the way is one-way, both with
/// the segment's cost; a segment between two known nodes costs what `cost`
/// says, one with an unknown node costs its way's base cost times 1000;
/// every node has an edge list; and one turn restriction for each relation
/// that states one, in order.
pub fn build_routing_graph<C: SegmentCost>(graph: &OsmGraph, cost: &C) -> (r: RouteGraph)
    requires
        graph.profile is Some,
        penalties_scalable(graph.profile->0),
    ensures
        forall|n: i64| #[trigger] listed(r.adjacency_list@, n) == ways_out(graph.ways@, n),
        forall|n: i64| #[trigger] r.adjacency_list@.contains_key(n) <==> (ways_out(graph.ways@, n).len() > 0
            || exists|k: int| 0 <= k < graph.nodes@.len() && graph.nodes@[k].id == n),
        exists|css: Seq<Seq<i64>>| #[trigger] costed_by(
            r.adjacency_list@,
            graph.ways@,
            graph.profile->0,
            node_ids(graph.nodes@),
            graph.nodes@,
            *cost,
            css,
        ),
        forall|id: i64| #[trigger] r.positions@.contains_key(id) <==> exists|j: int|
            0 <= j < graph.nodes@.len() && #[trigger] graph.nodes@[j].id == id,
        forall|id: i64| #[trigger] r.positions@.contains_key(id) ==> exists|j: int|
            0 <= j < graph.nodes@.len() && graph.nodes@[j].id == id && r.positions@[id] == (
                graph.nodes@[j].lat_bits,
                graph.nodes@[j].lon_bits,
            ),
        crate::turns::one_per_relation(graph.relations@, r.turn_restrictions@),
        forall|j: int| 0 <= j < r.turn_restrictions@.len() ==> crate::turns::stated_by_some(
            graph.relations@,
            #[trigger] r.turn_restrictions@[j],
        ),
        forall|i: int| 0 <= i < graph.relations@.len() ==> crate::turns::relation_restriction_spec(
            #[trigger] graph.relations@[i],
            None,
        ) || crate::turns::lists_restriction_of(r.turn_restrictions@, graph.relations@[i]),
{
    let profile = match &graph.profile {
        Some(p) => p,
        None => {
            return RouteGraph {
                adjacency_list: HashMap::new(),
                turn_restrictions: Vec::new(),
                positions: HashMap::new(),
            };
        },
    };
    let ghost known = node_ids(graph.nodes@);
    let mut index: HashMap<i64, usize> = HashMap::new();
    let mut k: usize = 0;
    while k < graph.nodes.len()
        invariant
            k <= graph.nodes@.len(),
            forall|id: i64| #[trigger] index@.contains_key(id) ==> index@[id] < graph.nodes@.len() && graph.nodes@[index@[id] as int].id == id,
            forall|id: i64| #[trigger] index@.contains_key(id) <==> exists|j: int|
                0 <= j < k && #[trigger] graph.nodes@[j].id == id,
        decreases graph.nodes@.len() - k,
    {
        index.insert(graph.nodes[k].id, k);
        proof {
            assert(graph.nodes@[k as int].id == graph.nodes[k as int].id);
        }
        k = k + 1;
    }
    proof {
        assert forall|id: i64| #[trigger] index@.contains_key(id) <==> known.contains(id) by {
            if known.contains(id) {
                let j = choose|j: int| 0 <= j < graph.nodes@.len() && #[trigger] graph.nodes@[j].id == id;
            }
        }
    }
    let ws = &graph.ways;
    let mut adj: HashMap<i64, Vec<RouteEdge>> = HashMap::new();
    let ghost mut css: Seq<Seq<i64>> = Seq::empty();
    proof {
        assert forall|n: i64| #[trigger] edge_costs(adj@, n) == ways_costs(ws@.subrange(0, 0), n, css) by {
            assert(edge_costs(adj@, n) =~= Seq::<i64>::empty());
        }
    }
    let mut w: usize = 0;
    while w < ws.len()
        invariant
            w <= ws@.len(),
            *profile == graph.profile->0,
            penalties_scalable(*profile),
            forall|id: i64| #[trigger] index@.contains_key(id) ==> index@[id] < graph.nodes@.len() && graph.nodes@[index@[id] as int].id == id,
            forall|n: i64| #[trigger] listed(adj@, n) == ways_out(ws@.subrange(0, w as int), n),
            forall|n: i64| #[trigger] adj@.contains_key(n) <==> ways_out(ws@.subrange(0, w as int), n).len() > 0,
            forall|id: i64| #[trigger] index@.contains_key(id) <==> known.contains(id),
            costed_by(adj@, ws@.subrange(0, w as int), *profile, known, graph.nodes@, *cost, css),
        decreases ws@.len() - w,
    {
        let way = &ws[w];
        let oneway = oneway_exec(way);
        let base = base_cost(profile, way);
        let ghost pre = ws@.subrange(0, w as int);
        let ghost a_before = adj@;
        let ghost p = *profile;
        let Ghost(cs) = add_way_edges(
            &mut adj,
            way,
            oneway,
            base,
            &index,
            &graph.nodes,
            cost,
            Ghost(known),
        );
        proof {
            let css0 = css;
            css = css.push(cs);
            let pre1 = ws@.subrange(0, w + 1);
            assert(pre1.drop_last() == pre);
            assert(pre1.last() == *way);
            assert(css.drop_last() == css0);
            assert(css.last() == cs);
            assert forall|x: int| 0 <= x < pre1.len() implies segment_costs_ok(#[trigger] pre1[x], base_cost_of(p, pre1[x]), known, graph.nodes@, *cost, css[x]) by {
                if x < w {
                    assert(pre1[x] == pre[x]);
                    assert(css[x] == css0[x]);
                }
            }
            assert forall|n: i64| #[trigger] edge_costs(adj@, n) == ways_costs(pre1, n, css) by {
                assert(edge_costs(a_before, n) == ways_costs(pre, n, css0));
            }
            assert(ws@.subrange(0, w + 1).drop_last() == pre);
            assert(ws@.subrange(0, w + 1).last() == *way);
            assert forall|n: i64| #[trigger] listed(adj@, n) == ways_out(ws@.subrange(0, w + 1), n) by {
                assert(listed(a_before, n) == ways_out(pre, n));
            }
            assert forall|n: i64| #[trigger] adj@.contains_key(n) <==> ways_out(ws@.subrange(0, w + 1), n).len() > 0 by {
                assert(a_before.contains_key(n) <==> ways_out(pre, n).len() > 0);
            }
        }
        w = w + 1;
    }
    proof {
        assert(ws@.subrange(0, ws@.len() as int) == ws@);
    }
    let mut k: usize = 0;
    while k < graph.nodes.len()
        invariant
            k <= graph.nodes@.len(),
            ws@ == graph.ways@,
            forall|n: i64| #[trigger] listed(adj@, n) == ways_out(ws@, n),
            forall|n: i64| #[trigger] adj@.contains_key(n) <==> (ways_out(ws@, n).len() > 0
                || exists|j: int| 0 <= j < k && graph.nodes@[j].id == n),
            costed_by(adj@, ws@, graph.profile->0, known, graph.nodes@, *cost, css),
        decreases graph.nodes@.len() - k,
    {
        let n = graph.nodes[k].id;
        let ghost a0 = adj@;
        if !adj.contains_key(&n) {
            adj.insert(n, Vec::new());
        }
        proof {
            assert forall|x: i64| #[trigger] adj@.contains_key(x) <==> (ways_out(ws@, x).len() > 0
                || exists|j: int| 0 <= j < k + 1 && graph.nodes@[j].id == x) by {
                if x == n {
                    assert(graph.nodes@[k as int].id == x);
                }
            }
            assert forall|x: i64| #[trigger] edge_costs(adj@, x) == ways_costs(ws@, x, css) by {
                assert(edge_costs(a0, x) == ways_costs(ws@, x, css));
                if x == n && !a0.contains_key(x) {
                    assert(edge_costs(adj@, x) =~= Seq::<i64>::empty());
                }
            }
            assert forall|x: i64| #[trigger] listed(adj@, x) == ways_out(ws@, x) by {
                assert(listed(a0, x) == ways_out(ws@, x));
                if x == n && !a0.contains_key(x) {
                    assert(edge_targets(adj@[x]@) =~= Seq::<(i64, i64)>::empty());
                }
            }
        }
        k = k + 1;
    }
    let turn_restrictions = collect_turn_restrictions(&graph.relations);
    let mut positions: HashMap<i64, (u64, u64)> = HashMap::new();
    let mut k: usize = 0;
    while k < graph.nodes.len()
        invariant
            k <= graph.nodes@.len(),
            forall|id: i64| #[trigger] positions@.contains_key(id) <==> exists|j: int|
                0 <= j < k && #[trigger] graph.nodes@[j].id == id,
            forall|id: i64| #[trigger] positions@.contains_key(id) ==> exists|j: int|
                0 <= j < k && graph.nodes@[j].id == id && positions@[id] == (
                    graph.nodes@[j].lat_bits,
                    graph.nodes@[j].lon_bits,
                ),
        decreases graph.nodes@.len() - k,
    {
        let n = &graph.nodes[k];
        positions.insert(n.id, (n.lat_bits, n.lon_bits));
        proof {
            assert(graph.nodes@[k as int].id == n.id);
        }
        k = k + 1;
    }
    let r = RouteGraph { adjacency_list: adj, turn_restrictions, positions };
    proof {
        assert(costed_by(r.adjacency_list@, graph.ways@, graph.profile->0, node_ids(graph.nodes@), graph.nodes@, *cost, css));
    }
    r
}

} // verus!
