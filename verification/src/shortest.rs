use vstd::prelude::*;
use vstd::multiset::Multiset;
use std::collections::HashMap;
use crate::costheap::{CostEntry, CostHeap};
use crate::routegraph::{RouteEdge, RouteGraph};

verus! {

broadcast use vstd::std_specs::hash::group_hash_axioms;

/// The edges leaving node `n`: none where it has no edge list.
pub open spec fn out_edges(adj: Map<i64, Vec<RouteEdge>>, n: i64) -> Seq<RouteEdge> {
    if adj.contains_key(n) {
        adj[n]@
    } else {
        seq![]
    }
}

/// Where a walk from `from` along the edges `w` ends.
pub open spec fn walk_end(from: i64, w: Seq<RouteEdge>) -> i64 {
    if w.len() == 0 {
        from
    } else {
        w.last().to_node
    }
}

/// `w` is a walk from `from`: each edge leaves the node the walk has reached.
pub open spec fn is_walk(adj: Map<i64, Vec<RouteEdge>>, from: i64, w: Seq<RouteEdge>) -> bool
    decreases w.len(),
{
    w.len() == 0 || (is_walk(adj, from, w.drop_last()) && out_edges(adj, walk_end(from, w.drop_last())).contains(
        w.last(),
    ))
}

/// The summed cost of a walk's edges.
pub open spec fn walk_cost(w: Seq<RouteEdge>) -> int
    decreases w.len(),
{
    if w.len() == 0 {
        0
    } else {
        walk_cost(w.drop_last()) + w.last().cost
    }
}

/// Some walk from `from` to `to` costs `c`.
pub open spec fn reaches_at(adj: Map<i64, Vec<RouteEdge>>, from: i64, to: i64, c: int) -> bool {
    exists|w: Seq<RouteEdge>| #[trigger] is_walk(adj, from, w) && walk_end(from, w) == to && walk_cost(w) == c
}

/// Some walk from `from` to `to` costs less than `i64::MAX`.
pub open spec fn reachable(adj: Map<i64, Vec<RouteEdge>>, from: i64, to: i64) -> bool {
    exists|w: Seq<RouteEdge>| #[trigger] is_walk(adj, from, w) && walk_end(from, w) == to && walk_cost(w) < i64::MAX
}

/// `d` is the least cost of a walk from `from` to `to`.
pub open spec fn is_shortest(adj: Map<i64, Vec<RouteEdge>>, from: i64, to: i64, d: int) -> bool {
    &&& reaches_at(adj, from, to, d)
    &&& forall|w: Seq<RouteEdge>| #[trigger] is_walk(adj, from, w) && walk_end(from, w) == to ==> d <= walk_cost(w)
}

/// No edge costs less than nothing.
pub open spec fn costs_nonnegative(adj: Map<i64, Vec<RouteEdge>>) -> bool {
    forall|k: i64, i: int| #![trigger adj[k]@[i]] adj.contains_key(k) && 0 <= i < adj[k]@.len() ==> adj[k]@[i].cost >= 0
}

/// Node `v` is the target of some edge.
pub open spec fn is_target(adj: Map<i64, Vec<RouteEdge>>, v: i64) -> bool {
    exists|k: i64, i: int| #![trigger adj[k]@[i]] adj.contains_key(k) && 0 <= i < adj[k]@.len() && adj[k]@[i].to_node == v
}

/// The nodes a search from `source` can meet: the source and every target.
pub open spec fn universe(adj: Map<i64, Vec<RouteEdge>>, source: i64) -> Set<i64> {
    Set::new(|v: i64| v == source || is_target(adj, v))
}

/// The targets of the edge lists of `keys`.
spec fn targets_within(adj: Map<i64, Vec<RouteEdge>>, keys: Set<i64>) -> Set<i64> {
    Set::new(
        |v: i64|
            exists|k: i64, i: int|
                #![trigger adj[k]@[i]]
                keys.contains(k) && adj.contains_key(k) && 0 <= i < adj[k]@.len() && adj[k]@[i].to_node == v,
    )
}

/// The targets of one edge list.
spec fn list_targets(adj: Map<i64, Vec<RouteEdge>>, k: i64) -> Set<i64> {
    if adj.contains_key(k) {
        adj[k]@.map_values(|e: RouteEdge| e.to_node).to_set()
    } else {
        Set::empty()
    }
}

proof fn lemma_targets_within_finite(adj: Map<i64, Vec<RouteEdge>>, keys: Set<i64>)
    requires
        keys.finite(),
    ensures
        targets_within(adj, keys).finite(),
    decreases keys.len(),
{
    if keys.len() == 0 {
        keys.lemma_len0_is_empty();
        assert(targets_within(adj, keys) =~= Set::empty());
    } else {
        let k = keys.choose();
        let rest = keys.remove(k);
        lemma_targets_within_finite(adj, rest);
        let own = list_targets(adj, k);
        if adj.contains_key(k) {
            vstd::seq_lib::seq_to_set_is_finite(adj[k]@.map_values(|e: RouteEdge| e.to_node));
        }
        assert forall|v: i64| targets_within(adj, keys).contains(v) implies targets_within(adj, rest).union(
            own,
        ).contains(v) by {
            let (kk, i) = choose|kk: i64, i: int|
                #![trigger adj[kk]@[i]]
                keys.contains(kk) && adj.contains_key(kk) && 0 <= i < adj[kk]@.len() && adj[kk]@[i].to_node == v;
            if kk == k {
                let s = adj[k]@.map_values(|e: RouteEdge| e.to_node);
                assert(s[i] == v);
                assert(s.contains(v));
            } else {
                assert(rest.contains(kk));
            }
        }
        vstd::set_lib::lemma_len_subset(targets_within(adj, keys), targets_within(adj, rest).union(own));
    }
}

/// A search meets only finitely many nodes.
proof fn lemma_universe_finite(adj: Map<i64, Vec<RouteEdge>>, source: i64)
    requires
        adj.dom().finite(),
    ensures
        universe(adj, source).finite(),
{
    lemma_targets_within_finite(adj, adj.dom());
    let big = targets_within(adj, adj.dom()).insert(source);
    assert forall|v: i64| universe(adj, source).contains(v) implies big.contains(v) by {
        if v != source {
            let (k, i) = choose|k: i64, i: int|
                #![trigger adj[k]@[i]]
                adj.contains_key(k) && 0 <= i < adj[k]@.len() && adj[k]@[i].to_node == v;
            assert(adj.dom().contains(k));
        }
    }
    vstd::set_lib::lemma_len_subset(universe(adj, source), big);
}

/// A walk extended by an edge leaving its end.
proof fn lemma_walk_push(adj: Map<i64, Vec<RouteEdge>>, from: i64, w: Seq<RouteEdge>, e: RouteEdge)
    requires
        is_walk(adj, from, w),
        out_edges(adj, walk_end(from, w)).contains(e),
    ensures
        is_walk(adj, from, w.push(e)),
        walk_end(from, w.push(e)) == e.to_node,
        walk_cost(w.push(e)) == walk_cost(w) + e.cost,
{
    assert(w.push(e).drop_last() == w);
}

/// Edge `i` of node `u` gives no cheaper way to its target than `d` knows,
/// or its cost runs past the largest `i64`.
pub open spec fn edge_relaxed(adj: Map<i64, Vec<RouteEdge>>, d: Map<i64, i64>, u: i64, i: int) -> bool {
    let e = out_edges(adj, u)[i];
    d[u] + e.cost >= i64::MAX || (d.contains_key(e.to_node) && d[e.to_node] <= d[u] + e.cost)
}

/// The entry that stands for node `v` at its known distance.
pub open spec fn entry_of(d: Map<i64, i64>, v: i64) -> CostEntry {
    CostEntry { cost: d[v], node: v }
}

/// The state of a search from `source`: the known distances `d`, each the
/// cost of a walk; the settled nodes `s`, no farther than the last cost taken
/// `lo`, whose edges are relaxed except edges `j` onwards of node `open`;
/// and the open entries `h`, one for each known node not yet settled.
pub open spec fn search_ok(
    adj: Map<i64, Vec<RouteEdge>>,
    source: i64,
    d: Map<i64, i64>,
    s: Set<i64>,
    h: Multiset<CostEntry>,
    lo: int,
    open: i64,
    j: int,
) -> bool {
    &&& d.contains_key(source) && d[source] == 0
    &&& 0 <= lo
    &&& forall|v: i64| #[trigger] d.contains_key(v) ==> {
        &&& 0 <= d[v] < i64::MAX
        &&& reaches_at(adj, source, v, d[v] as int)
        &&& universe(adj, source).contains(v)
        &&& h.count(entry_of(d, v)) <= 1
        &&& !s.contains(v) ==> h.count(entry_of(d, v)) > 0
    }
    &&& forall|x: CostEntry| #[trigger] h.count(x) > 0 ==> d.contains_key(x.node) && x.cost >= d[x.node] && x.cost >= lo
    &&& forall|v: i64| #[trigger] s.contains(v) ==> d.contains_key(v) && d[v] <= lo && h.count(entry_of(d, v)) == 0
    &&& forall|u: i64, i: int|
        #![trigger s.contains(u), out_edges(adj, u)[i]]
        s.contains(u) && 0 <= i < out_edges(adj, u).len() && (u != open || i < j) ==> edge_relaxed(adj, d, u, i)
}

/// The search state between two entries taken: every settled node's edges
/// are relaxed.
pub open spec fn settled_ok(
    adj: Map<i64, Vec<RouteEdge>>,
    source: i64,
    d: Map<i64, i64>,
    s: Set<i64>,
    h: Multiset<CostEntry>,
    lo: int,
) -> bool {
    search_ok(adj, source, d, s, h, lo, source, out_edges(adj, source).len() as int)
}

/// Taking an entry dearer than its node's distance changes nothing else.
proof fn lemma_skip(
    adj: Map<i64, Vec<RouteEdge>>,
    source: i64,
    d: Map<i64, i64>,
    s: Set<i64>,
    h: Multiset<CostEntry>,
    lo: int,
    x: CostEntry,
)
    requires
        settled_ok(adj, source, d, s, h, lo),
        h.count(x) > 0,
        x.cost > d[x.node],
    ensures
        settled_ok(adj, source, d, s, h.remove(x), lo),
{
    let h2 = h.remove(x);
    assert forall|v: i64| #[trigger] d.contains_key(v) implies {
        &&& h2.count(entry_of(d, v)) <= 1
        &&& !s.contains(v) ==> h2.count(entry_of(d, v)) > 0
    } by {
        if entry_of(d, v) == x {
            assert(x.cost == d[x.node]);
        }
    }
    assert forall|v: i64| #[trigger] s.contains(v) implies d.contains_key(v) && d[v] <= lo && h2.count(entry_of(d, v))
        == 0 by {
        assert(h.count(entry_of(d, v)) == 0);
    }
}

/// Taking the cheapest entry at its node's distance settles the node.
proof fn lemma_settle(
    adj: Map<i64, Vec<RouteEdge>>,
    source: i64,
    d: Map<i64, i64>,
    s: Set<i64>,
    h: Multiset<CostEntry>,
    lo: int,
    x: CostEntry,
)
    requires
        settled_ok(adj, source, d, s, h, lo),
        h.count(x) > 0,
        x.cost <= d[x.node],
        forall|y: CostEntry| #[trigger] h.count(y) > 0 ==> x.cost <= y.cost,
    ensures
        x.cost == d[x.node],
        !s.contains(x.node),
        x.cost >= lo,
        search_ok(adj, source, d, s.insert(x.node), h.remove(x), x.cost as int, x.node, 0),
{
    let v = x.node;
    let h2 = h.remove(x);
    let s2 = s.insert(v);
    assert(x == entry_of(d, v));
    assert forall|w: i64| #[trigger] d.contains_key(w) implies {
        &&& h2.count(entry_of(d, w)) <= 1
        &&& !s2.contains(w) ==> h2.count(entry_of(d, w)) > 0
    } by {
        if w != v {
            assert(entry_of(d, w) != x);
        }
    }
    assert forall|y: CostEntry| #[trigger] h2.count(y) > 0 implies d.contains_key(y.node) && y.cost >= d[y.node]
        && y.cost >= x.cost by {
        assert(h.count(y) > 0);
    }
    assert forall|w: i64| #[trigger] s2.contains(w) implies d.contains_key(w) && d[w] <= x.cost && h2.count(
        entry_of(d, w),
    ) == 0 by {
        if w != v {
            assert(s.contains(w));
        } else {
            assert(h.count(x) <= 1);
        }
    }
    assert forall|u: i64, i: int|
        #![trigger s2.contains(u), out_edges(adj, u)[i]]
        s2.contains(u) && 0 <= i < out_edges(adj, u).len() && (u != v || i < 0) implies edge_relaxed(adj, d, u, i) by {
        assert(s.contains(u));
    }
}

/// Relaxing edge `j` of the node being settled keeps the search state.
proof fn lemma_relax(
    adj: Map<i64, Vec<RouteEdge>>,
    source: i64,
    d: Map<i64, i64>,
    s: Set<i64>,
    h: Multiset<CostEntry>,
    lo: int,
    v: i64,
    j: int,
    improve: bool,
)
    requires
        search_ok(adj, source, d, s, h, lo, v, j),
        costs_nonnegative(adj),
        s.contains(v),
        d[v] == lo,
        0 <= j < out_edges(adj, v).len(),
        improve <==> (lo + out_edges(adj, v)[j].cost < i64::MAX && (!d.contains_key(out_edges(adj, v)[j].to_node)
            || lo + out_edges(adj, v)[j].cost < d[out_edges(adj, v)[j].to_node])),
    ensures
        ({
            let e = out_edges(adj, v)[j];
            let d2 = d.insert(e.to_node, (lo + e.cost) as i64);
            let x = CostEntry { cost: (lo + e.cost) as i64, node: e.to_node };
            &&& improve ==> !s.contains(e.to_node) && search_ok(adj, source, d2, s, h.insert(x), lo, v, j + 1)
            &&& !improve ==> search_ok(adj, source, d, s, h, lo, v, j + 1)
        }),
{
    let e = out_edges(adj, v)[j];
    assert(adj.contains_key(v));
    assert(e == adj[v]@[j]);
    assert(e.cost >= 0);
    let t = e.to_node;
    if improve {
        let nc: i64 = (lo + e.cost) as i64;
        let d2 = d.insert(t, nc);
        let x = CostEntry { cost: nc, node: t };
        let h2 = h.insert(x);
        if s.contains(t) {
            assert(d[t] <= lo);
        }
        assert(universe(adj, source).contains(t)) by {
            assert(is_target(adj, t));
        }
        assert(reaches_at(adj, source, t, nc as int)) by {
            let w = choose|w: Seq<RouteEdge>| #[trigger] is_walk(adj, source, w) && walk_end(source, w) == v
                && walk_cost(w) == d[v];
            assert(out_edges(adj, v).contains(e));
            lemma_walk_push(adj, source, w, e);
        }
        if d.contains_key(t) {
            assert(h.count(x) == 0) by {
                if h.count(x) > 0 {
                    assert(x.cost >= d[t]);
                }
            }
        } else {
            assert(h.count(x) == 0) by {
                if h.count(x) > 0 {
                    assert(d.contains_key(x.node));
                }
            }
        }
        assert forall|w: i64| #[trigger] d2.contains_key(w) implies {
            &&& 0 <= d2[w] < i64::MAX
            &&& reaches_at(adj, source, w, d2[w] as int)
            &&& universe(adj, source).contains(w)
            &&& h2.count(entry_of(d2, w)) <= 1
            &&& !s.contains(w) ==> h2.count(entry_of(d2, w)) > 0
        } by {
            if w != t {
                assert(d.contains_key(w));
                assert(entry_of(d2, w) == entry_of(d, w));
                assert(entry_of(d, w) != x);
            } else {
                assert(entry_of(d2, w) == x);
            }
        }
        assert forall|y: CostEntry| #[trigger] h2.count(y) > 0 implies d2.contains_key(y.node) && y.cost >= d2[y.node]
            && y.cost >= lo by {
            if y != x {
                assert(h.count(y) > 0);
            }
        }
        assert forall|w: i64| #[trigger] s.contains(w) implies d2.contains_key(w) && d2[w] <= lo && h2.count(
            entry_of(d2, w),
        ) == 0 by {
            assert(w != t);
            assert(entry_of(d2, w) == entry_of(d, w));
            assert(entry_of(d, w) != x);
        }
        assert forall|u: i64, i: int|
            #![trigger s.contains(u), out_edges(adj, u)[i]]
            s.contains(u) && 0 <= i < out_edges(adj, u).len() && (u != v || i < j + 1) implies edge_relaxed(
            adj,
            d2,
            u,
            i,
        ) by {
            assert(u != t);
            if u == v && i == j {
            } else {
                assert(edge_relaxed(adj, d, u, i));
            }
        }
    } else {
        assert forall|u: i64, i: int|
            #![trigger s.contains(u), out_edges(adj, u)[i]]
            s.contains(u) && 0 <= i < out_edges(adj, u).len() && (u != v || i < j + 1) implies edge_relaxed(
            adj,
            d,
            u,
            i,
        ) by {
            if u == v && i == j {
            } else {
                assert(edge_relaxed(adj, d, u, i));
            }
        }
    }
}

/// With every known node settled, the known distances are the least costs.
proof fn lemma_least(
    adj: Map<i64, Vec<RouteEdge>>,
    source: i64,
    d: Map<i64, i64>,
    s: Set<i64>,
    lo: int,
    w: Seq<RouteEdge>,
)
    requires
        settled_ok(adj, source, d, s, Multiset::empty(), lo),
        costs_nonnegative(adj),
        is_walk(adj, source, w),
        walk_cost(w) < i64::MAX,
    ensures
        d.contains_key(walk_end(source, w)),
        d[walk_end(source, w)] <= walk_cost(w),
    decreases w.len(),
{
    if w.len() > 0 {
        let p = w.drop_last();
        let e = w.last();
        let u = walk_end(source, p);
        assert(out_edges(adj, u).contains(e));
        let i = choose|i: int| 0 <= i < out_edges(adj, u).len() && out_edges(adj, u)[i] == e;
        assert(adj.contains_key(u));
        assert(adj[u]@[i] == e);
        assert(e.cost >= 0);
        lemma_least(adj, source, d, s, lo, p);
        assert(Multiset::<CostEntry>::empty().count(entry_of(d, u)) == 0);
        assert(s.contains(u));
        assert(edge_relaxed(adj, d, u, i));
    }
}

/// The least cost of a walk from `source` to each node that a walk costing
/// less than `i64::MAX` reaches, by Dijkstra's algorithm. Edges whose cost
/// would take a walk past `i64::MAX` are not followed.
pub fn compute_single_source_distances(graph: &RouteGraph, source: i64) -> (r: HashMap<i64, i64>)
    requires
        costs_nonnegative(graph.adjacency_list@),
    ensures
        forall|v: i64| #[trigger] r@.contains_key(v) <==> reachable(graph.adjacency_list@, source, v),
        forall|v: i64| #[trigger] r@.contains_key(v) ==> is_shortest(graph.adjacency_list@, source, v, r@[v] as int),
{
    let ghost adj = graph.adjacency_list@;
    let ghost u = universe(adj, source);
    proof {
        lemma_universe_finite(adj, source);
        assert(u.contains(source));
    }
    let mut distances: HashMap<i64, i64> = HashMap::new();
    let mut queue = CostHeap::new();
    distances.insert(source, 0);
    queue.push(CostEntry { cost: 0, node: source });
    let ghost mut settled: Set<i64> = Set::empty();
    let ghost mut lo: int = 0;
    proof {
        assert(reaches_at(adj, source, source, 0)) by {
            let w = Seq::<RouteEdge>::empty();
            assert(is_walk(adj, source, w));
        }
        let d = distances@;
        assert(d =~= map![source => 0i64]);
        assert forall|x: CostEntry| #[trigger] queue@.count(x) > 0 implies d.contains_key(x.node) && x.cost >= d[x.node]
            && x.cost >= 0 by {
            assert(x == CostEntry { cost: 0, node: source });
        }
    }
    loop
        invariant
            adj == graph.adjacency_list@,
            costs_nonnegative(adj),
            u == universe(adj, source),
            u.finite(),
            queue.wf(),
            settled.subset_of(u),
            settled.finite(),
            settled_ok(adj, source, distances@, settled, queue@, lo),
        ensures
            settled_ok(adj, source, distances@, settled, queue@, lo),
            queue@.len() == 0,
        decreases u.len() - settled.len(), queue@.len(),
    {
        proof {
            vstd::set_lib::lemma_len_subset(settled, u);
        }
        let ghost h0 = queue@;
        let top = queue.pop();
        let cur = match top {
            None => {
                break;
            },
            Some(c) => c,
        };
        let known = match distances.get(&cur.node) {
            Some(d) => *d,
            None => i64::MAX,
        };
        if cur.cost > known {
            proof {
                lemma_skip(adj, source, distances@, settled, h0, lo, cur);
            }
            continue;
        }
        proof {
            lemma_settle(adj, source, distances@, settled, h0, lo, cur);
            settled = settled.insert(cur.node);
            lo = cur.cost as int;
        }
        match graph.adjacency_list.get(&cur.node) {
            None => {
                proof {
                    assert(out_edges(adj, cur.node).len() == 0);
                    assert(search_ok(adj, source, distances@, settled, queue@, lo, cur.node, out_edges(adj, cur.node).len() as int));
                }
            },
            Some(edges) => {
                let mut j: usize = 0;
                while j < edges.len()
                    invariant
                        adj == graph.adjacency_list@,
                        costs_nonnegative(adj),
                        u == universe(adj, source),
                        u.finite(),
                        queue.wf(),
                        settled.subset_of(u),
                        settled.finite(),
                        settled.contains(cur.node),
                        lo == cur.cost,
                        distances@[cur.node] == cur.cost,
                        distances@.contains_key(cur.node),
                        edges@ == out_edges(adj, cur.node),
                        j <= edges@.len(),
                        search_ok(adj, source, distances@, settled, queue@, lo, cur.node, j as int),
                    decreases edges@.len() - j,
                {
                    let edge = edges[j];
                    let target_known = match distances.get(&edge.to_node) {
                        Some(d) => *d,
                        None => i64::MAX,
                    };
                    let ghost improve = lo + edge.cost < i64::MAX && (!distances@.contains_key(edge.to_node) || lo
                        + edge.cost < distances@[edge.to_node]);
                    proof {
                        assert(adj.contains_key(cur.node));
                        assert(edge == adj[cur.node]@[j as int]);
                        assert(edge.cost >= 0);
                        lemma_relax(adj, source, distances@, settled, queue@, lo, cur.node, j as int, improve);
                    }
                    match cur.cost.checked_add(edge.cost) {
                        Some(new_cost) => {
                            if new_cost < target_known {
                                distances.insert(edge.to_node, new_cost);
                                queue.push(CostEntry { cost: new_cost, node: edge.to_node });
                            }
                        },
                        None => {},
                    }
                    j = j + 1;
                }
            },
        }
        proof {
            let v = cur.node;
            assert forall|uu: i64, i: int|
                #![trigger settled.contains(uu), out_edges(adj, uu)[i]]
                settled.contains(uu) && 0 <= i < out_edges(adj, uu).len() && (uu != source || i < out_edges(
                    adj,
                    source,
                ).len()) implies edge_relaxed(adj, distances@, uu, i) by {
                if uu == v {
                    assert(i < out_edges(adj, uu).len());
                }
            }
            assert(u.contains(v));
            vstd::set_lib::lemma_len_subset(settled, u);
        }
    }
    proof {
        let d = distances@;
        assert(queue@ =~= Multiset::<CostEntry>::empty());
        assert forall|v: i64| #[trigger] d.contains_key(v) implies reachable(adj, source, v) && is_shortest(
            adj,
            source,
            v,
            d[v] as int,
        ) by {
            let w = choose|w: Seq<RouteEdge>| #[trigger] is_walk(adj, source, w) && walk_end(source, w) == v
                && walk_cost(w) == d[v];
            assert forall|w2: Seq<RouteEdge>| #[trigger] is_walk(adj, source, w2) && walk_end(source, w2) == v implies d[v]
                <= walk_cost(w2) by {
                if walk_cost(w2) < i64::MAX {
                    lemma_least(adj, source, d, settled, lo, w2);
                }
            }
        }
        assert forall|v: i64| reachable(adj, source, v) implies #[trigger] d.contains_key(v) by {
            let w = choose|w: Seq<RouteEdge>| #[trigger] is_walk(adj, source, w) && walk_end(source, w) == v
                && walk_cost(w) < i64::MAX;
            lemma_least(adj, source, d, settled, lo, w);
        }
    }
    distances
}

} // verus!
