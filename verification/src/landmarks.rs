use vstd::prelude::*;
use std::collections::{HashMap, HashSet};
use crate::osm::OsmGraph;
use crate::routegraph::RouteGraph;
use crate::shortest::{compute_single_source_distances, costs_nonnegative, is_shortest, reachable};
use crate::text::str_eq;
use crate::types::{get_tag, tag_value, Node, Way};

verus! {

broadcast use vstd::std_specs::hash::group_hash_axioms;

/// Distances between pairs of landmarks.
#[derive(Debug, Clone)]
pub struct DistanceMatrix {
    distances: HashMap<i64, HashMap<i64, i64>>,
}

impl View for DistanceMatrix {
    type V = Map<(i64, i64), i64>;

    /// The distance stored for each pair, from first to second.
    closed spec fn view(&self) -> Map<(i64, i64), i64> {
        Map::new(
            |k: (i64, i64)|
                self.distances@.contains_key(k.0) && self.distances@[k.0]@.contains_key(k.1),
            |k: (i64, i64)| self.distances@[k.0]@[k.1],
        )
    }
}

impl DistanceMatrix {
    /// A matrix without distances.
    pub fn new() -> (m: Self)
        ensures
            m@ == Map::<(i64, i64), i64>::empty(),
    {
        let m = DistanceMatrix { distances: HashMap::new() };
        assert(m@ =~= Map::<(i64, i64), i64>::empty());
        m
    }

    /// Stores the distance from `from` to `to`, replacing an earlier one.
    pub fn add(&mut self, from: i64, to: i64, distance: i64)
        ensures
            final(self)@ == old(self)@.insert((from, to), distance),
    {
        let mut inner = match self.distances.remove(&from) {
            Some(m) => m,
            None => HashMap::new(),
        };
        inner.insert(to, distance);
        self.distances.insert(from, inner);
        assert(self@ =~= old(self)@.insert((from, to), distance));
    }

    /// The distance stored from `from` to `to`, if there is one.
    pub fn get_distance(&self, from: i64, to: i64) -> (r: Option<&i64>)
        ensures
            match r {
                Some(d) => self@.contains_key((from, to)) && *d == self@[(from, to)],
                None => !self@.contains_key((from, to)),
            },
    {
        match self.distances.get(&from) {
            Some(inner) => inner.get(&to),
            None => None,
        }
    }
}

/// Whether a node is a junction: a motorway junction or a crossing.
pub open spec fn is_junction(node: Node) -> bool {
    tag_value(node.tags@, "highway"@) matches Some(v) && (v == "motorway_junction"@ || v
        == "crossing"@)
}

/// The ids of the junction nodes, in node order.
pub open spec fn junction_ids(nodes: Seq<Node>) -> Seq<i64>
    decreases nodes.len(),
{
    if nodes.len() == 0 {
        seq![]
    } else if is_junction(nodes.last()) {
        junction_ids(nodes.drop_last()).push(nodes.last().id)
    } else {
        junction_ids(nodes.drop_last())
    }
}

/// `c` followed by the ids of `extra` that it does not hold yet, in order,
/// each once.
pub open spec fn append_new(c: Seq<i64>, extra: Seq<i64>) -> Seq<i64>
    decreases extra.len(),
{
    if extra.len() == 0 {
        c
    } else {
        let r = append_new(c, extra.drop_last());
        if r.contains(extra.last()) {
            r
        } else {
            r.push(extra.last())
        }
    }
}

/// Every node reference of every way, way after way.
pub open spec fn all_refs(ways: Seq<Way>) -> Seq<i64>
    decreases ways.len(),
{
    if ways.len() == 0 {
        seq![]
    } else {
        all_refs(ways.drop_last()) + ways.last().node_refs@
    }
}

/// How often `x` occurs in `s`.
pub open spec fn occurrences(s: Seq<i64>, x: i64) -> nat
    decreases s.len(),
{
    if s.len() == 0 {
        0
    } else {
        occurrences(s.drop_last(), x) + if s.last() == x {
            1nat
        } else {
            0nat
        }
    }
}

/// Whether `x` is referenced exactly `d` times in `refs`.
pub open spec fn of_degree(refs: Seq<i64>, d: nat) -> spec_fn(i64) -> bool {
    |x: i64| occurrences(refs, x) == d
}

/// The ids referenced exactly `d` times, in order of first reference.
pub open spec fn degree_group(refs: Seq<i64>, d: nat) -> Seq<i64> {
    append_new(seq![], refs).filter(of_degree(refs, d))
}

/// The groups of degree `d` down to 1, the highest degree first.
pub open spec fn groups_down(refs: Seq<i64>, d: nat) -> Seq<i64>
    decreases d,
{
    if d == 0 {
        seq![]
    } else {
        degree_group(refs, d) + groups_down(refs, (d - 1) as nat)
    }
}

/// Every referenced id once, by number of references from the most down;
/// ids referenced equally often keep the order of their first reference.
pub open spec fn degree_order(refs: Seq<i64>) -> Seq<i64> {
    groups_down(refs, refs.len())
}

/// Whether some node has id `id`.
pub open spec fn has_node(nodes: Seq<Node>, id: i64) -> bool {
    exists|i: int| 0 <= i < nodes.len() && (#[trigger] nodes[i]).id == id
}

/// Whether `x` is the id of one of `nodes`.
pub open spec fn is_known(nodes: Seq<Node>) -> spec_fn(i64) -> bool {
    |x: i64| has_node(nodes, x)
}

/// The ids of `ids` that belong to a node.
pub open spec fn known_ids(ids: Seq<i64>, nodes: Seq<Node>) -> Seq<i64> {
    ids.filter(is_known(nodes))
}

/// The first `count` of `s`, or all of it.
pub open spec fn at_most(s: Seq<i64>, count: nat) -> Seq<i64> {
    if s.len() <= count {
        s
    } else {
        s.take(count as int)
    }
}

/// The landmarks of a graph: its junctions, then the grid picks, then the
/// nodes by number of way references, each id once, at most `count` of them.
pub open spec fn landmarks(nodes: Seq<Node>, ways: Seq<Way>, grid: Seq<i64>, count: nat) -> Seq<
    i64,
> {
    at_most(
        append_new(
            append_new(junction_ids(nodes), grid),
            known_ids(degree_order(all_refs(ways)), nodes),
        ),
        count,
    )
}

/// `append_new` keeps what it extends.
pub proof fn lemma_append_new_prefix(c: Seq<i64>, extra: Seq<i64>)
    ensures
        append_new(c, extra).len() >= c.len(),
        append_new(c, extra).take(c.len() as int) == c,
    decreases extra.len(),
{
    if extra.len() > 0 {
        lemma_append_new_prefix(c, extra.drop_last());
        let r = append_new(c, extra.drop_last());
        if !r.contains(extra.last()) {
            assert(r.push(extra.last()).take(c.len() as int) == r.take(c.len() as int));
        }
    }
}

/// Every junction id is the id of one of the nodes.
proof fn lemma_junction_ids_from(nodes: Seq<Node>, x: i64)
    requires
        junction_ids(nodes).contains(x),
    ensures
        has_node(nodes, x),
    decreases nodes.len(),
{
    let rest = nodes.drop_last();
    let r = junction_ids(rest);
    if r.contains(x) {
        lemma_junction_ids_from(rest, x);
        let k = choose|k: int| 0 <= k < rest.len() && (#[trigger] rest[k]).id == x;
        assert(nodes[k] == rest[k]);
    } else {
        assert(nodes[nodes.len() - 1].id == x);
    }
}

/// Nodes with distinct ids give distinct junction ids.
proof fn lemma_junction_ids_distinct(nodes: Seq<Node>)
    requires
        forall|i: int, j: int| 0 <= i < j < nodes.len() ==> (#[trigger] nodes[i]).id != (#[trigger] nodes[j]).id,
    ensures
        junction_ids(nodes).no_duplicates(),
    decreases nodes.len(),
{
    if nodes.len() > 0 {
        let rest = nodes.drop_last();
        assert forall|i: int, j: int| 0 <= i < j < rest.len() implies (#[trigger] rest[i]).id != (#[trigger] rest[j]).id by {
            assert(rest[i] == nodes[i] && rest[j] == nodes[j]);
        }
        lemma_junction_ids_distinct(rest);
        if is_junction(nodes.last()) {
            let r = junction_ids(rest);
            if r.contains(nodes.last().id) {
                lemma_junction_ids_from(rest, nodes.last().id);
                let k = choose|k: int| 0 <= k < rest.len() && (#[trigger] rest[k]).id == nodes.last().id;
                assert(nodes[k] == rest[k]);
                assert(nodes[k].id != nodes[nodes.len() - 1].id);
            }
            assert forall|i: int, j: int| 0 <= i < j < r.push(nodes.last().id).len() implies r.push(nodes.last().id)[i]
                != r.push(nodes.last().id)[j] by {
                if j == r.len() {
                    assert(r.contains(r[i]));
                }
            }
        }
    }
}

/// `append_new` brings in no id twice.
proof fn lemma_append_new_distinct(c: Seq<i64>, extra: Seq<i64>)
    requires
        c.no_duplicates(),
    ensures
        append_new(c, extra).no_duplicates(),
    decreases extra.len(),
{
    if extra.len() > 0 {
        lemma_append_new_distinct(c, extra.drop_last());
        let r = append_new(c, extra.drop_last());
        if !r.contains(extra.last()) {
            assert forall|i: int, j: int| 0 <= i < j < r.push(extra.last()).len() implies r.push(extra.last())[i]
                != r.push(extra.last())[j] by {
                if j == r.len() {
                    assert(r.contains(r[i]));
                }
            }
        }
    }
}

/// Landmarks are never chosen twice and never more than asked for, when the
/// nodes have distinct ids, as a graph's nodes do.
pub proof fn lemma_landmarks_distinct(nodes: Seq<Node>, ways: Seq<Way>, grid: Seq<i64>, count: nat)
    requires
        forall|i: int, j: int| 0 <= i < j < nodes.len() ==> (#[trigger] nodes[i]).id != (#[trigger] nodes[j]).id,
    ensures
        landmarks(nodes, ways, grid, count).no_duplicates(),
        landmarks(nodes, ways, grid, count).len() <= count,
{
    lemma_junction_ids_distinct(nodes);
    let c1 = junction_ids(nodes);
    lemma_append_new_distinct(c1, grid);
    let c2 = append_new(c1, grid);
    let kn = known_ids(degree_order(all_refs(ways)), nodes);
    lemma_append_new_distinct(c2, kn);
    let full = append_new(c2, kn);
    if full.len() > count {
        let t = full.take(count as int);
        assert forall|i: int, j: int| 0 <= i < j < t.len() implies t[i] != t[j] by {
            assert(t[i] == full[i] && t[j] == full[j]);
        }
    }
}

/// No more landmarks are chosen than asked for.
proof fn lemma_landmarks_len(nodes: Seq<Node>, ways: Seq<Way>, grid: Seq<i64>, count: nat)
    ensures
        landmarks(nodes, ways, grid, count).len() <= count,
{
}

/// Landmarks are node ids, when the grid picks are.
pub proof fn lemma_landmarks_are_nodes(nodes: Seq<Node>, ways: Seq<Way>, grid: Seq<i64>, count: nat)
    requires
        forall|i: int| 0 <= i < grid.len() ==> has_node(nodes, #[trigger] grid[i]),
    ensures
        forall|j: int| 0 <= j < landmarks(nodes, ways, grid, count).len() ==> has_node(
            nodes,
            #[trigger] landmarks(nodes, ways, grid, count)[j],
        ),
{
    let full = append_new(append_new(junction_ids(nodes), grid), known_ids(degree_order(all_refs(ways)), nodes));
    lemma_full_are_nodes(nodes, ways, grid);
    let l = landmarks(nodes, ways, grid, count);
    assert forall|j: int| 0 <= j < l.len() implies has_node(nodes, #[trigger] l[j]) by {
        assert(l[j] == full[j]);
        assert(full.contains(full[j]));
    }
}

/// Every id of the full candidate list is a node id, when the grid picks are.
proof fn lemma_full_are_nodes(nodes: Seq<Node>, ways: Seq<Way>, grid: Seq<i64>)
    requires
        forall|i: int| 0 <= i < grid.len() ==> has_node(nodes, #[trigger] grid[i]),
    ensures
        forall|x: i64| append_new(append_new(junction_ids(nodes), grid), known_ids(degree_order(all_refs(ways)), nodes))
            .contains(x) ==> has_node(nodes, x),
{
    let c1 = junction_ids(nodes);
    let kn = known_ids(degree_order(all_refs(ways)), nodes);
    assert forall|x: i64| append_new(append_new(c1, grid), kn).contains(x) implies has_node(nodes, x) by {
        lemma_append_new_contains(append_new(c1, grid), kn, x);
        lemma_append_new_contains(c1, grid, x);
        if c1.contains(x) {
            lemma_junction_ids_from(nodes, x);
        } else if grid.contains(x) {
            let i = choose|i: int| 0 <= i < grid.len() && grid[i] == x;
            assert(has_node(nodes, grid[i]));
        } else {
            let ks = degree_order(all_refs(ways)).filter(is_known(nodes));
            let i = choose|i: int| 0 <= i < ks.len() && ks[i] == x;
            degree_order(all_refs(ways)).lemma_filter_pred(is_known(nodes), i);
        }
    }
}

/// `append_new` holds what it extends and what it adds.
proof fn lemma_append_new_contains(c: Seq<i64>, extra: Seq<i64>, x: i64)
    ensures
        append_new(c, extra).contains(x) <==> (c.contains(x) || extra.contains(x)),
    decreases extra.len(),
{
    if extra.len() > 0 {
        lemma_append_new_contains(c, extra.drop_last(), x);
        let r = append_new(c, extra.drop_last());
        if extra.drop_last().contains(x) {
            let i = choose|i: int| 0 <= i < extra.drop_last().len() && extra.drop_last()[i] == x;
            assert(extra[i] == x);
        }
        if extra.contains(x) && x != extra.last() {
            let i = choose|i: int| 0 <= i < extra.len() && extra[i] == x;
            assert(extra.drop_last()[i] == x);
        }
        if !r.contains(extra.last()) {
            if r.push(extra.last()).contains(x) && x != extra.last() {
                let i = choose|i: int| 0 <= i < r.push(extra.last()).len() && r.push(extra.last())[i] == x;
                assert(r[i] == x);
            }
            if r.contains(x) {
                let i = choose|i: int| 0 <= i < r.len() && r[i] == x;
                assert(r.push(extra.last())[i] == x);
            }
            assert(r.push(extra.last())[r.len() as int] == extra.last());
        }
        assert(extra[extra.len() - 1] == extra.last());
    }
}

/// An id that occurs in `s` occurs at least once.
proof fn lemma_occurrences_positive(s: Seq<i64>, x: i64)
    requires
        s.contains(x),
    ensures
        occurrences(s, x) >= 1,
    decreases s.len(),
{
    if s.last() != x {
        let i = choose|i: int| 0 <= i < s.len() && s[i] == x;
        assert(s.drop_last()[i] == x);
        lemma_occurrences_positive(s.drop_last(), x);
    }
}

/// The degree order lists every referenced id.
proof fn lemma_degree_order_complete(refs: Seq<i64>, x: i64)
    requires
        refs.contains(x),
    ensures
        degree_order(refs).contains(x),
{
    lemma_occurrences_positive(refs, x);
    lemma_occurrences_bound(refs, x);
    lemma_groups_down_complete(refs, refs.len(), x);
}

proof fn lemma_groups_down_complete(refs: Seq<i64>, top: nat, x: i64)
    requires
        refs.contains(x),
        1 <= occurrences(refs, x) <= top,
    ensures
        groups_down(refs, top).contains(x),
    decreases top,
{
    let d = occurrences(refs, x);
    if d == top {
        let u = append_new(seq![], refs);
        lemma_append_new_contains(seq![], refs, x);
        let i = choose|i: int| 0 <= i < u.len() && u[i] == x;
        assert(of_degree(refs, d)(u[i]));
        u.lemma_filter_contains(of_degree(refs, d), i);
        let g = degree_group(refs, top);
        let j = choose|j: int| 0 <= j < g.len() && g[j] == x;
        assert((g + groups_down(refs, (top - 1) as nat))[j] == x);
    } else {
        lemma_groups_down_complete(refs, (top - 1) as nat, x);
        let g = degree_group(refs, top);
        let rest = groups_down(refs, (top - 1) as nat);
        let j = choose|j: int| 0 <= j < rest.len() && rest[j] == x;
        assert((g + rest)[g.len() + j] == x);
    }
}

/// An id referenced by some way occurs among all references.
proof fn lemma_all_refs_complete(ways: Seq<Way>, w: int, j: int)
    requires
        0 <= w < ways.len(),
        0 <= j < ways[w].node_refs@.len(),
    ensures
        all_refs(ways).contains(ways[w].node_refs@[j]),
    decreases ways.len(),
{
    let x = ways[w].node_refs@[j];
    let pre = all_refs(ways.drop_last());
    if w == ways.len() - 1 {
        assert((pre + ways.last().node_refs@)[pre.len() + j] == x);
    } else {
        assert(ways.drop_last()[w] == ways[w]);
        lemma_all_refs_complete(ways.drop_last(), w, j);
        let i = choose|i: int| 0 <= i < pre.len() && pre[i] == x;
        assert((pre + ways.last().node_refs@)[i] == x);
    }
}

/// When the nodes have distinct ids, the grid picks are node ids and every
/// node is referenced by some way, as many landmarks are chosen as asked
/// for, or every node when there are fewer.
pub proof fn lemma_landmarks_count(nodes: Seq<Node>, ways: Seq<Way>, grid: Seq<i64>, count: nat)
    requires
        forall|i: int, j: int| 0 <= i < j < nodes.len() ==> (#[trigger] nodes[i]).id != (#[trigger] nodes[j]).id,
        forall|i: int| 0 <= i < grid.len() ==> has_node(nodes, #[trigger] grid[i]),
        forall|k: int| 0 <= k < nodes.len() ==> exists|w: int, j: int|
            0 <= w < ways.len() && 0 <= j < ways[w].node_refs@.len() && #[trigger] ways[w].node_refs@[j] == (
            #[trigger] nodes[k]).id,
    ensures
        landmarks(nodes, ways, grid, count).len() == if count <= nodes.len() {
            count as int
        } else {
            nodes.len() as int
        },
{
    lemma_junction_ids_distinct(nodes);
    let c1 = junction_ids(nodes);
    lemma_append_new_distinct(c1, grid);
    let c2 = append_new(c1, grid);
    let kn = known_ids(degree_order(all_refs(ways)), nodes);
    lemma_append_new_distinct(c2, kn);
    let full = append_new(c2, kn);
    lemma_full_are_nodes(nodes, ways, grid);
    let ids = nodes.map_values(|n: Node| n.id);
    assert(ids.no_duplicates()) by {
        assert forall|i: int, j: int| 0 <= i < ids.len() && 0 <= j < ids.len() && i != j implies ids[i] != ids[j] by {
            if i < j {
                assert(nodes[i].id != nodes[j].id);
            } else {
                assert(nodes[j].id != nodes[i].id);
            }
        }
    }
    assert(full.to_set() =~= ids.to_set()) by {
        assert forall|x: i64| full.to_set().contains(x) implies ids.to_set().contains(x) by {
            assert(full.contains(x));
            assert(has_node(nodes, x));
            let k = choose|k: int| 0 <= k < nodes.len() && (#[trigger] nodes[k]).id == x;
            assert(ids[k] == x);
        }
        assert forall|x: i64| ids.to_set().contains(x) implies full.to_set().contains(x) by {
            let k = choose|k: int| 0 <= k < ids.len() && ids[k] == x;
            assert(nodes[k].id == x);
            let (w, j) = choose|w: int, j: int|
                0 <= w < ways.len() && 0 <= j < ways[w].node_refs@.len() && #[trigger] ways[w].node_refs@[j] == (
                #[trigger] nodes[k]).id;
            lemma_all_refs_complete(ways, w, j);
            lemma_degree_order_complete(all_refs(ways), x);
            let dord = degree_order(all_refs(ways));
            let i = choose|i: int| 0 <= i < dord.len() && dord[i] == x;
            assert(is_known(nodes)(dord[i])) by {
                assert(nodes[k].id == x);
            }
            dord.lemma_filter_contains(is_known(nodes), i);
            lemma_append_new_contains(c2, kn, x);
        }
    }
    full.unique_seq_to_set();
    ids.unique_seq_to_set();
}

/// Whether a node is a junction.
fn is_junction_node(node: &Node) -> (b: bool)
    ensures
        b == is_junction(*node),
{
    match get_tag(&node.tags, "highway") {
        Some(v) => str_eq(v.as_str(), "motorway_junction") || str_eq(v.as_str(), "crossing"),
        None => false,
    }
}

/// Whether `c` holds `id`.
fn holds_id(c: &Vec<i64>, id: i64) -> (b: bool)
    ensures
        b == c@.contains(id),
{
    let mut i: usize = 0;
    while i < c.len()
        invariant
            i <= c@.len(),
            forall|k: int| 0 <= k < i ==> c@[k] != id,
        decreases c@.len() - i,
    {
        if c[i] == id {
            return true;
        }
        i = i + 1;
    }
    false
}

/// Appends the ids of `extra` that `c` does not hold yet.
fn push_new(c: &mut Vec<i64>, extra: &Vec<i64>)
    ensures
        final(c)@ == append_new(old(c)@, extra@),
{
    let ghost c0 = c@;
    let mut i: usize = 0;
    while i < extra.len()
        invariant
            i <= extra@.len(),
            c@ == append_new(c0, extra@.take(i as int)),
        decreases extra@.len() - i,
    {
        proof {
            assert(extra@.take(i + 1).drop_last() == extra@.take(i as int));
        }
        let x = extra[i];
        if !holds_id(c, x) {
            c.push(x);
        }
        i = i + 1;
    }
    assert(extra@.take(extra@.len() as int) == extra@);
}

/// The ids of the junction nodes, in node order.
fn collect_junctions(nodes: &Vec<Node>) -> (r: Vec<i64>)
    ensures
        r@ == junction_ids(nodes@),
{
    let mut r: Vec<i64> = Vec::new();
    let mut i: usize = 0;
    while i < nodes.len()
        invariant
            i <= nodes@.len(),
            r@ == junction_ids(nodes@.take(i as int)),
        decreases nodes@.len() - i,
    {
        proof {
            assert(nodes@.take(i + 1).drop_last() == nodes@.take(i as int));
        }
        if is_junction_node(&nodes[i]) {
            r.push(nodes[i].id);
        }
        i = i + 1;
    }
    assert(nodes@.take(nodes@.len() as int) == nodes@);
    r
}

/// `append_new` over two pieces is `append_new` over each in turn.
proof fn lemma_append_new_add(c: Seq<i64>, a: Seq<i64>, b: Seq<i64>)
    ensures
        append_new(c, a + b) == append_new(append_new(c, a), b),
    decreases b.len(),
{
    if b.len() == 0 {
        assert(a + b == a);
    } else {
        assert((a + b).drop_last() == a + b.drop_last());
        assert((a + b).last() == b.last());
        lemma_append_new_add(c, a, b.drop_last());
    }
}

/// What extends a sequence of at least `count` ids keeps its first `count`.
proof fn lemma_at_most_prefix(p: Seq<i64>, s: Seq<i64>, count: nat)
    requires
        s.len() >= p.len(),
        s.take(p.len() as int) == p,
        p.len() >= count,
    ensures
        at_most(s, count) == at_most(p, count),
{
    assert forall|i: int| 0 <= i < count implies s[i] == p[i] by {
        assert(s.take(p.len() as int)[i] == s[i]);
    }
    assert(at_most(s, count) =~= at_most(p, count));
}

/// No id occurs more often than the sequence is long.
proof fn lemma_occurrences_bound(s: Seq<i64>, x: i64)
    ensures
        occurrences(s, x) <= s.len(),
    decreases s.len(),
{
    if s.len() > 0 {
        lemma_occurrences_bound(s.drop_last(), x);
    }
}

/// Degrees above the highest give empty groups.
proof fn lemma_groups_above(refs: Seq<i64>, top: nat, n: nat)
    requires
        top <= n,
        forall|k: int|
            0 <= k < append_new(seq![], refs).len() ==> occurrences(
                refs,
                #[trigger] append_new(seq![], refs)[k],
            ) <= top,
    ensures
        groups_down(refs, n) == groups_down(refs, top),
    decreases n,
{
    if n > top {
        let ds = append_new(seq![], refs);
        let g = degree_group(refs, n);
        if g.len() > 0 {
            ds.lemma_filter_pred(of_degree(refs, n), 0);
            assert(g.contains(g[0]));
            ds.lemma_filter_contains_rev(of_degree(refs, n), g[0]);
            let k = choose|k: int| 0 <= k < ds.len() && ds[k] == g[0];
            assert(occurrences(refs, ds[k]) <= top);
        }
        assert(g =~= seq![]);
        lemma_groups_above(refs, top, (n - 1) as nat);
        assert(groups_down(refs, n) =~= groups_down(refs, (n - 1) as nat));
    }
}

/// Every node reference of every way, way after way.
fn flatten_refs(ways: &Vec<Way>) -> (r: Vec<i64>)
    ensures
        r@ == all_refs(ways@),
{
    let mut r: Vec<i64> = Vec::new();
    let mut w: usize = 0;
    while w < ways.len()
        invariant
            w <= ways@.len(),
            r@ == all_refs(ways@.take(w as int)),
        decreases ways@.len() - w,
    {
        let refs = &ways[w].node_refs;
        let ghost base = r@;
        let mut j: usize = 0;
        while j < refs.len()
            invariant
                j <= refs@.len(),
                r@ == base + refs@.take(j as int),
            decreases refs@.len() - j,
        {
            r.push(refs[j]);
            proof {
                assert(base + refs@.take(j + 1) =~= (base + refs@.take(j as int)).push(refs@[j as int]));
            }
            j = j + 1;
        }
        proof {
            assert(ways@.take(w + 1).drop_last() == ways@.take(w as int));
            assert(refs@.take(refs@.len() as int) == refs@);
        }
        w = w + 1;
    }
    assert(ways@.take(ways@.len() as int) == ways@);
    r
}

/// Every id of `refs` once, in order of first reference, beside the number
/// of its references.
#[verifier::spinoff_prover]
fn count_refs(refs: &Vec<i64>) -> (r: (Vec<i64>, Vec<usize>))
    ensures
        r.0@ == append_new(seq![], refs@),
        r.1@.len() == r.0@.len(),
        forall|k: int| 0 <= k < r.0@.len() ==> r.1@[k] == occurrences(refs@, #[trigger] r.0@[k]),
{
    let mut distinct: Vec<i64> = Vec::new();
    let mut counts: Vec<usize> = Vec::new();
    let mut index: HashMap<i64, usize> = HashMap::new();
    let mut i: usize = 0;
    while i < refs.len()
        invariant
            i <= refs@.len(),
            distinct@ == append_new(seq![], refs@.take(i as int)),
            counts@.len() == distinct@.len(),
            forall|k: int|
                0 <= k < distinct@.len() ==> counts@[k] == occurrences(
                    refs@.take(i as int),
                    #[trigger] distinct@[k],
                ),
            forall|k: int|
                0 <= k < distinct@.len() ==> #[trigger] index@.contains_key(distinct@[k])
                    && index@[distinct@[k]] == k,
            forall|x: i64|
                #[trigger] index@.contains_key(x) ==> index@[x] < distinct@.len()
                    && distinct@[index@[x] as int] == x,
        decreases refs@.len() - i,
    {
        let x = refs[i];
        let ghost pre = refs@.take(i as int);
        proof {
            assert(refs@.take(i + 1).drop_last() == pre);
            assert(refs@.take(i + 1).last() == x);
        }
        match index.get(&x) {
            Some(k) => {
                let k = *k;
                proof {
                    lemma_occurrences_bound(pre, x);
                    assert(distinct@.contains(x));
                }
                let c = counts[k] + 1;
                counts.set(k, c);
                proof {
                    assert forall|q: int| 0 <= q < distinct@.len() implies counts@[q] == occurrences(
                        refs@.take(i + 1),
                        #[trigger] distinct@[q],
                    ) by {
                        if distinct@[q] == x {
                            assert(index@[distinct@[q]] == q);
                        }
                    }
                }
            },
            None => {
                proof {
                    if distinct@.contains(x) {
                        let q = choose|q: int| 0 <= q < distinct@.len() && distinct@[q] == x;
                        assert(index@.contains_key(distinct@[q]));
                    }
                }
                let ghost d0 = distinct@;
                let n = distinct.len();
                distinct.push(x);
                counts.push(1);
                index.insert(x, n);
                proof {
                    assert(occurrences(pre, x) == 0) by {
                        lemma_absent_no_occurrences(pre, x);
                    }
                    assert forall|q: int| 0 <= q < distinct@.len() implies counts@[q] == occurrences(
                        refs@.take(i + 1),
                        #[trigger] distinct@[q],
                    ) by {
                        if q < n {
                            assert(distinct@[q] == d0[q]);
                        }
                    }
                    assert forall|q: int| 0 <= q < distinct@.len() implies #[trigger] index@.contains_key(distinct@[q])
                        && index@[distinct@[q]] == q by {
                        if q < n {
                            assert(distinct@[q] == d0[q]);
                            assert(d0[q] != x);
                        } else {
                            assert(distinct@[q] == x);
                        }
                    }
                }
            },
        }
        i = i + 1;
    }
    assert(refs@.take(refs@.len() as int) == refs@);
    (distinct, counts)
}

/// An id that `append_new` from nothing did not collect does not occur.
proof fn lemma_absent_no_occurrences(s: Seq<i64>, x: i64)
    requires
        !append_new(seq![], s).contains(x),
    ensures
        occurrences(s, x) == 0,
    decreases s.len(),
{
    if s.len() > 0 {
        let r = append_new(seq![], s.drop_last());
        if r.contains(x) {
            let q = choose|q: int| 0 <= q < r.len() && r[q] == x;
            if !r.contains(s.last()) {
                assert(r.push(s.last())[q] == x);
            }
        } else {
            if s.last() == x {
                assert(r.push(s.last())[r.len() as int] == x);
            }
            lemma_absent_no_occurrences(s.drop_last(), x);
        }
    }
}

/// Every id the ways reference, by number of references from the most down;
/// ids referenced equally often keep the order of their first reference.
fn order_by_degree(ways: &Vec<Way>) -> (r: Vec<i64>)
    ensures
        r@ == degree_order(all_refs(ways@)),
{
    let flat = flatten_refs(ways);
    let (distinct, counts) = count_refs(&flat);
    let ghost refs = flat@;
    let mut top: usize = 0;
    let mut k: usize = 0;
    while k < counts.len()
        invariant
            k <= counts@.len(),
            counts@.len() == distinct@.len(),
            distinct@ == append_new(seq![], refs),
            forall|q: int| 0 <= q < distinct@.len() ==> counts@[q] == occurrences(refs, #[trigger] distinct@[q]),
            top <= refs.len(),
            forall|q: int| 0 <= q < k ==> counts@[q] <= top,
        decreases counts@.len() - k,
    {
        proof {
            lemma_occurrences_bound(refs, distinct@[k as int]);
        }
        if counts[k] > top {
            top = counts[k];
        }
        k = k + 1;
    }
    proof {
        assert forall|q: int| 0 <= q < distinct@.len() implies occurrences(refs, #[trigger] distinct@[q]) <= top by {
            assert(counts@[q] <= top);
        }
        lemma_groups_above(refs, top as nat, refs.len());
    }
    let mut out: Vec<i64> = Vec::new();
    let mut d: usize = top;
    while d > 0
        invariant
            d <= top,
            counts@.len() == distinct@.len(),
            distinct@ == append_new(seq![], refs),
            forall|q: int| 0 <= q < distinct@.len() ==> counts@[q] == occurrences(refs, #[trigger] distinct@[q]),
            out@ + groups_down(refs, d as nat) == groups_down(refs, top as nat),
        decreases d,
    {
        let ghost base = out@;
        let ghost p = of_degree(refs, d as nat);
        let mut q: usize = 0;
        while q < distinct.len()
            invariant
                q <= distinct@.len(),
                counts@.len() == distinct@.len(),
                forall|x: int| 0 <= x < distinct@.len() ==> counts@[x] == occurrences(refs, #[trigger] distinct@[x]),
                p == of_degree(refs, d as nat),
                out@ == base + distinct@.take(q as int).filter(p),
            decreases distinct@.len() - q,
        {
            proof {
                assert(distinct@.take(q + 1).drop_last() == distinct@.take(q as int));
                assert(distinct@.take(q + 1).last() == distinct@[q as int]);
            }
            let ghost t = distinct@.take(q + 1);
            proof {
                reveal(Seq::filter);
                assert(t.filter(p) == if p(t.last()) {
                    t.drop_last().filter(p).push(t.last())
                } else {
                    t.drop_last().filter(p)
                });
                assert(p(distinct@[q as int]) == (counts@[q as int] == d));
            }
            if counts[q] == d {
                out.push(distinct[q]);
            }
            assert(out@ =~= base + t.filter(p));
            q = q + 1;
        }
        proof {
            assert(distinct@.take(distinct@.len() as int) == distinct@);
            assert(groups_down(refs, d as nat) == degree_group(refs, d as nat) + groups_down(
                refs,
                (d - 1) as nat,
            ));
            assert(out@ + groups_down(refs, (d - 1) as nat) =~= base + groups_down(refs, d as nat));
        }
        d = d - 1;
    }
    assert(out@ + groups_down(refs, 0) =~= out@);
    out
}

/// The set of the nodes' ids.
fn node_id_set(nodes: &Vec<Node>) -> (s: HashSet<i64>)
    ensures
        forall|id: i64| s@.contains(id) == has_node(nodes@, id),
{
    let mut s: HashSet<i64> = HashSet::new();
    let mut i: usize = 0;
    while i < nodes.len()
        invariant
            i <= nodes@.len(),
            forall|id: i64| s@.contains(id) == has_node(nodes@.take(i as int), id),
        decreases nodes@.len() - i,
    {
        let ghost s0 = s@;
        s.insert(nodes[i].id);
        proof {
            assert forall|id: i64| s@.contains(id) == has_node(nodes@.take(i + 1), id) by {
                let t = nodes@.take(i + 1);
                if s0.contains(id) {
                    let j = choose|j: int| 0 <= j < i && (#[trigger] nodes@.take(i as int)[j]).id == id;
                    assert(t[j] == nodes@.take(i as int)[j]);
                } else if id == nodes@[i as int].id {
                    assert(t[i as int] == nodes@[i as int]);
                }
                if has_node(t, id) {
                    let j = choose|j: int| 0 <= j < t.len() && (#[trigger] t[j]).id == id;
                    if j < i {
                        assert(nodes@.take(i as int)[j] == t[j]);
                    }
                }
            }
        }
        i = i + 1;
    }
    assert(nodes@.take(nodes@.len() as int) == nodes@);
    s
}

/// Chooses up to `landmark_count` landmark nodes for distance estimates:
/// the junctions (motorway junctions and crossings) first; while there are
/// too few, the nodes picked from a grid over the graph's extent, passed in as
/// `grid`; while there are still too few, the nodes the ways reference most
/// often. Each id is chosen once.
pub fn precompute_landmarks(graph: &OsmGraph, landmark_count: usize, grid: &Vec<i64>) -> (r: Vec<i64>)
    requires
        forall|i: int| 0 <= i < grid@.len() ==> has_node(graph.nodes@, #[trigger] grid@[i]),
    ensures
        r@ == landmarks(graph.nodes@, graph.ways@, grid@, landmark_count as nat),
        forall|j: int| 0 <= j < r@.len() ==> has_node(graph.nodes@, #[trigger] r@[j]),
        r@.len() <= landmark_count,
{
    proof {
        lemma_landmarks_are_nodes(graph.nodes@, graph.ways@, grid@, landmark_count as nat);
        lemma_landmarks_len(graph.nodes@, graph.ways@, grid@, landmark_count as nat);
    }
    choose_landmarks(graph, landmark_count, grid)
}

/// The landmarks of a graph, as `landmarks` says.
fn choose_landmarks(graph: &OsmGraph, landmark_count: usize, grid: &Vec<i64>) -> (r: Vec<i64>)
    ensures
        r@ == landmarks(graph.nodes@, graph.ways@, grid@, landmark_count as nat),
{
    let ghost nodes = graph.nodes@;
    let ghost c1 = junction_ids(nodes);
    let ghost c2 = append_new(c1, grid@);
    let ghost kn = known_ids(degree_order(all_refs(graph.ways@)), nodes);
    let ghost full = append_new(c2, kn);
    proof {
        lemma_append_new_prefix(c1, grid@);
        lemma_append_new_prefix(c2, kn);
        assert(full.take(c1.len() as int) =~= c1) by {
            assert forall|i: int| 0 <= i < c1.len() implies full[i] == c1[i] by {
                assert(full.take(c2.len() as int)[i] == full[i]);
                assert(c2.take(c1.len() as int)[i] == c2[i]);
            }
        }
    }
    let mut candidates = collect_junctions(&graph.nodes);
    if candidates.len() >= landmark_count {
        proof {
            lemma_at_most_prefix(c1, full, landmark_count as nat);
        }
        candidates.truncate(landmark_count);
        return candidates;
    }
    push_new(&mut candidates, grid);
    if candidates.len() >= landmark_count {
        proof {
            lemma_at_most_prefix(c2, full, landmark_count as nat);
        }
        candidates.truncate(landmark_count);
        return candidates;
    }
    let order = order_by_degree(&graph.ways);
    let ids = node_id_set(&graph.nodes);
    let ghost p = is_known(nodes);
    let mut q: usize = 0;
    while q < order.len()
        invariant
            q <= order@.len(),
            nodes == graph.nodes@,
            p == is_known(nodes),
            forall|id: i64| ids@.contains(id) == has_node(nodes, id),
            candidates@ == append_new(c2, order@.take(q as int).filter(p)),
        ensures
            candidates@ == append_new(c2, order@.take(q as int).filter(p)),
            q == order@.len() || candidates@.len() >= landmark_count,
        decreases order@.len() - q,
    {
        if candidates.len() >= landmark_count {
            break;
        }
        let id = order[q];
        proof {
            assert(order@.take(q + 1).drop_last() == order@.take(q as int));
            assert(order@.take(q + 1).last() == id);
        }
        let ghost t = order@.take(q + 1);
        proof {
            reveal(Seq::filter);
            assert(t.filter(p) == if p(t.last()) {
                t.drop_last().filter(p).push(t.last())
            } else {
                t.drop_last().filter(p)
            });
            assert(p(id) == has_node(nodes, id));
        }
        if ids.contains(&id) && !holds_id(&candidates, id) {
            candidates.push(id);
        }
        proof {
            if p(id) {
                let k = order@.take(q as int).filter(p);
                assert(t.filter(p) == k.push(id));
                assert(t.filter(p).drop_last() == k);
            }
        }
        q = q + 1;
    }
    proof {
        let done = order@.take(q as int).filter(p);
        let rest = order@.skip(q as int).filter(p);
        assert(order@ == order@.take(q as int) + order@.skip(q as int));
        Seq::filter_distributes_over_add(order@.take(q as int), order@.skip(q as int), p);
        assert(kn == done + rest);
        lemma_append_new_add(c2, done, rest);
        lemma_append_new_prefix(candidates@, rest);
        if candidates@.len() >= landmark_count {
            lemma_at_most_prefix(candidates@, full, landmark_count as nat);
        } else {
            assert(order@.take(q as int) == order@);
            assert(rest =~= seq![]) by {
                assert(order@.skip(q as int) =~= seq![]);
            }
        }
    }
    candidates.truncate(landmark_count);
    candidates
}

/// A prefix one longer holds what the shorter one holds and the next id.
proof fn lemma_take_step(all: Seq<i64>, q: int, b: i64)
    requires
        0 <= q < all.len(),
    ensures
        all.take(q + 1).contains(b) <==> (all.take(q).contains(b) || b == all[q]),
{
    let t1 = all.take(q + 1);
    let t0 = all.take(q);
    if t1.contains(b) {
        let k = choose|k: int| 0 <= k < t1.len() && t1[k] == b;
        if k < q {
            assert(t0[k] == b);
        }
    }
    if t0.contains(b) {
        let k = choose|k: int| 0 <= k < t0.len() && t0[k] == b;
        assert(t1[k] == b);
    }
    if b == all[q] {
        assert(t1[q] == b);
    }
}

/// Distances between each pair of different landmarks among the first `p`
/// (as sources) and the first `q` (as targets), where one reaches the other.
pub open spec fn cached_pair(
    adj: Map<i64, Vec<crate::routegraph::RouteEdge>>,
    sources: Seq<i64>,
    targets: Seq<i64>,
    a: i64,
    b: i64,
) -> bool {
    sources.contains(a) && targets.contains(b) && a != b && reachable(adj, a, b)
}

/// The least distance from each landmark to each other landmark that it
/// reaches, by a shortest-distance search from every landmark.
pub fn compute_distance_cache(route_graph: &RouteGraph, landmarks: &[i64]) -> (m: DistanceMatrix)
    requires
        costs_nonnegative(route_graph.adjacency_list@),
    ensures
        forall|a: i64, b: i64| #[trigger] m@.contains_key((a, b)) <==> cached_pair(
            route_graph.adjacency_list@,
            landmarks@,
            landmarks@,
            a,
            b,
        ),
        forall|a: i64, b: i64| #[trigger] m@.contains_key((a, b)) ==> is_shortest(
            route_graph.adjacency_list@,
            a,
            b,
            m@[(a, b)] as int,
        ),
{
    let ghost adj = route_graph.adjacency_list@;
    let ghost all = landmarks@;
    let mut matrix = DistanceMatrix::new();
    let mut p: usize = 0;
    while p < landmarks.len()
        invariant
            adj == route_graph.adjacency_list@,
            all == landmarks@,
            costs_nonnegative(adj),
            p <= all.len(),
            forall|a: i64, b: i64| #[trigger] matrix@.contains_key((a, b)) <==> cached_pair(adj, all.take(p as int), all, a, b),
            forall|a: i64, b: i64| #[trigger] matrix@.contains_key((a, b)) ==> is_shortest(adj, a, b, matrix@[(a, b)] as int),
        decreases all.len() - p,
    {
        let from = landmarks[p];
        let distances = compute_single_source_distances(route_graph, from);
        let ghost before = matrix@;
        let mut q: usize = 0;
        while q < landmarks.len()
            invariant
                adj == route_graph.adjacency_list@,
                all == landmarks@,
                p < all.len(),
                from == all[p as int],
                q <= all.len(),
                forall|v: i64| #[trigger] distances@.contains_key(v) <==> reachable(adj, from, v),
                forall|v: i64| #[trigger] distances@.contains_key(v) ==> is_shortest(adj, from, v, distances@[v] as int),
                forall|a: i64, b: i64| #[trigger] before.contains_key((a, b)) <==> cached_pair(adj, all.take(p as int), all, a, b),
                forall|a: i64, b: i64| #[trigger] before.contains_key((a, b)) ==> is_shortest(adj, a, b, before[(a, b)] as int),
                forall|a: i64, b: i64| #[trigger] matrix@.contains_key((a, b)) <==> (before.contains_key((a, b))
                    || (a == from && all.take(q as int).contains(b) && a != b && reachable(adj, a, b))),
                forall|a: i64, b: i64| #[trigger] matrix@.contains_key((a, b)) ==> is_shortest(adj, a, b, matrix@[(a, b)] as int),
            decreases all.len() - q,
        {
            let to = landmarks[q];
            let ghost m0 = matrix@;
            proof {
                assert(all.take(q + 1) == all.take(q as int).push(to));
            }
            proof {
                assert forall|b: i64| #[trigger] all.take(q + 1).contains(b) <==> (all.take(q as int).contains(b)
                    || b == to) by {
                    lemma_take_step(all, q as int, b);
                }
            }
            if from != to {
                match distances.get(&to) {
                    Some(d) => {
                        matrix.add(from, to, *d);
                        proof {
                            assert forall|a: i64, b: i64| #[trigger] matrix@.contains_key((a, b)) implies is_shortest(adj, a, b, matrix@[(a, b)] as int) by {
                                if (a, b) != (from, to) {
                                    assert(m0.contains_key((a, b)));
                                }
                            }
                        }
                    },
                    None => {},
                }
            }
            q = q + 1;
        }
        proof {
            assert(all.take(q as int) == all);
            assert(all.take(p + 1) == all.take(p as int).push(from));
            assert forall|a: i64, b: i64| #[trigger] matrix@.contains_key((a, b)) <==> cached_pair(adj, all.take(p + 1), all, a, b) by {
                if all.take(p + 1).contains(a) && a != from {
                    let t1 = all.take(p + 1);
                    let k = choose|k: int| 0 <= k < t1.len() && t1[k] == a;
                    assert(all.take(p as int)[k] == a);
                }
                if all.take(p as int).contains(a) {
                    let t0 = all.take(p as int);
                    let k = choose|k: int| 0 <= k < t0.len() && t0[k] == a;
                    assert(all.take(p + 1)[k] == a);
                }
            }
        }
        p = p + 1;
    }
    proof {
        assert(all.take(p as int) == all);
    }
    matrix
}

} // verus!
