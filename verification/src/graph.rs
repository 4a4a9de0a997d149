use vstd::prelude::*;
use std::collections::HashMap;

verus! {

broadcast use vstd::std_specs::hash::group_hash_axioms;

/// A node of a processed routing graph. Its coordinates are kept as the bit
/// patterns of the 64-bit floats they were read as.
#[derive(Debug, Clone, PartialEq, Eq)]
pub struct RouteNode {
    pub id: u32,
    pub external_id: i64,
    pub lat_bits: u64,
    pub lon_bits: u64,
    pub tags: Vec<(u32, u32)>,
}

/// A way of a processed routing graph, by internal node ids.
#[derive(Debug, Clone, PartialEq, Eq)]
pub struct WayInfo {
    pub osm_id: i64,
    pub node_ids: Vec<u32>,
    pub tags: Vec<(u32, u32)>,
}

/// A routing graph in compressed adjacency form: the edges leaving node `i`
/// are `edges[offsets[i] .. offsets[i + 1]]`, each a target and a cost.
pub struct ProcessedGraph {
    pub nodes: Vec<RouteNode>,
    pub ways: Vec<WayInfo>,
    pub offsets: Vec<usize>,
    pub edges: Vec<(u32, u16)>,
    pub string_interner: Vec<String>,
    pub node_id_map: HashMap<i64, u32>,
}

impl ProcessedGraph {
    /// Number of nodes.
    pub open spec fn n(&self) -> nat {
        self.nodes@.len()
    }

    /// External (OSM) id of internal node `i`.
    pub open spec fn ext(&self, i: u32) -> i64 {
        self.nodes@[i as int].external_id
    }

    /// The adjacency layout is sound: offsets are a non-decreasing cover of
    /// the edge list, every edge leads to a node, node `i` has id `i`, and the
    /// id map sends every OSM id to a node with that external id.
    pub open spec fn wf(&self) -> bool {
        &&& self.nodes@.len() < u32::MAX
        &&& self.offsets@.len() == self.nodes@.len() + 1
        &&& self.offsets@[0] == 0
        &&& forall|i: int| 0 <= i < self.nodes@.len() ==> #[trigger] self.offsets@[i] <= self.offsets@[i + 1]
        &&& self.offsets@[self.nodes@.len() as int] == self.edges@.len()
        &&& forall|e: int| 0 <= e < self.edges@.len() ==> (#[trigger] self.edges@[e]).0 < self.nodes@.len()
        &&& forall|i: int| 0 <= i < self.nodes@.len() ==> (#[trigger] self.nodes@[i]).id == i
        &&& forall|k: i64| #[trigger] self.node_id_map@.contains_key(k) ==> self.node_id_map@[k]
            < self.nodes@.len() && self.nodes@[self.node_id_map@[k] as int].external_id == k
    }

    /// The edges leaving node `a`.
    pub open spec fn out_edges(&self, a: u32) -> Seq<(u32, u16)> {
        self.edges@.subrange(self.offsets@[a as int] as int, self.offsets@[a + 1] as int)
    }

    /// There is an edge from `a` to `b`.
    pub open spec fn has_edge(&self, a: u32, b: u32) -> bool {
        exists|e: int| 0 <= e < self.out_edges(a).len() && (#[trigger] self.out_edges(a)[e]).0 == b
    }

    /// An empty graph.
    pub fn new() -> (g: Self)
        ensures
            g.nodes@.len() == 0,
            g.ways@.len() == 0,
            g.offsets@.len() == 0,
            g.edges@.len() == 0,
            g.string_interner@.len() == 0,
            g.node_id_map@.len() == 0,
    {
        ProcessedGraph {
            nodes: Vec::new(),
            ways: Vec::new(),
            offsets: Vec::new(),
            edges: Vec::new(),
            string_interner: Vec::new(),
            node_id_map: HashMap::new(),
        }
    }

    /// The edges leaving node `node_id`.
    pub fn neighbors(&self, node_id: u32) -> (r: &[(u32, u16)])
        requires
            self.wf(),
            node_id < self.n(),
        ensures
            r@ == self.out_edges(node_id),
    {
        proof {
            self.lemma_offsets_bounded(node_id as int);
        }
        let start = self.offsets[node_id as usize];
        let end = self.offsets[node_id as usize + 1];
        &self.edges.as_slice()[start..end]
    }

    /// Whether the graph is well formed: its offsets, edge targets, node ids
    /// and id map agree.
    pub fn is_well_formed(&self) -> (b: bool)
        ensures
            b == self.wf(),
    {
        let n = self.nodes.len();
        if n >= 4294967295usize {
            return false;
        }
        if self.offsets.len() != n + 1 {
            return false;
        }
        if self.offsets[0] != 0 {
            return false;
        }
        let mut i: usize = 0;
        while i < n
            invariant
                n == self.nodes@.len(),
                n < u32::MAX,
                self.offsets@.len() == n + 1,
                i <= n,
                forall|j: int| 0 <= j < i ==> #[trigger] self.offsets@[j] <= self.offsets@[j + 1],
                forall|j: int| 0 <= j < i ==> (#[trigger] self.nodes@[j]).id == j,
            decreases n - i,
        {
            if self.offsets[i] > self.offsets[i + 1] {
                return false;
            }
            if self.nodes[i].id as usize != i {
                return false;
            }
            i = i + 1;
        }
        if self.offsets[n] != self.edges.len() {
            return false;
        }
        let mut e: usize = 0;
        while e < self.edges.len()
            invariant
                n == self.nodes@.len(),
                n < u32::MAX,
                e <= self.edges@.len(),
                forall|j: int| 0 <= j < e ==> (#[trigger] self.edges@[j]).0 < n,
            decreases self.edges@.len() - e,
        {
            if self.edges[e].0 as usize >= n {
                return false;
            }
            e = e + 1;
        }
        for k in it: self.node_id_map.keys()
            invariant
                n == self.nodes@.len(),
                n < u32::MAX,
                it.seq().unref().to_set() == self.node_id_map@.dom(),
                forall|key: i64| #[trigger] self.node_id_map@.contains_key(key) ==> (self.node_id_map@[key] < n
                    && self.nodes@[self.node_id_map@[key] as int].external_id == key) || exists|j: int|
                    it.index() <= j < it.seq().len() && *#[trigger] it.seq()[j] == key,
        {
            match self.node_id_map.get(k) {
                Some(v) => {
                    if *v as usize >= n || self.nodes[*v as usize].external_id != *k {
                        return false;
                    }
                },
                None => {
                    return false;
                },
            }
        }
        true
    }

    /// Rebuilds the map from OSM ids to internal ids: each OSM id maps to the
    /// last node that carries it.
    pub fn build_indices(&mut self)
        requires
            forall|i: int| 0 <= i < old(self).nodes@.len() ==> (#[trigger] old(self).nodes@[i]).id == i,
        ensures
            final(self).nodes == old(self).nodes,
            final(self).ways == old(self).ways,
            final(self).offsets == old(self).offsets,
            final(self).edges == old(self).edges,
            final(self).string_interner == old(self).string_interner,
            forall|k: i64| #[trigger] final(self).node_id_map@.contains_key(k) <==> exists|i: int|
                0 <= i < final(self).nodes@.len() && final(self).nodes@[i].external_id == k,
            forall|k: i64| #[trigger] final(self).node_id_map@.contains_key(k) ==> {
                let i = final(self).node_id_map@[k] as int;
                &&& 0 <= i < final(self).nodes@.len()
                &&& final(self).nodes@[i].external_id == k
                &&& forall|j: int| i < j < final(self).nodes@.len() ==> final(self).nodes@[j].external_id != k
            },
    {
        let mut map: HashMap<i64, u32> = HashMap::new();
        let mut i: usize = 0;
        while i < self.nodes.len()
            invariant
                i <= self.nodes@.len(),
                forall|x: int| 0 <= x < self.nodes@.len() ==> (#[trigger] self.nodes@[x]).id == x,
                forall|k: i64| #[trigger] map@.contains_key(k) <==> exists|x: int|
                    0 <= x < i && self.nodes@[x].external_id == k,
                forall|k: i64| #[trigger] map@.contains_key(k) ==> {
                    let x = map@[k] as int;
                    &&& 0 <= x < i
                    &&& self.nodes@[x].external_id == k
                    &&& forall|j: int| x < j < i ==> self.nodes@[j].external_id != k
                },
            decreases self.nodes@.len() - i,
        {
            let n = &self.nodes[i];
            map.insert(n.external_id, n.id);
            proof {
                let m = map@;
                assert forall|k: i64| #[trigger] m.contains_key(k) implies exists|x: int|
                    0 <= x < i + 1 && self.nodes@[x].external_id == k by {
                    if k == self.nodes@[i as int].external_id {
                        assert(self.nodes@[i as int].external_id == k);
                    }
                }
            }
            i = i + 1;
        }
        self.node_id_map = map;
    }

    /// Each node's edges lie inside the edge list.
    pub proof fn lemma_offsets_bounded(&self, i: int)
        requires
            self.wf(),
            0 <= i < self.n(),
        ensures
            self.offsets@[i] <= self.offsets@[i + 1] <= self.edges@.len(),
        decreases self.n() - i,
    {
        if i + 1 < self.n() {
            self.lemma_offsets_bounded(i + 1);
        }
    }
}


/// The map from OSM ids matches the nodes: it holds exactly the OSM ids of
/// the nodes, each mapped to the last node that carries it.
pub open spec fn ids_indexed(g: ProcessedGraph) -> bool {
    &&& forall|k: i64| #[trigger] g.node_id_map@.contains_key(k) <==> exists|i: int|
        0 <= i < g.nodes@.len() && g.nodes@[i].external_id == k
    &&& forall|k: i64| #[trigger] g.node_id_map@.contains_key(k) ==> {
        let i = g.node_id_map@[k] as int;
        &&& 0 <= i < g.nodes@.len()
        &&& g.nodes@[i].external_id == k
        &&& forall|j: int| i < j < g.nodes@.len() ==> g.nodes@[j].external_id != k
    }
}

/// The routing graphs of all profiles, by profile id.
pub struct GraphContainer {
    pub profiles: Vec<(String, ProcessedGraph)>,
}

impl GraphContainer {
    /// Every profile's graph is sound.
    pub open spec fn wf(&self) -> bool {
        forall|i: int| 0 <= i < self.profiles@.len() ==> (#[trigger] self.profiles@[i]).1.wf()
    }

    /// The graph of the first profile called `id`.
    pub open spec fn profile_index(&self, id: Seq<char>) -> Option<int> {
        if exists|i: int| 0 <= i < self.profiles@.len() && (#[trigger] self.profiles@[i]).0@ == id {
            Some(
                choose|i: int|
                    0 <= i < self.profiles@.len() && (#[trigger] self.profiles@[i]).0@ == id && forall|
                        j: int,
                    | 0 <= j < i ==> self.profiles@[j].0@ != id,
            )
        } else {
            None
        }
    }

    pub fn new() -> (c: Self)
        ensures
            c.profiles@.len() == 0,
            c.wf(),
    {
        GraphContainer { profiles: Vec::new() }
    }

    /// Whether every profile's graph is well formed.
    pub fn is_well_formed(&self) -> (b: bool)
        ensures
            b == self.wf(),
    {
        let mut i: usize = 0;
        while i < self.profiles.len()
            invariant
                i <= self.profiles@.len(),
                forall|j: int| 0 <= j < i ==> (#[trigger] self.profiles@[j]).1.wf(),
            decreases self.profiles@.len() - i,
        {
            if !self.profiles[i].1.is_well_formed() {
                return false;
            }
            i = i + 1;
        }
        true
    }

    /// Finds a profile's graph by id.
    pub fn find_profile(&self, id: &str) -> (r: Option<usize>)
        ensures
            match r {
                Some(i) => self.profile_index(id@) == Some(i as int) && i < self.profiles@.len()
                    && self.profiles@[i as int].0@ == id@,
                None => self.profile_index(id@) is None,
            },
    {
        let mut i: usize = 0;
        while i < self.profiles.len()
            invariant
                i <= self.profiles@.len(),
                forall|j: int| 0 <= j < i ==> (#[trigger] self.profiles@[j]).0@ != id@,
            decreases self.profiles@.len() - i,
        {
            if crate::text::str_eq(self.profiles[i].0.as_str(), id) {
                proof {
                    let c = choose|c: int|
                        0 <= c < self.profiles@.len() && (#[trigger] self.profiles@[c]).0@ == id@ && forall|
                            j: int,
                        | 0 <= j < c ==> self.profiles@[j].0@ != id@;
                    assert(self.profiles@[i as int].0@ == id@);
                    if c < i {
                        assert(self.profiles@[c].0@ != id@);
                    }
                    if c > i {
                        assert(self.profiles@[i as int].0@ != id@);
                    }
                }
                return Some(i);
            }
            i = i + 1;
        }
        None
    }

    /// Rebuilds the id maps of all graphs.
    pub fn build_all_indices(&mut self)
        requires
            forall|p: int| #![trigger old(self).profiles@[p]] 0 <= p < old(self).profiles@.len() ==> forall|i: int|
                0 <= i < old(self).profiles@[p].1.nodes@.len() ==> (#[trigger] old(self).profiles@[p].1.nodes@[i]).id == i,
        ensures
            final(self).profiles@.len() == old(self).profiles@.len(),
            forall|p: int| 0 <= p < final(self).profiles@.len() ==> (#[trigger] final(self).profiles@[p]).0 == old(self).profiles@[p].0
                && final(self).profiles@[p].1.nodes == old(self).profiles@[p].1.nodes
                && final(self).profiles@[p].1.edges == old(self).profiles@[p].1.edges
                && final(self).profiles@[p].1.offsets == old(self).profiles@[p].1.offsets
                && final(self).profiles@[p].1.ways == old(self).profiles@[p].1.ways
                && final(self).profiles@[p].1.string_interner == old(self).profiles@[p].1.string_interner
                && ids_indexed(final(self).profiles@[p].1),
    {
        let n = self.profiles.len();
        let mut done: Vec<(String, ProcessedGraph)> = Vec::new();
        let mut taken: Vec<(String, ProcessedGraph)> = Vec::new();
        std::mem::swap(&mut taken, &mut self.profiles);
        let ghost orig = taken@;
        let mut rest: Vec<(String, ProcessedGraph)> = Vec::new();
        let mut k: usize = 0;
        while k < n
            invariant
                n == orig.len(),
                k <= n,
                taken@ == orig.subrange(0, n - k),
                rest@.len() == k,
                forall|p: int| 0 <= p < k ==> #[trigger] rest@[p] == orig[n - 1 - p],
            decreases n - k,
        {
            let item = taken.pop().unwrap();
            rest.push(item);
            k = k + 1;
        }
        let mut k: usize = 0;
        while k < n
            invariant
                n == orig.len(),
                k <= n,
                rest@.len() == n - k,
                done@.len() == k,
                forall|p: int| 0 <= p < n - k ==> #[trigger] rest@[p] == orig[n - 1 - p],
                forall|p: int| #![trigger orig[p]] 0 <= p < n ==> forall|i: int|
                    0 <= i < orig[p].1.nodes@.len() ==> (#[trigger] orig[p].1.nodes@[i]).id == i,
                forall|p: int| 0 <= p < k ==> (#[trigger] done@[p]).0 == orig[p].0
                    && done@[p].1.nodes == orig[p].1.nodes
                    && done@[p].1.edges == orig[p].1.edges
                    && done@[p].1.offsets == orig[p].1.offsets
                    && done@[p].1.ways == orig[p].1.ways
                    && done@[p].1.string_interner == orig[p].1.string_interner
                    && ids_indexed(done@[p].1),
            decreases n - k,
        {
            let (name, mut g) = rest.pop().unwrap();
            assert(g == orig[k as int].1);
            g.build_indices();
            assert(ids_indexed(g));
            done.push((name, g));
            k = k + 1;
        }
        self.profiles = done;
    }
}

} // verus!
