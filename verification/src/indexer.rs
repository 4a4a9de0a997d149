use vstd::prelude::*;
use std::collections::{HashMap, HashSet};
use crate::osm::{OsmGraph, Profile};
use crate::text::{starts_with, str_eq};
use crate::types::{get_tag, tag_value, Node, Relation, Way};
use crate::turns::{
    classify_restriction, distinct_strings_of, distinct_trimmed_pieces, find_member, member_ref,
    restriction_kind_of, trimmed_split, TurnRestriction, TurnRestrictionData,
};

verus! {

broadcast use vstd::std_specs::hash::group_hash_axioms;

/// The tag `key` reads `yes` or `designated`.
pub open spec fn grants(tags: Seq<(String, String)>, key: Seq<char>) -> bool {
    tag_value(tags, key) matches Some(v) && (v == "yes"@ || v == "designated"@)
}

/// The access keys that speak for a vehicle type, the most specific first.
pub open spec fn vehicle_keys(vt: Seq<char>) -> Seq<Seq<char>> {
    if vt == "foot"@ {
        seq!["foot"@]
    } else if vt == "bicycle"@ {
        seq!["bicycle"@]
    } else if vt == "motorcar"@ {
        seq!["motorcar"@]
    } else if vt == "motorcycle"@ {
        seq!["motorcycle"@]
    } else if vt == "psv"@ {
        seq!["psv"@, "bus"@, "minibus"@, "tourist_bus"@, "coach"@]
    } else if vt == "train"@ {
        seq!["train"@]
    } else if vt == "subway"@ {
        seq!["subway"@]
    } else if vt == "tram"@ {
        seq!["tram"@]
    } else {
        seq![]
    }
}

/// The value of the first of `keys` that the tags set.
pub open spec fn first_set(tags: Seq<(String, String)>, keys: Seq<Seq<char>>) -> Option<Seq<char>>
    decreases keys.len(),
{
    if keys.len() == 0 {
        None
    } else {
        match tag_value(tags, keys[0]) {
            Some(v) => Some(v),
            None => first_set(tags, keys.drop_first()),
        }
    }
}

/// A way stays in the graph: it carries the profile's key, and its access
/// tags let the profile's vehicle type through. Where `access=no`, only an
/// explicit `yes` or `designated` for the vehicle lets it through; else a
/// vehicle tag of `no`, `permissive` or `private` keeps it out.
pub open spec fn way_kept(profile: Profile, way: Way) -> bool {
    let tags = way.tags@;
    let has_key = tag_value(tags, profile.key@) is Some;
    match profile.vehicle_type {
        None => has_key,
        Some(vt) => {
            let keys = vehicle_keys(vt@);
            if tag_value(tags, "access"@) == Some("no"@) {
                exists|k: int| 0 <= k < keys.len() && grants(tags, #[trigger] keys[k])
            } else {
                has_key && !(first_set(tags, keys) matches Some(v) && (v == "no"@ || v == "permissive"@
                    || v == "private"@))
            }
        },
    }
}

/// The ways that stay, in order.
pub open spec fn kept_ways(profile: Profile, ways: Seq<Way>) -> Seq<Way>
    decreases ways.len(),
{
    if ways.len() == 0 {
        Seq::empty()
    } else if way_kept(profile, ways.last()) {
        kept_ways(profile, ways.drop_last()).push(ways.last())
    } else {
        kept_ways(profile, ways.drop_last())
    }
}

/// One of the first `i` ways passes through node `x`.
pub open spec fn on_some_way(ways: Seq<Way>, i: int, x: i64) -> bool {
    exists|w: int, k: int|
        0 <= w < i && 0 <= k < ways[w].node_refs@.len() && #[trigger] ways[w].node_refs@[k] == x
}

/// The nodes that some way passes through, in order.
pub open spec fn used_nodes(nodes: Seq<Node>, ways: Seq<Way>) -> Seq<Node>
    decreases nodes.len(),
{
    if nodes.len() == 0 {
        Seq::empty()
    } else if on_some_way(ways, ways.len() as int, nodes.last().id) {
        used_nodes(nodes.drop_last(), ways).push(nodes.last())
    } else {
        used_nodes(nodes.drop_last(), ways)
    }
}

/// A relation of type `restriction`.
pub open spec fn is_restriction_relation(rel: Relation) -> bool {
    tag_value(rel.tags@, "type"@) == Some("restriction"@)
}

/// The restriction relations, in order.
pub open spec fn restriction_relations(rels: Seq<Relation>) -> Seq<Relation>
    decreases rels.len(),
{
    if rels.len() == 0 {
        Seq::empty()
    } else if is_restriction_relation(rels.last()) {
        restriction_relations(rels.drop_last()).push(rels.last())
    } else {
        restriction_relations(rels.drop_last())
    }
}

fn grants_exec(tags: &Vec<(String, String)>, key: &str) -> (b: bool)
    ensures
        b == grants(tags@, key@),
{
    proof {
        reveal_strlit("yes");
        reveal_strlit("designated");
    }
    match get_tag(tags, key) {
        Some(v) => str_eq(v.as_str(), "yes") || str_eq(v.as_str(), "designated"),
        None => false,
    }
}

fn vehicle_keys_exec(vt: &str) -> (r: Vec<&'static str>)
    ensures
        r@.len() == vehicle_keys(vt@).len(),
        forall|k: int| 0 <= k < r@.len() ==> (#[trigger] r@[k])@ == vehicle_keys(vt@)[k],
{
    proof {
        reveal_strlit("foot");
        reveal_strlit("bicycle");
        reveal_strlit("motorcar");
        reveal_strlit("motorcycle");
        reveal_strlit("psv");
        reveal_strlit("bus");
        reveal_strlit("minibus");
        reveal_strlit("tourist_bus");
        reveal_strlit("coach");
        reveal_strlit("train");
        reveal_strlit("subway");
        reveal_strlit("tram");
    }
    let mut r: Vec<&'static str> = Vec::new();
    if str_eq(vt, "foot") {
        r.push("foot");
    } else if str_eq(vt, "bicycle") {
        r.push("bicycle");
    } else if str_eq(vt, "motorcar") {
        r.push("motorcar");
    } else if str_eq(vt, "motorcycle") {
        r.push("motorcycle");
    } else if str_eq(vt, "psv") {
        r.push("psv");
        r.push("bus");
        r.push("minibus");
        r.push("tourist_bus");
        r.push("coach");
    } else if str_eq(vt, "train") {
        r.push("train");
    } else if str_eq(vt, "subway") {
        r.push("subway");
    } else if str_eq(vt, "tram") {
        r.push("tram");
    }
    r
}

proof fn lemma_first_set_skip(tags: Seq<(String, String)>, keys: Seq<Seq<char>>, i: int)
    requires
        0 <= i < keys.len(),
        tag_value(tags, keys[i]) is None,
    ensures
        first_set(tags, keys.subrange(i, keys.len() as int)) == first_set(tags, keys.subrange(i + 1, keys.len() as int)),
{
    let s = keys.subrange(i, keys.len() as int);
    assert(s[0] == keys[i]);
    assert(s.drop_first() == keys.subrange(i + 1, keys.len() as int));
}

/// Whether a way stays in the graph under `profile`.
pub fn is_way_kept(profile: &Profile, way: &Way) -> (b: bool)
    ensures
        b == way_kept(*profile, *way),
{
    proof {
        reveal_strlit("access");
        reveal_strlit("no");
        reveal_strlit("permissive");
        reveal_strlit("private");
    }
    let has_key = get_tag(&way.tags, profile.key.as_str()).is_some();
    let vt = match &profile.vehicle_type {
        None => {
            return has_key;
        },
        Some(vt) => vt,
    };
    let keys = vehicle_keys_exec(vt.as_str());
    let ghost skeys = vehicle_keys(vt@);
    let access_no = match get_tag(&way.tags, "access") {
        Some(v) => str_eq(v.as_str(), "no"),
        None => false,
    };
    if access_no {
        let mut k: usize = 0;
        while k < keys.len()
            invariant
                k <= keys@.len(),
                keys@.len() == skeys.len(),
                forall|j: int| 0 <= j < keys@.len() ==> (#[trigger] keys@[j])@ == skeys[j],
                forall|j: int| 0 <= j < k ==> !grants(way.tags@, #[trigger] skeys[j]),
                tag_value(way.tags@, "access"@) == Some("no"@),
                profile.vehicle_type == Some(*vt),
                skeys == vehicle_keys(vt@),
            decreases keys@.len() - k,
        {
            if grants_exec(&way.tags, keys[k]) {
                assert(grants(way.tags@, skeys[k as int]));
                return true;
            }
            k = k + 1;
        }
        false
    } else {
        let mut k: usize = 0;
        let mut found: Option<&String> = None;
        assert(skeys.subrange(0, skeys.len() as int) == skeys);
        while k < keys.len()
            invariant_except_break
                found is None,
            invariant
                k <= keys@.len(),
                keys@.len() == skeys.len(),
                forall|j: int| 0 <= j < keys@.len() ==> (#[trigger] keys@[j])@ == skeys[j],
                first_set(way.tags@, skeys) == first_set(way.tags@, skeys.subrange(k as int, skeys.len() as int)),
            ensures
                match found {
                    Some(v) => first_set(way.tags@, skeys) == Some(v@),
                    None => first_set(way.tags@, skeys) is None,
                },
            decreases keys@.len() - k,
        {
            match get_tag(&way.tags, keys[k]) {
                Some(v) => {
                    proof {
                        let s = skeys.subrange(k as int, skeys.len() as int);
                        assert(s[0] == skeys[k as int]);
                    }
                    found = Some(v);
                    break;
                },
                None => {
                    proof {
                        lemma_first_set_skip(way.tags@, skeys, k as int);
                    }
                },
            }
            k = k + 1;
        }
        let refused = match found {
            Some(v) => str_eq(v.as_str(), "no") || str_eq(v.as_str(), "permissive") || str_eq(
                v.as_str(),
                "private",
            ),
            None => false,
        };
        has_key && !refused
    }
}

/// `g1` is `g0` filtered by its profile: the ways that the profile routes
/// on, the nodes that one of them passes through, the turn restrictions.
pub open spec fn filtered(g0: OsmGraph, g1: OsmGraph) -> bool {
    &&& g1.profile == g0.profile
    &&& g1.ways@ == kept_ways(g0.profile->0, g0.ways@)
    &&& g1.nodes@ == used_nodes(g0.nodes@, g1.ways@)
    &&& g1.relations@ == restriction_relations(g0.relations@)
}

/// Drops the ways that the profile does not route on, the nodes that no
/// remaining way passes through, and every relation but turn restrictions.
pub fn filter_graph(graph: &mut OsmGraph)
    requires
        old(graph).profile is Some,
    ensures
        filtered(*old(graph), *final(graph)),
        final(graph).profile == old(graph).profile,
        final(graph).ways@ == kept_ways(old(graph).profile->0, old(graph).ways@),
        final(graph).nodes@ == used_nodes(old(graph).nodes@, final(graph).ways@),
        final(graph).relations@ == restriction_relations(old(graph).relations@),
{
    let ghost profile0 = graph.profile->0;
    let mut old_ways: Vec<Way> = Vec::new();
    std::mem::swap(&mut old_ways, &mut graph.ways);
    let ghost ws = old_ways@;
    let mut kept: Vec<Way> = Vec::new();
    {
        let profile = match &graph.profile {
            Some(p) => p,
            None => {
                return;
            },
        };
        for way in it: old_ways
            invariant
                ws == it.seq(),
                *profile == profile0,
                kept@ == kept_ways(profile0, ws.subrange(0, it.index() as int)),
        {
            proof {
                assert(ws.subrange(0, it.index() + 1).drop_last() == ws.subrange(0, it.index() as int));
            }
            if is_way_kept(profile, &way) {
                kept.push(way);
            }
        }
    }
    proof {
        assert(ws.subrange(0, ws.len() as int) == ws);
    }
    let mut used: HashSet<i64> = HashSet::new();
    let mut i: usize = 0;
    while i < kept.len()
        invariant
            i <= kept@.len(),
            forall|x: i64| used@.contains(x) <==> on_some_way(kept@, i as int, x),
        decreases kept@.len() - i,
    {
        let refs = &kept[i].node_refs;
        let mut j: usize = 0;
        while j < refs.len()
            invariant
                i < kept@.len(),
                *refs == kept@[i as int].node_refs,
                j <= refs@.len(),
                forall|x: i64| used@.contains(x) <==> (on_some_way(kept@, i as int, x) || exists|k: int| 0 <= k < j && #[trigger] refs@[k] == x),
            decreases refs@.len() - j,
        {
            used.insert(refs[j]);
            proof {
                assert forall|x: i64| used@.contains(x) <==> (on_some_way(kept@, i as int, x) || exists|k: int| 0 <= k < j + 1 && #[trigger] refs@[k] == x) by {
                    if x == refs@[j as int] {
                        assert(refs@[j as int] == x);
                    }
                }
            }
            j = j + 1;
        }
        proof {
            assert forall|x: i64| used@.contains(x) <==> on_some_way(kept@, i + 1, x) by {
                if on_some_way(kept@, i + 1, x) {
                    let (w, k) = choose|w: int, k: int| 0 <= w < i + 1 && 0 <= k < kept@[w].node_refs@.len() && #[trigger] kept@[w].node_refs@[k] == x;
                    if w < i {
                        assert(on_some_way(kept@, i as int, x));
                    } else {
                        assert(refs@[k] == x);
                    }
                }
                if exists|k: int| 0 <= k < refs@.len() && #[trigger] refs@[k] == x {
                    let k = choose|k: int| 0 <= k < refs@.len() && #[trigger] refs@[k] == x;
                    assert(kept@[i as int].node_refs@[k] == x);
                }
                if on_some_way(kept@, i as int, x) {
                    let (w, k) = choose|w: int, k: int| 0 <= w < i && 0 <= k < kept@[w].node_refs@.len() && #[trigger] kept@[w].node_refs@[k] == x;
                    assert(kept@[w].node_refs@[k] == x);
                }
            }
        }
        i = i + 1;
    }
    let mut old_nodes: Vec<Node> = Vec::new();
    std::mem::swap(&mut old_nodes, &mut graph.nodes);
    let ghost ns = old_nodes@;
    let mut kept_nodes: Vec<Node> = Vec::new();
    for node in it: old_nodes
        invariant
            ns == it.seq(),
            forall|x: i64| used@.contains(x) <==> on_some_way(kept@, kept@.len() as int, x),
            kept_nodes@ == used_nodes(ns.subrange(0, it.index() as int), kept@),
    {
        proof {
            assert(ns.subrange(0, it.index() + 1).drop_last() == ns.subrange(0, it.index() as int));
        }
        if used.contains(&node.id) {
            kept_nodes.push(node);
        }
    }
    proof {
        assert(ns.subrange(0, ns.len() as int) == ns);
    }
    let mut old_rels: Vec<Relation> = Vec::new();
    std::mem::swap(&mut old_rels, &mut graph.relations);
    let ghost rs = old_rels@;
    let mut kept_rels: Vec<Relation> = Vec::new();
    proof {
        reveal_strlit("type");
        reveal_strlit("restriction");
    }
    for rel in it: old_rels
        invariant
            rs == it.seq(),
            kept_rels@ == restriction_relations(rs.subrange(0, it.index() as int)),
    {
        proof {
            assert(rs.subrange(0, it.index() + 1).drop_last() == rs.subrange(0, it.index() as int));
        }
        let keep = match get_tag(&rel.tags, "type") {
            Some(t) => str_eq(t.as_str(), "restriction"),
            None => false,
        };
        if keep {
            kept_rels.push(rel);
        }
    }
    proof {
        assert(rs.subrange(0, rs.len() as int) == rs);
    }
    graph.ways = kept;
    graph.nodes = kept_nodes;
    graph.relations = kept_rels;
}

/// The turn restrictions found so far, and the nodes they pass through.
pub struct RestrictionIndex {
    pub restrictions: Vec<TurnRestrictionData>,
    pub restricted_nodes: HashSet<i64>,
}

impl RestrictionIndex {
    /// An index without restrictions.
    pub fn new() -> (r: RestrictionIndex)
        ensures
            r.restrictions@.len() == 0,
            r.restricted_nodes@ == Set::<i64>::empty(),
    {
        RestrictionIndex { restrictions: Vec::new(), restricted_nodes: HashSet::new() }
    }
}

/// One of the first `i` ways has id `w` and passes through node `n`.
pub open spec fn passes_upto(ways: Seq<Way>, i: int, n: i64, w: i64) -> bool {
    exists|a: int, k: int|
        0 <= a < i && ways[a].id == w && 0 <= k < ways[a].node_refs@.len() && #[trigger] ways[a].node_refs@[k]
            == n
}

/// A way with id `w` passes through node `n`.
pub open spec fn way_through(ways: Seq<Way>, n: i64, w: i64) -> bool {
    passes_upto(ways, ways.len() as int, n, w)
}

/// The `from`, `via` and `to` members of a relation.
pub open spec fn from_of(rel: Relation) -> Option<i64> {
    member_ref(rel.members@, "from"@, "way"@)
}

pub open spec fn via_of(rel: Relation) -> Option<i64> {
    member_ref(rel.members@, "via"@, "node"@)
}

pub open spec fn to_of(rel: Relation) -> Option<i64> {
    member_ref(rel.members@, "to"@, "way"@)
}

/// The relation names its three members, and the `from` and `to` ways both
/// pass through the `via` node, by the index of ways at each node.
pub open spec fn members_meet(rel: Relation, m: Map<i64, HashSet<i64>>) -> bool {
    &&& from_of(rel) is Some
    &&& via_of(rel) is Some
    &&& to_of(rel) is Some
    &&& m.contains_key(via_of(rel)->0)
    &&& m[via_of(rel)->0]@.contains(from_of(rel)->0)
    &&& m[via_of(rel)->0]@.contains(to_of(rel)->0)
}

/// `d` is the restriction of kind `kind` that `rel` states: its members,
/// and the distinct nonempty trimmed vehicle types of its `except` tag.
pub open spec fn states_restriction(rel: Relation, kind: TurnRestriction, d: TurnRestrictionData) -> bool {
    &&& d.restriction_type == kind
    &&& from_of(rel) == Some(d.from_way)
    &&& via_of(rel) == Some(d.via_node)
    &&& to_of(rel) == Some(d.to_way)
    &&& match tag_value(rel.tags@, "except"@) {
        Some(e) => distinct_strings_of(d.except@, trimmed_split(e), true),
        None => d.except@.len() == 0,
    }
}

/// Records the restriction that `relation` states when its `from` and `to`
/// ways both pass through its `via` node; says whether it did.
pub fn process_single_restriction(
    relation: &Relation,
    node_to_ways: &HashMap<i64, HashSet<i64>>,
    restriction_type: TurnRestriction,
    index: &mut RestrictionIndex,
) -> (r: bool)
    ensures
        r == members_meet(*relation, node_to_ways@),
        r ==> {
            &&& final(index).restrictions@.len() == old(index).restrictions@.len() + 1
            &&& final(index).restrictions@.drop_last() == old(index).restrictions@
            &&& states_restriction(*relation, restriction_type, final(index).restrictions@.last())
            &&& final(index).restricted_nodes@ == old(index).restricted_nodes@.insert(via_of(*relation)->0)
        },
        !r ==> {
            &&& final(index).restrictions@ == old(index).restrictions@
            &&& final(index).restricted_nodes@ == old(index).restricted_nodes@
        },
{
    proof {
        reveal_strlit("except");
    }
    let except = match get_tag(&relation.tags, "except") {
        Some(e) => distinct_trimmed_pieces(e.as_str()),
        None => Vec::new(),
    };
    let from_way_id = find_member(&relation.members, "from", "way");
    let via_node_id = find_member(&relation.members, "via", "node");
    let to_way_id = find_member(&relation.members, "to", "way");
    if let (Some(from_id), Some(via_id), Some(to_id)) = (from_way_id, via_node_id, to_way_id) {
        if let Some(ways_at_node) = node_to_ways.get(&via_id) {
            if ways_at_node.contains(&from_id) && ways_at_node.contains(&to_id) {
                index.restricted_nodes.insert(via_id);
                index.restrictions.push(
                    TurnRestrictionData {
                        restriction_type,
                        from_way: from_id,
                        via_node: via_id,
                        to_way: to_id,
                        except,
                    },
                );
                proof {
                    assert(final(index).restrictions@.drop_last() == old(index).restrictions@);
                }
                return true;
            }
        }
    }
    false
}

/// The kind of turn restriction a relation states, if it is one.
pub open spec fn relation_kind(rel: Relation) -> TurnRestriction {
    if is_restriction_relation(rel) && tag_value(rel.tags@, "restriction"@) is Some {
        restriction_kind_of(tag_value(rel.tags@, "restriction"@)->0)
    } else {
        TurnRestriction::Inapplicable
    }
}

/// A turn restriction relation of a known kind whose `from` and `to` ways
/// both pass through its `via` node.
pub open spec fn restriction_applies(rel: Relation, ways: Seq<Way>) -> bool {
    &&& relation_kind(rel) != TurnRestriction::Inapplicable
    &&& from_of(rel) is Some
    &&& via_of(rel) is Some
    &&& to_of(rel) is Some
    &&& way_through(ways, via_of(rel)->0, from_of(rel)->0)
    &&& way_through(ways, via_of(rel)->0, to_of(rel)->0)
}

/// The relations whose turn restrictions apply, in order.
pub open spec fn applied_relations(rels: Seq<Relation>, ways: Seq<Way>) -> Seq<Relation>
    decreases rels.len(),
{
    if rels.len() == 0 {
        Seq::empty()
    } else if restriction_applies(rels.last(), ways) {
        applied_relations(rels.drop_last(), ways).push(rels.last())
    } else {
        applied_relations(rels.drop_last(), ways)
    }
}

/// The ways at each node, built from the ways' node lists.
pub fn ways_by_node(ways: &Vec<Way>) -> (m: HashMap<i64, HashSet<i64>>)
    ensures
        forall|n: i64, w: i64| (m@.contains_key(n) && m@[n]@.contains(w)) <==> way_through(ways@, n, w),
{
    let mut m: HashMap<i64, HashSet<i64>> = HashMap::new();
    let mut i: usize = 0;
    while i < ways.len()
        invariant
            i <= ways@.len(),
            forall|n: i64, w: i64| (m@.contains_key(n) && m@[n]@.contains(w)) <==> passes_upto(ways@, i as int, n, w),
        decreases ways@.len() - i,
    {
        let way = &ways[i];
        let mut j: usize = 0;
        while j < way.node_refs.len()
            invariant
                i < ways@.len(),
                *way == ways@[i as int],
                j <= way.node_refs@.len(),
                forall|n: i64, w: i64|
                    #![trigger m@[n]@.contains(w)]
                    #![trigger passes_upto(ways@, i as int, n, w)]
                    (m@.contains_key(n) && m@[n]@.contains(w)) <==> (passes_upto(ways@, i as int, n, w)
                    || (w == way.id && exists|k: int| 0 <= k < j && #[trigger] way.node_refs@[k] == n)),
            decreases way.node_refs@.len() - j,
        {
            let n = way.node_refs[j];
            let ghost m0 = m@;
            let ghost s0 = if m0.contains_key(n) { m0[n]@ } else { Set::<i64>::empty() };
            let ghost j0 = j as int;
            let mut set = match m.remove(&n) {
                Some(s) => s,
                None => HashSet::new(),
            };
            assert(set@ == s0);
            assert(m@ == m0.remove(n));
            set.insert(way.id);
            m.insert(n, set);
            assert(m@ == m0.remove(n).insert(n, set));
            assert(m@[n]@ == s0.insert(way.id));
            j = j + 1;
            proof {
                assert forall|x: i64, w: i64| (m@.contains_key(x) && m@[x]@.contains(w)) <==> (passes_upto(ways@, i as int, x, w)
                    || (w == way.id && exists|k: int| 0 <= k < j && #[trigger] way.node_refs@[k] == x)) by {
                    assert((m0.contains_key(x) && m0[x]@.contains(w)) <==> (passes_upto(ways@, i as int, x, w)
                        || (w == way.id && exists|k: int| 0 <= k < j0 && #[trigger] way.node_refs@[k] == x)));
                    if x == n {
                        if w == way.id {
                            assert(way.node_refs@[j - 1] == x);
                        } else {
                            assert(m@[x]@.contains(w) == s0.contains(w));
                            if exists|k: int| 0 <= k < j && #[trigger] way.node_refs@[k] == x {
                                let k = choose|k: int| 0 <= k < j && #[trigger] way.node_refs@[k] == x;
                                if k < j - 1 {
                                    assert(way.node_refs@[k] == x);
                                }
                            }
                        }
                    } else {
                        assert(m@.contains_key(x) == m0.contains_key(x));
                        if m0.contains_key(x) {
                            assert(m@[x] == m0[x]);
                        }
                        if w == way.id && exists|k: int| 0 <= k < j && #[trigger] way.node_refs@[k] == x {
                            let k = choose|k: int| 0 <= k < j && #[trigger] way.node_refs@[k] == x;
                            assert(k < j - 1);
                            assert(way.node_refs@[k] == x);
                        }
                    }
                }
            }
        }
        i = i + 1;
        proof {
            assert forall|n: i64, w: i64| (m@.contains_key(n) && m@[n]@.contains(w)) <==> passes_upto(ways@, i as int, n, w) by {
                if passes_upto(ways@, i as int, n, w) {
                    let (a, k) = choose|a: int, k: int| 0 <= a < i && ways@[a].id == w && 0 <= k < ways@[a].node_refs@.len() && #[trigger] ways@[a].node_refs@[k] == n;
                    if a < i - 1 {
                        assert(passes_upto(ways@, i - 1, n, w));
                    } else {
                        assert(way.node_refs@[k] == n);
                    }
                }
                if w == way.id && exists|k: int| 0 <= k < way.node_refs@.len() && #[trigger] way.node_refs@[k] == n {
                    let k = choose|k: int| 0 <= k < way.node_refs@.len() && #[trigger] way.node_refs@[k] == n;
                    assert(ways@[i - 1].node_refs@[k] == n);
                }
                if passes_upto(ways@, i - 1, n, w) {
                    let (a, k) = choose|a: int, k: int| 0 <= a < i - 1 && ways@[a].id == w && 0 <= k < ways@[a].node_refs@.len() && #[trigger] ways@[a].node_refs@[k] == n;
                    assert(ways@[a].node_refs@[k] == n);
                }
            }
        }
    }
    m
}

/// Records the turn restrictions of the graph's relations that apply: those
/// of a known kind whose `from` and `to` ways pass through their `via` node.
pub fn process_turn_restrictions(graph: &OsmGraph, index: &mut RestrictionIndex)
    ensures
        ({
            let acc = applied_relations(graph.relations@, graph.ways@);
            let n0 = old(index).restrictions@.len();
            &&& final(index).restrictions@.len() == n0 + acc.len()
            &&& final(index).restrictions@.subrange(0, n0 as int) == old(index).restrictions@
            &&& forall|j: int| 0 <= j < acc.len() ==> states_restriction(#[trigger] acc[j], relation_kind(acc[j]), final(index).restrictions@[n0 + j])
            &&& forall|x: i64| #![trigger final(index).restricted_nodes@.contains(x)] final(index).restricted_nodes@.contains(x) <==> (old(index).restricted_nodes@.contains(x)
                || exists|j: int| 0 <= j < acc.len() && via_of(#[trigger] acc[j]) == Some(x))
        }),
{
    proof {
        reveal_strlit("type");
        reveal_strlit("restriction");
    }
    let node_to_ways = ways_by_node(&graph.ways);
    let ghost rels = graph.relations@;
    let ghost ways = graph.ways@;
    let ghost n0 = index.restrictions@.len();
    let ghost old_nodes = index.restricted_nodes@;
    let ghost old_rs = index.restrictions@;
    let mut i: usize = 0;
    while i < graph.relations.len()
        invariant
            rels == graph.relations@,
            ways == graph.ways@,
            forall|n: i64, w: i64| (node_to_ways@.contains_key(n) && node_to_ways@[n]@.contains(w)) <==> way_through(ways, n, w),
            n0 == old_rs.len(),
            i <= rels.len(),
            ({
                let acc = applied_relations(rels.subrange(0, i as int), ways);
                &&& index.restrictions@.len() == n0 + acc.len()
                &&& index.restrictions@.subrange(0, n0 as int) == old_rs
                &&& forall|j: int| 0 <= j < acc.len() ==> states_restriction(#[trigger] acc[j], relation_kind(acc[j]), index.restrictions@[n0 + j])
                &&& forall|x: i64| #![trigger index.restricted_nodes@.contains(x)] index.restricted_nodes@.contains(x) <==> (old_nodes.contains(x)
                    || exists|j: int| 0 <= j < acc.len() && via_of(#[trigger] acc[j]) == Some(x))
            }),
        decreases rels.len() - i,
    {
        proof {
            reveal_strlit("type");
            reveal_strlit("restriction");
        }
        let relation = &graph.relations[i];
        let ghost acc0 = applied_relations(rels.subrange(0, i as int), ways);
        let ghost before = index.restrictions@;
        let ghost nodes_before = index.restricted_nodes@;
        proof {
            assert(rels.subrange(0, i + 1).drop_last() == rels.subrange(0, i as int));
            assert(rels.subrange(0, i + 1).last() == *relation);
        }
        let mut kind = TurnRestriction::Inapplicable;
        let is_restriction = match get_tag(&relation.tags, "type") {
            Some(t) => str_eq(t.as_str(), "restriction"),
            None => false,
        };
        if is_restriction {
            if let Some(value) = get_tag(&relation.tags, "restriction") {
                kind = classify_restriction(value.as_str());
            }
        }
        assert(kind == relation_kind(*relation));
        let mut applied = false;
        if kind != TurnRestriction::Inapplicable {
            applied = process_single_restriction(relation, &node_to_ways, kind, index);
        }
        proof {
            let acc1 = applied_relations(rels.subrange(0, i + 1), ways);
            assert(applied == restriction_applies(*relation, ways));
            if applied {
                assert(acc1 == acc0.push(*relation));
                assert(index.restricted_nodes@ == nodes_before.insert(via_of(*relation)->0));
                assert(index.restrictions@.subrange(0, n0 as int) == before.subrange(0, n0 as int));
                assert forall|j: int| 0 <= j < acc1.len() implies states_restriction(#[trigger] acc1[j], relation_kind(acc1[j]), index.restrictions@[n0 + j]) by {
                    if j < acc0.len() {
                        assert(acc1[j] == acc0[j]);
                        assert(index.restrictions@[n0 + j] == before[n0 + j]);
                    }
                }
                assert forall|x: i64| #![trigger index.restricted_nodes@.contains(x)] index.restricted_nodes@.contains(x) <==> (old_nodes.contains(x)
                    || exists|j: int| 0 <= j < acc1.len() && via_of(#[trigger] acc1[j]) == Some(x)) by {
                    assert(nodes_before.contains(x) <==> (old_nodes.contains(x) || exists|j: int| 0 <= j < acc0.len() && via_of(#[trigger] acc0[j]) == Some(x)));
                    if exists|j: int| 0 <= j < acc1.len() && via_of(#[trigger] acc1[j]) == Some(x) {
                        let j = choose|j: int| 0 <= j < acc1.len() && via_of(#[trigger] acc1[j]) == Some(x);
                        if j < acc0.len() {
                            assert(acc1[j] == acc0[j]);
                        }
                    }
                    if exists|j: int| 0 <= j < acc0.len() && via_of(#[trigger] acc0[j]) == Some(x) {
                        let j = choose|j: int| 0 <= j < acc0.len() && via_of(#[trigger] acc0[j]) == Some(x);
                        assert(acc1[j] == acc0[j]);
                    }
                    if x == via_of(*relation)->0 {
                        assert(acc1[acc0.len() as int] == *relation);
                        assert(via_of(acc1[acc0.len() as int]) == Some(x));
                    }
                }
            } else {
                assert(acc1 == acc0);
            }
        }
        i = i + 1;
    }
    proof {
        assert(rels.subrange(0, rels.len() as int) == rels);
    }
}

/// A turn restriction relation that makes one turn mandatory (`only_*`).
pub open spec fn is_mandatory_relation(rel: Relation) -> bool {
    &&& is_restriction_relation(rel)
    &&& tag_value(rel.tags@, "restriction"@) matches Some(v) && v.len() >= 5 && v.subrange(0, 5) == "only_"@
}

/// Member `m` of the relation is the `via` node `n`.
pub open spec fn via_member(rel: Relation, m: int, n: i64) -> bool {
    &&& 0 <= m < rel.members@.len()
    &&& rel.members@[m].role@ == "via"@
    &&& rel.members@[m].member_type@ == "node"@
    &&& rel.members@[m].ref_id == n
}

/// Node `n` is a `via` node of one of the first `i` mandatory restrictions.
pub open spec fn restricted_upto(rels: Seq<Relation>, i: int, n: i64) -> bool {
    exists|r: int, m: int| 0 <= r < i && is_mandatory_relation(rels[r]) && #[trigger] via_member(rels[r], m, n)
}

/// The `via` nodes of all mandatory turn restrictions: where a route may
/// have to turn one way only.
pub fn index_restricted_nodes(graph: &OsmGraph) -> (r: HashSet<i64>)
    ensures
        forall|n: i64| r@.contains(n) <==> restricted_upto(graph.relations@, graph.relations@.len() as int, n),
{
    proof {
        reveal_strlit("type");
        reveal_strlit("restriction");
        reveal_strlit("only_");
        reveal_strlit("via");
        reveal_strlit("node");
    }
    let rels = &graph.relations;
    let mut restricted: HashSet<i64> = HashSet::new();
    let mut i: usize = 0;
    while i < rels.len()
        invariant
            i <= rels@.len(),
            forall|n: i64| restricted@.contains(n) <==> restricted_upto(rels@, i as int, n),
        decreases rels@.len() - i,
    {
        proof {
            reveal_strlit("type");
            reveal_strlit("restriction");
            reveal_strlit("only_");
            reveal_strlit("via");
            reveal_strlit("node");
        }
        let rel = &rels[i];
        let is_restriction = match get_tag(&rel.tags, "type") {
            Some(t) => str_eq(t.as_str(), "restriction"),
            None => false,
        };
        let mandatory = is_restriction && match get_tag(&rel.tags, "restriction") {
            Some(v) => starts_with(v.as_str(), "only_"),
            None => false,
        };
        proof {
            match tag_value(rel.tags@, "restriction"@) {
                Some(v) => {
                    assert("only_"@.len() == 5);
                },
                None => {},
            }
        }
        assert(mandatory == is_mandatory_relation(*rel));
        if mandatory {
            let mut m: usize = 0;
            while m < rel.members.len()
                invariant
                    i < rels@.len(),
                    *rel == rels@[i as int],
                    is_mandatory_relation(*rel),
                    m <= rel.members@.len(),
                    forall|n: i64| restricted@.contains(n) <==> (restricted_upto(rels@, i as int, n)
                        || exists|q: int| 0 <= q < m && #[trigger] via_member(*rel, q, n)),
                decreases rel.members@.len() - m,
            {
                proof {
                    reveal_strlit("via");
                    reveal_strlit("node");
                }
                let member = &rel.members[m];
                if str_eq(member.role.as_str(), "via") && str_eq(member.member_type.as_str(), "node") {
                    restricted.insert(member.ref_id);
                }
                proof {
                    assert forall|n: i64| restricted@.contains(n) <==> (restricted_upto(rels@, i as int, n)
                        || exists|q: int| 0 <= q < m + 1 && #[trigger] via_member(*rel, q, n)) by {
                        if via_member(*rel, m as int, n) {
                            assert(exists|q: int| 0 <= q < m + 1 && #[trigger] via_member(*rel, q, n));
                        }
                        if exists|q: int| 0 <= q < m + 1 && #[trigger] via_member(*rel, q, n) {
                            let q = choose|q: int| 0 <= q < m + 1 && #[trigger] via_member(*rel, q, n);
                            if q < m {
                                assert(exists|q: int| 0 <= q < m && #[trigger] via_member(*rel, q, n));
                            }
                        }
                    }
                }
                m = m + 1;
            }
            proof {
                assert forall|n: i64| restricted@.contains(n) <==> restricted_upto(rels@, i + 1, n) by {
                    if restricted_upto(rels@, i + 1, n) {
                        let (r, q) = choose|r: int, q: int| 0 <= r < i + 1 && is_mandatory_relation(rels@[r]) && #[trigger] via_member(rels@[r], q, n);
                        if r < i {
                            assert(restricted_upto(rels@, i as int, n));
                        } else {
                            assert(via_member(*rel, q, n));
                        }
                    }
                    if exists|q: int| 0 <= q < rel.members@.len() && #[trigger] via_member(*rel, q, n) {
                        let q = choose|q: int| 0 <= q < rel.members@.len() && #[trigger] via_member(*rel, q, n);
                        assert(via_member(rels@[i as int], q, n));
                    }
                    if restricted_upto(rels@, i as int, n) {
                        let (r, q) = choose|r: int, q: int| 0 <= r < i && is_mandatory_relation(rels@[r]) && #[trigger] via_member(rels@[r], q, n);
                        assert(via_member(rels@[r], q, n));
                    }
                }
            }
        } else {
            proof {
                assert forall|n: i64| restricted@.contains(n) <==> restricted_upto(rels@, i + 1, n) by {
                    if restricted_upto(rels@, i + 1, n) {
                        let (r, q) = choose|r: int, q: int| 0 <= r < i + 1 && is_mandatory_relation(rels@[r]) && #[trigger] via_member(rels@[r], q, n);
                        assert(r < i);
                        assert(restricted_upto(rels@, i as int, n));
                    }
                    if restricted_upto(rels@, i as int, n) {
                        let (r, q) = choose|r: int, q: int| 0 <= r < i && is_mandatory_relation(rels@[r]) && #[trigger] via_member(rels@[r], q, n);
                        assert(via_member(rels@[r], q, n));
                    }
                }
            }
        }
        i = i + 1;
    }
    restricted
}

/// Whether a node is a `via` node of some mandatory turn restriction.
pub fn has_mandatory_restriction_conflicts_indexed(restricted: &HashSet<i64>, node_id: i64) -> (b: bool)
    ensures
        b == restricted@.contains(node_id),
{
    restricted.contains(&node_id)
}

/// The node list of the first way with id `id`.
pub open spec fn way_nodes_by_id(ways: Seq<Way>, id: i64) -> Option<Seq<i64>>
    decreases ways.len(),
{
    if ways.len() == 0 {
        None
    } else if ways[0].id == id {
        Some(ways[0].node_refs@)
    } else {
        way_nodes_by_id(ways.drop_first(), id)
    }
}

/// The first node that is neither `problematic` nor restricted.
pub open spec fn first_free_node(refs: Seq<i64>, problematic: i64, restricted: Set<i64>) -> Option<i64>
    decreases refs.len(),
{
    if refs.len() == 0 {
        None
    } else if refs[0] != problematic && !restricted.contains(refs[0]) {
        Some(refs[0])
    } else {
        first_free_node(refs.drop_first(), problematic, restricted)
    }
}

/// Another node of way `way_id` to snap to in place of `problematic_node_id`:
/// the first of its nodes that no mandatory restriction passes through.
pub fn find_alternative_node_on_way_indexed(
    ways: &Vec<Way>,
    restricted: &HashSet<i64>,
    way_id: i64,
    problematic_node_id: i64,
) -> (r: Option<i64>)
    ensures
        r == match way_nodes_by_id(ways@, way_id) {
            Some(refs) => first_free_node(refs, problematic_node_id, restricted@),
            None => None,
        },
{
    let mut i: usize = 0;
    assert(ways@.subrange(0, ways@.len() as int) == ways@);
    while i < ways.len()
        invariant
            i <= ways@.len(),
            way_nodes_by_id(ways@, way_id) == way_nodes_by_id(ways@.subrange(i as int, ways@.len() as int), way_id),
        decreases ways@.len() - i,
    {
        let ghost rest = ways@.subrange(i as int, ways@.len() as int);
        assert(rest[0] == ways@[i as int]);
        assert(rest.drop_first() == ways@.subrange(i + 1, ways@.len() as int));
        if ways[i].id == way_id {
            let refs = &ways[i].node_refs;
            let mut k: usize = 0;
            assert(refs@.subrange(0, refs@.len() as int) == refs@);
            assert(way_nodes_by_id(ways@, way_id) == Some(refs@));
            while k < refs.len()
                invariant
                    way_nodes_by_id(ways@, way_id) == Some(refs@),
                    k <= refs@.len(),
                    first_free_node(refs@, problematic_node_id, restricted@) == first_free_node(
                        refs@.subrange(k as int, refs@.len() as int),
                        problematic_node_id,
                        restricted@,
                    ),
                decreases refs@.len() - k,
            {
                let ghost rr = refs@.subrange(k as int, refs@.len() as int);
                assert(rr[0] == refs@[k as int]);
                assert(rr.drop_first() == refs@.subrange(k + 1, refs@.len() as int));
                let node_ref = refs[k];
                if node_ref != problematic_node_id && !has_mandatory_restriction_conflicts_indexed(restricted, node_ref) {
                    return Some(node_ref);
                }
                k = k + 1;
            }
            return None;
        }
        i = i + 1;
    }
    None
}

/// Every way that stays is one the profile keeps.
proof fn lemma_kept_ways_kept(profile: Profile, ways: Seq<Way>)
    ensures
        forall|i: int| 0 <= i < kept_ways(profile, ways).len() ==> way_kept(profile, #[trigger] kept_ways(profile, ways)[i]),
    decreases ways.len(),
{
    if ways.len() > 0 {
        lemma_kept_ways_kept(profile, ways.drop_last());
        let k0 = kept_ways(profile, ways.drop_last());
        let k = kept_ways(profile, ways);
        assert forall|i: int| 0 <= i < k.len() implies way_kept(profile, #[trigger] k[i]) by {
            if i < k0.len() {
                assert(k[i] == k0[i]);
            }
        }
    }
}

/// Keeping ways that all stay changes nothing.
proof fn lemma_kept_ways_all(profile: Profile, ways: Seq<Way>)
    requires
        forall|i: int| 0 <= i < ways.len() ==> way_kept(profile, #[trigger] ways[i]),
    ensures
        kept_ways(profile, ways) == ways,
    decreases ways.len(),
{
    if ways.len() > 0 {
        lemma_kept_ways_all(profile, ways.drop_last());
        assert(ways.drop_last().push(ways.last()) == ways);
    }
}

/// Every relation that stays is a restriction.
proof fn lemma_restrictions_kept(rels: Seq<Relation>)
    ensures
        forall|i: int| 0 <= i < restriction_relations(rels).len() ==> is_restriction_relation(#[trigger] restriction_relations(rels)[i]),
    decreases rels.len(),
{
    if rels.len() > 0 {
        lemma_restrictions_kept(rels.drop_last());
        let k0 = restriction_relations(rels.drop_last());
        let k = restriction_relations(rels);
        assert forall|i: int| 0 <= i < k.len() implies is_restriction_relation(#[trigger] k[i]) by {
            if i < k0.len() {
                assert(k[i] == k0[i]);
            }
        }
    }
}

proof fn lemma_restrictions_all(rels: Seq<Relation>)
    requires
        forall|i: int| 0 <= i < rels.len() ==> is_restriction_relation(#[trigger] rels[i]),
    ensures
        restriction_relations(rels) == rels,
    decreases rels.len(),
{
    if rels.len() > 0 {
        lemma_restrictions_all(rels.drop_last());
        assert(rels.drop_last().push(rels.last()) == rels);
    }
}

/// Every node that stays is used by the ways.
proof fn lemma_used_nodes_used(nodes: Seq<Node>, ways: Seq<Way>)
    ensures
        forall|i: int| 0 <= i < used_nodes(nodes, ways).len() ==> on_some_way(ways, ways.len() as int, (#[trigger] used_nodes(nodes, ways)[i]).id),
    decreases nodes.len(),
{
    if nodes.len() > 0 {
        lemma_used_nodes_used(nodes.drop_last(), ways);
        let k0 = used_nodes(nodes.drop_last(), ways);
        let k = used_nodes(nodes, ways);
        assert forall|i: int| 0 <= i < k.len() implies on_some_way(ways, ways.len() as int, (#[trigger] k[i]).id) by {
            if i < k0.len() {
                assert(k[i] == k0[i]);
            }
        }
    }
}

proof fn lemma_used_nodes_all(nodes: Seq<Node>, ways: Seq<Way>)
    requires
        forall|i: int| 0 <= i < nodes.len() ==> on_some_way(ways, ways.len() as int, (#[trigger] nodes[i]).id),
    ensures
        used_nodes(nodes, ways) == nodes,
    decreases nodes.len(),
{
    if nodes.len() > 0 {
        lemma_used_nodes_all(nodes.drop_last(), ways);
        assert(nodes.drop_last().push(nodes.last()) == nodes);
    }
}

/// The vehicle types a profile can name.
pub open spec fn named_vehicle(vt: Seq<char>) -> bool {
    vt == "foot"@ || vt == "bicycle"@ || vt == "motorcar"@ || vt == "motorcycle"@ || vt == "psv"@ || vt == "train"@
        || vt == "subway"@ || vt == "tram"@
}

/// A vehicle's own tag decides for it: where the way's tag named after the
/// profile's vehicle type says `no`, `permissive` or `private`, the way is
/// dropped (for public service vehicles, unless `access=no` and another of
/// their tags lets them through); where `access=no` and that tag says `yes`
/// or `designated`, the way is kept.
pub proof fn lemma_vehicle_tag_decides(profile: Profile, way: Way, vt: Seq<char>)
    requires
        profile.vehicle_type matches Some(t) && t@ == vt,
        named_vehicle(vt),
    ensures
        ((tag_value(way.tags@, vt) == Some("no"@) || tag_value(way.tags@, vt) == Some("permissive"@) || tag_value(
            way.tags@,
            vt,
        ) == Some("private"@)) && (vt != "psv"@ || tag_value(way.tags@, "access"@) != Some("no"@))) ==> !way_kept(
            profile,
            way,
        ),
        (tag_value(way.tags@, "access"@) == Some("no"@) && (tag_value(way.tags@, vt) == Some("yes"@) || tag_value(
            way.tags@,
            vt,
        ) == Some("designated"@))) ==> way_kept(profile, way),
{
    reveal_strlit("foot");
    reveal_strlit("bicycle");
    reveal_strlit("motorcar");
    reveal_strlit("motorcycle");
    reveal_strlit("psv");
    reveal_strlit("train");
    reveal_strlit("subway");
    reveal_strlit("tram");
    reveal_strlit("no");
    reveal_strlit("permissive");
    reveal_strlit("private");
    reveal_strlit("yes");
    reveal_strlit("designated");
    reveal_strlit("access");
    let keys = vehicle_keys(vt);
    assert(keys.len() >= 1 && keys[0] == vt);
    if tag_value(way.tags@, vt) is Some {
        assert(first_set(way.tags@, keys) == tag_value(way.tags@, vt));
    }
    if vt != "psv"@ {
        assert(keys.len() == 1);
        if tag_value(way.tags@, vt) == Some("no"@) || tag_value(way.tags@, vt) == Some("permissive"@) || tag_value(
            way.tags@,
            vt,
        ) == Some("private"@) {
            assert("no"@ != "yes"@ && "no"@ != "designated"@) by {
                assert("no"@.len() != "yes"@.len());
                assert("no"@.len() != "designated"@.len());
            }
            assert("permissive"@ != "yes"@ && "permissive"@ != "designated"@) by {
                assert("permissive"@.len() != "yes"@.len());
                assert("permissive"@[0] != "designated"@[0]);
            }
            assert("private"@ != "yes"@ && "private"@ != "designated"@) by {
                assert("private"@.len() != "yes"@.len());
                assert("private"@.len() != "designated"@.len());
            }
            assert(!grants(way.tags@, keys[0]));
            assert(forall|k: int| 0 <= k < keys.len() ==> !grants(way.tags@, #[trigger] keys[k]));
        }
    }
    if tag_value(way.tags@, vt) == Some("yes"@) || tag_value(way.tags@, vt) == Some("designated"@) {
        assert(grants(way.tags@, keys[0]));
    }
}

/// Public service vehicles answer to the tags `bus`, `minibus`,
/// `tourist_bus` and `coach` too: under `access=no`, any of them saying
/// `yes` or `designated` keeps the way; else, with no `psv` tag, a `bus`
/// tag of `no` drops it.
pub proof fn lemma_public_service_tags(profile: Profile, way: Way, key: Seq<char>)
    requires
        profile.vehicle_type matches Some(t) && t@ == "psv"@,
        key == "bus"@ || key == "minibus"@ || key == "tourist_bus"@ || key == "coach"@,
    ensures
        (tag_value(way.tags@, "access"@) == Some("no"@) && (tag_value(way.tags@, key) == Some("yes"@) || tag_value(
            way.tags@,
            key,
        ) == Some("designated"@))) ==> way_kept(profile, way),
        (tag_value(way.tags@, "access"@) != Some("no"@) && tag_value(way.tags@, "psv"@) is None && tag_value(
            way.tags@,
            "bus"@,
        ) == Some("no"@)) ==> !way_kept(profile, way),
{
    reveal_strlit("foot");
    reveal_strlit("bicycle");
    reveal_strlit("motorcar");
    reveal_strlit("motorcycle");
    reveal_strlit("psv");
    reveal_strlit("bus");
    reveal_strlit("minibus");
    reveal_strlit("tourist_bus");
    reveal_strlit("coach");
    reveal_strlit("no");
    let keys = vehicle_keys("psv"@);
    assert("psv"@ != "foot"@ && "psv"@ != "bicycle"@ && "psv"@ != "motorcar"@ && "psv"@ != "motorcycle"@) by {
        assert("psv"@.len() != "foot"@.len());
        assert("psv"@.len() != "bicycle"@.len());
        assert("psv"@.len() != "motorcar"@.len());
        assert("psv"@.len() != "motorcycle"@.len());
    }
    assert(keys =~= seq!["psv"@, "bus"@, "minibus"@, "tourist_bus"@, "coach"@]);
    if tag_value(way.tags@, key) == Some("yes"@) || tag_value(way.tags@, key) == Some("designated"@) {
        assert(grants(way.tags@, key));
        if key == "bus"@ {
            assert(grants(way.tags@, keys[1]));
        } else if key == "minibus"@ {
            assert(grants(way.tags@, keys[2]));
        } else if key == "tourist_bus"@ {
            assert(grants(way.tags@, keys[3]));
        } else {
            assert(grants(way.tags@, keys[4]));
        }
    }
    if tag_value(way.tags@, "psv"@) is None && tag_value(way.tags@, "bus"@) == Some("no"@) {
        assert(keys.drop_first() =~= seq!["bus"@, "minibus"@, "tourist_bus"@, "coach"@]);
        assert(first_set(way.tags@, keys) == first_set(way.tags@, keys.drop_first()));
    }
}

/// Filtering a filtered graph again changes none of its nodes, ways or
/// relations.
pub proof fn lemma_filter_twice(g0: OsmGraph, g1: OsmGraph, g2: OsmGraph)
    requires
        g0.profile is Some,
        filtered(g0, g1),
        filtered(g1, g2),
    ensures
        g2.nodes@ == g1.nodes@,
        g2.ways@ == g1.ways@,
        g2.relations@ == g1.relations@,
{
    lemma_filter_idempotent(g0.profile->0, g0.nodes@, g0.ways@, g0.relations@);
}

/// Filtering a graph twice gives what filtering it once gives: the ways,
/// nodes and relations that stay pass the filter again unchanged.
pub proof fn lemma_filter_idempotent(profile: Profile, nodes: Seq<Node>, ways: Seq<Way>, rels: Seq<Relation>)
    ensures
        ({
            let w1 = kept_ways(profile, ways);
            let n1 = used_nodes(nodes, w1);
            let r1 = restriction_relations(rels);
            &&& kept_ways(profile, w1) == w1
            &&& used_nodes(n1, kept_ways(profile, w1)) == n1
            &&& restriction_relations(r1) == r1
        }),
{
    let w1 = kept_ways(profile, ways);
    lemma_kept_ways_kept(profile, ways);
    lemma_kept_ways_all(profile, w1);
    lemma_used_nodes_used(nodes, w1);
    lemma_used_nodes_all(used_nodes(nodes, w1), w1);
    lemma_restrictions_kept(rels);
    lemma_restrictions_all(restriction_relations(rels));
}

} // verus!
