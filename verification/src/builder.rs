use vstd::prelude::*;
use std::collections::HashMap;
use crate::edges::{edge_map, insert_edge, remove_edge, retain_only_edge, sorted_targets, target_index, targets_below};
use crate::graph::{ProcessedGraph, RouteNode, WayInfo};
use crate::interner::StringInterner;
use crate::text::lemma_distinct_within;
use crate::text::{starts_with, trimmed, split_semicolons, trimmed_pieces};
use crate::types::{Node, Profile, Relation, RelationMember, Way};
use crate::turns::{restriction_kind_of, trimmed_split, TurnRestriction};
use crate::restriction::{
    connection_b, first_index, flatten_fails, flatten_path, flatten_restriction_nodes, is_via_node_form,
    lemma_connection, lemma_first_index_exists, ways_connect,
};
use crate::errors::{numbered, owned, GraphError};
use crate::verdict::{lemma_verdict_by_names, penalty_of_way, travellable};
use crate::text::str_eq;

verus! {

broadcast use vstd::std_specs::hash::group_hash_axioms;

/// A way's penalty: one that the profile lists for the way's tag value (the
/// bit pattern of a 64-bit float), or the profile's default.
#[derive(Clone, Copy, PartialEq, Eq, Structural, Debug)]
pub enum Penalty {
    Listed(u64),
    Default(u32),
}

/// The floating-point part of building a routing graph: what a segment
/// between two nodes costs on a way with a given penalty.
pub trait EdgeCost {
    fn segment_cost(&self, from: &Node, to: &Node, penalty: Penalty) -> u16;
}

/// A listed penalty, given by the bits of a 64-bit float, makes a way
/// travellable when it is finite and at least 1. In IEEE 754 the finite
/// floats from 1.0 up are exactly the bit patterns from that of 1.0 up to,
/// not including, that of positive infinity.
pub open spec fn listed_usable(bits: u64) -> bool {
    0x3FF0_0000_0000_0000 <= bits && bits < 0x7FF0_0000_0000_0000
}

/// A penalty makes a way travellable: a listed one as `listed_usable` says,
/// the default one when it is at least 1.
pub open spec fn penalty_usable(p: Penalty) -> bool {
    match p {
        Penalty::Listed(bits) => listed_usable(bits),
        Penalty::Default(d) => d >= 1,
    }
}

/// Whether a listed penalty makes a way travellable.
pub fn listed_penalty_usable(bits: u64) -> (r: bool)
    ensures
        r == listed_usable(bits),
{
    0x3FF0_0000_0000_0000 <= bits && bits < 0x7FF0_0000_0000_0000
}

/// The strings of a tag list, key then value, in order.
pub open spec fn tag_strings(tags: Seq<(String, String)>) -> Seq<Seq<char>>
    decreases tags.len(),
{
    if tags.len() == 0 {
        Seq::empty()
    } else {
        tag_strings(tags.drop_last()) + seq![tags.last().0@, tags.last().1@]
    }
}

/// The tag strings of all nodes.
pub open spec fn node_strings(nodes: Seq<Node>) -> Seq<Seq<char>>
    decreases nodes.len(),
{
    if nodes.len() == 0 {
        Seq::empty()
    } else {
        node_strings(nodes.drop_last()) + tag_strings(nodes.last().tags@)
    }
}

/// The tag strings of all ways.
pub open spec fn way_strings(ways: Seq<Way>) -> Seq<Seq<char>>
    decreases ways.len(),
{
    if ways.len() == 0 {
        Seq::empty()
    } else {
        way_strings(ways.drop_last()) + tag_strings(ways.last().tags@)
    }
}

/// The tag strings of all relations.
pub open spec fn relation_strings(rels: Seq<Relation>) -> Seq<Seq<char>>
    decreases rels.len(),
{
    if rels.len() == 0 {
        Seq::empty()
    } else {
        relation_strings(rels.drop_last()) + tag_strings(rels.last().tags@)
    }
}

/// The strings of a profile: its key, the values it lists penalties for, and
/// its access, one-way and exemption tags.
pub open spec fn profile_strings(p: Profile) -> Seq<Seq<char>> {
    seq![p.key@] + p.penalties.penalties@.map_values(|e: (String, u64)| e.0@) + p.access_tags@.map_values(
        |s: String| s@,
    ) + p.oneway_tags@.map_values(|s: String| s@) + p.except_tags@.map_values(|s: String| s@)
}

/// Every string that building a graph from these inputs may give a number.
pub open spec fn input_strings(p: Profile, nodes: Seq<Node>, ways: Seq<Way>, rels: Seq<Relation>) -> Seq<Seq<char>> {
    profile_strings(p) + node_strings(nodes) + way_strings(ways) + relation_strings(rels)
}

proof fn lemma_concat_contains(a: Seq<Seq<char>>, b: Seq<Seq<char>>, x: Seq<char>)
    requires
        a.contains(x) || b.contains(x),
    ensures
        (a + b).contains(x),
{
    if a.contains(x) {
        let i = choose|i: int| 0 <= i < a.len() && a[i] == x;
        assert((a + b)[i] == x);
    } else {
        let j = choose|j: int| 0 <= j < b.len() && b[j] == x;
        assert((a + b)[a.len() + j] == x);
    }
}

proof fn lemma_tag_strings(tags: Seq<(String, String)>, t: int)
    requires
        0 <= t < tags.len(),
    ensures
        tag_strings(tags).contains(tags[t].0@),
        tag_strings(tags).contains(tags[t].1@),
    decreases tags.len(),
{
    let last = seq![tags.last().0@, tags.last().1@];
    if t == tags.len() - 1 {
        assert(last[0] == tags[t].0@);
        assert(last[1] == tags[t].1@);
        lemma_concat_contains(tag_strings(tags.drop_last()), last, tags[t].0@);
        lemma_concat_contains(tag_strings(tags.drop_last()), last, tags[t].1@);
    } else {
        lemma_tag_strings(tags.drop_last(), t);
        assert(tags.drop_last()[t] == tags[t]);
        lemma_concat_contains(tag_strings(tags.drop_last()), last, tags[t].0@);
        lemma_concat_contains(tag_strings(tags.drop_last()), last, tags[t].1@);
    }
}

proof fn lemma_node_strings(nodes: Seq<Node>, k: int, t: int)
    requires
        0 <= k < nodes.len(),
        0 <= t < nodes[k].tags@.len(),
    ensures
        node_strings(nodes).contains(nodes[k].tags@[t].0@),
        node_strings(nodes).contains(nodes[k].tags@[t].1@),
    decreases nodes.len(),
{
    let tags = nodes[k].tags@;
    if k == nodes.len() - 1 {
        lemma_tag_strings(tags, t);
    } else {
        assert(nodes.drop_last()[k] == nodes[k]);
        lemma_node_strings(nodes.drop_last(), k, t);
    }
    lemma_concat_contains(node_strings(nodes.drop_last()), tag_strings(nodes.last().tags@), tags[t].0@);
    lemma_concat_contains(node_strings(nodes.drop_last()), tag_strings(nodes.last().tags@), tags[t].1@);
}

proof fn lemma_way_strings(ways: Seq<Way>, k: int, t: int)
    requires
        0 <= k < ways.len(),
        0 <= t < ways[k].tags@.len(),
    ensures
        way_strings(ways).contains(ways[k].tags@[t].0@),
        way_strings(ways).contains(ways[k].tags@[t].1@),
    decreases ways.len(),
{
    let tags = ways[k].tags@;
    if k == ways.len() - 1 {
        lemma_tag_strings(tags, t);
    } else {
        assert(ways.drop_last()[k] == ways[k]);
        lemma_way_strings(ways.drop_last(), k, t);
    }
    lemma_concat_contains(way_strings(ways.drop_last()), tag_strings(ways.last().tags@), tags[t].0@);
    lemma_concat_contains(way_strings(ways.drop_last()), tag_strings(ways.last().tags@), tags[t].1@);
}

proof fn lemma_relation_strings(rels: Seq<Relation>, k: int, t: int)
    requires
        0 <= k < rels.len(),
        0 <= t < rels[k].tags@.len(),
    ensures
        relation_strings(rels).contains(rels[k].tags@[t].0@),
        relation_strings(rels).contains(rels[k].tags@[t].1@),
    decreases rels.len(),
{
    let tags = rels[k].tags@;
    if k == rels.len() - 1 {
        lemma_tag_strings(tags, t);
    } else {
        assert(rels.drop_last()[k] == rels[k]);
        lemma_relation_strings(rels.drop_last(), k, t);
    }
    lemma_concat_contains(relation_strings(rels.drop_last()), tag_strings(rels.last().tags@), tags[t].0@);
    lemma_concat_contains(relation_strings(rels.drop_last()), tag_strings(rels.last().tags@), tags[t].1@);
}

/// The value of the last pair with key `k`.
pub open spec fn lookup<V>(pairs: Seq<(u32, V)>, k: u32) -> Option<V>
    decreases pairs.len(),
{
    if pairs.len() == 0 {
        None
    } else if pairs.last().0 == k {
        Some(pairs.last().1)
    } else {
        lookup(pairs.drop_last(), k)
    }
}

/// Looks up the value of the last pair with key `k`.
pub fn lookup_exec<V: Copy>(pairs: &Vec<(u32, V)>, k: u32) -> (r: Option<V>)
    ensures
        r == lookup(pairs@, k),
{
    let mut i = pairs.len();
    assert(pairs@.subrange(0, i as int) == pairs@);
    while i > 0
        invariant
            i <= pairs@.len(),
            lookup(pairs@, k) == lookup(pairs@.subrange(0, i as int), k),
        decreases i,
    {
        proof {
            assert(pairs@.subrange(0, i as int).drop_last() == pairs@.subrange(0, i - 1));
        }
        if pairs[i - 1].0 == k {
            return Some(pairs[i - 1].1);
        }
        i = i - 1;
    }
    None
}

/// No string occurs twice.
pub open spec fn all_distinct(strings: Seq<Seq<char>>) -> bool {
    forall|i: int, j: int| 0 <= i < j < strings.len() ==> (#[trigger] strings[i]) != (#[trigger] strings[j])
}

/// Every id of the pairs names a string.
pub open spec fn ids_below(pairs: Seq<(u32, u32)>, n: nat) -> bool {
    forall|i: int| 0 <= i < pairs.len() ==> (#[trigger] pairs[i]).0 < n && pairs[i].1 < n
}

/// Every id of the list names a string.
pub open spec fn list_below(ids: Seq<u32>, n: nat) -> bool {
    forall|i: int| 0 <= i < ids.len() ==> #[trigger] ids[i] < n
}

/// A profile with its strings replaced by their numbers.
pub struct InternedProfile {
    pub key: u32,
    pub penalties: Vec<(u32, u64)>,
    pub default_penalty: Option<u32>,
    pub access_tags: Vec<u32>,
    pub oneway_tags: Vec<u32>,
    pub except_tags: Vec<u32>,
}

/// The number of string `s` among `strings`.
pub open spec fn id_of(strings: Seq<Seq<char>>, s: Seq<char>) -> u32 {
    (choose|i: int| 0 <= i < strings.len() && strings[i] == s) as u32
}

/// A tag list with its strings replaced by their numbers.
pub open spec fn interned_tags(strings: Seq<Seq<char>>, tags: Seq<(String, String)>) -> Seq<(u32, u32)> {
    tags.map_values(|t: (String, String)| (id_of(strings, t.0@), id_of(strings, t.1@)))
}

/// Among distinct strings, a string's number is where it stands.
pub proof fn lemma_id_of(strings: Seq<Seq<char>>, i: int)
    requires
        all_distinct(strings),
        strings.len() <= u32::MAX,
        0 <= i < strings.len(),
    ensures
        id_of(strings, strings[i]) == i,
{
    let c = choose|j: int| 0 <= j < strings.len() && strings[j] == strings[i];
    assert(0 <= c < strings.len() && strings[c] == strings[i]);
    if c < i {
        assert(strings[c] != strings[i]);
    }
    if i < c {
        assert(strings[i] != strings[c]);
    }
}

/// The value of tag `key` among interned tags, as a string.
pub open spec fn tag_str(strings: Seq<Seq<char>>, tags: Seq<(u32, u32)>, key: Seq<char>) -> Option<Seq<char>> {
    if strings.contains(key) {
        match lookup(tags, id_of(strings, key)) {
            Some(v) => Some(strings[v as int]),
            None => None,
        }
    } else {
        None
    }
}

/// A value that grants access.
pub open spec fn permits(v: Seq<char>) -> bool {
    v == "yes"@ || v == "designated"@ || v == "permissive"@
}

/// A value that denies access.
pub open spec fn forbids(v: Seq<char>) -> bool {
    v == "no"@ || v == "private"@ || v == "false"@
}

/// Whether the access tags `keys` let a way through: any granting value does;
/// else any denying value keeps it out; else it is open.
pub open spec fn access_verdict(strings: Seq<Seq<char>>, keys: Seq<u32>, tags: Seq<(u32, u32)>, denied: bool) -> bool
    decreases keys.len(),
{
    if keys.len() == 0 {
        !denied
    } else {
        match lookup(tags, keys[0]) {
            Some(v) => if permits(strings[v as int]) {
                true
            } else {
                access_verdict(strings, keys.drop_first(), tags, denied || forbids(strings[v as int]))
            },
            None => access_verdict(strings, keys.drop_first(), tags, denied),
        }
    }
}

/// Travel directions that the one-way tags `keys` allow, forward and backward:
/// the first of them that the way sets with a known value decides.
pub open spec fn oneway_direction(strings: Seq<Seq<char>>, keys: Seq<u32>, tags: Seq<(u32, u32)>) -> (bool, bool)
    decreases keys.len(),
{
    if keys.len() == 0 {
        (true, true)
    } else {
        match lookup(tags, keys[0]) {
            Some(v) => {
                let s = strings[v as int];
                if s == "yes"@ || s == "true"@ || s == "1"@ {
                    (true, false)
                } else if s == "reverse"@ || s == "-1"@ {
                    (false, true)
                } else if s == "no"@ {
                    (true, true)
                } else {
                    oneway_direction(strings, keys.drop_first(), tags)
                }
            },
            None => oneway_direction(strings, keys.drop_first(), tags),
        }
    }
}

/// Travel directions of a way: roundabouts are one-way forward; else the
/// profile's one-way tags decide.
pub open spec fn way_direction(strings: Seq<Seq<char>>, oneway: Seq<u32>, tags: Seq<(u32, u32)>) -> (bool, bool) {
    let j = tag_str(strings, tags, "junction"@);
    if j == Some("roundabout"@) || j == Some("circular"@) {
        (true, false)
    } else {
        oneway_direction(strings, oneway, tags)
    }
}

/// The penalty of a way: none when its access tags keep it out; else the
/// one the profile lists for its value of the profile's key, or the default.
pub open spec fn way_penalty(
    strings: Seq<Seq<char>>,
    key: u32,
    penalties: Seq<(u32, u64)>,
    default_penalty: Option<u32>,
    access: Seq<u32>,
    tags: Seq<(u32, u32)>,
) -> Option<Penalty> {
    if !access_verdict(strings, access, tags, false) {
        None
    } else {
        let listed = match lookup(tags, key) {
            Some(v) => lookup(penalties, v),
            None => None,
        };
        match listed {
            Some(b) => Some(Penalty::Listed(b)),
            None => match default_penalty {
                Some(d) => Some(Penalty::Default(d)),
                None => None,
            },
        }
    }
}

/// Whether a way is travellable under a numbered profile, its tags taken by
/// their numbers among `strings`: a penalty that makes it travellable, and
/// some direction open.
pub open spec fn way_usable_under(strings: Seq<Seq<char>>, prof: InternedProfile, w: Way) -> bool {
    let tags = interned_tags(strings, w.tags@);
    let pen = way_penalty(
        strings,
        prof.key,
        prof.penalties@,
        prof.default_penalty,
        prof.access_tags@,
        tags,
    );
    let dir = way_direction(strings, prof.oneway_tags@, tags);
    pen matches Some(p) && penalty_usable(p) && (dir.0 || dir.1)
}

/// The numbered profile `prof` is `p` with its strings numbered by their
/// places in `strings`.
pub open spec fn names_profile(strings: Seq<Seq<char>>, prof: InternedProfile, p: Profile) -> bool {
    &&& prof.key < strings.len()
    &&& strings[prof.key as int] == p.key@
    &&& prof.penalties@.len() == p.penalties.penalties@.len()
    &&& forall|i: int| 0 <= i < prof.penalties@.len() ==> (#[trigger] prof.penalties@[i]).0 < strings.len()
        && strings[prof.penalties@[i].0 as int] == p.penalties.penalties@[i].0@ && prof.penalties@[i].1
        == p.penalties.penalties@[i].1
    &&& prof.default_penalty == p.penalties.default
    &&& prof.access_tags@.len() == p.access_tags@.len()
    &&& forall|i: int| 0 <= i < prof.access_tags@.len() ==> (#[trigger] prof.access_tags@[i]) < strings.len()
        && strings[prof.access_tags@[i] as int] == p.access_tags@[i]@
    &&& prof.oneway_tags@.len() == p.oneway_tags@.len()
    &&& forall|i: int| 0 <= i < prof.oneway_tags@.len() ==> (#[trigger] prof.oneway_tags@[i]) < strings.len()
        && strings[prof.oneway_tags@[i] as int] == p.oneway_tags@[i]@
}

/// Naming stays true as more strings get numbers.
pub proof fn lemma_names_profile_extend(small: Seq<Seq<char>>, big: Seq<Seq<char>>, prof: InternedProfile, p: Profile)
    requires
        names_profile(small, prof, p),
        extends(small, big),
    ensures
        names_profile(big, prof, p),
{
    assert(big[prof.key as int] == small[prof.key as int]);
    assert forall|i: int| 0 <= i < prof.penalties@.len() implies (#[trigger] prof.penalties@[i]).0 < big.len()
        && big[prof.penalties@[i].0 as int] == p.penalties.penalties@[i].0@ && prof.penalties@[i].1
        == p.penalties.penalties@[i].1 by {
        assert(big[prof.penalties@[i].0 as int] == small[prof.penalties@[i].0 as int]);
    }
    assert forall|i: int| 0 <= i < prof.access_tags@.len() implies (#[trigger] prof.access_tags@[i]) < big.len()
        && big[prof.access_tags@[i] as int] == p.access_tags@[i]@ by {
        assert(big[prof.access_tags@[i] as int] == small[prof.access_tags@[i] as int]);
    }
    assert forall|i: int| 0 <= i < prof.oneway_tags@.len() implies (#[trigger] prof.oneway_tags@[i]) < big.len()
        && big[prof.oneway_tags@[i] as int] == p.oneway_tags@[i]@ by {
        assert(big[prof.oneway_tags@[i] as int] == small[prof.oneway_tags@[i] as int]);
    }
}

/// Naming holds of the strings that a longer table starts with, as long as
/// they hold the profile's strings.
proof fn lemma_names_profile_shrink(small: Seq<Seq<char>>, big: Seq<Seq<char>>, prof: InternedProfile, p: Profile)
    requires
        names_profile(big, prof, p),
        extends(small, big),
        profile_below(prof, small.len()),
    ensures
        names_profile(small, prof, p),
{
    assert(big[prof.key as int] == small[prof.key as int]);
    assert forall|i: int| 0 <= i < prof.penalties@.len() implies (#[trigger] prof.penalties@[i]).0 < small.len()
        && small[prof.penalties@[i].0 as int] == p.penalties.penalties@[i].0@ && prof.penalties@[i].1
        == p.penalties.penalties@[i].1 by {
        assert(big[prof.penalties@[i].0 as int] == small[prof.penalties@[i].0 as int]);
    }
    assert forall|i: int| 0 <= i < prof.access_tags@.len() implies (#[trigger] prof.access_tags@[i]) < small.len()
        && small[prof.access_tags@[i] as int] == p.access_tags@[i]@ by {
        assert(prof.access_tags@[i] < small.len());
        assert(big[prof.access_tags@[i] as int] == small[prof.access_tags@[i] as int]);
    }
    assert forall|i: int| 0 <= i < prof.oneway_tags@.len() implies (#[trigger] prof.oneway_tags@[i]) < small.len()
        && small[prof.oneway_tags@[i] as int] == p.oneway_tags@[i]@ by {
        assert(prof.oneway_tags@[i] < small.len());
        assert(big[prof.oneway_tags@[i] as int] == small[prof.oneway_tags@[i] as int]);
    }
}

/// The string table of a graph, as text.
pub open spec fn string_table(g: ProcessedGraph) -> Seq<Seq<char>> {
    g.string_interner@.map_values(|s: String| s@)
}

/// Every string of the way's tags is among `strings`.
pub open spec fn tags_numbered(strings: Seq<Seq<char>>, w: Way) -> bool {
    forall|t: int| 0 <= t < w.tags@.len() ==> strings.contains((#[trigger] w.tags@[t]).0@) && strings.contains(
        w.tags@[t].1@,
    )
}

/// The numbers of the profile name strings below `n`.
pub open spec fn profile_below(prof: InternedProfile, n: nat) -> bool {
    &&& prof.key < n
    &&& forall|i: int| 0 <= i < prof.penalties@.len() ==> (#[trigger] prof.penalties@[i]).0 < n
    &&& list_below(prof.access_tags@, n)
    &&& list_below(prof.oneway_tags@, n)
}

/// `big` starts with `small`.
pub open spec fn extends(small: Seq<Seq<char>>, big: Seq<Seq<char>>) -> bool {
    small.len() <= big.len() && forall|i: int| 0 <= i < small.len() ==> #[trigger] big[i] == small[i]
}

proof fn lemma_lookup_found<V>(pairs: Seq<(u32, V)>, k: u32)
    ensures
        lookup(pairs, k) matches Some(v) ==> exists|i: int| 0 <= i < pairs.len() && pairs[i].0 == k && #[trigger] pairs[i].1 == v,
        (forall|i: int| 0 <= i < pairs.len() ==> (#[trigger] pairs[i]).0 != k) ==> lookup(pairs, k) is None,
    decreases pairs.len(),
{
    if pairs.len() > 0 {
        lemma_lookup_found(pairs.drop_last(), k);
        if lookup(pairs.drop_last(), k) is Some && pairs.last().0 != k {
            let v = lookup(pairs, k)->0;
            let i = choose|i: int| 0 <= i < pairs.drop_last().len() && pairs.drop_last()[i].0 == k && #[trigger] pairs.drop_last()[i].1 == v;
            assert(pairs[i] == pairs.drop_last()[i]);
        }
        if forall|i: int| 0 <= i < pairs.len() ==> (#[trigger] pairs[i]).0 != k {
            assert forall|i: int| 0 <= i < pairs.drop_last().len() implies (#[trigger] pairs.drop_last()[i]).0 != k by {
                assert(pairs.drop_last()[i] == pairs[i]);
            }
            assert(pairs[pairs.len() - 1] == pairs.last());
        }
    }
}

/// A string of `small` has the same number in `big`, when `big` starts with
/// `small` and its strings are distinct.
proof fn lemma_id_stable(small: Seq<Seq<char>>, big: Seq<Seq<char>>, x: Seq<char>)
    requires
        extends(small, big),
        all_distinct(big),
        big.len() <= u32::MAX,
        small.contains(x),
    ensures
        id_of(small, x) == id_of(big, x),
        id_of(small, x) < small.len(),
        small[id_of(small, x) as int] == x,
{
    let i = choose|i: int| 0 <= i < small.len() && small[i] == x;
    assert(all_distinct(small)) by {
        assert forall|a: int, b: int| 0 <= a < b < small.len() implies (#[trigger] small[a]) != (#[trigger] small[b]) by {
            assert(big[a] == small[a] && big[b] == small[b]);
        }
    }
    lemma_id_of(small, i);
    assert(big[i] == x);
    lemma_id_of(big, i);
}

/// The verdict on a way does not change as more strings get numbers, once
/// its own and the profile's strings have theirs.
proof fn lemma_usable_stable(small: Seq<Seq<char>>, big: Seq<Seq<char>>, prof: InternedProfile, w: Way)
    requires
        extends(small, big),
        all_distinct(big),
        big.len() <= u32::MAX,
        tags_numbered(small, w),
        profile_below(prof, small.len()),
    ensures
        way_usable_under(small, prof, w) == way_usable_under(big, prof, w),
{
    let ts = w.tags@;
    let a = interned_tags(small, ts);
    let b = interned_tags(big, ts);
    assert(a =~= b) by {
        assert forall|t: int| 0 <= t < ts.len() implies a[t] == b[t] by {
            lemma_id_stable(small, big, ts[t].0@);
            lemma_id_stable(small, big, ts[t].1@);
        }
    }
    assert forall|t: int| 0 <= t < a.len() implies (#[trigger] a[t]).0 < small.len() && a[t].1 < small.len() by {
        lemma_id_stable(small, big, ts[t].0@);
        lemma_id_stable(small, big, ts[t].1@);
    }
    lemma_access_stable(small, big, prof.access_tags@, a, false);
    lemma_oneway_stable(small, big, prof.oneway_tags@, a);
    lemma_tag_str_stable(small, big, a, "junction"@);
    let key_v = lookup(a, prof.key);
    lemma_lookup_found(a, prof.key);
}

proof fn lemma_access_stable(small: Seq<Seq<char>>, big: Seq<Seq<char>>, keys: Seq<u32>, tags: Seq<(u32, u32)>, denied: bool)
    requires
        extends(small, big),
        forall|t: int| 0 <= t < tags.len() ==> (#[trigger] tags[t]).0 < small.len() && tags[t].1 < small.len(),
    ensures
        access_verdict(small, keys, tags, denied) == access_verdict(big, keys, tags, denied),
    decreases keys.len(),
{
    if keys.len() > 0 {
        lemma_lookup_found(tags, keys[0]);
        lemma_access_stable(small, big, keys.drop_first(), tags, true);
        lemma_access_stable(small, big, keys.drop_first(), tags, false);
        lemma_access_stable(small, big, keys.drop_first(), tags, denied);
        match lookup(tags, keys[0]) {
            Some(v) => {
                let i = choose|i: int| 0 <= i < tags.len() && tags[i].0 == keys[0] && #[trigger] tags[i].1 == v;
                assert(v < small.len());
                assert(big[v as int] == small[v as int]);
            },
            None => {},
        }
    }
}

proof fn lemma_oneway_stable(small: Seq<Seq<char>>, big: Seq<Seq<char>>, keys: Seq<u32>, tags: Seq<(u32, u32)>)
    requires
        extends(small, big),
        forall|t: int| 0 <= t < tags.len() ==> (#[trigger] tags[t]).0 < small.len() && tags[t].1 < small.len(),
    ensures
        oneway_direction(small, keys, tags) == oneway_direction(big, keys, tags),
    decreases keys.len(),
{
    if keys.len() > 0 {
        lemma_lookup_found(tags, keys[0]);
        lemma_oneway_stable(small, big, keys.drop_first(), tags);
        match lookup(tags, keys[0]) {
            Some(v) => {
                let i = choose|i: int| 0 <= i < tags.len() && tags[i].0 == keys[0] && #[trigger] tags[i].1 == v;
                assert(big[v as int] == small[v as int]);
            },
            None => {},
        }
    }
}

proof fn lemma_tag_str_stable(small: Seq<Seq<char>>, big: Seq<Seq<char>>, tags: Seq<(u32, u32)>, key: Seq<char>)
    requires
        extends(small, big),
        all_distinct(big),
        big.len() <= u32::MAX,
        forall|t: int| 0 <= t < tags.len() ==> (#[trigger] tags[t]).0 < small.len() && tags[t].1 < small.len(),
    ensures
        tag_str(small, tags, key) == tag_str(big, tags, key),
{
    if small.contains(key) {
        lemma_id_stable(small, big, key);
        let k = id_of(small, key);
        assert(big.contains(key)) by {
            assert(big[k as int] == key);
        }
        lemma_lookup_found(tags, k);
        match lookup(tags, k) {
            Some(v) => {
                let i = choose|i: int| 0 <= i < tags.len() && tags[i].0 == k && #[trigger] tags[i].1 == v;
                assert(big[v as int] == small[v as int]);
            },
            None => {},
        }
    } else if big.contains(key) {
        let j = choose|j: int| 0 <= j < big.len() && big[j] == key;
        lemma_id_of(big, j);
        if j < small.len() {
            assert(small[j] == key);
        }
        lemma_lookup_found(tags, id_of(big, key));
    }
}

/// Builds a routing graph from raw map data under one profile: nodes get
/// dense internal numbers, strings get numbers, ways become edges in the
/// directions they may be travelled, and turn restrictions reshape the
/// edges around their via nodes.
pub struct GraphBuilder<'a> {
    raw_nodes: &'a Vec<Node>,
    raw_ways: &'a Vec<Way>,
    raw_relations: &'a Vec<Relation>,
    node_index: HashMap<i64, usize>,
    interner: StringInterner,
    profile: InternedProfile,
    node_map: HashMap<i64, u32>,
    next_internal_id: u32,
    nodes: Vec<RouteNode>,
    temp_edges: Vec<Vec<(u32, u16)>>,
    processed_ways: Vec<(i64, Vec<i64>, Vec<(u32, u32)>)>,
    way_node_map: HashMap<i64, Vec<i64>>,
    via_node_clones: HashMap<u32, HashMap<i64, u32>>,
    universe: Ghost<Seq<Seq<char>>>,
}

/// Interns a string that lies in `u`, the strings that may be interned.
fn intern_known(interner: &mut StringInterner, s: &str, Ghost(u): Ghost<Seq<Seq<char>>>) -> (id: u32)
    requires
        old(interner).wf(),
        u.len() < u32::MAX,
        forall|i: int| 0 <= i < old(interner).strings().len() ==> u.contains(#[trigger] old(interner).strings()[i]),
        u.contains(s@),
    ensures
        final(interner).wf(),
        forall|i: int| 0 <= i < final(interner).strings().len() ==> u.contains(#[trigger] final(interner).strings()[i]),
        id < final(interner).strings().len(),
        final(interner).strings()[id as int] == s@,
        old(interner).strings().len() <= final(interner).strings().len(),
        forall|i: int| 0 <= i < old(interner).strings().len() ==> #[trigger] final(interner).strings()[i] == old(interner).strings()[i],
{
    proof {
        interner.lemma_distinct();
        let st = interner.strings();
        assert(st.no_duplicates()) by {
            assert forall|i: int, j: int| 0 <= i < st.len() && 0 <= j < st.len() && i != j implies st[i] != st[j] by {
                if i < j {
                    assert(st[i] != st[j]);
                } else {
                    assert(st[j] != st[i]);
                }
            }
        }
        lemma_distinct_within(st, u);
    }
    let id = interner.intern(s);
    proof {
        if old(interner).strings().contains(s@) {
        } else {
            assert forall|i: int| 0 <= i < interner.strings().len() implies u.contains(#[trigger] interner.strings()[i]) by {
                if i < old(interner).strings().len() {
                    assert(interner.strings()[i] == old(interner).strings()[i]);
                }
            }
        }
    }
    id
}

/// Interns the keys and values of a tag list that lie in `u`.
fn intern_tags(interner: &mut StringInterner, tags: &Vec<(String, String)>, Ghost(u): Ghost<Seq<Seq<char>>>) -> (r: Vec<(u32, u32)>)
    requires
        old(interner).wf(),
        u.len() < u32::MAX,
        forall|i: int| 0 <= i < old(interner).strings().len() ==> u.contains(#[trigger] old(interner).strings()[i]),
        forall|t: int| 0 <= t < tags@.len() ==> u.contains((#[trigger] tags@[t]).0@) && u.contains(tags@[t].1@),
    ensures
        final(interner).wf(),
        forall|i: int| 0 <= i < final(interner).strings().len() ==> u.contains(#[trigger] final(interner).strings()[i]),
        old(interner).strings().len() <= final(interner).strings().len(),
        forall|i: int| 0 <= i < old(interner).strings().len() ==> #[trigger] final(interner).strings()[i] == old(interner).strings()[i],
        r@.len() == tags@.len(),
        ids_below(r@, final(interner).strings().len()),
        forall|t: int| 0 <= t < r@.len() ==> final(interner).strings()[(#[trigger] r@[t]).0 as int] == tags@[t].0@
            && final(interner).strings()[r@[t].1 as int] == tags@[t].1@,
        r@ == interned_tags(final(interner).strings(), tags@),
{
    let mut r: Vec<(u32, u32)> = Vec::new();
    let mut t: usize = 0;
    while t < tags.len()
        invariant
            interner.wf(),
            u.len() < u32::MAX,
            forall|i: int| 0 <= i < interner.strings().len() ==> u.contains(#[trigger] interner.strings()[i]),
            forall|t: int| 0 <= t < tags@.len() ==> u.contains((#[trigger] tags@[t]).0@) && u.contains(tags@[t].1@),
            old(interner).strings().len() <= interner.strings().len(),
            forall|i: int| 0 <= i < old(interner).strings().len() ==> #[trigger] interner.strings()[i] == old(interner).strings()[i],
            t <= tags@.len(),
            r@.len() == t,
            ids_below(r@, interner.strings().len()),
            forall|x: int| 0 <= x < r@.len() ==> interner.strings()[(#[trigger] r@[x]).0 as int] == tags@[x].0@
                && interner.strings()[r@[x].1 as int] == tags@[x].1@,
        decreases tags@.len() - t,
    {
        let ghost before = interner.strings();
        let k = intern_known(interner, tags[t].0.as_str(), Ghost(u));
        let v = intern_known(interner, tags[t].1.as_str(), Ghost(u));
        r.push((k, v));
        proof {
            assert forall|x: int| 0 <= x < r@.len() implies interner.strings()[(#[trigger] r@[x]).0 as int] == tags@[x].0@
                && interner.strings()[r@[x].1 as int] == tags@[x].1@ by {
                if x < t {
                    assert(before[r@[x].0 as int] == tags@[x].0@);
                }
            }
        }
        t = t + 1;
    }
    proof {
        interner.lemma_distinct();
        let st = interner.strings();
        assert forall|x: int| 0 <= x < r@.len() implies r@[x] == interned_tags(st, tags@)[x] by {
            lemma_id_of(st, r@[x].0 as int);
            lemma_id_of(st, r@[x].1 as int);
        }
        assert(r@ =~= interned_tags(st, tags@));
    }
    r
}

proof fn lemma_inputs_contain(p: Profile, nodes: Seq<Node>, ways: Seq<Way>, rels: Seq<Relation>)
    ensures
        ({
            let u = input_strings(p, nodes, ways, rels);
            &&& u.contains(p.key@)
            &&& forall|i: int| 0 <= i < p.penalties.penalties@.len() ==> u.contains((#[trigger] p.penalties.penalties@[i]).0@)
            &&& forall|i: int| 0 <= i < p.access_tags@.len() ==> u.contains((#[trigger] p.access_tags@[i])@)
            &&& forall|i: int| 0 <= i < p.oneway_tags@.len() ==> u.contains((#[trigger] p.oneway_tags@[i])@)
            &&& forall|i: int| 0 <= i < p.except_tags@.len() ==> u.contains((#[trigger] p.except_tags@[i])@)
            &&& forall|k: int, t: int| 0 <= k < nodes.len() && 0 <= t < nodes[k].tags@.len()
                ==> u.contains((#[trigger] nodes[k].tags@[t]).0@) && u.contains(nodes[k].tags@[t].1@)
            &&& forall|k: int, t: int| 0 <= k < ways.len() && 0 <= t < ways[k].tags@.len()
                ==> u.contains((#[trigger] ways[k].tags@[t]).0@) && u.contains(ways[k].tags@[t].1@)
            &&& forall|k: int, t: int| 0 <= k < rels.len() && 0 <= t < rels[k].tags@.len()
                ==> u.contains((#[trigger] rels[k].tags@[t]).0@) && u.contains(rels[k].tags@[t].1@)
        }),
{
    let k0 = seq![p.key@];
    let pp = p.penalties.penalties@.map_values(|e: (String, u64)| e.0@);
    let aa = p.access_tags@.map_values(|s: String| s@);
    let oo = p.oneway_tags@.map_values(|s: String| s@);
    let ee = p.except_tags@.map_values(|s: String| s@);
    let ps = profile_strings(p);
    let ns = node_strings(nodes);
    let ws = way_strings(ways);
    let rs = relation_strings(rels);
    let u = input_strings(p, nodes, ways, rels);
    assert forall|x: Seq<char>| ps.contains(x) implies u.contains(x) by {
        lemma_concat_contains(ps, ns, x);
        lemma_concat_contains(ps + ns, ws, x);
        lemma_concat_contains(ps + ns + ws, rs, x);
    }
    assert(k0[0] == p.key@);
    lemma_concat_contains(k0, pp, p.key@);
    lemma_concat_contains(k0 + pp, aa, p.key@);
    lemma_concat_contains(k0 + pp + aa, oo, p.key@);
    lemma_concat_contains(k0 + pp + aa + oo, ee, p.key@);
    assert forall|i: int| 0 <= i < p.penalties.penalties@.len() implies u.contains((#[trigger] p.penalties.penalties@[i]).0@) by {
        let x = p.penalties.penalties@[i].0@;
        assert(pp[i] == x);
        lemma_concat_contains(k0, pp, x);
        lemma_concat_contains(k0 + pp, aa, x);
        lemma_concat_contains(k0 + pp + aa, oo, x);
        lemma_concat_contains(k0 + pp + aa + oo, ee, x);
    }
    assert forall|i: int| 0 <= i < p.access_tags@.len() implies u.contains((#[trigger] p.access_tags@[i])@) by {
        let x = p.access_tags@[i]@;
        assert(aa[i] == x);
        lemma_concat_contains(k0 + pp, aa, x);
        lemma_concat_contains(k0 + pp + aa, oo, x);
        lemma_concat_contains(k0 + pp + aa + oo, ee, x);
    }
    assert forall|i: int| 0 <= i < p.oneway_tags@.len() implies u.contains((#[trigger] p.oneway_tags@[i])@) by {
        let x = p.oneway_tags@[i]@;
        assert(oo[i] == x);
        lemma_concat_contains(k0 + pp + aa, oo, x);
        lemma_concat_contains(k0 + pp + aa + oo, ee, x);
    }
    assert forall|i: int| 0 <= i < p.except_tags@.len() implies u.contains((#[trigger] p.except_tags@[i])@) by {
        let x = p.except_tags@[i]@;
        assert(ee[i] == x);
        lemma_concat_contains(k0 + pp + aa + oo, ee, x);
    }
    assert forall|k: int, t: int| 0 <= k < nodes.len() && 0 <= t < nodes[k].tags@.len()
        implies u.contains((#[trigger] nodes[k].tags@[t]).0@) && u.contains(nodes[k].tags@[t].1@) by {
        lemma_node_strings(nodes, k, t);
        let a = nodes[k].tags@[t].0@;
        let b = nodes[k].tags@[t].1@;
        lemma_concat_contains(ps, ns, a);
        lemma_concat_contains(ps + ns, ws, a);
        lemma_concat_contains(ps + ns + ws, rs, a);
        lemma_concat_contains(ps, ns, b);
        lemma_concat_contains(ps + ns, ws, b);
        lemma_concat_contains(ps + ns + ws, rs, b);
    }
    assert forall|k: int, t: int| 0 <= k < ways.len() && 0 <= t < ways[k].tags@.len()
        implies u.contains((#[trigger] ways[k].tags@[t]).0@) && u.contains(ways[k].tags@[t].1@) by {
        lemma_way_strings(ways, k, t);
        let a = ways[k].tags@[t].0@;
        let b = ways[k].tags@[t].1@;
        lemma_concat_contains(ps + ns, ws, a);
        lemma_concat_contains(ps + ns + ws, rs, a);
        lemma_concat_contains(ps + ns, ws, b);
        lemma_concat_contains(ps + ns + ws, rs, b);
    }
    assert forall|k: int, t: int| 0 <= k < rels.len() && 0 <= t < rels[k].tags@.len()
        implies u.contains((#[trigger] rels[k].tags@[t]).0@) && u.contains(rels[k].tags@[t].1@) by {
        lemma_relation_strings(rels, k, t);
        let a = rels[k].tags@[t].0@;
        let b = rels[k].tags@[t].1@;
        lemma_concat_contains(ps + ns + ws, rs, a);
        lemma_concat_contains(ps + ns + ws, rs, b);
    }
}

impl<'a> GraphBuilder<'a> {
    /// The strings given numbers so far.
    pub closed spec fn strings(&self) -> Seq<Seq<char>> {
        self.interner.strings()
    }

    /// Interning stays within the inputs' strings, of which there are fewer
    /// than `u32::MAX`.
    pub closed spec fn strings_ok(&self) -> bool {
        let u = self.universe@;
        let st = self.interner.strings();
        &&& self.interner.wf()
        &&& u.len() < u32::MAX
        &&& forall|i: int| 0 <= i < st.len() ==> u.contains(#[trigger] st[i])
        &&& forall|k: int, t: int| 0 <= k < self.raw_nodes@.len() && 0 <= t < self.raw_nodes@[k].tags@.len()
            ==> u.contains((#[trigger] self.raw_nodes@[k].tags@[t]).0@) && u.contains(self.raw_nodes@[k].tags@[t].1@)
        &&& forall|k: int, t: int| 0 <= k < self.raw_ways@.len() && 0 <= t < self.raw_ways@[k].tags@.len()
            ==> u.contains((#[trigger] self.raw_ways@[k].tags@[t]).0@) && u.contains(self.raw_ways@[k].tags@[t].1@)
        &&& forall|k: int, t: int| 0 <= k < self.raw_relations@.len() && 0 <= t < self.raw_relations@[k].tags@.len()
            ==> u.contains((#[trigger] self.raw_relations@[k].tags@[t]).0@) && u.contains(self.raw_relations@[k].tags@[t].1@)
    }

    /// The index of raw nodes finds each raw node by its id.
    pub closed spec fn index_ok(&self) -> bool {
        &&& forall|id: i64| #[trigger] self.node_index@.contains_key(id) <==> exists|k: int|
            0 <= k < self.raw_nodes@.len() && self.raw_nodes@[k].id == id
        &&& forall|id: i64| #[trigger] self.node_index@.contains_key(id) ==> self.node_index@[id] < self.raw_nodes@.len()
            && self.raw_nodes@[self.node_index@[id] as int].id == id
    }

    /// The profile's numbers name strings.
    pub closed spec fn profile_ok(&self) -> bool {
        let n = self.interner.strings().len();
        &&& self.profile.key < n
        &&& forall|i: int| 0 <= i < self.profile.penalties@.len() ==> (#[trigger] self.profile.penalties@[i]).0 < n
        &&& list_below(self.profile.access_tags@, n)
        &&& list_below(self.profile.oneway_tags@, n)
        &&& list_below(self.profile.except_tags@, n)
    }

    /// Node `i` has number `i` and its own edge list, sorted and leading to
    /// nodes; every OSM id, way node list and clone refers to existing nodes.
    pub closed spec fn nodes_ok(&self) -> bool {
        let n = self.nodes@.len();
        let ns = self.interner.strings().len();
        &&& self.next_internal_id == n
        &&& n < u32::MAX
        &&& self.temp_edges@.len() == n
        &&& forall|i: int| 0 <= i < n ==> (#[trigger] self.nodes@[i]).id == i && ids_below(self.nodes@[i].tags@, ns)
        &&& forall|i: int| 0 <= i < n ==> sorted_targets((#[trigger] self.temp_edges@[i])@) && targets_below(self.temp_edges@[i]@, n)
        &&& forall|k: i64| #[trigger] self.node_map@.contains_key(k) ==> self.node_map@[k] < n
            && self.nodes@[self.node_map@[k] as int].external_id == k
        &&& forall|w: i64, j: int| self.way_node_map@.contains_key(w) && 0 <= j < self.way_node_map@[w]@.len()
            ==> self.node_map@.contains_key(#[trigger] self.way_node_map@[w]@[j]) && self.node_index@.contains_key(self.way_node_map@[w]@[j])
        &&& forall|p: int, j: int| 0 <= p < self.processed_ways@.len() && 0 <= j < self.processed_ways@[p].1@.len()
            ==> self.node_map@.contains_key(#[trigger] self.processed_ways@[p].1@[j])
        &&& forall|p: int| 0 <= p < self.processed_ways@.len() ==> ids_below((#[trigger] self.processed_ways@[p]).2@, ns)
        &&& forall|f: u32, t: i64| self.via_node_clones@.contains_key(f) && #[trigger] self.via_node_clones@[f]@.contains_key(t)
            ==> self.node_map@.contains_key(t) && self.via_node_clones@[f]@[t] < n
    }

    /// Every edge costs what `cost` gave for the raw nodes of the OSM ids of
    /// its two ends.
    spec fn edges_priced<C: EdgeCost>(&self, cost: C) -> bool {
        &&& forall|i: int, t: u32|
            0 <= i < self.temp_edges@.len() && #[trigger] edge_map(self.temp_edges@[i]@).contains_key(t) ==> edge_priced(
                self.raw_nodes@,
                cost,
                self.nodes@[i].external_id,
                self.nodes@[t as int].external_id,
                edge_map(self.temp_edges@[i]@)[t],
            )
        &&& self.edges_priced_by_ways(cost)
    }

    /// Under every profile that the numbered profile names, every edge costs
    /// what `cost` gave for the raw nodes of its two ends' OSM ids under the
    /// penalty of a raw way.
    spec fn edges_priced_by_ways<C: EdgeCost>(&self, cost: C) -> bool {
        forall|p: Profile, i: int, t: u32|
            #![trigger names_profile(self.strings(), self.profile, p), edge_map(self.temp_edges@[i]@).contains_key(t)]
            names_profile(self.strings(), self.profile, p) && 0 <= i < self.temp_edges@.len() && edge_map(
                self.temp_edges@[i]@,
            ).contains_key(t) ==> edge_priced_by_way(
                self.raw_nodes@,
                self.raw_ways@,
                p,
                cost,
                self.nodes@[i].external_id,
                self.nodes@[t as int].external_id,
                edge_map(self.temp_edges@[i]@)[t],
            )
    }

    /// Numbering more strings, with the edges, nodes and raw data unchanged,
    /// keeps the edges priced by ways.
    proof fn lemma_priced_grows<C: EdgeCost>(b0: &Self, b1: &Self, cost: C)
        requires
            b0.wf(),
            b0.edges_priced_by_ways(cost),
            extends(b0.strings(), b1.strings()),
            b1.profile == b0.profile,
            b1.temp_edges == b0.temp_edges,
            b1.nodes == b0.nodes,
            b1.raw_nodes == b0.raw_nodes,
            b1.raw_ways == b0.raw_ways,
        ensures
            b1.edges_priced_by_ways(cost),
    {
        assert(profile_below(b0.profile, b0.strings().len()));
        assert forall|p: Profile, i: int, t: u32|
            #![trigger names_profile(b1.strings(), b1.profile, p), edge_map(b1.temp_edges@[i]@).contains_key(t)]
            names_profile(b1.strings(), b1.profile, p) && 0 <= i < b1.temp_edges@.len() && edge_map(
                b1.temp_edges@[i]@,
            ).contains_key(t) implies edge_priced_by_way(
                b1.raw_nodes@,
                b1.raw_ways@,
                p,
                cost,
                b1.nodes@[i].external_id,
                b1.nodes@[t as int].external_id,
                edge_map(b1.temp_edges@[i]@)[t],
            ) by {
            lemma_names_profile_shrink(b0.strings(), b1.strings(), b0.profile, p);
        }
    }

    /// A clone is no node that an OSM id maps to.
    proof fn lemma_clone_apart(&self, f: u32, t: i64, k: i64)
        requires
            self.clones_apart(),
            self.via_node_clones@.contains_key(f),
            self.via_node_clones@[f]@.contains_key(t),
            self.node_map@.contains_key(k),
        ensures
            self.via_node_clones@[f]@[t] != self.node_map@[k],
    {
        assert(self.via_node_clones@[f]@[t] != self.node_map@[k]);
    }

    /// A restriction along `path` cannot start here: its first node has no
    /// edge to its second, or no clone of the second node for the first is
    /// recorded and no number is left for one.
    spec fn blocked_at_first_step(&self, path: Seq<i64>) -> bool {
        let m = self.node_map@;
        let a = m[path[0]];
        ||| !edge_map(self.temp_edges@[a as int]@).contains_key(m[path[1]])
        ||| self.nodes@.len() + 2 >= u32::MAX && !(self.via_node_clones@.contains_key(a)
            && self.via_node_clones@[a]@.contains_key(path[1]))
    }

    /// Every edge target that a node of `b0` gained on the way to `b1` is a
    /// clone.
    spec fn gains_only_clones(b0: Self, b1: Self) -> bool {
        forall|x: int, t: u32| 0 <= x < b0.nodes@.len() && #[trigger] edge_map(b1.temp_edges@[x]@).contains_key(t)
            && !edge_map(b0.temp_edges@[x]@).contains_key(t) ==> not_plain(b0.node_map@, t)
    }

    /// No clone shares its number with a node that an OSM id maps to.
    spec fn clones_apart(&self) -> bool {
        forall|f: u32, t: i64, k: i64|
            #![trigger self.via_node_clones@[f]@[t], self.node_map@[k]]
            self.via_node_clones@.contains_key(f) && self.via_node_clones@[f]@.contains_key(t)
                && self.node_map@.contains_key(k) ==> self.via_node_clones@[f]@[t] != self.node_map@[k]
    }

    pub closed spec fn wf(&self) -> bool {
        &&& self.strings_ok()
        &&& self.index_ok()
        &&& self.profile_ok()
        &&& self.nodes_ok()
    }

    /// A builder for a graph of the given raw data under `profile`, with the
    /// profile's strings numbered.
    pub fn new(
        profile: &'a Profile,
        raw_nodes: &'a Vec<Node>,
        raw_ways: &'a Vec<Way>,
        raw_relations: &'a Vec<Relation>,
    ) -> (b: Self)
        requires
            input_strings(*profile, raw_nodes@, raw_ways@, raw_relations@).len() < u32::MAX,
            raw_nodes@.len() < u32::MAX,
        ensures
            b.fresh(),
            names_profile(b.strings(), b.numbered_profile(), *profile),
            b.input_nodes() == raw_nodes@,
            b.input_ways() == raw_ways@,
            b.input_relations() == raw_relations@,
    {
        let ghost u = input_strings(*profile, raw_nodes@, raw_ways@, raw_relations@);
        proof {
            lemma_inputs_contain(*profile, raw_nodes@, raw_ways@, raw_relations@);
        }
        let mut interner = StringInterner::new();
        let key = intern_known(&mut interner, profile.key.as_str(), Ghost(u));
        let pens = &profile.penalties.penalties;
        let mut penalties: Vec<(u32, u64)> = Vec::new();
        let mut i: usize = 0;
        while i < pens.len()
            invariant
                interner.wf(),
                u.len() < u32::MAX,
                forall|x: int| 0 <= x < interner.strings().len() ==> u.contains(#[trigger] interner.strings()[x]),
                forall|x: int| 0 <= x < pens@.len() ==> u.contains((#[trigger] pens@[x]).0@),
                key < interner.strings().len(),
                i <= pens@.len(),
                forall|x: int| 0 <= x < penalties@.len() ==> (#[trigger] penalties@[x]).0 < interner.strings().len(),
                interner.strings()[key as int] == profile.key@,
                penalties@.len() == i,
                *pens == profile.penalties.penalties,
                forall|x: int| 0 <= x < penalties@.len() ==> interner.strings()[(#[trigger] penalties@[x]).0 as int]
                    == pens@[x].0@ && penalties@[x].1 == pens@[x].1,
            decreases pens@.len() - i,
        {
            let ghost s0 = interner.strings();
            let ghost pen0 = penalties@;
            let id = intern_known(&mut interner, pens[i].0.as_str(), Ghost(u));
            penalties.push((id, pens[i].1));
            proof {
                assert forall|x: int| 0 <= x < penalties@.len() implies interner.strings()[(#[trigger] penalties@[x]).0 as int]
                    == pens@[x].0@ && penalties@[x].1 == pens@[x].1 by {
                    if x < i {
                        assert(penalties@[x] == pen0[x]);
                        assert(interner.strings()[pen0[x].0 as int] == s0[pen0[x].0 as int]);
                    }
                }
            }
            i = i + 1;
        }
        let ghost s1 = interner.strings();
        let access_tags = intern_list(&mut interner, &profile.access_tags, Ghost(u));
        let ghost s2 = interner.strings();
        let oneway_tags = intern_list(&mut interner, &profile.oneway_tags, Ghost(u));
        let ghost s3 = interner.strings();
        let except_tags = intern_list(&mut interner, &profile.except_tags, Ghost(u));
        let ghost s4 = interner.strings();
        let ghost prof = InternedProfile {
            key,
            penalties,
            default_penalty: profile.penalties.default,
            access_tags,
            oneway_tags,
            except_tags,
        };
        proof {
            assert(extends(s1, s2) && extends(s2, s3) && extends(s3, s4));
            assert(names_profile(s4, prof, *profile)) by {
                assert(s4[key as int] == s1[key as int]);
                assert forall|x: int| 0 <= x < prof.penalties@.len() implies (#[trigger] prof.penalties@[x]).0 < s4.len()
                    && s4[prof.penalties@[x].0 as int] == profile.penalties.penalties@[x].0@ && prof.penalties@[x].1
                    == profile.penalties.penalties@[x].1 by {
                    assert(s4[prof.penalties@[x].0 as int] == s1[prof.penalties@[x].0 as int]);
                }
                assert forall|x: int| 0 <= x < prof.access_tags@.len() implies (#[trigger] prof.access_tags@[x]) < s4.len()
                    && s4[prof.access_tags@[x] as int] == profile.access_tags@[x]@ by {
                    assert(s4[prof.access_tags@[x] as int] == s2[prof.access_tags@[x] as int]);
                }
                assert forall|x: int| 0 <= x < prof.oneway_tags@.len() implies (#[trigger] prof.oneway_tags@[x]) < s4.len()
                    && s4[prof.oneway_tags@[x] as int] == profile.oneway_tags@[x]@ by {
                    assert(s4[prof.oneway_tags@[x] as int] == s3[prof.oneway_tags@[x] as int]);
                }
            }
        }
        let mut node_index: HashMap<i64, usize> = HashMap::new();
        let mut k: usize = 0;
        while k < raw_nodes.len()
            invariant
                k <= raw_nodes@.len(),
                forall|id: i64| #[trigger] node_index@.contains_key(id) <==> exists|j: int|
                    0 <= j < k && raw_nodes@[j].id == id,
                forall|id: i64| #[trigger] node_index@.contains_key(id) ==> node_index@[id] < k
                    && raw_nodes@[node_index@[id] as int].id == id,
            decreases raw_nodes@.len() - k,
        {
            node_index.insert(raw_nodes[k].id, k);
            proof {
                assert forall|id: i64| #[trigger] node_index@.contains_key(id) implies exists|j: int|
                    0 <= j < k + 1 && raw_nodes@[j].id == id by {
                    if id == raw_nodes@[k as int].id {
                        assert(raw_nodes@[k as int].id == id);
                    }
                }
            }
            k = k + 1;
        }
        assert(k == raw_nodes@.len());
        assert forall|id: i64| #[trigger] node_index@.contains_key(id) <==> exists|j: int|
            0 <= j < raw_nodes@.len() && raw_nodes@[j].id == id by {
            if exists|j: int| 0 <= j < raw_nodes@.len() && raw_nodes@[j].id == id {
                let j = choose|j: int| 0 <= j < raw_nodes@.len() && raw_nodes@[j].id == id;
                assert(0 <= j < k && raw_nodes@[j].id == id);
            }
        }
        let b = GraphBuilder {
            raw_nodes,
            raw_ways,
            raw_relations,
            node_index,
            interner,
            profile: InternedProfile {
                key,
                penalties,
                default_penalty: profile.penalties.default,
                access_tags,
                oneway_tags,
                except_tags,
            },
            node_map: HashMap::new(),
            next_internal_id: 0,
            nodes: Vec::new(),
            temp_edges: Vec::new(),
            processed_ways: Vec::new(),
            way_node_map: HashMap::new(),
            via_node_clones: HashMap::new(),
            universe: Ghost(u),
        };
        assert(b.node_index@ == node_index@);
        assert(b.raw_nodes@ == raw_nodes@);
        assert(b.profile == prof);
        assert(b.strings() == s4);
        b
    }
}

/// Interns a list of strings that lie in `u`.
fn intern_list(interner: &mut StringInterner, list: &Vec<String>, Ghost(u): Ghost<Seq<Seq<char>>>) -> (r: Vec<u32>)
    requires
        old(interner).wf(),
        u.len() < u32::MAX,
        forall|i: int| 0 <= i < old(interner).strings().len() ==> u.contains(#[trigger] old(interner).strings()[i]),
        forall|t: int| 0 <= t < list@.len() ==> u.contains((#[trigger] list@[t])@),
    ensures
        final(interner).wf(),
        forall|i: int| 0 <= i < final(interner).strings().len() ==> u.contains(#[trigger] final(interner).strings()[i]),
        old(interner).strings().len() <= final(interner).strings().len(),
        forall|i: int| 0 <= i < old(interner).strings().len() ==> #[trigger] final(interner).strings()[i] == old(interner).strings()[i],
        r@.len() == list@.len(),
        list_below(r@, final(interner).strings().len()),
        forall|t: int| 0 <= t < r@.len() ==> final(interner).strings()[(#[trigger] r@[t]) as int] == list@[t]@,
{
    let mut r: Vec<u32> = Vec::new();
    let mut t: usize = 0;
    while t < list.len()
        invariant
            interner.wf(),
            u.len() < u32::MAX,
            forall|i: int| 0 <= i < interner.strings().len() ==> u.contains(#[trigger] interner.strings()[i]),
            forall|t: int| 0 <= t < list@.len() ==> u.contains((#[trigger] list@[t])@),
            old(interner).strings().len() <= interner.strings().len(),
            forall|i: int| 0 <= i < old(interner).strings().len() ==> #[trigger] interner.strings()[i] == old(interner).strings()[i],
            t <= list@.len(),
            r@.len() == t,
            list_below(r@, interner.strings().len()),
            forall|x: int| 0 <= x < r@.len() ==> interner.strings()[(#[trigger] r@[x]) as int] == list@[x]@,
        decreases list@.len() - t,
    {
        let ghost before = interner.strings();
        let id = intern_known(interner, list[t].as_str(), Ghost(u));
        r.push(id);
        proof {
            assert forall|x: int| 0 <= x < r@.len() implies interner.strings()[(#[trigger] r@[x]) as int] == list@[x]@ by {
                if x < t {
                    assert(before[r@[x] as int] == list@[x]@);
                }
            }
        }
        t = t + 1;
    }
    r
}

/// Whether `v` numbers the string `lit`, given the number of `lit`, if any.
fn names(v: u32, id: Option<u32>, Ghost(st): Ghost<Seq<Seq<char>>>, Ghost(lit): Ghost<Seq<char>>) -> (b: bool)
    requires
        all_distinct(st),
        v < st.len(),
        match id {
            Some(i) => i < st.len() && st[i as int] == lit,
            None => !st.contains(lit),
        },
    ensures
        b == (st[v as int] == lit),
{
    match id {
        Some(i) => {
            proof {
                if v < i {
                    assert(st[v as int] != st[i as int]);
                }
                if i < v {
                    assert(st[i as int] != st[v as int]);
                }
            }
            v == i
        },
        None => {
            proof {
                if st[v as int] == lit {
                    assert(st.contains(lit));
                }
            }
            false
        },
    }
}

impl<'a> GraphBuilder<'a> {
    /// The number of `lit`, if it has one.
    fn lit_id(&self, lit: &str) -> (r: Option<u32>)
        requires
            self.wf(),
        ensures
            match r {
                Some(i) => i < self.strings().len() && self.strings()[i as int] == lit@,
                None => !self.strings().contains(lit@),
            },
    {
        self.interner.get(lit)
    }

    proof fn lemma_strings_distinct(&self)
        requires
            self.wf(),
        ensures
            all_distinct(self.strings()),
            self.strings().len() <= u32::MAX,
    {
        self.interner.lemma_distinct();
    }

    /// Whether the profile's access tags let a way with these tags through.
    fn is_way_accessible(&self, tags: &Vec<(u32, u32)>) -> (b: bool)
        requires
            self.wf(),
            ids_below(tags@, self.strings().len()),
        ensures
            b == access_verdict(self.strings(), self.profile.access_tags@, tags@, false),
    {
        proof {
            self.lemma_strings_distinct();
            reveal_strlit("yes");
            reveal_strlit("designated");
            reveal_strlit("permissive");
            reveal_strlit("no");
            reveal_strlit("private");
            reveal_strlit("false");
        }
        let ghost st = self.strings();
        let yes_id = self.lit_id("yes");
        let designated_id = self.lit_id("designated");
        let permissive_id = self.lit_id("permissive");
        let no_id = self.lit_id("no");
        let private_id = self.lit_id("private");
        let false_id = self.lit_id("false");
        let keys = &self.profile.access_tags;
        let mut denied = false;
        let mut i: usize = 0;
        assert(keys@.subrange(0, keys@.len() as int) == keys@);
        while i < keys.len()
            invariant
                self.wf(),
                st == self.strings(),
                all_distinct(st),
                ids_below(tags@, st.len()),
                match yes_id { Some(x) => x < st.len() && st[x as int] == "yes"@, None => !st.contains("yes"@) },
                match designated_id { Some(x) => x < st.len() && st[x as int] == "designated"@, None => !st.contains("designated"@) },
                match permissive_id { Some(x) => x < st.len() && st[x as int] == "permissive"@, None => !st.contains("permissive"@) },
                match no_id { Some(x) => x < st.len() && st[x as int] == "no"@, None => !st.contains("no"@) },
                match private_id { Some(x) => x < st.len() && st[x as int] == "private"@, None => !st.contains("private"@) },
                match false_id { Some(x) => x < st.len() && st[x as int] == "false"@, None => !st.contains("false"@) },
                i <= keys@.len(),
                keys@ == self.profile.access_tags@,
                access_verdict(st, keys@, tags@, false) == access_verdict(st, keys@.subrange(i as int, keys@.len() as int), tags@, denied),
            decreases keys@.len() - i,
        {
            let ghost rest = keys@.subrange(i as int, keys@.len() as int);
            assert(rest[0] == keys@[i as int]);
            assert(rest.drop_first() == keys@.subrange(i + 1, keys@.len() as int));
            match lookup_exec(tags, keys[i]) {
                Some(v) => {
                    assert(lookup(tags@, keys@[i as int]) == Some(v));
                    proof {
                        if lookup(tags@, keys@[i as int]) == Some(v) {
                            lemma_lookup_in(tags@, keys@[i as int]);
                        }
                    }
                    if names(v, yes_id, Ghost(st), Ghost("yes"@)) || names(v, designated_id, Ghost(st), Ghost("designated"@))
                        || names(v, permissive_id, Ghost(st), Ghost("permissive"@)) {
                        return true;
                    }
                    if names(v, no_id, Ghost(st), Ghost("no"@)) || names(v, private_id, Ghost(st), Ghost("private"@))
                        || names(v, false_id, Ghost(st), Ghost("false"@)) {
                        denied = true;
                    }
                },
                None => {},
            }
            i = i + 1;
        }
        !denied
    }
}

/// A value found by key is one of the pairs' values.
pub proof fn lemma_lookup_in<V>(pairs: Seq<(u32, V)>, k: u32)
    ensures
        lookup(pairs, k) matches Some(v) ==> exists|i: int| 0 <= i < pairs.len() && #[trigger] pairs[i] == (k, v),
    decreases pairs.len(),
{
    if pairs.len() > 0 {
        if pairs.last().0 == k {
            assert(pairs[pairs.len() - 1] == (k, pairs.last().1));
        } else {
            lemma_lookup_in(pairs.drop_last(), k);
            match lookup(pairs, k) {
                Some(v) => {
                    let i = choose|i: int| 0 <= i < pairs.drop_last().len() && #[trigger] pairs.drop_last()[i] == (k, v);
                    assert(pairs[i] == (k, v));
                },
                None => {},
            }
        }
    }
}

impl<'a> GraphBuilder<'a> {
    /// The index of raw nodes depends on the raw nodes and the index alone.
    proof fn lemma_index_same(b0: &Self, b1: &Self)
        requires
            b0.index_ok(),
            b1.node_index == b0.node_index,
            b1.raw_nodes == b0.raw_nodes,
        ensures
            b1.index_ok(),
    {
        assert(b1.node_index@ == b0.node_index@);
        assert(b1.raw_nodes@ == b0.raw_nodes@);
    }

    /// Numbering more strings keeps the builder well formed.
    proof fn lemma_interner_grows(b0: &Self, b1: &Self)
        requires
            b0.wf(),
            b1.interner.wf(),
            forall|i: int| 0 <= i < b1.interner.strings().len() ==> b1.universe@.contains(#[trigger] b1.interner.strings()[i]),
            b0.interner.strings().len() <= b1.interner.strings().len(),
            b1.raw_nodes == b0.raw_nodes,
            b1.raw_ways == b0.raw_ways,
            b1.raw_relations == b0.raw_relations,
            b1.node_index == b0.node_index,
            b1.profile == b0.profile,
            b1.node_map == b0.node_map,
            b1.next_internal_id == b0.next_internal_id,
            b1.nodes == b0.nodes,
            b1.temp_edges == b0.temp_edges,
            b1.processed_ways == b0.processed_ways,
            b1.way_node_map == b0.way_node_map,
            b1.via_node_clones == b0.via_node_clones,
            b1.universe == b0.universe,
        ensures
            b1.wf(),
    {
        let n0 = b0.interner.strings().len();
        let n1 = b1.interner.strings().len();
        assert forall|i: int| 0 <= i < b1.nodes@.len() implies ids_below((#[trigger] b1.nodes@[i]).tags@, n1) by {
            assert(ids_below(b0.nodes@[i].tags@, n0));
        }
        assert forall|p: int| 0 <= p < b1.processed_ways@.len() implies ids_below((#[trigger] b1.processed_ways@[p]).2@, n1) by {
            assert(ids_below(b0.processed_ways@[p].2@, n0));
        }
        Self::lemma_index_same(b0, b1);
    }

    /// Travel directions that a way with these tags allows.
    fn get_way_direction(&self, tags: &Vec<(u32, u32)>) -> (r: (bool, bool))
        requires
            self.wf(),
            ids_below(tags@, self.strings().len()),
        ensures
            r == way_direction(self.strings(), self.profile.oneway_tags@, tags@),
    {
        proof {
            self.lemma_strings_distinct();
            reveal_strlit("junction");
            reveal_strlit("roundabout");
            reveal_strlit("circular");
            reveal_strlit("yes");
            reveal_strlit("true");
            reveal_strlit("1");
            reveal_strlit("reverse");
            reveal_strlit("-1");
            reveal_strlit("no");
        }
        let ghost st = self.strings();
        if let Some(j) = self.lit_id("junction") {
            proof {
                lemma_id_of(st, j as int);
            }
            if let Some(v) = lookup_exec(tags, j) {
                proof {
                    lemma_lookup_in(tags@, j);
                }
                let round = self.lit_id("roundabout");
                let circ = self.lit_id("circular");
                if names(v, round, Ghost(st), Ghost("roundabout"@)) || names(v, circ, Ghost(st), Ghost("circular"@)) {
                    return (true, false);
                }
            }
        }
        assert(!(tag_str(st, tags@, "junction"@) == Some("roundabout"@) || tag_str(st, tags@, "junction"@) == Some("circular"@)));
        let yes_id = self.lit_id("yes");
        let true_id = self.lit_id("true");
        let one_id = self.lit_id("1");
        let reverse_id = self.lit_id("reverse");
        let minus_one_id = self.lit_id("-1");
        let no_id = self.lit_id("no");
        let keys = &self.profile.oneway_tags;
        let mut i: usize = 0;
        assert(keys@.subrange(0, keys@.len() as int) == keys@);
        while i < keys.len()
            invariant
                self.wf(),
                st == self.strings(),
                all_distinct(st),
                ids_below(tags@, st.len()),
                match yes_id { Some(x) => x < st.len() && st[x as int] == "yes"@, None => !st.contains("yes"@) },
                match true_id { Some(x) => x < st.len() && st[x as int] == "true"@, None => !st.contains("true"@) },
                match one_id { Some(x) => x < st.len() && st[x as int] == "1"@, None => !st.contains("1"@) },
                match reverse_id { Some(x) => x < st.len() && st[x as int] == "reverse"@, None => !st.contains("reverse"@) },
                match minus_one_id { Some(x) => x < st.len() && st[x as int] == "-1"@, None => !st.contains("-1"@) },
                match no_id { Some(x) => x < st.len() && st[x as int] == "no"@, None => !st.contains("no"@) },
                i <= keys@.len(),
                keys@ == self.profile.oneway_tags@,
                !(tag_str(st, tags@, "junction"@) == Some("roundabout"@) || tag_str(st, tags@, "junction"@) == Some("circular"@)),
                oneway_direction(st, keys@, tags@) == oneway_direction(st, keys@.subrange(i as int, keys@.len() as int), tags@),
            decreases keys@.len() - i,
        {
            let ghost rest = keys@.subrange(i as int, keys@.len() as int);
            assert(rest[0] == keys@[i as int]);
            assert(rest.drop_first() == keys@.subrange(i + 1, keys@.len() as int));
            if let Some(v) = lookup_exec(tags, keys[i]) {
                proof {
                    lemma_lookup_in(tags@, keys@[i as int]);
                }
                if names(v, yes_id, Ghost(st), Ghost("yes"@)) || names(v, true_id, Ghost(st), Ghost("true"@))
                    || names(v, one_id, Ghost(st), Ghost("1"@)) {
                    return (true, false);
                }
                if names(v, reverse_id, Ghost(st), Ghost("reverse"@)) || names(v, minus_one_id, Ghost(st), Ghost("-1"@)) {
                    return (false, true);
                }
                if names(v, no_id, Ghost(st), Ghost("no"@)) {
                    return (true, true);
                }
            }
            i = i + 1;
        }
        (true, true)
    }

    /// The penalty of a way with these tags, if it can be travelled.
    fn get_way_penalty(&self, tags: &Vec<(u32, u32)>) -> (r: Option<Penalty>)
        requires
            self.wf(),
            ids_below(tags@, self.strings().len()),
        ensures
            r == way_penalty(
                self.strings(),
                self.profile.key,
                self.profile.penalties@,
                self.profile.default_penalty,
                self.profile.access_tags@,
                tags@,
            ),
    {
        if !self.is_way_accessible(tags) {
            return None;
        }
        let listed = match lookup_exec(tags, self.profile.key) {
            Some(v) => lookup_exec(&self.profile.penalties, v),
            None => None,
        };
        match listed {
            Some(b) => Some(Penalty::Listed(b)),
            None => match self.profile.default_penalty {
                Some(d) => Some(Penalty::Default(d)),
                None => None,
            },
        }
    }

    /// Whether raw way `w` can be travelled: its access tags let it through,
    /// it has a penalty that makes it travellable, and some direction is open.
    fn is_way_usable<C: EdgeCost>(&mut self, w: usize, cost: &C) -> (b: bool)
        requires
            old(self).wf(),
            w < old(self).raw_ways@.len(),
        ensures
            final(self).wf(),
            ({
                let st = final(self).strings();
                let tags = interned_tags(st, final(self).raw_ways@[w as int].tags@);
                let pen = way_penalty(
                    st,
                    final(self).profile.key,
                    final(self).profile.penalties@,
                    final(self).profile.default_penalty,
                    final(self).profile.access_tags@,
                    tags,
                );
                let dir = way_direction(st, final(self).profile.oneway_tags@, tags);
                &&& b == (pen matches Some(p) && penalty_usable(p) && (dir.0 || dir.1))
                &&& tags_numbered(st, final(self).raw_ways@[w as int])
            }),
            final(self).nodes == old(self).nodes,
            final(self).node_map == old(self).node_map,
            final(self).temp_edges == old(self).temp_edges,
            final(self).processed_ways == old(self).processed_ways,
            final(self).way_node_map == old(self).way_node_map,
            final(self).via_node_clones == old(self).via_node_clones,
            final(self).raw_ways == old(self).raw_ways,
            final(self).raw_nodes == old(self).raw_nodes,
            final(self).node_index == old(self).node_index,
            final(self).raw_relations == old(self).raw_relations,
            final(self).profile == old(self).profile,
            old(self).strings().len() <= final(self).strings().len(),
            forall|i: int| 0 <= i < old(self).strings().len() ==> #[trigger] final(self).strings()[i] == old(self).strings()[i],
    {
        let ways: &Vec<Way> = self.raw_ways;
        let way = &ways[w];
        let ghost u = self.universe@;
        let tags = intern_tags(&mut self.interner, &way.tags, Ghost(u));
        proof {
            Self::lemma_interner_grows(old(self), self);
        }
        proof {
            let way_v = self.raw_ways@[w as int];
            assert forall|t: int| 0 <= t < way_v.tags@.len() implies self.strings().contains((#[trigger] way_v.tags@[t]).0@)
                && self.strings().contains(way_v.tags@[t].1@) by {
                assert(self.strings()[tags@[t].0 as int] == way_v.tags@[t].0@);
                assert(self.strings()[tags@[t].1 as int] == way_v.tags@[t].1@);
            }
        }
        let penalty = self.get_way_penalty(&tags);
        let usable_penalty = match penalty {
            None => false,
            Some(Penalty::Listed(bits)) => listed_penalty_usable(bits),
            Some(Penalty::Default(d)) => d >= 1,
        };
        if !usable_penalty {
            return false;
        }
        let (forward, backward) = self.get_way_direction(&tags);
        forward || backward
    }
}

impl<'a> GraphBuilder<'a> {
    /// Before turn restrictions, every node stands for its own raw node:
    /// the OSM id map sends each node's external id back to it.
    closed spec fn phase1_ok(&self) -> bool {
        &&& forall|i: int| 0 <= i < self.nodes@.len() ==> self.node_map@.contains_key((#[trigger] self.nodes@[i]).external_id)
            && self.node_map@[self.nodes@[i].external_id] == i
        &&& forall|i: int| 0 <= i < self.nodes@.len() ==> self.node_index@.contains_key((#[trigger] self.nodes@[i]).external_id)
    }

    /// While every node stands for its own raw node, there is room for one
    /// more node of a raw id that has none yet.
    proof fn lemma_room_for_node(&self, osm: i64)
        requires
            self.wf(),
            self.phase1_ok(),
            self.node_index@.contains_key(osm),
            !self.node_map@.contains_key(osm),
        ensures
            self.nodes@.len() + 1 <= self.raw_nodes@.len(),
    {
        let ext = self.nodes@.map_values(|n: RouteNode| n.external_id).push(osm);
        let raw = self.raw_nodes@.map_values(|n: Node| n.id);
        assert(ext.no_duplicates()) by {
            assert forall|i: int, j: int| 0 <= i < ext.len() && 0 <= j < ext.len() && i != j implies ext[i] != ext[j] by {
                if i < self.nodes@.len() && j < self.nodes@.len() {
                    assert(self.node_map@[self.nodes@[i].external_id] == i);
                    assert(self.node_map@[self.nodes@[j].external_id] == j);
                } else if i < self.nodes@.len() {
                    assert(self.node_map@.contains_key(self.nodes@[i].external_id));
                } else if j < self.nodes@.len() {
                    assert(self.node_map@.contains_key(self.nodes@[j].external_id));
                }
            }
        }
        assert forall|i: int| 0 <= i < ext.len() implies raw.contains(#[trigger] ext[i]) by {
            let id = ext[i];
            if i < self.nodes@.len() {
                assert(self.node_index@.contains_key(self.nodes@[i].external_id));
            }
            let k = self.node_index@[id] as int;
            assert(raw[k] == id);
        }
        lemma_distinct_within(ext, raw);
    }

    /// The internal number of raw node `osm_node_id`, giving it the next
    /// number, an empty edge list and its numbered tags when it has none.
    fn get_or_create_internal_node(&mut self, osm_node_id: i64) -> (id: u32)
        requires
            old(self).wf(),
            old(self).phase1_ok(),
            old(self).node_index@.contains_key(osm_node_id),
            old(self).raw_nodes@.len() < u32::MAX,
        ensures
            final(self).wf(),
            final(self).phase1_ok(),
            final(self).node_map@.contains_key(osm_node_id),
            final(self).node_map@[osm_node_id] == id,
            old(self).node_map@.contains_key(osm_node_id) ==> final(self).nodes == old(self).nodes
                && final(self).node_map == old(self).node_map && final(self).temp_edges == old(self).temp_edges,
            !old(self).node_map@.contains_key(osm_node_id) ==> {
                &&& id == old(self).nodes@.len()
                &&& final(self).nodes@.len() == old(self).nodes@.len() + 1
                &&& final(self).nodes@.drop_last() == old(self).nodes@
                &&& final(self).nodes@.last().external_id == osm_node_id
                &&& final(self).node_map@ == old(self).node_map@.insert(osm_node_id, id)
                &&& final(self).temp_edges@.drop_last() == old(self).temp_edges@
                &&& final(self).temp_edges@.last()@.len() == 0
            },
            final(self).processed_ways == old(self).processed_ways,
            final(self).way_node_map == old(self).way_node_map,
            final(self).via_node_clones == old(self).via_node_clones,
            final(self).raw_ways == old(self).raw_ways,
            final(self).raw_nodes == old(self).raw_nodes,
            final(self).raw_relations == old(self).raw_relations,
            final(self).node_index == old(self).node_index,
            final(self).profile == old(self).profile,
            old(self).strings().len() <= final(self).strings().len(),
            forall|i: int| 0 <= i < old(self).strings().len() ==> #[trigger] final(self).strings()[i] == old(self).strings()[i],
    {
        if let Some(id) = self.node_map.get(&osm_node_id) {
            return *id;
        }
        proof {
            self.lemma_room_for_node(osm_node_id);
        }
        let internal_id = self.next_internal_id;
        let idx = match self.node_index.get(&osm_node_id) {
            Some(i) => *i,
            None => {
                return 0;
            },
        };
        let nodes_vec: &Vec<Node> = self.raw_nodes;
        let raw_node = &nodes_vec[idx];
        let ghost u = self.universe@;
        let tags = intern_tags(&mut self.interner, &raw_node.tags, Ghost(u));
        proof {
            Self::lemma_interner_grows(old(self), self);
        }
        let ghost b1 = *self;
        self.node_map.insert(osm_node_id, internal_id);
        self.next_internal_id = internal_id + 1;
        self.nodes.push(
            RouteNode {
                id: internal_id,
                external_id: osm_node_id,
                lat_bits: raw_node.lat_bits,
                lon_bits: raw_node.lon_bits,
                tags,
            },
        );
        self.temp_edges.push(Vec::new());
        proof {
            let n1 = b1.nodes@.len();
            assert(self.nodes@.drop_last() == b1.nodes@);
            assert(self.temp_edges@.drop_last() == b1.temp_edges@);
            assert forall|i: int| 0 <= i < n1 + 1 implies sorted_targets((#[trigger] self.temp_edges@[i])@)
                && targets_below(self.temp_edges@[i]@, n1 + 1) by {
                if i < n1 {
                    assert(self.temp_edges@[i] == b1.temp_edges@[i]);
                    assert(targets_below(b1.temp_edges@[i]@, n1));
                }
            }
            assert forall|i: int| 0 <= i < n1 + 1 implies (#[trigger] self.nodes@[i]).id == i
                && ids_below(self.nodes@[i].tags@, self.strings().len()) by {
                if i < n1 {
                    assert(self.nodes@[i] == b1.nodes@[i]);
                }
            }
            assert forall|k: i64| #[trigger] self.node_map@.contains_key(k) implies self.node_map@[k] < n1 + 1
                && self.nodes@[self.node_map@[k] as int].external_id == k by {
                if k != osm_node_id {
                    assert(b1.node_map@.contains_key(k));
                    assert(self.nodes@[self.node_map@[k] as int] == b1.nodes@[b1.node_map@[k] as int]);
                }
            }
            assert forall|i: int| 0 <= i < n1 + 1 implies self.node_map@.contains_key((#[trigger] self.nodes@[i]).external_id)
                && self.node_map@[self.nodes@[i].external_id] == i by {
                if i < n1 {
                    assert(self.nodes@[i] == b1.nodes@[i]);
                    assert(b1.node_map@.contains_key(b1.nodes@[i].external_id));
                }
            }
            assert forall|i: int| 0 <= i < n1 + 1 implies self.node_index@.contains_key((#[trigger] self.nodes@[i]).external_id) by {
                if i < n1 {
                    assert(self.nodes@[i] == b1.nodes@[i]);
                }
            }
            assert(self.nodes_ok());
            Self::lemma_index_same(&b1, self);
        }
        internal_id
    }
}

/// The nodes of `refs` that are raw nodes, in order.
/// Some raw way has id `id`, and `nodes` are its references to known nodes.
pub open spec fn recorded_from(raw: Seq<Way>, index: Map<i64, usize>, id: i64, nodes: Seq<i64>) -> bool {
    exists|w: int| 0 <= w < raw.len() && raw[w].id == id && nodes == known_nodes(raw[w].node_refs@, index)
}

/// Whether some raw node has id `x`.
pub open spec fn is_raw_node(nodes: Seq<Node>, x: i64) -> bool {
    exists|k: int| 0 <= k < nodes.len() && (#[trigger] nodes[k]).id == x
}

/// The references of `refs` to raw nodes that exist, in order.
pub open spec fn raw_known(refs: Seq<i64>, nodes: Seq<Node>) -> Seq<i64>
    decreases refs.len(),
{
    if refs.len() == 0 {
        Seq::empty()
    } else if is_raw_node(nodes, refs.last()) {
        raw_known(refs.drop_last(), nodes).push(refs.last())
    } else {
        raw_known(refs.drop_last(), nodes)
    }
}

/// Way `p` of the graph stands for raw way `w`: it has its id, and its nodes
/// are the way's references to existing raw nodes, in order.
pub open spec fn way_built_from(g: ProcessedGraph, p: int, w: Way, nodes: Seq<Node>) -> bool {
    let refs = raw_known(w.node_refs@, nodes);
    &&& g.ways@[p].osm_id == w.id
    &&& g.ways@[p].node_ids@.len() == refs.len()
    &&& forall|j: int| 0 <= j < refs.len() ==> g.nodes@[(#[trigger] g.ways@[p].node_ids@[j]) as int].external_id == refs[j]
}

/// Way `p` of the graph stands for one of the raw ways.
pub open spec fn built_from_some(g: ProcessedGraph, p: int, ways: Seq<Way>, nodes: Seq<Node>) -> bool {
    exists|w: int| 0 <= w < ways.len() && way_built_from(g, p, ways[w], nodes)
}

proof fn lemma_known_nodes_raw(refs: Seq<i64>, index: Map<i64, usize>, nodes: Seq<Node>)
    requires
        forall|id: i64| #[trigger] index.contains_key(id) <==> is_raw_node(nodes, id),
    ensures
        known_nodes(refs, index) == raw_known(refs, nodes),
    decreases refs.len(),
{
    if refs.len() > 0 {
        lemma_known_nodes_raw(refs.drop_last(), index, nodes);
        assert(index.contains_key(refs.last()) == is_raw_node(nodes, refs.last()));
    }
}

pub open spec fn known_nodes(refs: Seq<i64>, index: Map<i64, usize>) -> Seq<i64>
    decreases refs.len(),
{
    if refs.len() == 0 {
        Seq::empty()
    } else if index.contains_key(refs.last()) {
        known_nodes(refs.drop_last(), index).push(refs.last())
    } else {
        known_nodes(refs.drop_last(), index)
    }
}

/// The known nodes of a reference list are among its references.
proof fn lemma_known_nodes_from(refs: Seq<i64>, index: Map<i64, usize>)
    ensures
        forall|j: int| 0 <= j < known_nodes(refs, index).len() ==> refs.contains(#[trigger] known_nodes(refs, index)[j]),
    decreases refs.len(),
{
    if refs.len() > 0 {
        lemma_known_nodes_from(refs.drop_last(), index);
        let k0 = known_nodes(refs.drop_last(), index);
        let k = known_nodes(refs, index);
        assert forall|j: int| 0 <= j < k.len() implies refs.contains(#[trigger] k[j]) by {
            if j < k0.len() {
                assert(k[j] == k0[j]);
                let x = choose|x: int| 0 <= x < refs.drop_last().len() && refs.drop_last()[x] == k0[j];
                assert(refs[x] == k0[j]);
            } else {
                assert(k[j] == refs.last());
                assert(refs[refs.len() - 1] == refs.last());
            }
        }
    }
}

proof fn lemma_known_nodes_in(refs: Seq<i64>, index: Map<i64, usize>)
    ensures
        forall|j: int| 0 <= j < known_nodes(refs, index).len() ==> index.contains_key(#[trigger] known_nodes(refs, index)[j]),
    decreases refs.len(),
{
    if refs.len() > 0 {
        lemma_known_nodes_in(refs.drop_last(), index);
        let k0 = known_nodes(refs.drop_last(), index);
        let k = known_nodes(refs, index);
        assert forall|j: int| 0 <= j < k.len() implies index.contains_key(#[trigger] k[j]) by {
            if j < k0.len() {
                assert(k[j] == k0[j]);
            }
        }
    }
}

/// A copy of a list of ids.
fn copy_ids(v: &Vec<i64>) -> (r: Vec<i64>)
    ensures
        r@ == v@,
{
    let mut r: Vec<i64> = Vec::new();
    let mut i: usize = 0;
    while i < v.len()
        invariant
            i <= v@.len(),
            r@ == v@.subrange(0, i as int),
        decreases v@.len() - i,
    {
        r.push(v[i]);
        proof {
            assert(v@.subrange(0, i + 1) == v@.subrange(0, i as int).push(v@[i as int]));
        }
        i = i + 1;
    }
    r
}

impl<'a> GraphBuilder<'a> {
    /// The nodes of `refs` that are raw nodes.
    fn valid_nodes(&self, refs: &Vec<i64>) -> (r: Vec<i64>)
        ensures
            r@ == known_nodes(refs@, self.node_index@),
    {
        let mut r: Vec<i64> = Vec::new();
        let mut i: usize = 0;
        while i < refs.len()
            invariant
                i <= refs@.len(),
                r@ == known_nodes(refs@.subrange(0, i as int), self.node_index@),
            decreases refs@.len() - i,
        {
            proof {
                assert(refs@.subrange(0, i + 1).drop_last() == refs@.subrange(0, i as int));
            }
            if self.node_index.contains_key(&refs[i]) {
                r.push(refs[i]);
            }
            i = i + 1;
        }
        proof {
            assert(refs@.subrange(0, refs@.len() as int) == refs@);
        }
        r
    }

    /// How raw way `w` was taken in, between `b0` and `b1`: `usable` is the
    /// verdict on the way under the strings `st` numbered when it was
    /// examined, which the profile's penalty and the way's directions bind
    /// (a listed penalty is judged by the edge cost); a usable way with at
    /// least two known nodes is recorded with its id, its known nodes and its
    /// tags by number, and its known nodes get graph nodes; otherwise no way
    /// is recorded.
    spec fn collected_as(b0: Self, b1: Self, w: int, st: Seq<Seq<char>>, usable: bool) -> bool {
        let way = b0.raw_ways@[w];
        let known = known_nodes(way.node_refs@, b0.node_index@);
        let tags = interned_tags(st, way.tags@);
        let pen = way_penalty(
            st,
            b0.profile.key,
            b0.profile.penalties@,
            b0.profile.default_penalty,
            b0.profile.access_tags@,
            tags,
        );
        let dir = way_direction(st, b0.profile.oneway_tags@, tags);
        let n0 = b0.processed_ways@.len() as int;
        &&& b0.strings().len() <= st.len() <= b1.strings().len()
        &&& forall|i: int| 0 <= i < b0.strings().len() ==> #[trigger] st[i] == b0.strings()[i]
        &&& forall|i: int| 0 <= i < st.len() ==> #[trigger] b1.strings()[i] == st[i]
        &&& usable == (pen matches Some(p) && penalty_usable(p) && (dir.0 || dir.1))
        &&& usable == way_usable_under(st, b0.profile, way)
        &&& tags_numbered(st, way)
        &&& if usable && known.len() >= 2 {
            &&& b1.processed_ways@.len() == n0 + 1
            &&& b1.processed_ways@.drop_last() == b0.processed_ways@
            &&& b1.processed_ways@[n0].0 == way.id
            &&& b1.processed_ways@[n0].1@ == known
            &&& b1.processed_ways@[n0].2@.len() == way.tags@.len()
            &&& forall|t: int| 0 <= t < way.tags@.len() ==> b1.strings()[(#[trigger] b1.processed_ways@[n0].2@[t]).0 as int]
                == way.tags@[t].0@ && b1.strings()[b1.processed_ways@[n0].2@[t].1 as int] == way.tags@[t].1@
            &&& b1.way_node_map@.contains_key(way.id)
            &&& b1.way_node_map@[way.id]@ == known
            &&& forall|id: i64| id != way.id ==> (#[trigger] b1.way_node_map@.contains_key(id) == b0.way_node_map@.contains_key(id))
            &&& forall|id: i64| id != way.id && b0.way_node_map@.contains_key(id) ==> #[trigger] b1.way_node_map@[id] == b0.way_node_map@[id]
            &&& forall|x: int| 0 <= x < known.len() ==> b1.node_map@.contains_key(#[trigger] known[x])
        } else {
            &&& b1.processed_ways == b0.processed_ways
            &&& b1.way_node_map == b0.way_node_map
        }
    }

    /// `b1` is `b0` after raw way `w` was examined and, when usable, recorded.
    spec fn way_collected(b0: Self, b1: Self, w: int) -> bool {
        &&& b1.raw_ways == b0.raw_ways
        &&& b1.raw_nodes == b0.raw_nodes
        &&& b1.node_index == b0.node_index
        &&& b1.profile == b0.profile
        &&& b0.nodes@.len() <= b1.nodes@.len()
        &&& forall|i: int| 0 <= i < b0.nodes@.len() ==> #[trigger] b1.nodes@[i] == b0.nodes@[i]
        &&& forall|k: i64| #[trigger] b0.node_map@.contains_key(k) ==> b1.node_map@.contains_key(k) && b1.node_map@[k]
            == b0.node_map@[k]
        &&& exists|st: Seq<Seq<char>>, usable: bool| #[trigger] Self::collected_as(b0, b1, w, st, usable)
    }

    /// `states` runs from `b0` to `b1`, examining each raw way in turn.
    spec fn collect_chain(states: Seq<Self>, b0: Self, b1: Self) -> bool {
        &&& states.len() == b0.raw_ways@.len() + 1
        &&& states[0] == b0
        &&& states.last() == b1
        &&& forall|k: int| 0 <= k < b0.raw_ways@.len() ==> #[trigger] Self::way_collected(states[k], states[k + 1], k)
    }


    /// Along the examination of the raw ways, recorded ways are only added
    /// at the end, numbered strings only added, and the profile and the node
    /// index stay.
    proof fn lemma_collect_grows(states: Seq<Self>, b0: Self, b1: Self, i: int, j: int)
        requires
            Self::collect_chain(states, b0, b1),
            0 <= i <= j <= b0.raw_ways@.len(),
        ensures
            states[i].processed_ways@.len() <= states[j].processed_ways@.len(),
            forall|p: int| 0 <= p < states[i].processed_ways@.len() ==> #[trigger] states[j].processed_ways@[p]
                == states[i].processed_ways@[p],
            extends(states[i].strings(), states[j].strings()),
            states[j].profile == states[i].profile,
            states[j].node_index == states[i].node_index,
            states[j].raw_ways == states[i].raw_ways,
        decreases j - i,
    {
        if i < j {
            Self::lemma_collect_grows(states, b0, b1, i, j - 1);
            let k = j - 1;
            assert(Self::way_collected(states[k], states[k + 1], k));
            let (st, usable) = choose|st: Seq<Seq<char>>, usable: bool| #[trigger] Self::collected_as(
                states[k],
                states[k + 1],
                k,
                st,
                usable,
            );
            let a = states[k].processed_ways@;
            let c = states[k + 1].processed_ways@;
            assert forall|p: int| 0 <= p < a.len() implies #[trigger] c[p] == a[p] by {
                if c.len() == a.len() + 1 {
                    assert(c.drop_last()[p] == c[p]);
                }
            }
        }
    }

    /// A raw way that is travellable under the strings as they end up, and
    /// has at least two known nodes, is recorded by the examination.
    proof fn lemma_usable_way_recorded(states: Seq<Self>, b0: Self, b1: Self, w: int, fin: Seq<Seq<char>>)
        requires
            Self::collect_chain(states, b0, b1),
            b0.wf(),
            0 <= w < b0.raw_ways@.len(),
            extends(b1.strings(), fin),
            all_distinct(fin),
            fin.len() <= u32::MAX,
            way_usable_under(fin, b0.profile, b0.raw_ways@[w]),
            known_nodes(b0.raw_ways@[w].node_refs@, b0.node_index@).len() >= 2,
        ensures
            exists|p: int| 0 <= p < b1.processed_ways@.len() && (#[trigger] b1.processed_ways@[p]).0 == b0.raw_ways@[w].id
                && b1.processed_ways@[p].1@ == known_nodes(b0.raw_ways@[w].node_refs@, b0.node_index@),
    {
        let n = b0.raw_ways@.len() as int;
        Self::lemma_collect_grows(states, b0, b1, 0, w);
        Self::lemma_collect_grows(states, b0, b1, w + 1, n);
        let bw = states[w];
        let bw1 = states[w + 1];
        assert(Self::way_collected(bw, bw1, w));
        let (st, usable) = choose|st: Seq<Seq<char>>, usable: bool| #[trigger] Self::collected_as(bw, bw1, w, st, usable);
        let way = b0.raw_ways@[w];
        assert(bw.raw_ways@[w] == way);
        assert(extends(st, fin)) by {
            assert forall|i: int| 0 <= i < st.len() implies #[trigger] fin[i] == st[i] by {
                assert(bw1.strings()[i] == st[i]);
                assert(b1.strings()[i] == bw1.strings()[i]);
            }
        }
        assert(profile_below(b0.profile, st.len())) by {
            assert(b0.profile_ok());
            assert(b0.strings().len() <= bw.strings().len());
            assert(bw.strings().len() <= st.len());
            assert forall|i: int| 0 <= i < b0.profile.access_tags@.len() implies #[trigger] b0.profile.access_tags@[i] < st.len() by {
                assert(list_below(b0.profile.access_tags@, b0.strings().len()));
            }
            assert forall|i: int| 0 <= i < b0.profile.oneway_tags@.len() implies #[trigger] b0.profile.oneway_tags@[i] < st.len() by {
                assert(list_below(b0.profile.oneway_tags@, b0.strings().len()));
            }
        }
        lemma_usable_stable(st, fin, b0.profile, way);
        assert(usable);
        let n0 = bw.processed_ways@.len() as int;
        assert(bw1.processed_ways@[n0].0 == way.id);
        assert(b1.processed_ways@[n0] == bw1.processed_ways@[n0]);
    }

    /// Records every usable way with at least two raw nodes: its raw nodes
    /// in order and its numbered tags, and gives each of those nodes an
    /// internal number.
    fn collect_usable_ways<C: EdgeCost>(&mut self, cost: &C)
        requires
            old(self).wf(),
            old(self).phase1_ok(),
            old(self).raw_nodes@.len() < u32::MAX,
            old(self).processed_ways@.len() == 0,
            old(self).follows_ways(),
            old(self).nodes@.len() == 0,
        ensures
            final(self).wf(),
            final(self).phase1_ok(),
            final(self).follows_ways(),
            final(self).raw_nodes == old(self).raw_nodes,
            final(self).raw_ways == old(self).raw_ways,
            final(self).raw_relations == old(self).raw_relations,
            final(self).via_node_clones == old(self).via_node_clones,
            final(self).node_index == old(self).node_index,
            final(self).profile == old(self).profile,
            forall|i: int| 0 <= i < final(self).temp_edges@.len() ==> (#[trigger] final(self).temp_edges@[i])@.len() == 0,
            forall|p: int| 0 <= p < final(self).processed_ways@.len() ==> (#[trigger] final(self).processed_ways@[p]).1@.len() >= 2,
            final(self).ways_from_raw(),
            exists|states: Seq<Self>| #[trigger] Self::collect_chain(states, *old(self), *final(self)),
    {
        let ways: &Vec<Way> = self.raw_ways;
        let ghost mut states: Seq<Self> = seq![*self];
        let mut w: usize = 0;
        while w < ways.len()
            invariant
                self.wf(),
                self.phase1_ok(),
                self.raw_ways == ways,
                self.raw_nodes == old(self).raw_nodes,
                self.raw_relations == old(self).raw_relations,
                self.via_node_clones == old(self).via_node_clones,
                self.raw_nodes@.len() < u32::MAX,
                w <= ways@.len(),
                self.node_index == old(self).node_index,
                self.profile == old(self).profile,
                self.follows_ways(),
                forall|i: int| 0 <= i < self.temp_edges@.len() ==> (#[trigger] self.temp_edges@[i])@.len() == 0,
                forall|f: u32, t: i64| !(self.via_node_clones@.contains_key(f) && #[trigger] self.via_node_clones@[f]@.contains_key(t)),
                forall|p: int| 0 <= p < self.processed_ways@.len() ==> (#[trigger] self.processed_ways@[p]).1@.len() >= 2,
                forall|p: int| 0 <= p < self.processed_ways@.len() ==> recorded_from(
                    ways@,
                    self.node_index@,
                    (#[trigger] self.processed_ways@[p]).0,
                    self.processed_ways@[p].1@,
                ),
                self.profile == old(self).profile,
                states.len() == w + 1,
                states[0] == *old(self),
                states.last() == *self,
                forall|k: int| 0 <= k < w ==> #[trigger] Self::way_collected(states[k], states[k + 1], k),
            decreases ways@.len() - w,
        {
            let ghost bs = *self;
            let usable = self.is_way_usable(w, cost);
            let ghost st_mid = self.strings();
            if usable {
                let way = &ways[w];
                let valid = self.valid_nodes(&way.node_refs);
                proof {
                    lemma_known_nodes_in(way.node_refs@, self.node_index@);
                }
                if valid.len() >= 2 {
                    let ghost u = self.universe@;
                    let ghost b0 = *self;
                    let tags = intern_tags(&mut self.interner, &way.tags, Ghost(u));
                    let ghost st_tags = self.strings();
                    proof {
                        Self::lemma_interner_grows(&b0, self);
                    }
                    let mut j: usize = 0;
                    while j < valid.len()
                        invariant
                            self.wf(),
                            self.phase1_ok(),
                            self.raw_ways == ways,
                            self.raw_nodes == old(self).raw_nodes,
                            self.raw_relations == old(self).raw_relations,
                            self.via_node_clones == old(self).via_node_clones,
                            self.raw_nodes@.len() < u32::MAX,
                            w < ways@.len(),
                            forall|x: int| 0 <= x < valid@.len() ==> self.node_index@.contains_key(#[trigger] valid@[x]),
                            forall|x: int| 0 <= x < j ==> self.node_map@.contains_key(#[trigger] valid@[x]),
                            ids_below(tags@, self.strings().len()),
                            j <= valid@.len(),
                            self.node_index == old(self).node_index,
                            self.processed_ways == b0.processed_ways,
                            valid@ == known_nodes(ways@[w as int].node_refs@, self.node_index@),
                            forall|p: int| 0 <= p < self.processed_ways@.len() ==> (#[trigger] self.processed_ways@[p]).1@.len() >= 2,
                            self.way_node_map == b0.way_node_map,
                            forall|i: int| 0 <= i < self.temp_edges@.len() ==> (#[trigger] self.temp_edges@[i])@.len() == 0,
                            forall|f: u32, t: i64| !(self.via_node_clones@.contains_key(f) && #[trigger] self.via_node_clones@[f]@.contains_key(t)),
                            self.profile == bs.profile,
                            st_tags.len() <= self.strings().len(),
                            forall|i: int| 0 <= i < st_tags.len() ==> #[trigger] self.strings()[i] == st_tags[i],
                            bs.nodes@.len() <= self.nodes@.len(),
                            forall|i: int| 0 <= i < bs.nodes@.len() ==> #[trigger] self.nodes@[i] == bs.nodes@[i],
                            forall|k: i64| #[trigger] bs.node_map@.contains_key(k) ==> self.node_map@.contains_key(k)
                                && self.node_map@[k] == bs.node_map@[k],
                        decreases valid@.len() - j,
                    {
                        let ghost before = self.node_map@;
                        let ghost nstr = self.strings().len();
                        let ghost bj = *self;
                        self.get_or_create_internal_node(valid[j]);
                        proof {
                            assert forall|i: int| 0 <= i < bs.nodes@.len() implies #[trigger] self.nodes@[i] == bs.nodes@[i] by {
                                if !bj.node_map@.contains_key(valid@[j as int]) {
                                    assert(self.nodes@.drop_last()[i] == self.nodes@[i]);
                                }
                            }
                            assert forall|x: int| 0 <= x < j + 1 implies self.node_map@.contains_key(#[trigger] valid@[x]) by {
                                if x < j {
                                    assert(before.contains_key(valid@[x]));
                                }
                            }
                            assert forall|i: int| 0 <= i < tags@.len() implies (#[trigger] tags@[i]).0 < self.strings().len()
                                && tags@[i].1 < self.strings().len() by {
                                assert(tags@[i].0 < nstr);
                            }
                            assert forall|i: int| 0 <= i < self.temp_edges@.len() implies (#[trigger] self.temp_edges@[i])@.len() == 0 by {
                                if i < self.temp_edges@.len() - 1 {
                                    assert(self.temp_edges@.drop_last()[i] == self.temp_edges@[i]);
                                }
                            }
                        }
                        j = j + 1;
                    }
                    let ghost b1 = *self;
                    self.processed_ways.push((way.id, copy_ids(&valid), tags));
                    self.way_node_map.insert(way.id, valid);
                    proof {
                        Self::lemma_index_same(&b1, self);
                        let n = self.processed_ways@.len();
                        assert forall|p: int, x: int| 0 <= p < n && 0 <= x < self.processed_ways@[p].1@.len()
                            implies self.node_map@.contains_key(#[trigger] self.processed_ways@[p].1@[x]) by {
                            if p < n - 1 {
                                assert(self.processed_ways@[p] == b1.processed_ways@[p]);
                            }
                        }
                        assert forall|p: int| 0 <= p < n implies ids_below((#[trigger] self.processed_ways@[p]).2@, self.strings().len()) by {
                            if p < n - 1 {
                                assert(self.processed_ways@[p] == b1.processed_ways@[p]);
                            }
                        }
                        assert forall|p: int| 0 <= p < n implies (#[trigger] self.processed_ways@[p]).1@.len() >= 2 by {
                            if p < n - 1 {
                                assert(self.processed_ways@[p] == b1.processed_ways@[p]);
                            }
                        }
                        assert forall|ww: i64, x: int| self.way_node_map@.contains_key(ww) && 0 <= x < self.way_node_map@[ww]@.len()
                            implies self.node_map@.contains_key(#[trigger] self.way_node_map@[ww]@[x])
                                && self.node_index@.contains_key(self.way_node_map@[ww]@[x]) by {
                            if ww != way.id {
                                assert(b1.way_node_map@.contains_key(ww));
                                assert(self.way_node_map@[ww] == b1.way_node_map@[ww]);
                            }
                        }
                        assert(self.nodes_ok());
                        assert(self.follows_ways()) by {
                            assert forall|i: int, t: u32| 0 <= i < self.temp_edges@.len() implies !(#[trigger] edge_map(
                                self.temp_edges@[i]@,
                            ).contains_key(t)) by {
                                assert(self.temp_edges@[i]@.len() == 0);
                            }
                            assert forall|ww: i64| #[trigger] self.way_node_map@.contains_key(ww) implies exists|p: int|
                                0 <= p < self.processed_ways@.len() && self.processed_ways@[p].1@ == self.way_node_map@[ww]@
                                    && self.processed_ways@[p].0 == ww by {
                                if ww == way.id {
                                    assert(self.processed_ways@[n - 1].1@ == self.way_node_map@[ww]@);
                                    assert(self.processed_ways@[n - 1].0 == ww);
                                } else {
                                    assert(b0.way_node_map@.contains_key(ww));
                                    let p0 = choose|p: int| 0 <= p < b0.processed_ways@.len() && b0.processed_ways@[p].1@ == b0.way_node_map@[ww]@
                                        && b0.processed_ways@[p].0 == ww;
                                    assert(self.processed_ways@[p0] == b1.processed_ways@[p0]);
                                }
                            }
                        }
                        assert forall|p: int| 0 <= p < n implies recorded_from(
                            ways@,
                            self.node_index@,
                            (#[trigger] self.processed_ways@[p]).0,
                            self.processed_ways@[p].1@,
                        ) by {
                            if p < n - 1 {
                                assert(self.processed_ways@[p] == b1.processed_ways@[p]);
                            } else {
                                assert(self.processed_ways@[p].1@ == valid@);
                                assert(ways@[w as int].id == way.id);
                            }
                        }
                        assert(self.processed_ways@.drop_last() =~= bs.processed_ways@);
                        assert forall|t: int| 0 <= t < way.tags@.len() implies self.strings()[(#[trigger] self.processed_ways@[n
                            - 1].2@[t]).0 as int] == way.tags@[t].0@ && self.strings()[self.processed_ways@[n - 1].2@[t].1 as int]
                            == way.tags@[t].1@ by {
                            assert(self.processed_ways@[n - 1].2@[t] == tags@[t]);
                            assert(tags@[t].0 < st_tags.len() && tags@[t].1 < st_tags.len());
                        }
                        assert forall|i: int| 0 <= i < st_mid.len() implies #[trigger] self.strings()[i] == st_mid[i] by {
                            assert(st_tags[i] == st_mid[i]);
                        }
                    }
                }
            }
            proof {
                assert(Self::collected_as(bs, *self, w as int, st_mid, usable));
                assert(Self::way_collected(bs, *self, w as int));
                let prev = states;
                states = states.push(*self);
                assert forall|k: int| 0 <= k < w + 1 implies #[trigger] Self::way_collected(states[k], states[k + 1], k) by {
                    if k < w {
                        assert(states[k] == prev[k] && states[k + 1] == prev[k + 1]);
                    } else {
                        assert(states[k] == bs);
                    }
                }
            }
            w = w + 1;
        }
        assert(Self::collect_chain(states, *old(self), *self));
        proof {
            assert(ways@ == self.raw_ways@);
            assert(self.ways_from_raw());
        }
    }
}

/// Nodes `j` and `j + 1` of `list` are `a` and `b`.
pub open spec fn way_step(list: Seq<i64>, j: int, a: i64, b: i64) -> bool {
    0 <= j && j + 1 < list.len() && list[j] == a && list[j + 1] == b
}

/// `a` and `b` follow each other, in one order or the other, on one of the
/// lists.
pub open spec fn neighbours_on(lists: Seq<Seq<i64>>, a: i64, b: i64) -> bool {
    exists|p: int, j: int|
        #![trigger lists[p][j]]
        0 <= p < lists.len() && (way_step(lists[p], j, a, b) || way_step(lists[p], j, b, a))
}

/// The OSM node ids along way `p` of the graph.
pub open spec fn way_osm_ids(g: ProcessedGraph, p: int) -> Seq<i64> {
    g.ways@[p].node_ids@.map_values(|n: u32| g.nodes@[n as int].external_id)
}

/// The OSM node ids along each of the graph's ways.
pub open spec fn graph_way_lists(g: ProcessedGraph) -> Seq<Seq<i64>> {
    Seq::new(g.ways@.len(), |p: int| way_osm_ids(g, p))
}

/// Every edge of the graph joins two nodes whose OSM nodes follow each other
/// on one of the graph's ways.
pub open spec fn edges_on_ways(g: ProcessedGraph) -> bool {
    forall|i: int, e: int|
        0 <= i < g.nodes@.len() && 0 <= e < g.out_edges(i as u32).len() ==> neighbours_on(
            graph_way_lists(g),
            g.nodes@[i].external_id,
            g.nodes@[(#[trigger] g.out_edges(i as u32)[e]).0 as int].external_id,
        )
}

/// Every edge joins two nodes whose OSM nodes follow each other on one of
/// the lists.
pub open spec fn edges_follow(lists: Seq<Seq<i64>>, nodes: Seq<RouteNode>, edges: Seq<Vec<(u32, u16)>>) -> bool {
    forall|i: int, t: u32|
        0 <= i < edges.len() && #[trigger] edge_map(edges[i]@).contains_key(t) ==> neighbours_on(
            lists,
            nodes[i].external_id,
            nodes[t as int].external_id,
        )
}

/// The edge from internal node `i` to `t` comes from a step of `list` in a
/// direction that `dir` allows.
pub open spec fn step_edge(m: Map<i64, u32>, list: Seq<i64>, dir: (bool, bool), i: u32, t: u32) -> bool {
    exists|j: int|
        0 <= j && j + 1 < list.len() && ((dir.0 && m[#[trigger] list[j]] == i && m[list[j + 1]] == t) || (dir.1
            && m[list[j + 1]] == i && m[list[j]] == t))
}

/// Every step of `list` has its edges in the directions that `dir` allows.
pub open spec fn steps_present(m: Map<i64, u32>, list: Seq<i64>, dir: (bool, bool), edges: Seq<Vec<(u32, u16)>>, upto: int) -> bool {
    forall|j: int|
        0 <= j < upto && j + 1 < list.len() ==> (dir.0 ==> edge_map(edges[m[#[trigger] list[j]] as int]@).contains_key(
            m[list[j + 1]],
        )) && (dir.1 ==> edge_map(edges[m[list[j + 1]] as int]@).contains_key(m[list[j]]))
}

/// `c` is what `cost.segment_cost` gave for the raw nodes with ids `from`
/// and `to`, in one order or the other, under some penalty.
pub open spec fn edge_priced<C: EdgeCost>(raw: Seq<Node>, cost: C, from: i64, to: i64, c: u16) -> bool {
    exists|a: int, b: int, p: Penalty|
        0 <= a < raw.len() && 0 <= b < raw.len() && ((raw[a].id == from && raw[b].id == to) || (raw[a].id == to
            && raw[b].id == from)) && call_ensures(C::segment_cost, (&cost, &raw[a], &raw[b], p), c)
}

/// `c` is what `cost.segment_cost` gave for the raw nodes with ids `from`
/// and `to`, in one order or the other, under the penalty that profile `p`
/// gives a raw way of `ways` whose id is that of a raw way on which both
/// nodes lie.
pub open spec fn edge_priced_by_way<C: EdgeCost>(
    raw: Seq<Node>,
    ways: Seq<Way>,
    p: Profile,
    cost: C,
    from: i64,
    to: i64,
    c: u16,
) -> bool {
    exists|w: int, a: int, b: int, pen: Penalty|
        #![trigger ways[w], call_ensures(C::segment_cost, (&cost, &raw[a], &raw[b], pen), c)]
        0 <= w < ways.len() && penalty_of_way(p, ways[w].tags@) == Some(pen) && lies_on_way(ways, ways[w].id, from, to)
            && 0 <= a < raw.len() && 0 <= b < raw.len() && ((raw[a].id == from && raw[b].id == to) || (raw[a].id
            == to && raw[b].id == from)) && call_ensures(C::segment_cost, (&cost, &raw[a], &raw[b], pen), c)
}

/// Nodes `from` and `to` are both referenced by a raw way with id `id`.
pub open spec fn lies_on_way(ways: Seq<Way>, id: i64, from: i64, to: i64) -> bool {
    exists|v: int|
        #![trigger ways[v]]
        0 <= v < ways.len() && ways[v].id == id && ways[v].node_refs@.contains(from) && ways[v].node_refs@.contains(to)
}

/// Edges of `e1` that `e0` lacked come from steps of `list`; no edge is lost.
pub open spec fn edges_grow_by(e0: Seq<Vec<(u32, u16)>>, e1: Seq<Vec<(u32, u16)>>, m: Map<i64, u32>, list: Seq<i64>, dir: (bool, bool)) -> bool {
    &&& e1.len() == e0.len()
    &&& forall|i: int, t: u32| 0 <= i < e0.len() && #[trigger] edge_map(e0[i]@).contains_key(t) ==> edge_map(e1[i]@).contains_key(t)
    &&& forall|i: int, t: u32| 0 <= i < e0.len() && #[trigger] edge_map(e1[i]@).contains_key(t) && !edge_map(e0[i]@).contains_key(t)
        ==> step_edge(m, list, dir, i as u32, t)
}

impl<'a> GraphBuilder<'a> {
    /// Adds the edges of raw way `w` between consecutive recorded nodes, in
    /// the directions it may be travelled, when it is usable.
    #[verifier::spinoff_prover]
    fn add_way<C: EdgeCost>(&mut self, w: usize, cost: &C)
        requires
            old(self).wf(),
            old(self).edges_priced(*cost),
            old(self).follows_ways(),
            old(self).ways_from_raw(),
            w < old(self).raw_ways@.len(),
        ensures
            final(self).wf(),
            final(self).edges_priced(*cost),
            final(self).profile == old(self).profile,
            final(self).nodes == old(self).nodes,
            final(self).node_map == old(self).node_map,
            final(self).way_node_map == old(self).way_node_map,
            final(self).processed_ways == old(self).processed_ways,
            final(self).via_node_clones == old(self).via_node_clones,
            final(self).raw_ways == old(self).raw_ways,
            final(self).raw_nodes == old(self).raw_nodes,
            final(self).raw_relations == old(self).raw_relations,
            final(self).node_index == old(self).node_index,
            old(self).strings().len() <= final(self).strings().len(),
            forall|i: int| 0 <= i < old(self).strings().len() ==> #[trigger] final(self).strings()[i] == old(self).strings()[i],
            ({
                let st = final(self).strings();
                let way = final(self).raw_ways@[w as int];
                let tags = interned_tags(st, way.tags@);
                let pen = way_penalty(
                    st,
                    final(self).profile.key,
                    final(self).profile.penalties@,
                    final(self).profile.default_penalty,
                    final(self).profile.access_tags@,
                    tags,
                );
                let dir = way_direction(st, final(self).profile.oneway_tags@, tags);
                let m = old(self).node_map@;
                let has_list = old(self).way_node_map@.contains_key(way.id);
                let list = old(self).way_node_map@[way.id]@;
                &&& final(self).temp_edges@ == old(self).temp_edges@ || (pen is Some && (dir.0 || dir.1) && has_list
                    && (pen matches Some(p) && penalty_usable(p))
                    && edges_grow_by(old(self).temp_edges@, final(self).temp_edges@, m, list, dir)
                    && steps_present(m, list, dir, final(self).temp_edges@, list.len() as int))
                &&& (pen matches Some(p) && penalty_usable(p) && (dir.0 || dir.1) && has_list) ==> steps_present(
                    m,
                    list,
                    dir,
                    final(self).temp_edges@,
                    list.len() as int,
                )
            }),
    {
        let ways: &Vec<Way> = self.raw_ways;
        let way = &ways[w];
        let ghost u = self.universe@;
        let tags = intern_tags(&mut self.interner, &way.tags, Ghost(u));
        proof {
            Self::lemma_interner_grows(old(self), self);
            Self::lemma_priced_grows(old(self), self, *cost);
        }
        let penalty = match self.get_way_penalty(&tags) {
            Some(p) => p,
            None => {
                return;
            },
        };
        let usable = match penalty {
            Penalty::Listed(bits) => listed_penalty_usable(bits),
            Penalty::Default(d) => d >= 1,
        };
        if !usable {
            return;
        }
        let (forward, backward) = self.get_way_direction(&tags);
        if !forward && !backward {
            return;
        }
        let list = match self.way_node_map.get(&way.id) {
            Some(l) => copy_ids(l),
            None => {
                return;
            },
        };
        proof {
            let st = self.strings();
            self.lemma_strings_distinct();
            assert(tags_numbered(st, self.raw_ways@[w as int])) by {
                assert forall|t: int| 0 <= t < way.tags@.len() implies st.contains((#[trigger] way.tags@[t]).0@)
                    && st.contains(way.tags@[t].1@) by {
                    assert(st[tags@[t].0 as int] == way.tags@[t].0@);
                    assert(st[tags@[t].1 as int] == way.tags@[t].1@);
                }
            }
            assert forall|p: Profile| #[trigger] names_profile(st, self.profile, p) implies penalty_of_way(
                p,
                self.raw_ways@[w as int].tags@,
            ) == Some(penalty) by {
                lemma_verdict_by_names(st, self.profile, p, self.raw_ways@[w as int]);
            }
        }
        proof {
            let wid = self.raw_ways@[w as int].id;
            assert(self.way_node_map@.contains_key(wid));
            let p = choose|p: int|
                0 <= p < self.processed_ways@.len() && self.processed_ways@[p].1@ == self.way_node_map@[wid]@
                    && self.processed_ways@[p].0 == wid;
            assert(recorded_from(self.raw_ways@, self.node_index@, self.processed_ways@[p].0, self.processed_ways@[p].1@));
            let v = choose|v: int|
                0 <= v < self.raw_ways@.len() && self.raw_ways@[v].id == wid && list@ == known_nodes(
                    self.raw_ways@[v].node_refs@,
                    self.node_index@,
                );
            lemma_known_nodes_from(self.raw_ways@[v].node_refs@, self.node_index@);
            assert forall|x: int, y: int| 0 <= x < list@.len() && 0 <= y < list@.len() implies lies_on_way(
                self.raw_ways@,
                wid,
                #[trigger] list@[x],
                #[trigger] list@[y],
            ) by {
                assert(self.raw_ways@[v].node_refs@.contains(list@[x]));
                assert(self.raw_ways@[v].node_refs@.contains(list@[y]));
            }
        }
        let ghost b1 = *self;
        let ghost m = self.node_map@;
        let ghost e0 = self.temp_edges@;
        let ghost dir = (forward, backward);
        let ghost n = self.nodes@.len();
        let nodes_vec: &Vec<Node> = self.raw_nodes;
        if list.len() < 2 {
            assert(steps_present(m, list@, dir, self.temp_edges@, list@.len() as int));
            assert(edges_grow_by(e0, self.temp_edges@, m, list@, dir));
            return;
        }
        let mut j: usize = 0;
        while j + 1 < list.len()
            invariant
                self.wf(),
                m == self.node_map@,
                n == self.nodes@.len(),
                nodes_vec == self.raw_nodes,
                self.nodes == b1.nodes,
                self.node_map == b1.node_map,
                self.way_node_map == b1.way_node_map,
                self.processed_ways == b1.processed_ways,
                self.via_node_clones == b1.via_node_clones,
                self.raw_ways == b1.raw_ways,
                self.raw_nodes == b1.raw_nodes,
                self.raw_relations == b1.raw_relations,
                self.node_index == b1.node_index,
                self.interner == b1.interner,
                self.profile == b1.profile,
                self.universe == b1.universe,
                self.next_internal_id == b1.next_internal_id,
                forall|x: int| 0 <= x < list@.len() ==> self.node_map@.contains_key(#[trigger] list@[x])
                    && self.node_index@.contains_key(list@[x]),
                list@.len() >= 2,
                j + 1 <= list@.len(),
                dir == (forward, backward),
                edges_grow_by(e0, self.temp_edges@, m, list@, dir),
                steps_present(m, list@, dir, self.temp_edges@, j as int),
                self.edges_priced(*cost),
                w < self.raw_ways@.len(),
                forall|x: int, y: int| 0 <= x < list@.len() && 0 <= y < list@.len() ==> lies_on_way(
                    self.raw_ways@,
                    self.raw_ways@[w as int].id,
                    #[trigger] list@[x],
                    #[trigger] list@[y],
                ),
                forall|p: Profile| #[trigger] names_profile(self.strings(), self.profile, p) ==> penalty_of_way(
                    p,
                    self.raw_ways@[w as int].tags@,
                ) == Some(penalty),
            decreases list@.len() - j,
        {
            let from_osm = list[j];
            let to_osm = list[j + 1];
            let from_idx = match self.node_index.get(&from_osm) {
                Some(i) => *i,
                None => {
                    return;
                },
            };
            let to_idx = match self.node_index.get(&to_osm) {
                Some(i) => *i,
                None => {
                    return;
                },
            };
            let price = C::segment_cost;
            let c = price(cost, &nodes_vec[from_idx], &nodes_vec[to_idx], penalty);
            let from_id = match self.node_map.get(&from_osm) {
                Some(i) => *i,
                None => {
                    return;
                },
            };
            let to_id = match self.node_map.get(&to_osm) {
                Some(i) => *i,
                None => {
                    return;
                },
            };
            let ghost e1 = self.temp_edges@;
            if forward {
                insert_edge(&mut self.temp_edges[from_id as usize], to_id, c);
            }
            let ghost e2 = self.temp_edges@;
            if backward {
                insert_edge(&mut self.temp_edges[to_id as usize], from_id, c);
            }
            proof {
                let e3 = self.temp_edges@;
                assert(way_step(list@, j as int, from_osm, to_osm));
                assert forall|i: int| 0 <= i < n implies sorted_targets((#[trigger] self.temp_edges@[i])@)
                    && targets_below(self.temp_edges@[i]@, n) by {
                    assert(sorted_targets(e1[i]@) && targets_below(e1[i]@, n));
                }
                assert forall|i: int, t: u32| 0 <= i < e0.len() && #[trigger] edge_map(e0[i]@).contains_key(t)
                    implies edge_map(e3[i]@).contains_key(t) by {
                    assert(edge_map(e1[i]@).contains_key(t));
                    assert(edge_map(e2[i]@).contains_key(t));
                }
                assert forall|i: int, t: u32| 0 <= i < e0.len() && #[trigger] edge_map(e3[i]@).contains_key(t) && !edge_map(e0[i]@).contains_key(t)
                    implies step_edge(m, list@, dir, i as u32, t) by {
                    if !edge_map(e1[i]@).contains_key(t) {
                        assert(m[list@[j as int]] == from_id && m[list@[j + 1]] == to_id);
                    }
                }
                assert forall|x: int| 0 <= x < j + 1 && x + 1 < list@.len() implies (dir.0 ==> edge_map(e3[m[#[trigger] list@[x]] as int]@).contains_key(
                    m[list@[x + 1]],
                )) && (dir.1 ==> edge_map(e3[m[list@[x + 1]] as int]@).contains_key(m[list@[x]])) by {
                    if x < j {
                        if dir.0 {
                            assert(edge_map(e1[m[list@[x]] as int]@).contains_key(m[list@[x + 1]]));
                            assert(edge_map(e2[m[list@[x]] as int]@).contains_key(m[list@[x + 1]]));
                        }
                        if dir.1 {
                            assert(edge_map(e1[m[list@[x + 1]] as int]@).contains_key(m[list@[x]]));
                            assert(edge_map(e2[m[list@[x + 1]] as int]@).contains_key(m[list@[x]]));
                        }
                    } else {
                        if dir.0 {
                            assert(edge_map(e2[from_id as int]@).contains_key(to_id));
                        }
                    }
                }
                assert(self.nodes_ok());
                Self::lemma_index_same(&b1, self);
                assert(edge_priced(self.raw_nodes@, *cost, from_osm, to_osm, c)) by {
                    assert(self.raw_nodes@[from_idx as int].id == from_osm);
                    assert(self.raw_nodes@[to_idx as int].id == to_osm);
                    assert(call_ensures(C::segment_cost, (cost, &self.raw_nodes@[from_idx as int], &self.raw_nodes@[to_idx as int], penalty), c));
                }
                assert(edge_priced(self.raw_nodes@, *cost, to_osm, from_osm, c)) by {
                    assert(self.raw_nodes@[from_idx as int].id == from_osm);
                    assert(self.raw_nodes@[to_idx as int].id == to_osm);
                    assert(call_ensures(C::segment_cost, (cost, &self.raw_nodes@[from_idx as int], &self.raw_nodes@[to_idx as int], penalty), c));
                }
                assert(self.nodes@[from_id as int].external_id == from_osm);
                assert(self.nodes@[to_id as int].external_id == to_osm);
                assert forall|p: Profile| #[trigger] names_profile(self.strings(), self.profile, p) implies edge_priced_by_way(
                    self.raw_nodes@,
                    self.raw_ways@,
                    p,
                    *cost,
                    from_osm,
                    to_osm,
                    c,
                ) && edge_priced_by_way(self.raw_nodes@, self.raw_ways@, p, *cost, to_osm, from_osm, c) by {
                    assert(penalty_of_way(p, self.raw_ways@[w as int].tags@) == Some(penalty));
                    assert(lies_on_way(self.raw_ways@, self.raw_ways@[w as int].id, list@[j as int], list@[j + 1]));
                    assert(lies_on_way(self.raw_ways@, self.raw_ways@[w as int].id, list@[j + 1], list@[j as int]));
                    assert(self.raw_nodes@[from_idx as int].id == from_osm);
                    assert(self.raw_nodes@[to_idx as int].id == to_osm);
                    assert(call_ensures(C::segment_cost, (cost, &self.raw_nodes@[from_idx as int], &self.raw_nodes@[to_idx as int], penalty), c));
                }
                assert forall|p: Profile, i: int, t: u32|
                    #![trigger names_profile(self.strings(), self.profile, p), edge_map(e3[i]@).contains_key(t)]
                    names_profile(self.strings(), self.profile, p) && 0 <= i < e3.len() && edge_map(e3[i]@).contains_key(t)
                    implies edge_priced_by_way(
                    self.raw_nodes@,
                    self.raw_ways@,
                    p,
                    *cost,
                    self.nodes@[i].external_id,
                    self.nodes@[t as int].external_id,
                    edge_map(e3[i]@)[t],
                ) by {
                    if forward && i == from_id && t == to_id {
                    } else if backward && i == to_id && t == from_id {
                    } else {
                        assert(edge_map(e1[i]@).contains_key(t) && edge_map(e1[i]@)[t] == edge_map(e3[i]@)[t]);
                    }
                }
                assert forall|i: int, t: u32| 0 <= i < e3.len() && #[trigger] edge_map(e3[i]@).contains_key(t) implies edge_priced(
                    self.raw_nodes@,
                    *cost,
                    self.nodes@[i].external_id,
                    self.nodes@[t as int].external_id,
                    edge_map(e3[i]@)[t],
                ) by {
                    if forward && i == from_id && t == to_id {
                    } else if backward && i == to_id && t == from_id {
                    } else {
                        assert(edge_map(e1[i]@).contains_key(t) && edge_map(e1[i]@)[t] == edge_map(e3[i]@)[t]);
                    }
                }
            }
            j = j + 1;
        }
    }
}

/// The value of the first `restriction:<mode>` tag, taking the access modes
/// from the last one back, among interned tags.
pub open spec fn mode_value(st: Seq<Seq<char>>, modes: Seq<u32>, tags: Seq<(u32, u32)>) -> Option<u32>
    decreases modes.len(),
{
    if modes.len() == 0 {
        None
    } else {
        let key = "restriction:"@ + st[modes.last() as int];
        if st.contains(key) && lookup(tags, id_of(st, key)) is Some {
            lookup(tags, id_of(st, key))
        } else {
            mode_value(st, modes.drop_last(), tags)
        }
    }
}

/// The relation's `except` tag names a vehicle type that the profile
/// exempts.
pub open spec fn exempted(st: Seq<Seq<char>>, except: Seq<u32>, tags: Seq<(u32, u32)>) -> bool {
    match tag_str(st, tags, "except"@) {
        Some(e) => names_exempt(st, except, trimmed_split(e)),
        None => false,
    }
}

/// One of `pieces` is the string of one of the exempt numbers.
pub open spec fn names_exempt(st: Seq<Seq<char>>, except: Seq<u32>, pieces: Seq<Seq<char>>) -> bool {
    exists|k: int, j: int|
        0 <= k < pieces.len() && 0 <= j < except.len() && st[#[trigger] except[j] as int] == #[trigger] pieces[k]
}

/// The kind of turn restriction that a relation with these tags states for
/// the profile: none unless it is a restriction and no exemption applies;
/// a mode-specific value wins over the plain one.
pub open spec fn restriction_kind(st: Seq<Seq<char>>, access: Seq<u32>, except: Seq<u32>, tags: Seq<(u32, u32)>) -> TurnRestriction {
    if !st.contains("type"@) || !st.contains("restriction"@) {
        TurnRestriction::Inapplicable
    } else if tag_str(st, tags, "type"@) != Some("restriction"@) {
        TurnRestriction::Inapplicable
    } else if exempted(st, except, tags) {
        TurnRestriction::Inapplicable
    } else {
        let value = match mode_value(st, access, tags) {
            Some(v) => Some(v),
            None => lookup(tags, id_of(st, "restriction"@)),
        };
        match value {
            Some(v) => restriction_kind_of(st[v as int]),
            None => TurnRestriction::Inapplicable,
        }
    }
}

impl<'a> GraphBuilder<'a> {
    /// Whether the relation's `except` tag exempts the profile.
    fn is_exempted(&self, tags: &Vec<(u32, u32)>) -> (b: bool)
        requires
            self.wf(),
            ids_below(tags@, self.strings().len()),
        ensures
            b == exempted(self.strings(), self.profile.except_tags@, tags@),
    {
        proof {
            self.lemma_strings_distinct();
            reveal_strlit("except");
        }
        let ghost st = self.strings();
        let except_key = match self.lit_id("except") {
            Some(k) => k,
            None => {
                return false;
            },
        };
        proof {
            lemma_id_of(st, except_key as int);
        }
        let v = match lookup_exec(tags, except_key) {
            Some(v) => v,
            None => {
                return false;
            },
        };
        proof {
            lemma_lookup_in(tags@, except_key);
        }
        let e = self.interner.string_at(v);
        let ghost pieces = trimmed_split(e@);
        assert(tag_str(st, tags@, "except"@) == Some(e@));
        let ranges = trimmed_pieces(e.as_str());
        let ex = &self.profile.except_tags;
        let mut k: usize = 0;
        while k < ranges.len()
            invariant
                self.wf(),
                st == self.strings(),
                all_distinct(st),
                st.len() <= u32::MAX,
                ex@ == self.profile.except_tags@,
                list_below(ex@, st.len()),
                pieces == trimmed_split(e@),
                tag_str(st, tags@, "except"@) == Some(e@),
                ranges@.len() == pieces.len(),
                forall|i: int| 0 <= i < ranges@.len() ==> {
                    let (a, b) = #[trigger] ranges@[i];
                    a <= b <= e@.len() && e@.subrange(a as int, b as int) == trimmed(split_semicolons(e@)[i])
                },
                k <= ranges@.len(),
                forall|x: int, j: int| 0 <= x < k && 0 <= j < ex@.len() ==> st[#[trigger] ex@[j] as int] != #[trigger] pieces[x],
            decreases ranges@.len() - k,
        {
            let (a, b) = ranges[k];
            let piece = e.as_str().substring_char(a, b);
            assert(piece@ == pieces[k as int]);
            if let Some(id) = self.interner.get(piece) {
                let mut j: usize = 0;
                while j < ex.len()
                    invariant
                        j <= ex@.len(),
                        k < pieces.len(),
                        st == self.strings(),
                        ex@ == self.profile.except_tags@,
                        pieces == trimmed_split(e@),
                        tag_str(st, tags@, "except"@) == Some(e@),
                        all_distinct(st),
                        list_below(ex@, st.len()),
                        id < st.len(),
                        st[id as int] == pieces[k as int],
                        forall|y: int| 0 <= y < j ==> ex@[y] != id,
                    decreases ex@.len() - j,
                {
                    if ex[j] == id {
                        assert(st[ex@[j as int] as int] == trimmed_split(e@)[k as int]);
                        assert(names_exempt(st, ex@, pieces));
                        return true;
                    }
                    j = j + 1;
                }
                proof {
                    assert forall|jj: int| 0 <= jj < ex@.len() implies st[#[trigger] ex@[jj] as int] != pieces[k as int] by {
                        if st[ex@[jj] as int] == pieces[k as int] {
                            if ex@[jj] < id {
                                assert(st[ex@[jj] as int] != st[id as int]);
                            }
                            if id < ex@[jj] {
                                assert(st[id as int] != st[ex@[jj] as int]);
                            }
                        }
                    }
                }
            } else {
                proof {
                    assert forall|jj: int| 0 <= jj < ex@.len() implies st[#[trigger] ex@[jj] as int] != pieces[k as int] by {
                        if st[ex@[jj] as int] == pieces[k as int] {
                            assert(st.contains(pieces[k as int]));
                        }
                    }
                }
            }
            k = k + 1;
        }
        false
    }

    /// The kind of turn restriction that a relation with these tags states
    /// for the profile.
    fn get_restriction_type(&self, tags: &Vec<(u32, u32)>) -> (r: TurnRestriction)
        requires
            self.wf(),
            ids_below(tags@, self.strings().len()),
        ensures
            r == restriction_kind(self.strings(), self.profile.access_tags@, self.profile.except_tags@, tags@),
    {
        proof {
            self.lemma_strings_distinct();
            reveal_strlit("type");
            reveal_strlit("restriction");
            reveal_strlit("restriction:");
        }
        let ghost st = self.strings();
        let type_id = self.lit_id("type");
        let restriction_id = self.lit_id("restriction");
        let (type_id, restriction_id) = match (type_id, restriction_id) {
            (Some(t), Some(r)) => (t, r),
            _ => {
                return TurnRestriction::Inapplicable;
            },
        };
        proof {
            lemma_id_of(st, type_id as int);
            lemma_id_of(st, restriction_id as int);
        }
        match lookup_exec(tags, type_id) {
            Some(v) => {
                proof {
                    lemma_lookup_in(tags@, type_id);
                    if v != restriction_id && st[v as int] == "restriction"@ {
                        if v < restriction_id {
                            assert(st[v as int] != st[restriction_id as int]);
                        } else {
                            assert(st[restriction_id as int] != st[v as int]);
                        }
                    }
                }
                if v != restriction_id {
                    return TurnRestriction::Inapplicable;
                }
            },
            None => {
                return TurnRestriction::Inapplicable;
            },
        }
        if self.is_exempted(tags) {
            return TurnRestriction::Inapplicable;
        }
        let modes = &self.profile.access_tags;
        let mut value: Option<u32> = None;
        let mut i = modes.len();
        assert(modes@.subrange(0, i as int) == modes@);
        while i > 0
            invariant_except_break
                value is None,
            invariant
                self.wf(),
                st == self.strings(),
                all_distinct(st),
                st.len() <= u32::MAX,
                modes@ == self.profile.access_tags@,
                list_below(modes@, st.len()),
                ids_below(tags@, st.len()),
                i <= modes@.len(),
                mode_value(st, modes@, tags@) == mode_value(st, modes@.subrange(0, i as int), tags@),
            ensures
                value == mode_value(st, modes@, tags@),
            decreases i,
        {
            let ghost pre = modes@.subrange(0, i as int);
            assert(pre.last() == modes@[i - 1]);
            assert(pre.drop_last() == modes@.subrange(0, i - 1));
            let mode = modes[i - 1];
            let mut key = owned("restriction:");
            key.append(self.interner.string_at(mode).as_str());
            assert(key@ == "restriction:"@ + st[mode as int]);
            if let Some(key_id) = self.interner.get(key.as_str()) {
                proof {
                    lemma_id_of(st, key_id as int);
                }
                if let Some(v) = lookup_exec(tags, key_id) {
                    value = Some(v);
                    break;
                }
            }
            i = i - 1;
        }
        let value = match value {
            Some(v) => Some(v),
            None => lookup_exec(tags, restriction_id),
        };
        match value {
            Some(v) => {
                proof {
                    if mode_value(st, modes@, tags@) is Some {
                        lemma_mode_value_in(st, modes@, tags@);
                    } else {
                        lemma_lookup_in(tags@, restriction_id);
                    }
                }
                proof {
                    reveal_strlit("no_");
                    reveal_strlit("only_");
                }
                let s = self.interner.string_at(v);
                if starts_with(s.as_str(), "no_") {
                    TurnRestriction::Prohibitory
                } else if starts_with(s.as_str(), "only_") {
                    TurnRestriction::Mandatory
                } else {
                    TurnRestriction::Inapplicable
                }
            },
            None => TurnRestriction::Inapplicable,
        }
    }
}

/// A value found for a mode is one of the tags' values.
proof fn lemma_mode_value_in(st: Seq<Seq<char>>, modes: Seq<u32>, tags: Seq<(u32, u32)>)
    ensures
        mode_value(st, modes, tags) matches Some(v) ==> exists|i: int| 0 <= i < tags.len() && (#[trigger] tags[i]).1 == v,
    decreases modes.len(),
{
    if modes.len() > 0 {
        let key = "restriction:"@ + st[modes.last() as int];
        if st.contains(key) && lookup(tags, id_of(st, key)) is Some {
            lemma_lookup_in(tags, id_of(st, key));
            let v = lookup(tags, id_of(st, key))->0;
            let i = choose|i: int| 0 <= i < tags.len() && #[trigger] tags[i] == (id_of(st, key), v);
            assert(tags[i].1 == v);
        } else {
            lemma_mode_value_in(st, modes.drop_last(), tags);
        }
    }
}

/// The position of the last member with role `role`.
pub open spec fn last_with_role(ms: Seq<RelationMember>, role: Seq<char>) -> Option<int>
    decreases ms.len(),
{
    if ms.len() == 0 {
        None
    } else if ms.last().role@ == role {
        Some(ms.len() - 1)
    } else {
        last_with_role(ms.drop_last(), role)
    }
}

/// The positions of the `via` members, in order.
pub open spec fn via_positions(ms: Seq<RelationMember>) -> Seq<int>
    decreases ms.len(),
{
    if ms.len() == 0 {
        Seq::empty()
    } else if ms.last().role@ == "via"@ {
        via_positions(ms.drop_last()).push(ms.len() - 1)
    } else {
        via_positions(ms.drop_last())
    }
}

/// The members of a restriction in path order: the last `from`, every
/// `via` in order, the last `to`; none when one of them is missing.
pub open spec fn ordered_members(ms: Seq<RelationMember>) -> Option<Seq<int>> {
    match (last_with_role(ms, "from"@), last_with_role(ms, "to"@)) {
        (Some(f), Some(t)) => if via_positions(ms).len() > 0 {
            Some(seq![f] + via_positions(ms) + seq![t])
        } else {
            None
        },
        _ => None,
    }
}

proof fn lemma_roles_in(ms: Seq<RelationMember>)
    ensures
        last_with_role(ms, "from"@) matches Some(f) ==> 0 <= f < ms.len() && ms[f].role@ == "from"@,
        last_with_role(ms, "to"@) matches Some(t) ==> 0 <= t < ms.len() && ms[t].role@ == "to"@,
        forall|k: int| 0 <= k < via_positions(ms).len() ==> 0 <= #[trigger] via_positions(ms)[k] < ms.len()
            && ms[via_positions(ms)[k]].role@ == "via"@,
    decreases ms.len(),
{
    if ms.len() > 0 {
        lemma_roles_in(ms.drop_last());
        let v0 = via_positions(ms.drop_last());
        let v = via_positions(ms);
        assert forall|k: int| 0 <= k < v.len() implies 0 <= #[trigger] v[k] < ms.len() && ms[v[k]].role@ == "via"@ by {
            if k < v0.len() {
                assert(v[k] == v0[k]);
                assert(ms.drop_last()[v0[k]] == ms[v0[k]]);
            }
        }
        match last_with_role(ms.drop_last(), "from"@) {
            Some(f) => {
                assert(ms.drop_last()[f] == ms[f]);
            },
            None => {},
        }
        match last_with_role(ms.drop_last(), "to"@) {
            Some(t) => {
                assert(ms.drop_last()[t] == ms[t]);
            },
            None => {},
        }
    }
}

/// The node list that a member stands for: a `via` node by itself, or a
/// recorded way's raw nodes.
pub open spec fn member_nodes(index: Map<i64, usize>, ways: Map<i64, Vec<i64>>, m: RelationMember) -> Option<Seq<i64>> {
    if m.member_type@ == "node"@ && m.role@ == "via"@ {
        if index.contains_key(m.ref_id) {
            Some(seq![m.ref_id])
        } else {
            None
        }
    } else if m.member_type@ == "way"@ {
        if ways.contains_key(m.ref_id) {
            Some(ways[m.ref_id]@)
        } else {
            None
        }
    } else {
        None
    }
}

/// A copy of a list of plain values.
fn copy_vec<T: Copy>(v: &Vec<T>) -> (r: Vec<T>)
    ensures
        r@ == v@,
{
    let mut r: Vec<T> = Vec::new();
    let mut i: usize = 0;
    while i < v.len()
        invariant
            i <= v@.len(),
            r@ == v@.subrange(0, i as int),
        decreases v@.len() - i,
    {
        r.push(v[i]);
        proof {
            assert(v@.subrange(0, i + 1) == v@.subrange(0, i as int).push(v@[i as int]));
        }
        i = i + 1;
    }
    r
}

/// The positions of a restriction's members in path order.
fn get_ordered_restriction_members(r: &Relation) -> (res: Result<Vec<usize>, GraphError>)
    ensures
        match res {
            Ok(v) => ordered_members(r.members@) matches Some(o) && v@.len() == o.len() && forall|k: int|
                0 <= k < o.len() ==> #[trigger] v@[k] as int == o[k],
            Err(e) => ordered_members(r.members@) is None && e is InvalidOsmData,
        },
{
    proof {
        reveal_strlit("from");
        reveal_strlit("to");
        reveal_strlit("via");
    }
    let ms = &r.members;
    let mut from: Option<usize> = None;
    let mut to: Option<usize> = None;
    let mut vias: Vec<usize> = Vec::new();
    let mut i: usize = 0;
    while i < ms.len()
        invariant
            i <= ms@.len(),
            match from {
                Some(f) => last_with_role(ms@.subrange(0, i as int), "from"@) == Some(f as int),
                None => last_with_role(ms@.subrange(0, i as int), "from"@) is None,
            },
            match to {
                Some(t) => last_with_role(ms@.subrange(0, i as int), "to"@) == Some(t as int),
                None => last_with_role(ms@.subrange(0, i as int), "to"@) is None,
            },
            vias@.len() == via_positions(ms@.subrange(0, i as int)).len(),
            forall|k: int| 0 <= k < vias@.len() ==> #[trigger] vias@[k] as int == via_positions(ms@.subrange(0, i as int))[k],
        decreases ms@.len() - i,
    {
        proof {
            reveal_strlit("from");
            reveal_strlit("to");
            reveal_strlit("via");
            assert(ms@.subrange(0, i + 1).drop_last() == ms@.subrange(0, i as int));
            assert(ms@.subrange(0, i + 1).last() == ms@[i as int]);
            assert("from"@.len() == 4 && "to"@.len() == 2 && "via"@.len() == 3);
            assert("from"@ != "to"@ && "from"@ != "via"@ && "to"@ != "via"@);
        }
        let role = ms[i].role.as_str();
        if str_eq(role, "from") {
            from = Some(i);
        } else if str_eq(role, "to") {
            to = Some(i);
        } else if str_eq(role, "via") {
            vias.push(i);
        }
        i = i + 1;
    }
    proof {
        assert(ms@.subrange(0, ms@.len() as int) == ms@);
    }
    let from = match from {
        Some(f) => f,
        None => {
            return Err(GraphError::InvalidOsmData(owned("Missing 'from' member")));
        },
    };
    let to = match to {
        Some(t) => t,
        None => {
            return Err(GraphError::InvalidOsmData(owned("Missing 'to' member")));
        },
    };
    if vias.len() == 0 {
        return Err(GraphError::InvalidOsmData(owned("Missing 'vias' member")));
    }
    let mut ordered: Vec<usize> = Vec::new();
    ordered.push(from);
    let mut k: usize = 0;
    while k < vias.len()
        invariant
            k <= vias@.len(),
            ordered@.len() == k + 1,
            ordered@[0] == from,
            forall|x: int| 0 <= x < k ==> #[trigger] ordered@[x + 1] == vias@[x],
        decreases vias@.len() - k,
    {
        ordered.push(vias[k]);
        k = k + 1;
    }
    ordered.push(to);
    proof {
        let o = ordered_members(ms@)->0;
        let vp = via_positions(ms@);
        assert forall|x: int| 0 <= x < o.len() implies #[trigger] ordered@[x] as int == o[x] by {
            if x == 0 {
            } else if x <= vp.len() {
                assert(ordered@[(x - 1) + 1] == vias@[x - 1]);
            }
        }
    }
    Ok(ordered)
}

impl<'a> GraphBuilder<'a> {
    /// The node list that a restriction member stands for.
    fn restriction_member_to_nodes(&self, m: &RelationMember) -> (r: Result<Vec<i64>, GraphError>)
        requires
            self.wf(),
        ensures
            match r {
                Ok(v) => member_nodes(self.node_index@, self.way_node_map@, *m) == Some(v@),
                Err(e) => member_nodes(self.node_index@, self.way_node_map@, *m) is None && e is InvalidOsmData,
            },
    {
        proof {
            reveal_strlit("node");
            reveal_strlit("via");
            reveal_strlit("way");
        }
        if str_eq(m.member_type.as_str(), "node") && str_eq(m.role.as_str(), "via") {
            if !self.node_index.contains_key(&m.ref_id) {
                return Err(GraphError::InvalidOsmData(numbered("Unknown node in restriction: ", m.ref_id, "")));
            }
            let mut v: Vec<i64> = Vec::new();
            v.push(m.ref_id);
            Ok(v)
        } else if str_eq(m.member_type.as_str(), "way") {
            match self.way_node_map.get(&m.ref_id) {
                Some(l) => Ok(copy_vec(l)),
                None => Err(GraphError::InvalidOsmData(numbered("Unknown or unusable way in restriction: ", m.ref_id, ""))),
            }
        } else {
            let mut msg = owned("Invalid member type/role combo: ");
            msg.append(m.member_type.as_str());
            msg.append("/");
            msg.append(m.role.as_str());
            Err(GraphError::InvalidOsmData(msg))
        }
    }
}

/// Clones recorded in `c0` stay recorded, with the same clone, in `c1`.
pub open spec fn clones_kept(c0: Map<u32, HashMap<i64, u32>>, c1: Map<u32, HashMap<i64, u32>>) -> bool {
    forall|f: u32, t: i64| c0.contains_key(f) && #[trigger] c0[f]@.contains_key(t) ==> c1.contains_key(f)
        && c1[f]@.contains_key(t) && c1[f]@[t] == c0[f]@[t]
}

/// `mn` holds the node lists of the members of a restriction, in order.
pub open spec fn reads_members(
    node_index: Map<i64, usize>,
    way_node_map: Map<i64, Vec<i64>>,
    members: Seq<RelationMember>,
    mn: Seq<Seq<i64>>,
) -> bool {
    &&& ordered_members(members) is Some
    &&& mn.len() == ordered_members(members)->0.len()
    &&& forall|k: int| 0 <= k < mn.len() ==> member_nodes(node_index, way_node_map, members[#[trigger] ordered_members(members)->0[k]])
        == Some(mn[k])
}

/// Kept clones keep a recorded chain where it leads.
proof fn lemma_chain_kept(c0: Map<u32, HashMap<i64, u32>>, c1: Map<u32, HashMap<i64, u32>>, start: u32, path: Seq<i64>, x: int)
    requires
        clones_kept(c0, c1),
        chain_recorded(c0, start, path),
        0 <= x <= path.len() - 2,
    ensures
        chain_node(c1, start, path, x) == chain_node(c0, start, path, x),
    decreases x,
{
    if x > 0 {
        lemma_chain_kept(c0, c1, start, path, x - 1);
        let f = chain_node(c0, start, path, x - 1);
        assert(c0.contains_key(f) && c0[f]@.contains_key(path[x]));
    }
}

/// `t` is the number of no node that an OSM id maps to in `m`.
pub open spec fn not_plain(m: Map<i64, u32>, t: u32) -> bool {
    forall|k: i64| #[trigger] m.contains_key(k) ==> m[k] != t
}

/// Each step of `path` after its first node, up to its next-to-last node,
/// has a clone recorded for the node reached before it.
pub open spec fn chain_recorded(clones: Map<u32, HashMap<i64, u32>>, start: u32, path: Seq<i64>) -> bool {
    forall|x: int| 1 <= x <= path.len() - 2 ==> clones.contains_key(#[trigger] chain_node(clones, start, path, x - 1))
        && clones[chain_node(clones, start, path, x - 1)]@.contains_key(path[x])
}

/// The node reached along `path` from `start` by following clones: the
/// clone of each via node for the node before it.
pub open spec fn chain_node(clones: Map<u32, HashMap<i64, u32>>, start: u32, path: Seq<i64>, i: int) -> u32
    decreases i,
{
    if i <= 0 {
        start
    } else {
        clones[chain_node(clones, start, path, i - 1)]@[path[i]]
    }
}

impl<'a> GraphBuilder<'a> {
    /// `b1` is `b0` after asking for the clone of via node `t` for paths
    /// arriving from node `f`, with answer `r`: a clone recorded already is
    /// given back and nothing changes; else a new node numbered next, with
    /// the via node's OSM id, coordinates, tags and edges, is recorded as the
    /// clone; or the call fails, changing nothing, where there is no such
    /// via node or no number is left.
    pub closed spec fn clone_outcome(b0: Self, b1: Self, f: u32, t: i64, r: Result<u32, GraphError>) -> bool {
        let had = b0.via_node_clones@.contains_key(f) && b0.via_node_clones@[f]@.contains_key(t);
        &&& b1.wf()
        &&& b0.wf()
        &&& b1.node_map == b0.node_map
        &&& match r {
            Ok(c) => {
                &&& b1.via_node_clones@.contains_key(f)
                &&& b1.via_node_clones@[f]@.contains_key(t)
                &&& b1.via_node_clones@[f]@[t] == c
                &&& had ==> b1 == b0
                &&& !had ==> {
                    let orig = b0.node_map@[t] as int;
                    &&& c == b0.next_internal_id
                    &&& b1.next_internal_id == c + 1
                    &&& b1.nodes@.len() == c + 1
                    &&& b1.nodes@[c as int].external_id == t
                    &&& b1.nodes@[c as int].lat_bits == b0.nodes@[orig].lat_bits
                    &&& b1.nodes@[c as int].lon_bits == b0.nodes@[orig].lon_bits
                    &&& b1.nodes@[c as int].tags@ == b0.nodes@[orig].tags@
                    &&& b1.temp_edges@[c as int]@ == b0.temp_edges@[orig]@
                }
            },
            Err(_) => !had && b1 == b0,
        }
    }

    /// Asking again for a clone that was given changes nothing (the builder
    /// stays as it was) and gives the same clone.
    pub proof fn lemma_clone_reused(b0: Self, b1: Self, b2: Self, f: u32, t: i64, k: u32, r: Result<u32, GraphError>)
        requires
            Self::clone_outcome(b0, b1, f, t, Ok(k)),
            Self::clone_outcome(b1, b2, f, t, r),
        ensures
            r == Ok::<u32, GraphError>(k),
            b2 == b1,
    {
    }

    /// The clone of via node `target_osm_id` for paths arriving from node
    /// `from_node_id`: a new node with the via node's data and outgoing
    /// edges, made on first use.
    fn get_or_create_clone<C: EdgeCost>(&mut self, from_node_id: u32, target_osm_id: i64, Ghost(cost): Ghost<C>) -> (r: Result<
        u32,
        GraphError,
    >)
        requires
            old(self).wf(),
            old(self).follows_ways(),
            old(self).clones_apart(),
            old(self).edges_priced(cost),
        ensures
            final(self).edges_priced(cost),
            Self::clone_outcome(*old(self), *final(self), from_node_id, target_osm_id, r),
            final(self).wf(),
            final(self).follows_ways(),
            final(self).clones_apart(),
            final(self).node_map == old(self).node_map,
            final(self).way_node_map == old(self).way_node_map,
            final(self).processed_ways == old(self).processed_ways,
            final(self).raw_ways == old(self).raw_ways,
            final(self).raw_nodes == old(self).raw_nodes,
            final(self).raw_relations == old(self).raw_relations,
            final(self).node_index == old(self).node_index,
            final(self).profile == old(self).profile,
            final(self).interner == old(self).interner,
            final(self).nodes@.len() >= old(self).nodes@.len(),
            forall|i: int| 0 <= i < old(self).nodes@.len() ==> #[trigger] final(self).nodes@[i] == old(self).nodes@[i],
            forall|i: int| 0 <= i < old(self).nodes@.len() ==> #[trigger] final(self).temp_edges@[i] == old(self).temp_edges@[i],
            clones_kept(old(self).via_node_clones@, final(self).via_node_clones@),
            match r {
                Ok(c) => {
                    &&& final(self).node_map@.contains_key(target_osm_id)
                    &&& final(self).via_node_clones@.contains_key(from_node_id)
                    &&& final(self).via_node_clones@[from_node_id]@.contains_key(target_osm_id)
                    &&& final(self).via_node_clones@[from_node_id]@[target_osm_id] == c
                    &&& (old(self).via_node_clones@.contains_key(from_node_id)
                        && old(self).via_node_clones@[from_node_id]@.contains_key(target_osm_id)) ==> final(self).nodes
                        == old(self).nodes && final(self).temp_edges == old(self).temp_edges
                        && final(self).via_node_clones@ == old(self).via_node_clones@
                    &&& !(old(self).via_node_clones@.contains_key(from_node_id)
                        && old(self).via_node_clones@[from_node_id]@.contains_key(target_osm_id)) ==> {
                        let orig = old(self).node_map@[target_osm_id] as int;
                        &&& c == old(self).nodes@.len()
                        &&& final(self).nodes@.len() == c + 1
                        &&& final(self).nodes@[c as int].external_id == old(self).nodes@[orig].external_id
                        &&& final(self).nodes@[c as int].lat_bits == old(self).nodes@[orig].lat_bits
                        &&& final(self).nodes@[c as int].lon_bits == old(self).nodes@[orig].lon_bits
                        &&& final(self).nodes@[c as int].tags@ == old(self).nodes@[orig].tags@
                        &&& final(self).temp_edges@[c as int]@ == old(self).temp_edges@[orig]@
                    }
                },
                Err(e) => e is InvalidOsmData && final(self).nodes == old(self).nodes
                    && final(self).temp_edges == old(self).temp_edges && final(self).via_node_clones@
                    == old(self).via_node_clones@ && (!old(self).node_map@.contains_key(target_osm_id)
                    || old(self).nodes@.len() + 2 >= u32::MAX) && !(old(self).via_node_clones@.contains_key(
                    from_node_id,
                ) && old(self).via_node_clones@[from_node_id]@.contains_key(target_osm_id)),
            },
    {
        if let Some(inner) = self.via_node_clones.get(&from_node_id) {
            if let Some(c) = inner.get(&target_osm_id) {
                return Ok(*c);
            }
        }
        let base_id = match self.node_map.get(&target_osm_id) {
            Some(i) => *i,
            None => {
                return Err(GraphError::InvalidOsmData(numbered("Target node ", target_osm_id, " for cloning not found")));
            },
        };
        if self.next_internal_id >= u32::MAX - 1 {
            return Err(GraphError::InvalidOsmData(owned("No internal number left for a restriction clone")));
        }
        let ghost b0 = *self;
        let clone_id = self.next_internal_id;
        self.next_internal_id = clone_id + 1;
        let base_node = &self.nodes[base_id as usize];
        let node = RouteNode {
            id: clone_id,
            external_id: base_node.external_id,
            lat_bits: base_node.lat_bits,
            lon_bits: base_node.lon_bits,
            tags: copy_vec(&base_node.tags),
        };
        self.nodes.push(node);
        let edges = copy_vec(&self.temp_edges[base_id as usize]);
        self.temp_edges.push(edges);
        let ghost c0 = self.via_node_clones@;
        let mut inner = match self.via_node_clones.remove(&from_node_id) {
            Some(m) => m,
            None => HashMap::new(),
        };
        let ghost inner0 = inner@;
        inner.insert(target_osm_id, clone_id);
        self.via_node_clones.insert(from_node_id, inner);
        proof {
            let n0 = b0.nodes@.len();
            let cl = self.via_node_clones@;
            assert(cl == c0.remove(from_node_id).insert(from_node_id, inner));
            assert forall|i: int| 0 <= i < n0 + 1 implies sorted_targets((#[trigger] self.temp_edges@[i])@)
                && targets_below(self.temp_edges@[i]@, n0 + 1) by {
                if i < n0 {
                    assert(self.temp_edges@[i] == b0.temp_edges@[i]);
                    assert(targets_below(b0.temp_edges@[i]@, n0));
                } else {
                    assert(self.temp_edges@[i]@ == b0.temp_edges@[base_id as int]@);
                    assert(targets_below(b0.temp_edges@[base_id as int]@, n0));
                }
            }
            assert forall|i: int| 0 <= i < n0 + 1 implies (#[trigger] self.nodes@[i]).id == i
                && ids_below(self.nodes@[i].tags@, self.strings().len()) by {
                if i < n0 {
                    assert(self.nodes@[i] == b0.nodes@[i]);
                } else {
                    assert(ids_below(b0.nodes@[base_id as int].tags@, self.strings().len()));
                }
            }
            assert forall|k: i64| #[trigger] self.node_map@.contains_key(k) implies self.node_map@[k] < n0 + 1
                && self.nodes@[self.node_map@[k] as int].external_id == k by {
                assert(self.nodes@[self.node_map@[k] as int] == b0.nodes@[b0.node_map@[k] as int]);
            }
            assert forall|f: u32, t: i64| cl.contains_key(f) && #[trigger] cl[f]@.contains_key(t)
                implies self.node_map@.contains_key(t) && cl[f]@[t] < n0 + 1 by {
                if f == from_node_id {
                    if t != target_osm_id {
                        assert(c0.contains_key(f) && c0[f]@.contains_key(t));
                    }
                } else {
                    assert(c0.contains_key(f) && cl[f] == c0[f]);
                }
            }
            assert forall|f: u32, t: i64| c0.contains_key(f) && #[trigger] c0[f]@.contains_key(t)
                implies cl.contains_key(f) && cl[f]@.contains_key(t) && cl[f]@[t] == c0[f]@[t] by {
                if f == from_node_id {
                    assert(inner0 == c0[f]@);
                }
            }
            assert forall|f: u32, t: i64, k: i64|
                cl.contains_key(f) && cl[f]@.contains_key(t) && self.node_map@.contains_key(k)
                implies #[trigger] cl[f]@[t] != #[trigger] self.node_map@[k] by {
                assert(b0.node_map@[k] < n0);
                if !(f == from_node_id && t == target_osm_id) {
                    if f == from_node_id {
                        assert(c0.contains_key(f) && c0[f]@.contains_key(t) && cl[f]@[t] == c0[f]@[t]);
                    } else {
                        assert(c0.contains_key(f) && cl[f] == c0[f]);
                    }
                    assert(b0.via_node_clones@[f]@[t] != b0.node_map@[k]);
                }
            }
            assert(self.clones_apart());
            assert(self.nodes_ok());
            Self::lemma_index_same(&b0, self);
            assert(self.way_lists() == b0.way_lists());
            assert forall|i: int, t: u32| 0 <= i < self.temp_edges@.len() && #[trigger] edge_map(self.temp_edges@[i]@).contains_key(t)
                implies neighbours_on(self.way_lists(), self.nodes@[i].external_id, self.nodes@[t as int].external_id) by {
                let src = if i < n0 { i } else { base_id as int };
                assert(self.temp_edges@[i]@ == b0.temp_edges@[src]@);
                assert(edge_map(b0.temp_edges@[src]@).contains_key(t));
                assert(targets_below(b0.temp_edges@[src]@, n0));
                let k = target_index(b0.temp_edges@[src]@, t);
                assert(b0.temp_edges@[src]@[k].0 == t);
                assert(t < n0);
                assert(self.nodes@[t as int] == b0.nodes@[t as int]);
                assert(self.nodes@[i].external_id == b0.nodes@[src].external_id);
            }
            assert forall|p: Profile, i: int, t: u32|
                #![trigger names_profile(self.strings(), self.profile, p), edge_map(self.temp_edges@[i]@).contains_key(t)]
                names_profile(self.strings(), self.profile, p) && 0 <= i < self.temp_edges@.len() && edge_map(
                    self.temp_edges@[i]@,
                ).contains_key(t) implies edge_priced_by_way(
                self.raw_nodes@,
                self.raw_ways@,
                p,
                cost,
                self.nodes@[i].external_id,
                self.nodes@[t as int].external_id,
                edge_map(self.temp_edges@[i]@)[t],
            ) by {
                let src = if i < n0 { i } else { base_id as int };
                assert(self.temp_edges@[i]@ == b0.temp_edges@[src]@);
                assert(edge_map(b0.temp_edges@[src]@).contains_key(t));
                assert(targets_below(b0.temp_edges@[src]@, n0));
                let k = target_index(b0.temp_edges@[src]@, t);
                assert(b0.temp_edges@[src]@[k].0 == t);
                assert(self.nodes@[t as int] == b0.nodes@[t as int]);
                assert(self.nodes@[i].external_id == b0.nodes@[src].external_id);
                assert(names_profile(b0.strings(), b0.profile, p));
            }
            assert forall|f: u32, t: i64| cl.contains_key(f) && #[trigger] cl[f]@.contains_key(t)
                implies self.nodes@[cl[f]@[t] as int].external_id == t by {
                if f == from_node_id && t == target_osm_id {
                    assert(cl[f]@[t] == clone_id);
                } else {
                    assert(c0.contains_key(f) && c0[f]@.contains_key(t) && cl[f]@[t] == c0[f]@[t]) by {
                        if f == from_node_id {
                            assert(inner0 == c0[f]@);
                        }
                    }
                    assert(c0[f]@[t] < n0);
                    assert(self.nodes@[c0[f]@[t] as int] == b0.nodes@[c0[f]@[t] as int]);
                }
            }
        }
        Ok(clone_id)
    }

    /// Reroutes the edges along a restriction path through clones of its via
    /// nodes, then forbids (prohibitory) or enforces (mandatory) the final
    /// turn from the last clone.
    fn apply_restriction<C: EdgeCost>(
        &mut self,
        restriction_path: &Vec<i64>,
        restriction_type: TurnRestriction,
        Ghost(cost): Ghost<C>,
    ) -> (r: Result<(), GraphError>)
        requires
            old(self).edges_priced(cost),
            old(self).wf(),
            old(self).follows_ways(),
            restriction_path@.len() >= 2 ==> old(self).node_map@.contains_key(restriction_path@.last()),
            old(self).clones_apart(),
        ensures
            final(self).edges_priced(cost),
            final(self).wf(),
            final(self).follows_ways(),
            final(self).clones_apart(),
            forall|k: i64| #[trigger] old(self).node_map@.contains_key(k) && (restriction_path@.len() < 2
                || !old(self).node_map@.contains_key(restriction_path@[0]) || old(self).node_map@[k]
                != old(self).node_map@[restriction_path@[0]]) ==> final(self).temp_edges@[old(self).node_map@[k] as int]
                == old(self).temp_edges@[old(self).node_map@[k] as int],
            (r is Ok && restriction_path@.len() >= 3) ==> {
                let path = restriction_path@;
                let m = old(self).node_map@;
                let a = m[path[0]];
                let v = m[path[1]];
                let before = edge_map(old(self).temp_edges@[a as int]@);
                &&& m.contains_key(path[1])
                &&& before.contains_key(v)
                &&& edge_map(final(self).temp_edges@[a as int]@) == before.remove(v).insert(
                    chain_node(final(self).via_node_clones@, a, path, 1),
                    before[v],
                )
            },
            final(self).node_map == old(self).node_map,
            final(self).way_node_map == old(self).way_node_map,
            final(self).processed_ways == old(self).processed_ways,
            final(self).raw_ways == old(self).raw_ways,
            final(self).raw_nodes == old(self).raw_nodes,
            final(self).raw_relations == old(self).raw_relations,
            final(self).node_index == old(self).node_index,
            final(self).profile == old(self).profile,
            final(self).interner == old(self).interner,
            final(self).nodes@.len() >= old(self).nodes@.len(),
            forall|i: int| 0 <= i < old(self).nodes@.len() ==> #[trigger] final(self).nodes@[i] == old(self).nodes@[i],
            clones_kept(old(self).via_node_clones@, final(self).via_node_clones@),
            restriction_path@.len() < 2 ==> r is Ok && final(self).temp_edges == old(self).temp_edges,
            r matches Err(e) ==> e is InvalidOsmData,
            (r is Ok && restriction_path@.len() >= 2) ==> {
                let path = restriction_path@;
                let m = final(self).node_map@;
                let last = chain_node(final(self).via_node_clones@, m[path[0]], path, path.len() - 2);
                let to = m[path.last()];
                let out = edge_map(final(self).temp_edges@[last as int]@);
                &&& m.contains_key(path[0])
                &&& chain_recorded(final(self).via_node_clones@, m[path[0]], path)
                &&& last < final(self).nodes@.len()
                &&& restriction_type == TurnRestriction::Prohibitory ==> !out.contains_key(to)
                &&& restriction_type == TurnRestriction::Mandatory ==> forall|t: u32| #[trigger] out.contains_key(t) ==> t == to
            },
            forall|x: int, t: u32| 0 <= x < old(self).nodes@.len() && #[trigger] edge_map(final(self).temp_edges@[x]@).contains_key(t)
                && !edge_map(old(self).temp_edges@[x]@).contains_key(t) ==> not_plain(old(self).node_map@, t),
            (r is Err && restriction_path@.len() == 3 && old(self).node_map@.contains_key(restriction_path@[0])
                && old(self).node_map@.contains_key(restriction_path@[1])) ==> old(self).blocked_at_first_step(restriction_path@),
    {
        let path = restriction_path;
        if path.len() < 2 {
            return Ok(());
        }
        let start = match self.node_map.get(&path[0]) {
            Some(i) => *i,
            None => {
                return Err(GraphError::InvalidOsmData(owned("Restriction start node not found")));
            },
        };
        let mut current = start;
        let ghost mut chain: Seq<u32> = seq![start];
        let mut i: usize = 1;
        while i < path.len() - 1
            invariant
                self.wf(),
                self.follows_ways(),
                self.node_map == old(self).node_map,
                self.way_node_map == old(self).way_node_map,
                self.processed_ways == old(self).processed_ways,
                self.raw_ways == old(self).raw_ways,
                self.raw_nodes == old(self).raw_nodes,
                self.raw_relations == old(self).raw_relations,
                self.node_index == old(self).node_index,
                self.profile == old(self).profile,
                self.interner == old(self).interner,
                self.nodes@.len() >= old(self).nodes@.len(),
                forall|x: int| 0 <= x < old(self).nodes@.len() ==> #[trigger] self.nodes@[x] == old(self).nodes@[x],
                clones_kept(old(self).via_node_clones@, self.via_node_clones@),
                path@.len() >= 2,
                path == restriction_path,
                old(self).node_map@.contains_key(path@.last()),
                1 <= i,
                i + 1 <= path@.len(),
                chain.len() == i,
                chain[0] == start,
                start == old(self).node_map@[path@[0]],
                old(self).node_map@.contains_key(path@[0]),
                current == chain.last(),
                current < self.nodes@.len(),
                forall|x: int| 1 <= x < i ==> self.via_node_clones@.contains_key(#[trigger] chain[x - 1])
                    && self.via_node_clones@[chain[x - 1]]@.contains_key(path@[x])
                    && self.via_node_clones@[chain[x - 1]]@[path@[x]] == chain[x],
                self.clones_apart(),
                self.edges_priced(cost),
                i == 1 ==> self.temp_edges@ == old(self).temp_edges@ && self.nodes == old(self).nodes
                    && self.via_node_clones == old(self).via_node_clones,
                forall|x: int, t: u32| 0 <= x < old(self).nodes@.len() && #[trigger] edge_map(self.temp_edges@[x]@).contains_key(t)
                    && !edge_map(old(self).temp_edges@[x]@).contains_key(t) ==> not_plain(old(self).node_map@, t),
                i >= 2 ==> forall|k: i64| #[trigger] old(self).node_map@.contains_key(k) ==> current != old(self).node_map@[k],
                forall|k: i64| #[trigger] old(self).node_map@.contains_key(k) && old(self).node_map@[k] != start
                    ==> self.temp_edges@[old(self).node_map@[k] as int] == old(self).temp_edges@[old(self).node_map@[k] as int],
                i >= 2 ==> {
                    let m = old(self).node_map@;
                    let before = edge_map(old(self).temp_edges@[start as int]@);
                    &&& m.contains_key(path@[1])
                    &&& before.contains_key(m[path@[1]])
                    &&& edge_map(self.temp_edges@[start as int]@) == before.remove(m[path@[1]]).insert(chain[1], before[m[path@[1]]])
                },
            decreases path@.len() - i,
        {
            let via_osm_id = path[i];
            let ghost cl_before = self.via_node_clones@;
            let cloned_via_id = match self.get_or_create_clone::<C>(current, via_osm_id, Ghost(cost)) {
                Ok(c) => c,
                Err(e) => {
                    return Err(e);
                },
            };
            let plain_via_id = match self.node_map.get(&via_osm_id) {
                Some(v) => *v,
                None => {
                    return Err(GraphError::InvalidOsmData(owned("Restriction via node not found")));
                },
            };
            let ghost b1 = *self;
            match remove_edge(&mut self.temp_edges[current as usize], plain_via_id) {
                Some(cost) => {
                    insert_edge(&mut self.temp_edges[current as usize], cloned_via_id, cost);
                },
                None => {
                    let mut msg = numbered("Edge from ", path[i - 1], " to ");
                    msg.append(numbered("", via_osm_id, " does not exist for restriction").as_str());
                    proof {
                        assert forall|x: int| 0 <= x < self.nodes@.len() implies sorted_targets((#[trigger] self.temp_edges@[x])@)
                            && targets_below(self.temp_edges@[x]@, self.nodes@.len()) by {
                            assert(sorted_targets(b1.temp_edges@[x]@) && targets_below(b1.temp_edges@[x]@, self.nodes@.len()));
                        }
                        assert(self.nodes_ok());
                        Self::lemma_index_same(&b1, self);
                        assert forall|x: int| 0 <= x < b1.temp_edges@.len() implies #[trigger] edge_map(self.temp_edges@[x]@)
                            == edge_map(b1.temp_edges@[x]@) by {
                            if x == current {
                                assert(edge_map(self.temp_edges@[x]@) =~= edge_map(b1.temp_edges@[x]@));
                            }
                        }
                        Self::lemma_follows_same_edges(&b1, self);
                        Self::lemma_priced_fewer(&b1, self, cost);
                    }
                    return Err(GraphError::InvalidOsmData(msg));
                },
            }
            proof {
                let n = self.nodes@.len();
                assert forall|x: int| 0 <= x < n implies sorted_targets((#[trigger] self.temp_edges@[x])@)
                    && targets_below(self.temp_edges@[x]@, n) by {
                    assert(sorted_targets(b1.temp_edges@[x]@) && targets_below(b1.temp_edges@[x]@, n));
                }
                assert(self.nodes_ok());
                Self::lemma_index_same(&b1, self);
                Self::lemma_follows_reroute(&b1, self, current, plain_via_id, cloned_via_id, via_osm_id);
                Self::lemma_priced_reroute(&b1, self, cost, current, plain_via_id, cloned_via_id, via_osm_id);
                assert forall|x: int| 1 <= x < i + 1 implies self.via_node_clones@.contains_key(#[trigger] chain.push(cloned_via_id)[x - 1])
                    && self.via_node_clones@[chain.push(cloned_via_id)[x - 1]]@.contains_key(path@[x])
                    && self.via_node_clones@[chain.push(cloned_via_id)[x - 1]]@[path@[x]] == chain.push(cloned_via_id)[x] by {
                    if x < i {
                        assert(chain.push(cloned_via_id)[x - 1] == chain[x - 1]);
                        assert(chain.push(cloned_via_id)[x] == chain[x]);
                        assert(cl_before.contains_key(chain[x - 1]) && cl_before[chain[x - 1]]@.contains_key(path@[x]));
                    }
                }
                chain = chain.push(cloned_via_id);
                assert forall|k: i64| #[trigger] old(self).node_map@.contains_key(k) implies cloned_via_id
                    != old(self).node_map@[k] by {
                    self.lemma_clone_apart(chain[i - 1], via_osm_id, k);
                }
                assert(not_plain(old(self).node_map@, cloned_via_id));
                assert forall|x: int, t: u32| 0 <= x < old(self).nodes@.len() && #[trigger] edge_map(self.temp_edges@[x]@).contains_key(t)
                    && !edge_map(old(self).temp_edges@[x]@).contains_key(t) implies not_plain(old(self).node_map@, t) by {
                    if x != current && t != cloned_via_id {
                        assert(self.temp_edges@[x] == b1.temp_edges@[x]);
                    }
                }
            }
            current = cloned_via_id;
            i = i + 1;
        }
        proof {
            assert forall|x: int| 1 <= x <= path@.len() - 2 implies self.via_node_clones@.contains_key(
                #[trigger] chain_node(self.via_node_clones@, start, path@, x - 1),
            ) && self.via_node_clones@[chain_node(self.via_node_clones@, start, path@, x - 1)]@.contains_key(path@[x]) by {
                lemma_chain(self.via_node_clones@, start, path@, chain, x - 1);
            }
            if path@.len() >= 3 {
                lemma_chain(self.via_node_clones@, start, path@, chain, 1);
                assert(old(self).node_map@.contains_key(path@[0]));
                assert(current != start);
            }
        }
        let final_to_osm_id = path[path.len() - 1];
        let final_to_id = match self.node_map.get(&final_to_osm_id) {
            Some(v) => *v,
            None => {
                return Ok(());
            },
        };
        let ghost b2 = *self;
        if restriction_type == TurnRestriction::Prohibitory {
            remove_edge(&mut self.temp_edges[current as usize], final_to_id);
        } else if restriction_type == TurnRestriction::Mandatory {
            retain_only_edge(&mut self.temp_edges[current as usize], final_to_id);
        }
        proof {
            let n = self.nodes@.len();
            assert forall|x: int| 0 <= x < n implies sorted_targets((#[trigger] self.temp_edges@[x])@)
                && targets_below(self.temp_edges@[x]@, n) by {
                assert(sorted_targets(b2.temp_edges@[x]@) && targets_below(b2.temp_edges@[x]@, n));
            }
            assert(self.nodes_ok());
            Self::lemma_index_same(&b2, self);
            Self::lemma_follows_fewer_edges(&b2, self);
            assert forall|x: int, t: u32| 0 <= x < b2.temp_edges@.len() && #[trigger] edge_map(self.temp_edges@[x]@).contains_key(t)
                implies edge_map(b2.temp_edges@[x]@).contains_key(t) && edge_map(self.temp_edges@[x]@)[t] == edge_map(
                b2.temp_edges@[x]@,
            )[t] by {
                if x != current {
                    assert(self.temp_edges@[x] == b2.temp_edges@[x]);
                }
            }
            Self::lemma_priced_fewer(&b2, self, cost);
            lemma_chain(self.via_node_clones@, start, path@, chain, chain.len() - 1);
            if path@.len() >= 3 {
                assert(self.temp_edges@[start as int] == b2.temp_edges@[start as int]);
            }
        }
        Ok(())
    }

    /// Changing no edge target keeps the edges on the ways.
    proof fn lemma_follows_same_edges(b0: &Self, b1: &Self)
        requires
            b0.follows_ways(),
            b1.nodes == b0.nodes,
            b1.processed_ways == b0.processed_ways,
            b1.way_node_map == b0.way_node_map,
            b1.via_node_clones == b0.via_node_clones,
            b1.temp_edges@.len() == b0.temp_edges@.len(),
            forall|x: int| 0 <= x < b0.temp_edges@.len() ==> #[trigger] edge_map(b1.temp_edges@[x]@) == edge_map(
                b0.temp_edges@[x]@,
            ),
        ensures
            b1.follows_ways(),
    {
        assert(b1.way_lists() == b0.way_lists());
        assert forall|i: int, t: u32| 0 <= i < b1.temp_edges@.len() && #[trigger] edge_map(b1.temp_edges@[i]@).contains_key(t)
            implies neighbours_on(b1.way_lists(), b1.nodes@[i].external_id, b1.nodes@[t as int].external_id) by {
            assert(edge_map(b1.temp_edges@[i]@) == edge_map(b0.temp_edges@[i]@));
        }
    }

    /// Dropping edges keeps the edges on the ways.
    proof fn lemma_follows_fewer_edges(b0: &Self, b1: &Self)
        requires
            b0.follows_ways(),
            b1.nodes == b0.nodes,
            b1.processed_ways == b0.processed_ways,
            b1.way_node_map == b0.way_node_map,
            b1.via_node_clones == b0.via_node_clones,
            b1.temp_edges@.len() == b0.temp_edges@.len(),
            forall|x: int, t: u32| 0 <= x < b0.temp_edges@.len() && #[trigger] edge_map(b1.temp_edges@[x]@).contains_key(t)
                ==> edge_map(b0.temp_edges@[x]@).contains_key(t),
        ensures
            b1.follows_ways(),
    {
        assert(b1.way_lists() == b0.way_lists());
        assert forall|i: int, t: u32| 0 <= i < b1.temp_edges@.len() && #[trigger] edge_map(b1.temp_edges@[i]@).contains_key(t)
            implies neighbours_on(b1.way_lists(), b1.nodes@[i].external_id, b1.nodes@[t as int].external_id) by {
            assert(edge_map(b0.temp_edges@[i]@).contains_key(t));
        }
    }

    /// Adding edges between consecutive nodes of a way's kept node list keeps
    /// the edges on the ways.
    proof fn lemma_follows_add_way(b0: &Self, b1: &Self, wid: i64, dir: (bool, bool))
        requires
            b0.follows_ways(),
            b0.nodes_ok(),
            b1.nodes == b0.nodes,
            b1.node_map == b0.node_map,
            b1.processed_ways == b0.processed_ways,
            b1.way_node_map == b0.way_node_map,
            b1.via_node_clones == b0.via_node_clones,
            b1.temp_edges@ == b0.temp_edges@ || (b0.way_node_map@.contains_key(wid) && edges_grow_by(
                b0.temp_edges@,
                b1.temp_edges@,
                b0.node_map@,
                b0.way_node_map@[wid]@,
                dir,
            )),
        ensures
            b1.follows_ways(),
    {
        assert(b1.way_lists() == b0.way_lists());
        if b1.temp_edges@ != b0.temp_edges@ {
            let m = b0.node_map@;
            let list = b0.way_node_map@[wid]@;
            let p = choose|p: int| 0 <= p < b0.processed_ways@.len() && b0.processed_ways@[p].1@ == b0.way_node_map@[wid]@;
            assert(b0.way_lists()[p] == list);
            assert forall|i: int, t: u32| 0 <= i < b1.temp_edges@.len() && #[trigger] edge_map(b1.temp_edges@[i]@).contains_key(t)
                implies neighbours_on(b1.way_lists(), b1.nodes@[i].external_id, b1.nodes@[t as int].external_id) by {
                if !edge_map(b0.temp_edges@[i]@).contains_key(t) {
                    assert(step_edge(m, list, dir, i as u32, t));
                    let j = choose|j: int|
                        0 <= j && j + 1 < list.len() && ((dir.0 && m[#[trigger] list[j]] == i as u32 && m[list[j + 1]] == t) || (dir.1
                            && m[list[j + 1]] == i as u32 && m[list[j]] == t));
                    assert(m.contains_key(list[j]) && m.contains_key(list[j + 1]));
                    assert(b0.nodes@[m[list[j]] as int].external_id == list[j]);
                    assert(b0.nodes@[m[list[j + 1]] as int].external_id == list[j + 1]);
                    assert(b1.way_lists()[p][j] == list[j]);
                }
            }
        }
    }

    /// The edges of a builder whose edges follow its ways, compressed into a
    /// graph, lie on the graph's ways.
    proof fn lemma_graph_on_ways(b: &Self, g: ProcessedGraph)
        requires
            b.follows_ways(),
            b.nodes_ok(),
            g.nodes@ == b.nodes@,
            forall|i: int| 0 <= i < g.nodes@.len() ==> #[trigger] g.out_edges(i as u32) == b.temp_edges@[i]@,
            g.ways@.len() == b.processed_ways@.len(),
            forall|p: int| 0 <= p < g.ways@.len() ==> {
                &&& (#[trigger] g.ways@[p]).node_ids@.len() == b.processed_ways@[p].1@.len()
                &&& forall|j: int| 0 <= j < g.ways@[p].node_ids@.len() ==> #[trigger] g.ways@[p].node_ids@[j]
                    == b.node_map@[b.processed_ways@[p].1@[j]]
            },
        ensures
            edges_on_ways(g),
    {
        assert forall|p: int| 0 <= p < g.ways@.len() implies #[trigger] graph_way_lists(g)[p] == b.way_lists()[p] by {
            let l = way_osm_ids(g, p);
            assert forall|j: int| 0 <= j < l.len() implies l[j] == b.processed_ways@[p].1@[j] by {
                assert(g.ways@[p].node_ids@[j] == b.node_map@[b.processed_ways@[p].1@[j]]);
                assert(b.node_map@.contains_key(b.processed_ways@[p].1@[j]));
            }
            assert(l =~= b.processed_ways@[p].1@);
        }
        assert(graph_way_lists(g) =~= b.way_lists());
        assert forall|i: int, e: int| 0 <= i < g.nodes@.len() && 0 <= e < g.out_edges(i as u32).len() implies neighbours_on(
            graph_way_lists(g),
            g.nodes@[i].external_id,
            g.nodes@[(#[trigger] g.out_edges(i as u32)[e]).0 as int].external_id,
        ) by {
            let es = b.temp_edges@[i]@;
            assert(g.out_edges(i as u32) == es);
            let t = es[e].0;
            assert(crate::edges::has_target(es, t));
            assert(edge_map(es).contains_key(t));
        }
    }

    /// Moving the edge from `cur` to a node onto a clone of that node keeps
    /// the edges on the ways.
    /// Keeping some edges at their costs keeps the edges priced by ways.
    proof fn lemma_priced_fewer<C: EdgeCost>(b0: &Self, b1: &Self, cost: C)
        requires
            b0.edges_priced_by_ways(cost),
            b1.interner == b0.interner,
            b1.profile == b0.profile,
            b1.nodes == b0.nodes,
            b1.raw_nodes == b0.raw_nodes,
            b1.raw_ways == b0.raw_ways,
            b1.temp_edges@.len() == b0.temp_edges@.len(),
            forall|x: int, t: u32| 0 <= x < b0.temp_edges@.len() && #[trigger] edge_map(b1.temp_edges@[x]@).contains_key(t)
                ==> edge_map(b0.temp_edges@[x]@).contains_key(t) && edge_map(b1.temp_edges@[x]@)[t] == edge_map(
                b0.temp_edges@[x]@,
            )[t],
        ensures
            b1.edges_priced_by_ways(cost),
    {
        assert forall|p: Profile, i: int, t: u32|
            #![trigger names_profile(b1.strings(), b1.profile, p), edge_map(b1.temp_edges@[i]@).contains_key(t)]
            names_profile(b1.strings(), b1.profile, p) && 0 <= i < b1.temp_edges@.len() && edge_map(
                b1.temp_edges@[i]@,
            ).contains_key(t) implies edge_priced_by_way(
                b1.raw_nodes@,
                b1.raw_ways@,
                p,
                cost,
                b1.nodes@[i].external_id,
                b1.nodes@[t as int].external_id,
                edge_map(b1.temp_edges@[i]@)[t],
            ) by {
            assert(names_profile(b0.strings(), b0.profile, p));
            assert(edge_map(b0.temp_edges@[i]@).contains_key(t));
        }
    }

    /// Moving an edge from a via node to its clone, at the same cost, keeps
    /// the edges priced by ways.
    proof fn lemma_priced_reroute<C: EdgeCost>(b0: &Self, b1: &Self, cost: C, cur: u32, plain: u32, clone: u32, via: i64)
        requires
            b0.edges_priced_by_ways(cost),
            b0.follows_ways(),
            b0.nodes_ok(),
            b1.interner == b0.interner,
            b1.profile == b0.profile,
            b1.nodes == b0.nodes,
            b1.raw_nodes == b0.raw_nodes,
            b1.raw_ways == b0.raw_ways,
            b1.temp_edges@.len() == b0.temp_edges@.len(),
            cur < b0.temp_edges@.len(),
            b0.node_map@.contains_key(via),
            b0.node_map@[via] == plain,
            b0.via_node_clones@.contains_key(cur),
            b0.via_node_clones@[cur]@.contains_key(via),
            b0.via_node_clones@[cur]@[via] == clone,
            edge_map(b0.temp_edges@[cur as int]@).contains_key(plain),
            edge_map(b1.temp_edges@[cur as int]@) == edge_map(b0.temp_edges@[cur as int]@).remove(plain).insert(
                clone,
                edge_map(b0.temp_edges@[cur as int]@)[plain],
            ),
            forall|x: int| 0 <= x < b0.temp_edges@.len() && x != cur ==> #[trigger] b1.temp_edges@[x] == b0.temp_edges@[x],
        ensures
            b1.edges_priced_by_ways(cost),
    {
        assert(b0.nodes@[clone as int].external_id == via);
        assert(b0.nodes@[plain as int].external_id == via);
        assert forall|p: Profile, i: int, t: u32|
            #![trigger names_profile(b1.strings(), b1.profile, p), edge_map(b1.temp_edges@[i]@).contains_key(t)]
            names_profile(b1.strings(), b1.profile, p) && 0 <= i < b1.temp_edges@.len() && edge_map(
                b1.temp_edges@[i]@,
            ).contains_key(t) implies edge_priced_by_way(
                b1.raw_nodes@,
                b1.raw_ways@,
                p,
                cost,
                b1.nodes@[i].external_id,
                b1.nodes@[t as int].external_id,
                edge_map(b1.temp_edges@[i]@)[t],
            ) by {
            assert(names_profile(b0.strings(), b0.profile, p));
            if i == cur {
                if t == clone {
                    assert(edge_map(b0.temp_edges@[i]@).contains_key(plain));
                } else {
                    assert(edge_map(b0.temp_edges@[i]@).contains_key(t));
                }
            } else {
                assert(b1.temp_edges@[i] == b0.temp_edges@[i]);
                assert(edge_map(b0.temp_edges@[i]@).contains_key(t));
            }
        }
    }

    proof fn lemma_follows_reroute(b0: &Self, b1: &Self, cur: u32, plain: u32, clone: u32, via: i64)
        requires
            b0.follows_ways(),
            b0.nodes_ok(),
            b1.nodes == b0.nodes,
            b1.processed_ways == b0.processed_ways,
            b1.way_node_map == b0.way_node_map,
            b1.via_node_clones == b0.via_node_clones,
            b1.temp_edges@.len() == b0.temp_edges@.len(),
            cur < b0.temp_edges@.len(),
            b0.node_map@.contains_key(via),
            b0.node_map@[via] == plain,
            b0.via_node_clones@.contains_key(cur),
            b0.via_node_clones@[cur]@.contains_key(via),
            b0.via_node_clones@[cur]@[via] == clone,
            edge_map(b0.temp_edges@[cur as int]@).contains_key(plain),
            edge_map(b1.temp_edges@[cur as int]@) == edge_map(b0.temp_edges@[cur as int]@).remove(plain).insert(
                clone,
                edge_map(b0.temp_edges@[cur as int]@)[plain],
            ),
            forall|x: int| 0 <= x < b0.temp_edges@.len() && x != cur ==> #[trigger] b1.temp_edges@[x] == b0.temp_edges@[x],
        ensures
            b1.follows_ways(),
    {
        assert(b1.way_lists() == b0.way_lists());
        assert(b0.nodes@[clone as int].external_id == via);
        assert(b0.nodes@[plain as int].external_id == via);
        assert forall|i: int, t: u32| 0 <= i < b1.temp_edges@.len() && #[trigger] edge_map(b1.temp_edges@[i]@).contains_key(t)
            implies neighbours_on(b1.way_lists(), b1.nodes@[i].external_id, b1.nodes@[t as int].external_id) by {
            if i == cur {
                if t == clone {
                    assert(edge_map(b0.temp_edges@[i]@).contains_key(plain));
                } else {
                    assert(edge_map(b0.temp_edges@[i]@).contains_key(t));
                }
            } else {
                assert(b1.temp_edges@[i] == b0.temp_edges@[i]);
            }
        }
    }
}

proof fn lemma_chain(clones: Map<u32, HashMap<i64, u32>>, start: u32, path: Seq<i64>, chain: Seq<u32>, k: int)
    requires
        0 <= k < chain.len(),
        chain[0] == start,
        forall|x: int| 1 <= x <= k ==> clones.contains_key(#[trigger] chain[x - 1]) && clones[chain[x - 1]]@.contains_key(path[x])
            && clones[chain[x - 1]]@[path[x]] == chain[x],
    ensures
        chain_node(clones, start, path, k) == chain[k],
    decreases k,
{
    if k > 0 {
        lemma_chain(clones, start, path, chain, k - 1);
        assert(clones[chain[k - 1]]@[path[k]] == chain[k]);
    }
}

/// The last node of a restriction path lies on its last member.
proof fn lemma_flatten_last(mn: Seq<Seq<i64>>)
    requires
        !flatten_fails(mn),
        flatten_path(mn).len() >= 2,
    ensures
        mn.len() >= 1,
        mn.last().contains(flatten_path(mn).last()),
{
    if is_via_node_form(mn) {
        let via = mn[1][0];
        lemma_first_index_exists(mn[2], via);
        let idx = first_index(mn[2], via);
        assert(flatten_path(mn).last() == mn[2][idx + 1]);
    } else if mn.len() <= 1 {
    } else {
        let l = mn.len() as int;
        assert(ways_connect(mn[l - 2], mn[(l - 2) + 1]));
        lemma_connection(mn[l - 2], mn[l - 1]);
        let b = connection_b(mn[l - 2], mn[l - 1]);
        assert(flatten_path(mn).last() == mn[l - 1][b + 1]);
    }
}

impl<'a> GraphBuilder<'a> {
    /// The final turn of a restriction path is settled: for a prohibitory
    /// restriction, the last clone along the path has no edge to the `to`
    /// node; for a mandatory one, it has no edge anywhere else.
    pub closed spec fn turn_settled(&self, path: Seq<i64>, kind: TurnRestriction) -> bool {
        path.len() >= 2 ==> {
            let m = self.node_map@;
            let last = chain_node(self.via_node_clones@, m[path[0]], path, path.len() - 2);
            let to = m[path.last()];
            let out = edge_map(self.temp_edges@[last as int]@);
            &&& m.contains_key(path[0])
            &&& m.contains_key(path.last())
            &&& chain_recorded(self.via_node_clones@, m[path[0]], path)
            &&& last < self.nodes@.len()
            &&& kind == TurnRestriction::Prohibitory ==> !out.contains_key(to)
            &&& kind == TurnRestriction::Mandatory ==> forall|t: u32| #[trigger] out.contains_key(t) ==> t == to
        }
    }

    /// A removed turn stays removed while edges gain only clones and clones
    /// are kept.
    proof fn lemma_prohibition_kept(b0: Self, b1: Self, path: Seq<i64>)
        requires
            b0.turn_settled(path, TurnRestriction::Prohibitory),
            clones_kept(b0.via_node_clones@, b1.via_node_clones@),
            b1.node_map == b0.node_map,
            b1.nodes@.len() >= b0.nodes@.len(),
            b1.temp_edges@.len() >= b0.temp_edges@.len(),
            Self::gains_only_clones(b0, b1),
        ensures
            b1.turn_settled(path, TurnRestriction::Prohibitory),
    {
        if path.len() >= 2 {
            let m = b0.node_map@;
            let c0 = b0.via_node_clones@;
            let c1 = b1.via_node_clones@;
            let start = m[path[0]];
            assert forall|x: int| 0 <= x <= path.len() - 2 implies #[trigger] chain_node(c1, start, path, x) == chain_node(c0, start, path, x) by {
                lemma_chain_kept(c0, c1, start, path, x);
            }
            assert forall|x: int| 1 <= x <= path.len() - 2 implies c1.contains_key(#[trigger] chain_node(c1, start, path, x - 1))
                && c1[chain_node(c1, start, path, x - 1)]@.contains_key(path[x]) by {
                assert(chain_node(c1, start, path, x - 1) == chain_node(c0, start, path, x - 1));
                assert(c0.contains_key(chain_node(c0, start, path, x - 1)));
            }
            let last = chain_node(c0, start, path, path.len() - 2);
            assert(chain_node(c1, start, path, path.len() - 2) == last);
            let to = m[path.last()];
            if edge_map(b1.temp_edges@[last as int]@).contains_key(to) {
                assert(not_plain(b0.node_map@, to));
                assert(m.contains_key(path.last()));
            }
        }
    }

    /// Applies the turn restriction of raw relation `r`, when it states one
    /// for the profile.
    fn add_relation<C: EdgeCost>(&mut self, r: usize, Ghost(cost): Ghost<C>) -> (res: Result<(), GraphError>)
        requires
            old(self).edges_priced(cost),
            old(self).wf(),
            old(self).follows_ways(),
            old(self).clones_apart(),
            r < old(self).raw_relations@.len(),
        ensures
            final(self).edges_priced(cost),
            final(self).wf(),
            final(self).follows_ways(),
            final(self).clones_apart(),
            Self::gains_only_clones(*old(self), *final(self)),
            final(self).node_map == old(self).node_map,
            final(self).way_node_map == old(self).way_node_map,
            final(self).processed_ways == old(self).processed_ways,
            final(self).raw_ways == old(self).raw_ways,
            final(self).raw_nodes == old(self).raw_nodes,
            final(self).raw_relations == old(self).raw_relations,
            final(self).node_index == old(self).node_index,
            final(self).profile == old(self).profile,
            final(self).nodes@.len() >= old(self).nodes@.len(),
            forall|i: int| 0 <= i < old(self).nodes@.len() ==> #[trigger] final(self).nodes@[i] == old(self).nodes@[i],
            clones_kept(old(self).via_node_clones@, final(self).via_node_clones@),
            old(self).strings().len() <= final(self).strings().len(),
            forall|i: int| 0 <= i < old(self).strings().len() ==> #[trigger] final(self).strings()[i] == old(self).strings()[i],
            res matches Err(e) ==> e is InvalidOsmData,
            ({
                let rel = final(self).raw_relations@[r as int];
                let st = final(self).strings();
                let kind = restriction_kind(st, final(self).profile.access_tags@, final(self).profile.except_tags@, interned_tags(st, rel.tags@));
                &&& kind == TurnRestriction::Inapplicable ==> res is Ok && final(self).temp_edges == old(self).temp_edges
                    && final(self).nodes == old(self).nodes
                &&& res is Err ==> forall|mn: Seq<Seq<i64>>|
                    #[trigger] reads_members(final(self).node_index@, final(self).way_node_map@, rel.members@, mn)
                        && !flatten_fails(mn) && flatten_path(mn).len() == 3 && old(self).node_map@.contains_key(flatten_path(mn)[0])
                        && old(self).node_map@.contains_key(flatten_path(mn)[1]) ==> old(self).blocked_at_first_step(flatten_path(mn))
                &&& (res is Ok && kind != TurnRestriction::Inapplicable) ==> {
                    &&& ordered_members(rel.members@) is Some
                    &&& exists|mn: Seq<Seq<i64>>| #![trigger flatten_fails(mn)] {
                        let order = ordered_members(rel.members@)->0;
                        &&& mn.len() == order.len()
                        &&& forall|k: int| 0 <= k < order.len() ==> member_nodes(final(self).node_index@, final(self).way_node_map@,
                            rel.members@[#[trigger] order[k]]) == Some(mn[k])
                        &&& !flatten_fails(mn)
                        &&& final(self).turn_settled(flatten_path(mn), kind)
                    }
                }
            }),
    {
        let rels: &Vec<Relation> = self.raw_relations;
        let rel = &rels[r];
        let ghost u = self.universe@;
        let tags = intern_tags(&mut self.interner, &rel.tags, Ghost(u));
        proof {
            Self::lemma_interner_grows(old(self), self);
            Self::lemma_priced_grows(old(self), self, cost);
        }
        let restriction_type = self.get_restriction_type(&tags);
        if restriction_type == TurnRestriction::Inapplicable {
            return Ok(());
        }
        let order = match get_ordered_restriction_members(rel) {
            Ok(o) => o,
            Err(e) => {
                return Err(e);
            },
        };
        let ghost ord = ordered_members(rel.members@)->0;
        proof {
            lemma_roles_in(rel.members@);
        }
        let ghost st1 = self.strings();
        assert(tags@ == interned_tags(st1, rel.tags@));
        let mut member_nodes_list: Vec<Vec<i64>> = Vec::new();
        let mut k: usize = 0;
        while k < order.len()
            invariant
                self.wf(),
                self.node_map == old(self).node_map,
                self.way_node_map == old(self).way_node_map,
                self.processed_ways == old(self).processed_ways,
                self.raw_ways == old(self).raw_ways,
                self.raw_nodes == old(self).raw_nodes,
                self.raw_relations == old(self).raw_relations,
                self.node_index == old(self).node_index,
                self.profile == old(self).profile,
                self.nodes == old(self).nodes,
                self.temp_edges == old(self).temp_edges,
                self.via_node_clones == old(self).via_node_clones,
                old(self).strings().len() <= self.strings().len(),
                forall|i: int| 0 <= i < old(self).strings().len() ==> #[trigger] self.strings()[i] == old(self).strings()[i],
                self.strings() == st1,
                self.follows_ways(),
                r < self.raw_relations@.len(),
                *rel == self.raw_relations@[r as int],
                restriction_type != TurnRestriction::Inapplicable,
                restriction_type == restriction_kind(st1, self.profile.access_tags@, self.profile.except_tags@, interned_tags(st1, rel.tags@)),
                k <= order@.len(),
                order@.len() == ord.len(),
                ord == ordered_members(rel.members@)->0,
                forall|x: int| 0 <= x < ord.len() ==> #[trigger] order@[x] as int == ord[x],
                forall|x: int| 0 <= x < ord.len() ==> 0 <= #[trigger] ord[x] < rel.members@.len(),
                member_nodes_list@.len() == k,
                self.clones_apart(),
                self.edges_priced(cost),
                forall|x: int| 0 <= x < k ==> member_nodes(self.node_index@, self.way_node_map@, rel.members@[#[trigger] ord[x]])
                    == Some(member_nodes_list@[x]@),
            decreases order@.len() - k,
        {
            let idx = order[k];
            match self.restriction_member_to_nodes(&rel.members[idx]) {
                Ok(v) => {
                    member_nodes_list.push(v);
                },
                Err(e) => {
                    proof {
                        assert forall|mn2: Seq<Seq<i64>>| #[trigger] reads_members(self.node_index@, self.way_node_map@, rel.members@, mn2)
                            implies false by {
                            assert(member_nodes(self.node_index@, self.way_node_map@, rel.members@[ord[k as int]]) == Some(mn2[k as int]));
                        }
                    }
                    return Err(e);
                },
            }
            k = k + 1;
        }
        let ghost mn = member_nodes_list@.map_values(|v: Vec<i64>| v@);
        proof {
            assert forall|mn2: Seq<Seq<i64>>| #[trigger] reads_members(self.node_index@, self.way_node_map@, rel.members@, mn2)
                implies mn2 == mn by {
                assert forall|x: int| 0 <= x < mn2.len() implies mn2[x] == mn[x] by {
                    assert(member_nodes(self.node_index@, self.way_node_map@, rel.members@[ord[x]]) == Some(mn2[x]));
                }
                assert(mn2 =~= mn);
            }
        }
        let path = match flatten_restriction_nodes(member_nodes_list) {
            Ok(p) => p,
            Err(e) => {
                return Err(e);
            },
        };
        proof {
            reveal_strlit("to");
            reveal_strlit("via");
            reveal_strlit("way");
            reveal_strlit("node");
            if path@.len() >= 2 {
                lemma_flatten_last(mn);
                let l = ord.len() - 1;
                let to_member = rel.members@[ord[l]];
                assert(ord[l] == last_with_role(rel.members@, "to"@)->0);
                assert(to_member.role@ == "to"@);
                assert("to"@.len() == 2 && "via"@.len() == 3);
                assert("to"@ != "via"@);
                assert(mn.last() == member_nodes_list@[l]@);
                let w = to_member.ref_id;
                assert(self.way_node_map@.contains_key(w));
                let j = choose|j: int| 0 <= j < mn.last().len() && mn.last()[j] == path@.last();
                assert(self.way_node_map@[w]@[j] == path@.last());
            }
        }
        let res = self.apply_restriction::<C>(&path, restriction_type, Ghost(cost));
        proof {
            if res is Ok {
                assert(member_nodes_list@.len() == ord.len());
                assert(forall|x: int| 0 <= x < ord.len() ==> member_nodes(self.node_index@, self.way_node_map@,
                    rel.members@[#[trigger] ord[x]]) == Some(mn[x]));
                assert(self.turn_settled(flatten_path(mn), restriction_type));
                assert(!flatten_fails(mn));
            }
        }
        res
    }
}

impl<'a> GraphBuilder<'a> {
    /// A builder that has done no work yet.
    /// Every recorded way is a raw way with its references to raw nodes that
    /// exist.
    closed spec fn ways_from_raw(&self) -> bool {
        forall|p: int| 0 <= p < self.processed_ways@.len() ==> recorded_from(
            self.raw_ways@,
            self.node_index@,
            (#[trigger] self.processed_ways@[p]).0,
            self.processed_ways@[p].1@,
        )
    }

    /// The profile with its strings replaced by their numbers.
    pub closed spec fn numbered_profile(&self) -> InternedProfile {
        self.profile
    }

    /// The raw nodes the graph is built from.
    pub closed spec fn input_nodes(&self) -> Seq<Node> {
        self.raw_nodes@
    }

    /// The raw ways the graph is built from.
    pub closed spec fn input_ways(&self) -> Seq<Way> {
        self.raw_ways@
    }

    /// The raw relations the graph is built from.
    pub closed spec fn input_relations(&self) -> Seq<Relation> {
        self.raw_relations@
    }

    /// `g` is the compressed form of `b`, which applied the relations of
    /// `self` one after another: each relation that states a turn restriction
    /// for the profile, and could be read and applied, had the final turn of
    /// its path settled (see `turn_settled`); a relation read into a path
    /// through one via node failed only where the first node had no edge to
    /// the via node or no clone could be numbered; no step gave a node an
    /// edge to any node but a clone; and every turn removed along the way is
    /// still removed in `b`, and so in `g`.
    pub closed spec fn wires_restrictions(&self, b: Self, g: ProcessedGraph) -> bool {
        &&& g.nodes@ == b.nodes@
        &&& forall|i: int| 0 <= i < g.nodes@.len() ==> #[trigger] g.out_edges(i as u32) == b.temp_edges@[i]@
        &&& exists|states: Seq<Self>, oks: Seq<bool>| #[trigger] Self::relations_chain(states, oks, states[0], b)
            && states[0].raw_relations == self.raw_relations
    }

    pub closed spec fn fresh(&self) -> bool {
        &&& self.wf()
        &&& self.phase1_ok()
        &&& self.follows_ways()
        &&& self.nodes@.len() == 0
        &&& self.processed_ways@.len() == 0
        &&& self.raw_nodes@.len() < u32::MAX
    }

    /// The node lists of the recorded ways.
    spec fn way_lists(&self) -> Seq<Seq<i64>> {
        self.processed_ways@.map_values(|w: (i64, Vec<i64>, Vec<(u32, u32)>)| w.1@)
    }

    /// Every edge follows a recorded way, the node list kept for each way id
    /// is that of a recorded way, and every clone stands for the OSM node it
    /// was made for.
    closed spec fn follows_ways(&self) -> bool {
        &&& edges_follow(self.way_lists(), self.nodes@, self.temp_edges@)
        &&& forall|w: i64| #[trigger] self.way_node_map@.contains_key(w) ==> exists|p: int|
            0 <= p < self.processed_ways@.len() && self.processed_ways@[p].1@ == self.way_node_map@[w]@
                && self.processed_ways@[p].0 == w
        &&& forall|f: u32, t: i64| self.via_node_clones@.contains_key(f) && #[trigger] self.via_node_clones@[f]@.contains_key(t)
            ==> self.nodes@[self.via_node_clones@[f]@[t] as int].external_id == t
    }

    /// The routing graph in compressed form: the nodes, the recorded ways by
    /// internal node numbers, the edges of node `i` in target order at
    /// `offsets[i] .. offsets[i + 1]`, the numbered strings, and the map from
    /// OSM ids to nodes rebuilt from the nodes.
    fn finalize_graph(self) -> (g: ProcessedGraph)
        requires
            self.wf(),
        ensures
            g.wf(),
            g.nodes@ == self.nodes@,
            forall|i: int| 0 <= i < g.nodes@.len() ==> #[trigger] g.out_edges(i as u32) == self.temp_edges@[i]@,
            g.ways@.len() == self.processed_ways@.len(),
            forall|p: int| 0 <= p < g.ways@.len() ==> {
                &&& (#[trigger] g.ways@[p]).osm_id == self.processed_ways@[p].0
                &&& g.ways@[p].tags@ == self.processed_ways@[p].2@
                &&& g.ways@[p].node_ids@.len() == self.processed_ways@[p].1@.len()
                &&& forall|j: int| 0 <= j < g.ways@[p].node_ids@.len() ==> #[trigger] g.ways@[p].node_ids@[j]
                    == self.node_map@[self.processed_ways@[p].1@[j]]
            },
            g.string_interner@.len() == self.strings().len(),
            forall|i: int| 0 <= i < g.string_interner@.len() ==> (#[trigger] g.string_interner@[i])@ == self.strings()[i],
    {
        let n = self.nodes.len();
        let mut ways: Vec<WayInfo> = Vec::new();
        let mut p: usize = 0;
        while p < self.processed_ways.len()
            invariant
                self.wf(),
                p <= self.processed_ways@.len(),
                ways@.len() == p,
                forall|q: int| 0 <= q < p ==> {
                    &&& (#[trigger] ways@[q]).osm_id == self.processed_ways@[q].0
                    &&& ways@[q].tags@ == self.processed_ways@[q].2@
                    &&& ways@[q].node_ids@.len() == self.processed_ways@[q].1@.len()
                    &&& forall|j: int| 0 <= j < ways@[q].node_ids@.len() ==> #[trigger] ways@[q].node_ids@[j]
                        == self.node_map@[self.processed_ways@[q].1@[j]]
                },
            decreases self.processed_ways@.len() - p,
        {
            let entry = &self.processed_ways[p];
            let refs = &entry.1;
            let mut ids: Vec<u32> = Vec::new();
            let mut j: usize = 0;
            while j < refs.len()
                invariant
                    self.wf(),
                    p < self.processed_ways@.len(),
                    *refs == self.processed_ways@[p as int].1,
                    j <= refs@.len(),
                    ids@.len() == j,
                    forall|x: int| 0 <= x < j ==> #[trigger] ids@[x] == self.node_map@[refs@[x]],
                decreases refs@.len() - j,
            {
                assert(self.node_map@.contains_key(self.processed_ways@[p as int].1@[j as int]));
                let id = match self.node_map.get(&refs[j]) {
                    Some(i) => *i,
                    None => 0,
                };
                ids.push(id);
                j = j + 1;
            }
            ways.push(WayInfo { osm_id: entry.0, node_ids: ids, tags: copy_vec(&entry.2) });
            p = p + 1;
        }
        let mut offsets: Vec<usize> = Vec::new();
        let mut edges: Vec<(u32, u16)> = Vec::new();
        let mut i: usize = 0;
        while i < n
            invariant
                self.wf(),
                n == self.nodes@.len(),
                i <= n,
                offsets@.len() == i,
                i > 0 ==> offsets@[0] == 0,
                forall|x: int| 0 <= x < i ==> #[trigger] offsets@[x] + self.temp_edges@[x]@.len() <= edges@.len(),
                forall|x: int| 0 <= x && x + 1 < i ==> #[trigger] offsets@[x + 1] == offsets@[x] + self.temp_edges@[x]@.len(),
                i > 0 ==> edges@.len() == offsets@[i - 1] + self.temp_edges@[i - 1]@.len(),
                i == 0 ==> edges@.len() == 0,
                forall|x: int| 0 <= x < i ==> edges@.subrange(offsets@[x] as int, offsets@[x] + self.temp_edges@[x]@.len())
                    == #[trigger] self.temp_edges@[x]@,
                forall|e: int| 0 <= e < edges@.len() ==> (#[trigger] edges@[e]).0 < n,
            decreases n - i,
        {
            let start = edges.len();
            let ghost before = edges@;
            let ghost off0 = offsets@;
            let list = &self.temp_edges[i];
            let mut k: usize = 0;
            while k < list.len()
                invariant
                    self.wf(),
                    n == self.nodes@.len(),
                    i < n,
                    *list == self.temp_edges@[i as int],
                    k <= list@.len(),
                    edges@ == before + list@.subrange(0, k as int),
                    offsets@ == off0,
                    targets_below(list@, n as nat),
                    forall|e: int| 0 <= e < before.len() ==> (#[trigger] before[e]).0 < n,
                decreases list@.len() - k,
            {
                edges.push(list[k]);
                proof {
                    assert(list@.subrange(0, k + 1) == list@.subrange(0, k as int).push(list@[k as int]));
                }
                k = k + 1;
            }
            offsets.push(start);
            proof {
                assert(list@.subrange(0, list@.len() as int) == list@);
                assert(offsets@[i as int] == start);
                assert forall|x: int| 0 <= x < i + 1 implies #[trigger] offsets@[x] + self.temp_edges@[x]@.len() <= edges@.len() by {
                    if x < i {
                        assert(offsets@[x] == off0[x]);
                    }
                }
                assert forall|x: int| 0 <= x && x + 1 < i + 1 implies #[trigger] offsets@[x + 1] == offsets@[x] + self.temp_edges@[x]@.len() by {
                    if x + 1 < i {
                        assert(offsets@[x + 1] == off0[x + 1]);
                        assert(offsets@[x] == off0[x]);
                    } else {
                        assert(offsets@[x] == off0[x]);
                    }
                }
                assert forall|e: int| 0 <= e < edges@.len() implies (#[trigger] edges@[e]).0 < n by {
                    if e >= before.len() {
                        assert(edges@[e] == list@[e - before.len()]);
                    }
                }
                assert forall|x: int| 0 <= x < i + 1 implies edges@.subrange(offsets@[x] as int, offsets@[x] + self.temp_edges@[x]@.len())
                    == #[trigger] self.temp_edges@[x]@ by {
                    if x < i {
                        assert(offsets@[x] == off0[x]);
                        assert(off0[x] + self.temp_edges@[x]@.len() <= before.len());
                        assert(edges@.subrange(offsets@[x] as int, offsets@[x] + self.temp_edges@[x]@.len())
                            =~= before.subrange(offsets@[x] as int, offsets@[x] + self.temp_edges@[x]@.len()));
                    } else {
                        assert(edges@.subrange(start as int, start + list@.len()) == list@);
                    }
                }
            }
            i = i + 1;
        }
        let total = edges.len();
        offsets.push(total);
        let mut graph = ProcessedGraph::new();
        graph.ways = ways;
        graph.nodes = self.nodes;
        graph.node_id_map = self.node_map;
        graph.string_interner = self.interner.into_strings();
        graph.offsets = offsets;
        graph.edges = edges;
        proof {
            assert forall|x: int| 0 <= x < n implies #[trigger] graph.offsets@[x] <= graph.offsets@[x + 1] by {
                if x + 1 < n {
                    assert(graph.offsets@[x + 1] == graph.offsets@[x] + self.temp_edges@[x]@.len());
                }
            }
        }
        graph.build_indices();
        proof {
            assert forall|x: int| 0 <= x < graph.nodes@.len() implies #[trigger] graph.out_edges(x as u32) == self.temp_edges@[x]@ by {
                if x + 1 < n {
                    assert(graph.offsets@[x + 1] == graph.offsets@[x] + self.temp_edges@[x]@.len());
                }
            }
        }
        graph
    }

    /// `b1` is `b0` after the edges of raw way `w` were added: nothing but
    /// the edges and the numbered strings changes; where the way is usable
    /// and has a kept node list, the edges of its steps in the directions it
    /// may be travelled are added and no other edge; else the edges stay.
    spec fn way_added(b0: Self, b1: Self, w: int) -> bool {
        let st = b1.strings();
        let way = b1.raw_ways@[w];
        let tags = interned_tags(st, way.tags@);
        let pen = way_penalty(
            st,
            b1.profile.key,
            b1.profile.penalties@,
            b1.profile.default_penalty,
            b1.profile.access_tags@,
            tags,
        );
        let dir = way_direction(st, b1.profile.oneway_tags@, tags);
        let m = b0.node_map@;
        let has_list = b0.way_node_map@.contains_key(way.id);
        let list = b0.way_node_map@[way.id]@;
        &&& b1.wf()
        &&& b1.nodes == b0.nodes
        &&& b1.node_map == b0.node_map
        &&& b1.way_node_map == b0.way_node_map
        &&& b1.processed_ways == b0.processed_ways
        &&& b1.via_node_clones == b0.via_node_clones
        &&& b1.raw_ways == b0.raw_ways
        &&& b1.raw_nodes == b0.raw_nodes
        &&& b1.raw_relations == b0.raw_relations
        &&& b1.node_index == b0.node_index
        &&& b0.strings().len() <= b1.strings().len()
        &&& forall|i: int| 0 <= i < b0.strings().len() ==> #[trigger] b1.strings()[i] == b0.strings()[i]
        &&& b1.temp_edges@ == b0.temp_edges@ || (pen is Some && (dir.0 || dir.1) && has_list && (pen matches Some(p)
            && penalty_usable(p)) && edges_grow_by(b0.temp_edges@, b1.temp_edges@, m, list, dir) && steps_present(
            m,
            list,
            dir,
            b1.temp_edges@,
            list.len() as int,
        ))
        &&& (pen matches Some(p) && penalty_usable(p) && (dir.0 || dir.1) && has_list) ==> steps_present(
            m,
            list,
            dir,
            b1.temp_edges@,
            list.len() as int,
        )
    }

    /// `states` runs from `b0` to `b1`, adding the edges of each raw way in
    /// turn.
    spec fn ways_chain(states: Seq<Self>, b0: Self, b1: Self) -> bool {
        &&& states.len() == b0.raw_ways@.len() + 1
        &&& states[0] == b0
        &&& states.last() == b1
        &&& forall|k: int| 0 <= k < b0.raw_ways@.len() ==> #[trigger] Self::way_added(states[k], states[k + 1], k)
    }

    /// Adds the edges of every raw way, one way after the other.
    fn add_all_ways<C: EdgeCost>(&mut self, cost: &C)
        requires
            old(self).wf(),
            old(self).follows_ways(),
            old(self).ways_from_raw(),
            old(self).edges_priced(*cost),
        ensures
            final(self).wf(),
            final(self).edges_priced(*cost),
            final(self).follows_ways(),
            final(self).processed_ways == old(self).processed_ways,
            final(self).node_map == old(self).node_map,
            final(self).raw_ways == old(self).raw_ways,
            final(self).raw_nodes == old(self).raw_nodes,
            final(self).node_index == old(self).node_index,
            exists|states: Seq<Self>| #[trigger] Self::ways_chain(states, *old(self), *final(self)),
            extends(old(self).strings(), final(self).strings()),
            final(self).profile == old(self).profile,
            final(self).via_node_clones == old(self).via_node_clones,
            final(self).raw_relations == old(self).raw_relations,
    {
        let ghost mut states: Seq<Self> = seq![*self];
        let mut w: usize = 0;
        while w < self.raw_ways.len()
            invariant
                self.wf(),
                self.follows_ways(),
                self.ways_from_raw(),
                self.via_node_clones == old(self).via_node_clones,
                self.raw_relations == old(self).raw_relations,
                self.edges_priced(*cost),
                w <= self.raw_ways@.len(),
                self.processed_ways == old(self).processed_ways,
                self.node_map == old(self).node_map,
                self.raw_ways == old(self).raw_ways,
                self.raw_nodes == old(self).raw_nodes,
                self.node_index == old(self).node_index,
                states.len() == w + 1,
                states[0] == *old(self),
                states.last() == *self,
                forall|k: int| 0 <= k < w ==> #[trigger] Self::way_added(states[k], states[k + 1], k),
                extends(old(self).strings(), self.strings()),
                self.profile == old(self).profile,
            decreases self.raw_ways@.len() - w,
        {
            let ghost b0 = *self;
            self.add_way(w, cost);
            proof {
                let st = self.strings();
                let way = self.raw_ways@[w as int];
                let dir = way_direction(st, self.profile.oneway_tags@, interned_tags(st, way.tags@));
                Self::lemma_follows_add_way(&b0, self, way.id, dir);
                assert(Self::way_added(b0, *self, w as int));
                let prev = states;
                states = states.push(*self);
                assert forall|k: int| 0 <= k < w + 1 implies #[trigger] Self::way_added(states[k], states[k + 1], k) by {
                    if k < w {
                        assert(states[k] == prev[k] && states[k + 1] == prev[k + 1]);
                    } else {
                        assert(states[k] == b0);
                    }
                }
            }
            w = w + 1;
        }
        assert(Self::ways_chain(states, *old(self), *self));
    }

    /// `b1` is `b0` after raw relation `r` was applied, with outcome `ok`:
    /// what changes is the edges (which gain no target but clones), the
    /// nodes (by clones added after the others), the clones and the numbered
    /// strings; a relation that states
    /// no restriction for the profile changes no edge and no node; one
    /// applied without failure has its members read, its path flattened and
    /// its final turn settled; one that failed, though its members were read
    /// and flattened into a path through one via node, was blocked at its
    /// first step.
    spec fn relation_applied(b0: Self, b1: Self, r: int, ok: bool) -> bool {
        let rel = b1.raw_relations@[r];
        let st = b1.strings();
        let kind = restriction_kind(st, b1.profile.access_tags@, b1.profile.except_tags@, interned_tags(st, rel.tags@));
        &&& b1.wf()
        &&& b1.follows_ways()
        &&& b1.node_map == b0.node_map
        &&& b1.way_node_map == b0.way_node_map
        &&& b1.processed_ways == b0.processed_ways
        &&& b1.raw_ways == b0.raw_ways
        &&& b1.raw_nodes == b0.raw_nodes
        &&& b1.raw_relations == b0.raw_relations
        &&& b1.node_index == b0.node_index
        &&& b1.profile == b0.profile
        &&& b1.nodes@.len() >= b0.nodes@.len()
        &&& forall|i: int| 0 <= i < b0.nodes@.len() ==> #[trigger] b1.nodes@[i] == b0.nodes@[i]
        &&& clones_kept(b0.via_node_clones@, b1.via_node_clones@)
        &&& Self::gains_only_clones(b0, b1)
        &&& b0.strings().len() <= b1.strings().len()
        &&& forall|i: int| 0 <= i < b0.strings().len() ==> #[trigger] b1.strings()[i] == b0.strings()[i]
        &&& kind == TurnRestriction::Inapplicable ==> ok && b1.temp_edges == b0.temp_edges && b1.nodes == b0.nodes
        &&& !ok ==> forall|mn: Seq<Seq<i64>>|
            #[trigger] reads_members(b1.node_index@, b1.way_node_map@, rel.members@, mn) && !flatten_fails(mn)
                && flatten_path(mn).len() == 3 && b0.node_map@.contains_key(flatten_path(mn)[0])
                && b0.node_map@.contains_key(flatten_path(mn)[1]) ==> b0.blocked_at_first_step(flatten_path(mn))
        &&& (ok && kind != TurnRestriction::Inapplicable) ==> {
            &&& ordered_members(rel.members@) is Some
            &&& exists|mn: Seq<Seq<i64>>| #![trigger flatten_fails(mn)] {
                let order = ordered_members(rel.members@)->0;
                &&& mn.len() == order.len()
                &&& forall|k: int| 0 <= k < order.len() ==> member_nodes(b1.node_index@, b1.way_node_map@,
                    rel.members@[#[trigger] order[k]]) == Some(mn[k])
                &&& !flatten_fails(mn)
                &&& b1.turn_settled(flatten_path(mn), kind)
            }
        }
    }

    /// `states` runs from `b0` to `b1`, applying each raw relation in turn
    /// with the outcomes `oks`.
    spec fn relations_chain(states: Seq<Self>, oks: Seq<bool>, b0: Self, b1: Self) -> bool {
        &&& states.len() == b0.raw_relations@.len() + 1
        &&& oks.len() == b0.raw_relations@.len()
        &&& states[0] == b0
        &&& states.last() == b1
        &&& forall|k: int| 0 <= k < b0.raw_relations@.len() ==> #[trigger] Self::relation_applied(
            states[k],
            states[k + 1],
            k,
            oks[k],
        )
        &&& forall|j: int, p: Seq<i64>| 0 <= j < states.len() && #[trigger] states[j].turn_settled(p, TurnRestriction::Prohibitory)
            ==> b1.turn_settled(p, TurnRestriction::Prohibitory)
    }

    /// Applies every raw relation in turn; a restriction that cannot be read
    /// is skipped.
    fn add_all_relations<C: EdgeCost>(&mut self, Ghost(cost): Ghost<C>)
        requires
            old(self).edges_priced(cost),
            old(self).wf(),
            old(self).follows_ways(),
            old(self).clones_apart(),
        ensures
            final(self).edges_priced(cost),
            final(self).wf(),
            final(self).follows_ways(),
            final(self).processed_ways == old(self).processed_ways,
            final(self).node_map == old(self).node_map,
            final(self).raw_ways == old(self).raw_ways,
            final(self).raw_nodes == old(self).raw_nodes,
            final(self).node_index == old(self).node_index,
            exists|states: Seq<Self>, oks: Seq<bool>| #[trigger] Self::relations_chain(states, oks, *old(self), *final(self)),
            extends(old(self).strings(), final(self).strings()),
            final(self).profile == old(self).profile,
    {
        let ghost mut states: Seq<Self> = seq![*self];
        let ghost mut oks: Seq<bool> = Seq::empty();
        let mut r: usize = 0;
        while r < self.raw_relations.len()
            invariant
                self.wf(),
                self.follows_ways(),
                self.clones_apart(),
                self.edges_priced(cost),
                r <= self.raw_relations@.len(),
                self.processed_ways == old(self).processed_ways,
                self.node_map == old(self).node_map,
                self.raw_ways == old(self).raw_ways,
                self.raw_nodes == old(self).raw_nodes,
                self.raw_relations == old(self).raw_relations,
                self.node_index == old(self).node_index,
                states.len() == r + 1,
                oks.len() == r,
                states[0] == *old(self),
                states.last() == *self,
                forall|k: int| 0 <= k < r ==> #[trigger] Self::relation_applied(states[k], states[k + 1], k, oks[k]),
                forall|j: int, p: Seq<i64>| 0 <= j < states.len() && #[trigger] states[j].turn_settled(p, TurnRestriction::Prohibitory)
                    ==> self.turn_settled(p, TurnRestriction::Prohibitory),
                extends(old(self).strings(), self.strings()),
                self.profile == old(self).profile,
            decreases self.raw_relations@.len() - r,
        {
            let ghost b0 = *self;
            let res = self.add_relation::<C>(r, Ghost(cost));
            proof {
                assert(Self::relation_applied(b0, *self, r as int, res is Ok));
                let prev = states;
                let prev_oks = oks;
                states = states.push(*self);
                oks = oks.push(res is Ok);
                assert forall|k: int| 0 <= k < r + 1 implies #[trigger] Self::relation_applied(
                    states[k],
                    states[k + 1],
                    k,
                    oks[k],
                ) by {
                    if k < r {
                        assert(states[k] == prev[k] && states[k + 1] == prev[k + 1] && oks[k] == prev_oks[k]);
                    } else {
                        assert(states[k] == b0);
                    }
                }
                assert forall|j: int, p: Seq<i64>| 0 <= j < states.len() && #[trigger] states[j].turn_settled(
                    p,
                    TurnRestriction::Prohibitory,
                ) implies self.turn_settled(p, TurnRestriction::Prohibitory) by {
                    if j < prev.len() {
                        assert(states[j] == prev[j]);
                        assert(b0.turn_settled(p, TurnRestriction::Prohibitory));
                        Self::lemma_prohibition_kept(b0, *self, p);
                    }
                }
            }
            r = r + 1;
        }
        assert(Self::relations_chain(states, oks, *old(self), *self));
    }

    /// Every raw way with at least two known nodes that is travellable under
    /// the final strings is a way of the finished graph.
    proof fn lemma_build_keeps_usable(s0: Self, b1: Self, b2: Self, g: ProcessedGraph)
        requires
            s0.fresh(),
            exists|states: Seq<Self>| #[trigger] Self::collect_chain(states, s0, b1),
            b1.wf(),
            b2.wf(),
            extends(b1.strings(), b2.strings()),
            b2.processed_ways == b1.processed_ways,
            b2.raw_ways == s0.raw_ways,
            b2.raw_nodes == s0.raw_nodes,
            b2.node_index == s0.node_index,
            g.nodes@ == b2.nodes@,
            g.ways@.len() == b2.processed_ways@.len(),
            forall|p: int| 0 <= p < g.ways@.len() ==> {
                &&& (#[trigger] g.ways@[p]).osm_id == b2.processed_ways@[p].0
                &&& g.ways@[p].node_ids@.len() == b2.processed_ways@[p].1@.len()
                &&& forall|j: int| 0 <= j < g.ways@[p].node_ids@.len() ==> #[trigger] g.ways@[p].node_ids@[j]
                    == b2.node_map@[b2.processed_ways@[p].1@[j]]
            },
            g.string_interner@.len() == b2.strings().len(),
            forall|i: int| 0 <= i < g.string_interner@.len() ==> (#[trigger] g.string_interner@[i])@ == b2.strings()[i],
        ensures
            extends(s0.strings(), string_table(g)),
            all_distinct(string_table(g)),
            string_table(g).len() <= u32::MAX,
            forall|w: int| 0 <= w < s0.input_ways().len() ==> #[trigger] tags_numbered(string_table(g), s0.input_ways()[w]),
            forall|w: int|
                0 <= w < s0.input_ways().len() && raw_known(s0.input_ways()[w].node_refs@, s0.input_nodes()).len() >= 2
                    && #[trigger] way_usable_under(string_table(g), s0.numbered_profile(), s0.input_ways()[w])
                    ==> exists|p: int| 0 <= p < g.ways@.len() && way_built_from(g, p, s0.input_ways()[w], s0.input_nodes()),
    {
        let states = choose|states: Seq<Self>| #[trigger] Self::collect_chain(states, s0, b1);
        let fin = string_table(g);
        assert(fin =~= b2.strings());
        b2.lemma_strings_distinct();
        Self::lemma_collect_grows(states, s0, b1, 0, s0.raw_ways@.len() as int);
        assert(extends(b1.strings(), fin));
        assert forall|w: int| 0 <= w < s0.input_ways().len() implies #[trigger] tags_numbered(fin, s0.input_ways()[w]) by {
            let n = s0.raw_ways@.len() as int;
            Self::lemma_collect_grows(states, s0, b1, 0, w);
            Self::lemma_collect_grows(states, s0, b1, w + 1, n);
            assert(Self::way_collected(states[w], states[w + 1], w));
            let (st, usable) = choose|st: Seq<Seq<char>>, usable: bool| #[trigger] Self::collected_as(
                states[w],
                states[w + 1],
                w,
                st,
                usable,
            );
            let way = s0.raw_ways@[w];
            assert(states[w].raw_ways@[w] == way);
            assert forall|t: int| 0 <= t < way.tags@.len() implies fin.contains((#[trigger] way.tags@[t]).0@) && fin.contains(
                way.tags@[t].1@,
            ) by {
                let i = choose|i: int| 0 <= i < st.len() && st[i] == way.tags@[t].0@;
                let j = choose|j: int| 0 <= j < st.len() && st[j] == way.tags@[t].1@;
                assert(states[w + 1].strings()[i] == st[i] && states[w + 1].strings()[j] == st[j]);
                assert(b1.strings()[i] == st[i] && b1.strings()[j] == st[j]);
                assert(fin[i] == st[i] && fin[j] == st[j]);
            }
        }
        assert(extends(s0.strings(), fin)) by {
            assert forall|i: int| 0 <= i < s0.strings().len() implies #[trigger] fin[i] == s0.strings()[i] by {
                assert(b1.strings()[i] == s0.strings()[i]);
            }
        }
        assert forall|id: i64| #[trigger] s0.node_index@.contains_key(id) <==> is_raw_node(s0.raw_nodes@, id) by {
            if s0.node_index@.contains_key(id) {
                let k = choose|k: int| 0 <= k < s0.raw_nodes@.len() && s0.raw_nodes@[k].id == id;
                assert(s0.raw_nodes@[k].id == id);
            }
            if is_raw_node(s0.raw_nodes@, id) {
                let k = choose|k: int| 0 <= k < s0.raw_nodes@.len() && (#[trigger] s0.raw_nodes@[k]).id == id;
                assert(exists|k2: int| 0 <= k2 < s0.raw_nodes@.len() && s0.raw_nodes@[k2].id == id);
            }
        }
        assert forall|w: int|
            0 <= w < s0.input_ways().len() && raw_known(s0.input_ways()[w].node_refs@, s0.input_nodes()).len() >= 2
                && #[trigger] way_usable_under(fin, s0.numbered_profile(), s0.input_ways()[w])
            implies exists|p: int| 0 <= p < g.ways@.len() && way_built_from(g, p, s0.input_ways()[w], s0.input_nodes()) by {
            let way = s0.raw_ways@[w];
            lemma_known_nodes_raw(way.node_refs@, s0.node_index@, s0.raw_nodes@);
            Self::lemma_usable_way_recorded(states, s0, b1, w, fin);
            let known = known_nodes(way.node_refs@, s0.node_index@);
            let p = choose|p: int| 0 <= p < b1.processed_ways@.len() && (#[trigger] b1.processed_ways@[p]).0 == way.id
                && b1.processed_ways@[p].1@ == known;
            let refs = raw_known(way.node_refs@, s0.raw_nodes@);
            assert forall|j: int| 0 <= j < refs.len() implies g.nodes@[(#[trigger] g.ways@[p].node_ids@[j]) as int].external_id
                == refs[j] by {
                assert(b2.node_map@.contains_key(b2.processed_ways@[p].1@[j]));
            }
            assert(way_built_from(g, p, way, s0.raw_nodes@));
        }
    }

    /// The edge lists of a finalized graph keep their targets in order.
    proof fn lemma_finalized_sorted(b: &Self, g: ProcessedGraph)
        requires
            b.wf(),
            g.nodes@ == b.nodes@,
            forall|i: int| 0 <= i < g.nodes@.len() ==> #[trigger] g.out_edges(i as u32) == b.temp_edges@[i]@,
        ensures
            forall|i: u32| i < g.nodes@.len() ==> sorted_targets(#[trigger] g.out_edges(i)),
    {
        assert forall|i: u32| i < g.nodes@.len() implies sorted_targets(#[trigger] g.out_edges(i)) by {
            let k: int = i as int;
            assert(g.out_edges(k as u32) == b.temp_edges@[k]@);
            assert(sorted_targets(b.temp_edges@[k]@));
        }
    }

    /// Builds the routing graph: records the usable ways and their nodes,
    /// adds their edges, applies every turn restriction that can be read (a
    /// restriction that cannot is skipped), and compresses the result. Every
    /// way of the result is a raw way with its known nodes, every edge joins
    /// two nodes whose OSM nodes follow each other on one of its ways, and
    /// every raw way with at least two known nodes that the profile makes
    /// travellable is a way of the result (the profile being the one that
    /// the builder's numbered profile names, as `new` states). Every edge
    /// costs what `cost` gave for the raw nodes of its two ends' OSM ids,
    /// under the penalty that the profile gives a raw way whose id is that of
    /// a raw way on which both ends lie.
    pub fn build<C: EdgeCost>(self, cost: &C) -> (r: Result<ProcessedGraph, GraphError>)
        requires
            self.fresh(),
        ensures
            r is Ok,
            r matches Ok(g) ==> g.wf(),
            r matches Ok(g) ==> (forall|p: int| 0 <= p < g.ways@.len() ==> {
                &&& (#[trigger] g.ways@[p]).node_ids@.len() >= 2
                &&& forall|j: int| 0 <= j < g.ways@[p].node_ids@.len() ==> #[trigger] g.ways@[p].node_ids@[j] < g.nodes@.len()
                &&& forall|j: int| 0 <= j < g.ways@[p].tags@.len() ==> (#[trigger] g.ways@[p].tags@[j]).0 < g.string_interner@.len()
                    && g.ways@[p].tags@[j].1 < g.string_interner@.len()
            }),
            r matches Ok(g) ==> (forall|p: int| 0 <= p < g.ways@.len() ==> #[trigger] built_from_some(g, p, self.input_ways(), self.input_nodes())),
            r matches Ok(g) ==> edges_on_ways(g),
            r matches Ok(g) ==> (forall|i: u32| i < g.nodes@.len() ==> sorted_targets(#[trigger] g.out_edges(i))),
            r matches Ok(g) ==> exists|b: Self| #[trigger] self.wires_restrictions(b, g),
            r matches Ok(g) ==> (forall|i: int, e: int|
                0 <= i < g.nodes@.len() && 0 <= e < g.out_edges(i as u32).len() ==> edge_priced(
                    self.input_nodes(),
                    *cost,
                    g.nodes@[i].external_id,
                    g.nodes@[(#[trigger] g.out_edges(i as u32)[e]).0 as int].external_id,
                    g.out_edges(i as u32)[e].1,
                )),
            r matches Ok(g) ==> (forall|prof: Profile, i: int, e: int|
                #![trigger names_profile(self.strings(), self.numbered_profile(), prof), g.out_edges(i as u32)[e]]
                names_profile(self.strings(), self.numbered_profile(), prof) && 0 <= i < g.nodes@.len() && 0 <= e
                    < g.out_edges(i as u32).len() ==> edge_priced_by_way(
                    self.input_nodes(),
                    self.input_ways(),
                    prof,
                    *cost,
                    g.nodes@[i].external_id,
                    g.nodes@[g.out_edges(i as u32)[e].0 as int].external_id,
                    g.out_edges(i as u32)[e].1,
                )),
            r matches Ok(g) ==> (forall|prof: Profile, w: int|
                names_profile(self.strings(), self.numbered_profile(), prof) && 0 <= w < self.input_ways().len() && raw_known(
                    self.input_ways()[w].node_refs@,
                    self.input_nodes(),
                ).len() >= 2 && #[trigger] travellable(prof, self.input_ways()[w]) ==> exists|p: int|
                    0 <= p < g.ways@.len() && way_built_from(g, p, self.input_ways()[w], self.input_nodes())),
    {
        let mut b = self;
        b.collect_usable_ways(cost);
        let ghost b1 = b;
        proof {
            assert forall|i: int, t: u32| 0 <= i < b.temp_edges@.len() && #[trigger] edge_map(b.temp_edges@[i]@).contains_key(t)
                implies false by {
                assert(b.temp_edges@[i]@.len() == 0);
            }
        }
        b.add_all_ways(cost);
        let ghost ba = b;
        proof {
            assert forall|f: u32, t: i64, k: i64|
                b.via_node_clones@.contains_key(f) && b.via_node_clones@[f]@.contains_key(t) && b.node_map@.contains_key(k)
                implies #[trigger] b.via_node_clones@[f]@[t] != #[trigger] b.node_map@[k] by {
                assert(self.via_node_clones@[f]@[t] < self.nodes@.len());
            }
            assert(b.clones_apart());
        }
        b.add_all_relations::<C>(Ghost(*cost));
        proof {
            assert forall|p: int, j: int| 0 <= p < b.processed_ways@.len() && 0 <= j < b.processed_ways@[p].1@.len()
                implies b.node_map@[#[trigger] b.processed_ways@[p].1@[j]] < b.nodes@.len() by {
                assert(b.node_map@.contains_key(b.processed_ways@[p].1@[j]));
            }
            assert forall|p: int| 0 <= p < b.processed_ways@.len() implies ids_below((#[trigger] b.processed_ways@[p]).2@, b.strings().len()) by {
            }
        }
        let ghost b2 = b;
        let g = b.finalize_graph();
        proof {
            let (states, oks) = choose|states: Seq<Self>, oks: Seq<bool>| #[trigger] Self::relations_chain(states, oks, ba, b2);
            assert(Self::relations_chain(states, oks, states[0], b2));
            assert(self.wires_restrictions(b2, g));
            assert forall|i: int, e: int|
                0 <= i < g.nodes@.len() && 0 <= e < g.out_edges(i as u32).len() implies edge_priced(
                    self.input_nodes(),
                    *cost,
                    g.nodes@[i].external_id,
                    g.nodes@[(#[trigger] g.out_edges(i as u32)[e]).0 as int].external_id,
                    g.out_edges(i as u32)[e].1,
                ) by {
                let es = b2.temp_edges@[i]@;
                assert(g.out_edges(i as u32) == es);
                assert(sorted_targets(es));
                crate::edges::lemma_target_unique(es, e, es[e].0);
            }
            Self::lemma_build_keeps_usable(self, b1, b2, g);
            let fin = string_table(g);
            assert(fin =~= b2.strings());
            assert forall|prof: Profile, i: int, e: int|
                #![trigger names_profile(self.strings(), self.numbered_profile(), prof), g.out_edges(i as u32)[e]]
                names_profile(self.strings(), self.numbered_profile(), prof) && 0 <= i < g.nodes@.len() && 0 <= e
                    < g.out_edges(i as u32).len() implies edge_priced_by_way(
                    self.input_nodes(),
                    self.input_ways(),
                    prof,
                    *cost,
                    g.nodes@[i].external_id,
                    g.nodes@[g.out_edges(i as u32)[e].0 as int].external_id,
                    g.out_edges(i as u32)[e].1,
                ) by {
                lemma_names_profile_extend(self.strings(), fin, self.numbered_profile(), prof);
                assert(names_profile(b2.strings(), b2.profile, prof));
                let es = b2.temp_edges@[i]@;
                assert(g.out_edges(i as u32) == es);
                assert(sorted_targets(es));
                crate::edges::lemma_target_unique(es, e, es[e].0);
                assert(edge_map(b2.temp_edges@[i]@).contains_key(es[e].0));
            }
            assert forall|prof: Profile, w: int|
                names_profile(self.strings(), self.numbered_profile(), prof) && 0 <= w < self.input_ways().len() && raw_known(
                    self.input_ways()[w].node_refs@,
                    self.input_nodes(),
                ).len() >= 2 && #[trigger] travellable(prof, self.input_ways()[w]) implies exists|p: int|
                    0 <= p < g.ways@.len() && way_built_from(g, p, self.input_ways()[w], self.input_nodes()) by {
                lemma_names_profile_extend(self.strings(), fin, self.numbered_profile(), prof);
                assert(tags_numbered(fin, self.input_ways()[w]));
                lemma_verdict_by_names(fin, self.numbered_profile(), prof, self.input_ways()[w]);
            }
            Self::lemma_graph_on_ways(&b2, g);
            Self::lemma_finalized_sorted(&b2, g);
            assert forall|p: int| 0 <= p < g.ways@.len() implies {
                &&& (#[trigger] g.ways@[p]).node_ids@.len() >= 2
                &&& forall|j: int| 0 <= j < g.ways@[p].node_ids@.len() ==> #[trigger] g.ways@[p].node_ids@[j] < g.nodes@.len()
                &&& forall|j: int| 0 <= j < g.ways@[p].tags@.len() ==> (#[trigger] g.ways@[p].tags@[j]).0 < g.string_interner@.len()
                    && g.ways@[p].tags@[j].1 < g.string_interner@.len()
            } by {
                assert(ids_below(b2.processed_ways@[p].2@, b2.strings().len()));
                assert forall|j: int| 0 <= j < g.ways@[p].node_ids@.len() implies #[trigger] g.ways@[p].node_ids@[j] < g.nodes@.len() by {
                    assert(b2.node_map@.contains_key(b2.processed_ways@[p].1@[j]));
                }
                assert forall|j: int| 0 <= j < g.ways@[p].tags@.len() implies (#[trigger] g.ways@[p].tags@[j]).0 < g.string_interner@.len()
                    && g.ways@[p].tags@[j].1 < g.string_interner@.len() by {
                    assert(g.ways@[p].tags@[j] == b2.processed_ways@[p].2@[j]);
                }
            }
            assert forall|id: i64| #[trigger] b2.node_index@.contains_key(id) <==> is_raw_node(b2.raw_nodes@, id) by {
                if b2.node_index@.contains_key(id) {
                    let k = choose|k: int| 0 <= k < b2.raw_nodes@.len() && b2.raw_nodes@[k].id == id;
                    assert(b2.raw_nodes@[k].id == id);
                }
                if is_raw_node(b2.raw_nodes@, id) {
                    let k = choose|k: int| 0 <= k < b2.raw_nodes@.len() && (#[trigger] b2.raw_nodes@[k]).id == id;
                    assert(exists|k2: int| 0 <= k2 < b2.raw_nodes@.len() && b2.raw_nodes@[k2].id == id);
                }
            }
            assert forall|p: int| 0 <= p < g.ways@.len() implies #[trigger] built_from_some(g, p, self.input_ways(), self.input_nodes()) by {
                assert(recorded_from(b1.raw_ways@, b1.node_index@, b1.processed_ways@[p].0, b1.processed_ways@[p].1@));
                let w = choose|w: int| 0 <= w < b1.raw_ways@.len() && b1.raw_ways@[w].id == b1.processed_ways@[p].0
                    && b1.processed_ways@[p].1@ == known_nodes(b1.raw_ways@[w].node_refs@, b1.node_index@);
                let refs = b1.processed_ways@[p].1@;
                lemma_known_nodes_raw(b1.raw_ways@[w].node_refs@, b2.node_index@, b2.raw_nodes@);
                assert forall|j: int| 0 <= j < refs.len() implies g.nodes@[(#[trigger] g.ways@[p].node_ids@[j]) as int].external_id == refs[j] by {
                    assert(b2.node_map@.contains_key(b2.processed_ways@[p].1@[j]));
                }
                assert(way_built_from(g, p, self.input_ways()[w], self.input_nodes()));
            }
        }
        Ok(g)
    }
}

} // verus!
