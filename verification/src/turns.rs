use vstd::prelude::*;
use std::collections::HashMap;
use crate::text::{starts_with, str_eq, trimmed, split_semicolons, split_pieces, trimmed_pieces};
use crate::errors::owned;
use crate::types::Way;
use crate::types::{get_tag, tag_value, Relation, RelationMember};

verus! {

broadcast use vstd::std_specs::hash::group_hash_axioms;

/// What a turn restriction does: forbids a turn, or makes it the only one
/// allowed.
#[derive(Clone, Copy, PartialEq, Eq, Structural, Debug)]
pub enum TurnRestriction {
    Inapplicable,
    Prohibitory,
    Mandatory,
}

/// A turn restriction from one way, through a node, onto another way, with
/// the vehicle types it does not bind.
#[derive(Clone, Debug)]
pub struct TurnRestrictionData {
    pub restriction_type: TurnRestriction,
    pub from_way: i64,
    pub via_node: i64,
    pub to_way: i64,
    pub except: Vec<String>,
}

/// A route: its nodes, and the ways it uses, each way listed once per run.
#[derive(Clone, Debug)]
pub struct RouteResult {
    pub nodes: Vec<i64>,
    pub ways: Vec<i64>,
}

/// The kind of restriction that a `restriction=*` value names.
pub open spec fn restriction_kind_of(value: Seq<char>) -> TurnRestriction {
    if value.len() >= 3 && value.subrange(0, 3) == "no_"@ {
        TurnRestriction::Prohibitory
    } else if value.len() >= 5 && value.subrange(0, 5) == "only_"@ {
        TurnRestriction::Mandatory
    } else {
        TurnRestriction::Inapplicable
    }
}

/// Reads a `restriction=*` value: `no_*` forbids, `only_*` mandates.
pub fn classify_restriction(value: &str) -> (r: TurnRestriction)
    ensures
        r == restriction_kind_of(value@),
{
    proof {
        reveal_strlit("no_");
        reveal_strlit("only_");
    }
    if starts_with(value, "no_") {
        TurnRestriction::Prohibitory
    } else if starts_with(value, "only_") {
        TurnRestriction::Mandatory
    } else {
        TurnRestriction::Inapplicable
    }
}

/// The restriction binds the turn from `prev` through `node` onto `next`.
pub open spec fn binds(r: TurnRestrictionData, prev: i64, node: i64, next: i64) -> bool {
    r.via_node == node && r.from_way == prev && r.to_way == next
}

/// Cars and motor vehicles are exempt from the restriction.
pub open spec fn exempts_cars(r: TurnRestrictionData) -> bool {
    exists|k: int|
        0 <= k < r.except@.len() && (#[trigger] r.except@[k]@ == "car"@ || r.except@[k]@
            == "motor_vehicle"@)
}

/// The first restriction from position `i` on that settles the turn: an
/// exempting one allows it, a prohibiting one forbids it.
pub open spec fn first_verdict(
    rs: Seq<TurnRestrictionData>,
    i: int,
    prev: i64,
    node: i64,
    next: i64,
) -> Option<bool>
    decreases rs.len() - i,
{
    if i < 0 || i >= rs.len() {
        None
    } else if binds(rs[i], prev, node, next) && exempts_cars(rs[i]) {
        Some(true)
    } else if binds(rs[i], prev, node, next) && rs[i].restriction_type
        == TurnRestriction::Prohibitory {
        Some(false)
    } else {
        first_verdict(rs, i + 1, prev, node, next)
    }
}

/// A mandatory restriction from `prev` through `node`.
pub open spec fn is_mandatory_at(r: TurnRestrictionData, prev: i64, node: i64) -> bool {
    r.via_node == node && r.from_way == prev && r.restriction_type == TurnRestriction::Mandatory
}

/// Whether the turn from `previous_way_id` through `current_node_id` onto
/// `next_way_id` is allowed: the first binding restriction decides; failing
/// one, mandatory restrictions at the node allow only their target way.
pub open spec fn turn_allowed(
    rs: Seq<TurnRestrictionData>,
    previous_way_id: Option<i64>,
    current_node_id: i64,
    next_way_id: i64,
) -> bool {
    match previous_way_id {
        None => true,
        Some(prev) => match first_verdict(rs, 0, prev, current_node_id, next_way_id) {
            Some(b) => b,
            None => {
                (exists|i: int| 0 <= i < rs.len() && #[trigger] is_mandatory_at(rs[i], prev, current_node_id))
                    ==> exists|i: int|
                    0 <= i < rs.len() && #[trigger] is_mandatory_at(rs[i], prev, current_node_id)
                        && rs[i].to_way == next_way_id
            },
        },
    }
}

fn exempts_cars_exec(r: &TurnRestrictionData) -> (b: bool)
    ensures
        b == exempts_cars(*r),
{
    proof {
        reveal_strlit("car");
        reveal_strlit("motor_vehicle");
    }
    let mut k: usize = 0;
    while k < r.except.len()
        invariant
            k <= r.except@.len(),
            forall|j: int| 0 <= j < k ==> !(r.except@[j]@ == "car"@ || r.except@[j]@ == "motor_vehicle"@),
        decreases r.except@.len() - k,
    {
        if str_eq(r.except[k].as_str(), "car") || str_eq(r.except[k].as_str(), "motor_vehicle") {
            return true;
        }
        k = k + 1;
    }
    false
}

/// Whether the turn from `previous_way_id` through `current_node_id` onto
/// `next_way_id` is allowed by `restrictions`.
pub fn is_turn_allowed(
    restrictions: &Vec<TurnRestrictionData>,
    previous_way_id: Option<i64>,
    current_node_id: i64,
    next_way_id: i64,
) -> (b: bool)
    ensures
        b == turn_allowed(restrictions@, previous_way_id, current_node_id, next_way_id),
{
    let prev_way_id = match previous_way_id {
        None => {
            return true;
        },
        Some(p) => p,
    };
    assert(previous_way_id == Some(prev_way_id));
    let ghost rs = restrictions@;
    let mut i: usize = 0;
    while i < restrictions.len()
        invariant
            rs == restrictions@,
            previous_way_id == Some(prev_way_id),
            i <= rs.len(),
            first_verdict(rs, 0, prev_way_id, current_node_id, next_way_id) == first_verdict(
                rs,
                i as int,
                prev_way_id,
                current_node_id,
                next_way_id,
            ),
        decreases rs.len() - i,
    {
        let r = &restrictions[i];
        assert(*r == rs[i as int]);
        if r.via_node == current_node_id && r.from_way == prev_way_id && r.to_way == next_way_id {
            if r.except.len() > 0 {
                if exempts_cars_exec(r) {
                    assert(first_verdict(rs, i as int, prev_way_id, current_node_id, next_way_id) == Some(true));
                    return true;
                }
            }
            proof {
                if r.except@.len() == 0 {
                    assert(!exempts_cars(rs[i as int]));
                }
            }
            if r.restriction_type == TurnRestriction::Prohibitory {
                assert(first_verdict(rs, i as int, prev_way_id, current_node_id, next_way_id) == Some(false));
                return false;
            }
        }
        assert(first_verdict(rs, i as int, prev_way_id, current_node_id, next_way_id) == first_verdict(rs, i + 1, prev_way_id, current_node_id, next_way_id));
        i = i + 1;
    }
    let mut any_mandatory = false;
    let mut i: usize = 0;
    while i < restrictions.len()
        invariant
            rs == restrictions@,
            previous_way_id == Some(prev_way_id),
            first_verdict(rs, 0, prev_way_id, current_node_id, next_way_id) is None,
            i <= rs.len(),
            any_mandatory == exists|j: int| 0 <= j < i && #[trigger] is_mandatory_at(rs[j], prev_way_id, current_node_id),
            forall|j: int| 0 <= j < i && #[trigger] is_mandatory_at(rs[j], prev_way_id, current_node_id)
                ==> rs[j].to_way != next_way_id,
        decreases rs.len() - i,
    {
        let r = &restrictions[i];
        assert(*r == rs[i as int]);
        if r.via_node == current_node_id && r.from_way == prev_way_id && r.restriction_type
            == TurnRestriction::Mandatory {
            assert(is_mandatory_at(rs[i as int], prev_way_id, current_node_id));
            if r.to_way == next_way_id {
                assert(first_verdict(rs, 0, prev_way_id, current_node_id, next_way_id) is None);
                assert(is_mandatory_at(rs[i as int], prev_way_id, current_node_id) && rs[i as int].to_way == next_way_id);
                return true;
            }
            any_mandatory = true;
        }
        i = i + 1;
    }
    assert(first_verdict(rs, rs.len() as int, prev_way_id, current_node_id, next_way_id) is None);
    proof {
        if any_mandatory {
            if exists|j: int| 0 <= j < rs.len() && #[trigger] is_mandatory_at(rs[j], prev_way_id, current_node_id) && rs[j].to_way == next_way_id {
                let j = choose|j: int| 0 <= j < rs.len() && #[trigger] is_mandatory_at(rs[j], prev_way_id, current_node_id) && rs[j].to_way == next_way_id;
                assert(rs[j].to_way != next_way_id);
            }
        }
    }
    !any_mandatory
}

/// The ways along a route, each run of one way listed once.
pub open spec fn dedup_runs(s: Seq<i64>) -> Seq<i64>
    decreases s.len(),
{
    if s.len() == 0 {
        s
    } else {
        let d = dedup_runs(s.drop_last());
        if d.len() > 0 && d.last() == s.last() {
            d
        } else {
            d.push(s.last())
        }
    }
}

/// The node reached by following predecessors back `k` times from `x`.
pub open spec fn walk_back(m: Map<i64, (i64, i64)>, x: i64, k: nat) -> i64
    decreases k,
{
    if k == 0 {
        x
    } else {
        m[walk_back(m, x, (k - 1) as nat)].0
    }
}

/// Following predecessors back from `x` stops after `k` steps.
pub open spec fn stops_after(m: Map<i64, (i64, i64)>, x: i64, k: nat) -> bool {
    &&& !m.contains_key(walk_back(m, x, k))
    &&& forall|j: nat| j < k ==> m.contains_key(#[trigger] walk_back(m, x, j))
}

/// Following predecessors back from `end_node_id` stops.
pub open spec fn chain_ends(m: Map<i64, (i64, i64)>, end_node_id: i64) -> bool {
    exists|k: nat| stops_after(m, end_node_id, k)
}

/// The length of the predecessor chain from `x`.
pub open spec fn chain_len(m: Map<i64, (i64, i64)>, x: i64) -> nat {
    choose|k: nat| stops_after(m, x, k)
}

/// The nodes from the start of the predecessor chain to `end_node_id`.
pub open spec fn chain_nodes(m: Map<i64, (i64, i64)>, end_node_id: i64) -> Seq<i64> {
    let k = chain_len(m, end_node_id);
    Seq::new(k + 1, |i: int| walk_back(m, end_node_id, (k - i) as nat))
}

/// The ways of the predecessor chain, from its start to `end_node_id`.
pub open spec fn chain_ways(m: Map<i64, (i64, i64)>, end_node_id: i64) -> Seq<i64> {
    let k = chain_len(m, end_node_id);
    Seq::new(k, |i: int| m[walk_back(m, end_node_id, (k - 1 - i) as nat)].1)
}

pub proof fn lemma_stops_unique(m: Map<i64, (i64, i64)>, x: i64, a: nat, b: nat)
    requires
        stops_after(m, x, a),
        stops_after(m, x, b),
    ensures
        a == b,
{
    if a < b {
        assert(m.contains_key(walk_back(m, x, a)));
    }
    if b < a {
        assert(m.contains_key(walk_back(m, x, b)));
    }
}

/// Follows predecessors back from `end_node_id`, and lists the route's nodes
/// and its ways, each run of one way once.
pub fn reconstruct_path_with_ways(came_from: &HashMap<i64, (i64, i64)>, end_node_id: i64) -> (r: (
    Vec<i64>,
    Vec<i64>,
))
    requires
        chain_ends(came_from@, end_node_id),
    ensures
        r.0@ == chain_nodes(came_from@, end_node_id),
        r.1@ == dedup_runs(chain_ways(came_from@, end_node_id)),
{
    let ghost m = came_from@;
    let ghost k0 = chain_len(m, end_node_id);
    proof {
        let w = choose|w: nat| stops_after(m, end_node_id, w);
        lemma_stops_unique(m, end_node_id, w, k0);
    }
    let mut path_nodes: Vec<i64> = Vec::new();
    path_nodes.push(end_node_id);
    let mut path_ways: Vec<i64> = Vec::new();
    let mut current = end_node_id;
    let ghost mut steps: nat = 0;
    loop
        invariant
            m == came_from@,
            stops_after(m, end_node_id, k0),
            steps <= k0,
            current == walk_back(m, end_node_id, steps),
            path_nodes@.len() == steps + 1,
            forall|i: int| 0 <= i <= steps ==> #[trigger] path_nodes@[i] == walk_back(m, end_node_id, i as nat),
            path_ways@.len() == steps,
            forall|i: int| 0 <= i < steps ==> #[trigger] path_ways@[i] == m[walk_back(m, end_node_id, i as nat)].1,
        ensures
            steps == k0,
            path_nodes@.len() == k0 + 1,
            forall|i: int| 0 <= i <= k0 ==> #[trigger] path_nodes@[i] == walk_back(m, end_node_id, i as nat),
            path_ways@.len() == k0,
            forall|i: int| 0 <= i < k0 ==> #[trigger] path_ways@[i] == m[walk_back(m, end_node_id, i as nat)].1,
        decreases k0 - steps,
    {
        match came_from.get(&current) {
            Some(pw) => {
                let (prev_node, way_id) = *pw;
                proof {
                    if steps == k0 {
                        assert(!m.contains_key(walk_back(m, end_node_id, k0)));
                    }
                    assert(walk_back(m, end_node_id, steps + 1) == prev_node);
                }
                path_nodes.push(prev_node);
                path_ways.push(way_id);
                current = prev_node;
                proof {
                    steps = steps + 1;
                }
            },
            None => {
                proof {
                    if steps < k0 {
                        assert(m.contains_key(walk_back(m, end_node_id, steps)));
                    }
                }
                break;
            },
        }
    }
    let n = path_nodes.len();
    let mut nodes: Vec<i64> = Vec::new();
    let mut i: usize = 0;
    while i < n
        invariant
            n == path_nodes@.len(),
            i <= n,
            nodes@.len() == i,
            forall|j: int| 0 <= j < i ==> nodes@[j] == #[trigger] path_nodes@[n - 1 - j],
        decreases n - i,
    {
        nodes.push(path_nodes[n - 1 - i]);
        i = i + 1;
    }
    let w = path_ways.len();
    let mut ways: Vec<i64> = Vec::new();
    let mut prev_way: Option<i64> = None;
    let ghost fwd = chain_ways(m, end_node_id);
    let mut i: usize = 0;
    while i < w
        invariant
            w == path_ways@.len(),
            w == k0,
            fwd == chain_ways(m, end_node_id),
            fwd.len() == w,
            forall|j: int| 0 <= j < w ==> fwd[j] == #[trigger] path_ways@[w - 1 - j],
            i <= w,
            ways@ == dedup_runs(fwd.subrange(0, i as int)),
            prev_way == (if ways@.len() == 0 { None } else { Some(ways@.last()) }),
        decreases w - i,
    {
        let way_id = path_ways[w - 1 - i];
        proof {
            assert(fwd.subrange(0, i + 1).drop_last() == fwd.subrange(0, i as int));
            assert(fwd.subrange(0, i + 1).last() == way_id);
        }
        if prev_way != Some(way_id) {
            ways.push(way_id);
            prev_way = Some(way_id);
        }
        i = i + 1;
    }
    proof {
        assert(fwd.subrange(0, w as int) == fwd);
        assert forall|j: int| 0 <= j < nodes@.len() implies nodes@[j] == chain_nodes(m, end_node_id)[j] by {
            assert(nodes@[j] == path_nodes@[n - 1 - j]);
        }
        assert(nodes@ == chain_nodes(m, end_node_id));
    }
    (nodes, ways)
}


/// The reference of the last member with this role and type.
pub open spec fn member_ref(members: Seq<RelationMember>, role: Seq<char>, member_type: Seq<char>) -> Option<i64>
    decreases members.len(),
{
    if members.len() == 0 {
        None
    } else if members.last().role@ == role && members.last().member_type@ == member_type {
        Some(members.last().ref_id)
    } else {
        member_ref(members.drop_last(), role, member_type)
    }
}

/// Finds the reference of the last member with this role and type.
pub fn find_member(members: &Vec<RelationMember>, role: &str, member_type: &str) -> (r: Option<i64>)
    ensures
        r == member_ref(members@, role@, member_type@),
{
    let mut i = members.len();
    assert(members@.subrange(0, i as int) == members@);
    while i > 0
        invariant
            i <= members@.len(),
            member_ref(members@, role@, member_type@) == member_ref(members@.subrange(0, i as int), role@, member_type@),
        decreases i,
    {
        let m = &members[i - 1];
        proof {
            assert(members@.subrange(0, i as int).drop_last() == members@.subrange(0, i - 1));
        }
        if str_eq(m.role.as_str(), role) && str_eq(m.member_type.as_str(), member_type) {
            return Some(m.ref_id);
        }
        i = i - 1;
    }
    None
}

/// Some string of `v` reads `p`.
pub open spec fn has_piece(v: Seq<String>, p: Seq<char>) -> bool {
    exists|j: int| 0 <= j < v.len() && #[trigger] v[j]@ == p
}

/// `p` is kept: anything when empty pieces count, else only a nonempty one.
pub open spec fn piece_counts(p: Seq<char>, skip_empty: bool) -> bool {
    !skip_empty || p.len() > 0
}

/// `v` holds each counted piece of `pieces` exactly once, and nothing else.
pub open spec fn distinct_strings_of(v: Seq<String>, pieces: Seq<Seq<char>>, skip_empty: bool) -> bool {
    &&& forall|k: int| 0 <= k < v.len() ==> pieces.contains(#[trigger] v[k]@) && piece_counts(v[k]@, skip_empty)
    &&& forall|k: int| 0 <= k < pieces.len() && piece_counts(pieces[k], skip_empty) ==> has_piece(v, #[trigger] pieces[k])
    &&& forall|a: int, b: int| 0 <= a < b < v.len() ==> (#[trigger] v[a])@ != (#[trigger] v[b])@
}

/// The distinct strings among `pieces`.
pub open spec fn same_string_set(v: Seq<String>, pieces: Seq<Seq<char>>) -> bool {
    distinct_strings_of(v, pieces, false)
}

/// The pieces of `s` between semicolons, each trimmed.
pub open spec fn trimmed_split(s: Seq<char>) -> Seq<Seq<char>> {
    split_semicolons(s).map_values(|p: Seq<char>| trimmed(p))
}

/// The distinct strings at `ranges` of `s`, in order of first appearance.
fn distinct_strings(s: &str, ranges: &Vec<(usize, usize)>, Ghost(pieces): Ghost<Seq<Seq<char>>>, skip_empty: bool) -> (r: Vec<String>)
    requires
        ranges@.len() == pieces.len(),
        forall|k: int| 0 <= k < ranges@.len() ==> {
            let (a, b) = #[trigger] ranges@[k];
            a <= b <= s@.len() && s@.subrange(a as int, b as int) == pieces[k]
        },
    ensures
        distinct_strings_of(r@, pieces, skip_empty),
{
    let mut out: Vec<String> = Vec::new();
    let mut i: usize = 0;
    while i < ranges.len()
        invariant
            ranges@.len() == pieces.len(),
            forall|k: int| 0 <= k < ranges@.len() ==> {
                let (a, b) = #[trigger] ranges@[k];
                a <= b <= s@.len() && s@.subrange(a as int, b as int) == pieces[k]
            },
            i <= ranges@.len(),
            forall|k: int| 0 <= k < out@.len() ==> pieces.subrange(0, i as int).contains(#[trigger] out@[k]@) && piece_counts(out@[k]@, skip_empty),
            forall|k: int| 0 <= k < i && piece_counts(pieces[k], skip_empty) ==> has_piece(out@, #[trigger] pieces[k]),
            forall|a: int, b: int| 0 <= a < b < out@.len() ==> (#[trigger] out@[a])@ != (#[trigger] out@[b])@,
        decreases ranges@.len() - i,
    {
        let (a, b) = ranges[i];
        let piece = owned(s.substring_char(a, b));
        assert(piece@ == pieces[i as int]);
        let mut found = false;
        let mut j: usize = 0;
        while j < out.len()
            invariant
                j <= out@.len(),
                found == exists|x: int| 0 <= x < j && #[trigger] out@[x]@ == piece@,
            decreases out@.len() - j,
        {
            if out[j] == piece {
                found = true;
            }
            j = j + 1;
        }
        let ghost before = out@;
        let skip = skip_empty && a == b;
        if !found && !skip {
            out.push(piece);
        }
        proof {
            assert forall|k: int| 0 <= k < out@.len() implies pieces.subrange(0, i + 1).contains(#[trigger] out@[k]@) && piece_counts(out@[k]@, skip_empty) by {
                if k < before.len() {
                    let w = choose|w: int| 0 <= w < i && pieces.subrange(0, i as int)[w] == before[k]@;
                    assert(pieces.subrange(0, i + 1)[w] == before[k]@);
                } else {
                    assert(pieces.subrange(0, i + 1)[i as int] == piece@);
                }
            }
            assert forall|k: int| 0 <= k < i + 1 && piece_counts(pieces[k], skip_empty) implies has_piece(out@, #[trigger] pieces[k]) by {
                if k < i {
                    let j = choose|j: int| 0 <= j < before.len() && #[trigger] before[j]@ == pieces[k];
                    assert(out@[j] == before[j]);
                } else if !found {
                    assert(out@[before.len() as int]@ == pieces[k]);
                } else {
                    let x = choose|x: int| 0 <= x < out@.len() && #[trigger] out@[x]@ == piece@;
                    assert(out@[x]@ == pieces[k]);
                }
            }
        }
        i = i + 1;
    }
    proof {
        assert(pieces.subrange(0, pieces.len() as int) == pieces);
        assert forall|k: int| 0 <= k < out@.len() implies pieces.contains(#[trigger] out@[k]@) && piece_counts(out@[k]@, skip_empty) by {
            assert(pieces.subrange(0, i as int).contains(out@[k]@));
        }
    }
    out
}

/// The distinct pieces of `s` between semicolons.
pub fn distinct_pieces(s: &str) -> (r: Vec<String>)
    ensures
        same_string_set(r@, split_semicolons(s@)),
{
    let ranges = split_pieces(s);
    distinct_strings(s, &ranges, Ghost(split_semicolons(s@)), false)
}

/// The distinct nonempty pieces of `s` between semicolons, each trimmed.
pub fn distinct_trimmed_pieces(s: &str) -> (r: Vec<String>)
    ensures
        distinct_strings_of(r@, trimmed_split(s@), true),
{
    let ranges = trimmed_pieces(s);
    distinct_strings(s, &ranges, Ghost(trimmed_split(s@)), true)
}

/// The restriction that a relation states, when it is a turn restriction
/// of a known kind with a `from` way, a `via` node and a `to` way.
pub open spec fn relation_restriction_spec(rel: Relation, r: Option<TurnRestrictionData>) -> bool {
    let tags = rel.tags@;
    let from = member_ref(rel.members@, "from"@, "way"@);
    let via = member_ref(rel.members@, "via"@, "node"@);
    let to = member_ref(rel.members@, "to"@, "way"@);
    if tag_value(tags, "type"@) == Some("restriction"@) && tag_value(tags, "restriction"@) is Some
        && restriction_kind_of(tag_value(tags, "restriction"@)->0) != TurnRestriction::Inapplicable
        && from is Some && via is Some && to is Some {
        r matches Some(d) && d.restriction_type == restriction_kind_of(tag_value(tags, "restriction"@)->0)
            && d.from_way == from->0 && d.via_node == via->0 && d.to_way == to->0 && (match tag_value(
            tags,
            "except"@,
        ) {
            Some(e) => same_string_set(d.except@, split_semicolons(e)),
            None => d.except@.len() == 0,
        })
    } else {
        r is None
    }
}

/// Reads a relation as a turn restriction.
pub fn restriction_from_relation(relation: &Relation) -> (r: Option<TurnRestrictionData>)
    ensures
        relation_restriction_spec(*relation, r),
{
    proof {
        reveal_strlit("type");
        reveal_strlit("restriction");
    }
    let t = match get_tag(&relation.tags, "type") {
        Some(t) => t,
        None => {
            return None;
        },
    };
    if !str_eq(t.as_str(), "restriction") {
        return None;
    }
    let value = match get_tag(&relation.tags, "restriction") {
        Some(v) => v,
        None => {
            return None;
        },
    };
    let restriction_type = classify_restriction(value.as_str());
    if restriction_type == TurnRestriction::Inapplicable {
        return None;
    }
    let from_way = find_member(&relation.members, "from", "way");
    let via_node = find_member(&relation.members, "via", "node");
    let to_way = find_member(&relation.members, "to", "way");
    match (from_way, via_node, to_way) {
        (Some(from), Some(via), Some(to)) => {
            let except = match get_tag(&relation.tags, "except") {
                Some(e) => distinct_pieces(e.as_str()),
                None => Vec::new(),
            };
            Some(
                TurnRestrictionData {
                    restriction_type,
                    from_way: from,
                    via_node: via,
                    to_way: to,
                    except,
                },
            )
        },
        _ => None,
    }
}

/// Some restriction of `out` is the one that `rel` states.
pub open spec fn lists_restriction_of(out: Seq<TurnRestrictionData>, rel: Relation) -> bool {
    exists|j: int| 0 <= j < out.len() && relation_restriction_spec(rel, Some(#[trigger] out[j]))
}

/// Some relation of `relations` states the restriction `d`.
pub open spec fn stated_by_some(relations: Seq<Relation>, d: TurnRestrictionData) -> bool {
    exists|i: int| 0 <= i < relations.len() && relation_restriction_spec(#[trigger] relations[i], Some(d))
}

/// `out` holds, in order, one restriction for each relation at the positions
/// `src` of `relations`, and every relation that states a restriction has
/// its place in `src`.
pub open spec fn drawn_from(relations: Seq<Relation>, out: Seq<TurnRestrictionData>, src: Seq<int>) -> bool {
    &&& src.len() == out.len()
    &&& forall|j: int| 0 <= j < src.len() ==> 0 <= #[trigger] src[j] < relations.len()
        && relation_restriction_spec(relations[src[j]], Some(out[j]))
    &&& forall|j: int, k: int| 0 <= j < k < src.len() ==> #[trigger] src[j] < #[trigger] src[k]
    &&& forall|i: int| 0 <= i < relations.len() && !relation_restriction_spec(#[trigger] relations[i], None)
        ==> exists|j: int| 0 <= j < src.len() && #[trigger] src[j] == i
}

/// Exactly one restriction for each relation that states one, in the order
/// of the relations.
pub open spec fn one_per_relation(relations: Seq<Relation>, out: Seq<TurnRestrictionData>) -> bool {
    exists|src: Seq<int>| #[trigger] drawn_from(relations, out, src)
}

/// The turn restrictions that the relations state.
pub fn collect_turn_restrictions(relations: &Vec<Relation>) -> (r: Vec<TurnRestrictionData>)
    ensures
        one_per_relation(relations@, r@),
        r@.len() <= relations@.len(),
        forall|i: int| 0 <= i < relations@.len() ==> relation_restriction_spec(#[trigger] relations@[i], None)
            || lists_restriction_of(r@, relations@[i]),
        forall|j: int| 0 <= j < r@.len() ==> stated_by_some(relations@, #[trigger] r@[j]),
{
    let mut out: Vec<TurnRestrictionData> = Vec::new();
    let ghost mut src: Seq<int> = Seq::empty();
    let mut i: usize = 0;
    while i < relations.len()
        invariant
            i <= relations@.len(),
            out@.len() <= i,
            drawn_from(relations@.subrange(0, i as int), out@, src),
            forall|j: int| 0 <= j < src.len() ==> #[trigger] src[j] < i,
            forall|k: int| 0 <= k < i ==> relation_restriction_spec(#[trigger] relations@[k], None)
                || lists_restriction_of(out@, relations@[k]),
            forall|j: int| 0 <= j < out@.len() ==> stated_by_some(relations@, #[trigger] out@[j]),
        decreases relations@.len() - i,
    {
        let ghost before = out@;
        let ghost src0 = src;
        let ghost pre = relations@.subrange(0, i as int);
        let ghost pre1 = relations@.subrange(0, i + 1);
        match restriction_from_relation(&relations[i]) {
            Some(d) => {
                out.push(d);
                proof {
                    src = src.push(i as int);
                    assert(drawn_from(pre1, out@, src)) by {
                        assert forall|j: int| 0 <= j < src.len() implies 0 <= #[trigger] src[j] < pre1.len()
                            && relation_restriction_spec(pre1[src[j]], Some(out@[j])) by {
                            if j < src0.len() {
                                assert(pre1[src0[j]] == pre[src0[j]]);
                                assert(out@[j] == before[j]);
                            }
                        }
                        assert forall|x: int| 0 <= x < pre1.len() && !relation_restriction_spec(#[trigger] pre1[x], None)
                            implies exists|j: int| 0 <= j < src.len() && #[trigger] src[j] == x by {
                            if x < i {
                                assert(pre1[x] == pre[x]);
                                let j = choose|j: int| 0 <= j < src0.len() && #[trigger] src0[j] == x;
                                assert(src[j] == x);
                            } else {
                                assert(src[src0.len() as int] == x);
                            }
                        }
                    }
                    assert(relation_restriction_spec(relations@[i as int], Some(out@[before.len() as int])));
                    assert forall|k: int| 0 <= k < i + 1 implies relation_restriction_spec(#[trigger] relations@[k], None)
                        || lists_restriction_of(out@, relations@[k]) by {
                        if k < i && !relation_restriction_spec(relations@[k], None) {
                            let j = choose|j: int| 0 <= j < before.len() && relation_restriction_spec(relations@[k], Some(#[trigger] before[j]));
                            assert(out@[j] == before[j]);
                        }
                    }
                    assert forall|j: int| 0 <= j < out@.len() implies stated_by_some(relations@, #[trigger] out@[j]) by {
                        if j < before.len() {
                            assert(out@[j] == before[j]);
                        } else {
                            assert(relation_restriction_spec(relations@[i as int], Some(out@[j])));
                        }
                    }
                }
            },
            None => {
                proof {
                    assert(drawn_from(pre1, out@, src)) by {
                        assert forall|j: int| 0 <= j < src.len() implies 0 <= #[trigger] src[j] < pre1.len()
                            && relation_restriction_spec(pre1[src[j]], Some(out@[j])) by {
                            assert(pre1[src0[j]] == pre[src0[j]]);
                        }
                        assert forall|x: int| 0 <= x < pre1.len() && !relation_restriction_spec(#[trigger] pre1[x], None)
                            implies exists|j: int| 0 <= j < src.len() && #[trigger] src[j] == x by {
                            if x < i {
                                assert(pre1[x] == pre[x]);
                            } else {
                                assert(relation_restriction_spec(pre1[x], None));
                            }
                        }
                    }
                }
            },
        }
        i = i + 1;
    }
    proof {
        assert(relations@.subrange(0, relations@.len() as int) == relations@);
        assert(drawn_from(relations@, out@, src));
    }
    out
}

} // verus!
