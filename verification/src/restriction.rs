use vstd::prelude::*;
use crate::errors::{GraphError, owned};

verus! {

/// `i` is the first position of `x` in `s`.
pub open spec fn is_first_index(s: Seq<i64>, x: i64, i: int) -> bool {
    &&& 0 <= i < s.len()
    &&& s[i] == x
    &&& forall|k: int| 0 <= k < i ==> s[k] != x
}

/// The first position of `x` in `s` (meaningful when `s` contains `x`).
pub open spec fn first_index(s: Seq<i64>, x: i64) -> int {
    choose|i: int| is_first_index(s, x, i)
}

pub proof fn lemma_first_index(s: Seq<i64>, x: i64, i: int)
    requires
        is_first_index(s, x, i),
    ensures
        first_index(s, x) == i,
{
    let j = first_index(s, x);
    assert(is_first_index(s, x, j));
    if j < i {
        assert(s[j] != x);
    }
    if i < j {
        assert(s[i] != x);
    }
}

pub proof fn lemma_first_index_exists(s: Seq<i64>, x: i64)
    requires
        s.contains(x),
    ensures
        is_first_index(s, x, first_index(s, x)),
    decreases s.len(),
{
    let w = choose|w: int| 0 <= w < s.len() && s[w] == x;
    if s[0] == x {
        assert(is_first_index(s, x, 0));
    } else {
        let t = s.drop_first();
        assert(t[w - 1] == x);
        lemma_first_index_exists(t, x);
        let j = first_index(t, x);
        assert forall|k: int| 0 <= k < j + 1 implies s[k] != x by {
            if k > 0 {
                assert(s[k] == t[k - 1]);
            }
        }
        assert(is_first_index(s, x, j + 1));
    }
}

/// Position in `w1` of the first node that `w2` also holds.
pub open spec fn is_connection_index(w1: Seq<i64>, w2: Seq<i64>, i: int) -> bool {
    &&& 0 <= i < w1.len()
    &&& w2.contains(w1[i])
    &&& forall|k: int| 0 <= k < i ==> !w2.contains(w1[k])
}

/// The two node lists share a node.
pub open spec fn ways_connect(w1: Seq<i64>, w2: Seq<i64>) -> bool {
    exists|i: int| 0 <= i < w1.len() && w2.contains(w1[i])
}

/// Where the first shared node stands in `w1`.
pub open spec fn connection_a(w1: Seq<i64>, w2: Seq<i64>) -> int {
    choose|i: int| is_connection_index(w1, w2, i)
}

/// The first shared node.
pub open spec fn connection_node(w1: Seq<i64>, w2: Seq<i64>) -> i64 {
    w1[connection_a(w1, w2)]
}

/// Where the first shared node first stands in `w2`.
pub open spec fn connection_b(w1: Seq<i64>, w2: Seq<i64>) -> int {
    first_index(w2, connection_node(w1, w2))
}

pub proof fn lemma_connection(w1: Seq<i64>, w2: Seq<i64>)
    requires
        ways_connect(w1, w2),
    ensures
        is_connection_index(w1, w2, connection_a(w1, w2)),
        is_first_index(w2, connection_node(w1, w2), connection_b(w1, w2)),
{
    let w = choose|i: int| 0 <= i < w1.len() && w2.contains(w1[i]);
    lemma_min_connection(w1, w2, w);
    let a = connection_a(w1, w2);
    lemma_first_index_exists(w2, w1[a]);
}

proof fn lemma_min_connection(w1: Seq<i64>, w2: Seq<i64>, w: int)
    requires
        0 <= w < w1.len(),
        w2.contains(w1[w]),
    ensures
        exists|i: int| is_connection_index(w1, w2, i),
    decreases w,
{
    if forall|k: int| 0 <= k < w ==> !w2.contains(w1[k]) {
        assert(is_connection_index(w1, w2, w));
    } else {
        let k = choose|k: int| 0 <= k < w && w2.contains(w1[k]);
        lemma_min_connection(w1, w2, k);
    }
}

/// Finds the first node of `way1` that `way2` holds too, with its position in
/// `way1` and its first position in `way2`.
pub fn find_way_connection(way1: &[i64], way2: &[i64]) -> (r: Result<(i64, usize, usize), GraphError>)
    ensures
        match r {
            Ok((n, i, j)) => ways_connect(way1@, way2@) && i == connection_a(way1@, way2@) && n
                == connection_node(way1@, way2@) && j == connection_b(way1@, way2@),
            Err(e) => !ways_connect(way1@, way2@) && e is InvalidOsmData,
        },
{
    proof {
        if ways_connect(way1@, way2@) {
            lemma_connection(way1@, way2@);
        }
    }
    let mut i: usize = 0;
    while i < way1.len()
        invariant
            i <= way1@.len(),
            forall|k: int| 0 <= k < i ==> !way2@.contains(#[trigger] way1@[k]),
        decreases way1@.len() - i,
    {
        let node1 = way1[i];
        let mut j: usize = 0;
        while j < way2.len()
            invariant
                j <= way2@.len(),
                i < way1@.len(),
                node1 == way1@[i as int],
                forall|k: int| 0 <= k < i ==> !way2@.contains(#[trigger] way1@[k]),
                forall|k: int| 0 <= k < j ==> way2@[k] != node1,
            decreases way2@.len() - j,
        {
            if way2[j] == node1 {
                proof {
                    assert(way2@.contains(way1@[i as int]));
                    assert(is_connection_index(way1@, way2@, i as int));
                    lemma_connection(way1@, way2@);
                    let a = connection_a(way1@, way2@);
                    if a < i {
                    }
                    if i < a {
                        assert(!way2@.contains(way1@[i as int]));
                    }
                    assert(is_first_index(way2@, node1, j as int));
                    lemma_first_index(way2@, node1, j as int);
                }
                return Ok((node1, i, j));
            }
            j = j + 1;
        }
        assert(!way2@.contains(node1));
        i = i + 1;
    }
    Err(GraphError::InvalidOsmData(
        owned("Could not find connection point between ways in restriction"),
    ))
}

/// The node before position `idx`.
pub fn get_node_before(way: &[i64], idx: usize) -> (r: Result<i64, GraphError>)
    requires
        idx < way@.len(),
    ensures
        match r {
            Ok(n) => idx > 0 && n == way@[idx - 1],
            Err(e) => idx == 0 && e is InvalidOsmData,
        },
{
    if idx > 0 {
        Ok(way[idx - 1])
    } else {
        Err(GraphError::InvalidOsmData(
            owned(
                "Connection point is at the start of 'from' or 'via' way, cannot determine previous node",
            ),
        ))
    }
}

/// The node after position `idx`.
pub fn get_node_after(way: &[i64], idx: usize) -> (r: Result<i64, GraphError>)
    requires
        idx < way@.len(),
    ensures
        match r {
            Ok(n) => idx + 1 < way@.len() && n == way@[idx + 1],
            Err(e) => idx + 1 == way@.len() && e is InvalidOsmData,
        },
{
    if idx < way.len() - 1 {
        Ok(way[idx + 1])
    } else {
        Err(GraphError::InvalidOsmData(
            owned("Connection point is at the end of 'to' or 'via' way, cannot determine next node"),
        ))
    }
}


/// Position of the first `x` in `s`.
pub fn position(s: &[i64], x: i64) -> (r: Option<usize>)
    ensures
        match r {
            Some(i) => is_first_index(s@, x, i as int) && first_index(s@, x) == i,
            None => !s@.contains(x),
        },
{
    let mut i: usize = 0;
    while i < s.len()
        invariant
            i <= s@.len(),
            forall|k: int| 0 <= k < i ==> s@[k] != x,
        decreases s@.len() - i,
    {
        if s[i] == x {
            proof {
                lemma_first_index(s@, x, i as int);
            }
            return Some(i);
        }
        i = i + 1;
    }
    None
}

/// The nodes that a path takes along `w` from its first `from` to its first
/// `to`, leaving out `from`: forward when `to` stands later, else backward.
pub open spec fn way_segment(w: Seq<i64>, from: i64, to: i64) -> Seq<i64> {
    let s = first_index(w, from);
    let e = first_index(w, to);
    if s < e {
        w.subrange(s + 1, e + 1)
    } else {
        w.subrange(e, s).reverse().push(to)
    }
}

/// The node where member `k` meets member `k + 1`.
pub open spec fn joint(mn: Seq<Seq<i64>>, k: int) -> i64 {
    connection_node(mn[k], mn[k + 1])
}

/// The segments along the inner members `1 .. n - 1`.
pub open spec fn inner_segments(mn: Seq<Seq<i64>>, n: int) -> Seq<i64>
    decreases n,
{
    if n <= 1 {
        Seq::empty()
    } else {
        inner_segments(mn, n - 1) + way_segment(mn[n - 1], joint(mn, n - 2), joint(mn, n - 1))
    }
}

/// A restriction of three members whose middle one is a single via node.
pub open spec fn is_via_node_form(mn: Seq<Seq<i64>>) -> bool {
    mn.len() == 3 && mn[1].len() == 1
}

/// Why a list of member node lists cannot be read as a restriction path.
pub open spec fn flatten_fails(mn: Seq<Seq<i64>>) -> bool {
    if mn.len() == 0 {
        true
    } else if is_via_node_form(mn) {
        let via = mn[1][0];
        ||| !mn[0].contains(via)
        ||| !mn[2].contains(via)
        ||| first_index(mn[0], via) == 0
        ||| first_index(mn[2], via) == mn[2].len() - 1
    } else if mn.len() == 1 {
        false
    } else {
        ||| exists|k: int| 0 <= k < mn.len() - 1 && !ways_connect(mn[k], #[trigger] mn[k + 1])
        ||| connection_a(mn[0], mn[1]) == 0
        ||| connection_b(mn[mn.len() - 2], mn[mn.len() - 1]) == mn[mn.len() - 1].len() - 1
    }
}

/// The node path of a restriction: the node before the first joint, the
/// joints and the nodes between them along the inner members, and the node
/// after the last joint.
pub open spec fn flatten_path(mn: Seq<Seq<i64>>) -> Seq<i64> {
    if is_via_node_form(mn) {
        let via = mn[1][0];
        seq![mn[0][first_index(mn[0], via) - 1], via, mn[2][first_index(mn[2], via) + 1]]
    } else if mn.len() <= 1 {
        Seq::empty()
    } else {
        let l = mn.len();
        seq![mn[0][connection_a(mn[0], mn[1]) - 1], joint(mn, 0)] + inner_segments(mn, l - 1)
            + seq![mn[l - 1][connection_b(mn[l - 2], mn[l - 1]) + 1]]
    }
}

/// Turns the node lists of a restriction's members (from, vias, to) into the
/// path of nodes that the restriction covers.
pub fn flatten_restriction_nodes(members_nodes: Vec<Vec<i64>>) -> (r: Result<Vec<i64>, GraphError>)
    ensures
        ({
            let mn = members_nodes@.map_values(|v: Vec<i64>| v@);
            &&& mn.len() == 0 ==> (r matches Err(GraphError::InvalidOsmData(msg)) && msg@
                == "No members in restriction."@)
            &&& match r {
                Ok(p) => !flatten_fails(mn) && p@ == flatten_path(mn),
                Err(e) => flatten_fails(mn) && e is InvalidOsmData,
            }
        }),
{
    let ghost mn = members_nodes@.map_values(|v: Vec<i64>| v@);
    if members_nodes.len() == 0 {
        return Err(GraphError::InvalidOsmData(owned("No members in restriction.")));
    }
    if members_nodes.len() == 3 && members_nodes[1].len() == 1 {
        let from_way = &members_nodes[0];
        let via_node_id = members_nodes[1][0];
        let to_way = &members_nodes[2];
        assert(mn[0] == from_way@ && mn[2] == to_way@ && mn[1][0] == via_node_id);
        let from_idx = match position(from_way.as_slice(), via_node_id) {
            Some(i) => i,
            None => {
                return Err(GraphError::InvalidOsmData(owned("Via node not found in 'from' way.")));
            },
        };
        let to_idx = match position(to_way.as_slice(), via_node_id) {
            Some(i) => i,
            None => {
                return Err(GraphError::InvalidOsmData(owned("Via node not found in 'to' way.")));
            },
        };
        let from_node = get_node_before(from_way.as_slice(), from_idx)?;
        let to_node = get_node_after(to_way.as_slice(), to_idx)?;
        let mut out: Vec<i64> = Vec::new();
        out.push(from_node);
        out.push(via_node_id);
        out.push(to_node);
        assert(out@ == flatten_path(mn));
        return Ok(out);
    }
    let l = members_nodes.len();
    let mut final_path: Vec<i64> = Vec::new();
    let mut i: usize = 0;
    while i + 1 < l
        invariant
            mn == members_nodes@.map_values(|v: Vec<i64>| v@),
            l == mn.len(),
            l >= 1,
            !is_via_node_form(mn),
            i < l,
            l == 1 || i + 2 <= l,
            i == 0 ==> final_path@.len() == 0,
            forall|k: int| 0 <= k < i ==> ways_connect(mn[k], #[trigger] mn[k + 1]),
            i > 0 ==> connection_a(mn[0], mn[1]) != 0,
            i > 0 && i + 1 < l ==> ways_connect(mn[i as int], mn[i + 1]),
            i > 0 ==> final_path@ == seq![mn[0][connection_a(mn[0], mn[1]) - 1], joint(mn, 0)]
                + inner_segments(mn, i + 1),
        decreases l - i,
    {
        let way_a = &members_nodes[i];
        let way_b = &members_nodes[i + 1];
        assert(way_a@ == mn[i as int] && way_b@ == mn[i + 1]);
        let (connection_node, idx_a, idx_b) = find_way_connection(way_a.as_slice(), way_b.as_slice())?;
        proof {
            lemma_connection(mn[i as int], mn[i + 1]);
        }
        if final_path.len() == 0 {
            assert(i == 0);
            let from_node = get_node_before(way_a.as_slice(), idx_a)?;
            final_path.push(from_node);
            final_path.push(connection_node);
        }
        if i == l - 2 {
            let to_node = get_node_after(way_b.as_slice(), idx_b)?;
            final_path.push(to_node);
            proof {
                assert forall|k: int| 0 <= k < l - 1 implies ways_connect(mn[k], #[trigger] mn[k + 1]) by {
                    if k < i {
                    }
                }
                assert(!flatten_fails(mn));
            }
            return Ok(final_path);
        } else {
            let way_c = &members_nodes[i + 2];
            assert(way_c@ == mn[i + 2]);
            let (end_connection_node, _, _) = match find_way_connection(way_b.as_slice(), way_c.as_slice()) {
                Ok(c) => c,
                Err(e) => {
                    assert(!ways_connect(mn[i + 1], mn[i + 1 + 1]));
                    return Err(e);
                },
            };
            proof {
                lemma_connection(mn[i + 1], mn[i + 2]);
            }
            let start_idx_in_b = match position(way_b.as_slice(), connection_node) {
                Some(x) => x,
                None => {
                    assert(false);
                    0
                },
            };
            let end_idx_in_b = match position(way_b.as_slice(), end_connection_node) {
                Some(x) => x,
                None => {
                    assert(false);
                    0
                },
            };
            let ghost before = final_path@;
            let wl = way_b.len();
            if start_idx_in_b < end_idx_in_b {
                let mut t = start_idx_in_b + 1;
                while t <= end_idx_in_b
                    invariant
                        start_idx_in_b < t <= end_idx_in_b + 1,
                        end_idx_in_b < way_b@.len(),
                        end_idx_in_b < wl,
                        final_path@ == before + way_b@.subrange(start_idx_in_b + 1, t as int),
                    decreases end_idx_in_b + 1 - t,
                {
                    final_path.push(way_b[t]);
                    proof {
                        assert(way_b@.subrange(start_idx_in_b + 1, t + 1) == way_b@.subrange(
                            start_idx_in_b + 1,
                            t as int,
                        ).push(way_b@[t as int]));
                    }
                    t = t + 1;
                }
            } else {
                let mut t = start_idx_in_b;
                while t > end_idx_in_b
                    invariant
                        end_idx_in_b <= t <= start_idx_in_b,
                        start_idx_in_b < way_b@.len(),
                        final_path@ == before + way_b@.subrange(t as int, start_idx_in_b as int).reverse(),
                    decreases t,
                {
                    t = t - 1;
                    final_path.push(way_b[t]);
                    proof {
                        let a = way_b@.subrange(t + 1, start_idx_in_b as int);
                        let b = way_b@.subrange(t as int, start_idx_in_b as int);
                        assert(b.reverse() == a.reverse().push(way_b@[t as int]));
                    }
                }
                final_path.push(end_connection_node);
            }
            proof {
                assert(final_path@ == before + way_segment(mn[i + 1], joint(mn, i as int), joint(mn, i + 1)));
                assert(inner_segments(mn, i + 2) == inner_segments(mn, i + 1) + way_segment(mn[i + 1], joint(mn, i as int), joint(mn, i + 1)));
            }
        }
        i = i + 1;
    }
    assert(l == 1);
    Ok(final_path)
}

} // verus!
