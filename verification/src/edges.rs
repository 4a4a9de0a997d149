use vstd::prelude::*;

verus! {

/// The targets of the edge list strictly increase.
pub open spec fn sorted_targets(es: Seq<(u32, u16)>) -> bool {
    forall|i: int, j: int| 0 <= i < j < es.len() ==> (#[trigger] es[i]).0 < (#[trigger] es[j]).0
}

/// Some edge of the list leads to `t`.
pub open spec fn has_target(es: Seq<(u32, u16)>, t: u32) -> bool {
    exists|i: int| 0 <= i < es.len() && (#[trigger] es[i]).0 == t
}

/// The position of the edge to `t`.
pub open spec fn target_index(es: Seq<(u32, u16)>, t: u32) -> int {
    choose|i: int| 0 <= i < es.len() && (#[trigger] es[i]).0 == t
}

/// The edge list as a map from target to cost.
pub open spec fn edge_map(es: Seq<(u32, u16)>) -> Map<u32, u16> {
    Map::new(|t: u32| has_target(es, t), |t: u32| es[target_index(es, t)].1)
}

/// Every target of the list lies below `n`.
pub open spec fn targets_below(es: Seq<(u32, u16)>, n: nat) -> bool {
    forall|i: int| 0 <= i < es.len() ==> (#[trigger] es[i]).0 < n
}

/// In a sorted list, the edge to a target stands at one position only.
pub proof fn lemma_target_unique(es: Seq<(u32, u16)>, i: int, t: u32)
    requires
        sorted_targets(es),
        0 <= i < es.len(),
        es[i].0 == t,
    ensures
        has_target(es, t),
        target_index(es, t) == i,
        edge_map(es).contains_key(t),
        edge_map(es)[t] == es[i].1,
{
    assert(has_target(es, t));
    let k = target_index(es, t);
    if k < i {
        assert(es[k].0 < es[i].0);
    }
    if i < k {
        assert(es[i].0 < es[k].0);
    }
}

/// Where an edge to `t` stands, or would stand: the first position whose
/// target is not below `t`.
fn search(es: &Vec<(u32, u16)>, t: u32) -> (p: usize)
    requires
        sorted_targets(es@),
    ensures
        p <= es@.len(),
        forall|i: int| 0 <= i < p ==> (#[trigger] es@[i]).0 < t,
        p < es@.len() ==> es@[p as int].0 >= t,
{
    let mut p: usize = 0;
    while p < es.len() && es[p].0 < t
        invariant
            p <= es@.len(),
            sorted_targets(es@),
            forall|i: int| 0 <= i < p ==> (#[trigger] es@[i]).0 < t,
        decreases es@.len() - p,
    {
        p = p + 1;
    }
    p
}

/// Sets the cost of the edge to `t`, adding the edge where it is missing.
pub fn insert_edge(es: &mut Vec<(u32, u16)>, t: u32, c: u16)
    requires
        sorted_targets(old(es)@),
    ensures
        sorted_targets(final(es)@),
        edge_map(final(es)@) == edge_map(old(es)@).insert(t, c),
        forall|n: nat| targets_below(old(es)@, n) && t < n ==> targets_below(final(es)@, n),
{
    let ghost s = es@;
    let p = search(es, t);
    if p < es.len() && es[p].0 == t {
        es.set(p, (t, c));
        proof {
            let s2 = es@;
            assert(s2 == s.update(p as int, (t, c)));
            assert(sorted_targets(s2)) by {
                assert forall|i: int, j: int| 0 <= i < j < s2.len() implies (#[trigger] s2[i]).0 < (#[trigger] s2[j]).0 by {
                    assert(s[i].0 < s[j].0);
                }
            }
            assert(edge_map(s2) =~= edge_map(s).insert(t, c)) by {
                assert forall|x: u32| #[trigger] edge_map(s2).contains_key(x) <==> edge_map(s).insert(t, c).contains_key(x) by {
                    if has_target(s, x) {
                        let i = target_index(s, x);
                        assert(s2[i].0 == x);
                    }
                    if has_target(s2, x) {
                        let i = target_index(s2, x);
                        assert(s[i].0 == x);
                    }
                }
                assert forall|x: u32| #[trigger] edge_map(s2).contains_key(x) implies edge_map(s2)[x] == edge_map(s).insert(t, c)[x] by {
                    let i = target_index(s2, x);
                    lemma_target_unique(s2, i, x);
                    if x != t {
                        lemma_target_unique(s, i, x);
                    } else {
                        lemma_target_unique(s2, p as int, t);
                    }
                }
            }
        }
    } else {
        es.insert(p, (t, c));
        proof {
            let s2 = es@;
            assert(s2 == s.insert(p as int, (t, c)));
            assert(sorted_targets(s2)) by {
                assert forall|i: int, j: int| 0 <= i < j < s2.len() implies (#[trigger] s2[i]).0 < (#[trigger] s2[j]).0 by {
                    if j < p {
                        assert(s[i].0 < s[j].0);
                    } else if j == p {
                        assert(s[i].0 < t);
                    } else if i == p {
                        assert(s[j - 1].0 >= t);
                        assert(s[j - 1].0 != t || j - 1 != p);
                        if j - 1 > p {
                            assert(s[p as int].0 < s[j - 1].0);
                        }
                    } else if i < p {
                        assert(s[i].0 < s[j - 1].0);
                    } else {
                        assert(s[i - 1].0 < s[j - 1].0);
                    }
                }
            }
            assert(!has_target(s, t)) by {
                if has_target(s, t) {
                    let i = target_index(s, t);
                    if i < p {
                        assert(s[i].0 < t);
                    } else if i > p {
                        assert(s[p as int].0 < s[i].0);
                    }
                }
            }
            assert(edge_map(s2) =~= edge_map(s).insert(t, c)) by {
                assert forall|x: u32| #[trigger] edge_map(s2).contains_key(x) <==> edge_map(s).insert(t, c).contains_key(x) by {
                    if has_target(s, x) {
                        let i = target_index(s, x);
                        if i < p {
                            assert(s2[i].0 == x);
                        } else {
                            assert(s2[i + 1].0 == x);
                        }
                    }
                    if x == t {
                        assert(s2[p as int].0 == t);
                    }
                    if has_target(s2, x) {
                        let i = target_index(s2, x);
                        if i < p {
                            assert(s[i].0 == x);
                        } else if i > p {
                            assert(s[i - 1].0 == x);
                        }
                    }
                }
                assert forall|x: u32| #[trigger] edge_map(s2).contains_key(x) implies edge_map(s2)[x] == edge_map(s).insert(t, c)[x] by {
                    let i = target_index(s2, x);
                    lemma_target_unique(s2, i, x);
                    if i < p {
                        lemma_target_unique(s, i, x);
                    } else if i > p {
                        lemma_target_unique(s, i - 1, x);
                    }
                }
            }
        }
    }
}

/// Removes the edge to `t`, giving back its cost where there was one.
pub fn remove_edge(es: &mut Vec<(u32, u16)>, t: u32) -> (r: Option<u16>)
    requires
        sorted_targets(old(es)@),
    ensures
        sorted_targets(final(es)@),
        edge_map(final(es)@) == edge_map(old(es)@).remove(t),
        r == (if edge_map(old(es)@).contains_key(t) { Some(edge_map(old(es)@)[t]) } else { None }),
        forall|n: nat| targets_below(old(es)@, n) ==> targets_below(final(es)@, n),
{
    let ghost s = es@;
    let p = search(es, t);
    if p < es.len() && es[p].0 == t {
        let (_, c) = es.remove(p);
        proof {
            lemma_target_unique(s, p as int, t);
            let s2 = es@;
            assert(s2 == s.remove(p as int));
            assert(sorted_targets(s2)) by {
                assert forall|i: int, j: int| 0 <= i < j < s2.len() implies (#[trigger] s2[i]).0 < (#[trigger] s2[j]).0 by {
                    if j < p {
                        assert(s[i].0 < s[j].0);
                    } else if i < p {
                        assert(s[i].0 < s[j + 1].0);
                    } else {
                        assert(s[i + 1].0 < s[j + 1].0);
                    }
                }
            }
            assert(edge_map(s2) =~= edge_map(s).remove(t)) by {
                assert forall|x: u32| #[trigger] edge_map(s2).contains_key(x) <==> edge_map(s).remove(t).contains_key(x) by {
                    if has_target(s, x) && x != t {
                        let i = target_index(s, x);
                        lemma_target_unique(s, i, x);
                        if i < p {
                            assert(s2[i].0 == x);
                        } else {
                            assert(s2[i - 1].0 == x);
                        }
                    }
                    if has_target(s2, x) {
                        let i = target_index(s2, x);
                        if i < p {
                            assert(s[i].0 == x);
                            assert(s[i].0 < s[p as int].0);
                        } else {
                            assert(s[i + 1].0 == x);
                            assert(s[p as int].0 < s[i + 1].0);
                        }
                    }
                }
                assert forall|x: u32| #[trigger] edge_map(s2).contains_key(x) implies edge_map(s2)[x] == edge_map(s).remove(t)[x] by {
                    let i = target_index(s2, x);
                    lemma_target_unique(s2, i, x);
                    if i < p {
                        lemma_target_unique(s, i, x);
                    } else {
                        lemma_target_unique(s, i + 1, x);
                    }
                }
            }
        }
        Some(c)
    } else {
        proof {
            assert(!has_target(s, t)) by {
                if has_target(s, t) {
                    let i = target_index(s, t);
                    if i < p {
                        assert(s[i].0 < t);
                    } else if i > p {
                        assert(s[p as int].0 < s[i].0);
                    }
                }
            }
            assert(edge_map(s) =~= edge_map(s).remove(t));
        }
        None
    }
}

/// Keeps only the edge to `t`, where there is one.
pub fn retain_only_edge(es: &mut Vec<(u32, u16)>, t: u32)
    requires
        sorted_targets(old(es)@),
    ensures
        sorted_targets(final(es)@),
        edge_map(final(es)@) == (if edge_map(old(es)@).contains_key(t) {
            Map::<u32, u16>::empty().insert(t, edge_map(old(es)@)[t])
        } else {
            Map::<u32, u16>::empty()
        }),
        forall|n: nat| targets_below(old(es)@, n) ==> targets_below(final(es)@, n),
{
    let r = remove_edge(es, t);
    es.clear();
    match r {
        Some(c) => {
            es.push((t, c));
            proof {
                lemma_target_unique(es@, 0, t);
                assert(edge_map(es@) =~= Map::<u32, u16>::empty().insert(t, c));
            }
        },
        None => {
            assert(edge_map(es@) =~= Map::<u32, u16>::empty());
        },
    }
}

} // verus!
