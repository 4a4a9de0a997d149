use std::collections::{HashMap, HashSet};

use sparkling_router::errors::GraphError;
use sparkling_router::routegraph::{RouteEdge, RouteGraph};
use sparkling_router::routing::{find_route_astar, SearchGuide};
use sparkling_router::turns::{TurnRestriction, TurnRestrictionData};

/// A guide with no pruning; estimates are looked up by node (0 where none
/// is given); with a bearing, the score of a step is looked up by its target.
struct PlainGuide {
    estimates: HashMap<i64, i64>,
    scores: Option<HashMap<i64, i64>>,
    rejected: HashSet<i64>,
    expanded: Vec<i64>,
}

impl PlainGuide {
    fn new() -> Self {
        PlainGuide { estimates: HashMap::new(), scores: None, rejected: HashSet::new(), expanded: Vec::new() }
    }
}

impl SearchGuide for PlainGuide {
    fn estimate(&self, node: i64) -> i64 {
        *self.estimates.get(&node).unwrap_or(&0)
    }
    fn rejects(&self, node: i64) -> bool {
        self.rejected.contains(&node)
    }
    fn expand(&mut self, node: i64) {
        self.expanded.push(node);
    }
    fn prunes(&mut self, _from: i64, _to: i64) -> bool {
        false
    }
    fn has_bearing(&self) -> bool {
        self.scores.is_some()
    }
    fn bearing_score(&self, _from: i64, to: i64) -> i64 {
        self.scores.as_ref().and_then(|m| m.get(&to).copied()).unwrap_or(-1)
    }
}

fn positions(ids: &[i64]) -> HashMap<i64, (u64, u64)> {
    ids.iter().map(|&i| (i, (0.0f64.to_bits(), (i as f64).to_bits()))).collect()
}

const LIMIT: u64 = 1000;

fn edge(to_node: i64, way_id: i64, cost: i64) -> RouteEdge {
    RouteEdge { to_node, way_id, cost }
}

/// 1 -(way 10, 1)- 2 -(way 10, 1)- 3 -(way 20, 1)- 4, and a dear detour
/// 1 -(way 30, 10)- 4; node 9 has no edges.
fn line_graph() -> RouteGraph {
    let mut adjacency_list: HashMap<i64, Vec<RouteEdge>> = HashMap::new();
    adjacency_list.insert(1, vec![edge(2, 10, 1), edge(4, 30, 10)]);
    adjacency_list.insert(2, vec![edge(3, 10, 1)]);
    adjacency_list.insert(3, vec![edge(4, 20, 1)]);
    adjacency_list.insert(4, vec![]);
    adjacency_list.insert(9, vec![]);
    RouteGraph { adjacency_list, turn_restrictions: vec![], positions: positions(&[1, 2, 3, 4, 9]) }
}

#[test]
fn guided_search_unknown_nodes_give_none() {
    let g = line_graph();
    let mut guide = PlainGuide::new();
    assert!(matches!(find_route_astar(&g, 100, 4, LIMIT, &mut guide), Ok(None)));
    assert!(matches!(find_route_astar(&g, 1, 100, LIMIT, &mut guide), Ok(None)));
}

#[test]
fn guided_search_missing_positions_are_errors() {
    let mut g = line_graph();
    g.positions = positions(&[2, 3, 4]);
    let mut guide = PlainGuide::new();
    match find_route_astar(&g, 1, 4, LIMIT, &mut guide) {
        Err(GraphError::InvalidOsmData(m)) => assert_eq!(m, "Start node 1 not found"),
        other => panic!("unexpected {:?}", other.map(|r| r.map(|x| x.nodes))),
    }
    g.positions = positions(&[1, 2, 3]);
    match find_route_astar(&g, 1, 4, LIMIT, &mut guide) {
        Err(GraphError::InvalidOsmData(m)) => assert_eq!(m, "End node 4 not found"),
        other => panic!("unexpected {:?}", other.map(|r| r.map(|x| x.nodes))),
    }
}

#[test]
fn guided_search_takes_the_cheaper_route() {
    let g = line_graph();
    let mut guide = PlainGuide::new();
    let r = find_route_astar(&g, 1, 4, LIMIT, &mut guide).unwrap().unwrap();
    assert_eq!(r.nodes, vec![1, 2, 3, 4]);
    assert_eq!(r.ways, vec![10, 20]);
}

#[test]
fn guided_search_from_a_node_to_itself() {
    let g = line_graph();
    let mut guide = PlainGuide::new();
    let r = find_route_astar(&g, 2, 2, LIMIT, &mut guide).unwrap().unwrap();
    assert_eq!(r.nodes, vec![2]);
    assert!(r.ways.is_empty());
}

#[test]
fn guided_search_unreachable_gives_none() {
    let g = line_graph();
    let mut guide = PlainGuide::new();
    assert!(matches!(find_route_astar(&g, 1, 9, LIMIT, &mut guide), Ok(None)));
    assert!(matches!(find_route_astar(&g, 4, 1, LIMIT, &mut guide), Ok(None)));
}

#[test]
fn guided_search_stops_at_the_iteration_limit() {
    let g = line_graph();
    let mut guide = PlainGuide::new();
    assert!(matches!(find_route_astar(&g, 1, 4, 2, &mut guide), Ok(None)));
    assert!(matches!(find_route_astar(&g, 1, 1, 0, &mut guide), Ok(None)));
    let r = find_route_astar(&g, 1, 1, 1, &mut guide).unwrap().unwrap();
    assert_eq!(r.nodes, vec![1]);
}

#[test]
fn guided_search_skips_rejected_nodes() {
    let g = line_graph();
    let mut guide = PlainGuide::new();
    guide.rejected.insert(2);
    guide.rejected.insert(1);
    let r = find_route_astar(&g, 1, 4, LIMIT, &mut guide).unwrap().unwrap();
    assert_eq!(r.nodes, vec![1, 4]);
    assert_eq!(r.ways, vec![30]);
    assert_eq!(guide.expanded, vec![1]);
}

#[test]
fn guided_search_obeys_turn_restrictions() {
    let mut g = line_graph();
    g.turn_restrictions.push(TurnRestrictionData {
        restriction_type: TurnRestriction::Prohibitory,
        from_way: 10,
        via_node: 3,
        to_way: 20,
        except: vec![],
    });
    let mut guide = PlainGuide::new();
    let r = find_route_astar(&g, 1, 4, LIMIT, &mut guide).unwrap().unwrap();
    assert_eq!(r.nodes, vec![1, 4]);
    assert_eq!(r.ways, vec![30]);
}

#[test]
fn guided_search_first_step_follows_the_bearing() {
    // From 1, edges to 2, 3, 4, 5 and 6; only the best three scored steps
    // are tried first. 6 leads on to the end 7 cheaply but scores badly.
    let mut adjacency_list: HashMap<i64, Vec<RouteEdge>> = HashMap::new();
    adjacency_list.insert(1, vec![edge(2, 1, 5), edge(3, 1, 5), edge(4, 1, 5), edge(5, 1, 5), edge(6, 2, 1)]);
    for n in [2, 3, 4, 5] {
        adjacency_list.insert(n, vec![edge(7, 3, 5)]);
    }
    adjacency_list.insert(6, vec![edge(7, 4, 1)]);
    adjacency_list.insert(7, vec![]);
    let g = RouteGraph { adjacency_list, turn_restrictions: vec![], positions: positions(&[1, 2, 3, 4, 5, 6, 7]) };

    let mut guide = PlainGuide::new();
    let r = find_route_astar(&g, 1, 7, LIMIT, &mut guide).unwrap().unwrap();
    assert_eq!(r.nodes, vec![1, 6, 7]);

    let mut guide = PlainGuide::new();
    guide.scores = Some([(2, 10), (3, 50), (4, 50), (5, 40), (6, -1)].into_iter().collect());
    let r = find_route_astar(&g, 1, 7, LIMIT, &mut guide).unwrap().unwrap();
    // 3 and 4 tie at the top and keep their order; 5 is third; 2 and 6 are
    // not tried from the start.
    assert_eq!(r.nodes, vec![1, 3, 7]);
    assert_eq!(r.ways, vec![1, 3]);
    assert_eq!(guide.expanded[0], 1);
    assert!(!guide.expanded.contains(&6));
    assert!(!guide.expanded.contains(&2));
}

#[test]
fn guided_search_without_good_bearing_tries_all_but_the_way_back() {
    let g = line_graph();
    let mut guide = PlainGuide::new();
    guide.scores = Some(HashMap::new());
    let r = find_route_astar(&g, 1, 4, LIMIT, &mut guide).unwrap().unwrap();
    assert_eq!(r.nodes, vec![1, 2, 3, 4]);
}

#[test]
fn guided_search_detours_around_a_prohibited_turn() {
    // 1 - 2 on way 10, 2 - 3 on way 20, 1 - 4 - 3 on way 30; no turn from
    // way 10 onto way 20 at node 2.
    let mut adjacency_list: HashMap<i64, Vec<RouteEdge>> = HashMap::new();
    adjacency_list.insert(1, vec![edge(2, 10, 100), edge(4, 30, 100)]);
    adjacency_list.insert(2, vec![edge(1, 10, 100), edge(3, 20, 100)]);
    adjacency_list.insert(3, vec![edge(2, 20, 100), edge(4, 30, 100)]);
    adjacency_list.insert(4, vec![edge(1, 30, 100), edge(3, 30, 100)]);
    let restriction = TurnRestrictionData {
        restriction_type: TurnRestriction::Prohibitory,
        from_way: 10,
        via_node: 2,
        to_way: 20,
        except: vec![],
    };
    let g = RouteGraph { adjacency_list, turn_restrictions: vec![restriction], positions: positions(&[1, 2, 3, 4]) };
    let mut guide = PlainGuide::new();
    let r = find_route_astar(&g, 1, 3, LIMIT, &mut guide).unwrap().unwrap();
    assert_eq!(r.nodes, vec![1, 4, 3]);
    assert_eq!(r.ways, vec![30]);
}

#[test]
fn guided_search_route_keeps_an_older_step_after_a_cheaper_arrival() {
    // The step from 5 to 6 on way 4 was taken when 5 had been reached on
    // way 2; 5 is reached more cheaply later on way 3, from which the turn
    // onto way 4 is prohibited, and the route still runs 1-3-5-6.
    let mut adjacency_list: HashMap<i64, Vec<RouteEdge>> = HashMap::new();
    adjacency_list.insert(1, vec![edge(5, 2, 10), edge(3, 1, 1)]);
    adjacency_list.insert(3, vec![edge(5, 3, 1)]);
    adjacency_list.insert(5, vec![edge(6, 4, 1)]);
    adjacency_list.insert(6, vec![]);
    let restriction = TurnRestrictionData {
        restriction_type: TurnRestriction::Prohibitory,
        from_way: 3,
        via_node: 5,
        to_way: 4,
        except: vec![],
    };
    let g = RouteGraph { adjacency_list, turn_restrictions: vec![restriction], positions: positions(&[1, 3, 5, 6]) };
    let mut guide = PlainGuide::new();
    guide.estimates.insert(3, 1000);
    guide.estimates.insert(6, 2000);
    let r = find_route_astar(&g, 1, 6, LIMIT, &mut guide).unwrap().unwrap();
    assert_eq!(r.nodes, vec![1, 3, 5, 6]);
    assert_eq!(r.ways, vec![1, 3, 4]);
}

/// 1 -(way 10, 1)- 2 -(way 10, 1)- 3, and 1 -(way 20, 3)- 5 -(way 20, 3)- 3,
/// then 3 -(way 30, 1)- 4; turning from way 10 onto way 30 at 3 is prohibited.
/// The dearer arrival at 3 along way 20 comes after the cheaper one along
/// way 10 and is not taken up, so the route 1-5-3-4 is never found.
#[test]
fn guided_search_misses_a_route_behind_a_cheaper_arrival() {
    let mut adjacency_list: HashMap<i64, Vec<RouteEdge>> = HashMap::new();
    adjacency_list.insert(1, vec![edge(2, 10, 1), edge(5, 20, 3)]);
    adjacency_list.insert(2, vec![edge(3, 10, 1)]);
    adjacency_list.insert(5, vec![edge(3, 20, 3)]);
    adjacency_list.insert(3, vec![edge(4, 30, 1)]);
    adjacency_list.insert(4, vec![]);
    let g = RouteGraph {
        adjacency_list,
        turn_restrictions: vec![TurnRestrictionData {
            restriction_type: TurnRestriction::Prohibitory,
            from_way: 10,
            via_node: 3,
            to_way: 30,
            except: vec![],
        }],
        positions: positions(&[1, 2, 3, 4, 5]),
    };
    let mut guide = PlainGuide::new();
    assert!(matches!(find_route_astar(&g, 1, 4, LIMIT, &mut guide), Ok(None)));
    assert_eq!(guide.expanded, vec![1, 2, 3, 5]);
}

#[test]
fn guided_search_reaches_an_end_next_to_the_start_whatever_the_guide_rejects() {
    let mut adjacency_list: HashMap<i64, Vec<RouteEdge>> = HashMap::new();
    adjacency_list.insert(1, vec![edge(2, 10, 5), edge(2, 20, 3)]);
    adjacency_list.insert(2, vec![]);
    let g = RouteGraph { adjacency_list, turn_restrictions: vec![], positions: positions(&[1, 2]) };
    let mut guide = PlainGuide::new();
    guide.rejected.insert(1);
    guide.rejected.insert(2);
    let r = find_route_astar(&g, 1, 2, 2, &mut guide).unwrap().unwrap();
    assert_eq!(r.nodes, vec![1, 2]);
    assert_eq!(r.ways, vec![20]);
    // with a bearing that favours neither step, both are still tried
    let mut bearing_guide = PlainGuide::new();
    bearing_guide.scores = Some(HashMap::new());
    let r = find_route_astar(&g, 1, 2, 2, &mut bearing_guide).unwrap().unwrap();
    assert_eq!(r.nodes, vec![1, 2]);
    // one state taken from the open set is not enough to reach it
    let mut short_guide = PlainGuide::new();
    assert!(matches!(find_route_astar(&g, 1, 2, 1, &mut short_guide), Ok(None)));
}

#[test]
fn guided_search_goes_through_a_node_without_a_position() {
    let mut adjacency_list: HashMap<i64, Vec<RouteEdge>> = HashMap::new();
    adjacency_list.insert(1, vec![edge(2, 10, 4), edge(2, 11, 2)]);
    adjacency_list.insert(2, vec![edge(3, 20, 5)]);
    adjacency_list.insert(3, vec![]);
    // node 2 has no position, so the guide is never asked about it
    let g = RouteGraph { adjacency_list, turn_restrictions: vec![], positions: positions(&[1, 3]) };
    let mut guide = PlainGuide::new();
    guide.rejected.insert(1);
    guide.rejected.insert(2);
    guide.rejected.insert(3);
    let r = find_route_astar(&g, 1, 3, 4, &mut guide).unwrap().unwrap();
    assert_eq!(r.nodes, vec![1, 2, 3]);
    assert_eq!(r.ways, vec![11, 20]);
    // node 2 is expanded once for each way it was reached by
    assert_eq!(guide.expanded, vec![1, 2, 2]);
}
