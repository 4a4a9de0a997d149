use sparkling_router::astar::{find_cheapest_route_segment, find_route_segment_astar, find_route_through_waypoints, RouteHeuristic};
use sparkling_router::builder::{listed_penalty_usable, EdgeCost, GraphBuilder, Penalty};
use sparkling_router::errors::GraphError;
use sparkling_router::graph::{GraphContainer, ProcessedGraph};
use sparkling_router::heap::{SearchState, StateHeap};
use sparkling_router::interner::StringInterner;
use sparkling_router::types::{Node, Profile, ProfilePenalties, Relation, RelationMember, Way};

struct UnitCost;

impl EdgeCost for UnitCost {
    fn segment_cost(&self, _from: &Node, _to: &Node, penalty: Penalty) -> u16 {
        match penalty {
            Penalty::Listed(bits) => (f64::from_bits(bits) * 10.0) as u16,
            Penalty::Default(p) => (p * 10) as u16,
        }
    }
}

struct NoEstimate;

impl RouteHeuristic for NoEstimate {
    fn estimate(&self, _graph: &ProcessedGraph, _node: u32, _end: u32, _next: Option<u32>) -> u32 {
        0
    }
}

fn tags(pairs: &[(&str, &str)]) -> Vec<(String, String)> {
    pairs.iter().map(|(k, v)| (k.to_string(), v.to_string())).collect()
}

fn node(id: i64) -> Node {
    Node { id, lat_bits: (id as f64).to_bits(), lon_bits: 0f64.to_bits(), tags: vec![] }
}

fn way(id: i64, refs: &[i64], t: &[(&str, &str)]) -> Way {
    Way { id, node_refs: refs.to_vec(), tags: tags(t) }
}

fn member(member_type: &str, ref_id: i64, role: &str) -> RelationMember {
    RelationMember { member_type: member_type.to_string(), ref_id, role: role.to_string() }
}

fn car_profile() -> Profile {
    Profile {
        id: "car".to_string(),
        key: "highway".to_string(),
        penalties: ProfilePenalties {
            default: None,
            penalties: vec![("primary".to_string(), 1.0f64.to_bits()), ("track".to_string(), 0.5f64.to_bits())],
        },
        access_tags: vec!["access".to_string(), "motor_vehicle".to_string()],
        oneway_tags: vec!["oneway".to_string()],
        except_tags: vec!["motorcar".to_string()],
    }
}

fn build(nodes: &Vec<Node>, ways: &Vec<Way>, rels: &Vec<Relation>) -> ProcessedGraph {
    let profile = car_profile();
    let b = GraphBuilder::new(&profile, nodes, ways, rels);
    b.build(&UnitCost).unwrap()
}

fn targets(g: &ProcessedGraph, osm: i64) -> Vec<i64> {
    let id = g.node_id_map[&osm];
    g.neighbors(id).iter().map(|(t, _)| g.nodes[*t as usize].external_id).collect()
}

#[test]
fn interner_numbers_strings_in_order() {
    let mut i = StringInterner::new();
    assert_eq!(i.intern("a"), 0);
    assert_eq!(i.intern("b"), 1);
    assert_eq!(i.intern("a"), 0);
    assert_eq!(i.len(), 2);
    assert_eq!(i.get("b"), Some(1));
    assert_eq!(i.get("c"), None);
}

#[test]
fn heap_pops_best_first() {
    let mut h = StateHeap::new();
    for (c, e) in [(5u32, 9u32), (1, 3), (2, 3), (0, 7)] {
        h.push(SearchState { cost: c, estimated_total_cost: e, node_id: c, prev_external_id: None });
    }
    let order: Vec<(u32, u32)> = std::iter::from_fn(|| h.pop()).map(|s| (s.estimated_total_cost, s.cost)).collect();
    assert_eq!(order, vec![(3, 2), (3, 1), (7, 0), (9, 5)]);
}

#[test]
fn builds_two_way_and_one_way_edges() {
    let nodes = vec![node(1), node(2), node(3), node(4)];
    let ways = vec![
        way(100, &[1, 2, 3], &[("highway", "primary")]),
        way(200, &[3, 4], &[("highway", "primary"), ("oneway", "yes")]),
    ];
    let g = build(&nodes, &ways, &vec![]);
    assert_eq!(g.nodes.len(), 4);
    assert_eq!(targets(&g, 2), vec![1, 3]);
    assert_eq!(targets(&g, 3), vec![2, 4]);
    assert!(targets(&g, 4).is_empty());
    assert_eq!(g.ways.len(), 2);
    let cost = g.neighbors(g.node_id_map[&1])[0].1;
    assert_eq!(cost, 10);
}

#[test]
fn skips_unusable_ways() {
    let nodes = vec![node(1), node(2), node(3)];
    let ways = vec![
        way(100, &[1, 2], &[("highway", "track")]),
        way(101, &[2, 3], &[("highway", "primary"), ("access", "no")]),
        way(102, &[1, 3], &[("highway", "footway")]),
    ];
    let g = build(&nodes, &ways, &vec![]);
    assert_eq!(g.nodes.len(), 0);
    assert_eq!(g.ways.len(), 0);
}

#[test]
fn explicit_permission_wins_over_denial() {
    let nodes = vec![node(1), node(2)];
    let ways = vec![way(100, &[1, 2], &[("highway", "primary"), ("access", "no"), ("motor_vehicle", "yes")])];
    let g = build(&nodes, &ways, &vec![]);
    assert_eq!(targets(&g, 1), vec![2]);
}

#[test]
fn reverse_oneway_and_roundabout() {
    let nodes = vec![node(1), node(2), node(3)];
    let ways = vec![
        way(100, &[1, 2], &[("highway", "primary"), ("oneway", "-1")]),
        way(101, &[2, 3], &[("highway", "primary"), ("junction", "roundabout")]),
    ];
    let g = build(&nodes, &ways, &vec![]);
    assert!(targets(&g, 1).is_empty());
    assert_eq!(targets(&g, 2), vec![1, 3]);
    assert!(targets(&g, 3).is_empty());
}

fn cross() -> (Vec<Node>, Vec<Way>) {
    // 1 - 2 - 3 west to east, 4 - 2 - 5 north to south
    let nodes = vec![node(1), node(2), node(3), node(4), node(5)];
    let ways = vec![
        way(100, &[1, 2, 3], &[("highway", "primary")]),
        way(200, &[4, 2, 5], &[("highway", "primary")]),
    ];
    (nodes, ways)
}

#[test]
fn prohibitory_restriction_removes_the_turn() {
    let (nodes, ways) = cross();
    let rels = vec![Relation {
        id: 1,
        members: vec![member("way", 100, "from"), member("node", 2, "via"), member("way", 200, "to")],
        tags: tags(&[("type", "restriction"), ("restriction", "no_right_turn")]),
    }];
    let g = build(&nodes, &ways, &rels);
    assert_eq!(g.nodes.len(), 6);
    let route = find_route_segment_astar(&g, 1, 5, None, None, &NoEstimate).unwrap();
    assert_eq!(route, None);
    let route = find_route_segment_astar(&g, 1, 3, None, None, &NoEstimate).unwrap();
    assert_eq!(route, Some(vec![1, 2, 3]));
    let route = find_route_segment_astar(&g, 3, 5, None, None, &NoEstimate).unwrap();
    assert_eq!(route, Some(vec![3, 2, 5]));
}

#[test]
fn mandatory_restriction_keeps_only_the_turn() {
    let (nodes, ways) = cross();
    let rels = vec![Relation {
        id: 1,
        members: vec![member("way", 100, "from"), member("node", 2, "via"), member("way", 200, "to")],
        tags: tags(&[("type", "restriction"), ("restriction", "only_right_turn")]),
    }];
    let g = build(&nodes, &ways, &rels);
    let route = find_route_segment_astar(&g, 1, 3, None, None, &NoEstimate).unwrap();
    assert_eq!(route, None);
    let route = find_route_segment_astar(&g, 1, 5, None, None, &NoEstimate).unwrap();
    assert_eq!(route, Some(vec![1, 2, 5]));
}

#[test]
fn exempted_restriction_is_ignored() {
    let (nodes, ways) = cross();
    let rels = vec![Relation {
        id: 1,
        members: vec![member("way", 100, "from"), member("node", 2, "via"), member("way", 200, "to")],
        tags: tags(&[("type", "restriction"), ("restriction", "no_right_turn"), ("except", "bicycle; motorcar")]),
    }];
    let g = build(&nodes, &ways, &rels);
    assert_eq!(g.nodes.len(), 5);
    let route = find_route_segment_astar(&g, 1, 5, None, None, &NoEstimate).unwrap();
    assert_eq!(route, Some(vec![1, 2, 5]));
}

#[test]
fn mode_specific_restriction_wins() {
    let (nodes, ways) = cross();
    let rels = vec![Relation {
        id: 1,
        members: vec![member("way", 100, "from"), member("node", 2, "via"), member("way", 200, "to")],
        tags: tags(&[("type", "restriction"), ("restriction", "no_right_turn"), ("restriction:motor_vehicle", "give_way")]),
    }];
    let g = build(&nodes, &ways, &rels);
    let route = find_route_segment_astar(&g, 1, 5, None, None, &NoEstimate).unwrap();
    assert_eq!(route, Some(vec![1, 2, 5]));
}

#[test]
fn broken_restriction_is_skipped() {
    let (nodes, ways) = cross();
    let rels = vec![Relation {
        id: 1,
        members: vec![member("way", 100, "from"), member("way", 200, "to")],
        tags: tags(&[("type", "restriction"), ("restriction", "no_right_turn")]),
    }];
    let g = build(&nodes, &ways, &rels);
    assert_eq!(g.nodes.len(), 5);
    let route = find_route_segment_astar(&g, 1, 5, None, None, &NoEstimate).unwrap();
    assert_eq!(route, Some(vec![1, 2, 5]));
}

#[test]
fn routing_errors_and_waypoints() {
    let (nodes, ways) = cross();
    let g = build(&nodes, &ways, &vec![]);
    assert!(matches!(find_route_segment_astar(&g, 1, 99, None, None, &NoEstimate), Err(GraphError::RoutingError(_))));
    let r = find_route_through_waypoints(&g, &[1, 2, 5], &NoEstimate).unwrap();
    assert_eq!(r, Some(vec![1, 2, 5]));
    // a waypoint at a dead end cannot be left without turning straight back
    let r = find_route_through_waypoints(&g, &[1, 3, 5], &NoEstimate).unwrap();
    assert_eq!(r, None);
    assert!(find_route_through_waypoints(&g, &[1], &NoEstimate).is_err());
}

#[test]
fn container_routes_by_profile() {
    let (nodes, ways) = cross();
    let g = build(&nodes, &ways, &vec![]);
    let mut c = GraphContainer::new();
    c.profiles.push(("car".to_string(), g));
    c.build_all_indices();
    assert_eq!(c.route("car", &[1, 3], &NoEstimate).unwrap(), Some(vec![1, 2, 3]));
    assert!(matches!(c.route("bike", &[1, 3], &NoEstimate), Err(GraphError::ProfileNotFound(_))));
}

/// Every edge of the graph joins nodes whose OSM nodes follow each other on
/// one of the graph's ways.
fn edges_lie_on_ways(g: &ProcessedGraph) -> bool {
    let lists: Vec<Vec<i64>> = g
        .ways
        .iter()
        .map(|w| w.node_ids.iter().map(|&n| g.nodes[n as usize].external_id).collect())
        .collect();
    (0..g.nodes.len()).all(|i| {
        g.neighbors(i as u32).iter().all(|&(t, _)| {
            let a = g.nodes[i].external_id;
            let b = g.nodes[t as usize].external_id;
            lists.iter().any(|l| l.windows(2).any(|w| (w[0] == a && w[1] == b) || (w[0] == b && w[1] == a)))
        })
    })
}

#[test]
fn built_edges_lie_on_ways() {
    let (nodes, ways) = cross();
    let rels = vec![
        Relation {
            id: 1,
            members: vec![member("way", 100, "from"), member("node", 2, "via"), member("way", 200, "to")],
            tags: tags(&[("type", "restriction"), ("restriction", "no_right_turn")]),
        },
        Relation {
            id: 2,
            members: vec![member("way", 200, "from"), member("node", 2, "via"), member("way", 100, "to")],
            tags: tags(&[("type", "restriction"), ("restriction", "only_left_turn")]),
        },
    ];
    let g = build(&nodes, &ways, &rels);
    assert!(g.nodes.len() > 5);
    assert!(edges_lie_on_ways(&g));
    let g = build(&nodes, &ways, &vec![]);
    assert!(edges_lie_on_ways(&g));
}

#[test]
fn routing_error_messages() {
    let (nodes, ways) = cross();
    let g = build(&nodes, &ways, &vec![]);
    assert_eq!(
        find_route_segment_astar(&g, 99, 1, None, None, &NoEstimate),
        Err(GraphError::RoutingError("Start node 99 not in graph".to_string()))
    );
    assert_eq!(
        find_route_segment_astar(&g, 1, -7, None, None, &NoEstimate),
        Err(GraphError::RoutingError("End node -7 not in graph".to_string()))
    );
    assert_eq!(
        find_route_through_waypoints(&g, &[5], &NoEstimate),
        Err(GraphError::RoutingError("At least 2 points are required".to_string()))
    );
    let mut c = GraphContainer::new();
    c.profiles.push(("car".to_string(), g));
    c.build_all_indices();
    assert_eq!(
        c.route("car", &[1], &NoEstimate),
        Err(GraphError::RoutingError("At least two waypoints are required for routing.".to_string()))
    );
}

#[test]
fn segment_from_a_node_to_itself() {
    let (nodes, ways) = cross();
    let g = build(&nodes, &ways, &vec![]);
    assert_eq!(find_route_segment_astar(&g, 2, 2, None, None, &NoEstimate), Ok(Some(vec![2])));
    assert_eq!(find_route_segment_astar(&g, 3, 3, Some(2), None, &NoEstimate), Ok(Some(vec![3])));
}

#[test]
fn waypoint_legs_do_not_turn_straight_back() {
    let (nodes, ways) = cross();
    let g = build(&nodes, &ways, &vec![]);
    // the leg from 2 to 1 would have to turn straight back at waypoint 2
    assert_eq!(find_route_through_waypoints(&g, &[1, 2, 1], &NoEstimate), Ok(None));
    // a repeated waypoint keeps the direction of arrival
    assert_eq!(find_route_through_waypoints(&g, &[1, 2, 2, 5], &NoEstimate), Ok(Some(vec![1, 2, 5])));
}

#[test]
fn built_edge_lists_are_sorted() {
    let (nodes, ways) = cross();
    let g = build(&nodes, &ways, &vec![]);
    for i in 0..g.nodes.len() {
        let targets: Vec<u32> = g.neighbors(i as u32).iter().map(|e| e.0).collect();
        assert!(targets.windows(2).all(|w| w[0] < w[1]));
    }
}

/// An estimate that overstates the distance from node 2 a thousandfold.
struct MisleadingEstimate;

impl RouteHeuristic for MisleadingEstimate {
    fn estimate(&self, graph: &ProcessedGraph, node: u32, _end: u32, _next: Option<u32>) -> u32 {
        if graph.nodes[node as usize].external_id == 2 {
            1000
        } else {
            0
        }
    }
}

#[test]
fn segment_search_follows_an_overstated_estimate() {
    let nodes = vec![node(1), node(2), node(3), node(4), node(5)];
    let ways = vec![
        way(100, &[1, 2, 3], &[("highway", "primary")]),
        way(300, &[1, 4, 5, 3], &[("highway", "primary")]),
    ];
    let g = build(&nodes, &ways, &vec![]);
    assert_eq!(find_route_segment_astar(&g, 1, 3, None, None, &NoEstimate), Ok(Some(vec![1, 2, 3])));
    // with the estimate overstated at 2, the dearer route through 4 and 5 is returned
    assert_eq!(find_route_segment_astar(&g, 1, 3, None, None, &MisleadingEstimate), Ok(Some(vec![1, 4, 5, 3])));
}

#[test]
fn listed_penalties_must_be_finite_and_at_least_one() {
    assert!(listed_penalty_usable(1.0f64.to_bits()));
    assert!(listed_penalty_usable(2.5f64.to_bits()));
    assert!(listed_penalty_usable(1e300f64.to_bits()));
    assert!(!listed_penalty_usable(0.5f64.to_bits()));
    assert!(!listed_penalty_usable(0.0f64.to_bits()));
    assert!(!listed_penalty_usable((-2.0f64).to_bits()));
    assert!(!listed_penalty_usable(f64::INFINITY.to_bits()));
    assert!(!listed_penalty_usable(f64::NAN.to_bits()));
    assert!(!listed_penalty_usable(f64::NEG_INFINITY.to_bits()));
    // a track way (penalty 0.5) gets no edges, a primary way does
    let nodes = vec![node(1), node(2), node(3)];
    let ways = vec![way(100, &[1, 2], &[("highway", "primary")]), way(300, &[2, 3], &[("highway", "track")])];
    let g = build(&nodes, &ways, &vec![]);
    assert_eq!(g.ways.len(), 1);
    assert_eq!(targets(&g, 1), vec![2]);
}

#[test]
fn waypoint_errors_name_the_first_missing_node() {
    assert_eq!(
        find_route_through_waypoints(&ProcessedGraph::new(), &[5], &NoEstimate),
        Err(GraphError::RoutingError("At least 2 points are required".to_string()))
    );
    let (nodes, ways) = cross();
    let g = build(&nodes, &ways, &vec![]);
    assert_eq!(
        find_route_through_waypoints(&g, &[77, 1, 3], &NoEstimate),
        Err(GraphError::RoutingError("Start node 77 not in graph".to_string()))
    );
    assert_eq!(
        find_route_through_waypoints(&g, &[1, 3, 88, 99], &NoEstimate),
        Err(GraphError::RoutingError("End node 88 not in graph".to_string()))
    );
}

#[test]
fn cheapest_segment_ignores_any_estimate() {
    let nodes = vec![node(1), node(2), node(3), node(4), node(5)];
    let ways = vec![
        way(100, &[1, 2, 3], &[("highway", "primary")]),
        way(300, &[1, 4, 5, 3], &[("highway", "primary")]),
    ];
    let g = build(&nodes, &ways, &vec![]);
    assert_eq!(find_cheapest_route_segment(&g, 1, 3, None), Ok(Some(vec![1, 2, 3])));
    assert_eq!(find_cheapest_route_segment(&g, 3, 1, None), Ok(Some(vec![3, 2, 1])));
    // arriving at 1 from 2, the way back through 2 is barred
    assert_eq!(find_cheapest_route_segment(&g, 1, 3, Some(2)), Ok(Some(vec![1, 4, 5, 3])));
    assert_eq!(find_cheapest_route_segment(&g, 1, 1, None), Ok(Some(vec![1])));
    assert!(matches!(find_cheapest_route_segment(&g, 9, 3, None), Err(GraphError::RoutingError(m)) if m == "Start node 9 not in graph"));
    assert!(matches!(find_cheapest_route_segment(&g, 1, 9, None), Err(GraphError::RoutingError(m)) if m == "End node 9 not in graph"));
}

#[test]
fn well_formedness_is_checked() {
    let nodes = vec![node(1), node(2), node(3)];
    let ways = vec![way(100, &[1, 2, 3], &[("highway", "primary")])];
    let g = build(&nodes, &ways, &vec![]);
    assert!(g.is_well_formed());
    let mut broken = build(&nodes, &ways, &vec![]);
    broken.edges.push((7, 1));
    assert!(!broken.is_well_formed());
    let mut stray = build(&nodes, &ways, &vec![]);
    stray.node_id_map.insert(42, 0);
    assert!(!stray.is_well_formed());
    assert!(!ProcessedGraph::new().is_well_formed());
    let mut container = GraphContainer::new();
    assert!(container.is_well_formed());
    container.profiles.push(("car".to_string(), g));
    assert!(container.is_well_formed());
    container.profiles.push(("foot".to_string(), ProcessedGraph::new()));
    assert!(!container.is_well_formed());
}

#[test]
fn repeated_restriction_reuses_its_clone_and_keeps_the_turn_removed() {
    let (nodes, ways) = cross();
    let restriction = |id: i64| Relation {
        id,
        members: vec![member("way", 100, "from"), member("node", 2, "via"), member("way", 200, "to")],
        tags: tags(&[("type", "restriction"), ("restriction", "no_right_turn")]),
    };
    let g = build(&nodes, &ways, &vec![restriction(1), restriction(2)]);
    // the second relation finds the clone that the first made, and no edge
    // left from 1 to the via node itself, so it is skipped
    assert_eq!(g.nodes.len(), 6);
    assert_eq!(find_route_segment_astar(&g, 1, 5, None, None, &NoEstimate).unwrap(), None);
    assert_eq!(find_route_segment_astar(&g, 1, 3, None, None, &NoEstimate).unwrap(), Some(vec![1, 2, 3]));
    assert_eq!(find_route_segment_astar(&g, 3, 5, None, None, &NoEstimate).unwrap(), Some(vec![3, 2, 5]));
    assert!(g.is_well_formed());
}
