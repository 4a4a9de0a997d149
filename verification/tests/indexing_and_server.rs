use sparkling_router::edges::{insert_edge, remove_edge, retain_only_edge};
use sparkling_router::indexer::{
    filter_graph, find_alternative_node_on_way_indexed, has_mandatory_restriction_conflicts_indexed,
    index_restricted_nodes, is_way_kept, process_single_restriction, process_turn_restrictions, ways_by_node,
    RestrictionIndex,
};
use sparkling_router::osm::{OsmGraph, Profile, ProfilePenalties};
use sparkling_router::server::{
    default_max_count, find_route_with_code, idle_seconds, now_secs, route_err_of, route_err_response, route_for_request,
    route_error_code, secs_or_zero, should_evict, truncate_to_max_count, RouteErr, RouteFailure,
};
use sparkling_router::turns::TurnRestriction;
use sparkling_router::types::{Node, Relation, RelationMember, Way};
use std::collections::HashSet;

fn tags(pairs: &[(&str, &str)]) -> Vec<(String, String)> {
    pairs.iter().map(|(k, v)| (k.to_string(), v.to_string())).collect()
}

fn node(id: i64) -> Node {
    Node { id, lat_bits: 0, lon_bits: 0, tags: vec![] }
}

fn way(id: i64, refs: &[i64], t: &[(&str, &str)]) -> Way {
    Way { id, node_refs: refs.to_vec(), tags: tags(t) }
}

fn member(member_type: &str, ref_id: i64, role: &str) -> RelationMember {
    RelationMember { member_type: member_type.to_string(), ref_id, role: role.to_string() }
}

fn profile(vehicle: Option<&str>) -> Profile {
    Profile {
        key: "highway".to_string(),
        penalties: ProfilePenalties { default: 1, penalties: vec![] },
        vehicle_type: vehicle.map(|v| v.to_string()),
    }
}

#[test]
fn way_filter_by_vehicle_access() {
    let bus = profile(Some("psv"));
    assert!(is_way_kept(&bus, &way(1, &[], &[("highway", "primary")])));
    assert!(!is_way_kept(&bus, &way(1, &[], &[("name", "x")])));
    assert!(!is_way_kept(&bus, &way(1, &[], &[("highway", "primary"), ("access", "no")])));
    assert!(is_way_kept(&bus, &way(1, &[], &[("highway", "primary"), ("access", "no"), ("bus", "designated")])));
    assert!(!is_way_kept(&bus, &way(1, &[], &[("highway", "primary"), ("psv", "private")])));
    assert!(is_way_kept(&bus, &way(1, &[], &[("highway", "primary"), ("psv", "yes"), ("bus", "no")])));
    let any = profile(None);
    assert!(is_way_kept(&any, &way(1, &[], &[("highway", "primary"), ("access", "no")])));
    let boat = profile(Some("boat"));
    assert!(!is_way_kept(&boat, &way(1, &[], &[("highway", "primary"), ("access", "no"), ("boat", "yes")])));
}

#[test]
fn filter_graph_drops_unused_parts() {
    let mut g = OsmGraph::new();
    g.set_profile(profile(Some("motorcar")));
    g.nodes = vec![node(1), node(2), node(3), node(4)];
    g.ways = vec![way(10, &[1, 2], &[("highway", "primary")]), way(11, &[3, 4], &[("waterway", "river")])];
    g.relations = vec![
        Relation { id: 1, members: vec![], tags: tags(&[("type", "restriction")]) },
        Relation { id: 2, members: vec![], tags: tags(&[("type", "route")]) },
    ];
    filter_graph(&mut g);
    assert_eq!(g.ways.iter().map(|w| w.id).collect::<Vec<_>>(), vec![10]);
    assert_eq!(g.nodes.iter().map(|n| n.id).collect::<Vec<_>>(), vec![1, 2]);
    assert_eq!(g.relations.iter().map(|r| r.id).collect::<Vec<_>>(), vec![1]);
}

fn restriction_graph() -> OsmGraph {
    let mut g = OsmGraph::new();
    g.ways = vec![way(10, &[1, 2], &[]), way(20, &[2, 3], &[]), way(30, &[7, 8], &[])];
    g.relations = vec![
        Relation {
            id: 1,
            members: vec![member("way", 10, "from"), member("node", 2, "via"), member("way", 20, "to")],
            tags: tags(&[("type", "restriction"), ("restriction", "only_straight_on"), ("except", " bus ;; psv")]),
        },
        Relation {
            id: 2,
            members: vec![member("way", 10, "from"), member("node", 2, "via"), member("way", 30, "to")],
            tags: tags(&[("type", "restriction"), ("restriction", "no_left_turn")]),
        },
    ];
    g
}

#[test]
fn single_restriction_needs_meeting_ways() {
    let g = restriction_graph();
    let m = ways_by_node(&g.ways);
    let mut index = RestrictionIndex::new();
    assert!(process_single_restriction(&g.relations[0], &m, TurnRestriction::Mandatory, &mut index));
    assert!(!process_single_restriction(&g.relations[1], &m, TurnRestriction::Prohibitory, &mut index));
    assert_eq!(index.restrictions.len(), 1);
    let r = &index.restrictions[0];
    assert_eq!((r.from_way, r.via_node, r.to_way), (10, 2, 20));
    assert_eq!(r.except, vec!["bus".to_string(), "psv".to_string()]);
    assert!(index.restricted_nodes.contains(&2));
}

#[test]
fn turn_restrictions_of_a_graph() {
    let g = restriction_graph();
    let mut index = RestrictionIndex::new();
    process_turn_restrictions(&g, &mut index);
    assert_eq!(index.restrictions.len(), 1);
    assert_eq!(index.restrictions[0].restriction_type, TurnRestriction::Mandatory);
    let only: HashSet<i64> = index_restricted_nodes(&g);
    assert_eq!(only, [2].into_iter().collect());
    assert!(has_mandatory_restriction_conflicts_indexed(&only, 2));
    assert!(!has_mandatory_restriction_conflicts_indexed(&only, 3));
    assert_eq!(find_alternative_node_on_way_indexed(&g.ways, &only, 20, 3), None);
    assert_eq!(find_alternative_node_on_way_indexed(&g.ways, &only, 10, 2), Some(1));
    assert_eq!(find_alternative_node_on_way_indexed(&g.ways, &only, 99, 2), None);
}

#[test]
fn edge_lists_stay_sorted() {
    let mut es: Vec<(u32, u16)> = Vec::new();
    insert_edge(&mut es, 5, 1);
    insert_edge(&mut es, 2, 1);
    insert_edge(&mut es, 9, 1);
    insert_edge(&mut es, 5, 7);
    assert_eq!(es, vec![(2, 1), (5, 7), (9, 1)]);
    assert_eq!(remove_edge(&mut es, 5), Some(7));
    assert_eq!(remove_edge(&mut es, 5), None);
    retain_only_edge(&mut es, 9);
    assert_eq!(es, vec![(9, 1)]);
    retain_only_edge(&mut es, 4);
    assert!(es.is_empty());
}

#[test]
fn server_decisions() {
    assert_eq!(default_max_count(), 1);
    assert_eq!(idle_seconds(100, 40), 60);
    assert_eq!(idle_seconds(40, 100), 0);
    assert!(should_evict(true, 2000, 700, 1200));
    assert!(!should_evict(true, 1000, 700, 1200));
    assert!(!should_evict(false, 5000, 0, 1200));
    assert!(now_secs() > 1_600_000_000);
    let mut c = vec![5, 6, 7];
    truncate_to_max_count(&mut c, 2);
    assert_eq!(c, vec![5, 6]);
    truncate_to_max_count(&mut c, 0);
    assert_eq!(c, vec![5, 6]);
}

#[test]
fn route_codes() {
    assert_eq!(route_error_code(&Ok(vec![1, 2])), 0);
    assert_eq!(route_error_code(&Ok(vec![])), 1);
    assert_eq!(route_error_code(&Err(RouteFailure::InvalidReference(4))), 2);
    assert_eq!(route_error_code(&Err(RouteFailure::StepLimitExceeded)), 3);
    assert_eq!(route_err_of(RouteFailure::StepLimitExceeded), RouteErr::StepLimit);
    assert_eq!(route_err_response(RouteErr::InvalidNode), (400, "invalid node reference"));
    assert_eq!(route_err_response(RouteErr::NotLoaded).0, 404);
}

#[test]
fn routx_route_codes() {
    let mut g = routx::Graph::default();
    for (id, lat) in [(1, 0.0f32), (2, 0.01), (3, 0.02)] {
        g.set_node(routx::Node { id, osm_id: id, lat, lon: 0.0 });
    }
    g.set_edge(1, routx::Edge { to: 2, cost: 5.0 });
    g.set_edge(2, routx::Edge { to: 3, cost: 5.0 });
    let (code, nodes) = find_route_with_code(search(&g, 1, 3));
    assert_eq!((code, nodes), (0, vec![1, 2, 3]));
    let (code, nodes) = find_route_with_code(search(&g, 3, 1));
    assert_eq!((code, nodes.len()), (1, 0));
    let (code, _) = find_route_with_code(search(&g, 1, 42));
    assert_eq!(code, 2);
    assert_eq!(route_for_request(search(&g, 1, 42)), Err(RouteErr::InvalidNode));
    assert_eq!(route_for_request(search(&g, 1, 3)), Ok(vec![1, 2, 3]));
    assert_eq!(route_for_request(Err(RouteFailure::StepLimitExceeded)), Err(RouteErr::StepLimit));
}

fn search(g: &routx::Graph, from: i64, to: i64) -> Result<Vec<i64>, RouteFailure> {
    match routx::find_route_without_turn_around(g, from, to, 1000) {
        Ok(n) => Ok(n),
        Err(routx::AStarError::InvalidReference(x)) => Err(RouteFailure::InvalidReference(x)),
        Err(routx::AStarError::StepLimitExceeded) => Err(RouteFailure::StepLimitExceeded),
    }
}

#[test]
fn filtering_twice_changes_nothing() {
    let mut g = OsmGraph::new();
    g.set_profile(profile(Some("motorcar")));
    g.nodes = vec![node(1), node(2), node(3), node(4), node(5)];
    g.ways = vec![
        way(10, &[1, 2], &[("highway", "primary")]),
        way(11, &[3, 4], &[("highway", "primary"), ("motorcar", "no")]),
        way(12, &[2, 5], &[("highway", "residential")]),
    ];
    g.relations = vec![Relation { id: 1, members: vec![], tags: tags(&[("type", "restriction")]) }];
    filter_graph(&mut g);
    let ways: Vec<i64> = g.ways.iter().map(|w| w.id).collect();
    let nodes: Vec<i64> = g.nodes.iter().map(|n| n.id).collect();
    assert_eq!(ways, vec![10, 12]);
    assert_eq!(nodes, vec![1, 2, 5]);
    filter_graph(&mut g);
    assert_eq!(g.ways.iter().map(|w| w.id).collect::<Vec<_>>(), ways);
    assert_eq!(g.nodes.iter().map(|n| n.id).collect::<Vec<_>>(), nodes);
    assert_eq!(g.relations.len(), 1);
}

#[test]
fn an_evictable_graph_stays_evictable() {
    assert_eq!(idle_seconds(1000, 400), 600);
    assert_eq!(idle_seconds(400, 1000), 0);
    assert!(should_evict(true, 1600, 400, 1200));
    assert!(should_evict(true, 5000, 400, 1200));
    assert!(!should_evict(true, 1599, 400, 1200));
}

#[test]
fn clock_reading_before_the_epoch_is_zero() {
    assert_eq!(secs_or_zero(Some(1_700_000_000)), 1_700_000_000);
    assert_eq!(secs_or_zero(None), 0);
    assert!(now_secs() > 1_600_000_000);
}
