use sparkling_router::landmarks::{compute_distance_cache, precompute_landmarks, DistanceMatrix};
use sparkling_router::routegraph::{RouteEdge, RouteGraph};
use sparkling_router::shortest::compute_single_source_distances;
use std::collections::HashMap;
use sparkling_router::osm::OsmGraph;
use sparkling_router::queue::{RouteQueue, RouteRequest};
use sparkling_router::types::{Node, Way};

fn request(id: &str, waypoints: &[i64]) -> RouteRequest {
    RouteRequest { id: id.to_string(), waypoints: waypoints.to_vec() }
}

#[test]
fn queue_takes_requests_in_order() {
    let mut q = RouteQueue::new(7, "car".to_string(), Some(2));
    assert_eq!(q.max_concurrency, 2);
    assert_eq!(q.graph_id, 7);
    assert_eq!(q.profile_id(), "car");
    assert!(q.is_empty());
    assert_eq!(q.enqueue(request("a", &[1, 2])), "a");
    assert_eq!(q.enqueue(request("b", &[3, 4])), "b");
    assert_eq!(q.enqueue(request("c", &[5, 6])), "c");
    assert_eq!(q.queue_size(), 3);
    assert_eq!(q.tasks_to_start(), 2);
    let first = q.take_next().unwrap();
    assert_eq!(first.id, "a");
    assert_eq!(first.waypoints, vec![1, 2]);
    assert_eq!(q.take_next().unwrap().id, "b");
    assert_eq!(q.active_count(), 2);
    assert_eq!(q.queue_size(), 1);
    assert_eq!(q.tasks_to_start(), 1);
    assert!(q.complete());
    assert_eq!(q.take_next().unwrap().id, "c");
    assert!(!q.complete());
    assert!(!q.complete());
    assert_eq!(q.active_count(), 0);
    assert!(q.take_next().is_none());
    assert!(q.is_empty());
}

#[test]
fn queue_gives_fresh_ids() {
    let mut q = RouteQueue::new(1, "foot".to_string(), None);
    assert!(q.max_concurrency >= 1);
    let id = q.enqueue(request("", &[1]));
    assert_eq!(id.chars().count(), 36);
    assert_eq!(id.chars().filter(|c| *c == '-').count(), 4);
    let cs: Vec<char> = id.chars().collect();
    for (i, c) in cs.iter().enumerate() {
        if [8, 13, 18, 23].contains(&i) {
            assert_eq!(*c, '-');
        } else {
            assert!(c.is_ascii_hexdigit() && !c.is_ascii_uppercase());
        }
    }
    assert_eq!(cs[14], '4');
    assert!(['8', '9', 'a', 'b'].contains(&cs[19]));
    let next = q.take_next().unwrap();
    assert_eq!(next.id, id);
    let other = q.enqueue(request("", &[1]));
    assert_ne!(other, id);
}

fn node(id: i64, tags: &[(&str, &str)]) -> Node {
    Node {
        id,
        lat_bits: 0,
        lon_bits: 0,
        tags: tags.iter().map(|(k, v)| (k.to_string(), v.to_string())).collect(),
    }
}

fn way(id: i64, refs: &[i64]) -> Way {
    Way { id, node_refs: refs.to_vec(), tags: vec![] }
}

fn landmark_graph() -> OsmGraph {
    let mut g = OsmGraph::new();
    g.nodes = vec![
        node(1, &[("highway", "crossing")]),
        node(2, &[]),
        node(3, &[("highway", "motorway_junction")]),
        node(4, &[("highway", "traffic_signals")]),
        node(5, &[]),
        node(6, &[]),
    ];
    g.ways = vec![way(10, &[2, 5, 6]), way(11, &[5, 6, 9]), way(12, &[6, 4])];
    g
}

#[test]
fn landmarks_prefer_junctions() {
    let g = landmark_graph();
    assert_eq!(precompute_landmarks(&g, 2, &vec![4, 5]), vec![1, 3]);
    assert_eq!(precompute_landmarks(&g, 1, &vec![]), vec![1]);
    assert_eq!(precompute_landmarks(&g, 0, &vec![4]), Vec::<i64>::new());
}

#[test]
fn landmarks_fill_from_grid_then_degree() {
    let g = landmark_graph();
    assert_eq!(precompute_landmarks(&g, 4, &vec![3, 4, 2]), vec![1, 3, 4, 2]);
    // Node 6 is referenced three times, 5 twice, then 2, 9 and 4 once each;
    // 9 is no node of the graph.
    assert_eq!(precompute_landmarks(&g, 4, &vec![]), vec![1, 3, 6, 5]);
    assert_eq!(precompute_landmarks(&g, 10, &vec![]), vec![1, 3, 6, 5, 2, 4]);
    assert_eq!(precompute_landmarks(&g, 10, &vec![4]), vec![1, 3, 4, 6, 5, 2]);
}

#[test]
fn landmarks_of_an_empty_graph() {
    let g = OsmGraph::new();
    assert_eq!(precompute_landmarks(&g, 3, &vec![]), Vec::<i64>::new());
}

#[test]
fn distance_matrix_keeps_the_last_distance() {
    let mut m = DistanceMatrix::new();
    assert_eq!(m.get_distance(1, 2), None);
    m.add(1, 2, 40);
    m.add(2, 1, 55);
    assert_eq!(m.get_distance(1, 2), Some(&40));
    assert_eq!(m.get_distance(2, 1), Some(&55));
    m.add(1, 2, 30);
    assert_eq!(m.get_distance(1, 2), Some(&30));
    assert_eq!(m.get_distance(1, 3), None);
}

fn small_route_graph() -> RouteGraph {
    // 1 -> 2 (4), 1 -> 3 (1), 3 -> 2 (2), 2 -> 4 (5), 4 -> 1 (1), 5 isolated
    let mut adjacency_list: HashMap<i64, Vec<RouteEdge>> = HashMap::new();
    let e = |to_node: i64, cost: i64| RouteEdge { to_node, way_id: 0, cost };
    adjacency_list.insert(1, vec![e(2, 4), e(3, 1)]);
    adjacency_list.insert(3, vec![e(2, 2)]);
    adjacency_list.insert(2, vec![e(4, 5)]);
    adjacency_list.insert(4, vec![e(1, 1)]);
    adjacency_list.insert(5, vec![]);
    RouteGraph { adjacency_list, turn_restrictions: vec![], positions: HashMap::new() }
}

#[test]
fn single_source_distances_are_shortest() {
    let g = small_route_graph();
    let d = compute_single_source_distances(&g, 1);
    assert_eq!(d.len(), 4);
    assert_eq!(d[&1], 0);
    assert_eq!(d[&3], 1);
    assert_eq!(d[&2], 3);
    assert_eq!(d[&4], 8);
    assert!(!d.contains_key(&5));
    let from5 = compute_single_source_distances(&g, 5);
    assert_eq!(from5.len(), 1);
    assert_eq!(from5[&5], 0);
}

#[test]
fn walks_past_the_largest_cost_are_not_followed() {
    let mut adjacency_list: HashMap<i64, Vec<RouteEdge>> = HashMap::new();
    adjacency_list.insert(1, vec![RouteEdge { to_node: 2, way_id: 0, cost: i64::MAX - 1 }]);
    adjacency_list.insert(2, vec![RouteEdge { to_node: 3, way_id: 0, cost: 5 }]);
    let g = RouteGraph { adjacency_list, turn_restrictions: vec![], positions: HashMap::new() };
    let d = compute_single_source_distances(&g, 1);
    assert_eq!(d[&2], i64::MAX - 1);
    assert!(!d.contains_key(&3));
}

#[test]
fn distance_cache_between_landmarks() {
    let g = small_route_graph();
    let m = compute_distance_cache(&g, &[1, 2, 5]);
    assert_eq!(m.get_distance(1, 2), Some(&3));
    assert_eq!(m.get_distance(2, 1), Some(&6));
    assert_eq!(m.get_distance(1, 1), None);
    assert_eq!(m.get_distance(1, 5), None);
    assert_eq!(m.get_distance(5, 1), None);
    assert_eq!(m.get_distance(1, 4), None);
}

/// Every node of this graph lies on a way; node 2 is a crossing.
fn connected_landmark_graph() -> OsmGraph {
    let mut g = OsmGraph::new();
    g.nodes = vec![node(1, &[]), node(2, &[("highway", "crossing")]), node(3, &[])];
    g.ways = vec![way(20, &[1, 2, 3]), way(21, &[3, 1])];
    g
}

#[test]
fn landmarks_count_when_every_node_is_on_a_way() {
    let g = connected_landmark_graph();
    assert_eq!(precompute_landmarks(&g, 2, &vec![]), vec![2, 1]);
    let all = precompute_landmarks(&g, 5, &vec![3]);
    assert_eq!(all, vec![2, 3, 1]);
    assert_eq!(precompute_landmarks(&g, 5, &vec![]).len(), 3);
}
