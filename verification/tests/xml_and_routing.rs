use sparkling_router::errors::GraphError;
use sparkling_router::osm::{OsmGraph, Profile, ProfilePenalties};
use sparkling_router::osmxml::{is_float_text, parse_attribute, read_osm_events, read_osm_xml, XmlItem};
use sparkling_router::routegraph::{build_routing_graph, SegmentCost};
use sparkling_router::turns::TurnRestriction;
use sparkling_router::types::{Node, Relation, RelationMember, Way};

const SAMPLE: &str = r#"<?xml version="1.0" encoding="UTF-8"?>
<osm version="0.6">
  <node id="1" lat="52.5" lon="13.4">
    <tag k="highway" v="crossing"/>
  </node>
  <node id="2" lat="52.6" lon="13.5"/>
  <node id="2" lat="52.7" lon="13.6"/>
  <way id="10">
    <nd ref="1"/>
    <nd ref="2"/>
    <tag k="highway" v="primary"/>
    <tag k="highway" v="secondary"/>
  </way>
  <relation id="100">
    <member type="way" ref="10" role="from"/>
    <member type="node" ref="2" role="via"/>
    <tag k="type" v="restriction"/>
  </relation>
</osm>"#;

#[test]
fn reads_nodes_ways_and_relations() {
    let el = read_osm_xml(SAMPLE).unwrap();
    assert_eq!(el.nodes.len(), 2);
    let n1 = &el.nodes[&1];
    assert_eq!(n1.lat, "52.5");
    assert_eq!(n1.lon, "13.4");
    assert_eq!(n1.tags, vec![("highway".to_string(), "crossing".to_string())]);
    // The later node with the same id replaces the earlier one.
    assert_eq!(el.nodes[&2].lat, "52.7");
    let w = &el.ways[&10];
    assert_eq!(w.node_refs, vec![1, 2]);
    assert_eq!(w.tags.len(), 2);
    let r = &el.relations[&100];
    assert_eq!(r.members.len(), 2);
    assert_eq!(r.members[0].member_type, "way");
    assert_eq!(r.members[0].ref_id, 10);
    assert_eq!(r.members[1].role, "via");
    assert_eq!(r.tags, vec![("type".to_string(), "restriction".to_string())]);
}

#[test]
fn reports_bad_attributes() {
    match read_osm_xml(r#"<osm><node id="x" lat="1" lon="2"/></osm>"#) {
        Err(GraphError::InvalidOsmData(m)) => assert_eq!(m, "Attribute 'id' missing or invalid for Node ID"),
        _ => panic!("expected invalid data"),
    }
    match read_osm_xml(r#"<osm><node id="1" lon="2"/></osm>"#) {
        Err(GraphError::InvalidOsmData(m)) => assert_eq!(m, "Attribute 'lat' missing or invalid for Node lat"),
        _ => panic!("expected invalid data"),
    }
    match read_osm_xml(r#"<osm><node id="1" lat="2"/></osm>"#) {
        Err(GraphError::InvalidOsmData(m)) => assert_eq!(m, "Attribute 'lon' missing or invalid for Node lon"),
        _ => panic!("expected invalid data"),
    }
    match read_osm_xml(r#"<osm><way id="4"><nd ref="a"/></way></osm>"#) {
        Err(GraphError::InvalidOsmData(m)) => assert_eq!(m, "Attribute 'ref' missing or invalid for Way nd ref"),
        _ => panic!("expected invalid data"),
    }
    match read_osm_xml(r#"<osm><relation id="4"><member type="way" role="to"/></relation></osm>"#) {
        Err(GraphError::InvalidOsmData(m)) => {
            assert_eq!(m, "Attribute 'ref' missing or invalid for Relation member ref")
        },
        _ => panic!("expected invalid data"),
    }
    // A node reference outside a way is ignored.
    assert!(read_osm_xml(r#"<osm><nd ref="a"/></osm>"#).unwrap().ways.is_empty());
}

#[test]
fn reports_malformed_xml() {
    assert!(matches!(read_osm_xml("<osm><tag></osm>"), Err(GraphError::XmlParsing(_))));
    // An element read before the reader fails is reported first.
    assert!(matches!(read_osm_xml("<osm><node></osm>"), Err(GraphError::InvalidOsmData(_))));
    assert!(matches!(read_osm_xml("<osm><way id=\"1\">"), Err(GraphError::XmlParsing(_))));
}

struct PerSegment;

impl SegmentCost for PerSegment {
    fn segment_cost(&self, from: &Node, to: &Node, base_cost: i64) -> i64 {
        base_cost * 10 + (to.id - from.id).abs()
    }
}

fn node(id: i64) -> Node {
    Node { id, lat_bits: 0, lon_bits: 0, tags: vec![] }
}

fn way(id: i64, refs: &[i64], tags: &[(&str, &str)]) -> Way {
    Way {
        id,
        node_refs: refs.to_vec(),
        tags: tags.iter().map(|(k, v)| (k.to_string(), v.to_string())).collect(),
    }
}

fn routing_graph() -> OsmGraph {
    let mut g = OsmGraph::new();
    g.set_profile(Profile {
        key: "highway".to_string(),
        penalties: ProfilePenalties { default: 5, penalties: vec![("primary".to_string(), 1)] },
        vehicle_type: None,
    });
    g.nodes = vec![node(1), node(2), node(3), node(8)];
    g.ways = vec![
        way(10, &[1, 2, 3], &[("highway", "primary")]),
        way(11, &[3, 1], &[("highway", "service"), ("oneway", "yes")]),
        way(12, &[2, 9], &[("junction", "roundabout")]),
    ];
    g.relations = vec![Relation {
        id: 100,
        members: vec![
            RelationMember { member_type: "way".to_string(), ref_id: 10, role: "from".to_string() },
            RelationMember { member_type: "node".to_string(), ref_id: 2, role: "via".to_string() },
            RelationMember { member_type: "way".to_string(), ref_id: 12, role: "to".to_string() },
        ],
        tags: vec![
            ("type".to_string(), "restriction".to_string()),
            ("restriction".to_string(), "no_left_turn".to_string()),
        ],
    }];
    g
}

fn edges(g: &sparkling_router::routegraph::RouteGraph, n: i64) -> Vec<(i64, i64, i64)> {
    g.adjacency_list[&n].iter().map(|e| (e.to_node, e.way_id, e.cost)).collect()
}

#[test]
fn routing_graph_edges() {
    let rg = build_routing_graph(&routing_graph(), &PerSegment);
    assert_eq!(edges(&rg, 1), vec![(2, 10, 11)]);
    assert_eq!(edges(&rg, 2), vec![(1, 10, 11), (3, 10, 11), (9, 12, 5000)]);
    assert_eq!(edges(&rg, 3), vec![(2, 10, 11), (1, 11, 52)]);
    assert_eq!(edges(&rg, 8), vec![]);
    assert!(!rg.adjacency_list.contains_key(&9));
    assert_eq!(rg.adjacency_list.len(), 4);
    assert_eq!(rg.turn_restrictions.len(), 1);
    assert_eq!(rg.turn_restrictions[0].from_way, 10);
    assert_eq!(rg.turn_restrictions[0].via_node, 2);
    assert_eq!(rg.turn_restrictions[0].to_way, 12);
}

#[test]
fn parse_attribute_reads_the_first_match_as_a_number() {
    let attrs = vec![
        ("id".to_string(), "42".to_string()),
        ("id".to_string(), "7".to_string()),
        ("ref".to_string(), "x1".to_string()),
        ("v".to_string(), "+5".to_string()),
    ];
    assert_eq!(parse_attribute(&attrs, "id", "Node ID").ok(), Some(42));
    assert_eq!(parse_attribute(&attrs, "v", "value").ok(), Some(5));
    match parse_attribute(&attrs, "ref", "Way nd ref") {
        Err(GraphError::InvalidOsmData(m)) => assert_eq!(m, "Way nd ref"),
        _ => panic!("expected an error"),
    }
    match parse_attribute(&attrs, "lat", "Node lat") {
        Err(GraphError::InvalidOsmData(m)) => assert_eq!(m, "Node lat"),
        _ => panic!("expected an error"),
    }
}

fn restriction_relation(id: i64, from: i64, via: i64, to: i64, kind: &str) -> Relation {
    Relation {
        id,
        members: vec![
            RelationMember { member_type: "way".to_string(), ref_id: from, role: "from".to_string() },
            RelationMember { member_type: "node".to_string(), ref_id: via, role: "via".to_string() },
            RelationMember { member_type: "way".to_string(), ref_id: to, role: "to".to_string() },
        ],
        tags: vec![("type".to_string(), "restriction".to_string()), ("restriction".to_string(), kind.to_string())],
    }
}

#[test]
fn routing_graph_has_one_restriction_per_relation() {
    let mut g = routing_graph();
    g.relations = vec![
        restriction_relation(1, 10, 2, 12, "only_straight_on"),
        restriction_relation(2, 12, 2, 10, "give_way"),
        restriction_relation(3, 10, 2, 12, "no_u_turn"),
        restriction_relation(4, 10, 2, 12, "no_u_turn"),
    ];
    let rg = build_routing_graph(&g, &PerSegment);
    let kinds: Vec<TurnRestriction> = rg.turn_restrictions.iter().map(|r| r.restriction_type.clone()).collect();
    assert_eq!(kinds, vec![TurnRestriction::Mandatory, TurnRestriction::Prohibitory, TurnRestriction::Prohibitory]);
    // both edges of a two-way segment carry its cost
    assert_eq!(edges(&rg, 1)[0].2, edges(&rg, 2)[0].2);
}

#[test]
fn parse_attribute_reads_the_whole_range_of_i64() {
    let read = |v: &str| parse_attribute(&vec![("id".to_string(), v.to_string())], "id", "bad").ok();
    assert_eq!(read("-9223372036854775808"), Some(i64::MIN));
    assert_eq!(read("9223372036854775807"), Some(i64::MAX));
    assert_eq!(read("9223372036854775808"), None);
    assert_eq!(read("-9223372036854775809"), None);
    assert_eq!(read("99999999999999999999"), None);
    assert_eq!(read("007"), Some(7));
    assert_eq!(read("-0"), Some(0));
    assert_eq!(read("-"), None);
    assert_eq!(read("+"), None);
    assert_eq!(read(""), None);
    assert_eq!(read(" 1"), None);
    assert_eq!(read("1_000"), None);
    assert_eq!(read("--1"), None);
}

#[test]
fn unreadable_coordinates_fail_where_they_stand() {
    match read_osm_xml("<osm><node id='1' lat='x' lon='1'/><node id='y' lat='1' lon='1'/></osm>") {
        Err(GraphError::InvalidOsmData(m)) => assert_eq!(m, "Attribute 'lat' missing or invalid for Node lat"),
        other => panic!("unexpected {:?}", other.is_ok()),
    }
    match read_osm_xml("<osm><node id='1' lat='1.5' lon='1e'/></osm>") {
        Err(GraphError::InvalidOsmData(m)) => assert_eq!(m, "Attribute 'lon' missing or invalid for Node lon"),
        other => panic!("unexpected {:?}", other.is_ok()),
    }
    let el = read_osm_xml("<osm><node id='1' lat='-52.5e0' lon='+.5'/></osm>").unwrap();
    assert_eq!(el.nodes[&1].lat, "-52.5e0");
    assert_eq!(el.nodes[&1].lon, "+.5");
}

#[test]
fn float_text_follows_the_float_reader() {
    for text in ["1", "-1", "+1.", ".5", "1.5e10", "1E-3", "2.e+7", "inf", "-Infinity", "NaN", "+nan", "007"] {
        assert!(is_float_text(text), "{}", text);
        assert!(text.parse::<f64>().is_ok(), "{}", text);
    }
    for text in ["", "+", "-", ".", "e5", "1e", "1e+", "1.2.3", " 1", "1 ", "0x10", "1_0", "infinit", "nana", "x"] {
        assert!(!is_float_text(text), "{}", text);
        assert!(text.parse::<f64>().is_err(), "{}", text);
    }
}

#[test]
fn events_are_read_as_the_document_would_be() {
    let attrs = |pairs: &[(&str, &str)]| pairs.iter().map(|(k, v)| (k.to_string(), v.to_string())).collect::<Vec<_>>();
    let items = vec![
        XmlItem::Start("osm".to_string(), vec![]),
        XmlItem::Start("node".to_string(), attrs(&[("id", "7"), ("lat", "1.5"), ("lon", "2")])),
        XmlItem::Start("tag".to_string(), attrs(&[("k", "name"), ("v", "x")])),
        XmlItem::End("tag".to_string()),
        XmlItem::End("node".to_string()),
        XmlItem::Other,
        XmlItem::End("osm".to_string()),
    ];
    let el = read_osm_events(items).unwrap();
    assert_eq!(el.nodes[&7].lat, "1.5");
    assert_eq!(el.nodes[&7].lon, "2");
    assert_eq!(el.nodes[&7].tags, vec![("name".to_string(), "x".to_string())]);
    let failing = vec![XmlItem::Start("osm".to_string(), vec![]), XmlItem::Failure("broken".to_string())];
    match read_osm_events(failing) {
        Err(GraphError::XmlParsing(m)) => assert_eq!(m, "broken"),
        other => panic!("unexpected {:?}", other.is_ok()),
    }
}
