use sparkling_router::errors::GraphError;
use sparkling_router::restriction::{find_way_connection, flatten_restriction_nodes, get_node_after, get_node_before};
use sparkling_router::text::{levenshtein_distance, starts_with, str_eq, trimmed_pieces};
use sparkling_router::turns::{
    classify_restriction, collect_turn_restrictions, distinct_pieces, distinct_trimmed_pieces, is_turn_allowed,
    reconstruct_path_with_ways, restriction_from_relation, TurnRestriction, TurnRestrictionData,
};
use sparkling_router::types::{get_tag, Relation, RelationMember};
use std::collections::HashMap;

fn tags(pairs: &[(&str, &str)]) -> Vec<(String, String)> {
    pairs.iter().map(|(k, v)| (k.to_string(), v.to_string())).collect()
}

fn member(member_type: &str, ref_id: i64, role: &str) -> RelationMember {
    RelationMember { member_type: member_type.to_string(), ref_id, role: role.to_string() }
}

#[test]
fn levenshtein_counts_edits() {
    assert_eq!(levenshtein_distance("kitten", "sitting"), 3);
    assert_eq!(levenshtein_distance("", "abc"), 3);
    assert_eq!(levenshtein_distance("abc", ""), 3);
    assert_eq!(levenshtein_distance("same", "same"), 0);
    assert_eq!(levenshtein_distance("flaw", "lawn"), 2);
    assert_eq!(levenshtein_distance("Łódź", "Lodz"), 3);
}

#[test]
fn levenshtein_is_symmetric_on_examples() {
    assert_eq!(levenshtein_distance("Dworzec", "Dworcowa"), levenshtein_distance("Dworcowa", "Dworzec"));
}

#[test]
fn string_helpers() {
    assert!(str_eq("abc", "abc"));
    assert!(!str_eq("abc", "abd"));
    assert!(starts_with("only_left_turn", "only_"));
    assert!(!starts_with("no", "no_"));
    let s = " car ; bus;;hgv ";
    let r = trimmed_pieces(s);
    let pieces: Vec<String> = r.iter().map(|(a, b)| s.chars().skip(*a).take(b - a).collect()).collect();
    assert_eq!(pieces, vec!["car", "bus", "", "hgv"]);
}

#[test]
fn get_tag_takes_the_last_value() {
    let t = tags(&[("highway", "primary"), ("name", "A"), ("highway", "secondary")]);
    assert_eq!(get_tag(&t, "highway").map(|s| s.as_str()), Some("secondary"));
    assert_eq!(get_tag(&t, "oneway"), None);
}

#[test]
fn classify_restriction_values() {
    assert_eq!(classify_restriction("no_left_turn"), TurnRestriction::Prohibitory);
    assert_eq!(classify_restriction("only_straight_on"), TurnRestriction::Mandatory);
    assert_eq!(classify_restriction("give_way"), TurnRestriction::Inapplicable);
}

#[test]
fn way_connection_and_neighbours() {
    assert_eq!(find_way_connection(&[1, 2, 3], &[5, 3, 2]).unwrap(), (2, 1, 2));
    assert!(matches!(find_way_connection(&[1, 2], &[3, 4]), Err(GraphError::InvalidOsmData(_))));
    assert_eq!(get_node_before(&[7, 8, 9], 2).unwrap(), 8);
    assert!(get_node_before(&[7, 8, 9], 0).is_err());
    assert_eq!(get_node_after(&[7, 8, 9], 1).unwrap(), 9);
    assert!(get_node_after(&[7, 8, 9], 2).is_err());
}

#[test]
fn flatten_via_node_restriction() {
    let path = flatten_restriction_nodes(vec![vec![1, 2, 3], vec![3], vec![3, 4, 5]]).unwrap();
    assert_eq!(path, vec![2, 3, 4]);
}

#[test]
fn flatten_via_way_restriction() {
    // from 1-2-3, via way 3-6-7, to 7-8
    let path = flatten_restriction_nodes(vec![vec![1, 2, 3], vec![3, 6, 7], vec![7, 8]]).unwrap();
    assert_eq!(path, vec![2, 3, 6, 7, 8]);
    // a via way stored backwards repeats its far end
    let path = flatten_restriction_nodes(vec![vec![1, 2, 3], vec![7, 6, 3], vec![7, 8]]).unwrap();
    assert_eq!(path, vec![2, 3, 6, 7, 7, 8]);
}

#[test]
fn flatten_errors() {
    assert!(flatten_restriction_nodes(vec![]).is_err());
    assert!(flatten_restriction_nodes(vec![vec![3, 2], vec![3], vec![3, 4]]).is_err());
    assert!(flatten_restriction_nodes(vec![vec![1, 2], vec![5, 6], vec![7, 8]]).is_err());
}

fn restriction(kind: TurnRestriction, from: i64, via: i64, to: i64, except: &[&str]) -> TurnRestrictionData {
    TurnRestrictionData {
        restriction_type: kind,
        from_way: from,
        via_node: via,
        to_way: to,
        except: except.iter().map(|s| s.to_string()).collect(),
    }
}

#[test]
fn turn_rules() {
    let rs = vec![
        restriction(TurnRestriction::Prohibitory, 10, 5, 20, &[]),
        restriction(TurnRestriction::Mandatory, 11, 6, 21, &[]),
        restriction(TurnRestriction::Prohibitory, 12, 7, 22, &["car"]),
    ];
    assert!(is_turn_allowed(&rs, None, 5, 20));
    assert!(!is_turn_allowed(&rs, Some(10), 5, 20));
    assert!(is_turn_allowed(&rs, Some(10), 5, 30));
    assert!(is_turn_allowed(&rs, Some(11), 6, 21));
    assert!(!is_turn_allowed(&rs, Some(11), 6, 22));
    assert!(is_turn_allowed(&rs, Some(12), 7, 22));
}

#[test]
fn path_with_ways_lists_each_run_once() {
    let mut came_from: HashMap<i64, (i64, i64)> = HashMap::new();
    came_from.insert(2, (1, 100));
    came_from.insert(3, (2, 100));
    came_from.insert(4, (3, 200));
    let (nodes, ways) = reconstruct_path_with_ways(&came_from, 4);
    assert_eq!(nodes, vec![1, 2, 3, 4]);
    assert_eq!(ways, vec![100, 200]);
}

#[test]
fn relation_to_restriction() {
    let rel = Relation {
        id: 1,
        members: vec![member("way", 10, "from"), member("node", 5, "via"), member("way", 20, "to")],
        tags: tags(&[("type", "restriction"), ("restriction", "no_u_turn"), ("except", "bus;bicycle;bus")]),
    };
    let d = restriction_from_relation(&rel).unwrap();
    assert_eq!(d.restriction_type, TurnRestriction::Prohibitory);
    assert_eq!((d.from_way, d.via_node, d.to_way), (10, 5, 20));
    assert_eq!(d.except, vec!["bus".to_string(), "bicycle".to_string()]);
    let other = Relation { id: 2, members: vec![], tags: tags(&[("type", "multipolygon")]) };
    assert!(restriction_from_relation(&other).is_none());
    let all = collect_turn_restrictions(&vec![rel, other]);
    assert_eq!(all.len(), 1);
}

#[test]
fn except_pieces() {
    assert_eq!(distinct_pieces("a;b;a;"), vec!["a".to_string(), "b".to_string(), "".to_string()]);
    assert_eq!(distinct_trimmed_pieces(" a ; b;a;"), vec!["a".to_string(), "b".to_string()]);
}

#[test]
fn trimming_matches_std_white_space() {
    let s = "\u{3000}car\u{85};\u{2009}bus\t;\u{200B}x\u{200B}";
    let r = trimmed_pieces(s);
    let pieces: Vec<String> = r.iter().map(|(a, b)| s.chars().skip(*a).take(b - a).collect()).collect();
    let expected: Vec<String> = s.split(';').map(|p| p.trim().to_string()).collect();
    assert_eq!(pieces, expected);
    assert_eq!(pieces, vec!["car", "bus", "\u{200B}x\u{200B}"]);
}

#[test]
fn flatten_without_members_says_so() {
    assert_eq!(
        flatten_restriction_nodes(vec![]),
        Err(GraphError::InvalidOsmData("No members in restriction.".to_string()))
    );
}
