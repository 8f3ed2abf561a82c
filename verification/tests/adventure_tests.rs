use adventure_graph::adventure::Adventure;
use adventure_graph::adventure::AdventureNode;
use adventure_graph::adventure::MapElement;
use adventure_graph::adventure::NodeDetails;
use adventure_graph::adventure::Road;
use adventure_graph::pos::Pos;

fn level_node(name: &str) -> MapElement {
    MapElement::Node(AdventureNode {
        name: name.to_string(),
        details: NodeDetails::Level(name.to_string()),
    })
}

#[test]
fn new_graph_is_empty() {
    let a = Adventure::new();
    assert!(a.is_empty());
    assert_eq!(a.len(), 0);
    assert_eq!(a.get(&Pos::new(0, 0)), None);
}

#[test]
fn default_graph_is_empty() {
    let a = Adventure::default();
    assert!(a.is_empty());
    assert_eq!(a.len(), 0);
}

#[test]
fn insert_then_get() {
    let mut a = Adventure::new();
    a.insert(Pos::new(3, -7), MapElement::Road);
    a.insert(Pos::new(0, 0), level_node("intro"));
    assert_eq!(a.len(), 2);
    assert!(!a.is_empty());
    assert_eq!(a.get(&Pos::new(3, -7)), Some(&MapElement::Road));
    assert_eq!(a.get(&Pos::new(0, 0)), Some(&level_node("intro")));
    assert_eq!(a.get(&Pos::new(1, 0)), None);
}

#[test]
fn insert_overwrites_at_same_position() {
    let mut a = Adventure::new();
    a.insert(Pos::new(2, 2), MapElement::Road);
    a.insert(Pos::new(2, 2), level_node("cave"));
    assert_eq!(a.len(), 1);
    assert_eq!(a.get(&Pos::new(2, 2)), Some(&level_node("cave")));
}

#[test]
fn negative_and_sparse_positions_are_valid() {
    let mut a = Adventure::new();
    a.insert(Pos::new(-2147483648, 2147483647), MapElement::Road);
    a.insert(Pos::new(1000000, -1000000), level_node("far"));
    assert_eq!(a.len(), 2);
    assert_eq!(
        a.get(&Pos::new(-2147483648, 2147483647)),
        Some(&MapElement::Road)
    );
}

#[test]
fn entries_lists_all_pairs() {
    let mut a = Adventure::new();
    a.insert(Pos::new(0, 0), level_node("intro"));
    a.insert(Pos::new(1, 0), MapElement::Road);
    let es = a.entries();
    assert_eq!(es.len(), 2);
    assert_eq!(es[0], (Pos::new(0, 0), level_node("intro")));
    assert_eq!(es[1], (Pos::new(1, 0), MapElement::Road));
}

#[test]
fn road_record_is_a_plain_pair_of_ids() {
    let r = Road { start_id: 3, end_id: 9 };
    assert_eq!(r.start_id, 3);
    assert_eq!(r.end_id, 9);
}
