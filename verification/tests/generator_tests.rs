use adventure_graph::adventure::AdventureNode;
use adventure_graph::adventure::MapElement;
use adventure_graph::adventure::NodeDetails;
use adventure_graph::generator::build_level_line;
use adventure_graph::generator::create_default_adventure;
use adventure_graph::generator::surviving_levels;
use adventure_graph::pos::Pos;

fn level_node(name: &str) -> MapElement {
    MapElement::Node(AdventureNode {
        name: name.to_string(),
        details: NodeDetails::Level(name.to_string()),
    })
}

fn names(list: &[&str]) -> Vec<String> {
    list.iter().map(|s| s.to_string()).collect()
}

#[test]
fn three_levels_all_load() {
    let a = create_default_adventure(
        &names(&["intro", "forest", "cave"]),
        &vec![true, true, true],
    );
    assert_eq!(a.len(), 5);
    assert_eq!(a.get(&Pos::new(0, 0)), Some(&level_node("intro")));
    assert_eq!(a.get(&Pos::new(1, 0)), Some(&MapElement::Road));
    assert_eq!(a.get(&Pos::new(2, 0)), Some(&level_node("forest")));
    assert_eq!(a.get(&Pos::new(3, 0)), Some(&MapElement::Road));
    assert_eq!(a.get(&Pos::new(4, 0)), Some(&level_node("cave")));
    assert_eq!(a.get(&Pos::new(5, 0)), None);
}

#[test]
fn failed_level_is_excluded_before_index_assignment() {
    let a = create_default_adventure(
        &names(&["intro", "forest", "cave"]),
        &vec![true, false, true],
    );
    assert_eq!(a.len(), 3);
    assert_eq!(a.get(&Pos::new(0, 0)), Some(&level_node("intro")));
    assert_eq!(a.get(&Pos::new(1, 0)), Some(&MapElement::Road));
    assert_eq!(a.get(&Pos::new(2, 0)), Some(&level_node("cave")));
    assert_eq!(a.get(&Pos::new(3, 0)), None);
    assert_eq!(a.get(&Pos::new(4, 0)), None);
}

#[test]
fn zero_levels_give_an_empty_graph() {
    let a = create_default_adventure(&names(&[]), &vec![]);
    assert!(a.is_empty());
}

#[test]
fn all_loads_failing_gives_an_empty_graph() {
    let a = create_default_adventure(&names(&["x", "y"]), &vec![false, false]);
    assert!(a.is_empty());
}

#[test]
fn one_level_has_a_single_node_and_no_road() {
    let a = create_default_adventure(&names(&["solo"]), &vec![true]);
    assert_eq!(a.len(), 1);
    assert_eq!(a.get(&Pos::new(0, 0)), Some(&level_node("solo")));
    assert_eq!(a.get(&Pos::new(1, 0)), None);
    assert_eq!(a.get(&Pos::new(-1, 0)), None);
}

#[test]
fn surviving_levels_keeps_order() {
    let sv = surviving_levels(
        &names(&["a", "b", "c", "d"]),
        &vec![false, true, true, false],
    );
    assert_eq!(sv, names(&["b", "c"]));
}

#[test]
fn build_level_line_strides_by_two() {
    let a = build_level_line(&names(&["p", "q"]));
    let es = a.entries();
    assert_eq!(es.len(), 3);
    assert_eq!(es[0], (Pos::new(0, 0), level_node("p")));
    assert_eq!(es[1], (Pos::new(1, 0), MapElement::Road));
    assert_eq!(es[2], (Pos::new(2, 0), level_node("q")));
}
