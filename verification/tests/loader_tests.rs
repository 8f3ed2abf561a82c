use adventure_graph::adventure::Adventure;
use adventure_graph::adventure::AdventureNode;
use adventure_graph::adventure::MapElement;
use adventure_graph::adventure::NodeDetails;
use adventure_graph::codec::CodecError;
use adventure_graph::loader::TileRequest;
use adventure_graph::loader::load_adventure;
use adventure_graph::loader::plan_requests;
use adventure_graph::pos::Pos;

fn node(name: &str) -> AdventureNode {
    AdventureNode {
        name: name.to_string(),
        details: NodeDetails::Level(name.to_string()),
    }
}

#[test]
fn every_entry_becomes_exactly_one_request() {
    let mut a = Adventure::new();
    a.insert(Pos::new(0, 0), MapElement::Node(node("intro")));
    a.insert(Pos::new(1, 0), MapElement::Road);
    a.insert(Pos::new(2, 0), MapElement::Node(node("cave")));
    let reqs = plan_requests(&a);
    assert_eq!(reqs.len(), 3);
    assert_eq!(reqs[0], TileRequest::NodeTile(Pos::new(0, 0), node("intro")));
    assert_eq!(reqs[1], TileRequest::RoadTile(Pos::new(1, 0)));
    assert_eq!(reqs[2], TileRequest::NodeTile(Pos::new(2, 0), node("cave")));
}

#[test]
fn an_empty_graph_plans_no_requests() {
    let a = Adventure::new();
    assert_eq!(plan_requests(&a), vec![]);
}

#[test]
fn load_adventure_parses_then_fans_out() {
    let text: Vec<char> = "(4,-2)=Road\n(0,0)=Node(name:\"hub\",details:Adventure(\"side\"))\n"
        .chars()
        .collect();
    let reqs = load_adventure(&text).unwrap();
    assert_eq!(reqs.len(), 2);
    assert_eq!(reqs[0], TileRequest::RoadTile(Pos::new(4, -2)));
    assert_eq!(
        reqs[1],
        TileRequest::NodeTile(
            Pos::new(0, 0),
            AdventureNode {
                name: "hub".to_string(),
                details: NodeDetails::Adventure("side".to_string()),
            }
        )
    );
}

#[test]
fn a_corrupt_file_loads_nothing() {
    let text: Vec<char> = "(4,-2)=Road\n(0,0)=Blob\n".chars().collect();
    assert_eq!(load_adventure(&text), Err(CodecError::Format));
}
