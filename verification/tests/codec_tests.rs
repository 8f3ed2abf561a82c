use adventure_graph::adventure::Adventure;
use adventure_graph::adventure::AdventureNode;
use adventure_graph::adventure::MapElement;
use adventure_graph::adventure::NodeDetails;
use adventure_graph::codec::CodecError;
use adventure_graph::codec::from_text;
use adventure_graph::codec::to_text;
use adventure_graph::pos::Pos;

fn level_node(name: &str) -> MapElement {
    MapElement::Node(AdventureNode {
        name: name.to_string(),
        details: NodeDetails::Level(name.to_string()),
    })
}

fn text_of(a: &Adventure) -> String {
    to_text(a).iter().collect()
}

fn parse(s: &str) -> Result<Adventure, CodecError> {
    let v: Vec<char> = s.chars().collect();
    from_text(&v)
}

#[test]
fn encoding_of_known_graph_is_exact() {
    let mut a = Adventure::new();
    a.insert(Pos::new(0, 0), level_node("intro"));
    a.insert(Pos::new(1, 0), MapElement::Road);
    a.insert(Pos::new(-3, 12), MapElement::Node(AdventureNode {
        name: "hub".to_string(),
        details: NodeDetails::Adventure("side".to_string()),
    }));
    assert_eq!(
        text_of(&a),
        "(0,0)=Node(name:\"intro\",details:Level(\"intro\"))\n\
         (1,0)=Road\n\
         (-3,12)=Node(name:\"hub\",details:Adventure(\"side\"))\n"
    );
}

#[test]
fn decoding_a_written_file_restores_every_entry() {
    let mut a = Adventure::new();
    a.insert(Pos::new(0, 0), level_node("intro"));
    a.insert(Pos::new(1, 0), MapElement::Road);
    a.insert(Pos::new(-5, 7), level_node("cave"));
    a.insert(Pos::new(2147483647, -2147483648), MapElement::Road);
    let b = parse(&text_of(&a)).unwrap();
    assert_eq!(b.len(), 4);
    assert_eq!(b.get(&Pos::new(0, 0)), Some(&level_node("intro")));
    assert_eq!(b.get(&Pos::new(1, 0)), Some(&MapElement::Road));
    assert_eq!(b.get(&Pos::new(-5, 7)), Some(&level_node("cave")));
    assert_eq!(
        b.get(&Pos::new(2147483647, -2147483648)),
        Some(&MapElement::Road)
    );
    assert_eq!(a, b);
}

#[test]
fn round_trip_keeps_quotes_and_backslashes_in_names() {
    let mut a = Adventure::new();
    a.insert(Pos::new(0, 0), level_node("a \"quoted\" name"));
    a.insert(Pos::new(2, 0), level_node("back\\slash"));
    a.insert(Pos::new(4, 0), level_node(""));
    let b = parse(&text_of(&a)).unwrap();
    assert_eq!(a, b);
    assert_eq!(
        b.get(&Pos::new(0, 0)),
        Some(&level_node("a \"quoted\" name"))
    );
}

#[test]
fn empty_graph_round_trips_to_empty() {
    let a = Adventure::new();
    assert_eq!(text_of(&a), "");
    let b = parse("").unwrap();
    assert!(b.is_empty());
    assert_eq!(a, b);
}

#[test]
fn unknown_variant_tag_is_a_format_error() {
    assert_eq!(parse("(0,0)=Tunnel\n"), Err(CodecError::Format));
}

#[test]
fn unknown_details_tag_is_a_format_error() {
    assert_eq!(
        parse("(0,0)=Node(name:\"x\",details:World(\"x\"))\n"),
        Err(CodecError::Format)
    );
}

#[test]
fn missing_field_is_a_format_error() {
    assert_eq!(parse("(0,0)=Node(\"x\")\n"), Err(CodecError::Format));
}

#[test]
fn malformed_number_is_a_format_error() {
    assert_eq!(parse("(a,0)=Road\n"), Err(CodecError::Format));
    assert_eq!(parse("(5000000000,0)=Road\n"), Err(CodecError::Format));
    assert_eq!(parse("(2147483648,0)=Road\n"), Err(CodecError::Format));
}

#[test]
fn truncated_file_is_a_format_error() {
    assert_eq!(parse("(0,0)=Road"), Err(CodecError::Format));
    assert_eq!(parse("(0,0)=Node(name:\"x\""), Err(CodecError::Format));
}

#[test]
fn extreme_coordinates_parse_back() {
    let ok = parse("(-2147483648,2147483647)=Road\n").unwrap();
    assert_eq!(
        ok.get(&Pos::new(-2147483648, 2147483647)),
        Some(&MapElement::Road)
    );
}

#[test]
fn duplicate_position_in_a_file_keeps_the_last_entry() {
    let a = parse("(0,0)=Road\n(0,0)=Node(name:\"x\",details:Level(\"x\"))\n").unwrap();
    assert_eq!(a.len(), 1);
    assert_eq!(a.get(&Pos::new(0, 0)), Some(&level_node("x")));
}
