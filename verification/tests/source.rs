use wotw_logic_map::graph::{assemble, Connection, ConnectionType, Node};
use wotw_logic_map::logic::LogicNode;
use wotw_logic_map::search::{anchor_pattern_for, connection_pattern_for};
use wotw_logic_map::source::{find_anchor_line, find_connection_line, SourceLocation};

const AREAS: &str = "anchor Foo\n  conn Bar\nanchor Bar\n  conn Foo\n";

fn node(name: &str) -> Node<(i32, i32)> {
    Node { name: name.to_string(), position: (0, 0) }
}

fn connection(start: &str, end: &str, unidirectional: bool, kind: ConnectionType) -> Connection {
    Connection { start: start.to_string(), end: end.to_string(), unidirectional, kind }
}

fn at(line: usize, char: usize) -> Option<SourceLocation> {
    Some(SourceLocation { line, char })
}

#[test]
fn node_lookup_yields_its_line() {
    assert_eq!(node("Foo").source_location(AREAS), at(0, 0));
    assert_eq!(node("Bar").source_location(AREAS), at(2, 0));
}

#[test]
fn connection_lookup_follows_the_direction_flag() {
    let both = connection("Foo", "Bar", false, ConnectionType::Branch);
    assert_eq!(both.source_location(AREAS, false), at(1, 2));
    assert_eq!(both.source_location(AREAS, true), at(3, 2));
}

#[test]
fn absent_node_is_not_found() {
    assert_eq!(node("Baz").source_location(AREAS), None);
    assert_eq!(node("Foo").source_location(""), None);
}

#[test]
fn absent_connection_is_not_found() {
    let missing = connection("Foo", "Baz", false, ConnectionType::Branch);
    assert_eq!(missing.source_location(AREAS, false), None);
    assert_eq!(missing.source_location(AREAS, true), None);
    let leaf = connection("Foo", "Bar", true, ConnectionType::Leaf);
    assert_eq!(leaf.source_location(AREAS, false), None);
}

#[test]
fn node_lookup_does_not_match_a_longer_name() {
    let areas = "anchor FooBar:\nanchor Foo.Bar:\nanchor Foo_2:\nanchor Foo:\n";
    assert_eq!(node("Foo").source_location(areas), at(3, 0));
    assert_eq!(node("Foo.Bar").source_location(areas), at(1, 0));
    assert_eq!(node("Fo").source_location(areas), None);
}

#[test]
fn name_is_searched_for_literally() {
    assert_eq!(node("Foo.Bar").source_location("anchor FooxBar\n"), None);
    assert_eq!(node("Foo.Bar").source_location("anchor Foo.Bar\n"), at(0, 0));
    assert_eq!(node("Fo+").source_location("anchor Foo\n"), None);
    assert_eq!(node("(Foo").source_location("anchor Foo\nanchor (Foo\n"), at(1, 0));
}

#[test]
fn anchor_is_found_on_later_lines_only_at_line_start() {
    let areas = "# anchor Foo\n  anchor Foo\nanchor   Foo at 1, 2:\n";
    assert_eq!(node("Foo").source_location(areas), at(2, 0));
}

#[test]
fn connection_is_sought_under_its_own_anchor() {
    let areas = "anchor A:\n  conn C:\nanchor B:\n    conn C:\nanchor C:\n";
    let from_b = connection("B", "C", true, ConnectionType::Branch);
    assert_eq!(from_b.source_location(areas, false), at(3, 4));
    let from_a = connection("A", "C", true, ConnectionType::Branch);
    assert_eq!(from_a.source_location(areas, false), at(1, 2));
}

#[test]
fn anchor_name_must_match_in_full() {
    let areas = "anchor AB:\n  conn C:\nanchor A:\n  conn C:\n";
    let from_a = connection("A", "C", true, ConnectionType::Branch);
    assert_eq!(from_a.source_location(areas, false), at(3, 2));
}

#[test]
fn leaf_connection_is_a_pickup_or_a_quest() {
    let areas = "anchor A:\n  conn Ore:\n  pickup Ore:\n  quest Task:\n  state Ore:\n";
    let ore = connection("A", "Ore", true, ConnectionType::Leaf);
    assert_eq!(ore.source_location(areas, false), at(2, 2));
    let task = connection("A", "Task", true, ConnectionType::Leaf);
    assert_eq!(task.source_location(areas, false), at(3, 2));
    let branch = connection("A", "Ore", true, ConnectionType::Branch);
    assert_eq!(branch.source_location(areas, false), at(1, 2));
}

#[test]
fn unidirectional_connection_is_found_whatever_the_flag() {
    let areas = "anchor A:\n  conn B:\nanchor B:\n";
    let one_way = connection("A", "B", true, ConnectionType::Branch);
    assert_eq!(one_way.source_location(areas, false), at(1, 2));
    assert_eq!(one_way.source_location(areas, true), at(1, 2));
    let reversed = connection("B", "A", true, ConnectionType::Branch);
    assert_eq!(reversed.source_location(areas, false), at(1, 2));
}

#[test]
fn bidirectional_connection_reports_the_chosen_direction_only() {
    let areas = "anchor A:\n  conn B:\nanchor B:\n";
    let both = connection("A", "B", false, ConnectionType::Branch);
    assert_eq!(both.source_location(areas, false), at(1, 2));
    assert_eq!(both.source_location(areas, true), None);
}

#[test]
fn connection_before_any_anchor_is_not_found() {
    let areas = "  conn B:\nanchor A:\n";
    let stray = connection("A", "B", true, ConnectionType::Branch);
    assert_eq!(stray.source_location(areas, false), None);
}

#[test]
fn from_index_counts_line_feeds_and_leading_spaces() {
    let text = "ab\n\n   cd\n  ";
    assert_eq!(SourceLocation::from_index(text, 0), SourceLocation { line: 0, char: 0 });
    assert_eq!(SourceLocation::from_index(text, 2), SourceLocation { line: 0, char: 0 });
    assert_eq!(SourceLocation::from_index(text, 3), SourceLocation { line: 1, char: 0 });
    assert_eq!(SourceLocation::from_index(text, 4), SourceLocation { line: 2, char: 3 });
    assert_eq!(SourceLocation::from_index(text, 5), SourceLocation { line: 2, char: 2 });
    assert_eq!(SourceLocation::from_index(text, 7), SourceLocation { line: 2, char: 0 });
}

#[test]
fn from_index_reports_zero_when_only_spaces_follow() {
    let text = "ab\n\n   cd\n  ";
    assert_eq!(SourceLocation::from_index(text, 10), SourceLocation { line: 3, char: 0 });
    assert_eq!(SourceLocation::from_index(text, 12), SourceLocation { line: 3, char: 0 });
    assert_eq!(SourceLocation::from_index("", 0), SourceLocation { line: 0, char: 0 });
}

#[test]
fn from_index_counts_bytes() {
    let text = "é\n  x";
    assert_eq!(SourceLocation::from_index(text, 3), SourceLocation { line: 1, char: 2 });
}

#[test]
fn find_connection_line_picks_the_first_offset_under_the_anchor() {
    let areas = "anchor A:\n  conn C:\nanchor B:\n  conn C:\n  conn C:\n";
    let branch = ConnectionType::Branch;
    assert_eq!(find_connection_line(areas, &vec![10, 30, 40], branch, "B", "C"), Some(30));
    assert_eq!(find_connection_line(areas, &vec![10, 30, 40], branch, "A", "C"), Some(10));
    assert_eq!(find_connection_line(areas, &vec![40, 30], branch, "B", "C"), Some(40));
    assert_eq!(find_connection_line(areas, &vec![10, 30, 40], branch, "C", "C"), None);
    assert_eq!(find_connection_line(areas, &vec![], branch, "A", "C"), None);
}

#[test]
fn find_connection_line_reads_the_line_at_each_offset() {
    let areas = "anchor A:\n  conn C:\nanchor B:\n  conn C:\n  conn C:\n";
    let branch = ConnectionType::Branch;
    assert_eq!(find_connection_line(areas, &vec![0, 5, 12, 20], branch, "A", "C"), None);
    assert_eq!(find_connection_line(areas, &vec![10], branch, "A", "D"), None);
    assert_eq!(find_connection_line(areas, &vec![10], ConnectionType::Leaf, "A", "C"), None);
    assert_eq!(find_connection_line(areas, &vec![50, 51, 1000], branch, "B", "C"), None);
    assert_eq!(find_connection_line(areas, &vec![1000, 30], branch, "B", "C"), Some(30));
}

#[test]
fn find_connection_line_skips_spaces_before_the_anchor_name() {
    let branch = ConnectionType::Branch;
    let spaced = "anchor    A at 1, 2:\n  conn C:\n";
    assert_eq!(find_connection_line(spaced, &vec![21], branch, "A", "C"), Some(21));
    assert_eq!(find_connection_line("anchorA\n  conn C:\n", &vec![8], branch, "A", "C"), Some(8));
    assert_eq!(find_connection_line("anchor A.B\n  conn C:\n", &vec![11], branch, "A", "C"), None);
}

#[test]
fn find_connection_line_takes_tabs_as_indentation() {
    let areas = "anchor A:\n\t conn C:\n";
    assert_eq!(find_connection_line(areas, &vec![10], ConnectionType::Branch, "A", "C"), Some(10));
    let location = SourceLocation::from_index(areas, 10);
    assert_eq!(location, SourceLocation { line: 1, char: 0 });
}

#[test]
fn find_anchor_line_picks_the_first_offset_that_declares_the_anchor() {
    let areas = "anchor AB:\nanchor A:\n  anchor A:\nanchor A:\n";
    assert_eq!(find_anchor_line(areas, &vec![0, 11, 33], "A"), Some(11));
    assert_eq!(find_anchor_line(areas, &vec![33, 11], "A"), Some(33));
    assert_eq!(find_anchor_line(areas, &vec![0], "AB"), Some(0));
    assert_eq!(find_anchor_line(areas, &vec![0, 21, 23, 44, 45, 1000], "A"), None);
    assert_eq!(find_anchor_line(areas, &vec![], "A"), None);
    assert_eq!(find_anchor_line("anchorA\n", &vec![0], "A"), None);
}

#[test]
fn patterns_are_written_out_in_full() {
    assert_eq!(anchor_pattern_for("Foo"), "(?m)^anchor +Foo(?:[^0-9A-Za-z_.]|$)");
    assert_eq!(anchor_pattern_for("A.B"), "(?m)^anchor +A\\.B(?:[^0-9A-Za-z_.]|$)");
    assert_eq!(
        connection_pattern_for(ConnectionType::Branch, "A.B"),
        "(?m)^[ \\t]*conn +A\\.B(?:[^0-9A-Za-z_.]|$)"
    );
    assert_eq!(
        connection_pattern_for(ConnectionType::Leaf, "Ore"),
        "(?m)^[ \\t]*(?:pickup|quest) +Ore(?:[^0-9A-Za-z_.]|$)"
    );
}

#[test]
fn derived_connection_is_found_in_the_text() {
    let table: Vec<LogicNode<(i32, i32)>> = vec![
        LogicNode::Anchor {
            identifier: "Foo".to_string(),
            position: Some((0, 0)),
            connections: vec![1],
        },
        LogicNode::Anchor {
            identifier: "Bar".to_string(),
            position: Some((1, 1)),
            connections: vec![0],
        },
    ];
    let drawn = assemble(&table);
    assert_eq!(drawn.connections().len(), 1);
    let only = &drawn.connections()[0];
    assert_eq!(only.start, "Bar");
    assert_eq!(only.end, "Foo");
    assert_eq!(only.source_location(AREAS, false), at(3, 2));
    assert_eq!(only.source_location(AREAS, true), at(1, 2));
    assert_eq!(drawn.nodes()[0].source_location(AREAS), at(0, 0));
}
