use wotw_logic_map::graph::{
    assemble, connections, graph, nodes, positioned_nodes, Connection, ConnectionType, Graph,
};
use wotw_logic_map::logic::{check_targets, LogicNode};

type Table = Vec<LogicNode<(f32, f32)>>;

fn anchor(name: &str, position: Option<(f32, f32)>, connections: &[usize]) -> LogicNode<(f32, f32)> {
    LogicNode::Anchor {
        identifier: name.to_string(),
        position,
        connections: connections.to_vec(),
    }
}

fn leaf(name: &str, position: Option<(f32, f32)>) -> LogicNode<(f32, f32)> {
    LogicNode::Leaf { identifier: name.to_string(), position }
}

/// 0 A <-> 1 B, A -> 2 C, A -> 3 pickup, A -> 4 hidden quest, 5 hidden anchor -> A.
fn sample() -> Table {
    vec![
        anchor("A", Some((1.0, 2.0)), &[1, 2, 3, 4]),
        anchor("B", Some((3.5, -4.0)), &[0]),
        anchor("C", Some((0.0, 0.0)), &[]),
        leaf("A.Ore", Some((9.0, 9.5))),
        leaf("A.Quest", None),
        anchor("Hidden", None, &[0]),
    ]
}

fn as_tuples(connections: &[Connection]) -> Vec<(String, String, bool, ConnectionType)> {
    let mut tuples: Vec<_> = connections
        .iter()
        .map(|c| (c.start.clone(), c.end.clone(), c.unidirectional, c.kind()))
        .collect();
    tuples.sort_by(|a, b| (&a.0, &a.1).cmp(&(&b.0, &b.1)));
    tuples
}

fn names(graph: &Graph<(f32, f32)>) -> Vec<String> {
    graph.nodes().iter().map(|node| node.name.clone()).collect()
}

#[test]
fn position_filter_keeps_table_order() {
    assert_eq!(positioned_nodes(&sample()), vec![0, 1, 2, 3]);
}

#[test]
fn position_filter_of_unpositioned_table_is_empty() {
    let table: Table = vec![anchor("A", None, &[]), leaf("L", None)];
    assert_eq!(positioned_nodes(&table), Vec::<usize>::new());
    let drawn = assemble(&table);
    assert!(drawn.nodes().is_empty());
    assert!(drawn.connections().is_empty());
}

#[test]
fn empty_table_gives_empty_graph() {
    let table: Table = Vec::new();
    let drawn = assemble(&table);
    assert!(drawn.nodes().is_empty());
    assert!(drawn.connections().is_empty());
}

#[test]
fn nodes_carry_name_and_position() {
    let table = sample();
    let drawn = nodes(&table, &vec![0, 1, 2, 3]);
    assert_eq!(drawn.len(), 4);
    assert_eq!(drawn[0].name, "A");
    assert_eq!(drawn[0].position, (1.0, 2.0));
    assert_eq!(drawn[1].name, "B");
    assert_eq!(drawn[1].position, (3.5, -4.0));
    assert_eq!(drawn[3].name, "A.Ore");
    assert_eq!(drawn[3].position, (9.0, 9.5));
}

#[test]
fn nodes_follow_the_selection() {
    let table = sample();
    let drawn = nodes(&table, &vec![3, 1]);
    assert_eq!(drawn.len(), 2);
    assert_eq!(drawn[0].name, "A.Ore");
    assert_eq!(drawn[1].name, "B");
}

#[test]
fn graph_holds_positioned_nodes_only() {
    let drawn = assemble(&sample());
    assert_eq!(names(&drawn), vec!["A", "B", "C", "A.Ore"]);
    for connection in drawn.connections() {
        assert_ne!(connection.start, "Hidden");
        assert_ne!(connection.end, "Hidden");
        assert_ne!(connection.end, "A.Quest");
    }
}

#[test]
fn opposite_connections_collapse_into_one() {
    let drawn = assemble(&sample());
    let between: Vec<_> = drawn
        .connections()
        .iter()
        .filter(|c| (c.start == "A" && c.end == "B") || (c.start == "B" && c.end == "A"))
        .collect();
    assert_eq!(between.len(), 1);
    assert!(!between[0].unidirectional);
}

#[test]
fn single_direction_gives_one_unidirectional_connection() {
    let drawn = assemble(&sample());
    let between: Vec<_> = drawn
        .connections()
        .iter()
        .filter(|c| (c.start == "A" && c.end == "C") || (c.start == "C" && c.end == "A"))
        .collect();
    assert_eq!(between.len(), 1);
    assert!(between[0].unidirectional);
    assert_eq!(between[0].start, "A");
    assert_eq!(between[0].end, "C");
}

#[test]
fn connections_of_sample_as_a_set() {
    let drawn = assemble(&sample());
    assert_eq!(
        as_tuples(drawn.connections()),
        vec![
            ("A".to_string(), "A.Ore".to_string(), true, ConnectionType::Leaf),
            ("A".to_string(), "C".to_string(), true, ConnectionType::Branch),
            ("B".to_string(), "A".to_string(), false, ConnectionType::Branch),
        ]
    );
}

#[test]
fn connections_come_out_last_candidate_first() {
    let table = sample();
    let drawn = connections(&table, &vec![0, 1, 2, 3]);
    let order: Vec<_> = drawn.iter().map(|c| (c.start.as_str(), c.end.as_str())).collect();
    assert_eq!(order, vec![("B", "A"), ("A", "A.Ore"), ("A", "C")]);
}

#[test]
fn kind_is_branch_exactly_for_anchor_targets() {
    let table = sample();
    let drawn = assemble(&table);
    for connection in drawn.connections() {
        let target = table.iter().find(|node| *node.identifier() == connection.end).unwrap();
        assert_eq!(connection.kind() == ConnectionType::Branch, target.is_anchor());
    }
}

#[test]
fn every_endpoint_is_a_node_of_the_graph() {
    let drawn = assemble(&sample());
    let known = names(&drawn);
    assert!(!drawn.connections().is_empty());
    for connection in drawn.connections() {
        assert!(known.contains(&connection.start));
        assert!(known.contains(&connection.end));
    }
}

#[test]
fn assembling_twice_gives_the_same_graph() {
    let table = sample();
    let first = assemble(&table);
    let second = assemble(&table);
    assert_eq!(names(&first), names(&second));
    assert_eq!(as_tuples(first.connections()), as_tuples(second.connections()));
    for (a, b) in first.nodes().iter().zip(second.nodes().iter()) {
        assert_eq!(a.position, b.position);
    }
}

#[test]
fn self_loop_is_unidirectional() {
    let table: Table = vec![anchor("Loop", Some((0.0, 0.0)), &[0])];
    let drawn = assemble(&table);
    assert_eq!(
        as_tuples(drawn.connections()),
        vec![("Loop".to_string(), "Loop".to_string(), true, ConnectionType::Branch)]
    );
}

#[test]
fn leaf_owns_no_connections() {
    let table: Table = vec![leaf("L", Some((0.0, 0.0))), anchor("A", Some((1.0, 1.0)), &[0])];
    let drawn = assemble(&table);
    assert_eq!(
        as_tuples(drawn.connections()),
        vec![("A".to_string(), "L".to_string(), true, ConnectionType::Leaf)]
    );
}

#[test]
fn repeated_connection_is_drawn_once_per_candidate() {
    let table: Table =
        vec![anchor("A", Some((0.0, 0.0)), &[1, 1]), anchor("B", Some((1.0, 1.0)), &[0])];
    let drawn = assemble(&table);
    assert_eq!(
        as_tuples(drawn.connections()),
        vec![
            ("A".to_string(), "B".to_string(), true, ConnectionType::Branch),
            ("B".to_string(), "A".to_string(), false, ConnectionType::Branch),
        ]
    );
}

#[test]
fn check_targets_accepts_consistent_table() {
    assert!(check_targets(&sample()));
    let empty: Table = Vec::new();
    assert!(check_targets(&empty));
}

#[test]
fn check_targets_rejects_dangling_connection() {
    let table: Table = vec![anchor("A", Some((0.0, 0.0)), &[0, 1])];
    assert!(!check_targets(&table));
}

#[test]
fn getters_hand_out_the_fields() {
    let drawn = assemble(&sample());
    assert_eq!(drawn.nodes().len(), drawn.nodes.len());
    assert_eq!(drawn.connections().len(), drawn.connections.len());
    let connection = &drawn.connections()[0];
    assert_eq!(connection.kind(), connection.kind);
}

#[test]
fn parse_failure_is_handed_on_unchanged() {
    let failed: Result<Table, String> = Err("unexpected end of input at line 3".to_string());
    match graph(failed) {
        Ok(_) => panic!("a failure gave a graph"),
        Err(message) => assert_eq!(message, "unexpected end of input at line 3"),
    }
}

#[test]
fn parsed_table_is_assembled() {
    let drawn = match graph(Ok(sample())) {
        Ok(drawn) => drawn,
        Err(message) => panic!("{}", message),
    };
    let direct = assemble(&sample());
    assert_eq!(names(&drawn), names(&direct));
    assert_eq!(as_tuples(drawn.connections()), as_tuples(direct.connections()));
    assert_eq!(drawn.connections().len(), 3);
}
