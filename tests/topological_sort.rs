use flust::ir::{Connection, Flow, GenerationError, Node};
use flust::topological_sort::TopologicalSort;

fn node(id: &str, plugin_type: &str) -> Node {
    Node {
        id: id.to_string(),
        plugin_type: plugin_type.to_string(),
        label: None,
        properties: Vec::new(),
        parent_id: None,
    }
}

fn conn(from: &str, to: &str) -> Connection {
    Connection {
        from: from.to_string(),
        to: to.to_string(),
        connection_type: Default::default(),
        variable_mapping: None,
    }
}

#[test]
fn test_simple_sort() {
    let flow = Flow {
        nodes: vec![node("a", "legacy-code"), node("b", "debug")],
        connections: vec![conn("a", "b")],
    };

    let sorted = TopologicalSort::sort(&flow).unwrap();
    assert_eq!(sorted, vec!["a", "b"]);
}

#[test]
fn two_cycle_is_detected() {
    let flow = Flow {
        nodes: vec![node("A", "debug"), node("B", "debug")],
        connections: vec![conn("A", "B"), conn("B", "A")],
    };
    assert!(matches!(TopologicalSort::sort(&flow), Err(GenerationError::CycleDetected)));
}

#[test]
fn sort_respects_edges_against_declaration_order() {
    let flow = Flow {
        nodes: vec![node("c", "debug"), node("b", "debug"), node("a", "debug"), node("d", "debug")],
        connections: vec![conn("a", "b"), conn("b", "c")],
    };
    let sorted = TopologicalSort::sort(&flow).unwrap();
    assert_eq!(sorted, vec!["a", "b", "c", "d"]);
}

#[test]
fn ties_follow_declaration_order() {
    let flow = Flow {
        nodes: vec![node("z", "debug"), node("y", "debug"), node("x", "debug")],
        connections: vec![],
    };
    assert_eq!(TopologicalSort::sort(&flow).unwrap(), vec!["z", "y", "x"]);
}

#[test]
fn unknown_endpoint_is_reported() {
    let flow = Flow {
        nodes: vec![node("a", "debug")],
        connections: vec![conn("a", "ghost")],
    };
    match TopologicalSort::sort(&flow) {
        Err(GenerationError::NodeNotFound(id)) => assert_eq!(id, "ghost"),
        other => panic!("unexpected {:?}", other),
    }
}
