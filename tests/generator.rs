use flust::generator::{generate_node_code, generate_rust, generate_scope_code, indent_exec};
use flust::ir::{Connection, ConnectionType, Flow, GenerationError, JsonValue, Node};

fn s(v: &str) -> JsonValue {
    JsonValue::Str(v.to_string())
}

/// The value that a JSON document holds, in the library's model.
fn json(text: &str) -> JsonValue {
    from_serde(&serde_json::from_str(text).unwrap())
}

fn from_serde(v: &serde_json::Value) -> JsonValue {
    match v {
        serde_json::Value::Null => JsonValue::Null,
        serde_json::Value::Bool(b) => JsonValue::Bool(*b),
        serde_json::Value::Number(n) => JsonValue::Number(n.to_string()),
        serde_json::Value::String(t) => JsonValue::Str(t.clone()),
        serde_json::Value::Array(a) => {
            JsonValue::Array(a.iter().map(from_serde).collect(), v.to_string())
        }
        serde_json::Value::Object(m) => JsonValue::Object(
            m.iter().map(|(k, x)| (k.clone(), from_serde(x))).collect(),
            v.to_string(),
        ),
    }
}

fn node(id: &str, plugin_type: &str, props: Vec<(&str, JsonValue)>, parent: Option<&str>) -> Node {
    Node {
        id: id.to_string(),
        plugin_type: plugin_type.to_string(),
        label: None,
        properties: props.into_iter().map(|(k, v)| (k.to_string(), v)).collect(),
        parent_id: parent.map(|p| p.to_string()),
    }
}

fn conn(from: &str, to: &str, mapping: Option<Vec<(&str, &str)>>) -> Connection {
    Connection {
        from: from.to_string(),
        to: to.to_string(),
        connection_type: ConnectionType::Simple,
        variable_mapping: mapping
            .map(|m| m.into_iter().map(|(a, b)| (a.to_string(), b.to_string())).collect()),
    }
}

fn hierarchical_flow() -> Flow {
    let func_container = Node {
        id: "func_container".to_string(),
        plugin_type: "function-definition".to_string(),
        label: Some("My Func".to_string()),
        properties: vec![
            ("function_name".to_string(), s("my_func")),
            (
                "arguments".to_string(),
                json(r#"[{"name":"x","type":"i32"}]"#),
            ),
        ],
        parent_id: None,
    };
    let start_node = Node {
        id: "start".to_string(),
        plugin_type: "start-node".to_string(),
        label: Some("Start".to_string()),
        properties: Vec::new(),
        parent_id: Some("func_container".to_string()),
    };
    let debug_node = Node {
        id: "debug".to_string(),
        plugin_type: "debug".to_string(),
        label: Some("Debug".to_string()),
        properties: vec![("variable".to_string(), s("x"))],
        parent_id: Some("func_container".to_string()),
    };
    let conn1 = Connection {
        from: "start".to_string(),
        to: "debug".to_string(),
        connection_type: ConnectionType::Simple,
        variable_mapping: None,
    };
    let main_container = Node {
        id: "main_container".to_string(),
        plugin_type: "function-definition".to_string(),
        label: Some("Main".to_string()),
        properties: vec![("function_name".to_string(), s("main"))],
        parent_id: None,
    };
    let main_start = Node {
        id: "main_start".to_string(),
        plugin_type: "start-node".to_string(),
        label: Some("Start".to_string()),
        properties: Vec::new(),
        parent_id: Some("main_container".to_string()),
    };
    let call_node = Node {
        id: "call".to_string(),
        plugin_type: "call-function".to_string(),
        label: Some("Call".to_string()),
        properties: vec![
            ("target_function".to_string(), s("my_func")),
            (
                "arguments".to_string(),
                json(r#"[{"name":"x","type":"i32"}]"#),
            ),
        ],
        parent_id: Some("main_container".to_string()),
    };
    let conn2 = Connection {
        from: "main_start".to_string(),
        to: "call".to_string(),
        connection_type: ConnectionType::Simple,
        variable_mapping: Some(vec![("x".to_string(), "42".to_string())]),
    };
    Flow {
        nodes: vec![func_container, start_node, debug_node, main_container, main_start, call_node],
        connections: vec![conn1, conn2],
    }
}

#[test]
fn test_hierarchical_generation() {
    let flow = hierarchical_flow();
    let code = generate_rust(&flow).unwrap();

    println!("{}", code);

    assert!(code.contains("async fn my_func(x: i32) {"));
    assert!(code.contains("println!(\"{:?}\", x);"));
    assert!(code.contains("#[tokio::main]"));
    assert!(code.contains("async fn main() {"));
    assert!(code.contains("my_func(42).await;"));
}

#[test]
fn hierarchical_output_is_exact_and_definition_comes_first() {
    let code = generate_rust(&hierarchical_flow()).unwrap();
    assert_eq!(
        code,
        "async fn my_func(x: i32) {\n    println!(\"{:?}\", x);\n\n}\n\n#[tokio::main]\nasync fn main() {\n    my_func(42).await;\n}\n"
    );
    let def = code.find("async fn my_func").unwrap();
    let entry = code.find("async fn main").unwrap();
    assert!(def < entry);
}

#[test]
fn empty_flow_gives_minimal_program() {
    let flow = Flow { nodes: vec![], connections: vec![] };
    assert_eq!(generate_rust(&flow).unwrap(), "#[tokio::main]\nasync fn main() {\n}\n");
}

#[test]
fn legacy_code_passes_through_unchanged() {
    let flow = Flow {
        nodes: vec![node("l", "legacy-code", vec![("code", s("let x = 42;"))], None)],
        connections: vec![],
    };
    assert_eq!(
        generate_rust(&flow).unwrap(),
        "#[tokio::main]\nasync fn main() {\n    let x = 42;\n}\n"
    );
    let multi = Flow {
        nodes: vec![node("l", "legacy_code", vec![("code", s("let a = 1;\nlet b = 2;"))], None)],
        connections: vec![],
    };
    assert_eq!(
        generate_rust(&multi).unwrap(),
        "#[tokio::main]\nasync fn main() {\n    let a = 1;\n    let b = 2;\n}\n"
    );
}

#[test]
fn debug_with_and_without_label() {
    let labelled = node("d", "debug", vec![("variable", s("x")), ("label", s("Value"))], None);
    assert_eq!(generate_node_code(&labelled, None).unwrap(), "println!(\"Value: {:?}\", x);");
    let bare = node("d", "debug", vec![("variable", s("x"))], None);
    assert_eq!(generate_node_code(&bare, None).unwrap(), "println!(\"{:?}\", x);");
    let empty_label = node("d", "debug", vec![("variable", s("x")), ("label", s(""))], None);
    assert_eq!(generate_node_code(&empty_label, None).unwrap(), "println!(\"{:?}\", x);");
}

#[test]
fn call_with_return_variable_forms() {
    let mapping = vec![("a".to_string(), "v".to_string())];
    let args = r#"[{"name":"a"}]"#;
    let declared = node(
        "c",
        "call-function",
        vec![
            ("target_function", s("f")),
            ("arguments", json(args)),
            ("return_variable", s("r")),
            ("return_type", s("u8")),
            ("is_mutable", JsonValue::Bool(true)),
        ],
        None,
    );
    assert_eq!(generate_node_code(&declared, Some(&mapping)).unwrap(), "let mut r: u8 = f(v).await;");
    let assigned = node(
        "c",
        "call-function",
        vec![
            ("target_function", s("f")),
            ("arguments", json(args)),
            ("return_variable", s("r")),
            ("declare_variable", JsonValue::Bool(false)),
        ],
        None,
    );
    assert_eq!(generate_node_code(&assigned, Some(&mapping)).unwrap(), "r = f(v).await;");
    let no_args = node("c", "call-function", vec![("target_function", s("g"))], None);
    assert_eq!(generate_node_code(&no_args, None).unwrap(), "g().await;");
}

#[test]
fn call_without_target_is_missing_property() {
    let n = node("c", "call-function", vec![], None);
    match generate_node_code(&n, None) {
        Err(GenerationError::MissingProperty(k)) => assert_eq!(k, "target_function"),
        other => panic!("unexpected {:?}", other),
    }
}

#[test]
fn call_with_unmapped_argument_fails() {
    let n = node(
        "c",
        "call-function",
        vec![
            ("target_function", s("f")),
            ("arguments", json(r#"[{"name":"a"},{"name":"b"}]"#)),
        ],
        None,
    );
    let mapping = vec![("a".to_string(), "1".to_string())];
    match generate_node_code(&n, Some(&mapping)) {
        Err(GenerationError::UnmappedArgument(a)) => assert_eq!(a, "b"),
        other => panic!("unexpected {:?}", other),
    }
}

#[test]
fn unknown_plugin_type_fails() {
    let flow = Flow { nodes: vec![node("u", "mystery", vec![], None)], connections: vec![] };
    match generate_rust(&flow) {
        Err(GenerationError::UnknownPluginType(t)) => assert_eq!(t, "mystery"),
        other => panic!("unexpected {:?}", other),
    }
}

#[test]
fn cycle_in_scope_fails_generation() {
    let flow = Flow {
        nodes: vec![
            node("a", "legacy-code", vec![("code", s("a();"))], None),
            node("b", "legacy-code", vec![("code", s("b();"))], None),
        ],
        connections: vec![conn("a", "b", None), conn("b", "a", None)],
    };
    assert!(matches!(generate_rust(&flow), Err(GenerationError::CycleDetected)));
}

#[test]
fn scope_follows_connections() {
    let flow = Flow {
        nodes: vec![
            node("second", "legacy-code", vec![("code", s("two();"))], None),
            node("first", "legacy-code", vec![("code", s("one();"))], None),
        ],
        connections: vec![conn("first", "second", None)],
    };
    let members = vec![0usize, 1usize];
    assert_eq!(
        generate_scope_code(&flow.nodes, &flow.connections, &members).unwrap(),
        "    one();\n    two();\n"
    );
}

#[test]
fn function_with_return_type() {
    let flow = Flow {
        nodes: vec![
            node(
                "f",
                "function-definition",
                vec![
                    ("function_name", s("seven")),
                    ("return_type", s("i32")),
                    (
                        "arguments",
                        json(r#"[{"name":"a"},{"type":"u8"}]"#),
                    ),
                ],
                None,
            ),
            node("body", "legacy-code", vec![("code", s("7"))], Some("f")),
        ],
        connections: vec![],
    };
    assert_eq!(
        generate_rust(&flow).unwrap(),
        "async fn seven(a: i32, arg: u8) -> i32 {\n    7\n\n}\n\n#[tokio::main]\nasync fn main() {\n}\n"
    );
}

#[test]
fn indentation_drops_blank_lines_and_carriage_returns() {
    assert_eq!(indent_exec("a\r\n\n  \nb"), "    a\n    b\n");
    assert_eq!(indent_exec(""), "");
}

#[test]
fn legacy_code_context_uses_scalar_properties() {
    let n = node(
        "l",
        "legacy-code",
        vec![("code", s("x = {{n}}; y = {{flag}};")), ("n", JsonValue::Number("3".to_string())), ("flag", JsonValue::Bool(false))],
        None,
    );
    assert_eq!(generate_node_code(&n, None).unwrap(), "x = 3; y = false;");
}

#[test]
fn legacy_code_context_holds_composites_in_json_notation() {
    let n = node(
        "l",
        "legacy-code",
        vec![("code", s("v = {{list}};")), ("list", json(r#"[1,"a",{"k":null}]"#))],
        None,
    );
    assert_eq!(generate_node_code(&n, None).unwrap(), r#"v = [1,"a",{"k":null}];"#);
    let array_code = node("l", "legacy-code", vec![("code", json("[1,2]"))], None);
    assert_eq!(generate_node_code(&array_code, None).unwrap(), "[1,2]");
}

#[test]
fn connection_to_missing_node_fails_generation() {
    let flow = Flow {
        nodes: vec![node("s", "start-node", vec![], None)],
        connections: vec![conn("s", "ghost", None)],
    };
    match generate_rust(&flow) {
        Err(GenerationError::NodeNotFound(id)) => assert_eq!(id, "ghost"),
        other => panic!("unexpected {:?}", other),
    }
}

#[test]
fn error_messages_name_the_kind_and_identifier() {
    assert_eq!(GenerationError::NodeNotFound("n1".to_string()).message(), "Node not found: n1");
    assert_eq!(GenerationError::CycleDetected.message(), "Cycle detected in flow graph");
    assert_eq!(GenerationError::MissingProperty("k".to_string()).message(), "Missing property: k");
    assert_eq!(GenerationError::UnmappedArgument("a".to_string()).message(), "Argument not mapped: a");
    assert_eq!(GenerationError::UnknownPluginType("t".to_string()).message(), "Unknown plugin type: t");
}
