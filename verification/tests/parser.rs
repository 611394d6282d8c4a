use java_nav::parser::JavaParser;
use java_nav::position::Point;
use java_nav::syntax::SyntaxTree;

const TEXT: &str = "class A {\n  int x;\n}\n";

#[test]
fn grammar_loads_and_text_is_parsed() {
    let mut parser = JavaParser::new().expect("the Java grammar loads");
    assert!(parser.parse(TEXT, None).is_some());
    assert!(parser.parse("", None).is_some());
}

#[test]
fn nodes_come_in_pre_order_with_their_parents() {
    let mut parser = JavaParser::new().expect("the Java grammar loads");
    let parsed = parser.parse(TEXT, None).expect("a tree");
    let nodes = parsed.raw_nodes();
    let kinds: Vec<&str> = nodes.iter().map(|n| n.kind.as_str()).collect();
    assert_eq!(
        kinds,
        vec![
            "program",
            "class_declaration",
            "class",
            "identifier",
            "class_body",
            "{",
            "field_declaration",
            "integral_type",
            "int",
            "variable_declarator",
            "identifier",
            ";",
            "}",
        ]
    );
    assert_eq!(nodes[0].parent, None);
    assert_eq!(nodes[1].parent, Some(nodes[0].id));
    assert_eq!(nodes[3].parent, Some(nodes[1].id));
    assert_eq!(nodes[10].parent, Some(nodes[9].id));
    assert_eq!(nodes[9].parent, Some(nodes[6].id));
    assert!(nodes[3].named);
    assert!(!nodes[2].named);
    assert_eq!(nodes[3].start, Point { row: 0, column: 6 });
    assert_eq!(nodes[3].end, Point { row: 0, column: 7 });
    assert_eq!((nodes[3].start_byte, nodes[3].end_byte), (6, 7));
    assert_eq!(nodes[10].start, Point { row: 1, column: 6 });
    assert_eq!((nodes[10].start_byte, nodes[10].end_byte), (16, 17));
}

#[test]
fn parsed_nodes_form_a_tree() {
    let mut parser = JavaParser::new().expect("the Java grammar loads");
    let parsed = parser.parse(TEXT, None).expect("a tree");
    let tree = SyntaxTree::from_raw(&parsed.raw_nodes(), TEXT).expect("the nodes form a tree");
    assert_eq!(tree.len(), 13);
    assert_eq!(tree.node(3).text, Some("A".to_string()));
    assert_eq!(tree.node(10).text, Some("x".to_string()));
    assert_eq!(tree.node(7).text, Some("int".to_string()));
}

#[test]
fn named_node_at_a_point_is_the_smallest_named_one() {
    let mut parser = JavaParser::new().expect("the Java grammar loads");
    let parsed = parser.parse(TEXT, None).expect("a tree");
    let nodes = parsed.raw_nodes();
    assert_eq!(parsed.named_node_at(Point { row: 0, column: 6 }), Some(nodes[3].id));
    assert_eq!(parsed.named_node_at(Point { row: 1, column: 6 }), Some(nodes[10].id));
    assert_eq!(parsed.named_node_at(Point { row: 1, column: 3 }), Some(nodes[7].id));
    assert_eq!(parsed.named_node_at(Point { row: 0, column: 2 }), Some(nodes[1].id));
}

#[test]
fn tree_of_the_same_text_may_be_offered_again() {
    let mut parser = JavaParser::new().expect("the Java grammar loads");
    let first = parser.parse(TEXT, None).expect("a tree");
    let second = parser.parse(TEXT, Some(&first)).expect("a tree");
    let a: Vec<String> = first.raw_nodes().into_iter().map(|n| n.kind).collect();
    let b: Vec<String> = second.raw_nodes().into_iter().map(|n| n.kind).collect();
    assert_eq!(a, b);
}

#[test]
fn broken_text_still_gives_a_tree() {
    let mut parser = JavaParser::new().expect("the Java grammar loads");
    let text = "class { int ; )";
    let parsed = parser.parse(text, None).expect("a tree");
    assert!(SyntaxTree::from_raw(&parsed.raw_nodes(), text).is_some());
}

#[test]
fn one_parser_parses_text_after_text() {
    let mut parser = JavaParser::new().expect("the Java grammar loads");
    for text in ["class A {}", "", "not java at all", "class B { int x; }"] {
        assert!(parser.parse(text, None).is_some());
    }
}
