use java_nav::indexer::{
    classify_node, index_tree, next_named_sibling, type_of_parameter, types_of_parameters,
};
use java_nav::position::{Point, Span};
use java_nav::syntax::{RawNode, SyntaxTree};
use java_nav::token::{IndexEntry, ScopeId, TokenKind, TokenLocation};

const TEXT: &str = "class T { int v; int f(int v, String s) { int n; return v; } }";

fn at(column: usize) -> Point {
    Point { row: 0, column }
}

fn raw(index: usize, parent: Option<usize>, kind: &str, named: bool, from: usize, to: usize) -> RawNode {
    RawNode {
        id: 10 * (index + 1),
        parent: parent.map(|p| 10 * (p + 1)),
        kind: kind.to_string(),
        named,
        start_byte: from,
        end_byte: to,
        start: at(from),
        end: at(to),
    }
}

fn sample_nodes() -> Vec<RawNode> {
    vec![
        raw(0, None, "program", true, 0, 62),
        raw(1, Some(0), "class_declaration", true, 0, 62),
        raw(2, Some(1), "class", false, 0, 5),
        raw(3, Some(1), "identifier", true, 6, 7),
        raw(4, Some(1), "class_body", true, 8, 62),
        raw(5, Some(4), "{", false, 8, 9),
        raw(6, Some(4), "field_declaration", true, 10, 16),
        raw(7, Some(6), "integral_type", true, 10, 13),
        raw(8, Some(6), "variable_declarator", true, 14, 15),
        raw(9, Some(8), "identifier", true, 14, 15),
        raw(10, Some(6), ";", false, 15, 16),
        raw(11, Some(4), "method_declaration", true, 17, 60),
        raw(12, Some(11), "integral_type", true, 17, 20),
        raw(13, Some(11), "identifier", true, 21, 22),
        raw(14, Some(11), "formal_parameters", true, 22, 39),
        raw(15, Some(14), "(", false, 22, 23),
        raw(16, Some(14), "formal_parameter", true, 23, 28),
        raw(17, Some(16), "integral_type", true, 23, 26),
        raw(18, Some(16), "identifier", true, 27, 28),
        raw(19, Some(14), ",", false, 28, 29),
        raw(20, Some(14), "formal_parameter", true, 30, 38),
        raw(21, Some(20), "type_identifier", true, 30, 36),
        raw(22, Some(20), "identifier", true, 37, 38),
        raw(23, Some(14), ")", false, 38, 39),
        raw(24, Some(11), "block", true, 40, 60),
        raw(25, Some(24), "{", false, 40, 41),
        raw(26, Some(24), "local_variable_declaration", true, 42, 48),
        raw(27, Some(26), "integral_type", true, 42, 45),
        raw(28, Some(26), "variable_declarator", true, 46, 47),
        raw(29, Some(28), "identifier", true, 46, 47),
        raw(30, Some(26), ";", false, 47, 48),
        raw(31, Some(24), "return_statement", true, 49, 58),
        raw(32, Some(31), "return", false, 49, 55),
        raw(33, Some(31), "identifier", true, 56, 57),
        raw(34, Some(31), ";", false, 57, 58),
        raw(35, Some(24), "}", false, 59, 60),
        raw(36, Some(4), "}", false, 61, 62),
    ]
}

fn sample() -> SyntaxTree {
    SyntaxTree::from_raw(&sample_nodes(), TEXT).expect("the sample nodes form a tree")
}

fn entry(token: &str, from: usize, to: usize, kind: TokenKind, scope: usize) -> IndexEntry {
    IndexEntry {
        token: token.to_string(),
        location: TokenLocation {
            uri: "file:///T.java".to_string(),
            start: at(from),
            end: at(to),
            kind,
            scope_id: ScopeId { generation: 7, node: scope },
        },
    }
}

#[test]
fn class_name_is_scoped_to_its_declaration() {
    assert_eq!(classify_node(&sample(), 3), Some((TokenKind::ClassName, 1)));
}

#[test]
fn field_is_scoped_to_the_class_body() {
    assert_eq!(classify_node(&sample(), 9), Some((TokenKind::MemberVariable, 4)));
}

#[test]
fn method_name_carries_parameter_types_in_order() {
    assert_eq!(
        classify_node(&sample(), 13),
        Some((TokenKind::MethodName(vec!["int".to_string(), "String".to_string()]), 11))
    );
}

#[test]
fn parameter_carries_its_type_and_is_scoped_to_the_method() {
    let tree = sample();
    assert_eq!(
        classify_node(&tree, 18),
        Some((TokenKind::ParameterName(Some("int".to_string())), 11))
    );
    assert_eq!(
        classify_node(&tree, 22),
        Some((TokenKind::ParameterName(Some("String".to_string())), 11))
    );
}

#[test]
fn local_variable_is_scoped_to_the_holder_of_its_statement() {
    assert_eq!(
        classify_node(&sample(), 29),
        Some((TokenKind::LocalVariable(Span { start: at(42), end: at(48) }), 24))
    );
}

#[test]
fn reference_and_other_nodes_declare_nothing() {
    let tree = sample();
    assert_eq!(classify_node(&tree, 33), None);
    assert_eq!(classify_node(&tree, 0), None);
    assert_eq!(classify_node(&tree, 7), None);
    assert_eq!(classify_node(&tree, 21), None);
    assert_eq!(classify_node(&tree, 14), None);
}

#[test]
fn whole_tree_is_indexed_in_pre_order() {
    let entries = index_tree(&sample(), "file:///T.java", 7);
    let expected = vec![
        entry("T", 6, 7, TokenKind::ClassName, 1),
        entry("v", 14, 15, TokenKind::MemberVariable, 4),
        entry(
            "f",
            21,
            22,
            TokenKind::MethodName(vec!["int".to_string(), "String".to_string()]),
            11,
        ),
        entry("v", 27, 28, TokenKind::ParameterName(Some("int".to_string())), 11),
        entry("s", 37, 38, TokenKind::ParameterName(Some("String".to_string())), 11),
        entry("n", 46, 47, TokenKind::LocalVariable(Span { start: at(42), end: at(48) }), 24),
    ];
    assert_eq!(entries, expected);
}

#[test]
fn indexing_twice_gives_the_same_entries() {
    let tree = sample();
    assert_eq!(index_tree(&tree, "u", 3), index_tree(&tree, "u", 3));
}

#[test]
fn empty_tree_has_no_entries() {
    let tree = SyntaxTree::from_raw(&Vec::new(), "").expect("nothing to refuse");
    assert!(index_tree(&tree, "u", 0).is_empty());
}

#[test]
fn next_named_sibling_skips_anonymous_nodes() {
    let tree = sample();
    assert_eq!(next_named_sibling(&tree, 13), Some(14));
    assert_eq!(next_named_sibling(&tree, 16), Some(20));
    assert_eq!(next_named_sibling(&tree, 2), Some(3));
    assert_eq!(next_named_sibling(&tree, 20), None);
    assert_eq!(next_named_sibling(&tree, 24), None);
    assert_eq!(next_named_sibling(&tree, 0), None);
    assert_eq!(next_named_sibling(&tree, 36), None);
}

#[test]
fn parameter_types_of_a_list_come_in_source_order() {
    let tree = sample();
    assert_eq!(types_of_parameters(&tree, 14), vec!["int".to_string(), "String".to_string()]);
    assert!(types_of_parameters(&tree, 24).is_empty());
    assert!(types_of_parameters(&tree, 11).is_empty());
}

#[test]
fn parameter_type_is_the_first_type_child() {
    let tree = sample();
    assert_eq!(type_of_parameter(&tree, 16), Some("int".to_string()));
    assert_eq!(type_of_parameter(&tree, 20), Some("String".to_string()));
    assert_eq!(type_of_parameter(&tree, 14), None);
}

#[test]
fn parameter_without_a_known_type_has_none() {
    let mut nodes = sample_nodes();
    nodes[17].kind = "generic_type".to_string();
    let tree = SyntaxTree::from_raw(&nodes, TEXT).expect("the nodes form a tree");
    assert_eq!(classify_node(&tree, 18), Some((TokenKind::ParameterName(None), 11)));
    assert_eq!(
        classify_node(&tree, 13),
        Some((TokenKind::MethodName(vec!["String".to_string()]), 11))
    );
}

#[test]
fn method_without_a_parameter_list_has_no_types() {
    let mut nodes = sample_nodes();
    nodes[14].kind = "something_else".to_string();
    let tree = SyntaxTree::from_raw(&nodes, TEXT).expect("the nodes form a tree");
    assert_eq!(classify_node(&tree, 13), Some((TokenKind::MethodName(Vec::new()), 11)));
}

#[test]
fn field_outside_a_class_body_is_passed_over() {
    let mut nodes = sample_nodes();
    nodes[4].kind = "interface_body".to_string();
    let tree = SyntaxTree::from_raw(&nodes, TEXT).expect("the nodes form a tree");
    assert_eq!(classify_node(&tree, 9), None);
    assert_eq!(classify_node(&tree, 3), Some((TokenKind::ClassName, 1)));
}

#[test]
fn parameter_outside_a_method_is_passed_over() {
    let mut nodes = sample_nodes();
    nodes[11].kind = "constructor_declaration".to_string();
    let tree = SyntaxTree::from_raw(&nodes, TEXT).expect("the nodes form a tree");
    assert_eq!(classify_node(&tree, 18), None);
    assert_eq!(classify_node(&tree, 22), None);
    assert_eq!(classify_node(&tree, 13), None);
    let tokens: Vec<String> = index_tree(&tree, "u", 0).into_iter().map(|e| e.token).collect();
    assert_eq!(tokens, vec!["T".to_string(), "v".to_string(), "n".to_string()]);
}

#[test]
fn declarator_under_an_unknown_declaration_is_passed_over() {
    let mut nodes = sample_nodes();
    nodes[26].kind = "resource".to_string();
    let tree = SyntaxTree::from_raw(&nodes, TEXT).expect("the nodes form a tree");
    assert_eq!(classify_node(&tree, 29), None);
}

#[test]
fn identifier_without_a_parent_is_passed_over() {
    let nodes = vec![raw(0, None, "identifier", true, 6, 7)];
    let tree = SyntaxTree::from_raw(&nodes, TEXT).expect("the nodes form a tree");
    assert_eq!(classify_node(&tree, 0), None);
}

#[test]
fn identifier_without_text_is_passed_over() {
    let mut nodes = sample_nodes();
    nodes[3].end_byte = 1000;
    let tree = SyntaxTree::from_raw(&nodes, TEXT).expect("the nodes form a tree");
    assert_eq!(classify_node(&tree, 3), None);
}
