use java_nav::position::{Location, Point, Position, Range};
use java_nav::service::{ChangeOutcome, Service};
use java_nav::token::TokenKind;

const SHADOWING: &str = "class Test {\n  int value;\n  int compute(int value) {\n    return value;\n  }\n}\n";

fn at(line: u32, character: u32) -> Position {
    Position { line, character }
}

fn span(uri: &str, line: u32, from: u32, to: u32) -> Location {
    Location {
        uri: uri.to_string(),
        range: Range { start: at(line, from), end: at(line, to) },
    }
}

fn open(text: &str) -> Service {
    let mut service = Service::new().expect("the Java grammar loads");
    let outcome = service.on_change("file:///Test.java".to_string(), text.to_string(), 1);
    assert_eq!(outcome, ChangeOutcome::Indexed);
    service
}

#[test]
fn shadowing_parameter_wins_over_field() {
    let service = open(SHADOWING);
    let found = service.goto_definition("file:///Test.java", at(3, 11));
    assert_eq!(found, Some(span("file:///Test.java", 2, 18, 23)));
}

#[test]
fn field_declaration_resolves_to_itself() {
    let service = open(SHADOWING);
    let found = service.goto_definition("file:///Test.java", at(1, 6));
    assert_eq!(found, Some(span("file:///Test.java", 1, 6, 11)));
}

#[test]
fn class_name_resolves_to_its_declaration() {
    let service = open(SHADOWING);
    let found = service.goto_definition("file:///Test.java", at(0, 7));
    assert_eq!(found, Some(span("file:///Test.java", 0, 6, 10)));
}

#[test]
fn method_name_resolves_to_its_declaration() {
    let service = open(SHADOWING);
    let found = service.goto_definition("file:///Test.java", at(2, 8));
    assert_eq!(found, Some(span("file:///Test.java", 2, 6, 13)));
}

#[test]
fn parameter_types_are_in_declaration_order() {
    let service = open("class A {\n  void m(int a, String b) {}\n}\n");
    let found = service.candidates("m");
    assert_eq!(found.len(), 1);
    assert_eq!(
        found[0].kind,
        TokenKind::MethodName(vec!["int".to_string(), "String".to_string()])
    );
    assert_eq!(found[0].start, Point { row: 1, column: 7 });
    assert_eq!(found[0].end, Point { row: 1, column: 8 });
    let a = service.candidates("a");
    assert_eq!(a[0].kind, TokenKind::ParameterName(Some("int".to_string())));
    let b = service.candidates("b");
    assert_eq!(b[0].kind, TokenKind::ParameterName(Some("String".to_string())));
}

#[test]
fn query_on_keyword_or_punctuation_gives_nothing() {
    let service = open(SHADOWING);
    assert_eq!(service.goto_definition("file:///Test.java", at(0, 1)), None);
    assert_eq!(service.goto_definition("file:///Test.java", at(0, 11)), None);
    assert_eq!(service.goto_definition("file:///Test.java", at(3, 5)), None);
}

#[test]
fn unresolved_symbol_gives_nothing() {
    let service = open("class A {\n  int f() {\n    return other;\n  }\n}\n");
    assert_eq!(service.goto_definition("file:///Test.java", at(2, 12)), None);
}

#[test]
fn query_on_unknown_document_gives_nothing() {
    let service = open(SHADOWING);
    assert_eq!(service.goto_definition("file:///Other.java", at(3, 11)), None);
}

#[test]
fn closed_document_gives_nothing_and_leaves_no_entries() {
    let mut service = open(SHADOWING);
    assert!(service.did_close("file:///Test.java"));
    assert!(!service.is_open("file:///Test.java"));
    assert_eq!(service.goto_definition("file:///Test.java", at(3, 11)), None);
    assert!(service.candidates("value").is_empty());
    assert!(service.candidates("Test").is_empty());
    assert!(!service.did_close("file:///Test.java"));
}

#[test]
fn reindexing_unchanged_text_keeps_the_entries() {
    let mut service = open(SHADOWING);
    let before = service.candidates("value");
    let outcome = service.on_change("file:///Test.java".to_string(), SHADOWING.to_string(), 2);
    assert_eq!(outcome, ChangeOutcome::Indexed);
    let after = service.candidates("value");
    assert_eq!(before.len(), 2);
    assert_eq!(after.len(), 2);
    for (old, new) in before.iter().zip(after.iter()) {
        assert_eq!(old.uri, new.uri);
        assert_eq!(old.start, new.start);
        assert_eq!(old.end, new.end);
        assert_eq!(old.kind, new.kind);
        assert_eq!(old.scope_id.node, new.scope_id.node);
    }
    assert_eq!(
        service.goto_definition("file:///Test.java", at(3, 11)),
        Some(span("file:///Test.java", 2, 18, 23))
    );
}

#[test]
fn changed_text_replaces_the_entries() {
    let mut service = open(SHADOWING);
    let outcome = service.on_change(
        "file:///Test.java".to_string(),
        "class Other {\n  int count;\n}\n".to_string(),
        2,
    );
    assert_eq!(outcome, ChangeOutcome::Indexed);
    assert!(service.candidates("value").is_empty());
    assert!(service.candidates("Test").is_empty());
    assert_eq!(service.candidates("count").len(), 1);
    assert_eq!(
        service.goto_definition("file:///Test.java", at(1, 7)),
        Some(span("file:///Test.java", 1, 6, 11))
    );
}

#[test]
fn older_version_is_dropped() {
    let mut service = open(SHADOWING);
    let outcome = service.on_change("file:///Test.java".to_string(), SHADOWING.to_string(), 5);
    assert_eq!(outcome, ChangeOutcome::Indexed);
    let outcome = service.on_change(
        "file:///Test.java".to_string(),
        "class Other {}\n".to_string(),
        3,
    );
    assert_eq!(outcome, ChangeOutcome::Stale);
    assert_eq!(service.version_of("file:///Test.java"), Some(5));
    assert_eq!(service.candidates("Test").len(), 1);
    assert!(service.candidates("Other").is_empty());
}

#[test]
fn documents_do_not_disturb_each_other() {
    let mut service = open(SHADOWING);
    let outcome = service.on_change(
        "file:///B.java".to_string(),
        "class B {\n  int value;\n  int get() {\n    return value;\n  }\n}\n".to_string(),
        1,
    );
    assert_eq!(outcome, ChangeOutcome::Indexed);
    assert_eq!(
        service.goto_definition("file:///B.java", at(3, 11)),
        Some(span("file:///B.java", 1, 6, 11))
    );
    assert_eq!(
        service.goto_definition("file:///Test.java", at(3, 11)),
        Some(span("file:///Test.java", 2, 18, 23))
    );
    assert!(service.did_close("file:///B.java"));
    assert_eq!(service.candidates("value").len(), 2);
    assert_eq!(
        service.goto_definition("file:///Test.java", at(3, 11)),
        Some(span("file:///Test.java", 2, 18, 23))
    );
}

#[test]
fn local_variable_is_seen_in_its_block() {
    let service = open("class A {\n  int f() {\n    int n = 1;\n    return n;\n  }\n}\n");
    assert_eq!(
        service.goto_definition("file:///Test.java", at(3, 11)),
        Some(span("file:///Test.java", 2, 8, 9))
    );
}

#[test]
fn change_without_a_tree_leaves_the_service_as_it_was() {
    let mut service = open(SHADOWING);
    let outcome = service.install(
        "file:///Test.java".to_string(),
        "class Other {}\n".to_string(),
        2,
        None,
    );
    assert_eq!(outcome, ChangeOutcome::ParseFailed);
    assert_eq!(service.version_of("file:///Test.java"), Some(1));
    assert_eq!(service.candidates("Test").len(), 1);
    assert!(service.candidates("Other").is_empty());
}

#[test]
fn stale_change_is_told_before_anything_else() {
    let mut service = open(SHADOWING);
    let outcome = service.install("file:///Test.java".to_string(), String::new(), 0, None);
    assert_eq!(outcome, ChangeOutcome::Stale);
}

#[test]
fn installed_tree_is_indexed_under_the_text_given() {
    let mut service = Service::new().expect("the Java grammar loads");
    let text = "class K {}\n";
    let mut parser = java_nav::parser::JavaParser::new().expect("the Java grammar loads");
    let parsed = parser.parse(text, None);
    let outcome = service.install("file:///K.java".to_string(), text.to_string(), 4, parsed);
    assert_eq!(outcome, ChangeOutcome::Indexed);
    assert!(service.is_open("file:///K.java"));
    assert_eq!(service.version_of("file:///K.java"), Some(4));
    assert_eq!(service.candidates("K").len(), 1);
    assert_eq!(service.candidates("K")[0].scope_id.generation, 0);
}

#[test]
fn same_version_is_applied_again() {
    let mut service = open(SHADOWING);
    let outcome = service.on_change(
        "file:///Test.java".to_string(),
        "class Again {}\n".to_string(),
        1,
    );
    assert_eq!(outcome, ChangeOutcome::Indexed);
    assert_eq!(service.candidates("Again").len(), 1);
    assert!(service.candidates("Test").is_empty());
}

#[test]
fn each_change_is_indexed_under_a_new_generation() {
    let mut service = open(SHADOWING);
    assert_eq!(service.candidates("Test")[0].scope_id.generation, 0);
    service.on_change("file:///Test.java".to_string(), SHADOWING.to_string(), 2);
    assert_eq!(service.candidates("Test")[0].scope_id.generation, 1);
    service.on_change("file:///B.java".to_string(), "class B {}\n".to_string(), 1);
    assert_eq!(service.candidates("B")[0].scope_id.generation, 2);
    assert_eq!(service.candidates("Test")[0].scope_id.generation, 1);
}

#[test]
fn new_service_has_nothing_open() {
    let service = Service::new().expect("the Java grammar loads");
    assert!(!service.is_open("file:///Test.java"));
    assert_eq!(service.version_of("file:///Test.java"), None);
    assert!(service.candidates("Test").is_empty());
    assert_eq!(service.goto_definition("file:///Test.java", at(0, 0)), None);
}

#[test]
fn query_beyond_the_text_gives_nothing() {
    let service = open(SHADOWING);
    assert_eq!(service.goto_definition("file:///Test.java", at(500, 0)), None);
    assert_eq!(service.goto_definition("file:///Test.java", at(0, 500)), None);
    assert_eq!(service.goto_definition("file:///Test.java", at(u32::MAX, u32::MAX)), None);
}

#[test]
fn text_with_wide_characters_is_indexed_by_bytes() {
    let service = open("class A {\n  String é = \"ü\"; int x;\n}\n");
    let x = service.candidates("x");
    assert_eq!(x.len(), 1);
    assert_eq!(x[0].start, Point { row: 1, column: 24 });
    assert_eq!(service.candidates("é").len(), 1);
}

#[test]
fn service_starts_exactly_when_the_grammar_was_loaded() {
    let refused = Service::with_grammar(Err(java_nav::parser::GrammarError));
    assert!(matches!(refused, Err(java_nav::parser::GrammarError)));
    let started = Service::with_grammar(java_nav::parser::JavaParser::new());
    let mut service = started.expect("the Java grammar loads");
    assert!(!service.is_open("file:///Test.java"));
    assert!(service.candidates("Test").is_empty());
    let outcome = service.on_change("file:///Test.java".to_string(), SHADOWING.to_string(), 1);
    assert_eq!(outcome, ChangeOutcome::Indexed);
    assert_eq!(service.candidates("Test")[0].scope_id.generation, 0);
}
