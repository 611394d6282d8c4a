use java_nav::grammar::{role_of_kind, SyntacticRole};
use java_nav::text::{slice_text, str_eq};

#[test]
fn equal_texts_compare_equal() {
    assert!(str_eq("identifier", "identifier"));
    assert!(str_eq("", ""));
    assert!(str_eq("naïve", "naïve"));
}

#[test]
fn different_texts_compare_unequal() {
    assert!(!str_eq("identifier", "identifiers"));
    assert!(!str_eq("a", "b"));
    assert!(!str_eq("", "a"));
    assert!(!str_eq("abc", "abd"));
}

#[test]
fn slice_cuts_between_byte_offsets() {
    assert_eq!(slice_text("class Test", 6, 10), Some("Test".to_string()));
    assert_eq!(slice_text("class Test", 0, 5), Some("class".to_string()));
    assert_eq!(slice_text("class Test", 3, 3), Some(String::new()));
    assert_eq!(slice_text("class Test", 0, 10), Some("class Test".to_string()));
}

#[test]
fn slice_counts_bytes_not_characters() {
    // 'é' takes two bytes: "é x" is [0xC3, 0xA9, ' ', 'x'].
    assert_eq!(slice_text("é x", 3, 4), Some("x".to_string()));
    assert_eq!(slice_text("é x", 0, 2), Some("é".to_string()));
}

#[test]
fn slice_refuses_offsets_inside_a_character() {
    assert_eq!(slice_text("é x", 1, 3), None);
    assert_eq!(slice_text("é x", 0, 1), None);
}

#[test]
fn slice_refuses_offsets_out_of_order_or_out_of_the_text() {
    assert_eq!(slice_text("abc", 2, 1), None);
    assert_eq!(slice_text("abc", 0, 4), None);
    assert_eq!(slice_text("abc", 4, 4), None);
    assert_eq!(slice_text("", 0, 1), None);
    assert_eq!(slice_text("", 0, 0), Some(String::new()));
}

#[test]
fn every_indexed_kind_has_its_role() {
    assert_eq!(role_of_kind("identifier"), SyntacticRole::Identifier);
    assert_eq!(role_of_kind("class_declaration"), SyntacticRole::ClassDeclaration);
    assert_eq!(role_of_kind("class_body"), SyntacticRole::ClassBody);
    assert_eq!(role_of_kind("variable_declarator"), SyntacticRole::VariableDeclarator);
    assert_eq!(role_of_kind("field_declaration"), SyntacticRole::FieldDeclaration);
    assert_eq!(
        role_of_kind("local_variable_declaration"),
        SyntacticRole::LocalVariableDeclaration
    );
    assert_eq!(role_of_kind("method_declaration"), SyntacticRole::MethodDeclaration);
    assert_eq!(role_of_kind("formal_parameters"), SyntacticRole::FormalParameters);
    assert_eq!(role_of_kind("formal_parameter"), SyntacticRole::FormalParameter);
    assert_eq!(role_of_kind("integral_type"), SyntacticRole::PrimitiveType);
    assert_eq!(role_of_kind("floating_point_type"), SyntacticRole::PrimitiveType);
    assert_eq!(role_of_kind("boolean_type"), SyntacticRole::PrimitiveType);
    assert_eq!(role_of_kind("type_identifier"), SyntacticRole::NamedType);
}

#[test]
fn unknown_kinds_are_other() {
    assert_eq!(role_of_kind("program"), SyntacticRole::Other);
    assert_eq!(role_of_kind("block"), SyntacticRole::Other);
    assert_eq!(role_of_kind(""), SyntacticRole::Other);
    assert_eq!(role_of_kind("Identifier"), SyntacticRole::Other);
    assert_eq!(role_of_kind("identifier "), SyntacticRole::Other);
}

#[test]
fn type_roles_are_told_apart() {
    assert!(SyntacticRole::PrimitiveType.is_type_name());
    assert!(SyntacticRole::NamedType.is_type_name());
    assert!(!SyntacticRole::Identifier.is_type_name());
    assert!(SyntacticRole::Identifier.has_text());
    assert!(SyntacticRole::NamedType.has_text());
    assert!(!SyntacticRole::ClassBody.has_text());
    assert!(!SyntacticRole::Other.has_text());
}
