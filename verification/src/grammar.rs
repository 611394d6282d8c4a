//! The grammar adapter: the node kinds of the Java grammar that the index
//! reads, as an enumeration of syntactic roles.

use vstd::prelude::*;
use crate::text::str_eq;

verus! {

/// What a syntax node is, as far as indexing and resolution care.
#[derive(Clone, Copy, Debug, PartialEq, Eq, Structural)]
pub enum SyntacticRole {
    Identifier,
    ClassDeclaration,
    ClassBody,
    VariableDeclarator,
    FieldDeclaration,
    LocalVariableDeclaration,
    MethodDeclaration,
    FormalParameters,
    FormalParameter,
    PrimitiveType,
    NamedType,
    Other,
}

impl SyntacticRole {
    /// Whether a node of this role names a type: the token of a primitive
    /// or of a named type.
    pub open spec fn names_type(self) -> bool {
        self == SyntacticRole::PrimitiveType || self == SyntacticRole::NamedType
    }

    /// Whether the text of a node of this role is kept: identifiers and
    /// type tokens.
    pub open spec fn carries_text(self) -> bool {
        self == SyntacticRole::Identifier || self.names_type()
    }

    pub fn is_type_name(self) -> (b: bool)
        ensures
            b == self.names_type(),
    {
        match self {
            SyntacticRole::PrimitiveType | SyntacticRole::NamedType => true,
            _ => false,
        }
    }

    pub fn has_text(self) -> (b: bool)
        ensures
            b == self.carries_text(),
    {
        match self {
            SyntacticRole::Identifier | SyntacticRole::PrimitiveType | SyntacticRole::NamedType => true,
            _ => false,
        }
    }
}

/// The role that a grammar node kind stands for. Kinds that the index does
/// not read are `Other`.
pub open spec fn role_of(kind: Seq<char>) -> SyntacticRole {
    if kind == "identifier"@ {
        SyntacticRole::Identifier
    } else if kind == "class_declaration"@ {
        SyntacticRole::ClassDeclaration
    } else if kind == "class_body"@ {
        SyntacticRole::ClassBody
    } else if kind == "variable_declarator"@ {
        SyntacticRole::VariableDeclarator
    } else if kind == "field_declaration"@ {
        SyntacticRole::FieldDeclaration
    } else if kind == "local_variable_declaration"@ {
        SyntacticRole::LocalVariableDeclaration
    } else if kind == "method_declaration"@ {
        SyntacticRole::MethodDeclaration
    } else if kind == "formal_parameters"@ {
        SyntacticRole::FormalParameters
    } else if kind == "formal_parameter"@ {
        SyntacticRole::FormalParameter
    } else if kind == "integral_type"@ || kind == "floating_point_type"@ || kind
        == "boolean_type"@ {
        SyntacticRole::PrimitiveType
    } else if kind == "type_identifier"@ {
        SyntacticRole::NamedType
    } else {
        SyntacticRole::Other
    }
}

/// Maps a grammar node kind to its role.
pub fn role_of_kind(kind: &str) -> (role: SyntacticRole)
    ensures
        role == role_of(kind@),
{
    if str_eq(kind, "identifier") {
        SyntacticRole::Identifier
    } else if str_eq(kind, "class_declaration") {
        SyntacticRole::ClassDeclaration
    } else if str_eq(kind, "class_body") {
        SyntacticRole::ClassBody
    } else if str_eq(kind, "variable_declarator") {
        SyntacticRole::VariableDeclarator
    } else if str_eq(kind, "field_declaration") {
        SyntacticRole::FieldDeclaration
    } else if str_eq(kind, "local_variable_declaration") {
        SyntacticRole::LocalVariableDeclaration
    } else if str_eq(kind, "method_declaration") {
        SyntacticRole::MethodDeclaration
    } else if str_eq(kind, "formal_parameters") {
        SyntacticRole::FormalParameters
    } else if str_eq(kind, "formal_parameter") {
        SyntacticRole::FormalParameter
    } else if str_eq(kind, "integral_type") || str_eq(kind, "floating_point_type") || str_eq(
        kind,
        "boolean_type",
    ) {
        SyntacticRole::PrimitiveType
    } else if str_eq(kind, "type_identifier") {
        SyntacticRole::NamedType
    } else {
        SyntacticRole::Other
    }
}

} // verus!
