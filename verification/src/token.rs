//! Token occurrences: what the index records of each declaring identifier.

use vstd::prelude::*;
use crate::position::{Point, Span};

verus! {

/// The lexical boundary of a declaration: a node of one tree. `generation`
/// tells the trees apart, `node` is the node's index in its tree.
#[derive(Clone, Copy, Debug, PartialEq, Eq, Structural)]
pub struct ScopeId {
    pub generation: u64,
    pub node: usize,
}

/// The declaring role of a token.
#[derive(Clone, Debug, PartialEq, Eq)]
pub enum TokenKind {
    ClassName,
    MemberVariable,
    /// A method, with the type names of its parameters in source order.
    MethodName(Vec<String>),
    /// A parameter, with its type name where it has one.
    ParameterName(Option<String>),
    /// A local variable, with the span of the statement that declares it.
    LocalVariable(Span),
}

/// The mathematical content of a [`TokenKind`].
pub ghost enum TokenKindView {
    ClassName,
    MemberVariable,
    MethodName(Seq<Seq<char>>),
    ParameterName(Option<Seq<char>>),
    LocalVariable(Span),
}

/// The texts of a sequence of strings.
pub open spec fn texts_of(strings: Seq<String>) -> Seq<Seq<char>> {
    Seq::new(strings.len(), |i: int| strings[i]@)
}

impl View for TokenKind {
    type V = TokenKindView;

    open spec fn view(&self) -> TokenKindView {
        match self {
            TokenKind::ClassName => TokenKindView::ClassName,
            TokenKind::MemberVariable => TokenKindView::MemberVariable,
            TokenKind::MethodName(types) => TokenKindView::MethodName(texts_of(types@)),
            TokenKind::ParameterName(Some(t)) => TokenKindView::ParameterName(Some(t@)),
            TokenKind::ParameterName(None) => TokenKindView::ParameterName(None),
            TokenKind::LocalVariable(span) => TokenKindView::LocalVariable(*span),
        }
    }
}

/// One declaring occurrence of a token: where it stands, what it declares,
/// and the scope in which the declaration is seen.
#[derive(Clone, Debug, PartialEq, Eq)]
pub struct TokenLocation {
    pub uri: String,
    pub start: Point,
    pub end: Point,
    pub kind: TokenKind,
    pub scope_id: ScopeId,
}

/// The mathematical content of a [`TokenLocation`].
pub ghost struct TokenLocationView {
    pub uri: Seq<char>,
    pub start: Point,
    pub end: Point,
    pub kind: TokenKindView,
    pub scope_id: ScopeId,
}

impl View for TokenLocation {
    type V = TokenLocationView;

    open spec fn view(&self) -> TokenLocationView {
        TokenLocationView {
            uri: self.uri@,
            start: self.start,
            end: self.end,
            kind: self.kind@,
            scope_id: self.scope_id,
        }
    }
}

/// The contents of a list of token locations.
pub open spec fn locations_of(locations: Seq<TokenLocation>) -> Seq<TokenLocationView> {
    Seq::new(locations.len(), |i: int| locations[i]@)
}

/// A token text with one of its declaring occurrences.
#[derive(Clone, Debug, PartialEq, Eq)]
pub struct IndexEntry {
    pub token: String,
    pub location: TokenLocation,
}

/// The mathematical content of an [`IndexEntry`].
pub ghost struct IndexEntryView {
    pub token: Seq<char>,
    pub location: TokenLocationView,
}

impl View for IndexEntry {
    type V = IndexEntryView;

    open spec fn view(&self) -> IndexEntryView {
        IndexEntryView { token: self.token@, location: self.location@ }
    }
}

/// The contents of a list of index entries.
pub open spec fn entries_of(entries: Seq<IndexEntry>) -> Seq<IndexEntryView> {
    Seq::new(entries.len(), |i: int| entries[i]@)
}

} // verus!
