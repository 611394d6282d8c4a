//! The parser behind the index: tree-sitter with the Java grammar. What the
//! library believes of it is stated here and nowhere else.

use vstd::prelude::*;
use crate::position::Point;
use crate::syntax::RawNode;

verus! {

#[verifier::external_type_specification]
#[verifier::external_body]
pub struct ExTree(tree_sitter::Tree);

#[verifier::external_type_specification]
#[verifier::external_body]
pub struct ExParser(tree_sitter::Parser);

#[verifier::external_type_specification]
#[verifier::external_body]
pub struct ExLanguageError(tree_sitter::LanguageError);

/// The nodes of a parsed tree in the order in which a tree-sitter cursor
/// meets them going down and to the right: each with `Node::id`, the id of
/// `Node::parent`, `Node::kind`, `Node::is_named` and its byte and point span.
/// An id tells the nodes of this one tree apart and means nothing beyond it.
pub uninterp spec fn tree_nodes(tree: tree_sitter::Tree) -> Seq<RawNode>;

/// The id of the node that `Node::named_descendant_for_point_range` finds
/// from the root for the empty range at (`row`, `column`).
pub uninterp spec fn named_descendant_id(tree: tree_sitter::Tree, row: usize, column: usize) -> Option<
    usize,
>;

/// Whether the parser has a language assigned: whether `Parser::language`
/// gives one.
pub uninterp spec fn has_language(parser: tree_sitter::Parser) -> bool;

/// Whether nothing can stop the parser before it is done: whether
/// `Parser::timeout_micros` is zero and no cancellation flag is set.
pub uninterp spec fn runs_unbounded(parser: tree_sitter::Parser) -> bool;

/// `tree_sitter::Parser::new`: a parser with no language yet, no timeout
/// and no cancellation flag.
#[verifier::external_body]
pub(crate) fn new_parser() -> (parser: tree_sitter::Parser)
    ensures
        runs_unbounded(parser),
{
    tree_sitter::Parser::new()
}

/// `tree_sitter::Parser::set_language` with `tree_sitter_java::language()`.
/// It fails when the grammar was generated for another version of the
/// parser; nothing is claimed of when that is. Where it succeeds the
/// language is assigned; timeout and cancellation flag stay as they are.
#[verifier::external_body]
pub(crate) fn use_java_grammar(parser: &mut tree_sitter::Parser) -> (loaded: Result<
    (),
    tree_sitter::LanguageError,
>)
    ensures
        loaded is Ok ==> has_language(*final(parser)),
        runs_unbounded(*final(parser)) == runs_unbounded(*old(parser)),
{
    parser.set_language(tree_sitter_java::language())
}

/// `tree_sitter::Parser::parse`. It gives no tree only when the parser has
/// no language, its timeout expired or its cancellation flag was set, none
/// of which it changes; nothing is claimed of the tree it gives.
#[verifier::external_body]
pub(crate) fn parse_text(
    parser: &mut tree_sitter::Parser,
    text: &str,
    previous: Option<&tree_sitter::Tree>,
) -> (tree: Option<tree_sitter::Tree>)
    ensures
        has_language(*old(parser)) && runs_unbounded(*old(parser)) ==> tree is Some,
        has_language(*final(parser)) == has_language(*old(parser)),
        runs_unbounded(*final(parser)) == runs_unbounded(*old(parser)),
{
    parser.parse(text, previous)
}

/// `tree_sitter_traversal::traverse` in pre-order from `Tree::walk`, each
/// node copied out field by field. The result is what `tree_nodes` names.
#[verifier::external_body]
pub(crate) fn nodes_in_preorder(tree: &tree_sitter::Tree) -> (nodes: Vec<RawNode>)
    ensures
        nodes@ == tree_nodes(*tree),
{
    tree_sitter_traversal::traverse(tree.walk(), tree_sitter_traversal::Order::Pre)
        .map(|n| RawNode {
            id: n.id(),
            parent: n.parent().map(|p| p.id()),
            kind: n.kind().to_string(),
            named: n.is_named(),
            start_byte: n.start_byte(),
            end_byte: n.end_byte(),
            start: Point { row: n.start_position().row, column: n.start_position().column },
            end: Point { row: n.end_position().row, column: n.end_position().column },
        })
        .collect()
}

/// `Node::named_descendant_for_point_range` from `Tree::root_node`, for the
/// empty range at one point, and the `Node::id` of what it finds.
#[verifier::external_body]
pub(crate) fn named_node_at(tree: &tree_sitter::Tree, row: usize, column: usize) -> (found: Option<
    usize,
>)
    ensures
        found == named_descendant_id(*tree, row, column),
{
    let point = tree_sitter::Point::new(row, column);
    tree.root_node().named_descendant_for_point_range(point, point).map(|n| n.id())
}

/// The Java grammar does not fit the parser that was built in.
#[derive(Clone, Copy, Debug, PartialEq, Eq, Structural)]
pub struct GrammarError;

/// The tree of one parse, as the parser keeps it.
pub struct SourceTree {
    tree: tree_sitter::Tree,
}

impl SourceTree {
    /// The nodes of the tree in pre-order.
    pub closed spec fn nodes(&self) -> Seq<RawNode> {
        tree_nodes(self.tree)
    }

    /// The identity of the smallest named node that spans the point, as
    /// the parser finds it.
    pub closed spec fn node_at(&self, point: Point) -> Option<usize> {
        named_descendant_id(self.tree, point.row, point.column)
    }

    /// Lists the nodes of the tree in pre-order.
    pub fn raw_nodes(&self) -> (nodes: Vec<RawNode>)
        ensures
            nodes@ == self.nodes(),
    {
        nodes_in_preorder(&self.tree)
    }

    /// The identity of the smallest named node that spans the point.
    pub fn named_node_at(&self, point: Point) -> (found: Option<usize>)
        ensures
            found == self.node_at(point),
    {
        named_node_at(&self.tree, point.row, point.column)
    }
}

/// A parser for Java sources.
pub struct JavaParser {
    parser: tree_sitter::Parser,
}

impl JavaParser {
    /// Whether the parser gives a tree for every text: it has the grammar
    /// loaded, and nothing can stop it before it is done.
    pub closed spec fn is_ready(&self) -> bool {
        has_language(self.parser) && runs_unbounded(self.parser)
    }

    /// A parser with the Java grammar loaded and ready to parse, or the
    /// reason why the grammar could not be loaded. The parser library
    /// decides which.
    pub fn new() -> (made: Result<JavaParser, GrammarError>)
        ensures
            made matches Ok(parser) ==> parser.is_ready(),
    {
        let mut parser = new_parser();
        match use_java_grammar(&mut parser) {
            Ok(_) => Ok(JavaParser { parser }),
            Err(_) => Err(GrammarError),
        }
    }

    /// Parses a text. `previous` may hold a tree of the same text, which
    /// the parser then reuses. A parser that is ready gives a tree and
    /// stays ready; which tree, the parser library decides.
    pub fn parse(&mut self, text: &str, previous: Option<&SourceTree>) -> (parsed: Option<
        SourceTree,
    >)
        ensures
            old(self).is_ready() ==> parsed is Some,
            final(self).is_ready() == old(self).is_ready(),
    {
        let hint = match previous {
            Some(p) => Some(&p.tree),
            None => None,
        };
        match parse_text(&mut self.parser, text, hint) {
            Some(tree) => Some(SourceTree { tree }),
            None => None,
        }
    }
}

} // verus!
