//! The symbol indexer: which identifiers of a syntax tree declare something,
//! what they declare, and the node that bounds the declaration's scope.
//!
//! A local variable is seen in the node that holds its declaring statement:
//! the innermost block, or the statement that opens one for it.

use vstd::prelude::*;
use crate::grammar::SyntacticRole;
use crate::position::Span;
use crate::syntax::{is_proper_ancestor, well_formed, SyntaxNodeView, SyntaxTree};
use crate::token::{
    entries_of, texts_of, IndexEntry, IndexEntryView, ScopeId, TokenKind, TokenKindView,
    TokenLocation, TokenLocationView,
};

verus! {

/// The first named node at or after `from` whose parent is `parent`.
pub open spec fn named_sibling_from(
    nodes: Seq<SyntaxNodeView>,
    parent: Option<usize>,
    from: int,
) -> Option<int>
    decreases nodes.len() - from,
{
    if from < 0 || from >= nodes.len() {
        None
    } else if nodes[from].named && nodes[from].parent == parent {
        Some(from)
    } else {
        named_sibling_from(nodes, parent, from + 1)
    }
}

/// Whether node `j` is a named child of `parent` that names a type.
pub open spec fn is_type_child(nodes: Seq<SyntaxNodeView>, parent: int, j: int) -> bool {
    &&& 0 <= j < nodes.len()
    &&& nodes[j].named
    &&& nodes[j].role.names_type()
    &&& nodes[j].parent == Some(parent as usize)
}

/// The first type-naming child of `parent` at or after `from`.
pub open spec fn type_child_from(nodes: Seq<SyntaxNodeView>, parent: int, from: int) -> Option<int>
    decreases nodes.len() - from,
{
    if from < 0 || from >= nodes.len() {
        None
    } else if is_type_child(nodes, parent, from) {
        Some(from)
    } else {
        type_child_from(nodes, parent, from + 1)
    }
}

/// The type name of a formal parameter: the text of its first type-naming
/// child, where it has one.
pub open spec fn parameter_type(nodes: Seq<SyntaxNodeView>, parameter: int) -> Option<Seq<char>> {
    match type_child_from(nodes, parameter, parameter + 1) {
        Some(j) => nodes[j].text,
        None => None,
    }
}

/// Whether node `j` is the type token of a formal parameter in the
/// parameter list `list`.
pub open spec fn is_listed_type(nodes: Seq<SyntaxNodeView>, list: int, j: int) -> bool {
    &&& 0 <= j < nodes.len()
    &&& nodes[j].named
    &&& nodes[j].role.names_type()
    &&& nodes[j].text is Some
    &&& nodes[j].parent matches Some(p)
    &&& p < j
    &&& nodes[p as int].named
    &&& nodes[p as int].role == SyntacticRole::FormalParameter
    &&& nodes[p as int].parent == Some(list as usize)
}

/// The type tokens of the parameters of the list `list` among the first
/// `upto` nodes, in the order of the text.
pub open spec fn listed_types(nodes: Seq<SyntaxNodeView>, list: int, upto: int) -> Seq<
    Seq<char>,
>
    decreases upto,
{
    if upto <= 0 {
        Seq::empty()
    } else if is_listed_type(nodes, list, upto - 1) {
        listed_types(nodes, list, upto - 1).push(nodes[upto - 1].text->0)
    } else {
        listed_types(nodes, list, upto - 1)
    }
}

/// The parameter type names of the method that the identifier `i` names:
/// those of the parameter list that follows the name, none where no list
/// follows.
pub open spec fn method_parameter_types(nodes: Seq<SyntaxNodeView>, i: int) -> Seq<Seq<char>> {
    match named_sibling_from(nodes, nodes[i].parent, i + 1) {
        Some(s) => if nodes[s].role == SyntacticRole::FormalParameters {
            listed_types(nodes, s, nodes.len() as int)
        } else {
            Seq::empty()
        },
        None => Seq::empty(),
    }
}

/// The parent of node `i`, where it has one inside the tree.
pub open spec fn parent_of(nodes: Seq<SyntaxNodeView>, i: int) -> Option<int> {
    if 0 <= i < nodes.len() {
        match nodes[i].parent {
            Some(p) => if p < i {
                Some(p as int)
            } else {
                None
            },
            None => None,
        }
    } else {
        None
    }
}

/// What the identifier under a variable declarator `declarator` declares.
pub open spec fn classify_variable(nodes: Seq<SyntaxNodeView>, declarator: int) -> Option<
    (TokenKindView, int),
> {
    match parent_of(nodes, declarator) {
        Some(declaration) => match nodes[declaration].role {
            SyntacticRole::FieldDeclaration => match parent_of(nodes, declaration) {
                Some(body) => if nodes[body].role == SyntacticRole::ClassBody {
                    Some((TokenKindView::MemberVariable, body))
                } else {
                    None
                },
                None => None,
            },
            SyntacticRole::LocalVariableDeclaration => match parent_of(nodes, declaration) {
                Some(holder) => Some(
                    (
                        TokenKindView::LocalVariable(
                            Span { start: nodes[declaration].start, end: nodes[declaration].end },
                        ),
                        holder,
                    ),
                ),
                None => None,
            },
            _ => None,
        },
        None => None,
    }
}

/// What the identifier under a formal parameter `parameter` declares.
pub open spec fn classify_parameter(nodes: Seq<SyntaxNodeView>, parameter: int) -> Option<
    (TokenKindView, int),
> {
    match parent_of(nodes, parameter) {
        Some(list) => match parent_of(nodes, list) {
            Some(method) => if nodes[method].role == SyntacticRole::MethodDeclaration {
                Some((TokenKindView::ParameterName(parameter_type(nodes, parameter)), method))
            } else {
                None
            },
            None => None,
        },
        None => None,
    }
}

/// What node `i` declares and the node that bounds its scope: nothing
/// unless it is an identifier with a text whose parent gives it a declaring
/// role.
pub open spec fn classify(nodes: Seq<SyntaxNodeView>, i: int) -> Option<(TokenKindView, int)> {
    if 0 <= i < nodes.len() && nodes[i].role == SyntacticRole::Identifier && nodes[i].text is Some {
        match parent_of(nodes, i) {
            Some(p) => match nodes[p].role {
                SyntacticRole::ClassDeclaration => Some((TokenKindView::ClassName, p)),
                SyntacticRole::VariableDeclarator => classify_variable(nodes, p),
                SyntacticRole::MethodDeclaration => Some(
                    (TokenKindView::MethodName(method_parameter_types(nodes, i)), p),
                ),
                SyntacticRole::FormalParameter => classify_parameter(nodes, p),
                _ => None,
            },
            None => None,
        }
    } else {
        None
    }
}

/// The index entry of node `i`, where it declares something.
pub open spec fn entry_at(
    nodes: Seq<SyntaxNodeView>,
    uri: Seq<char>,
    generation: u64,
    i: int,
) -> Option<IndexEntryView> {
    match classify(nodes, i) {
        Some((kind, scope)) => Some(
            IndexEntryView {
                token: nodes[i].text->0,
                location: TokenLocationView {
                    uri,
                    start: nodes[i].start,
                    end: nodes[i].end,
                    kind,
                    scope_id: ScopeId { generation, node: scope as usize },
                },
            },
        ),
        None => None,
    }
}

/// The index entries of the first `upto` nodes, in pre-order.
pub open spec fn index_entries_upto(
    nodes: Seq<SyntaxNodeView>,
    uri: Seq<char>,
    generation: u64,
    upto: int,
) -> Seq<IndexEntryView>
    decreases upto,
{
    if upto <= 0 {
        Seq::empty()
    } else {
        match entry_at(nodes, uri, generation, upto - 1) {
            Some(e) => index_entries_upto(nodes, uri, generation, upto - 1).push(e),
            None => index_entries_upto(nodes, uri, generation, upto - 1),
        }
    }
}

/// The index entries of a tree: one for each declaring identifier, in
/// pre-order.
pub open spec fn index_entries(nodes: Seq<SyntaxNodeView>, uri: Seq<char>, generation: u64) -> Seq<
    IndexEntryView,
> {
    index_entries_upto(nodes, uri, generation, nodes.len() as int)
}

/// The scope that bounds a declaration lies above the declaring identifier.
pub proof fn lemma_scope_is_ancestor(nodes: Seq<SyntaxNodeView>, i: int)
    requires
        well_formed(nodes),
        classify(nodes, i) is Some,
    ensures
        classify(nodes, i) matches Some((_, scope)) && 0 <= scope < i && is_proper_ancestor(
            nodes,
            scope,
            i,
        ),
{
    reveal_with_fuel(is_proper_ancestor, 4);
}

/// Every index entry of a tree carries the document and the generation
/// that the tree was indexed under.
pub proof fn lemma_entries_carry_generation(
    nodes: Seq<SyntaxNodeView>,
    uri: Seq<char>,
    generation: u64,
    upto: int,
)
    ensures
        forall|i: int|
            0 <= i < index_entries_upto(nodes, uri, generation, upto).len() ==> {
                &&& (#[trigger] index_entries_upto(
                    nodes,
                    uri,
                    generation,
                    upto,
                )[i]).location.scope_id.generation == generation
                &&& index_entries_upto(nodes, uri, generation, upto)[i].location.uri == uri
            },
    decreases upto,
{
    if upto > 0 {
        lemma_entries_carry_generation(nodes, uri, generation, upto - 1);
    }
}

/// The next named node after `i` under the same parent.
pub fn next_named_sibling(tree: &SyntaxTree, i: usize) -> (sibling: Option<usize>)
    requires
        i < tree@.len(),
    ensures
        sibling matches Some(s) ==> i < s < tree@.len(),
        match sibling {
            Some(s) => named_sibling_from(tree@, tree@[i as int].parent, i + 1) == Some(s as int),
            None => named_sibling_from(tree@, tree@[i as int].parent, i + 1) is None,
        },
{
    let n = tree.len();
    let parent = tree.node(i).parent;
    let mut j: usize = i + 1;
    while j < n
        invariant
            i < j <= n,
            n == tree@.len(),
            parent == tree@[i as int].parent,
            named_sibling_from(tree@, parent, i + 1) == named_sibling_from(tree@, parent, j as int),
        decreases n - j,
    {
        let node = tree.node(j);
        if node.named && same_parent(node.parent, parent) {
            return Some(j);
        }
        j += 1;
    }
    None
}

fn same_parent(a: Option<usize>, b: Option<usize>) -> (same: bool)
    ensures
        same == (a == b),
{
    match (a, b) {
        (Some(x), Some(y)) => x == y,
        (None, None) => true,
        _ => false,
    }
}

fn is_child_of(parent: Option<usize>, p: usize) -> (b: bool)
    ensures
        b == (parent == Some(p)),
{
    match parent {
        Some(x) => x == p,
        None => false,
    }
}

/// The type name of the formal parameter `parameter`.
pub fn type_of_parameter(tree: &SyntaxTree, parameter: usize) -> (name: Option<String>)
    requires
        parameter < tree@.len(),
    ensures
        match name {
            Some(s) => parameter_type(tree@, parameter as int) == Some(s@),
            None => parameter_type(tree@, parameter as int) is None,
        },
{
    let n = tree.len();
    let mut j: usize = parameter + 1;
    while j < n
        invariant
            parameter < j <= n,
            n == tree@.len(),
            type_child_from(tree@, parameter as int, parameter + 1) == type_child_from(
                tree@,
                parameter as int,
                j as int,
            ),
        decreases n - j,
    {
        let node = tree.node(j);
        if node.named && node.role.is_type_name() && is_child_of(node.parent, parameter) {
            return match &node.text {
                Some(s) => Some(s.clone()),
                None => None,
            };
        }
        j += 1;
    }
    None
}

/// No type token of a parameter list comes before the list.
proof fn lemma_types_follow_their_list(nodes: Seq<SyntaxNodeView>, list: int, upto: int)
    requires
        well_formed(nodes),
        0 <= list <= usize::MAX,
        upto <= list + 1,
    ensures
        listed_types(nodes, list, upto) == Seq::<Seq<char>>::empty(),
    decreases upto,
{
    if upto > 0 {
        lemma_types_follow_their_list(nodes, list, upto - 1);
        if is_listed_type(nodes, list, upto - 1) {
            let p = nodes[upto - 1].parent->0 as int;
            assert(nodes[p].parent == Some(list as usize));
            assert(list < p);
        }
    }
}

/// The type names of the parameters in the list `list`, in source order.
pub fn types_of_parameters(tree: &SyntaxTree, list: usize) -> (names: Vec<String>)
    requires
        list < tree@.len(),
    ensures
        texts_of(names@) == listed_types(tree@, list as int, tree@.len() as int),
{
    let n = tree.len();
    let mut names: Vec<String> = Vec::new();
    let mut j: usize = list + 1;
    proof {
        lemma_types_follow_their_list(tree@, list as int, list + 1);
        assert(texts_of(names@) =~= listed_types(tree@, list as int, list + 1));
    }
    while j < n
        invariant
            j <= n,
            n == tree@.len(),
            list < n,
            well_formed(tree@),
            texts_of(names@) == listed_types(tree@, list as int, j as int),
        decreases n - j,
    {
        let node = tree.node(j);
        let ghost before = names@;
        if node.named && node.role.is_type_name() {
            if let Some(p) = node.parent {
                if let Some(text) = &node.text {
                    let holder = tree.node(p);
                    if holder.named && holder.role == SyntacticRole::FormalParameter && is_child_of(
                        holder.parent,
                        list,
                    ) {
                        names.push(text.clone());
                        assert(texts_of(names@) =~= texts_of(before).push(text@));
                    }
                }
            }
        }
        j += 1;
    }
    names
}

/// What the identifier under the variable declarator `declarator` declares.
fn classify_under_declarator(tree: &SyntaxTree, declarator: usize) -> (found: Option<
    (TokenKind, usize),
>)
    requires
        declarator < tree@.len(),
    ensures
        match found {
            Some((kind, scope)) => classify_variable(tree@, declarator as int) == Some(
                (kind@, scope as int),
            ) && scope < declarator,
            None => classify_variable(tree@, declarator as int) is None,
        },
{
    match tree.parent(declarator) {
        Some(declaration) => {
            let d = tree.node(declaration);
            match d.role {
                SyntacticRole::FieldDeclaration => match tree.parent(declaration) {
                    Some(body) => {
                        if tree.node(body).role == SyntacticRole::ClassBody {
                            Some((TokenKind::MemberVariable, body))
                        } else {
                            None
                        }
                    },
                    None => None,
                },
                SyntacticRole::LocalVariableDeclaration => match tree.parent(declaration) {
                    Some(holder) => Some(
                        (TokenKind::LocalVariable(Span { start: d.start, end: d.end }), holder),
                    ),
                    None => None,
                },
                _ => None,
            }
        },
        None => None,
    }
}

/// What the identifier under the formal parameter `parameter` declares.
fn classify_under_parameter(tree: &SyntaxTree, parameter: usize) -> (found: Option<
    (TokenKind, usize),
>)
    requires
        parameter < tree@.len(),
    ensures
        match found {
            Some((kind, scope)) => classify_parameter(tree@, parameter as int) == Some(
                (kind@, scope as int),
            ) && scope < parameter,
            None => classify_parameter(tree@, parameter as int) is None,
        },
{
    match tree.parent(parameter) {
        Some(list) => match tree.parent(list) {
            Some(method) => {
                if tree.node(method).role == SyntacticRole::MethodDeclaration {
                    let name = type_of_parameter(tree, parameter);
                    Some((TokenKind::ParameterName(name), method))
                } else {
                    None
                }
            },
            None => None,
        },
        None => None,
    }
}

/// Classifies node `i`: what it declares and the node that bounds the
/// declaration's scope, or nothing where it declares nothing. A shape that
/// the classifier does not know is passed over.
pub fn classify_node(tree: &SyntaxTree, i: usize) -> (found: Option<(TokenKind, usize)>)
    requires
        i < tree@.len(),
    ensures
        match found {
            Some((kind, scope)) => classify(tree@, i as int) == Some((kind@, scope as int))
                && scope < i,
            None => classify(tree@, i as int) is None,
        },
{
    let node = tree.node(i);
    if node.role != SyntacticRole::Identifier || node.text.is_none() {
        return None;
    }
    match tree.parent(i) {
        Some(p) => match tree.node(p).role {
            SyntacticRole::ClassDeclaration => Some((TokenKind::ClassName, p)),
            SyntacticRole::VariableDeclarator => classify_under_declarator(tree, p),
            SyntacticRole::MethodDeclaration => {
                let types = match next_named_sibling(tree, i) {
                    Some(s) => {
                        if tree.node(s).role == SyntacticRole::FormalParameters {
                            types_of_parameters(tree, s)
                        } else {
                            Vec::new()
                        }
                    },
                    None => Vec::new(),
                };
                assert(texts_of(types@) =~= method_parameter_types(tree@, i as int));
                Some((TokenKind::MethodName(types), p))
            },
            SyntacticRole::FormalParameter => classify_under_parameter(tree, p),
            _ => None,
        },
        None => None,
    }
}

/// Walks the tree in pre-order and lists the declaring occurrences found in
/// it, each under its token text, for the document `uri` and the tree
/// generation `generation`.
pub fn index_tree(tree: &SyntaxTree, uri: &str, generation: u64) -> (entries: Vec<IndexEntry>)
    ensures
        entries_of(entries@) == index_entries(tree@, uri@, generation),
{
    let n = tree.len();
    let mut entries: Vec<IndexEntry> = Vec::new();
    let mut i: usize = 0;
    assert(entries_of(entries@) =~= index_entries_upto(tree@, uri@, generation, 0));
    while i < n
        invariant
            i <= n,
            n == tree@.len(),
            entries_of(entries@) == index_entries_upto(tree@, uri@, generation, i as int),
        decreases n - i,
    {
        let ghost before = entries@;
        match classify_node(tree, i) {
            Some((kind, scope)) => {
                let node = tree.node(i);
                match &node.text {
                    Some(text) => {
                        let entry = IndexEntry {
                            token: text.clone(),
                            location: TokenLocation {
                                uri: uri.to_owned(),
                                start: node.start,
                                end: node.end,
                                kind,
                                scope_id: ScopeId { generation, node: scope },
                            },
                        };
                        assert(Some(entry@) == entry_at(tree@, uri@, generation, i as int));
                        entries.push(entry);
                        assert(entries_of(entries@) =~= entries_of(before).push(entry@));
                    },
                    None => {},
                }
            },
            None => {},
        }
        i += 1;
    }
    entries
}

} // verus!
