//! The scope resolver: from an identifier of a tree to its declaration, by
//! walking the identifier's ancestors until one of them is the scope of a
//! declaration of the same text. The nearest declaring scope wins; among
//! the declarations of one scope the one indexed last wins.

use vstd::prelude::*;
use std::collections::HashMap;
use crate::grammar::SyntacticRole;
use crate::indexer::parent_of;
use crate::position::{range_of, to_range, Location, LocationView, Span};
use crate::syntax::{is_proper_ancestor, well_formed, SyntaxNodeView, SyntaxTree};
use crate::table::{candidates_of, Contents, SymbolTable};
use crate::token::{locations_of, ScopeId, TokenLocation, TokenLocationView};

verus! {

broadcast use vstd::std_specs::hash::group_hash_axioms;

/// The span recorded for each scope among the candidates; a later
/// candidate of a scope replaces an earlier one.
pub open spec fn scope_map(candidates: Seq<TokenLocationView>) -> Map<ScopeId, Span>
    decreases candidates.len(),
{
    if candidates.len() == 0 {
        Map::empty()
    } else {
        scope_map(candidates.drop_last()).insert(
            candidates.last().scope_id,
            Span { start: candidates.last().start, end: candidates.last().end },
        )
    }
}

/// The declaration that a reference at `node` resolves to: the span
/// recorded for the nearest ancestor of `node` that is a declaring scope in
/// the tree of this generation.
pub open spec fn resolve_from(
    nodes: Seq<SyntaxNodeView>,
    generation: u64,
    candidates: Seq<TokenLocationView>,
    node: int,
) -> Option<Span>
    decreases node,
{
    match parent_of(nodes, node) {
        Some(p) => {
            let key = ScopeId { generation, node: p as usize };
            if scope_map(candidates).contains_key(key) {
                Some(scope_map(candidates)[key])
            } else {
                resolve_from(nodes, generation, candidates, p)
            }
        },
        None => None,
    }
}

/// The index of the node with the identity `id`, where the tree has one.
pub open spec fn node_with_id(nodes: Seq<SyntaxNodeView>, id: usize) -> Option<int> {
    if exists|i: int| 0 <= i < nodes.len() && (#[trigger] nodes[i]).id == id {
        Some(choose|i: int| 0 <= i < nodes.len() && (#[trigger] nodes[i]).id == id)
    } else {
        None
    }
}

/// The answer to a definition query, given the identity of the node that
/// the parser found at the queried position: nothing unless that node is an
/// identifier of the tree whose text has a candidate in an enclosing scope.
pub open spec fn definition_of(
    nodes: Seq<SyntaxNodeView>,
    generation: u64,
    uri: Seq<char>,
    contents: Contents,
    found: Option<usize>,
) -> Option<LocationView> {
    match found {
        Some(id) => match node_with_id(nodes, id) {
            Some(i) => if nodes[i].role == SyntacticRole::Identifier && nodes[i].text is Some {
                match resolve_from(
                    nodes,
                    generation,
                    candidates_of(contents, nodes[i].text->0),
                    i,
                ) {
                    Some(span) => Some(LocationView { uri, range: range_of(span) }),
                    None => None,
                }
            } else {
                None
            },
            None => None,
        },
        None => None,
    }
}

/// Walks up from `node` and returns the span of the declaration that the
/// nearest declaring ancestor records among `candidates`.
pub fn resolve_reference(
    tree: &SyntaxTree,
    generation: u64,
    candidates: &Vec<TokenLocation>,
    node: usize,
) -> (span: Option<Span>)
    requires
        node < tree@.len(),
    ensures
        span == resolve_from(tree@, generation, locations_of(candidates@), node as int),
{
    let ghost all = locations_of(candidates@);
    let mut scopes: HashMap<usize, Span> = HashMap::new();
    let mut i: usize = 0;
    assert(all.take(0) =~= Seq::empty());
    while i < candidates.len()
        invariant
            i <= candidates.len(),
            all == locations_of(candidates@),
            forall|p: usize|
                scopes@.contains_key(p) <==> scope_map(all.take(i as int)).contains_key(
                    ScopeId { generation, node: p },
                ),
            forall|p: usize|
                scopes@.contains_key(p) ==> scopes@[p] == scope_map(all.take(i as int))[ScopeId {
                    generation,
                    node: p,
                }],
        decreases candidates.len() - i,
    {
        let candidate = &candidates[i];
        proof {
            assert(all.take(i + 1).drop_last() =~= all.take(i as int));
            assert(all.take(i + 1).last() == candidate@);
        }
        if candidate.scope_id.generation == generation {
            scopes.insert(
                candidate.scope_id.node,
                Span { start: candidate.start, end: candidate.end },
            );
        }
        i += 1;
    }
    assert(all.take(i as int) =~= all);
    let n = tree.len();
    let mut current = node;
    loop
        invariant
            current < n,
            n == tree@.len(),
            well_formed(tree@),
            all == locations_of(candidates@),
            forall|p: usize|
                scopes@.contains_key(p) <==> scope_map(all).contains_key(
                    ScopeId { generation, node: p },
                ),
            forall|p: usize|
                scopes@.contains_key(p) ==> scopes@[p] == scope_map(all)[ScopeId {
                    generation,
                    node: p,
                }],
            resolve_from(tree@, generation, all, node as int) == resolve_from(
                tree@,
                generation,
                all,
                current as int,
            ),
        decreases current,
    {
        match tree.parent(current) {
            Some(p) => {
                match scopes.get(&p) {
                    Some(span) => {
                        return Some(*span);
                    },
                    None => {
                        current = p;
                    },
                }
            },
            None => {
                return None;
            },
        }
    }
}

/// Answers a definition query in a document, given the identity of the
/// node that the parser found at the queried position.
pub fn definition_at(
    tree: &SyntaxTree,
    generation: u64,
    uri: &str,
    table: &SymbolTable,
    found: Option<usize>,
) -> (location: Option<Location>)
    ensures
        match location {
            Some(l) => definition_of(tree@, generation, uri@, table@, found) == Some(l@),
            None => definition_of(tree@, generation, uri@, table@, found) is None,
        },
        found is None ==> location is None,
        found matches Some(id) ==> (forall|i: int|
            0 <= i < tree@.len() && (#[trigger] tree@[i]).id == id && tree@[i].role
                != SyntacticRole::Identifier ==> location is None),
        found matches Some(id) ==> (forall|i: int|
            0 <= i < tree@.len() && (#[trigger] tree@[i]).id == id && tree@[i].text is Some
                && candidates_of(table@, tree@[i].text->0).len() == 0 ==> location is None),
{
    let id = match found {
        Some(id) => id,
        None => {
            return None;
        },
    };
    let n = tree.len();
    let i = match tree.find(id) {
        Some(i) => i,
        None => {
            return None;
        },
    };
    proof {
        let c = choose|c: int| 0 <= c < tree@.len() && (#[trigger] tree@[c]).id == id;
        assert(tree@[i as int].id == id);
        if c < i {
            assert(tree@[c].id != tree@[i as int].id);
        } else if i < c {
            assert(tree@[i as int].id != tree@[c].id);
        }
        assert(node_with_id(tree@, id) == Some(i as int));
        assert forall|j: int| 0 <= j < tree@.len() && (#[trigger] tree@[j]).id == id implies j
            == i by {
            if j < i {
                assert(tree@[j].id != tree@[i as int].id);
            } else if i < j {
                assert(tree@[i as int].id != tree@[j].id);
            }
        }
    }
    let node = tree.node(i);
    if node.role != SyntacticRole::Identifier {
        return None;
    }
    let text = match &node.text {
        Some(text) => text,
        None => {
            return None;
        },
    };
    let candidates = table.candidates(text.as_str());
    proof {
        if candidates_of(table@, text@).len() == 0 {
            assert(locations_of(candidates@) =~= Seq::empty());
            lemma_nothing_without_candidates(tree@, generation, i as int);
        }
    }
    match resolve_reference(tree, generation, &candidates, i) {
        Some(span) => Some(Location { uri: uri.to_owned(), range: to_range(span) }),
        None => None,
    }
}

/// A scope has a recorded span exactly when some candidate declares in it.
pub proof fn lemma_scope_map_has(candidates: Seq<TokenLocationView>, key: ScopeId)
    ensures
        scope_map(candidates).contains_key(key) <==> exists|k: int|
            0 <= k < candidates.len() && (#[trigger] candidates[k]).scope_id == key,
    decreases candidates.len(),
{
    if candidates.len() > 0 {
        lemma_scope_map_has(candidates.drop_last(), key);
        if scope_map(candidates).contains_key(key) {
            if candidates.last().scope_id == key {
                assert(candidates[candidates.len() - 1].scope_id == key);
            } else {
                let k = choose|k: int|
                    0 <= k < candidates.drop_last().len() && (
                    #[trigger] candidates.drop_last()[k]).scope_id == key;
                assert(candidates[k].scope_id == key);
            }
        }
        if exists|k: int| 0 <= k < candidates.len() && (#[trigger] candidates[k]).scope_id == key {
            let k = choose|k: int|
                0 <= k < candidates.len() && (#[trigger] candidates[k]).scope_id == key;
            if k < candidates.len() - 1 {
                assert(candidates.drop_last()[k].scope_id == key);
            }
        }
    }
}

/// The span recorded for a scope is that of the last candidate that
/// declares in it.
pub proof fn lemma_scope_map_last(candidates: Seq<TokenLocationView>, key: ScopeId, k: int)
    requires
        0 <= k < candidates.len(),
        candidates[k].scope_id == key,
        forall|j: int| k < j < candidates.len() ==> (#[trigger] candidates[j]).scope_id != key,
    ensures
        scope_map(candidates).contains_key(key),
        scope_map(candidates)[key] == (Span { start: candidates[k].start, end: candidates[k].end }),
    decreases candidates.len(),
{
    if k < candidates.len() - 1 {
        assert(candidates[candidates.len() - 1].scope_id != key);
        assert(candidates.drop_last()[k] == candidates[k]);
        assert forall|j: int| k < j < candidates.drop_last().len() implies (
        #[trigger] candidates.drop_last()[j]).scope_id != key by {
            assert(candidates.drop_last()[j] == candidates[j]);
        }
        lemma_scope_map_last(candidates.drop_last(), key, k);
    }
}

/// The nearest declaring scope wins: where `scope` lies above `node`, has
/// a recorded span, and no node between the two is a declaring scope, a
/// reference at `node` resolves to that span, whatever is declared in
/// scopes further out.
pub proof fn lemma_nearest_scope_wins(
    nodes: Seq<SyntaxNodeView>,
    generation: u64,
    candidates: Seq<TokenLocationView>,
    node: int,
    scope: int,
)
    requires
        well_formed(nodes),
        is_proper_ancestor(nodes, scope, node),
        scope_map(candidates).contains_key(ScopeId { generation, node: scope as usize }),
        forall|a: int|
            #[trigger] is_proper_ancestor(nodes, a, node) && is_proper_ancestor(nodes, scope, a)
                ==> !scope_map(candidates).contains_key(
                ScopeId { generation, node: a as usize },
            ),
    ensures
        resolve_from(nodes, generation, candidates, node) == Some(
            scope_map(candidates)[ScopeId { generation, node: scope as usize }],
        ),
    decreases node,
{
    let p = nodes[node].parent->0 as int;
    assert(parent_of(nodes, node) == Some(p));
    if p != scope {
        assert(is_proper_ancestor(nodes, scope, p));
        assert(is_proper_ancestor(nodes, p, node));
        assert forall|a: int|
            #[trigger] is_proper_ancestor(nodes, a, p) && is_proper_ancestor(
                nodes,
                scope,
                a,
            ) implies !scope_map(candidates).contains_key(
            ScopeId { generation, node: a as usize },
        ) by {
            assert(is_proper_ancestor(nodes, a, node));
        }
        lemma_nearest_scope_wins(nodes, generation, candidates, p, scope);
    }
}

/// With no candidate there is nothing to resolve to.
pub proof fn lemma_nothing_without_candidates(
    nodes: Seq<SyntaxNodeView>,
    generation: u64,
    node: int,
)
    ensures
        resolve_from(nodes, generation, Seq::empty(), node) is None,
    decreases node,
{
    match parent_of(nodes, node) {
        Some(p) => {
            lemma_nothing_without_candidates(nodes, generation, p);
        },
        None => {},
    }
}

} // verus!
