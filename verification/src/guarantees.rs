//! What indexing, the table and resolution guarantee together.
//!
//! A reference inside the scope of a declaration resolves to that
//! declaration, unless a declaration of the same text in a nearer scope
//! shadows it or a later one in the same scope replaces it. A change
//! replaces the occurrences of its document and touches no other; indexing
//! an unchanged text again gives the same occurrences under a new
//! generation; a closed document answers nothing.

use vstd::prelude::*;
use crate::grammar::SyntacticRole;
use crate::indexer::{
    classify, entry_at, index_entries, index_entries_upto, lemma_entries_carry_generation,
    lemma_scope_is_ancestor,
};
use crate::position::{range_of, LocationView, Point, Span};
use crate::resolver::{
    definition_of, lemma_nearest_scope_wins, lemma_scope_map_has, lemma_scope_map_last,
    node_with_id, resolve_from, scope_map,
};
use crate::parser::SourceTree;
use crate::service::{
    closed, consistent, definition_in, installed, outcome_of, ChangeOutcome, ServiceView,
};
use crate::syntax::{
    arena_of, is_proper_ancestor, lemma_arena_is_well_formed, well_formed, SyntaxNodeView,
};
use crate::table::{
    candidates_of, generations_below, lemma_appended_candidates, lemma_purged_generations,
    lemma_replaced_holds_the_new_entries, lemma_replaced_keeps_other_documents, locations_for,
    only_document, purged, replaced, Contents,
};
use crate::token::{IndexEntryView, ScopeId, TokenLocationView};

verus! {

/// Whether node `d` declares the token text `token`.
pub open spec fn declares(nodes: Seq<SyntaxNodeView>, d: int, token: Seq<char>) -> bool {
    classify(nodes, d) is Some && nodes[d].text == Some(token)
}

/// The node that bounds the scope of the declaration at node `d`.
pub open spec fn scope_of(nodes: Seq<SyntaxNodeView>, d: int) -> int {
    match classify(nodes, d) {
        Some((_, scope)) => scope,
        None => -1,
    }
}

/// The nodes among the first `upto` that declare `token`, in pre-order.
pub open spec fn declarations_of(nodes: Seq<SyntaxNodeView>, token: Seq<char>, upto: int) -> Seq<
    int,
>
    decreases upto,
{
    if upto <= 0 {
        Seq::empty()
    } else if declares(nodes, upto - 1, token) {
        declarations_of(nodes, token, upto - 1).push(upto - 1)
    } else {
        declarations_of(nodes, token, upto - 1)
    }
}

/// Whether another declaration of the same text takes a reference away
/// from the declaration at `declaration`: one in a scope between the
/// reference and the declaration's scope, or a later one in the same scope.
pub open spec fn interferes(
    nodes: Seq<SyntaxNodeView>,
    declaration: int,
    reference: int,
    other: int,
) -> bool {
    let scope = scope_of(nodes, declaration);
    let s = scope_of(nodes, other);
    ||| (s == scope && other > declaration)
    ||| (is_proper_ancestor(nodes, s, reference) && is_proper_ancestor(nodes, scope, s))
}

/// A node above another comes before it.
pub proof fn lemma_ancestor_comes_first(nodes: Seq<SyntaxNodeView>, ancestor: int, node: int)
    requires
        is_proper_ancestor(nodes, ancestor, node),
    ensures
        0 <= ancestor < node < nodes.len(),
    decreases node,
{
    let p = nodes[node].parent->0 as int;
    if p != ancestor {
        lemma_ancestor_comes_first(nodes, ancestor, p);
    }
}

/// The entries that the index holds under a token are those of the nodes
/// that declare it, one for one and in pre-order.
pub proof fn lemma_entries_follow_declarations(
    nodes: Seq<SyntaxNodeView>,
    uri: Seq<char>,
    generation: u64,
    token: Seq<char>,
    upto: int,
)
    ensures
        locations_for(index_entries_upto(nodes, uri, generation, upto), token).len()
            == declarations_of(nodes, token, upto).len(),
        forall|k: int|
            0 <= k < declarations_of(nodes, token, upto).len() ==> {
                let d = #[trigger] declarations_of(nodes, token, upto)[k];
                &&& 0 <= d < upto
                &&& declares(nodes, d, token)
                &&& entry_at(nodes, uri, generation, d) is Some
                &&& locations_for(index_entries_upto(nodes, uri, generation, upto), token)[k]
                    == entry_at(nodes, uri, generation, d)->0.location
            },
        forall|j: int, k: int|
            0 <= j < k < declarations_of(nodes, token, upto).len() ==> declarations_of(
                nodes,
                token,
                upto,
            )[j] < declarations_of(nodes, token, upto)[k],
        forall|d: int|
            0 <= d < upto && #[trigger] declares(nodes, d, token) ==> exists|k: int|
                0 <= k < declarations_of(nodes, token, upto).len() && #[trigger] declarations_of(
                    nodes,
                    token,
                    upto,
                )[k] == d,
    decreases upto,
{
    if upto > 0 {
        lemma_entries_follow_declarations(nodes, uri, generation, token, upto - 1);
        let before = declarations_of(nodes, token, upto - 1);
        let now = declarations_of(nodes, token, upto);
        let entries_before = index_entries_upto(nodes, uri, generation, upto - 1);
        let entries_now = index_entries_upto(nodes, uri, generation, upto);
        let own_before = locations_for(entries_before, token);
        let own_now = locations_for(entries_now, token);
        match entry_at(nodes, uri, generation, upto - 1) {
            Some(e) => {
                assert(entries_now.drop_last() =~= entries_before);
                assert(entries_now.last() == e);
            },
            None => {},
        }
        assert forall|k: int| 0 <= k < now.len() implies {
            let d = #[trigger] now[k];
            &&& 0 <= d < upto
            &&& declares(nodes, d, token)
            &&& entry_at(nodes, uri, generation, d) is Some
            &&& own_now[k] == entry_at(nodes, uri, generation, d)->0.location
        } by {
            if k < before.len() {
                assert(now[k] == before[k]);
                assert(own_now[k] == own_before[k]);
            }
        }
        assert forall|j: int, k: int| 0 <= j < k < now.len() implies now[j] < now[k] by {
            if k < before.len() {
                assert(now[j] == before[j] && now[k] == before[k]);
            } else {
                assert(now[j] == before[j]);
            }
        }
        assert forall|d: int| 0 <= d < upto && #[trigger] declares(nodes, d, token) implies exists|
            k: int,
        |
            0 <= k < now.len() && #[trigger] now[k] == d by {
            if d < upto - 1 {
                let k = choose|k: int| 0 <= k < before.len() && #[trigger] before[k] == d;
                assert(now[k] == d);
            } else {
                assert(now[now.len() - 1] == d);
            }
        }
    }
}

/// Once a document is indexed, a reference in the scope of one of its
/// declarations resolves to the span of the declaring identifier, provided
/// no other declaration of the same text interferes. Entries of other
/// documents, which carry older generations, never do.
pub proof fn lemma_reference_resolves_to_declaration(
    nodes: Seq<SyntaxNodeView>,
    uri: Seq<char>,
    generation: u64,
    contents: Contents,
    declaration: int,
    reference: int,
)
    requires
        well_formed(nodes),
        nodes.len() <= usize::MAX,
        generations_below(contents, generation),
        classify(nodes, declaration) is Some,
        is_proper_ancestor(nodes, scope_of(nodes, declaration), reference),
        nodes[reference].text == nodes[declaration].text,
        forall|other: int|
            #[trigger] declares(nodes, other, nodes[declaration].text->0) && other != declaration
                ==> !interferes(nodes, declaration, reference, other),
    ensures
        resolve_from(
            nodes,
            generation,
            candidates_of(
                replaced(contents, uri, index_entries(nodes, uri, generation)),
                nodes[declaration].text->0,
            ),
            reference,
        ) == Some(Span { start: nodes[declaration].start, end: nodes[declaration].end }),
{
    let token = nodes[declaration].text->0;
    let scope = scope_of(nodes, declaration);
    let first = purged(contents, uri);
    let entries = index_entries(nodes, uri, generation);
    let foreign = candidates_of(first, token);
    let own = locations_for(entries, token);
    let candidates = candidates_of(replaced(contents, uri, entries), token);
    let declared = declarations_of(nodes, token, nodes.len() as int);
    let key = ScopeId { generation, node: scope as usize };
    lemma_appended_candidates(first, entries, token);
    lemma_purged_generations(contents, uri, generation);
    lemma_entries_follow_declarations(nodes, uri, generation, token, nodes.len() as int);
    lemma_scope_is_ancestor(nodes, declaration);
    assert(candidates == foreign + own);
    assert forall|k: int| 0 <= k < foreign.len() implies (#[trigger] foreign[k]).scope_id.generation
        < generation by {
        assert(first[token][k].scope_id.generation < generation);
    }
    assert(declares(nodes, declaration, token));
    let at = choose|k: int| 0 <= k < declared.len() && #[trigger] declared[k] == declaration;
    let last = foreign.len() + at;
    assert(candidates[last] == own[at]);
    assert forall|j: int| last < j < candidates.len() implies (#[trigger] candidates[j]).scope_id
        != key by {
        let other = declared[j - foreign.len()];
        assert(candidates[j] == own[j - foreign.len()]);
        assert(declared[at] < other);
        assert(declares(nodes, other, token));
        lemma_scope_is_ancestor(nodes, other);
        assert(!interferes(nodes, declaration, reference, other));
    }
    lemma_scope_map_last(candidates, key, last);
    assert forall|a: int|
        #[trigger] is_proper_ancestor(nodes, a, reference) && is_proper_ancestor(
            nodes,
            scope,
            a,
        ) implies !scope_map(candidates).contains_key(ScopeId { generation, node: a as usize }) by {
        let inner = ScopeId { generation, node: a as usize };
        lemma_ancestor_comes_first(nodes, a, reference);
        lemma_ancestor_comes_first(nodes, scope, a);
        lemma_scope_map_has(candidates, inner);
        if scope_map(candidates).contains_key(inner) {
            let k = choose|k: int|
                0 <= k < candidates.len() && (#[trigger] candidates[k]).scope_id == inner;
            if k < foreign.len() {
                assert(candidates[k] == foreign[k]);
            } else {
                let other = declared[k - foreign.len()];
                assert(candidates[k] == own[k - foreign.len()]);
                assert(declares(nodes, other, token));
                lemma_scope_is_ancestor(nodes, other);
                assert(scope_of(nodes, other) == a);
                if other != declaration {
                    assert(!interferes(nodes, declaration, reference, other));
                }
            }
        }
    }
    lemma_nearest_scope_wins(nodes, generation, candidates, reference, scope);
}

/// The answer to a definition query on such a reference is the span of
/// the declaring identifier in the queried document.
pub proof fn lemma_definition_finds_declaration(
    nodes: Seq<SyntaxNodeView>,
    uri: Seq<char>,
    generation: u64,
    contents: Contents,
    declaration: int,
    reference: int,
)
    requires
        well_formed(nodes),
        nodes.len() <= usize::MAX,
        generations_below(contents, generation),
        classify(nodes, declaration) is Some,
        is_proper_ancestor(nodes, scope_of(nodes, declaration), reference),
        nodes[reference].role == SyntacticRole::Identifier,
        nodes[reference].text == nodes[declaration].text,
        forall|other: int|
            #[trigger] declares(nodes, other, nodes[declaration].text->0) && other != declaration
                ==> !interferes(nodes, declaration, reference, other),
    ensures
        definition_of(
            nodes,
            generation,
            uri,
            replaced(contents, uri, index_entries(nodes, uri, generation)),
            Some(nodes[reference].id),
        ) == Some(
            LocationView {
                uri,
                range: range_of(
                    Span { start: nodes[declaration].start, end: nodes[declaration].end },
                ),
            },
        ),
{
    lemma_reference_resolves_to_declaration(
        nodes,
        uri,
        generation,
        contents,
        declaration,
        reference,
    );
    lemma_ancestor_comes_first(nodes, scope_of(nodes, declaration), reference);
    let id = nodes[reference].id;
    let c = choose|c: int| 0 <= c < nodes.len() && (#[trigger] nodes[c]).id == id;
    if c < reference {
        assert(nodes[c].id != nodes[reference].id);
    } else if reference < c {
        assert(nodes[reference].id != nodes[c].id);
    }
    assert(node_with_id(nodes, id) == Some(reference));
}

/// In a service, once a change was indexed, a query at a point where the
/// parser finds such a reference answers with the span of the declaring
/// identifier.
pub proof fn lemma_indexed_document_resolves(
    state: ServiceView,
    uri: Seq<char>,
    text: Seq<char>,
    version: i32,
    parsed: SourceTree,
    point: Point,
    declaration: int,
    reference: int,
)
    requires
        consistent(state),
        outcome_of(state, uri, version, Some(parsed)) == ChangeOutcome::Indexed,
        parsed.nodes().len() <= usize::MAX,
        ({
            let nodes = arena_of(parsed.nodes(), text);
            &&& classify(nodes, declaration) is Some
            &&& is_proper_ancestor(nodes, scope_of(nodes, declaration), reference)
            &&& nodes[reference].role == SyntacticRole::Identifier
            &&& nodes[reference].text == nodes[declaration].text
            &&& parsed.node_at(point) == Some(nodes[reference].id)
            &&& forall|other: int|
                #[trigger] declares(nodes, other, nodes[declaration].text->0) && other
                    != declaration ==> !interferes(nodes, declaration, reference, other)
        }),
    ensures
        definition_in(installed(state, uri, text, version, Some(parsed)), uri, point) == ({
            let nodes = arena_of(parsed.nodes(), text);
            Some(
                LocationView {
                    uri,
                    range: range_of(
                        Span { start: nodes[declaration].start, end: nodes[declaration].end },
                    ),
                },
            )
        }),
{
    let nodes = arena_of(parsed.nodes(), text);
    lemma_arena_is_well_formed(parsed.nodes(), text);
    lemma_definition_finds_declaration(
        nodes,
        uri,
        state.next_generation,
        state.table,
        declaration,
        reference,
    );
}

/// An occurrence as it would stand under another generation.
pub open spec fn location_under(location: TokenLocationView, generation: u64) -> TokenLocationView {
    TokenLocationView {
        scope_id: ScopeId { generation, node: location.scope_id.node },
        ..location
    }
}

/// An index entry as it would stand under another generation.
pub open spec fn under_generation(entry: IndexEntryView, generation: u64) -> IndexEntryView {
    IndexEntryView { token: entry.token, location: location_under(entry.location, generation) }
}

/// Indexing one tree again gives the same entries in the same order; only
/// the generation that they carry is the new one.
pub proof fn lemma_same_tree_same_entries(
    nodes: Seq<SyntaxNodeView>,
    uri: Seq<char>,
    first: u64,
    second: u64,
    upto: int,
)
    ensures
        index_entries_upto(nodes, uri, second, upto) == index_entries_upto(
            nodes,
            uri,
            first,
            upto,
        ).map_values(|e: IndexEntryView| under_generation(e, second)),
    decreases upto,
{
    let again = index_entries_upto(nodes, uri, second, upto);
    let before = index_entries_upto(nodes, uri, first, upto);
    if upto > 0 {
        lemma_same_tree_same_entries(nodes, uri, first, second, upto - 1);
    }
    assert(again =~= before.map_values(|e: IndexEntryView| under_generation(e, second)));
}

/// Moving entries to another generation moves the occurrences found
/// under each token, and nothing else.
pub proof fn lemma_locations_under_generation(
    entries: Seq<IndexEntryView>,
    token: Seq<char>,
    generation: u64,
)
    ensures
        locations_for(
            entries.map_values(|e: IndexEntryView| under_generation(e, generation)),
            token,
        ) == locations_for(entries, token).map_values(
            |l: TokenLocationView| location_under(l, generation),
        ),
    decreases entries.len(),
{
    let moved = entries.map_values(|e: IndexEntryView| under_generation(e, generation));
    if entries.len() > 0 {
        lemma_locations_under_generation(entries.drop_last(), token, generation);
        assert(moved.drop_last() =~= entries.drop_last().map_values(
            |e: IndexEntryView| under_generation(e, generation),
        ));
        assert(moved.last() == under_generation(entries.last(), generation));
    }
    assert(locations_for(moved, token) =~= locations_for(entries, token).map_values(
        |l: TokenLocationView| location_under(l, generation),
    ));
}

/// In a service, a change that is indexed replaces the occurrences of its
/// document by those of the new tree.
pub proof fn lemma_change_replaces_its_document(
    state: ServiceView,
    uri: Seq<char>,
    text: Seq<char>,
    version: i32,
    parsed: SourceTree,
    token: Seq<char>,
)
    requires
        outcome_of(state, uri, version, Some(parsed)) == ChangeOutcome::Indexed,
    ensures
        only_document(
            candidates_of(installed(state, uri, text, version, Some(parsed)).table, token),
            uri,
        ) == locations_for(
            index_entries(arena_of(parsed.nodes(), text), uri, state.next_generation),
            token,
        ),
{
    let nodes = arena_of(parsed.nodes(), text);
    let entries = index_entries(nodes, uri, state.next_generation);
    lemma_entries_carry_generation(nodes, uri, state.next_generation, nodes.len() as int);
    lemma_replaced_holds_the_new_entries(state.table, uri, entries, token);
}

/// In a service, a change leaves the occurrences of every other document
/// as they were.
pub proof fn lemma_change_keeps_other_documents(
    state: ServiceView,
    uri: Seq<char>,
    text: Seq<char>,
    version: i32,
    parsed: Option<SourceTree>,
    token: Seq<char>,
    other: Seq<char>,
)
    requires
        other != uri,
    ensures
        only_document(
            candidates_of(installed(state, uri, text, version, parsed).table, token),
            other,
        ) == only_document(candidates_of(state.table, token), other),
        installed(state, uri, text, version, parsed).documents.contains_key(other)
            == state.documents.contains_key(other),
        state.documents.contains_key(other) ==> installed(
            state,
            uri,
            text,
            version,
            parsed,
        ).documents[other] == state.documents[other],
{
    if outcome_of(state, uri, version, parsed) == ChangeOutcome::Indexed {
        let nodes = arena_of(parsed->0.nodes(), text);
        let entries = index_entries(nodes, uri, state.next_generation);
        lemma_entries_carry_generation(nodes, uri, state.next_generation, nodes.len() as int);
        lemma_replaced_keeps_other_documents(state.table, uri, entries, other, token);
    }
}

/// In a service, indexing a document again with the text and the tree that
/// it was last indexed with gives the same occurrences of it in the same
/// order under every token; only the generation that they carry is the new
/// one.
pub proof fn lemma_reindexing_unchanged_text(
    state: ServiceView,
    uri: Seq<char>,
    text: Seq<char>,
    first_version: i32,
    second_version: i32,
    parsed: SourceTree,
    token: Seq<char>,
)
    requires
        outcome_of(state, uri, first_version, Some(parsed)) == ChangeOutcome::Indexed,
        outcome_of(
            installed(state, uri, text, first_version, Some(parsed)),
            uri,
            second_version,
            Some(parsed),
        ) == ChangeOutcome::Indexed,
    ensures
        ({
            let once = installed(state, uri, text, first_version, Some(parsed));
            let twice = installed(once, uri, text, second_version, Some(parsed));
            only_document(candidates_of(twice.table, token), uri) == only_document(
                candidates_of(once.table, token),
                uri,
            ).map_values(|l: TokenLocationView| location_under(l, once.next_generation))
        }),
{
    let once = installed(state, uri, text, first_version, Some(parsed));
    let nodes = arena_of(parsed.nodes(), text);
    let first = index_entries(nodes, uri, state.next_generation);
    lemma_change_replaces_its_document(state, uri, text, first_version, parsed, token);
    lemma_change_replaces_its_document(once, uri, text, second_version, parsed, token);
    lemma_same_tree_same_entries(
        nodes,
        uri,
        state.next_generation,
        once.next_generation,
        nodes.len() as int,
    );
    lemma_locations_under_generation(first, token, once.next_generation);
}

/// After a document was closed, a definition query in it finds nothing.
pub proof fn lemma_closed_document_answers_nothing(state: ServiceView, uri: Seq<char>, point: Point)
    ensures
        definition_in(closed(state, uri), uri, point) is None,
{
}

} // verus!
