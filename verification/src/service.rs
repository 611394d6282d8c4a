//! The navigation service: the open documents, the symbol table they
//! share, and the operations of a document's life: it is opened or
//! changed, it is queried, it is closed.
//!
//! Every operation takes the service by exclusive or shared borrow, so a
//! query always reads the table of the last change that was applied. A
//! change that carries an older version than the document at hand is
//! dropped.

use vstd::prelude::*;
use crate::indexer::{index_entries, index_tree, lemma_entries_carry_generation};
use crate::parser::{GrammarError, JavaParser, SourceTree};
use crate::position::{point_of, to_point, Location, LocationView, Point, Position};
use crate::resolver::{definition_at, definition_of};
use crate::syntax::{arena_of, raw_well_formed, SyntaxNodeView, SyntaxTree};
use crate::table::{
    candidates_of, generations_below, lemma_purged_generations, lemma_replaced_generations,
    purged, replaced, Contents, SymbolTable,
};
use crate::text::str_eq;
use crate::token::{locations_of, TokenLocation};

verus! {

/// An open document: its text, the tree parsed from it, and the version
/// and tree generation that the text was indexed under.
pub struct Document {
    uri: String,
    text: String,
    version: i32,
    generation: u64,
    parsed: SourceTree,
    tree: SyntaxTree,
}

/// The mathematical content of a [`Document`].
pub ghost struct DocumentView {
    pub uri: Seq<char>,
    pub text: Seq<char>,
    pub version: i32,
    pub generation: u64,
    pub parsed: SourceTree,
    pub nodes: Seq<SyntaxNodeView>,
}

impl View for Document {
    type V = DocumentView;

    closed spec fn view(&self) -> DocumentView {
        DocumentView {
            uri: self.uri@,
            text: self.text@,
            version: self.version,
            generation: self.generation,
            parsed: self.parsed,
            nodes: self.tree@,
        }
    }
}

/// How a change to a document ended.
#[derive(Clone, Copy, Debug, PartialEq, Eq, Structural)]
pub enum ChangeOutcome {
    /// The document was parsed and its index entries replaced.
    Indexed,
    /// The change carried an older version than the document at hand.
    Stale,
    /// The parser gave no tree.
    ParseFailed,
    /// The parser's nodes did not form a tree.
    Malformed,
    /// No tree generation is left to index under.
    Exhausted,
}

/// The mathematical content of a [`Service`].
pub ghost struct ServiceView {
    pub documents: Map<Seq<char>, DocumentView>,
    pub table: Contents,
    pub next_generation: u64,
}

/// Whether a change is older than the document it is meant for.
pub open spec fn is_stale(state: ServiceView, uri: Seq<char>, version: i32) -> bool {
    state.documents.contains_key(uri) && version < state.documents[uri].version
}

/// How a change ends, given what the parser made of the text.
pub open spec fn outcome_of(
    state: ServiceView,
    uri: Seq<char>,
    version: i32,
    parsed: Option<SourceTree>,
) -> ChangeOutcome {
    if is_stale(state, uri, version) {
        ChangeOutcome::Stale
    } else {
        match parsed {
            None => ChangeOutcome::ParseFailed,
            Some(tree) => if !raw_well_formed(tree.nodes()) {
                ChangeOutcome::Malformed
            } else if state.next_generation == u64::MAX {
                ChangeOutcome::Exhausted
            } else {
                ChangeOutcome::Indexed
            },
        }
    }
}

/// The service after a change, given what the parser made of the text: a
/// change that is indexed replaces the document and its entries in the
/// table and uses up one generation; any other leaves the service as it was.
pub open spec fn installed(
    state: ServiceView,
    uri: Seq<char>,
    text: Seq<char>,
    version: i32,
    parsed: Option<SourceTree>,
) -> ServiceView {
    if outcome_of(state, uri, version, parsed) == ChangeOutcome::Indexed {
        let nodes = arena_of(parsed->0.nodes(), text);
        let generation = state.next_generation;
        ServiceView {
            documents: state.documents.insert(
                uri,
                DocumentView { uri, text, version, generation, parsed: parsed->0, nodes },
            ),
            table: replaced(state.table, uri, index_entries(nodes, uri, generation)),
            next_generation: (generation + 1) as u64,
        }
    } else {
        state
    }
}

/// The service after a document was closed: the document is gone, and so
/// is every entry of it in the table.
pub open spec fn closed(state: ServiceView, uri: Seq<char>) -> ServiceView {
    ServiceView {
        documents: state.documents.remove(uri),
        table: purged(state.table, uri),
        next_generation: state.next_generation,
    }
}

/// The answer to a definition query at a point of a document: nothing for
/// a document that is not open, else what the resolver makes of the node
/// that the parser finds at the point.
pub open spec fn definition_in(state: ServiceView, uri: Seq<char>, point: Point) -> Option<
    LocationView,
> {
    if state.documents.contains_key(uri) {
        let document = state.documents[uri];
        definition_of(
            document.nodes,
            document.generation,
            uri,
            state.table,
            document.parsed.node_at(point),
        )
    } else {
        None
    }
}

/// A service that was just started: no document is open, the table is
/// empty, and no generation was given out yet.
pub open spec fn started() -> ServiceView {
    ServiceView { documents: Map::empty(), table: Contents::empty(), next_generation: 0 }
}

/// What holds of every service: the table holds no occurrence of a
/// generation that is yet to be given out.
pub open spec fn consistent(state: ServiceView) -> bool {
    generations_below(state.table, state.next_generation)
}

/// No two documents of the list have the same uri.
spec fn distinct_uris(documents: Seq<Document>) -> bool {
    forall|i: int, j: int|
        0 <= i < j < documents.len() ==> (#[trigger] documents[i])@.uri != (
        #[trigger] documents[j])@.uri
}

/// Whether the list holds a document with the uri.
spec fn holds(documents: Seq<Document>, uri: Seq<char>) -> bool {
    exists|i: int| 0 <= i < documents.len() && (#[trigger] documents[i])@.uri == uri
}

/// The documents of a list by their uris.
spec fn by_uri(documents: Seq<Document>) -> Map<Seq<char>, DocumentView> {
    Map::new(
        |uri: Seq<char>| holds(documents, uri),
        |uri: Seq<char>|
            documents[choose|i: int|
                0 <= i < documents.len() && (#[trigger] documents[i])@.uri == uri]@,
    )
}

proof fn lemma_by_uri_at(documents: Seq<Document>, i: int)
    requires
        distinct_uris(documents),
        0 <= i < documents.len(),
    ensures
        by_uri(documents).contains_key(documents[i]@.uri),
        by_uri(documents)[documents[i]@.uri] == documents[i]@,
{
    let uri = documents[i]@.uri;
    let c = choose|c: int| 0 <= c < documents.len() && (#[trigger] documents[c])@.uri == uri;
    if c < i {
        assert(documents[c]@.uri != documents[i]@.uri);
    } else if i < c {
        assert(documents[i]@.uri != documents[c]@.uri);
    }
}

proof fn lemma_by_uri_push(documents: Seq<Document>, document: Document)
    requires
        distinct_uris(documents),
        !holds(documents, document@.uri),
    ensures
        distinct_uris(documents.push(document)),
        by_uri(documents.push(document)) == by_uri(documents).insert(document@.uri, document@),
{
    let after = documents.push(document);
    assert forall|i: int, j: int| 0 <= i < j < after.len() implies (#[trigger] after[i])@.uri != (
    #[trigger] after[j])@.uri by {
        if j < documents.len() {
            assert(documents[i]@.uri != documents[j]@.uri);
        } else {
            assert(documents[i]@.uri != document@.uri);
        }
    }
    assert forall|uri: Seq<char>|
        by_uri(after).contains_key(uri) <==> #[trigger] by_uri(documents).insert(
            document@.uri,
            document@,
        ).contains_key(uri) by {
        if holds(after, uri) {
            let i = choose|i: int| 0 <= i < after.len() && (#[trigger] after[i])@.uri == uri;
            if i < documents.len() {
                assert(documents[i]@.uri == uri);
            }
        }
        if holds(documents, uri) {
            let i = choose|i: int| 0 <= i < documents.len() && (#[trigger] documents[i])@.uri == uri;
            assert(after[i]@.uri == uri);
        }
        if uri == document@.uri {
            assert(after[documents.len() as int]@.uri == uri);
        }
    }
    assert forall|uri: Seq<char>| by_uri(after).contains_key(uri) implies #[trigger] by_uri(
        after,
    )[uri] == by_uri(documents).insert(document@.uri, document@)[uri] by {
        let i = choose|i: int| 0 <= i < after.len() && (#[trigger] after[i])@.uri == uri;
        lemma_by_uri_at(after, i);
        if i < documents.len() {
            assert(documents[i]@.uri == uri);
            lemma_by_uri_at(documents, i);
        }
    }
    assert(by_uri(after) =~= by_uri(documents).insert(document@.uri, document@));
}

proof fn lemma_by_uri_remove(documents: Seq<Document>, at: int)
    requires
        distinct_uris(documents),
        0 <= at < documents.len(),
    ensures
        distinct_uris(documents.remove(at)),
        !holds(documents.remove(at), documents[at]@.uri),
        by_uri(documents.remove(at)) == by_uri(documents).remove(documents[at]@.uri),
{
    let after = documents.remove(at);
    let gone = documents[at]@.uri;
    assert forall|i: int| 0 <= i < after.len() implies (#[trigger] after[i])@.uri != gone by {
        if i < at {
            assert(after[i] == documents[i]);
            assert(documents[i]@.uri != documents[at]@.uri);
        } else {
            assert(after[i] == documents[i + 1]);
            assert(documents[at]@.uri != documents[i + 1]@.uri);
        }
    }
    assert forall|i: int, j: int| 0 <= i < j < after.len() implies (#[trigger] after[i])@.uri != (
    #[trigger] after[j])@.uri by {
        let a = if i < at { i } else { i + 1 };
        let b = if j < at { j } else { j + 1 };
        assert(after[i] == documents[a]);
        assert(after[j] == documents[b]);
        assert(documents[a]@.uri != documents[b]@.uri);
    }
    assert forall|uri: Seq<char>|
        by_uri(after).contains_key(uri) <==> #[trigger] by_uri(documents).remove(
            gone,
        ).contains_key(uri) by {
        if holds(after, uri) {
            let i = choose|i: int| 0 <= i < after.len() && (#[trigger] after[i])@.uri == uri;
            let a = if i < at { i } else { i + 1 };
            assert(after[i] == documents[a]);
            assert(documents[a]@.uri == uri);
        }
        if holds(documents, uri) && uri != gone {
            let a = choose|a: int| 0 <= a < documents.len() && (#[trigger] documents[a])@.uri == uri;
            let i = if a < at { a } else { a - 1 };
            assert(after[i] == documents[a]);
            assert(after[i]@.uri == uri);
        }
    }
    assert forall|uri: Seq<char>| by_uri(after).contains_key(uri) implies #[trigger] by_uri(
        after,
    )[uri] == by_uri(documents).remove(gone)[uri] by {
        let i = choose|i: int| 0 <= i < after.len() && (#[trigger] after[i])@.uri == uri;
        let a = if i < at { i } else { i + 1 };
        assert(after[i] == documents[a]);
        lemma_by_uri_at(after, i);
        lemma_by_uri_at(documents, a);
    }
    assert(by_uri(after) =~= by_uri(documents).remove(gone));
}

/// The navigation service.
pub struct Service {
    documents: Vec<Document>,
    table: SymbolTable,
    next_generation: u64,
}

impl View for Service {
    type V = ServiceView;

    closed spec fn view(&self) -> ServiceView {
        ServiceView {
            documents: by_uri(self.documents@),
            table: self.table@,
            next_generation: self.next_generation,
        }
    }
}

impl Service {
    #[verifier::type_invariant]
    spec fn inv(self) -> bool {
        &&& distinct_uris(self.documents@)
        &&& generations_below(self.table@, self.next_generation)
    }

    /// A service with no open document and an empty table, or the reason
    /// why the Java grammar could not be loaded: without the grammar no
    /// document can be served. The parser library decides which.
    pub fn new() -> (made: Result<Service, GrammarError>)
        ensures
            made matches Ok(service) ==> service@ == started() && consistent(service@),
    {
        Service::with_grammar(JavaParser::new())
    }

    /// Starts a service, given what loading the Java grammar came to: a
    /// service with no open document and an empty table where the grammar
    /// was loaded, and the reason why it was not loaded otherwise.
    pub fn with_grammar(loaded: Result<JavaParser, GrammarError>) -> (made: Result<
        Service,
        GrammarError,
    >)
        ensures
            match loaded {
                Ok(_) => made matches Ok(service) && service@ == started() && consistent(
                    service@,
                ),
                Err(e) => made matches Err(reason) && reason == e,
            },
    {
        match loaded {
            Ok(_) => {
                let service = Service {
                    documents: Vec::new(),
                    table: SymbolTable::new(),
                    next_generation: 0,
                };
                assert(by_uri(service.documents@) =~= Map::empty());
                Ok(service)
            },
            Err(e) => Err(e),
        }
    }

    /// Hands out the table and leaves an empty one in its place.
    fn take_table(&mut self) -> (table: SymbolTable)
        ensures
            table@ == old(self).table@,
            final(self).table@ == Contents::empty(),
            final(self).documents@ == old(self).documents@,
            final(self).next_generation == old(self).next_generation,
    {
        proof {
            use_type_invariant(&*self);
        }
        let mut table = SymbolTable::new();
        std::mem::swap(&mut self.table, &mut table);
        table
    }

    /// Puts a table in the place of the one at hand.
    fn put_table(&mut self, table: SymbolTable)
        requires
            generations_below(table@, old(self).next_generation),
        ensures
            final(self).table@ == table@,
            final(self).documents@ == old(self).documents@,
            final(self).next_generation == old(self).next_generation,
    {
        proof {
            use_type_invariant(&*self);
        }
        let mut table = table;
        std::mem::swap(&mut self.table, &mut table);
    }

    /// Hands out the documents and leaves none in their place.
    fn take_documents(&mut self) -> (documents: Vec<Document>)
        ensures
            documents@ == old(self).documents@,
            distinct_uris(documents@),
            final(self).documents@ == Seq::<Document>::empty(),
            final(self).table@ == old(self).table@,
            final(self).next_generation == old(self).next_generation,
    {
        proof {
            use_type_invariant(&*self);
        }
        let mut documents: Vec<Document> = Vec::new();
        std::mem::swap(&mut self.documents, &mut documents);
        documents
    }

    /// Puts a list of documents in the place of the one at hand.
    fn put_documents(&mut self, documents: Vec<Document>)
        requires
            distinct_uris(documents@),
        ensures
            final(self).documents@ == documents@,
            final(self).table@ == old(self).table@,
            final(self).next_generation == old(self).next_generation,
    {
        proof {
            use_type_invariant(&*self);
        }
        let mut documents = documents;
        std::mem::swap(&mut self.documents, &mut documents);
    }

    /// The position of the document with the uri among the open ones.
    fn find(&self, uri: &str) -> (found: Option<usize>)
        ensures
            match found {
                Some(i) => i < self.documents@.len() && self.documents@[i as int]@.uri == uri@
                    && self@.documents.contains_key(uri@) && self@.documents[uri@]
                    == self.documents@[i as int]@,
                None => !holds(self.documents@, uri@) && !self@.documents.contains_key(uri@),
            },
    {
        proof {
            use_type_invariant(self);
        }
        let mut i: usize = 0;
        while i < self.documents.len()
            invariant
                i <= self.documents@.len(),
                distinct_uris(self.documents@),
                forall|j: int| 0 <= j < i ==> (#[trigger] self.documents@[j])@.uri != uri@,
            decreases self.documents@.len() - i,
        {
            if str_eq(self.documents[i].uri.as_str(), uri) {
                proof {
                    lemma_by_uri_at(self.documents@, i as int);
                }
                return Some(i);
            }
            i += 1;
        }
        None
    }

    /// Whether the document is open.
    pub fn is_open(&self, uri: &str) -> (open: bool)
        ensures
            open == self@.documents.contains_key(uri@),
    {
        self.find(uri).is_some()
    }

    /// The version of the document, where it is open.
    pub fn version_of(&self, uri: &str) -> (version: Option<i32>)
        ensures
            match version {
                Some(v) => self@.documents.contains_key(uri@) && self@.documents[uri@].version == v,
                None => !self@.documents.contains_key(uri@),
            },
    {
        match self.find(uri) {
            Some(i) => Some(self.documents[i].version),
            None => None,
        }
    }

    /// The occurrences that the table records under a token text.
    pub fn candidates(&self, token: &str) -> (list: Vec<TokenLocation>)
        ensures
            locations_of(list@) == candidates_of(self@.table, token@),
            list@.len() == candidates_of(self@.table, token@).len(),
    {
        self.table.candidates(token)
    }

    /// Applies a change, given what the parser made of the new text.
    pub fn install(
        &mut self,
        uri: String,
        text: String,
        version: i32,
        parsed: Option<SourceTree>,
    ) -> (outcome: ChangeOutcome)
        ensures
            outcome == outcome_of(old(self)@, uri@, version, parsed),
            final(self)@ == installed(old(self)@, uri@, text@, version, parsed),
            consistent(old(self)@),
            consistent(final(self)@),
    {
        proof {
            use_type_invariant(&*self);
        }
        let at = self.find(uri.as_str());
        if let Some(i) = at {
            if version < self.documents[i].version {
                return ChangeOutcome::Stale;
            }
        }
        let parsed = match parsed {
            Some(parsed) => parsed,
            None => {
                return ChangeOutcome::ParseFailed;
            },
        };
        let raw = parsed.raw_nodes();
        let tree = match SyntaxTree::from_raw(&raw, text.as_str()) {
            Some(tree) => tree,
            None => {
                return ChangeOutcome::Malformed;
            },
        };
        if self.next_generation == u64::MAX {
            return ChangeOutcome::Exhausted;
        }
        let generation = self.next_generation;
        let entries = index_tree(&tree, uri.as_str(), generation);
        proof {
            lemma_entries_carry_generation(tree@, uri@, generation, tree@.len() as int);
            lemma_replaced_generations(
                self.table@,
                uri@,
                index_entries(tree@, uri@, generation),
                generation,
            );
        }
        let mut table = self.take_table();
        table.replace_document(uri.as_str(), entries);
        let mut documents = self.take_documents();
        if let Some(i) = at {
            proof {
                lemma_by_uri_remove(documents@, i as int);
            }
            documents.remove(i);
        }
        let document = Document { uri, text, version, generation, parsed, tree };
        proof {
            lemma_by_uri_push(documents@, document);
            assert(by_uri(old(self).documents@).remove(document@.uri).insert(
                document@.uri,
                document@,
            ) =~= by_uri(old(self).documents@).insert(document@.uri, document@));
        }
        documents.push(document);
        self.next_generation = generation + 1;
        self.put_table(table);
        self.put_documents(documents);
        ChangeOutcome::Indexed
    }

    /// Opens or changes a document: parses the text, rebuilds the
    /// document's index entries and replaces the document. The tree at
    /// hand is offered to the parser where the text has not changed; a
    /// parser that cannot be set up counts as one that gave no tree. A
    /// change older than the document at hand is dropped.
    pub fn on_change(&mut self, uri: String, text: String, version: i32) -> (outcome: ChangeOutcome)
        ensures
            exists|parsed: Option<SourceTree>|
                outcome == outcome_of(old(self)@, uri@, version, parsed) && final(self)@
                    == #[trigger] installed(old(self)@, uri@, text@, version, parsed),
            is_stale(old(self)@, uri@, version) ==> outcome == ChangeOutcome::Stale,
            is_stale(old(self)@, uri@, version) ==> final(self)@ == old(self)@,
            consistent(old(self)@),
            consistent(final(self)@),
    {
        let at = self.find(uri.as_str());
        if let Some(i) = at {
            if version < self.documents[i].version {
                return self.install(uri, text, version, None);
            }
        }
        let parsed = match JavaParser::new() {
            Ok(mut parser) => match at {
                Some(i) => {
                    if str_eq(self.documents[i].text.as_str(), text.as_str()) {
                        parser.parse(text.as_str(), Some(&self.documents[i].parsed))
                    } else {
                        parser.parse(text.as_str(), None)
                    }
                },
                None => parser.parse(text.as_str(), None),
            },
            Err(_) => None,
        };
        self.install(uri, text, version, parsed)
    }

    /// Closes a document: removes it and every entry of it in the table.
    /// Tells whether the document was open.
    pub fn did_close(&mut self, uri: &str) -> (was_open: bool)
        ensures
            was_open == old(self)@.documents.contains_key(uri@),
            final(self)@ == closed(old(self)@, uri@),
            consistent(old(self)@),
            consistent(final(self)@),
    {
        proof {
            use_type_invariant(&*self);
            lemma_purged_generations(self.table@, uri@, self.next_generation);
        }
        let at = self.find(uri);
        let mut table = self.take_table();
        table.purge_document(uri);
        self.put_table(table);
        match at {
            Some(i) => {
                let mut documents = self.take_documents();
                proof {
                    lemma_by_uri_remove(documents@, i as int);
                }
                documents.remove(i);
                self.put_documents(documents);
                true
            },
            None => {
                assert(by_uri(self.documents@).remove(uri@) =~= by_uri(self.documents@));
                false
            },
        }
    }

    /// Answers a definition query: the declaration that the identifier at
    /// the position resolves to, or nothing.
    pub fn goto_definition(&self, uri: &str, position: Position) -> (location: Option<Location>)
        ensures
            match location {
                Some(l) => definition_in(self@, uri@, point_of(position)) == Some(l@),
                None => definition_in(self@, uri@, point_of(position)) is None,
            },
            !self@.documents.contains_key(uri@) ==> location is None,
            consistent(self@),
    {
        proof {
            use_type_invariant(self);
        }
        let i = match self.find(uri) {
            Some(i) => i,
            None => {
                return None;
            },
        };
        let document = &self.documents[i];
        let found = document.parsed.named_node_at(to_point(position));
        definition_at(&document.tree, document.generation, uri, &self.table, found)
    }
}

} // verus!
