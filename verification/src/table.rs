//! The symbol table: for each token text, the declaring occurrences found
//! in the open documents, in the order in which they were indexed. The
//! entries live in a `DashMap`; what the library believes of it is stated
//! in the private functions of this file.

use vstd::prelude::*;
use dashmap::DashMap;
use crate::text::str_eq;
use crate::token::{
    entries_of, locations_of, IndexEntry, IndexEntryView, TokenLocation, TokenLocationView,
};

verus! {

#[verifier::external_type_specification]
#[verifier::external_body]
#[verifier::reject_recursive_types(K)]
#[verifier::reject_recursive_types(V)]
#[verifier::reject_recursive_types(S)]
pub struct ExDashMap<K, V, S>(DashMap<K, V, S>);

/// What the table maps each token text to.
pub type Contents = Map<Seq<char>, Seq<TokenLocationView>>;

/// What a `DashMap` from token texts to occurrence lists holds: for each
/// key, the contents of the list stored under it.
pub uninterp spec fn map_contents(map: DashMap<String, Vec<TokenLocation>>) -> Contents;

/// The occurrences that lie outside the document `uri`, in their order.
pub open spec fn without_document(locations: Seq<TokenLocationView>, uri: Seq<char>) -> Seq<
    TokenLocationView,
>
    decreases locations.len(),
{
    if locations.len() == 0 {
        Seq::empty()
    } else if locations.last().uri == uri {
        without_document(locations.drop_last(), uri)
    } else {
        without_document(locations.drop_last(), uri).push(locations.last())
    }
}

/// The occurrences recorded under `token`: none where the table has no such
/// key.
pub open spec fn candidates_of(contents: Contents, token: Seq<char>) -> Seq<TokenLocationView> {
    if contents.contains_key(token) {
        contents[token]
    } else {
        Seq::empty()
    }
}

/// The table without the occurrences of the document `uri`; a token that
/// keeps none loses its key.
pub open spec fn purged(contents: Contents, uri: Seq<char>) -> Contents {
    Map::new(
        |token: Seq<char>|
            contents.contains_key(token) && without_document(contents[token], uri).len() > 0,
        |token: Seq<char>| without_document(contents[token], uri),
    )
}

/// The table with one occurrence added at the end of its token's list.
pub open spec fn appended_one(contents: Contents, entry: IndexEntryView) -> Contents {
    contents.insert(entry.token, candidates_of(contents, entry.token).push(entry.location))
}

/// The table with the entries added one after the other.
pub open spec fn appended(contents: Contents, entries: Seq<IndexEntryView>) -> Contents
    decreases entries.len(),
{
    if entries.len() == 0 {
        contents
    } else {
        appended_one(appended(contents, entries.drop_last()), entries.last())
    }
}

/// The table after a document was reindexed: its former occurrences are
/// gone, the new ones follow those of the other documents.
pub open spec fn replaced(contents: Contents, uri: Seq<char>, entries: Seq<IndexEntryView>) -> Contents {
    appended(purged(contents, uri), entries)
}

/// The locations among `entries` that stand under `token`, in their order.
pub open spec fn locations_for(entries: Seq<IndexEntryView>, token: Seq<char>) -> Seq<
    TokenLocationView,
>
    decreases entries.len(),
{
    if entries.len() == 0 {
        Seq::empty()
    } else if entries.last().token == token {
        locations_for(entries.drop_last(), token).push(entries.last().location)
    } else {
        locations_for(entries.drop_last(), token)
    }
}

/// Every occurrence in the table was indexed under a generation below
/// `bound`.
pub open spec fn generations_below(contents: Contents, bound: u64) -> bool {
    forall|token: Seq<char>, i: int|
        contents.contains_key(token) && 0 <= i < contents[token].len() ==> (
        #[trigger] contents[token][i]).scope_id.generation < bound
}

/// The occurrences of one document in a list, in their order.
pub open spec fn only_document(locations: Seq<TokenLocationView>, uri: Seq<char>) -> Seq<
    TokenLocationView,
>
    decreases locations.len(),
{
    if locations.len() == 0 {
        Seq::empty()
    } else if locations.last().uri == uri {
        only_document(locations.drop_last(), uri).push(locations.last())
    } else {
        only_document(locations.drop_last(), uri)
    }
}

/// `DashMap::new`: a map that holds nothing.
#[verifier::external_body]
fn new_map() -> (fresh: DashMap<String, Vec<TokenLocation>>)
    ensures
        map_contents(fresh) == Contents::empty(),
{
    DashMap::new()
}

/// `DashMap::get`, with a copy of the list found: the list stored under the
/// key, or nothing where the key is absent.
#[verifier::external_body]
fn map_get(map: &DashMap<String, Vec<TokenLocation>>, token: &str) -> (found: Option<
    Vec<TokenLocation>,
>)
    ensures
        match found {
            Some(list) => map_contents(*map).contains_key(token@) && locations_of(list@)
                == map_contents(*map)[token@],
            None => !map_contents(*map).contains_key(token@),
        },
{
    map.get(token).map(|entry| entry.value().clone())
}

/// `DashMap::remove`: the key is gone afterwards, and the list that stood
/// under it is handed out.
#[verifier::external_body]
fn map_remove(map: &mut DashMap<String, Vec<TokenLocation>>, token: &str) -> (taken: Option<
    Vec<TokenLocation>,
>)
    ensures
        map_contents(*final(map)) == map_contents(*old(map)).remove(token@),
        match taken {
            Some(list) => map_contents(*old(map)).contains_key(token@) && locations_of(list@)
                == map_contents(*old(map))[token@],
            None => !map_contents(*old(map)).contains_key(token@),
        },
{
    map.remove(token).map(|(_, list)| list)
}

/// `DashMap::insert`: the key maps to the new list afterwards, every other
/// key as before.
#[verifier::external_body]
fn map_insert(map: &mut DashMap<String, Vec<TokenLocation>>, token: String, list: Vec<TokenLocation>)
    ensures
        map_contents(*final(map)) == map_contents(*old(map)).insert(token@, locations_of(list@)),
{
    map.insert(token, list);
}

/// `DashMap::retain` with `keep_foreign` on each list: every list loses
/// the occurrences of the document, and a key whose list is then empty is
/// dropped.
#[verifier::external_body]
fn map_retain_foreign(map: &mut DashMap<String, Vec<TokenLocation>>, uri: &str)
    ensures
        map_contents(*final(map)) == purged(map_contents(*old(map)), uri@),
{
    map.retain(|_, list| keep_foreign(list, uri));
}

/// Reverses a list.
fn reversed<T>(list: Vec<T>) -> (out: Vec<T>)
    ensures
        out@.len() == list@.len(),
        forall|i: int| 0 <= i < out@.len() ==> out@[i] == list@[list@.len() - 1 - i],
{
    let mut rest = list;
    let mut out: Vec<T> = Vec::new();
    while rest.len() > 0
        invariant
            rest@.len() + out@.len() == list@.len(),
            rest@ == list@.take(rest@.len() as int),
            forall|i: int| 0 <= i < out@.len() ==> out@[i] == list@[list@.len() - 1 - i],
        decreases rest@.len(),
    {
        match rest.pop() {
            Some(item) => {
                out.push(item);
                assert(rest@ =~= list@.take(rest@.len() as int));
            },
            None => {},
        }
    }
    out
}

/// Drops the occurrences of the document `uri` from a list, keeping the
/// order of the others, and tells whether any is left.
pub fn keep_foreign(list: &mut Vec<TokenLocation>, uri: &str) -> (keep: bool)
    ensures
        locations_of(final(list)@) == without_document(locations_of(old(list)@), uri@),
        keep == (final(list)@.len() > 0),
{
    let ghost before = locations_of(list@);
    let mut taken: Vec<TokenLocation> = Vec::new();
    std::mem::swap(list, &mut taken);
    let ghost all = taken@;
    let mut backwards = reversed(taken);
    let ghost n = all.len() as int;
    assert(locations_of(list@) =~= without_document(before.take(0), uri@));
    while backwards.len() > 0
        invariant
            n == all.len(),
            before == locations_of(all),
            backwards@.len() <= n,
            forall|i: int| 0 <= i < backwards@.len() ==> backwards@[i] == all[n - 1 - i],
            locations_of(list@) == without_document(
                before.take(n - backwards@.len()),
                uri@,
            ),
        decreases backwards@.len(),
    {
        let ghost done = n - backwards@.len();
        let ghost kept = list@;
        match backwards.pop() {
            Some(item) => {
                proof {
                    assert(item == all[done]);
                    assert(before.take(done + 1).drop_last() =~= before.take(done));
                    assert(before.take(done + 1).last() == item@);
                }
                if !str_eq(item.uri.as_str(), uri) {
                    list.push(item);
                    assert(locations_of(list@) =~= locations_of(kept).push(item@));
                }
            },
            None => {},
        }
    }
    assert(before.take(n) =~= before);
    list.len() > 0
}

/// The symbol table shared by the open documents.
pub struct SymbolTable {
    map: DashMap<String, Vec<TokenLocation>>,
}

impl View for SymbolTable {
    type V = Contents;

    closed spec fn view(&self) -> Contents {
        map_contents(self.map)
    }
}

impl SymbolTable {
    /// An empty table.
    pub fn new() -> (table: SymbolTable)
        ensures
            table@ == Contents::empty(),
    {
        SymbolTable { map: new_map() }
    }

    /// The occurrences recorded under `token`, in indexing order.
    pub fn candidates(&self, token: &str) -> (list: Vec<TokenLocation>)
        ensures
            locations_of(list@) == candidates_of(self@, token@),
            list@.len() == candidates_of(self@, token@).len(),
    {
        match map_get(&self.map, token) {
            Some(list) => list,
            None => {
                let list: Vec<TokenLocation> = Vec::new();
                assert(locations_of(list@) =~= Seq::empty());
                list
            },
        }
    }

    /// Records one more occurrence, after those already under its token.
    pub fn append(&mut self, entry: IndexEntry)
        ensures
            final(self)@ == appended_one(old(self)@, entry@),
    {
        let IndexEntry { token, location } = entry;
        let mut list = match map_remove(&mut self.map, token.as_str()) {
            Some(list) => list,
            None => Vec::new(),
        };
        let ghost before = list@;
        assert(locations_of(before) =~= candidates_of(old(self)@, token@));
        list.push(location);
        assert(locations_of(list@) =~= locations_of(before).push(location@));
        map_insert(&mut self.map, token, list);
        assert(self@ =~= appended_one(old(self)@, entry@));
    }

    /// Removes every occurrence of the document `uri`.
    pub fn purge_document(&mut self, uri: &str)
        ensures
            final(self)@ == purged(old(self)@, uri@),
    {
        map_retain_foreign(&mut self.map, uri);
    }

    /// Replaces the occurrences of the document `uri` by `entries`: the old
    /// ones are removed, the new ones recorded in their order.
    pub fn replace_document(&mut self, uri: &str, entries: Vec<IndexEntry>)
        ensures
            final(self)@ == replaced(old(self)@, uri@, entries_of(entries@)),
    {
        self.purge_document(uri);
        let ghost start = self@;
        let ghost all = entries_of(entries@);
        let ghost n = entries@.len() as int;
        let mut backwards = reversed(entries);
        assert(all.take(0) =~= Seq::empty());
        while backwards.len() > 0
            invariant
                n == entries@.len(),
                all == entries_of(entries@),
                backwards@.len() <= n,
                forall|i: int| 0 <= i < backwards@.len() ==> backwards@[i] == entries@[n - 1 - i],
                self@ == appended(start, all.take(n - backwards@.len())),
            decreases backwards@.len(),
        {
            let ghost done = n - backwards@.len();
            match backwards.pop() {
                Some(entry) => {
                    proof {
                        assert(entry == entries@[done]);
                        assert(all.take(done + 1).drop_last() =~= all.take(done));
                        assert(all.take(done + 1).last() == entry@);
                    }
                    self.append(entry);
                },
                None => {},
            }
        }
        assert(all.take(n) =~= all);
    }
}

/// What is left of a list without a document was in the list.
pub proof fn lemma_without_document_members(
    locations: Seq<TokenLocationView>,
    uri: Seq<char>,
    j: int,
)
    requires
        0 <= j < without_document(locations, uri).len(),
    ensures
        exists|i: int|
            0 <= i < locations.len() && (#[trigger] locations[i]) == without_document(
                locations,
                uri,
            )[j],
        without_document(locations, uri)[j].uri != uri,
    decreases locations.len(),
{
    if locations.len() > 0 {
        let rest = without_document(locations.drop_last(), uri);
        if locations.last().uri != uri && j == rest.len() {
            assert(locations[locations.len() - 1] == without_document(locations, uri)[j]);
        } else {
            lemma_without_document_members(locations.drop_last(), uri, j);
            let i = choose|i: int|
                0 <= i < locations.drop_last().len() && (#[trigger] locations.drop_last()[i])
                    == rest[j];
            assert(locations[i] == without_document(locations, uri)[j]);
        }
    }
}

/// Purging a document brings no occurrence of a later generation.
pub proof fn lemma_purged_generations(contents: Contents, uri: Seq<char>, bound: u64)
    requires
        generations_below(contents, bound),
    ensures
        generations_below(purged(contents, uri), bound),
{
    let after = purged(contents, uri);
    assert forall|token: Seq<char>, j: int|
        after.contains_key(token) && 0 <= j < after[token].len() implies (
    #[trigger] after[token][j]).scope_id.generation < bound by {
        lemma_without_document_members(contents[token], uri, j);
        let i = choose|i: int|
            0 <= i < contents[token].len() && (#[trigger] contents[token][i]) == after[token][j];
        assert(contents[token][i].scope_id.generation < bound);
    }
}

/// Appending entries of one generation keeps the table below the next.
pub proof fn lemma_appended_generations(
    contents: Contents,
    entries: Seq<IndexEntryView>,
    generation: u64,
)
    requires
        generation < u64::MAX,
        generations_below(contents, (generation + 1) as u64),
        forall|i: int|
            0 <= i < entries.len() ==> (#[trigger] entries[i]).location.scope_id.generation
                == generation,
    ensures
        generations_below(appended(contents, entries), (generation + 1) as u64),
    decreases entries.len(),
{
    if entries.len() > 0 {
        let before = appended(contents, entries.drop_last());
        assert forall|i: int| 0 <= i < entries.drop_last().len() implies (
        #[trigger] entries.drop_last()[i]).location.scope_id.generation == generation by {
            assert(entries.drop_last()[i] == entries[i]);
        }
        lemma_appended_generations(contents, entries.drop_last(), generation);
        let entry = entries.last();
        assert(entry == entries[entries.len() - 1]);
        let after = appended_one(before, entry);
        assert forall|token: Seq<char>, i: int|
            after.contains_key(token) && 0 <= i < after[token].len() implies (
        #[trigger] after[token][i]).scope_id.generation < (generation + 1) as u64 by {
            if token == entry.token {
                let old_list = candidates_of(before, entry.token);
                if i < old_list.len() {
                    assert(after[token][i] == before[token][i]);
                }
            } else {
                assert(after[token][i] == before[token][i]);
            }
        }
    }
}

/// Reindexing a document under a fresh generation keeps the table below
/// the next generation.
pub proof fn lemma_replaced_generations(
    contents: Contents,
    uri: Seq<char>,
    entries: Seq<IndexEntryView>,
    generation: u64,
)
    requires
        generation < u64::MAX,
        generations_below(contents, generation),
        forall|i: int|
            0 <= i < entries.len() ==> (#[trigger] entries[i]).location.scope_id.generation
                == generation,
    ensures
        generations_below(replaced(contents, uri, entries), (generation + 1) as u64),
{
    lemma_purged_generations(contents, uri, generation);
    let purge = purged(contents, uri);
    assert forall|token: Seq<char>, i: int|
        purge.contains_key(token) && 0 <= i < purge[token].len() implies (
    #[trigger] purge[token][i]).scope_id.generation < (generation + 1) as u64 by {
        assert(purge[token][i].scope_id.generation < generation);
    }
    lemma_appended_generations(purge, entries, generation);
}

/// Dropping a document from two lists in a row is dropping it from each.
pub proof fn lemma_without_document_concat(
    first: Seq<TokenLocationView>,
    second: Seq<TokenLocationView>,
    uri: Seq<char>,
)
    ensures
        without_document(first + second, uri) == without_document(first, uri) + without_document(
            second,
            uri,
        ),
    decreases second.len(),
{
    if second.len() == 0 {
        assert(first + second =~= first);
        assert(without_document(first, uri) + without_document(second, uri) =~= without_document(
            first,
            uri,
        ));
    } else {
        assert((first + second).drop_last() =~= first + second.drop_last());
        assert((first + second).last() == second.last());
        lemma_without_document_concat(first, second.drop_last(), uri);
        if second.last().uri != uri {
            assert(without_document(first + second, uri) =~= without_document(first, uri)
                + without_document(second, uri));
        }
    }
}

/// A list that holds nothing of a document stays as it is without it.
pub proof fn lemma_without_document_foreign(locations: Seq<TokenLocationView>, uri: Seq<char>)
    requires
        forall|i: int| 0 <= i < locations.len() ==> (#[trigger] locations[i]).uri != uri,
    ensures
        without_document(locations, uri) == locations,
    decreases locations.len(),
{
    if locations.len() > 0 {
        assert forall|i: int| 0 <= i < locations.drop_last().len() implies (
        #[trigger] locations.drop_last()[i]).uri != uri by {
            assert(locations.drop_last()[i] == locations[i]);
        }
        lemma_without_document_foreign(locations.drop_last(), uri);
        assert(locations[locations.len() - 1].uri != uri);
        assert(locations.drop_last().push(locations.last()) =~= locations);
    } else {
        assert(locations =~= Seq::empty());
    }
}

/// A list that holds only occurrences of a document is empty without it.
pub proof fn lemma_without_document_own(locations: Seq<TokenLocationView>, uri: Seq<char>)
    requires
        forall|i: int| 0 <= i < locations.len() ==> (#[trigger] locations[i]).uri == uri,
    ensures
        without_document(locations, uri) == Seq::<TokenLocationView>::empty(),
    decreases locations.len(),
{
    if locations.len() > 0 {
        assert forall|i: int| 0 <= i < locations.drop_last().len() implies (
        #[trigger] locations.drop_last()[i]).uri == uri by {
            assert(locations.drop_last()[i] == locations[i]);
        }
        lemma_without_document_own(locations.drop_last(), uri);
        assert(locations[locations.len() - 1].uri == uri);
    }
}

/// Dropping a document twice is dropping it once.
pub proof fn lemma_without_document_twice(locations: Seq<TokenLocationView>, uri: Seq<char>)
    ensures
        without_document(without_document(locations, uri), uri) == without_document(
            locations,
            uri,
        ),
{
    let once = without_document(locations, uri);
    assert forall|j: int| 0 <= j < once.len() implies (#[trigger] once[j]).uri != uri by {
        lemma_without_document_members(locations, uri, j);
    }
    lemma_without_document_foreign(once, uri);
}

/// The locations found under a token among entries were among the entries.
pub proof fn lemma_locations_for_members(entries: Seq<IndexEntryView>, token: Seq<char>, j: int)
    requires
        0 <= j < locations_for(entries, token).len(),
    ensures
        exists|i: int|
            0 <= i < entries.len() && (#[trigger] entries[i]).token == token && entries[i].location
                == locations_for(entries, token)[j],
    decreases entries.len(),
{
    if entries.len() > 0 {
        let rest = locations_for(entries.drop_last(), token);
        if entries.last().token == token && j == rest.len() {
            assert(entries[entries.len() - 1].location == locations_for(entries, token)[j]);
        } else {
            lemma_locations_for_members(entries.drop_last(), token, j);
            let i = choose|i: int|
                0 <= i < entries.drop_last().len() && (#[trigger] entries.drop_last()[i]).token
                    == token && entries.drop_last()[i].location == rest[j];
            assert(entries[i].location == locations_for(entries, token)[j]);
        }
    }
}

/// After entries were appended, a token has the occurrences it had,
/// followed by those of the entries that stand under it.
pub proof fn lemma_appended_candidates(
    contents: Contents,
    entries: Seq<IndexEntryView>,
    token: Seq<char>,
)
    ensures
        candidates_of(appended(contents, entries), token) == candidates_of(contents, token)
            + locations_for(entries, token),
        appended(contents, entries).contains_key(token) <==> contents.contains_key(token)
            || locations_for(entries, token).len() > 0,
    decreases entries.len(),
{
    if entries.len() == 0 {
        assert(candidates_of(contents, token) + locations_for(entries, token) =~= candidates_of(
            contents,
            token,
        ));
    } else {
        lemma_appended_candidates(contents, entries.drop_last(), token);
        let before = appended(contents, entries.drop_last());
        let entry = entries.last();
        if entry.token == token {
            assert(candidates_of(appended(contents, entries), token) =~= candidates_of(
                contents,
                token,
            ) + locations_for(entries, token));
        }
    }
}

/// After a document was reindexed, purging it again leaves what purging
/// it in the first place left.
pub proof fn lemma_purged_after_replaced(
    contents: Contents,
    uri: Seq<char>,
    entries: Seq<IndexEntryView>,
)
    requires
        forall|i: int| 0 <= i < entries.len() ==> (#[trigger] entries[i]).location.uri == uri,
    ensures
        purged(replaced(contents, uri, entries), uri) == purged(contents, uri),
{
    let first = purged(contents, uri);
    let again = purged(replaced(contents, uri, entries), uri);
    assert forall|token: Seq<char>| #[trigger]
        again.contains_key(token) == first.contains_key(token) by {
        lemma_purged_after_replaced_at(contents, uri, entries, token);
    }
    assert forall|token: Seq<char>| first.contains_key(token) implies #[trigger] again[token]
        == first[token] by {
        lemma_purged_after_replaced_at(contents, uri, entries, token);
    }
    assert(again =~= first);
}

proof fn lemma_purged_after_replaced_at(
    contents: Contents,
    uri: Seq<char>,
    entries: Seq<IndexEntryView>,
    token: Seq<char>,
)
    requires
        forall|i: int| 0 <= i < entries.len() ==> (#[trigger] entries[i]).location.uri == uri,
    ensures
        purged(replaced(contents, uri, entries), uri).contains_key(token) == purged(
            contents,
            uri,
        ).contains_key(token),
        purged(contents, uri).contains_key(token) ==> purged(
            replaced(contents, uri, entries),
            uri,
        )[token] == purged(contents, uri)[token],
{
    let first = purged(contents, uri);
    let after = replaced(contents, uri, entries);
    lemma_appended_candidates(first, entries, token);
    let own = locations_for(entries, token);
    assert forall|j: int| 0 <= j < own.len() implies (#[trigger] own[j]).uri == uri by {
        lemma_locations_for_members(entries, token, j);
    }
    lemma_without_document_own(own, uri);
    lemma_without_document_concat(candidates_of(first, token), own, uri);
    assert(without_document(candidates_of(first, token), uri) + Seq::<TokenLocationView>::empty()
        =~= without_document(candidates_of(first, token), uri));
    if first.contains_key(token) {
        lemma_without_document_twice(contents[token], uri);
        assert(after.contains_key(token));
        assert(without_document(after[token], uri) == first[token]);
    } else {
        assert(candidates_of(first, token) =~= Seq::empty());
        assert(without_document(candidates_of(after, token), uri) =~= Seq::empty());
    }
}

/// Reindexing a document with the entries that it was last indexed with
/// leaves the table as it is.
pub proof fn lemma_reindexing_is_idempotent(
    contents: Contents,
    uri: Seq<char>,
    entries: Seq<IndexEntryView>,
)
    requires
        forall|i: int| 0 <= i < entries.len() ==> (#[trigger] entries[i]).location.uri == uri,
    ensures
        replaced(replaced(contents, uri, entries), uri, entries) == replaced(
            contents,
            uri,
            entries,
        ),
{
    lemma_purged_after_replaced(contents, uri, entries);
}

/// No occurrence of a purged document is left under any token.
pub proof fn lemma_purged_leaves_no_entry(
    contents: Contents,
    uri: Seq<char>,
    token: Seq<char>,
    i: int,
)
    requires
        0 <= i < candidates_of(purged(contents, uri), token).len(),
    ensures
        candidates_of(purged(contents, uri), token)[i].uri != uri,
{
    lemma_without_document_members(contents[token], uri, i);
}

/// Purging a document leaves the occurrences of every other document as
/// they were, in their order.
pub proof fn lemma_purged_keeps_other_documents(
    contents: Contents,
    uri: Seq<char>,
    other: Seq<char>,
    token: Seq<char>,
)
    requires
        other != uri,
    ensures
        only_document(candidates_of(purged(contents, uri), token), other) == only_document(
            candidates_of(contents, token),
            other,
        ),
{
    lemma_only_document_of_without(candidates_of(contents, token), uri, other);
    if !contents.contains_key(token) {
        assert(without_document(candidates_of(contents, token), uri) =~= Seq::empty());
    } else if without_document(contents[token], uri).len() == 0 {
        assert(without_document(contents[token], uri) =~= Seq::empty());
    }
}

/// Dropping one document does not touch the occurrences of another.
pub proof fn lemma_only_document_of_without(
    locations: Seq<TokenLocationView>,
    uri: Seq<char>,
    other: Seq<char>,
)
    requires
        other != uri,
    ensures
        only_document(without_document(locations, uri), other) == only_document(locations, other),
    decreases locations.len(),
{
    if locations.len() > 0 {
        lemma_only_document_of_without(locations.drop_last(), uri, other);
        if locations.last().uri != uri {
            let kept = without_document(locations.drop_last(), uri).push(locations.last());
            assert(kept.drop_last() =~= without_document(locations.drop_last(), uri));
            assert(kept.last() == locations.last());
        }
    }
}

/// The occurrences of a document in two lists in a row are those in each.
pub proof fn lemma_only_document_concat(
    first: Seq<TokenLocationView>,
    second: Seq<TokenLocationView>,
    uri: Seq<char>,
)
    ensures
        only_document(first + second, uri) == only_document(first, uri) + only_document(
            second,
            uri,
        ),
    decreases second.len(),
{
    if second.len() == 0 {
        assert(first + second =~= first);
        assert(only_document(first, uri) + only_document(second, uri) =~= only_document(
            first,
            uri,
        ));
    } else {
        assert((first + second).drop_last() =~= first + second.drop_last());
        assert((first + second).last() == second.last());
        lemma_only_document_concat(first, second.drop_last(), uri);
        if second.last().uri == uri {
            assert(only_document(first + second, uri) =~= only_document(first, uri)
                + only_document(second, uri));
        }
    }
}

/// A list that holds nothing of a document has no occurrence of it.
pub proof fn lemma_only_document_foreign(locations: Seq<TokenLocationView>, uri: Seq<char>)
    requires
        forall|i: int| 0 <= i < locations.len() ==> (#[trigger] locations[i]).uri != uri,
    ensures
        only_document(locations, uri) == Seq::<TokenLocationView>::empty(),
    decreases locations.len(),
{
    if locations.len() > 0 {
        assert forall|i: int| 0 <= i < locations.drop_last().len() implies (
        #[trigger] locations.drop_last()[i]).uri != uri by {
            assert(locations.drop_last()[i] == locations[i]);
        }
        lemma_only_document_foreign(locations.drop_last(), uri);
        assert(locations[locations.len() - 1].uri != uri);
    }
}

/// A list that holds only occurrences of a document is all of them.
pub proof fn lemma_only_document_own(locations: Seq<TokenLocationView>, uri: Seq<char>)
    requires
        forall|i: int| 0 <= i < locations.len() ==> (#[trigger] locations[i]).uri == uri,
    ensures
        only_document(locations, uri) == locations,
    decreases locations.len(),
{
    if locations.len() > 0 {
        assert forall|i: int| 0 <= i < locations.drop_last().len() implies (
        #[trigger] locations.drop_last()[i]).uri == uri by {
            assert(locations.drop_last()[i] == locations[i]);
        }
        lemma_only_document_own(locations.drop_last(), uri);
        assert(locations[locations.len() - 1].uri == uri);
        assert(locations.drop_last().push(locations.last()) =~= locations);
    } else {
        assert(locations =~= Seq::empty());
    }
}

/// After a document was reindexed, its occurrences under a token are
/// those of the new entries and no others: the former ones are replaced,
/// not added to.
pub proof fn lemma_replaced_holds_the_new_entries(
    contents: Contents,
    uri: Seq<char>,
    entries: Seq<IndexEntryView>,
    token: Seq<char>,
)
    requires
        forall|i: int| 0 <= i < entries.len() ==> (#[trigger] entries[i]).location.uri == uri,
    ensures
        only_document(candidates_of(replaced(contents, uri, entries), token), uri)
            == locations_for(entries, token),
{
    let first = purged(contents, uri);
    let foreign = candidates_of(first, token);
    let own = locations_for(entries, token);
    lemma_appended_candidates(first, entries, token);
    lemma_only_document_concat(foreign, own, uri);
    assert forall|j: int| 0 <= j < foreign.len() implies (#[trigger] foreign[j]).uri != uri by {
        lemma_purged_leaves_no_entry(contents, uri, token, j);
    }
    lemma_only_document_foreign(foreign, uri);
    assert forall|j: int| 0 <= j < own.len() implies (#[trigger] own[j]).uri == uri by {
        lemma_locations_for_members(entries, token, j);
    }
    lemma_only_document_own(own, uri);
    assert(Seq::<TokenLocationView>::empty() + own =~= own);
}

/// Reindexing a document leaves the occurrences of every other document
/// as they were, in their order.
pub proof fn lemma_replaced_keeps_other_documents(
    contents: Contents,
    uri: Seq<char>,
    entries: Seq<IndexEntryView>,
    other: Seq<char>,
    token: Seq<char>,
)
    requires
        other != uri,
        forall|i: int| 0 <= i < entries.len() ==> (#[trigger] entries[i]).location.uri == uri,
    ensures
        only_document(candidates_of(replaced(contents, uri, entries), token), other)
            == only_document(candidates_of(contents, token), other),
{
    let first = purged(contents, uri);
    let foreign = candidates_of(first, token);
    let own = locations_for(entries, token);
    lemma_appended_candidates(first, entries, token);
    lemma_only_document_concat(foreign, own, other);
    assert forall|j: int| 0 <= j < own.len() implies (#[trigger] own[j]).uri != other by {
        lemma_locations_for_members(entries, token, j);
    }
    lemma_only_document_foreign(own, other);
    lemma_purged_keeps_other_documents(contents, uri, other, token);
    assert(only_document(foreign, other) + Seq::<TokenLocationView>::empty() =~= only_document(
        foreign,
        other,
    ));
}

} // verus!
