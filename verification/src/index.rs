//! The three indexes that a phrase set searches, as bundles of lookup functions.
//!
//! Nothing is supposed of what a lookup replies: two calls with the same arguments may even reply
//! differently. What a lookup may reply is written `may_..`, and the contracts of the searches
//! are stated over it.
use vstd::prelude::*;
use crate::query;
use crate::query::{FuzzyMapLookupResult, QueryWord};

verus! {

/// The words of a phrase set: `id_of` gives a word's id, and `range_of` the first and the last id
/// of the words that start with a text.
pub struct PrefixSet<G, R> {
    pub id_of: G,
    pub range_of: R,
}

impl<G, R> PrefixSet<G, R> where
    G: Fn(&str) -> Option<u64>,
    R: Fn(&str) -> Option<(u64, u64)>,
 {
    /// Both lookups can be called with any word.
    pub open spec fn callable(&self) -> bool {
        &&& forall|w: &str| #[trigger] call_requires(self.id_of, (w,))
        &&& forall|w: &str| #[trigger] call_requires(self.range_of, (w,))
    }

    /// `reply` may come back when the id of `word` is asked for.
    pub open spec fn may_get(&self, word: Seq<char>, reply: Option<u64>) -> bool {
        exists|w: &str| w@ == word && #[trigger] call_ensures(self.id_of, (w,), reply)
    }

    /// `reply` may come back when the ids of the words that start with `word` are asked for.
    pub open spec fn may_get_prefix_range(
        &self,
        word: Seq<char>,
        reply: Option<(u64, u64)>,
    ) -> bool {
        exists|w: &str| w@ == word && #[trigger] call_ensures(self.range_of, (w,), reply)
    }

    /// Asks for the id of a word.
    pub fn get(&self, word: &str) -> (reply: Option<u64>)
        requires
            self.callable(),
        ensures
            self.may_get(word@, reply),
            call_ensures(self.id_of, (word,), reply),
    {
        (self.id_of)(word)
    }

    /// Asks for the ids of the words that start with `word`.
    pub fn get_prefix_range(&self, word: &str) -> (reply: Option<(u64, u64)>)
        requires
            self.callable(),
        ensures
            self.may_get_prefix_range(word@, reply),
            call_ensures(self.range_of, (word,), reply),
    {
        (self.range_of)(word)
    }
}

/// The words that can be found by an approximate spelling. The lookup is handed the word, the
/// greatest number of edits, and the list of all words by id.
pub struct FuzzyMap<L> {
    pub find: L,
}

impl<L, E> FuzzyMap<L> where
    L: Fn(&str, u8, &Vec<String>) -> Result<Vec<FuzzyMapLookupResult>, E>,
 {
    /// The lookup can be called with any arguments.
    pub open spec fn callable(&self) -> bool {
        forall|w: &str, d: u8, words: &Vec<String>| #[trigger]
            call_requires(self.find, (w, d, words))
    }

    /// `reply` may come back when the words within `edit_distance` edits of `word` are asked for.
    pub open spec fn may_find(
        &self,
        word: Seq<char>,
        edit_distance: u8,
        words: &Vec<String>,
        reply: Result<Seq<FuzzyMapLookupResult>, E>,
    ) -> bool {
        exists|w: &str, r: Result<Vec<FuzzyMapLookupResult>, E>|
            w@ == word && hits_of(r) == reply && #[trigger] call_ensures(
                self.find,
                (w, edit_distance, words),
                r,
            )
    }

    /// Asks for the words within `edit_distance` edits of `word`.
    pub fn lookup(&self, word: &str, edit_distance: u8, words: &Vec<String>) -> (reply: Result<
        Vec<FuzzyMapLookupResult>,
        E,
    >)
        requires
            self.callable(),
        ensures
            self.may_find(word@, edit_distance, words, hits_of(reply)),
            call_ensures(self.find, (word, edit_distance, words), reply),
    {
        (self.find)(word, edit_distance, words)
    }
}

/// The reply of a fuzzy lookup, as a sequence.
pub open spec fn hits_of<E>(reply: Result<Vec<FuzzyMapLookupResult>, E>) -> Result<
    Seq<FuzzyMapLookupResult>,
    E,
> {
    match reply {
        Ok(v) => Ok(v@),
        Err(e) => Err(e),
    }
}

/// The phrases of a phrase set, as sequences of word ids.
///
/// `holds` and `holds_prefix` tell whether a query is a phrase, or the beginning of one. The
/// `combine` lookups are handed the words that may stand in each slot, and the greatest number of
/// edits in all: they pick one word for each slot so that a phrase comes out (`combine`), or the
/// beginning of one (`combine_prefixes`), or pick words for the first slots only
/// (`combine_windows`, which also tells of each combination whether it ends in a prefix).
pub struct PhraseSet<C, P, M, N, W> {
    pub holds: C,
    pub holds_prefix: P,
    pub combine: M,
    pub combine_prefixes: N,
    pub combine_windows: W,
}

/// The combinations of a reply of the phrase graph.
pub open spec fn combinations_of<E>(reply: Result<Vec<Vec<QueryWord>>, E>) -> Result<
    Seq<Seq<QueryWord>>,
    E,
> {
    match reply {
        Ok(v) => Ok(query::slots_of(v@)),
        Err(e) => Err(e),
    }
}

/// The combinations of a list of windows, each with its flag.
pub open spec fn flagged(found: Seq<(Vec<QueryWord>, bool)>) -> Seq<(Seq<QueryWord>, bool)> {
    found.map_values(|f: (Vec<QueryWord>, bool)| (f.0@, f.1))
}

/// The windows of a reply of the phrase graph.
pub open spec fn windows_of<E>(reply: Result<Vec<(Vec<QueryWord>, bool)>, E>) -> Result<
    Seq<(Seq<QueryWord>, bool)>,
    E,
> {
    match reply {
        Ok(v) => Ok(flagged(v@)),
        Err(e) => Err(e),
    }
}

impl<C, P, M, N, W, E> PhraseSet<C, P, M, N, W> where
    C: Fn(&Vec<QueryWord>) -> Result<bool, E>,
    P: Fn(&Vec<QueryWord>) -> Result<bool, E>,
    M: Fn(&Vec<Vec<QueryWord>>, u8) -> Result<Vec<Vec<QueryWord>>, E>,
    N: Fn(&Vec<Vec<QueryWord>>, u8) -> Result<Vec<Vec<QueryWord>>, E>,
    W: Fn(&[Vec<QueryWord>], u8, bool) -> Result<Vec<(Vec<QueryWord>, bool)>, E>,
 {
    /// All the lookups can be called with any arguments.
    pub open spec fn callable(&self) -> bool {
        &&& forall|q: &Vec<QueryWord>| #[trigger] call_requires(self.holds, (q,))
        &&& forall|q: &Vec<QueryWord>| #[trigger] call_requires(self.holds_prefix, (q,))
        &&& forall|q: &Vec<Vec<QueryWord>>, d: u8| #[trigger] call_requires(self.combine, (q, d))
        &&& forall|q: &Vec<Vec<QueryWord>>, d: u8| #[trigger]
            call_requires(self.combine_prefixes, (q, d))
        &&& forall|q: &[Vec<QueryWord>], d: u8, b: bool| #[trigger]
            call_requires(self.combine_windows, (q, d, b))
    }

    /// `reply` may come back when it is asked whether `query` is a phrase.
    pub open spec fn may_contain(&self, query: Seq<QueryWord>, reply: Result<bool, E>) -> bool {
        exists|q: &Vec<QueryWord>| q@ == query && #[trigger] call_ensures(self.holds, (q,), reply)
    }

    /// `reply` may come back when it is asked whether `query` begins a phrase.
    pub open spec fn may_contain_prefix(
        &self,
        query: Seq<QueryWord>,
        reply: Result<bool, E>,
    ) -> bool {
        exists|q: &Vec<QueryWord>|
            q@ == query && #[trigger] call_ensures(self.holds_prefix, (q,), reply)
    }

    /// `reply` may come back when the phrases are asked for that `slots` allow.
    pub open spec fn may_match(
        &self,
        slots: Seq<Seq<QueryWord>>,
        max_phrase_dist: u8,
        reply: Result<Seq<Seq<QueryWord>>, E>,
    ) -> bool {
        exists|q: &Vec<Vec<QueryWord>>, r: Result<Vec<Vec<QueryWord>>, E>|
            query::slots_of(q@) == slots && combinations_of(r) == reply && #[trigger] call_ensures(
                self.combine,
                (q, max_phrase_dist),
                r,
            )
    }

    /// `reply` may come back when the beginnings of phrases are asked for that `slots` allow.
    pub open spec fn may_match_prefixes(
        &self,
        slots: Seq<Seq<QueryWord>>,
        max_phrase_dist: u8,
        reply: Result<Seq<Seq<QueryWord>>, E>,
    ) -> bool {
        exists|q: &Vec<Vec<QueryWord>>, r: Result<Vec<Vec<QueryWord>>, E>|
            query::slots_of(q@) == slots && combinations_of(r) == reply && #[trigger] call_ensures(
                self.combine_prefixes,
                (q, max_phrase_dist),
                r,
            )
    }

    /// `reply` may come back when the windows at the beginning of `slots` are asked for.
    pub open spec fn may_match_windows(
        &self,
        slots: Seq<Seq<QueryWord>>,
        max_phrase_dist: u8,
        ends_in_prefix: bool,
        reply: Result<Seq<(Seq<QueryWord>, bool)>, E>,
    ) -> bool {
        exists|q: &[Vec<QueryWord>], r: Result<Vec<(Vec<QueryWord>, bool)>, E>|
            query::slots_of(q@) == slots && windows_of(r) == reply && #[trigger] call_ensures(
                self.combine_windows,
                (q, max_phrase_dist, ends_in_prefix),
                r,
            )
    }

    /// Asks whether a query is a phrase.
    pub fn contains(&self, query: &Vec<QueryWord>) -> (reply: Result<bool, E>)
        requires
            self.callable(),
        ensures
            self.may_contain(query@, reply),
            call_ensures(self.holds, (query,), reply),
    {
        (self.holds)(query)
    }

    /// Asks whether a query begins a phrase.
    pub fn contains_prefix(&self, query: &Vec<QueryWord>) -> (reply: Result<bool, E>)
        requires
            self.callable(),
        ensures
            self.may_contain_prefix(query@, reply),
            call_ensures(self.holds_prefix, (query,), reply),
    {
        (self.holds_prefix)(query)
    }

    /// Asks for the phrases that the slots allow.
    pub fn match_combinations(
        &self,
        possibilities: &Vec<Vec<QueryWord>>,
        max_phrase_dist: u8,
    ) -> (reply: Result<Vec<Vec<QueryWord>>, E>)
        requires
            self.callable(),
        ensures
            self.may_match(
                query::slots_of(possibilities@),
                max_phrase_dist,
                combinations_of(reply),
            ),
            call_ensures(self.combine, (possibilities, max_phrase_dist), reply),
    {
        (self.combine)(possibilities, max_phrase_dist)
    }

    /// Asks for the beginnings of phrases that the slots allow.
    pub fn match_combinations_as_prefixes(
        &self,
        possibilities: &Vec<Vec<QueryWord>>,
        max_phrase_dist: u8,
    ) -> (reply: Result<Vec<Vec<QueryWord>>, E>)
        requires
            self.callable(),
        ensures
            self.may_match_prefixes(
                query::slots_of(possibilities@),
                max_phrase_dist,
                combinations_of(reply),
            ),
            call_ensures(self.combine_prefixes, (possibilities, max_phrase_dist), reply),
    {
        (self.combine_prefixes)(possibilities, max_phrase_dist)
    }

    /// Asks for the windows at the beginning of the slots.
    pub fn match_combinations_as_windows(
        &self,
        possibilities: &[Vec<QueryWord>],
        max_phrase_dist: u8,
        ends_in_prefix: bool,
    ) -> (reply: Result<Vec<(Vec<QueryWord>, bool)>, E>)
        requires
            self.callable(),
        ensures
            self.may_match_windows(
                query::slots_of(possibilities@),
                max_phrase_dist,
                ends_in_prefix,
                windows_of(reply),
            ),
            call_ensures(
                self.combine_windows,
                (possibilities, max_phrase_dist, ends_in_prefix),
                reply,
            ),
    {
        (self.combine_windows)(possibilities, max_phrase_dist, ends_in_prefix)
    }
}

} // verus!
