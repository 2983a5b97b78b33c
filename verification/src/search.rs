//! The phrase set: looking phrases up, exactly and by an approximate spelling.
use vstd::prelude::*;
use crate::index;
use crate::index::{FuzzyMap, PhraseSet, PrefixSet};
use crate::query;
use crate::query::{FuzzyMapLookupResult, QueryWord};
use crate::script::ScriptPattern;
use crate::text;
use crate::text::Word;

verus! {

/// A set of phrases over a list of words, which are known by their position in the list.
pub struct FuzzyPhraseSet<G, R, L, C, P, M, N, W> {
    pub prefix_set: PrefixSet<G, R>,
    pub phrase_set: PhraseSet<C, P, M, N, W>,
    pub fuzzy_map: FuzzyMap<L>,
    pub word_list: Vec<String>,
    pub script_regex: ScriptPattern,
}

/// A phrase that a fuzzy search found.
#[derive(Debug, Eq, PartialEq, Clone)]
pub struct FuzzyMatchResult {
    pub phrase: Vec<String>,
    pub edit_distance: u8,
}

/// A found phrase as a mathematical value.
pub struct Match {
    pub phrase: Seq<Seq<char>>,
    pub edit_distance: nat,
}

impl View for FuzzyMatchResult {
    type V = Match;

    open spec fn view(&self) -> Match {
        Match { phrase: text::texts(self.phrase@), edit_distance: self.edit_distance as nat }
    }
}

/// Why a search gave no answer.
#[derive(Debug, Eq, PartialEq, Clone, Copy)]
pub enum SearchError<E> {
    /// An index failed.
    Index(E),
    /// The phrase graph replied with a combination of words that cannot be written out.
    Unfit,
}

/// What is known of the words that may stand in one place: the words, or that there are none.
pub type WordAnswer<E> = Result<Option<Seq<QueryWord>>, E>;

/// The answer of a word lookup, as a sequence.
pub open spec fn answer_of<E>(answer: Result<Option<Vec<QueryWord>>, E>) -> WordAnswer<E> {
    match answer {
        Ok(Some(v)) => Ok(Some(v@)),
        Ok(None) => Ok(None),
        Err(e) => Err(e),
    }
}

/// The slots that were filled for a phrase, as sequences.
pub open spec fn gathered_of<E>(gathered: Result<Option<Vec<Vec<QueryWord>>>, E>) -> Result<
    Option<Seq<Seq<QueryWord>>>,
    E,
> {
    match gathered {
        Ok(Some(v)) => Ok(Some(query::slots_of(v@))),
        Ok(None) => Ok(None),
        Err(e) => Err(e),
    }
}

/// The words that a fuzzy lookup gives for a place in the middle of a phrase: those that it found,
/// unless it found none.
pub open spec fn fuzzy_answer<E>(reply: Result<Seq<FuzzyMapLookupResult>, E>) -> WordAnswer<E> {
    match reply {
        Err(e) => Err(e),
        Ok(hits) => if hits.len() == 0 {
            Ok(None)
        } else {
            Ok(Some(hits.map_values(|h: FuzzyMapLookupResult| query::hit_word(h))))
        },
    }
}

/// The words that an exact lookup gives: the one word with the id that it replied.
pub open spec fn exact_answer<E>(reply: Option<u64>) -> WordAnswer<E> {
    match reply {
        Some(id) => Ok(Some(seq![QueryWord::Full { id: id as u32, edit_distance: 0 }])),
        None => Ok(None),
    }
}

/// The whole words that stand beside a prefix: all that a fuzzy lookup found, but for the exact
/// ones when the prefix was found too, since that covers them.
pub open spec fn beside_prefix(found_prefix: bool, hits: Seq<FuzzyMapLookupResult>) -> Seq<QueryWord>
    decreases hits.len(),
{
    if hits.len() == 0 {
        Seq::empty()
    } else {
        let before = beside_prefix(found_prefix, hits.drop_last());
        if found_prefix && hits.last().edit_distance == 0 {
            before
        } else {
            before.push(query::hit_word(hits.last()))
        }
    }
}

/// The words for the last place of a phrase that is still being typed: the prefix, if there are
/// words that start like this, and then what a fuzzy lookup found.
pub open spec fn last_variants(
    range: Option<(u64, u64)>,
    hits: Seq<FuzzyMapLookupResult>,
) -> Seq<QueryWord> {
    match range {
        Some((first, last)) => seq![
            QueryWord::Prefix { id_range: (first as u32, last as u32) },
        ] + beside_prefix(true, hits),
        None => beside_prefix(false, hits),
    }
}

/// The answer for the last place: its words, unless there are none.
pub open spec fn last_answer<E>(
    range: Option<(u64, u64)>,
    reply: Result<Seq<FuzzyMapLookupResult>, E>,
) -> WordAnswer<E> {
    match reply {
        Err(e) => Err(e),
        Ok(hits) => if last_variants(range, hits).len() > 0 {
            Ok(Some(last_variants(range, hits)))
        } else {
            Ok(None)
        },
    }
}

/// All the combinations can be written out.
pub open spec fn all_fit(words: int, typed: int, combinations: Seq<Seq<QueryWord>>) -> bool {
    forall|i: int| 0 <= i < combinations.len() ==> query::fits(words, typed, 0, #[trigger] combinations[i])
}

/// One combination, written out.
pub open spec fn match_of(
    words: Seq<Seq<char>>,
    typed: Seq<Seq<char>>,
    combination: Seq<QueryWord>,
) -> Match {
    Match {
        phrase: query::written_out(words, typed, 0, combination),
        edit_distance: query::total_distance(combination),
    }
}

/// The combinations, written out.
pub open spec fn matches_of(
    words: Seq<Seq<char>>,
    typed: Seq<Seq<char>>,
    combinations: Seq<Seq<QueryWord>>,
) -> Seq<Match> {
    combinations.map_values(|c: Seq<QueryWord>| match_of(words, typed, c))
}

/// What a search makes of the phrase graph's reply: each combination is written out, in the order
/// of the reply, and one that cannot be makes the search fail.
pub open spec fn search_result<E>(
    words: Seq<Seq<char>>,
    typed: Seq<Seq<char>>,
    reply: Result<Seq<Seq<QueryWord>>, E>,
) -> Result<Seq<Match>, SearchError<E>> {
    match reply {
        Err(e) => Err(SearchError::Index(e)),
        Ok(combinations) => if all_fit(words.len() as int, typed.len() as int, combinations) {
            Ok(matches_of(words, typed, combinations))
        } else {
            Err(SearchError::Unfit)
        },
    }
}

/// The matches of a list of results.
pub open spec fn seen_matches(results: Seq<FuzzyMatchResult>) -> Seq<Match> {
    results.map_values(|r: FuzzyMatchResult| r@)
}

/// The outcome of a search as a mathematical value.
pub open spec fn seen<E>(outcome: Result<Vec<FuzzyMatchResult>, SearchError<E>>) -> Result<
    Seq<Match>,
    SearchError<E>,
> {
    match outcome {
        Ok(v) => Ok(seen_matches(v@)),
        Err(e) => Err(e),
    }
}

/// The number of edits that a lookup is asked for: the index is built for one edit.
pub open spec fn word_dist_limit(max_word_dist: u8) -> u8 {
    if max_word_dist < 1 {
        max_word_dist
    } else {
        1
    }
}

/// Caps the number of edits at the one edit that the index is built for.
pub fn cap_word_dist(max_word_dist: u8) -> (r: u8)
    ensures
        r == word_dist_limit(max_word_dist),
{
    if max_word_dist < 1 {
        max_word_dist
    } else {
        1
    }
}

/// Makes query words of what a fuzzy lookup replied, for a place in the middle of a phrase.
pub fn fuzzy_possibilities<E>(reply: Result<Vec<FuzzyMapLookupResult>, E>) -> (r: Result<
    Option<Vec<QueryWord>>,
    E,
>)
    ensures
        answer_of(r) == fuzzy_answer(index::hits_of(reply)),
{
    match reply {
        Err(e) => Err(e),
        Ok(hits) => {
            if hits.len() == 0 {
                return Ok(None);
            }
            let mut variants: Vec<QueryWord> = Vec::with_capacity(hits.len());
            let mut i: usize = 0;
            while i < hits.len()
                invariant
                    i <= hits@.len(),
                    variants@ == hits@.take(i as int).map_values(
                        |h: FuzzyMapLookupResult| query::hit_word(h),
                    ),
                decreases hits@.len() - i,
            {
                variants.push(QueryWord::new_full(hits[i].id, hits[i].edit_distance));
                i = i + 1;
                assert(hits@.take(i as int) == hits@.take(i - 1).push(hits@[i - 1]));
                assert(variants@ =~= hits@.take(i as int).map_values(
                    |h: FuzzyMapLookupResult| query::hit_word(h),
                ));
            }
            assert(hits@.take(i as int) == hits@);
            Ok(Some(variants))
        },
    }
}

/// Makes query words of what the lookups replied for the last place of a phrase that is still
/// being typed.
pub fn last_possibilities<E>(
    range: Option<(u64, u64)>,
    reply: Result<Vec<FuzzyMapLookupResult>, E>,
) -> (r: Result<Option<Vec<QueryWord>>, E>)
    ensures
        answer_of(r) == last_answer(range, index::hits_of(reply)),
{
    match reply {
        Err(e) => Err(e),
        Ok(hits) => {
            let mut variants: Vec<QueryWord> = Vec::new();
            let found_prefix = match range {
                Some((first, last)) => {
                    variants.push(QueryWord::new_prefix((first as u32, last as u32)));
                    true
                },
                None => false,
            };
            let ghost head = variants@;
            let mut i: usize = 0;
            assert(hits@.take(0) == Seq::<FuzzyMapLookupResult>::empty());
            assert(variants@ =~= head + beside_prefix(found_prefix, hits@.take(0)));
            while i < hits.len()
                invariant
                    i <= hits@.len(),
                    variants@ == head + beside_prefix(found_prefix, hits@.take(i as int)),
                decreases hits@.len() - i,
            {
                assert(hits@.take(i + 1).drop_last() == hits@.take(i as int));
                if !(found_prefix && hits[i].edit_distance == 0) {
                    variants.push(QueryWord::new_full(hits[i].id, hits[i].edit_distance));
                }
                i = i + 1;
                assert(variants@ =~= head + beside_prefix(found_prefix, hits@.take(i as int)));
            }
            assert(hits@.take(i as int) == hits@);
            assert(variants@ =~= last_variants(range, hits@));
            if variants.len() > 0 {
                Ok(Some(variants))
            } else {
                Ok(None)
            }
        },
    }
}

/// Writes out what the phrase graph replied.
pub fn conclude<T: Word, E>(
    words: &Vec<String>,
    typed: &[T],
    reply: Result<Vec<Vec<QueryWord>>, E>,
) -> (r: Result<Vec<FuzzyMatchResult>, SearchError<E>>)
    ensures
        seen(r) == search_result(
            text::texts(words@),
            text::texts(typed@),
            index::combinations_of(reply),
        ),
{
    let combinations = match reply {
        Err(e) => return Err(SearchError::Index(e)),
        Ok(combinations) => combinations,
    };
    let ghost all = query::slots_of(combinations@);
    let ghost w = text::texts(words@);
    let ghost t = text::texts(typed@);
    let mut results: Vec<FuzzyMatchResult> = Vec::new();
    let mut i: usize = 0;
    while i < combinations.len()
        invariant
            i <= combinations@.len(),
            all == query::slots_of(combinations@),
            index::combinations_of(reply) == Ok::<Seq<Seq<QueryWord>>, E>(all),
            w == text::texts(words@),
            t == text::texts(typed@),
            results@.len() == i,
            forall|j: int|
                0 <= j < i ==> query::fits(w.len() as int, t.len() as int, 0, #[trigger] all[j]),
            forall|j: int| 0 <= j < i ==> (#[trigger] results@[j])@ == match_of(w, t, all[j]),
        decreases combinations@.len() - i,
    {
        match write_match(words, typed, &combinations[i]) {
            Some(found) => results.push(found),
            None => {
                assert(!query::fits(w.len() as int, t.len() as int, 0, all[i as int]));
                return Err(SearchError::Unfit);
            },
        }
        i = i + 1;
    }
    assert(seen_matches(results@) =~= matches_of(w, t, all));
    Ok(results)
}

/// Writes one combination out, if it can be.
pub fn write_match<T: Word>(words: &Vec<String>, typed: &[T], combination: &Vec<QueryWord>) -> (r: Option<
    FuzzyMatchResult,
>)
    ensures
        r is Some <==> query::fits(words@.len() as int, typed@.len() as int, 0, combination@),
        r matches Some(found) ==> found@ == match_of(
            text::texts(words@),
            text::texts(typed@),
            combination@,
        ),
{
    match query::checked_distance(words.len(), typed.len(), 0, combination) {
        Some(edit_distance) => {
            let phrase = query::write_out(words, typed, 0, combination);
            Some(FuzzyMatchResult { phrase, edit_distance })
        },
        None => None,
    }
}

impl<G, R, L, C, P, M, N, W, E> FuzzyPhraseSet<G, R, L, C, P, M, N, W> where
    G: Fn(&str) -> Option<u64>,
    R: Fn(&str) -> Option<(u64, u64)>,
    L: Fn(&str, u8, &Vec<String>) -> Result<Vec<FuzzyMapLookupResult>, E>,
    C: Fn(&Vec<QueryWord>) -> Result<bool, E>,
    P: Fn(&Vec<QueryWord>) -> Result<bool, E>,
    M: Fn(&Vec<Vec<QueryWord>>, u8) -> Result<Vec<Vec<QueryWord>>, E>,
    N: Fn(&Vec<Vec<QueryWord>>, u8) -> Result<Vec<Vec<QueryWord>>, E>,
    W: Fn(&[Vec<QueryWord>], u8, bool) -> Result<Vec<(Vec<QueryWord>, bool)>, E>,
 {
    /// The indexes can be asked anything.
    pub open spec fn callable(&self) -> bool {
        &&& self.prefix_set.callable()
        &&& self.phrase_set.callable()
        &&& self.fuzzy_map.callable()
    }

    /// The words by id.
    pub open spec fn words(&self) -> Seq<Seq<char>> {
        text::texts(self.word_list@)
    }

    /// `q` may stand for a word by its exact id.
    pub open spec fn may_be(&self, word: Seq<char>, q: QueryWord) -> bool {
        exists|id: u64| #[trigger]
            self.prefix_set.may_get(word, Some(id)) && q == (QueryWord::Full {
                id: id as u32,
                edit_distance: 0,
            })
    }

    /// `query` may be the exact ids of the first of some words.
    pub open spec fn may_identify_first(&self, words: Seq<Seq<char>>, query: Seq<QueryWord>) -> bool {
        &&& query.len() <= words.len()
        &&& forall|i: int| 0 <= i < query.len() ==> self.may_be(words[i], #[trigger] query[i])
    }

    /// `query` may be what the exact ids of `words` come to. The first word that has none makes an
    /// end to it.
    pub open spec fn may_identify(
        &self,
        words: Seq<Seq<char>>,
        query: Option<Seq<QueryWord>>,
    ) -> bool {
        match query {
            Some(q) => q.len() == words.len() && self.may_identify_first(words, q),
            None => exists|before: Seq<QueryWord>| #[trigger]
                self.may_identify_first(words, before) && before.len() < words.len()
                    && self.prefix_set.may_get(words[before.len() as int], None),
        }
    }

    /// `answer` may be what comes back for a word in the middle of a phrase: what a fuzzy lookup
    /// finds, if the word's script allows it, and else the word itself.
    pub open spec fn may_answer(
        &self,
        word: Seq<char>,
        edit_distance: u8,
        answer: WordAnswer<E>,
    ) -> bool {
        if self.script_regex.accepts(word) {
            exists|reply: Result<Seq<FuzzyMapLookupResult>, E>| #[trigger]
                self.fuzzy_map.may_find(word, edit_distance, &self.word_list, reply) && answer
                    == fuzzy_answer(reply)
        } else {
            exists|reply: Option<u64>| #[trigger]
                self.prefix_set.may_get(word, reply) && answer == exact_answer::<E>(reply)
        }
    }

    /// `answer` may be what comes back for the last word of a phrase that is still being typed:
    /// the words that start with it and, if its script allows it, what a fuzzy lookup finds.
    pub open spec fn may_answer_last(
        &self,
        word: Seq<char>,
        edit_distance: u8,
        answer: WordAnswer<E>,
    ) -> bool {
        exists|range: Option<(u64, u64)>, reply: Result<Seq<FuzzyMapLookupResult>, E>| #[trigger]
            self.prefix_set.may_get_prefix_range(word, range) && #[trigger] last_answer(range, reply)
                == answer && if self.script_regex.accepts(word) {
                self.fuzzy_map.may_find(word, edit_distance, &self.word_list, reply)
            } else {
                reply == Ok::<Seq<FuzzyMapLookupResult>, E>(Seq::empty())
            }
    }

    /// `answer` may be what comes back for the word at position `i`: only the last word of a text
    /// that ends in a prefix is looked up as such.
    pub open spec fn may_answer_at(
        &self,
        words: Seq<Seq<char>>,
        edit_distance: u8,
        ends_in_prefix: bool,
        i: int,
        answer: WordAnswer<E>,
    ) -> bool {
        if ends_in_prefix && i == words.len() - 1 {
            self.may_answer_last(words[i], edit_distance, answer)
        } else {
            self.may_answer(words[i], edit_distance, answer)
        }
    }

    /// `slots` may be what is found for the first words of a phrase.
    pub open spec fn may_fill(
        &self,
        words: Seq<Seq<char>>,
        edit_distance: u8,
        ends_in_prefix: bool,
        slots: Seq<Seq<QueryWord>>,
    ) -> bool {
        &&& slots.len() <= words.len()
        &&& forall|i: int|
            0 <= i < slots.len() ==> self.may_answer_at(
                words,
                edit_distance,
                ends_in_prefix,
                i,
                Ok(Some(#[trigger] slots[i])),
            )
    }

    /// `gathered` may be what comes of looking up the words of a phrase one after the other. The
    /// first for which there is nothing, or whose lookup fails, makes an end to it.
    pub open spec fn may_gather(
        &self,
        words: Seq<Seq<char>>,
        edit_distance: u8,
        ends_in_prefix: bool,
        gathered: Result<Option<Seq<Seq<QueryWord>>>, E>,
    ) -> bool {
        match gathered {
            Ok(Some(slots)) => slots.len() == words.len() && self.may_fill(
                words,
                edit_distance,
                ends_in_prefix,
                slots,
            ),
            Ok(None) => exists|before: Seq<Seq<QueryWord>>| #[trigger]
                self.may_fill(words, edit_distance, ends_in_prefix, before) && before.len()
                    < words.len() && self.may_answer_at(
                    words,
                    edit_distance,
                    ends_in_prefix,
                    before.len() as int,
                    Ok(None),
                ),
            Err(e) => exists|before: Seq<Seq<QueryWord>>| #[trigger]
                self.may_fill(words, edit_distance, ends_in_prefix, before) && before.len()
                    < words.len() && self.may_answer_at(
                    words,
                    edit_distance,
                    ends_in_prefix,
                    before.len() as int,
                    Err(e),
                ),
        }
    }

    /// Whether a word may be found by an approximate spelling.
    pub fn can_fuzzy_match(&self, word: &str) -> (r: bool)
        ensures
            r == self.script_regex.accepts(word@),
    {
        self.script_regex.can_fuzzy_match(word)
    }

    /// Looks up the words that may stand in the middle of a phrase where `word` was typed.
    pub fn get_nonterminal_word_possibilities(&self, word: &str, edit_distance: u8) -> (r: Result<
        Option<Vec<QueryWord>>,
        E,
    >)
        requires
            self.callable(),
        ensures
            self.may_answer(word@, edit_distance, answer_of(r)),
    {
        if self.can_fuzzy_match(word) {
            let reply = self.fuzzy_map.lookup(word, edit_distance, &self.word_list);
            assert(self.fuzzy_map.may_find(word@, edit_distance, &self.word_list, index::hits_of(reply)));
            fuzzy_possibilities(reply)
        } else {
            let reply = self.prefix_set.get(word);
            assert(self.prefix_set.may_get(word@, reply));
            match reply {
                Some(word_id) => {
                    let variants: Vec<QueryWord> = vec![QueryWord::new_full(word_id as u32, 0)];
                    assert(variants@ =~= seq![QueryWord::Full { id: word_id as u32, edit_distance: 0 }]);
                    Ok(Some(variants))
                },
                None => Ok(None),
            }
        }
    }

    /// Looks up the words that may stand at the end of a phrase where `word` was typed and is
    /// perhaps not complete.
    pub fn get_terminal_word_possibilities(&self, word: &str, edit_distance: u8) -> (r: Result<
        Option<Vec<QueryWord>>,
        E,
    >)
        requires
            self.callable(),
        ensures
            self.may_answer_last(word@, edit_distance, answer_of(r)),
    {
        let range = self.prefix_set.get_prefix_range(word);
        let reply: Result<Vec<FuzzyMapLookupResult>, E> = if self.can_fuzzy_match(word) {
            self.fuzzy_map.lookup(word, edit_distance, &self.word_list)
        } else {
            Ok(Vec::new())
        };
        let ghost hits = index::hits_of(reply);
        assert(self.prefix_set.may_get_prefix_range(word@, range));
        let r = last_possibilities(range, reply);
        assert(last_answer(range, hits) == answer_of(r));
        r
    }

    /// Looks up the exact ids of some words. `None` says that one of them has none.
    fn identify<T: Word>(&self, words: &[T]) -> (r: Option<Vec<QueryWord>>)
        requires
            self.callable(),
        ensures
            self.may_identify(
                text::texts(words@),
                match r {
                    Some(q) => Some(q@),
                    None => None,
                },
            ),
    {
        let ghost all = text::texts(words@);
        let mut id_phrase: Vec<QueryWord> = Vec::with_capacity(words.len());
        let mut i: usize = 0;
        while i < words.len()
            invariant
                self.callable(),
                all == text::texts(words@),
                i <= words@.len(),
                id_phrase@.len() == i,
                self.may_identify_first(all, id_phrase@),
            decreases words@.len() - i,
        {
            let ghost before = id_phrase@;
            let reply = self.prefix_set.get(words[i].as_text());
            assert(self.prefix_set.may_get(all[i as int], reply));
            match reply {
                Some(word_id) => {
                    id_phrase.push(QueryWord::new_full(word_id as u32, 0));
                    assert(self.may_be(all[i as int], id_phrase@[i as int]));
                    assert forall|j: int| 0 <= j < id_phrase@.len() implies self.may_be(
                        all[j],
                        #[trigger] id_phrase@[j],
                    ) by {
                        if j < i {
                            assert(id_phrase@[j] == before[j]);
                        }
                    }
                },
                None => {
                    assert(self.may_identify_first(all, before));
                    return None;
                },
            }
            i = i + 1;
        }
        Some(id_phrase)
    }

    /// Looks up the words of a phrase one after the other, up to the first for which there is
    /// nothing or whose lookup fails.
    fn gather<T: Word>(&self, words: &[T], edit_distance: u8, ends_in_prefix: bool) -> (r: Result<
        Option<Vec<Vec<QueryWord>>>,
        E,
    >)
        requires
            self.callable(),
        ensures
            self.may_gather(text::texts(words@), edit_distance, ends_in_prefix, gathered_of(r)),
    {
        let ghost all = text::texts(words@);
        let mut slots: Vec<Vec<QueryWord>> = Vec::with_capacity(words.len());
        let mut i: usize = 0;
        while i < words.len()
            invariant
                self.callable(),
                all == text::texts(words@),
                i <= words@.len(),
                slots@.len() == i,
                self.may_fill(all, edit_distance, ends_in_prefix, query::slots_of(slots@)),
            decreases words@.len() - i,
        {
            let ghost before = query::slots_of(slots@);
            let answer = if ends_in_prefix && i == words.len() - 1 {
                self.get_terminal_word_possibilities(words[i].as_text(), edit_distance)
            } else {
                self.get_nonterminal_word_possibilities(words[i].as_text(), edit_distance)
            };
            let ghost a = answer_of(answer);
            assert(self.may_answer_at(all, edit_distance, ends_in_prefix, i as int, a));
            match answer {
                Ok(Some(possibilities)) => {
                    let ghost added = possibilities@;
                    slots.push(possibilities);
                    proof {
                        let now = query::slots_of(slots@);
                        assert(now =~= before.push(added));
                        assert forall|j: int| 0 <= j < now.len() implies self.may_answer_at(
                            all,
                            edit_distance,
                            ends_in_prefix,
                            j,
                            Ok(Some(#[trigger] now[j])),
                        ) by {
                            if j < i {
                                assert(now[j] == before[j]);
                            }
                        }
                    }
                },
                Ok(None) => {
                    assert(self.may_fill(all, edit_distance, ends_in_prefix, before));
                    return Ok(None);
                },
                Err(e) => {
                    assert(self.may_fill(all, edit_distance, ends_in_prefix, before));
                    return Err(e);
                },
            }
            i = i + 1;
        }
        Ok(Some(slots))
    }

    /// `outcome` may come of asking whether `words` are a phrase of the set: they are not if one
    /// of them has no id, and else the phrase graph decides.
    pub open spec fn may_contain(&self, words: Seq<Seq<char>>, outcome: Result<bool, E>) -> bool {
        ||| outcome == Ok::<bool, E>(false) && self.may_identify(words, None)
        ||| exists|query: Seq<QueryWord>| #[trigger]
            self.may_identify(words, Some(query)) && self.phrase_set.may_contain(query, outcome)
    }

    /// Whether a phrase is in the set.
    pub fn contains<T: Word>(&self, phrase: &[T]) -> (r: Result<bool, E>)
        requires
            self.callable(),
        ensures
            self.may_contain(text::texts(phrase@), r),
    {
        match self.identify(phrase) {
            Some(id_phrase) => self.phrase_set.contains(&id_phrase),
            None => Ok(false),
        }
    }

    /// Whether a phrase is in the set. The phrase is cut at its spaces, which is no proper
    /// tokenization: where that is needed, use a tokenizer and call `contains`.
    pub fn contains_str(&self, phrase: &str) -> (r: Result<bool, E>)
        requires
            self.callable(),
        ensures
            self.may_contain(text::pieces(phrase@), r),
    {
        let phrase_v: Vec<&str> = text::split_words(phrase);
        self.contains(phrase_v.as_slice())
    }

    /// `outcome` may come of asking whether `words` begin a phrase of the set: all but the last
    /// have to be words, the last has to begin one, and then the phrase graph decides.
    pub open spec fn may_contain_prefix(
        &self,
        words: Seq<Seq<char>>,
        outcome: Result<bool, E>,
    ) -> bool {
        if words.len() == 0 {
            self.phrase_set.may_contain_prefix(Seq::empty(), outcome)
        } else {
            ||| outcome == Ok::<bool, E>(false) && self.may_identify(words.drop_last(), None)
            ||| exists|query: Seq<QueryWord>, range: Option<(u64, u64)>| #[trigger]
                self.may_identify(words.drop_last(), Some(query)) && #[trigger]
                self.prefix_set.may_get_prefix_range(words.last(), range) && match range {
                    None => outcome == Ok::<bool, E>(false),
                    Some((first, last)) => self.phrase_set.may_contain_prefix(
                        query.push(QueryWord::Prefix { id_range: (first as u32, last as u32) }),
                        outcome,
                    ),
                }
        }
    }

    /// Whether a phrase begins one of the set; its last word need not be complete.
    pub fn contains_prefix<T: Word>(&self, phrase: &[T]) -> (r: Result<bool, E>)
        requires
            self.callable(),
        ensures
            self.may_contain_prefix(text::texts(phrase@), r),
    {
        let mut id_phrase: Vec<QueryWord> = Vec::with_capacity(phrase.len());
        if phrase.len() > 0 {
            let last_idx: usize = phrase.len() - 1;
            let (front, back) = phrase.split_at(last_idx);
            let ghost all = text::texts(phrase@);
            proof {
                assert(text::texts(front@) =~= all.drop_last());
                assert(phrase@[last_idx as int].text() == all.last());
            }
            match self.identify(front) {
                Some(query) => {
                    id_phrase = query;
                },
                None => {
                    return Ok(false);
                },
            }
            let ghost query = id_phrase@;
            assert(self.may_identify(all.drop_last(), Some(query)));
            let range = self.prefix_set.get_prefix_range(phrase[last_idx].as_text());
            assert(self.prefix_set.may_get_prefix_range(all.last(), range));
            match range {
                Some((first, last)) => {
                    id_phrase.push(QueryWord::new_prefix((first as u32, last as u32)));
                    return self.phrase_set.contains_prefix(&id_phrase);
                },
                None => {
                    return Ok(false);
                },
            }
        }
        assert(id_phrase@ =~= Seq::<QueryWord>::empty());
        self.phrase_set.contains_prefix(&id_phrase)
    }

    /// Whether a phrase, which is cut at its spaces, begins one of the set.
    pub fn contains_prefix_str(&self, phrase: &str) -> (r: Result<bool, E>)
        requires
            self.callable(),
        ensures
            self.may_contain_prefix(text::pieces(phrase@), r),
    {
        let phrase_v: Vec<&str> = text::split_words(phrase);
        self.contains_prefix(phrase_v.as_slice())
    }

    /// `outcome` may come of a fuzzy search: a word for which nothing is found leaves the search
    /// without results, and else the phrase graph's combinations are written out.
    pub open spec fn may_fuzzy_match(
        &self,
        words: Seq<Seq<char>>,
        max_word_dist: u8,
        max_phrase_dist: u8,
        outcome: Result<Seq<Match>, SearchError<E>>,
    ) -> bool {
        let edit_distance = word_dist_limit(max_word_dist);
        ||| outcome == Ok::<Seq<Match>, SearchError<E>>(Seq::empty()) && self.may_gather(
            words,
            edit_distance,
            false,
            Ok(None),
        )
        ||| exists|e: E| #[trigger]
            self.may_gather(words, edit_distance, false, Err(e)) && outcome == Err::<
                Seq<Match>,
                SearchError<E>,
            >(SearchError::Index(e))
        ||| exists|slots: Seq<Seq<QueryWord>>, reply: Result<Seq<Seq<QueryWord>>, E>| #[trigger]
            self.may_gather(words, edit_distance, false, Ok(Some(slots))) && #[trigger]
            self.phrase_set.may_match(slots, max_phrase_dist, reply) && outcome == search_result(
                self.words(),
                Seq::empty(),
                reply,
            )
    }

    /// The phrases of the set that `phrase` is an approximate spelling of, with at most
    /// `max_word_dist` edits in a word (but no more than one) and `max_phrase_dist` in all.
    pub fn fuzzy_match<T: Word>(&self, phrase: &[T], max_word_dist: u8, max_phrase_dist: u8) -> (r: Result<
        Vec<FuzzyMatchResult>,
        SearchError<E>,
    >)
        requires
            self.callable(),
        ensures
            self.may_fuzzy_match(text::texts(phrase@), max_word_dist, max_phrase_dist, seen(r)),
    {
        let edit_distance: u8 = cap_word_dist(max_word_dist);
        let word_possibilities = match self.gather(phrase, edit_distance, false) {
            Ok(Some(slots)) => slots,
            Ok(None) => {
                let none: Vec<FuzzyMatchResult> = Vec::new();
                assert(seen_matches(none@) =~= Seq::<Match>::empty());
                return Ok(none);
            },
            Err(e) => {
                return Err(SearchError::Index(e));
            },
        };
        let ghost slots = query::slots_of(word_possibilities@);
        let reply = self.phrase_set.match_combinations(&word_possibilities, max_phrase_dist);
        let ghost combinations = index::combinations_of(reply);
        let nothing_typed: Vec<&str> = Vec::new();
        assert(text::texts(nothing_typed@) =~= Seq::<Seq<char>>::empty());
        assert(self.phrase_set.may_match(slots, max_phrase_dist, combinations));
        conclude(&self.word_list, nothing_typed.as_slice(), reply)
    }

    /// A fuzzy search for a phrase that is cut at its spaces.
    pub fn fuzzy_match_str(&self, phrase: &str, max_word_dist: u8, max_phrase_dist: u8) -> (r: Result<
        Vec<FuzzyMatchResult>,
        SearchError<E>,
    >)
        requires
            self.callable(),
        ensures
            self.may_fuzzy_match(text::pieces(phrase@), max_word_dist, max_phrase_dist, seen(r)),
    {
        let phrase_v: Vec<&str> = text::split_words(phrase);
        self.fuzzy_match(phrase_v.as_slice(), max_word_dist, max_phrase_dist)
    }

    /// `outcome` may come of a fuzzy search for the beginning of a phrase.
    pub open spec fn may_fuzzy_match_prefix(
        &self,
        words: Seq<Seq<char>>,
        max_word_dist: u8,
        max_phrase_dist: u8,
        outcome: Result<Seq<Match>, SearchError<E>>,
    ) -> bool {
        let edit_distance = word_dist_limit(max_word_dist);
        if words.len() == 0 {
            outcome == Ok::<Seq<Match>, SearchError<E>>(Seq::empty())
        } else {
            ||| outcome == Ok::<Seq<Match>, SearchError<E>>(Seq::empty()) && self.may_gather(
                words,
                edit_distance,
                true,
                Ok(None),
            )
            ||| exists|e: E| #[trigger]
                self.may_gather(words, edit_distance, true, Err(e)) && outcome == Err::<
                    Seq<Match>,
                    SearchError<E>,
                >(SearchError::Index(e))
            ||| exists|slots: Seq<Seq<QueryWord>>, reply: Result<Seq<Seq<QueryWord>>, E>| #[trigger]
                self.may_gather(words, edit_distance, true, Ok(Some(slots))) && #[trigger]
                self.phrase_set.may_match_prefixes(slots, max_phrase_dist, reply) && outcome
                    == search_result(self.words(), words, reply)
        }
    }

    /// The beginnings of phrases of the set that `phrase` is an approximate spelling of. The last
    /// word need not be complete, and stands in the results as it was typed where it is not.
    pub fn fuzzy_match_prefix<T: Word>(&self, phrase: &[T], max_word_dist: u8, max_phrase_dist: u8) -> (r:
        Result<Vec<FuzzyMatchResult>, SearchError<E>>)
        requires
            self.callable(),
        ensures
            self.may_fuzzy_match_prefix(
                text::texts(phrase@),
                max_word_dist,
                max_phrase_dist,
                seen(r),
            ),
    {
        let none: Vec<FuzzyMatchResult> = Vec::new();
        assert(seen_matches(none@) =~= Seq::<Match>::empty());
        if phrase.len() == 0 {
            return Ok(none);
        }
        let edit_distance: u8 = cap_word_dist(max_word_dist);
        let word_possibilities = match self.gather(phrase, edit_distance, true) {
            Ok(Some(slots)) => slots,
            Ok(None) => {
                return Ok(none);
            },
            Err(e) => {
                return Err(SearchError::Index(e));
            },
        };
        let ghost slots = query::slots_of(word_possibilities@);
        let reply = self.phrase_set.match_combinations_as_prefixes(
            &word_possibilities,
            max_phrase_dist,
        );
        assert(self.phrase_set.may_match_prefixes(slots, max_phrase_dist, index::combinations_of(reply)));
        conclude(&self.word_list, phrase, reply)
    }

    /// A fuzzy search for the beginning of a phrase, which is cut at its spaces.
    pub fn fuzzy_match_prefix_str(
        &self,
        phrase: &str,
        max_word_dist: u8,
        max_phrase_dist: u8,
    ) -> (r: Result<Vec<FuzzyMatchResult>, SearchError<E>>)
        requires
            self.callable(),
        ensures
            self.may_fuzzy_match_prefix(
                text::pieces(phrase@),
                max_word_dist,
                max_phrase_dist,
                seen(r),
            ),
    {
        let phrase_v: Vec<&str> = text::split_words(phrase);
        self.fuzzy_match_prefix(phrase_v.as_slice(), max_word_dist, max_phrase_dist)
    }
}

} // verus!
