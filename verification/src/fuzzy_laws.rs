//! What fuzzy searches come to, where the indexes hold the phrases that were inserted.
use vstd::prelude::*;
use crate::builder;
use crate::laws;
use crate::query;
use crate::query::{FuzzyMapLookupResult, QueryWord};
use crate::search;
use crate::search::{FuzzyPhraseSet, Match, SearchError};

verus! {

/// A combination of exact words makes no edits.
proof fn lemma_no_edits(c: Seq<QueryWord>)
    requires
        forall|i: int| 0 <= i < c.len() ==> query::word_distance(#[trigger] c[i]) == 0,
    ensures
        query::total_distance(c) == 0,
    decreases c.len(),
{
    if c.len() > 0 {
        assert forall|i: int| 0 <= i < c.drop_last().len() implies query::word_distance(
            #[trigger] c.drop_last()[i],
        ) == 0 by {
            assert(c.drop_last()[i] == c[i]);
        }
        lemma_no_edits(c.drop_last());
        assert(query::word_distance(c[c.len() - 1]) == 0);
    }
}

/// Beside a prefix stand only whole words.
proof fn lemma_beside_prefix(found_prefix: bool, hits: Seq<FuzzyMapLookupResult>)
    ensures
        laws::all_full(search::beside_prefix(found_prefix, hits)),
    decreases hits.len(),
{
    if hits.len() > 0 {
        lemma_beside_prefix(found_prefix, hits.drop_last());
    }
}

/// A combination that is a phrase, written out, is a phrase.
pub(crate) proof fn lemma_phrase_in_text(
    inserted: Seq<Seq<Seq<char>>>,
    words: Seq<Seq<char>>,
    phrases: Seq<Seq<u32>>,
    typed: Seq<Seq<char>>,
    from: int,
    c: Seq<QueryWord>,
)
    requires
        builder::lays_out(inserted, words, phrases),
        laws::is_phrase(phrases, c),
    ensures
        inserted.contains(query::written_out(words, typed, from, c)),
        laws::all_full(c),
{
    laws::lemma_laid_out(inserted, words, phrases);
    let all = builder::decoded_all(words, phrases);
    let k = choose|k: int|
        0 <= k < phrases.len() && c.len() == phrases[k].len() && laws::all_full(c) && laws::covers(
            c,
            #[trigger] phrases[k],
        );
    let text = query::written_out(words, typed, from, c);
    assert forall|i: int| 0 <= i < c.len() implies #[trigger] all[k][i] == text[i] by {
        assert(laws::word_covers(c[i], phrases[k][i]));
    }
    assert(all[k] =~= text);
    assert(all.contains(text));
}

/// A combination that begins a phrase can be written out, if something was typed wherever it has a
/// prefix, and if it makes no more edits than a byte holds.
pub(crate) proof fn lemma_beginning_fits(
    words: int,
    phrases: Seq<Seq<u32>>,
    typed: int,
    from: int,
    dist: u8,
    c: Seq<QueryWord>,
)
    requires
        builder::in_range(words, phrases),
        laws::is_beginning(phrases, c),
        query::total_distance(c) <= dist,
        forall|i: int| 0 <= i < c.len() && (#[trigger] c[i]) is Prefix ==> from + i < typed,
    ensures
        query::fits(words, typed, from, c),
{
    let k = choose|k: int| 0 <= k < phrases.len() && laws::covers(c, #[trigger] phrases[k]);
    assert forall|i: int| 0 <= i < c.len() implies query::word_fits(
        words,
        from + i < typed,
        #[trigger] c[i],
    ) by {
        assert(laws::word_covers(c[i], phrases[k][i]));
        assert(phrases[k][i] < words);
    }
}

/// A phrase begins itself.
pub(crate) proof fn lemma_phrase_begins(phrases: Seq<Seq<u32>>, c: Seq<QueryWord>)
    requires
        laws::is_phrase(phrases, c),
    ensures
        laws::is_beginning(phrases, c),
        laws::all_full(c),
{
    let k = choose|k: int|
        0 <= k < phrases.len() && c.len() == phrases[k].len() && laws::all_full(c) && laws::covers(
            c,
            #[trigger] phrases[k],
        );
    assert(laws::covers(c, phrases[k]));
}

impl<G, R, L, C, P, M, N, W, E> FuzzyPhraseSet<G, R, L, C, P, M, N, W> where
    G: Fn(&str) -> Option<u64>,
    R: Fn(&str) -> Option<(u64, u64)>,
    L: Fn(&str, u8, &Vec<String>) -> Result<Vec<FuzzyMapLookupResult>, E>,
    C: Fn(&Vec<QueryWord>) -> Result<bool, E>,
    P: Fn(&Vec<QueryWord>) -> Result<bool, E>,
    M: Fn(&Vec<Vec<QueryWord>>, u8) -> Result<Vec<Vec<QueryWord>>, E>,
    N: Fn(&Vec<Vec<QueryWord>>, u8) -> Result<Vec<Vec<QueryWord>>, E>,
    W: Fn(&[Vec<QueryWord>], u8, bool) -> Result<Vec<(Vec<QueryWord>, bool)>, E>,
 {
    /// Where nothing is gathered, there is nothing for some word.
    pub(crate) proof fn lemma_gathered_nothing(&self, typed: Seq<Seq<char>>, d: u8, ends_in_prefix: bool) -> (i: int)
        requires
            self.may_gather(typed, d, ends_in_prefix, Ok(None)),
        ensures
            0 <= i < typed.len(),
            self.may_answer_at(typed, d, ends_in_prefix, i, Ok(None)),
    {
        let before = choose|before: Seq<Seq<QueryWord>>| #[trigger]
            self.may_fill(typed, d, ends_in_prefix, before) && before.len() < typed.len()
                && self.may_answer_at(typed, d, ends_in_prefix, before.len() as int, Ok(None));
        before.len() as int
    }

    /// In the middle of a phrase stand only whole words.
    pub(crate) proof fn lemma_answers_are_whole(&self, word: Seq<char>, d: u8, variants: Seq<QueryWord>)
        requires
            self.may_answer(word, d, Ok(Some(variants))),
        ensures
            laws::all_full(variants),
    {
        if self.script_regex.accepts(word) {
            let reply = choose|reply: Result<Seq<FuzzyMapLookupResult>, E>| #[trigger]
                self.fuzzy_map.may_find(word, d, &self.word_list, reply) && Ok::<
                    Option<Seq<QueryWord>>,
                    E,
                >(Some(variants)) == search::fuzzy_answer(reply);
            let hits = reply->Ok_0;
            assert forall|i: int| 0 <= i < variants.len() implies (#[trigger] variants[i]) is Full by {
                assert(variants[i] == query::hit_word(hits[i]));
            }
        }
    }

    /// A prefix at the end of a phrase stands for the words that start with what was typed.
    pub(crate) proof fn lemma_last_answers(
        &self,
        word: Seq<char>,
        d: u8,
        variants: Seq<QueryWord>,
        i: int,
    )
        requires
            self.prefix_set.holds(self.words()),
            self.words().len() <= builder::ID_COUNT,
            self.may_answer_last(word, d, Ok(Some(variants))),
            0 <= i < variants.len(),
            variants[i] is Prefix,
        ensures
            forall|id: u32|
                id < self.words().len() && #[trigger] laws::word_covers(variants[i], id)
                    ==> laws::starts_with(self.words()[id as int], word),
    {
        let (range, reply) = choose|
            range: Option<(u64, u64)>,
            reply: Result<Seq<FuzzyMapLookupResult>, E>,
        | #[trigger]
            self.prefix_set.may_get_prefix_range(word, range) && #[trigger] search::last_answer(
                range,
                reply,
            ) == Ok::<Option<Seq<QueryWord>>, E>(Some(variants));
        let hits = reply->Ok_0;
        lemma_beside_prefix(true, hits);
        lemma_beside_prefix(false, hits);
        match range {
            Some((first, last)) => {
                if i > 0 {
                    assert(variants[i] == search::beside_prefix(true, hits)[i - 1]);
                }
            },
            None => {},
        }
    }

    /// A word of the set is among its own possibilities, with no edit.
    pub(crate) proof fn lemma_own_answer(&self, word: Seq<char>, d: u8, answer: Option<Seq<QueryWord>>) -> (id: u32)
        requires
            d <= 1,
            self.prefix_set.holds(self.words()),
            self.fuzzy_map.finds(self.words(), &self.script_regex),
            self.words().len() <= builder::ID_COUNT,
            self.words().contains(word),
            self.may_answer(word, d, Ok(answer)),
        ensures
            answer is Some,
            answer->Some_0.contains(QueryWord::Full { id, edit_distance: 0 }),
            id < self.words().len(),
            self.words()[id as int] == word,
    {
        if self.script_regex.accepts(word) {
            let reply = choose|reply: Result<Seq<FuzzyMapLookupResult>, E>| #[trigger]
                self.fuzzy_map.may_find(word, d, &self.word_list, reply) && Ok::<
                    Option<Seq<QueryWord>>,
                    E,
                >(answer) == search::fuzzy_answer(reply);
            let hits = reply->Ok_0;
            assert(self.fuzzy_map.may_find(word, d, &self.word_list, Ok(hits)));
            let i = choose|i: int|
                0 <= i < hits.len() && (#[trigger] hits[i]).edit_distance == 0 && hits[i].id
                    < self.words().len() && self.words()[hits[i].id as int] == word;
            assert(answer->Some_0[i] == query::hit_word(hits[i]));
            hits[i].id
        } else {
            let reply = choose|reply: Option<u64>| #[trigger]
                self.prefix_set.may_get(word, reply) && Ok::<Option<Seq<QueryWord>>, E>(answer)
                    == search::exact_answer::<E>(reply);
            let id = reply->Some_0 as u32;
            assert(answer->Some_0[0] == (QueryWord::Full { id, edit_distance: 0 }));
            id
        }
    }

    /// What a fuzzy search finds are phrases that were inserted, as long as the one that was
    /// searched for, with no more edits than were allowed.
    pub proof fn fuzzy_matches_were_inserted(
        &self,
        inserted: Seq<Seq<Seq<char>>>,
        phrases: Seq<Seq<u32>>,
        typed: Seq<Seq<char>>,
        max_word_dist: u8,
        max_phrase_dist: u8,
        matches: Seq<Match>,
    )
        requires
            self.holds(inserted, phrases),
            self.may_fuzzy_match(typed, max_word_dist, max_phrase_dist, Ok(matches)),
        ensures
            forall|m: Match| #[trigger]
                matches.contains(m) ==> inserted.contains(m.phrase) && m.phrase.len() == typed.len()
                    && m.edit_distance <= max_phrase_dist,
    {
        self.lemma_sound(inserted, phrases);
        let d = laws::one_at_most(max_word_dist);
        assert forall|m: Match| #[trigger] matches.contains(m) implies inserted.contains(m.phrase)
            && m.phrase.len() == typed.len() && m.edit_distance <= max_phrase_dist by {
            let j = choose|j: int| 0 <= j < matches.len() && matches[j] == m;
            let (slots, reply) = choose|
                slots: Seq<Seq<QueryWord>>,
                reply: Result<Seq<Seq<QueryWord>>, E>,
            | #[trigger]
                self.may_gather(typed, d, false, Ok(Some(slots))) && #[trigger] self.phrase_set.may_match(
                    slots,
                    max_phrase_dist,
                    reply,
                ) && Ok::<Seq<Match>, SearchError<E>>(matches) == search::search_result(
                    self.words(),
                    Seq::empty(),
                    reply,
                );
            let found = reply->Ok_0;
            assert(self.phrase_set.may_match(slots, max_phrase_dist, Ok(found)));
            let c = found[j];
            assert(found.contains(c));
            lemma_phrase_in_text(inserted, self.words(), phrases, Seq::empty(), 0, c);
        }
    }

    /// `q` is among what is found for the word at position `i`, whatever the lookups reply.
    pub open spec fn is_always_offered(
        &self,
        typed: Seq<Seq<char>>,
        d: u8,
        ends_in_prefix: bool,
        i: int,
        q: QueryWord,
    ) -> bool {
        forall|answer: Option<Seq<QueryWord>>| #[trigger]
            self.may_answer_at(typed, d, ends_in_prefix, i, Ok(answer)) ==> answer is Some
                && answer->Some_0.contains(q)
    }

    /// A fuzzy search looks every combination of variants up: one that picks, for each word, one
    /// of what is found for it, and that is a phrase within the edits that are allowed, is found.
    pub proof fn fuzzy_match_finds_every_combination(
        &self,
        inserted: Seq<Seq<Seq<char>>>,
        phrases: Seq<Seq<u32>>,
        typed: Seq<Seq<char>>,
        max_word_dist: u8,
        max_phrase_dist: u8,
        matches: Seq<Match>,
        c: Seq<QueryWord>,
    )
        requires
            self.holds(inserted, phrases),
            self.may_fuzzy_match(typed, max_word_dist, max_phrase_dist, Ok(matches)),
            c.len() == typed.len(),
            forall|i: int|
                0 <= i < c.len() ==> self.is_always_offered(
                    typed,
                    laws::one_at_most(max_word_dist),
                    false,
                    i,
                    #[trigger] c[i],
                ),
            query::total_distance(c) <= max_phrase_dist,
            laws::is_phrase(phrases, c),
        ensures
            matches.contains(search::match_of(self.words(), Seq::empty(), c)),
    {
        self.lemma_sound(inserted, phrases);
        let d = laws::one_at_most(max_word_dist);
        if self.may_gather(typed, d, false, Ok(None)) {
            let i = self.lemma_gathered_nothing(typed, d, false);
            assert(self.is_always_offered(typed, d, false, i, c[i]));
        } else {
            let (slots, reply) = choose|
                slots: Seq<Seq<QueryWord>>,
                reply: Result<Seq<Seq<QueryWord>>, E>,
            | #[trigger]
                self.may_gather(typed, d, false, Ok(Some(slots))) && #[trigger] self.phrase_set.may_match(
                    slots,
                    max_phrase_dist,
                    reply,
                ) && Ok::<Seq<Match>, SearchError<E>>(matches) == search::search_result(
                    self.words(),
                    Seq::empty(),
                    reply,
                );
            let found = reply->Ok_0;
            assert(self.phrase_set.may_match(slots, max_phrase_dist, Ok(found)));
            assert(slots.take(c.len() as int) =~= slots);
            assert forall|i: int| 0 <= i < c.len() implies slots[i].contains(#[trigger] c[i]) by {
                assert(self.is_always_offered(typed, d, false, i, c[i]));
                assert(self.may_answer_at(typed, d, false, i, Ok(Some(slots[i]))));
            }
            assert(found.contains(c));
            let j = choose|j: int| 0 <= j < found.len() && found[j] == c;
            assert(matches[j] == search::match_of(self.words(), Seq::empty(), c));
        }
    }

    /// A fuzzy search for the beginning of a phrase looks every combination of variants up, too:
    /// one that picks, for each word, one of what is found for it, and that begins a phrase within
    /// the edits that are allowed, is found.
    pub proof fn fuzzy_match_prefix_finds_every_combination(
        &self,
        inserted: Seq<Seq<Seq<char>>>,
        phrases: Seq<Seq<u32>>,
        typed: Seq<Seq<char>>,
        max_word_dist: u8,
        max_phrase_dist: u8,
        matches: Seq<Match>,
        c: Seq<QueryWord>,
    )
        requires
            self.holds(inserted, phrases),
            self.may_fuzzy_match_prefix(typed, max_word_dist, max_phrase_dist, Ok(matches)),
            typed.len() > 0,
            c.len() == typed.len(),
            forall|i: int|
                0 <= i < c.len() ==> self.is_always_offered(
                    typed,
                    laws::one_at_most(max_word_dist),
                    true,
                    i,
                    #[trigger] c[i],
                ),
            query::total_distance(c) <= max_phrase_dist,
            laws::is_beginning(phrases, c),
        ensures
            matches.contains(search::match_of(self.words(), typed, c)),
    {
        self.lemma_sound(inserted, phrases);
        let d = laws::one_at_most(max_word_dist);
        if self.may_gather(typed, d, true, Ok(None)) {
            let i = self.lemma_gathered_nothing(typed, d, true);
            assert(self.is_always_offered(typed, d, true, i, c[i]));
        } else {
            let (slots, reply) = choose|
                slots: Seq<Seq<QueryWord>>,
                reply: Result<Seq<Seq<QueryWord>>, E>,
            | #[trigger]
                self.may_gather(typed, d, true, Ok(Some(slots))) && #[trigger]
                self.phrase_set.may_match_prefixes(slots, max_phrase_dist, reply) && Ok::<
                    Seq<Match>,
                    SearchError<E>,
                >(matches) == search::search_result(self.words(), typed, reply);
            let found = reply->Ok_0;
            assert(self.phrase_set.may_match_prefixes(slots, max_phrase_dist, Ok(found)));
            assert(slots.take(c.len() as int) =~= slots);
            assert forall|i: int| 0 <= i < c.len() implies slots[i].contains(#[trigger] c[i]) by {
                assert(self.is_always_offered(typed, d, true, i, c[i]));
                assert(self.may_answer_at(typed, d, true, i, Ok(Some(slots[i]))));
            }
            assert(found.contains(c));
            let j = choose|j: int| 0 <= j < found.len() && found[j] == c;
            assert(matches[j] == search::match_of(self.words(), typed, c));
        }
    }

    /// A phrase that was inserted is found by a fuzzy search, with no edits.
    pub proof fn fuzzy_match_finds_what_was_inserted(
        &self,
        inserted: Seq<Seq<Seq<char>>>,
        phrases: Seq<Seq<u32>>,
        typed: Seq<Seq<char>>,
        max_word_dist: u8,
        max_phrase_dist: u8,
        matches: Seq<Match>,
    )
        requires
            self.holds(inserted, phrases),
            self.fuzzy_map.finds(self.words(), &self.script_regex),
            inserted.contains(typed),
            self.may_fuzzy_match(typed, max_word_dist, max_phrase_dist, Ok(matches)),
        ensures
            matches.contains(Match { phrase: typed, edit_distance: 0 }),
    {
        self.lemma_sound(inserted, phrases);
        let d = laws::one_at_most(max_word_dist);
        let words = self.words();
        laws::lemma_laid_out(inserted, words, phrases);
        self.lemma_words_of(inserted, phrases, typed);
        if self.may_gather(typed, d, false, Ok(None)) {
            let i = self.lemma_gathered_nothing(typed, d, false);
            self.lemma_own_answer(typed[i], d, None);
        } else {
            let (slots, reply) = choose|
                slots: Seq<Seq<QueryWord>>,
                reply: Result<Seq<Seq<QueryWord>>, E>,
            | #[trigger]
                self.may_gather(typed, d, false, Ok(Some(slots))) && #[trigger] self.phrase_set.may_match(
                    slots,
                    max_phrase_dist,
                    reply,
                ) && Ok::<Seq<Match>, SearchError<E>>(matches) == search::search_result(
                    words,
                    Seq::empty(),
                    reply,
                );
            let c = self.lemma_exact_pick(inserted, phrases, typed, d, slots);
            let found = reply->Ok_0;
            assert(self.phrase_set.may_match(slots, max_phrase_dist, Ok(found)));
            assert(slots.take(c.len() as int) =~= slots);
            assert(found.contains(c));
            let j = choose|j: int| 0 <= j < found.len() && found[j] == c;
            assert(matches[j] == search::match_of(words, Seq::empty(), c));
            assert(matches[j].phrase =~= typed);
        }
    }

    /// The words of a phrase that was inserted are words of the set.
    pub(crate) proof fn lemma_words_of(
        &self,
        inserted: Seq<Seq<Seq<char>>>,
        phrases: Seq<Seq<u32>>,
        phrase: Seq<Seq<char>>,
    )
        requires
            self.holds(inserted, phrases),
            inserted.contains(phrase),
        ensures
            forall|i: int| 0 <= i < phrase.len() ==> self.words().contains(#[trigger] phrase[i]),
    {
        self.lemma_sound(inserted, phrases);
        let k = choose|k: int| 0 <= k < inserted.len() && inserted[k] == phrase;
        assert forall|i: int| 0 <= i < phrase.len() implies self.words().contains(#[trigger] phrase[i]) by {
            assert(inserted[k].contains(phrase[i]));
            assert(builder::occurs(inserted, phrase[i]));
        }
    }

    /// A phrase that was inserted can be picked from the answers to its words, with no edits.
    pub(crate) proof fn lemma_exact_pick(
        &self,
        inserted: Seq<Seq<Seq<char>>>,
        phrases: Seq<Seq<u32>>,
        phrase: Seq<Seq<char>>,
        d: u8,
        slots: Seq<Seq<QueryWord>>,
    ) -> (c: Seq<QueryWord>)
        requires
            d <= 1,
            self.holds(inserted, phrases),
            self.fuzzy_map.finds(self.words(), &self.script_regex),
            inserted.contains(phrase),
            slots.len() == phrase.len(),
            forall|i: int|
                0 <= i < phrase.len() ==> self.may_answer(phrase[i], d, Ok(Some(#[trigger] slots[i]))),
        ensures
            c.len() == phrase.len(),
            laws::all_full(c),
            laws::is_pick(slots, c),
            laws::is_phrase(phrases, c),
            query::total_distance(c) == 0,
            forall|i: int|
                0 <= i < c.len() ==> (#[trigger] c[i])->Full_id < self.words().len()
                    && self.words()[c[i]->Full_id as int] == phrase[i],
    {
        self.lemma_sound(inserted, phrases);
        let words = self.words();
        laws::lemma_laid_out(inserted, words, phrases);
        self.lemma_words_of(inserted, phrases, phrase);
        let c = Seq::new(
            phrase.len(),
            |i: int|
                {
                    let id = choose|id: u32|
                        #[trigger] slots[i].contains(QueryWord::Full { id, edit_distance: 0 }) && id
                            < words.len() && words[id as int] == phrase[i];
                    QueryWord::Full { id, edit_distance: 0 }
                },
        );
        assert forall|i: int| 0 <= i < c.len() implies (#[trigger] c[i]) is Full && slots[i].contains(
            c[i],
        ) && c[i]->Full_edit_distance == 0 && c[i]->Full_id < words.len()
            && words[c[i]->Full_id as int] == phrase[i] by {
            let id = self.lemma_own_answer(phrase[i], d, Some(slots[i]));
            assert(slots[i].contains(QueryWord::Full { id, edit_distance: 0 }));
        }
        laws::lemma_query_in_text(words, phrases, phrase, c);
        lemma_no_edits(c);
        c
    }

    /// What a fuzzy search for the beginning of a phrase finds begins phrases that were inserted,
    /// is as long as what was searched for, and makes no more edits than were allowed.
    pub proof fn fuzzy_prefix_matches_begin_what_was_inserted(
        &self,
        inserted: Seq<Seq<Seq<char>>>,
        phrases: Seq<Seq<u32>>,
        typed: Seq<Seq<char>>,
        max_word_dist: u8,
        max_phrase_dist: u8,
        matches: Seq<Match>,
    )
        requires
            self.holds(inserted, phrases),
            self.may_fuzzy_match_prefix(typed, max_word_dist, max_phrase_dist, Ok(matches)),
        ensures
            forall|m: Match| #[trigger]
                matches.contains(m) ==> laws::begins_one(m.phrase, inserted) && m.phrase.len()
                    == typed.len() && m.edit_distance <= max_phrase_dist,
    {
        self.lemma_sound(inserted, phrases);
        let d = laws::one_at_most(max_word_dist);
        let words = self.words();
        let all = builder::decoded_all(words, phrases);
        laws::lemma_laid_out(inserted, words, phrases);
        assert forall|m: Match| #[trigger] matches.contains(m) implies laws::begins_one(m.phrase, inserted)
            && m.phrase.len() == typed.len() && m.edit_distance <= max_phrase_dist by {
            let j = choose|j: int| 0 <= j < matches.len() && matches[j] == m;
            let n = typed.len() - 1;
            let (slots, reply) = choose|
                slots: Seq<Seq<QueryWord>>,
                reply: Result<Seq<Seq<QueryWord>>, E>,
            | #[trigger]
                self.may_gather(typed, d, true, Ok(Some(slots))) && #[trigger]
                self.phrase_set.may_match_prefixes(slots, max_phrase_dist, reply) && Ok::<
                    Seq<Match>,
                    SearchError<E>,
                >(matches) == search::search_result(words, typed, reply);
            let found = reply->Ok_0;
            assert(self.phrase_set.may_match_prefixes(slots, max_phrase_dist, Ok(found)));
            let c = found[j];
            assert(found.contains(c));
            assert(slots.take(c.len() as int) =~= slots);
            let k = choose|k: int| 0 <= k < phrases.len() && laws::covers(c, #[trigger] phrases[k]);
            assert forall|i: int| 0 <= i < n implies m.phrase[i] == #[trigger] all[k][i] by {
                self.lemma_answers_are_whole(typed[i], d, slots[i]);
                assert(slots[i].contains(c[i]));
                assert(laws::word_covers(c[i], phrases[k][i]));
            }
            assert(laws::starts_with(all[k][n], m.phrase[n])) by {
                assert(slots[n].contains(c[n]));
                assert(laws::word_covers(c[n], phrases[k][n]));
                assert(phrases[k][n] < words.len());
                match c[n] {
                    QueryWord::Full { id, edit_distance } => {
                        assert(all[k][n] == m.phrase[n]);
                        assert(all[k][n].take(all[k][n].len() as int) =~= all[k][n]);
                    },
                    QueryWord::Prefix { id_range } => {
                        let i = choose|i: int| 0 <= i < slots[n].len() && slots[n][i] == c[n];
                        self.lemma_last_answers(typed[n], d, slots[n], i);
                    },
                }
            }
            assert(laws::begins(m.phrase, all[k]));
            assert(all.contains(all[k]));
            assert(inserted.contains(all[k]));
            let b = choose|b: int| 0 <= b < inserted.len() && inserted[b] == all[k];
            assert(laws::begins(m.phrase, inserted[b]));
        }
    }

    /// What begins a phrase that was inserted begins one that was laid out, and its words have
    /// answers of their own: the exact word, or for the last one the prefix.
    pub(crate) proof fn lemma_beginning_answered(
        &self,
        inserted: Seq<Seq<Seq<char>>>,
        phrases: Seq<Seq<u32>>,
        typed: Seq<Seq<char>>,
        d: u8,
    ) -> (k: int)
        requires
            d <= 1,
            self.holds(inserted, phrases),
            self.fuzzy_map.finds(self.words(), &self.script_regex),
            typed.len() > 0,
            laws::begins_one(typed, inserted),
        ensures
            0 <= k < phrases.len(),
            typed.len() <= phrases[k].len(),
            forall|i: int|
                0 <= i < typed.len() - 1 ==> (#[trigger] phrases[k][i]) < self.words().len()
                    && self.words()[phrases[k][i] as int] == typed[i],
            forall|i: int, a: Option<Seq<QueryWord>>|
                0 <= i < typed.len() - 1 && #[trigger] self.may_answer(typed[i], d, Ok(a)) ==> a is Some
                    && a->Some_0.contains(
                    QueryWord::Full { id: phrases[k][i], edit_distance: 0 },
                ),
            forall|a: Option<Seq<QueryWord>>| #[trigger]
                self.may_answer_last(typed.last(), d, Ok(a)) ==> a is Some && a->Some_0.len() > 0
                    && a->Some_0[0] is Prefix && laws::word_covers(
                    a->Some_0[0],
                    phrases[k][typed.len() - 1],
                ),
    {
        self.lemma_sound(inserted, phrases);
        let words = self.words();
        let all = builder::decoded_all(words, phrases);
        let n = typed.len() - 1;
        laws::lemma_laid_out(inserted, words, phrases);
        let b = choose|b: int| 0 <= b < inserted.len() && laws::begins(typed, #[trigger] inserted[b]);
        assert(inserted.contains(inserted[b]));
        self.lemma_words_of(inserted, phrases, inserted[b]);
        assert(all.contains(inserted[b]));
        let k = choose|k: int| 0 <= k < all.len() && all[k] == inserted[b];
        let ids = phrases[k];
        assert forall|i: int| 0 <= i <= n implies #[trigger] ids[i] < words.len() && words[ids[i] as int]
            == inserted[b][i] by {
            assert(phrases[k][i] < words.len());
            assert(all[k][i] == words[ids[i] as int]);
        }
        assert forall|i: int, a: Option<Seq<QueryWord>>|
            0 <= i < n && #[trigger] self.may_answer(typed[i], d, Ok(a)) implies a is Some
            && a->Some_0.contains(QueryWord::Full { id: ids[i], edit_distance: 0 }) by {
            assert(typed[i] == inserted[b][i]);
            let id = self.lemma_own_answer(typed[i], d, a);
            assert(words[id as int] == words[ids[i] as int]);
        }
        assert forall|a: Option<Seq<QueryWord>>| #[trigger] self.may_answer_last(typed[n], d, Ok(a)) implies a is Some
            && a->Some_0.len() > 0 && a->Some_0[0] is Prefix && laws::word_covers(a->Some_0[0], ids[n]) by {
            let (range, reply) = choose|
                range: Option<(u64, u64)>,
                reply: Result<Seq<FuzzyMapLookupResult>, E>,
            | #[trigger]
                self.prefix_set.may_get_prefix_range(typed[n], range) && #[trigger] search::last_answer(
                    range,
                    reply,
                ) == Ok::<Option<Seq<QueryWord>>, E>(a);
            assert(laws::starts_with(words[ids[n] as int], typed[n]));
        }
        assert forall|i: int| 0 <= i < n implies (#[trigger] phrases[k][i]) < words.len()
            && words[phrases[k][i] as int] == typed[i] by {
            assert(ids[i] < words.len());
            assert(typed[i] == inserted[b][i]);
        }
        k
    }

    /// The words that begin a laid out phrase, the last as a prefix, make a combination that can be
    /// picked from their answers, with no edits.
    pub(crate) proof fn lemma_prefix_pick(
        &self,
        phrases: Seq<Seq<u32>>,
        k: int,
        slots: Seq<Seq<QueryWord>>,
    ) -> (c: Seq<QueryWord>)
        requires
            slots.len() > 0,
            0 <= k < phrases.len(),
            slots.len() <= phrases[k].len(),
            forall|i: int|
                0 <= i < slots.len() - 1 ==> (#[trigger] slots[i]).contains(
                    QueryWord::Full { id: phrases[k][i], edit_distance: 0 },
                ),
            slots.last().len() > 0,
            slots.last()[0] is Prefix,
            laws::word_covers(slots.last()[0], phrases[k][slots.len() - 1]),
        ensures
            c.len() == slots.len(),
            forall|i: int|
                0 <= i < slots.len() - 1 ==> #[trigger] c[i] == (QueryWord::Full {
                    id: phrases[k][i],
                    edit_distance: 0,
                }),
            c.last() is Prefix,
            query::total_distance(c) == 0,
            laws::is_pick(slots, c),
            laws::is_beginning(phrases, c),
    {
        let n = slots.len() - 1;
        let c = Seq::new(
            slots.len(),
            |i: int|
                if i < n {
                    QueryWord::Full { id: phrases[k][i], edit_distance: 0 }
                } else {
                    slots[n][0]
                },
        );
        assert forall|i: int| 0 <= i < c.len() implies slots[i].contains(#[trigger] c[i])
            && laws::word_covers(c[i], phrases[k][i]) && query::word_distance(c[i]) == 0 by {
            if i < n {
                assert(slots[i].contains(QueryWord::Full { id: phrases[k][i], edit_distance: 0 }));
            } else {
                assert(slots[n][0] == c[i]);
            }
        }
        lemma_no_edits(c);
        assert(laws::covers(c, phrases[k]));
        c
    }

    /// What begins a phrase that was inserted is found by a fuzzy search for the beginning of a
    /// phrase, as it was typed and with no edits.
    pub proof fn fuzzy_match_prefix_finds_what_begins(
        &self,
        inserted: Seq<Seq<Seq<char>>>,
        phrases: Seq<Seq<u32>>,
        typed: Seq<Seq<char>>,
        max_word_dist: u8,
        max_phrase_dist: u8,
        matches: Seq<Match>,
    )
        requires
            self.holds(inserted, phrases),
            self.fuzzy_map.finds(self.words(), &self.script_regex),
            typed.len() > 0,
            laws::begins_one(typed, inserted),
            self.may_fuzzy_match_prefix(typed, max_word_dist, max_phrase_dist, Ok(matches)),
        ensures
            matches.contains(Match { phrase: typed, edit_distance: 0 }),
    {
        self.lemma_sound(inserted, phrases);
        let d = laws::one_at_most(max_word_dist);
        let words = self.words();
        let n = typed.len() - 1;
        let k = self.lemma_beginning_answered(inserted, phrases, typed, d);
        if self.may_gather(typed, d, true, Ok(None)) {
            let i = self.lemma_gathered_nothing(typed, d, true);
            if i < n {
                assert(self.may_answer(typed[i], d, Ok(None)));
            } else {
                assert(self.may_answer_last(typed.last(), d, Ok(None)));
            }
        } else {
            let (slots, reply) = choose|
                slots: Seq<Seq<QueryWord>>,
                reply: Result<Seq<Seq<QueryWord>>, E>,
            | #[trigger]
                self.may_gather(typed, d, true, Ok(Some(slots))) && #[trigger]
                self.phrase_set.may_match_prefixes(slots, max_phrase_dist, reply) && Ok::<
                    Seq<Match>,
                    SearchError<E>,
                >(matches) == search::search_result(words, typed, reply);
            assert(self.may_answer_at(typed, d, true, n, Ok(Some(slots[n]))));
            assert(self.may_answer_last(typed.last(), d, Ok(Some(slots[n]))));
            assert forall|i: int| 0 <= i < n implies (#[trigger] slots[i]).contains(
                QueryWord::Full { id: phrases[k][i], edit_distance: 0 },
            ) by {
                assert(self.may_answer(typed[i], d, Ok(Some(slots[i]))));
            }
            let c = self.lemma_prefix_pick(phrases, k, slots);
            let found = reply->Ok_0;
            assert(self.phrase_set.may_match_prefixes(slots, max_phrase_dist, Ok(found)));
            assert(slots.take(c.len() as int) =~= slots);
            assert(laws::is_near_pick(slots, max_phrase_dist, c));
            assert(laws::is_beginning(phrases, c));
            assert(found.contains(c));
            let j = choose|j: int| 0 <= j < found.len() && found[j] == c;
            assert(matches[j] == search::match_of(words, typed, c));
            assert forall|i: int| 0 <= i < typed.len() implies #[trigger] matches[j].phrase[i] == typed[i] by {
                if i < n {
                    assert(c[i] == (QueryWord::Full { id: phrases[k][i], edit_distance: 0 }));
                    assert(phrases[k][i] < words.len());
                }
            }
            assert(matches[j].phrase =~= typed);
        }
    }

    /// Where the indexes hold what was inserted, all that a fuzzy search finds can be written out.
    pub proof fn fuzzy_matches_fit(
        &self,
        inserted: Seq<Seq<Seq<char>>>,
        phrases: Seq<Seq<u32>>,
        typed: Seq<Seq<char>>,
        max_word_dist: u8,
        max_phrase_dist: u8,
        outcome: Result<Seq<Match>, SearchError<E>>,
    )
        requires
            self.holds(inserted, phrases),
            self.may_fuzzy_match(typed, max_word_dist, max_phrase_dist, outcome),
        ensures
            outcome != Err::<Seq<Match>, SearchError<E>>(SearchError::Unfit),
    {
        self.lemma_sound(inserted, phrases);
        let d = laws::one_at_most(max_word_dist);
        let words = self.words().len() as int;
        if outcome == Err::<Seq<Match>, SearchError<E>>(SearchError::Unfit) {
            let (slots, reply) = choose|
                slots: Seq<Seq<QueryWord>>,
                reply: Result<Seq<Seq<QueryWord>>, E>,
            | #[trigger]
                self.may_gather(typed, d, false, Ok(Some(slots))) && #[trigger] self.phrase_set.may_match(
                    slots,
                    max_phrase_dist,
                    reply,
                ) && outcome == search::search_result(self.words(), Seq::empty(), reply);
            let found = reply->Ok_0;
            assert(self.phrase_set.may_match(slots, max_phrase_dist, Ok(found)));
            assert forall|i: int| 0 <= i < found.len() implies query::fits(words, 0, 0, #[trigger] found[i]) by {
                assert(found.contains(found[i]));
                lemma_phrase_begins(phrases, found[i]);
                lemma_beginning_fits(words, phrases, 0, 0, max_phrase_dist, found[i]);
            }
            assert(search::all_fit(words, 0, found));
        }
    }

    /// Where the indexes hold what was inserted, all that a fuzzy search for the beginning of a
    /// phrase finds can be written out.
    pub proof fn fuzzy_prefix_matches_fit(
        &self,
        inserted: Seq<Seq<Seq<char>>>,
        phrases: Seq<Seq<u32>>,
        typed: Seq<Seq<char>>,
        max_word_dist: u8,
        max_phrase_dist: u8,
        outcome: Result<Seq<Match>, SearchError<E>>,
    )
        requires
            self.holds(inserted, phrases),
            self.may_fuzzy_match_prefix(typed, max_word_dist, max_phrase_dist, outcome),
        ensures
            outcome != Err::<Seq<Match>, SearchError<E>>(SearchError::Unfit),
    {
        self.lemma_sound(inserted, phrases);
        let d = laws::one_at_most(max_word_dist);
        let words = self.words().len() as int;
        let n = typed.len() as int;
        if outcome == Err::<Seq<Match>, SearchError<E>>(SearchError::Unfit) {
            let (slots, reply) = choose|
                slots: Seq<Seq<QueryWord>>,
                reply: Result<Seq<Seq<QueryWord>>, E>,
            | #[trigger]
                self.may_gather(typed, d, true, Ok(Some(slots))) && #[trigger]
                self.phrase_set.may_match_prefixes(slots, max_phrase_dist, reply) && outcome
                    == search::search_result(self.words(), typed, reply);
            let found = reply->Ok_0;
            assert(self.phrase_set.may_match_prefixes(slots, max_phrase_dist, Ok(found)));
            assert forall|i: int| 0 <= i < found.len() implies query::fits(words, n, 0, #[trigger] found[i]) by {
                assert(found.contains(found[i]));
                lemma_beginning_fits(words, phrases, n, 0, max_phrase_dist, found[i]);
            }
            assert(search::all_fit(words, n, found));
        }
    }

    /// The fuzzy index is built for one edit in a word: to allow more changes nothing.
    pub proof fn more_than_one_edit_in_a_word_changes_nothing(
        &self,
        typed: Seq<Seq<char>>,
        max_word_dist: u8,
        max_phrase_dist: u8,
        outcome: Result<Seq<Match>, SearchError<E>>,
    )
        requires
            max_word_dist > 1,
        ensures
            self.may_fuzzy_match(typed, max_word_dist, max_phrase_dist, outcome)
                <==> self.may_fuzzy_match(typed, 1, max_phrase_dist, outcome),
            self.may_fuzzy_match_prefix(typed, max_word_dist, max_phrase_dist, outcome)
                <==> self.may_fuzzy_match_prefix(typed, 1, max_phrase_dist, outcome),
    {
        assert(search::word_dist_limit(max_word_dist) == search::word_dist_limit(1));
    }
}

} // verus!
