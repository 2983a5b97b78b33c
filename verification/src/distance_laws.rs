//! What fuzzy searches come to, where the fuzzy index measures edits by a distance.
use vstd::prelude::*;
use crate::builder;
use crate::fuzzy_laws;
use crate::laws;
use crate::laws::Distance;
use crate::multi;
use crate::order;
use crate::query;
use crate::query::{FuzzyMapLookupResult, QueryWord};
use crate::script::ScriptPattern;
use crate::search;
use crate::search::{FuzzyPhraseSet, Match, SearchError};
use crate::steady_laws;

verus! {

/// What was typed may stand for a word: it is that word, or both can be found by an approximate
/// spelling and are no more than `d` edits apart.
pub open spec fn is_near(
    pattern: &ScriptPattern,
    dist: Distance,
    d: u8,
    typed: Seq<char>,
    word: Seq<char>,
) -> bool {
    typed == word || pattern.accepts(typed) && pattern.accepts(word) && dist(typed, word) <= d
}

/// What was typed may stand, word by word, for a phrase.
pub open spec fn are_near(
    pattern: &ScriptPattern,
    dist: Distance,
    d: u8,
    typed: Seq<Seq<char>>,
    phrase: Seq<Seq<char>>,
) -> bool {
    &&& typed.len() == phrase.len()
    &&& forall|i: int|
        0 <= i < phrase.len() ==> is_near(pattern, dist, d, typed[i], #[trigger] phrase[i])
}

/// The number of edits between two phrases of the same length: those between their words, added
/// up.
pub open spec fn phrase_distance(
    dist: Distance,
    typed: Seq<Seq<char>>,
    phrase: Seq<Seq<char>>,
) -> nat
    decreases phrase.len(),
{
    if phrase.len() == 0 {
        0
    } else {
        phrase_distance(dist, typed.drop_last(), phrase.drop_last()) + dist(
            typed.last(),
            phrase.last(),
        )
    }
}

/// A phrase is found once, with a certain number of edits.
pub open spec fn is_found_once(matches: Seq<Match>, phrase: Seq<Seq<char>>, edit_distance: nat) -> bool {
    &&& matches.contains(Match { phrase, edit_distance })
    &&& forall|j: int, k: int|
        0 <= j < matches.len() && 0 <= k < matches.len() && (#[trigger] matches[j]).phrase == phrase
            && (#[trigger] matches[k]).phrase == phrase ==> j == k
}

/// A combination whose words are as far as the typed ones from the words of a phrase is as far
/// from it.
proof fn lemma_distances_add_up(
    dist: Distance,
    typed: Seq<Seq<char>>,
    phrase: Seq<Seq<char>>,
    c: Seq<QueryWord>,
)
    requires
        typed.len() == phrase.len(),
        c.len() == phrase.len(),
        forall|i: int|
            0 <= i < c.len() ==> query::word_distance(#[trigger] c[i]) == dist(typed[i], phrase[i]),
    ensures
        query::total_distance(c) == phrase_distance(dist, typed, phrase),
    decreases c.len(),
{
    if c.len() > 0 {
        let front = c.drop_last();
        assert forall|i: int| 0 <= i < front.len() implies query::word_distance(#[trigger] front[i])
            == dist(typed.drop_last()[i], phrase.drop_last()[i]) by {
            assert(front[i] == c[i]);
        }
        lemma_distances_add_up(dist, typed.drop_last(), phrase.drop_last(), front);
        assert(query::word_distance(c[c.len() - 1]) == dist(typed.last(), phrase.last()));
    }
}

/// What stands beside a prefix is what was found, but for exact words where there is one.
pub(crate) proof fn lemma_beside(found_prefix: bool, hits: Seq<FuzzyMapLookupResult>)
    requires
        forall|i: int, j: int|
            0 <= i < j < hits.len() ==> (#[trigger] hits[i]).id != (#[trigger] hits[j]).id,
    ensures
        laws::all_full(search::beside_prefix(found_prefix, hits)),
        search::beside_prefix(found_prefix, hits).no_duplicates(),
        forall|id: u32, edit_distance: u8| #[trigger]
            search::beside_prefix(found_prefix, hits).contains(
                QueryWord::Full { id, edit_distance },
            ) <==> hits.contains(FuzzyMapLookupResult { id, edit_distance }) && !(found_prefix
                && edit_distance == 0),
    decreases hits.len(),
{
    if hits.len() > 0 {
        let front = hits.drop_last();
        let last = hits.last();
        let before = search::beside_prefix(found_prefix, front);
        let now = search::beside_prefix(found_prefix, hits);
        lemma_beside(found_prefix, front);
        assert(!front.contains(last)) by {
            if front.contains(last) {
                let k = choose|k: int| 0 <= k < front.len() && front[k] == last;
                assert(hits[k].id != hits[hits.len() - 1].id);
            }
        }
        assert forall|id: u32, edit_distance: u8| #[trigger]
            now.contains(QueryWord::Full { id, edit_distance }) <==> hits.contains(
            FuzzyMapLookupResult { id, edit_distance },
        ) && !(found_prefix && edit_distance == 0) by {
            let q = QueryWord::Full { id, edit_distance };
            let h = FuzzyMapLookupResult { id, edit_distance };
            assert(before.contains(q) <==> front.contains(h) && !(found_prefix && edit_distance == 0));
            if front.contains(h) {
                let k = choose|k: int| 0 <= k < front.len() && front[k] == h;
                assert(hits[k] == h);
            }
            if hits.contains(h) && h != last {
                let k = choose|k: int| 0 <= k < hits.len() && hits[k] == h;
                assert(front[k] == h);
            }
            assert(hits[hits.len() - 1] == last);
            if !(found_prefix && last.edit_distance == 0) {
                assert(now == before.push(query::hit_word(last)));
                if before.contains(q) {
                    let k = choose|k: int| 0 <= k < before.len() && before[k] == q;
                    assert(now[k] == q);
                }
                if h == last {
                    assert(now[before.len() as int] == q);
                }
                if now.contains(q) && h != last {
                    let k = choose|k: int| 0 <= k < now.len() && now[k] == q;
                    assert(before[k] == q);
                }
            }
        }
        if !(found_prefix && last.edit_distance == 0) {
            assert(!before.contains(query::hit_word(last)));
        }
    }
}

impl<G, R, L, C, P, M, N, W, E> FuzzyPhraseSet<G, R, L, C, P, M, N, W> where
    G: Fn(&str) -> Option<u64>,
    R: Fn(&str) -> Option<(u64, u64)>,
    L: Fn(&str, u8, &Vec<String>) -> Result<Vec<FuzzyMapLookupResult>, E>,
    C: Fn(&Vec<QueryWord>) -> Result<bool, E>,
    P: Fn(&Vec<QueryWord>) -> Result<bool, E>,
    M: Fn(&Vec<Vec<QueryWord>>, u8) -> Result<Vec<Vec<QueryWord>>, E>,
    N: Fn(&Vec<Vec<QueryWord>>, u8) -> Result<Vec<Vec<QueryWord>>, E>,
    W: Fn(&[Vec<QueryWord>], u8, bool) -> Result<Vec<(Vec<QueryWord>, bool)>, E>,
 {
    /// A set that holds what was inserted, and whose fuzzy index measures edits by `dist`.
    pub open spec fn holds_by(
        &self,
        inserted: Seq<Seq<Seq<char>>>,
        phrases: Seq<Seq<u32>>,
        dist: Distance,
    ) -> bool {
        &&& self.holds(inserted, phrases)
        &&& laws::is_distance(dist)
        &&& self.fuzzy_map.measures(self.words(), &self.script_regex, dist)
    }

    /// `q` may stand in the middle of a phrase where `typed` was typed.
    pub open spec fn is_offer(&self, dist: Distance, d: u8, typed: Seq<char>, q: QueryWord) -> bool {
        match q {
            QueryWord::Full { id, edit_distance } => {
                &&& id < self.words().len()
                &&& edit_distance == dist(typed, self.words()[id as int])
                &&& is_near(&self.script_regex, dist, d, typed, self.words()[id as int])
            },
            QueryWord::Prefix { id_range } => false,
        }
    }

    /// `q` may stand at the end of a phrase that is still being typed, where `typed` was typed.
    pub open spec fn is_last_offer(&self, dist: Distance, d: u8, typed: Seq<char>, q: QueryWord) -> bool {
        match q {
            QueryWord::Full { id, edit_distance } => {
                &&& self.is_offer(dist, d, typed, q)
                &&& edit_distance != 0
            },
            QueryWord::Prefix { id_range } => {
                &&& id_range.0 <= id_range.1 < self.words().len()
                &&& forall|i: int|
                    0 <= i < self.words().len() ==> (laws::starts_with(
                        #[trigger] self.words()[i],
                        typed,
                    ) <==> id_range.0 <= i <= id_range.1)
            },
        }
    }

    /// `q` may stand at position `i` of a phrase.
    pub open spec fn is_offer_at(
        &self,
        dist: Distance,
        d: u8,
        typed: Seq<Seq<char>>,
        ends_in_prefix: bool,
        i: int,
        q: QueryWord,
    ) -> bool {
        if ends_in_prefix && i == typed.len() - 1 {
            self.is_last_offer(dist, d, typed[i], q)
        } else {
            self.is_offer(dist, d, typed[i], q)
        }
    }

    /// What is found for a word in the middle of a phrase, and nothing else, may stand there.
    proof fn lemma_offers(
        &self,
        inserted: Seq<Seq<Seq<char>>>,
        phrases: Seq<Seq<u32>>,
        dist: Distance,
        d: u8,
        word: Seq<char>,
        answer: Option<Seq<QueryWord>>,
    )
        requires
            d <= 1,
            self.holds_by(inserted, phrases, dist),
            self.may_answer(word, d, Ok(answer)),
        ensures
            multi::variants_of(answer).no_duplicates(),
            forall|q: QueryWord| #[trigger]
                multi::variants_of(answer).contains(q) <==> self.is_offer(dist, d, word, q),
    {
        self.lemma_sound(inserted, phrases);
        let words = self.words();
        let variants = multi::variants_of(answer);
        laws::lemma_laid_out(inserted, words, phrases);
        if self.script_regex.accepts(word) {
            let reply = choose|reply: Result<Seq<FuzzyMapLookupResult>, E>| #[trigger]
                self.fuzzy_map.may_find(word, d, &self.word_list, reply) && Ok::<
                    Option<Seq<QueryWord>>,
                    E,
                >(answer) == search::fuzzy_answer(reply);
            let hits = reply->Ok_0;
            assert(self.fuzzy_map.may_find(word, d, &self.word_list, Ok(hits)));
            assert(variants.len() == hits.len());
            assert forall|i: int| 0 <= i < hits.len() implies #[trigger] variants[i] == query::hit_word(
                hits[i],
            ) by {}
            assert forall|i: int, j: int| 0 <= i < j < variants.len() implies variants[i]
                != variants[j] by {
                assert(variants[i] == query::hit_word(hits[i]));
                assert(variants[j] == query::hit_word(hits[j]));
                assert(hits[i].id != hits[j].id);
            }
            assert forall|q: QueryWord| #[trigger] variants.contains(q) <==> self.is_offer(
                dist,
                d,
                word,
                q,
            ) by {
                match q {
                    QueryWord::Full { id, edit_distance } => {
                        let h = FuzzyMapLookupResult { id, edit_distance };
                        assert(hits.contains(h) <==> id < words.len() && self.script_regex.accepts(
                            words[id as int],
                        ) && edit_distance == dist(word, words[id as int]) && edit_distance <= d);
                        if variants.contains(q) {
                            let k = choose|k: int| 0 <= k < variants.len() && variants[k] == q;
                            assert(variants[k] == query::hit_word(hits[k]));
                            assert(hits[k] == h);
                        }
                        if hits.contains(h) {
                            let k = choose|k: int| 0 <= k < hits.len() && hits[k] == h;
                            assert(variants[k] == query::hit_word(hits[k]));
                        }
                        if self.is_offer(dist, d, word, q) && word == words[id as int] {
                            assert(dist(word, word) == 0);
                        }
                    },
                    QueryWord::Prefix { id_range } => {
                        if variants.contains(q) {
                            let k = choose|k: int| 0 <= k < variants.len() && variants[k] == q;
                            assert(variants[k] == query::hit_word(hits[k]));
                        }
                    },
                }
            }
        } else {
            let reply = choose|reply: Option<u64>| #[trigger]
                self.prefix_set.may_get(word, reply) && Ok::<Option<Seq<QueryWord>>, E>(answer)
                    == search::exact_answer::<E>(reply);
            assert(dist(word, word) == 0);
            assert forall|q: QueryWord| #[trigger] variants.contains(q) <==> self.is_offer(
                dist,
                d,
                word,
                q,
            ) by {
                match reply {
                    Some(id) => {
                        assert(variants[0] == (QueryWord::Full { id: id as u32, edit_distance: 0 }));
                    },
                    None => {
                        if let QueryWord::Full { id, edit_distance } = q {
                            if id < words.len() {
                                assert(words.contains(words[id as int]));
                            }
                        }
                    },
                }
            }
        }
    }

    /// What is found for the last word of a phrase that is still being typed, and nothing else, may
    /// stand there.
    proof fn lemma_last_offers(
        &self,
        inserted: Seq<Seq<Seq<char>>>,
        phrases: Seq<Seq<u32>>,
        dist: Distance,
        d: u8,
        word: Seq<char>,
        answer: Option<Seq<QueryWord>>,
    )
        requires
            d <= 1,
            self.holds_by(inserted, phrases, dist),
            self.may_answer_last(word, d, Ok(answer)),
        ensures
            multi::variants_of(answer).no_duplicates(),
            forall|q: QueryWord| #[trigger]
                multi::variants_of(answer).contains(q) <==> self.is_last_offer(dist, d, word, q),
    {
        self.lemma_sound(inserted, phrases);
        let words = self.words();
        let variants = multi::variants_of(answer);
        laws::lemma_laid_out(inserted, words, phrases);
        let (range, reply) = choose|
            range: Option<(u64, u64)>,
            reply: Result<Seq<FuzzyMapLookupResult>, E>,
        | #[trigger]
            self.prefix_set.may_get_prefix_range(word, range) && #[trigger] search::last_answer(
                range,
                reply,
            ) == Ok::<Option<Seq<QueryWord>>, E>(answer) && if self.script_regex.accepts(word) {
                self.fuzzy_map.may_find(word, d, &self.word_list, reply)
            } else {
                reply == Ok::<Seq<FuzzyMapLookupResult>, E>(Seq::empty())
            };
        let hits = reply->Ok_0;
        let fp = range is Some;
        let beside = search::beside_prefix(fp, hits);
        if self.script_regex.accepts(word) {
            assert(self.fuzzy_map.may_find(word, d, &self.word_list, Ok(hits)));
            assert forall|i: int, j: int| 0 <= i < j < hits.len() implies (#[trigger] hits[i]).id
                != (#[trigger] hits[j]).id by {}
        }
        lemma_beside(fp, hits);
        assert(variants =~= search::last_variants(range, hits));
        // an exact word starts with itself
        assert forall|id: u32| id < words.len() && words[id as int] == word implies fp by {
            assert(word.take(word.len() as int) =~= word);
            assert(laws::starts_with(words[id as int], word));
        }
        let head = match range {
            Some((first, last)) => seq![
                QueryWord::Prefix { id_range: (first as u32, last as u32) },
            ],
            None => Seq::<QueryWord>::empty(),
        };
        assert(variants =~= head + beside);
        assert(variants.no_duplicates()) by {
            assert forall|i: int, j: int| 0 <= i < j < variants.len() implies variants[i]
                != variants[j] by {
                assert(variants[j] == beside[j - head.len()]);
                if i >= head.len() {
                    assert(variants[i] == beside[i - head.len()]);
                } else {
                    assert(variants[i] is Prefix);
                    assert(beside[j - head.len()] is Full);
                }
            }
        }
        assert forall|q: QueryWord| #[trigger] variants.contains(q) <==> self.is_last_offer(
            dist,
            d,
            word,
            q,
        ) by {
            if beside.contains(q) {
                let k = choose|k: int| 0 <= k < beside.len() && beside[k] == q;
                assert(variants[k + head.len()] == q);
            }
            match q {
                QueryWord::Full { id, edit_distance } => {
                    let h = FuzzyMapLookupResult { id, edit_distance };
                    if variants.contains(q) {
                        let k = choose|k: int| 0 <= k < variants.len() && variants[k] == q;
                        assert(k >= head.len());
                        assert(beside[k - head.len()] == q);
                    }
                    assert(beside.contains(q) <==> hits.contains(h) && !(fp && edit_distance == 0));
                    if self.script_regex.accepts(word) {
                        assert(hits.contains(h) <==> id < words.len() && self.script_regex.accepts(
                            words[id as int],
                        ) && edit_distance == dist(word, words[id as int]) && edit_distance <= d);
                    }
                    if id < words.len() {
                        assert(dist(word, words[id as int]) == 0 <==> word == words[id as int]);
                    }
                },
                QueryWord::Prefix { id_range } => {
                    if variants.contains(q) {
                        let k = choose|k: int| 0 <= k < variants.len() && variants[k] == q;
                        if k >= head.len() {
                            assert(beside[k - head.len()] is Full);
                        }
                    }
                    if self.is_last_offer(dist, d, word, q) {
                        assert(laws::starts_with(words[id_range.0 as int], word));
                        assert(laws::starts_with(words[id_range.1 as int], word));
                        if let Some((first, last)) = range {
                            assert(laws::starts_with(words[first as int], word));
                            assert(laws::starts_with(words[last as int], word));
                            assert(variants[0] == q);
                        }
                    }
                },
            }
        }
    }

    /// A combination is what a search for a phrase looks for.
    pub open spec fn is_wanted(
        &self,
        phrases: Seq<Seq<u32>>,
        dist: Distance,
        d: u8,
        typed: Seq<Seq<char>>,
        ends_in_prefix: bool,
        max_phrase_dist: u8,
        c: Seq<QueryWord>,
    ) -> bool {
        &&& c.len() == typed.len()
        &&& forall|i: int|
            0 <= i < c.len() ==> self.is_offer_at(dist, d, typed, ends_in_prefix, i, #[trigger] c[i])
        &&& query::total_distance(c) <= max_phrase_dist
        &&& if ends_in_prefix {
            laws::is_beginning(phrases, c)
        } else {
            laws::is_phrase(phrases, c)
        }
    }

    /// What is found at a position, and nothing else, may stand there.
    proof fn lemma_offers_at(
        &self,
        inserted: Seq<Seq<Seq<char>>>,
        phrases: Seq<Seq<u32>>,
        dist: Distance,
        d: u8,
        typed: Seq<Seq<char>>,
        ends_in_prefix: bool,
        i: int,
        answer: Option<Seq<QueryWord>>,
    )
        requires
            d <= 1,
            self.holds_by(inserted, phrases, dist),
            self.may_answer_at(typed, d, ends_in_prefix, i, Ok(answer)),
        ensures
            multi::variants_of(answer).no_duplicates(),
            forall|q: QueryWord| #[trigger]
                multi::variants_of(answer).contains(q) <==> self.is_offer_at(
                    dist,
                    d,
                    typed,
                    ends_in_prefix,
                    i,
                    q,
                ),
    {
        self.lemma_sound(inserted, phrases);
        if ends_in_prefix && i == typed.len() - 1 {
            self.lemma_last_offers(inserted, phrases, dist, d, typed[i], answer);
        } else {
            self.lemma_offers(inserted, phrases, dist, d, typed[i], answer);
        }
    }

    /// What a search finds is what it looks for, each combination once.
    proof fn lemma_found(
        &self,
        inserted: Seq<Seq<Seq<char>>>,
        phrases: Seq<Seq<u32>>,
        dist: Distance,
        typed: Seq<Seq<char>>,
        ends_in_prefix: bool,
        max_word_dist: u8,
        max_phrase_dist: u8,
        matches: Seq<Match>,
    ) -> (found: Seq<Seq<QueryWord>>)
        requires
            self.holds_by(inserted, phrases, dist),
            ends_in_prefix ==> typed.len() > 0,
            if ends_in_prefix {
                self.may_fuzzy_match_prefix(typed, max_word_dist, max_phrase_dist, Ok(matches))
            } else {
                self.may_fuzzy_match(typed, max_word_dist, max_phrase_dist, Ok(matches))
            },
        ensures
            matches == search::matches_of(
                self.words(),
                if ends_in_prefix {
                    typed
                } else {
                    Seq::empty()
                },
                found,
            ),
            found.no_duplicates(),
            forall|c: Seq<QueryWord>| #[trigger]
                found.contains(c) <==> self.is_wanted(
                    phrases,
                    dist,
                    laws::one_at_most(max_word_dist),
                    typed,
                    ends_in_prefix,
                    max_phrase_dist,
                    c,
                ),
    {
        self.lemma_sound(inserted, phrases);
        let d = laws::one_at_most(max_word_dist);
        let words = self.words();
        let shown = if ends_in_prefix {
            typed
        } else {
            Seq::empty()
        };
        if self.may_gather(typed, d, ends_in_prefix, Ok(None)) && matches.len() == 0 {
            let i = self.lemma_gathered_nothing(typed, d, ends_in_prefix);
            self.lemma_offers_at(inserted, phrases, dist, d, typed, ends_in_prefix, i, None);
            let none = Seq::<Seq<QueryWord>>::empty();
            assert forall|c: Seq<QueryWord>| #[trigger] none.contains(c) <==> self.is_wanted(
                phrases,
                dist,
                d,
                typed,
                ends_in_prefix,
                max_phrase_dist,
                c,
            ) by {
                if self.is_wanted(phrases, dist, d, typed, ends_in_prefix, max_phrase_dist, c) {
                    assert(self.is_offer_at(dist, d, typed, ends_in_prefix, i, c[i]));
                    assert(multi::variants_of(None).contains(c[i]));
                }
            }
            assert(matches =~= search::matches_of(words, shown, none));
            none
        } else {
            let (slots, reply) = choose|
                slots: Seq<Seq<QueryWord>>,
                reply: Result<Seq<Seq<QueryWord>>, E>,
            |
                #![trigger
                    self.may_gather(typed, d, ends_in_prefix, Ok(Some(slots))),
                    search::search_result(words, shown, reply)
                ]
                self.may_gather(typed, d, ends_in_prefix, Ok(Some(slots))) && (if ends_in_prefix {
                    self.phrase_set.may_match_prefixes(slots, max_phrase_dist, reply)
                } else {
                    self.phrase_set.may_match(slots, max_phrase_dist, reply)
                }) && Ok::<Seq<Match>, SearchError<E>>(matches) == search::search_result(
                    words,
                    shown,
                    reply,
                );
            let found = reply->Ok_0;
            if ends_in_prefix {
                assert(self.phrase_set.may_match_prefixes(slots, max_phrase_dist, Ok(found)));
            } else {
                assert(self.phrase_set.may_match(slots, max_phrase_dist, Ok(found)));
            }
            assert forall|i: int| 0 <= i < slots.len() implies (#[trigger] slots[i]).no_duplicates() && forall|
                q: QueryWord,
            | #[trigger]
                slots[i].contains(q) <==> self.is_offer_at(dist, d, typed, ends_in_prefix, i, q) by {
                self.lemma_offers_at(
                    inserted,
                    phrases,
                    dist,
                    d,
                    typed,
                    ends_in_prefix,
                    i,
                    Some(slots[i]),
                );
                assert(multi::variants_of(Some(slots[i])) == slots[i]);
            }
            assert(laws::are_distinct(slots));
            assert forall|c: Seq<QueryWord>| #[trigger] found.contains(c) <==> self.is_wanted(
                phrases,
                dist,
                d,
                typed,
                ends_in_prefix,
                max_phrase_dist,
                c,
            ) by {
                if c.len() == slots.len() {
                    assert(slots.take(c.len() as int) =~= slots);
                    if laws::is_pick(slots, c) {
                        assert forall|i: int| 0 <= i < c.len() implies self.is_offer_at(
                            dist,
                            d,
                            typed,
                            ends_in_prefix,
                            i,
                            #[trigger] c[i],
                        ) by {
                            assert(slots[i].contains(c[i]));
                        }
                    }
                    if self.is_wanted(phrases, dist, d, typed, ends_in_prefix, max_phrase_dist, c) {
                        assert forall|i: int| 0 <= i < c.len() implies slots[i].contains(
                            #[trigger] c[i],
                        ) by {
                            assert(self.is_offer_at(dist, d, typed, ends_in_prefix, i, c[i]));
                        }
                    }
                }
            }
            found
        }
    }

    /// What is looked for is near to what was typed, and as far from it as its edits add up to.
    proof fn lemma_wanted_is_near(
        &self,
        inserted: Seq<Seq<Seq<char>>>,
        phrases: Seq<Seq<u32>>,
        dist: Distance,
        d: u8,
        typed: Seq<Seq<char>>,
        ends_in_prefix: bool,
        max_phrase_dist: u8,
        c: Seq<QueryWord>,
    )
        requires
            self.holds_by(inserted, phrases, dist),
            self.is_wanted(phrases, dist, d, typed, ends_in_prefix, max_phrase_dist, c),
        ensures
            ({
                let shown = if ends_in_prefix {
                    typed
                } else {
                    Seq::empty()
                };
                let phrase = query::written_out(self.words(), shown, 0, c);
                &&& are_near(&self.script_regex, dist, d, typed, phrase)
                &&& query::total_distance(c) == phrase_distance(dist, typed, phrase)
            }),
    {
        self.lemma_sound(inserted, phrases);
        let shown = if ends_in_prefix {
            typed
        } else {
            Seq::empty()
        };
        let phrase = query::written_out(self.words(), shown, 0, c);
        assert forall|i: int| 0 <= i < c.len() implies is_near(
            &self.script_regex,
            dist,
            d,
            typed[i],
            #[trigger] phrase[i],
        ) && query::word_distance(c[i]) == dist(typed[i], phrase[i]) by {
            assert(self.is_offer_at(dist, d, typed, ends_in_prefix, i, c[i]));
            assert(dist(typed[i], typed[i]) == 0);
        }
        assert forall|i: int| 0 <= i < c.len() implies query::word_distance(#[trigger] c[i]) == dist(
            typed[i],
            phrase[i],
        ) by {
            assert(is_near(&self.script_regex, dist, d, typed[i], phrase[i]));
        }
        lemma_distances_add_up(dist, typed, phrase, c);
    }

    /// Two combinations that are looked for, and are written out alike, are the same.
    proof fn lemma_wanted_once(
        &self,
        inserted: Seq<Seq<Seq<char>>>,
        phrases: Seq<Seq<u32>>,
        dist: Distance,
        d: u8,
        typed: Seq<Seq<char>>,
        ends_in_prefix: bool,
        max_phrase_dist: u8,
        a: Seq<QueryWord>,
        b: Seq<QueryWord>,
    )
        requires
            self.holds_by(inserted, phrases, dist),
            self.is_wanted(phrases, dist, d, typed, ends_in_prefix, max_phrase_dist, a),
            self.is_wanted(phrases, dist, d, typed, ends_in_prefix, max_phrase_dist, b),
            ({
                let shown = if ends_in_prefix {
                    typed
                } else {
                    Seq::empty()
                };
                query::written_out(self.words(), shown, 0, a) == query::written_out(
                    self.words(),
                    shown,
                    0,
                    b,
                )
            }),
        ensures
            a == b,
    {
        self.lemma_sound(inserted, phrases);
        let words = self.words();
        let shown = if ends_in_prefix {
            typed
        } else {
            Seq::empty()
        };
        laws::lemma_laid_out(inserted, words, phrases);
        let x = query::written_out(words, shown, 0, a);
        let y = query::written_out(words, shown, 0, b);
        assert forall|i: int| 0 <= i < a.len() implies #[trigger] a[i] == b[i] by {
            assert(self.is_offer_at(dist, d, typed, ends_in_prefix, i, a[i]));
            assert(self.is_offer_at(dist, d, typed, ends_in_prefix, i, b[i]));
            assert(x[i] == y[i]);
            assert(dist(typed[i], typed[i]) == 0);
            match (a[i], b[i]) {
                (QueryWord::Prefix { id_range: r }, QueryWord::Prefix { id_range: s }) => {
                    assert(laws::starts_with(words[r.0 as int], typed[i]));
                    assert(laws::starts_with(words[r.1 as int], typed[i]));
                    assert(laws::starts_with(words[s.0 as int], typed[i]));
                    assert(laws::starts_with(words[s.1 as int], typed[i]));
                },
                _ => {},
            }
        }
        assert(a =~= b);
    }

    /// No phrase is found twice.
    proof fn lemma_matches_differ(
        &self,
        inserted: Seq<Seq<Seq<char>>>,
        phrases: Seq<Seq<u32>>,
        dist: Distance,
        d: u8,
        typed: Seq<Seq<char>>,
        ends_in_prefix: bool,
        max_phrase_dist: u8,
        found: Seq<Seq<QueryWord>>,
        j: int,
        k: int,
    )
        requires
            self.holds_by(inserted, phrases, dist),
            found.no_duplicates(),
            forall|c: Seq<QueryWord>| #[trigger]
                found.contains(c) ==> self.is_wanted(
                    phrases,
                    dist,
                    d,
                    typed,
                    ends_in_prefix,
                    max_phrase_dist,
                    c,
                ),
            0 <= j < found.len(),
            0 <= k < found.len(),
            ({
                let shown = if ends_in_prefix {
                    typed
                } else {
                    Seq::empty()
                };
                search::matches_of(self.words(), shown, found)[j].phrase == search::matches_of(
                    self.words(),
                    shown,
                    found,
                )[k].phrase
            }),
        ensures
            j == k,
    {
        self.lemma_sound(inserted, phrases);
        assert(found.contains(found[j]));
        assert(found.contains(found[k]));
        self.lemma_wanted_once(
            inserted,
            phrases,
            dist,
            d,
            typed,
            ends_in_prefix,
            max_phrase_dist,
            found[j],
            found[k],
        );
    }

    /// Where what is looked for was found, a phrase that is near is found, just once.
    proof fn lemma_finds_whole(
        &self,
        inserted: Seq<Seq<Seq<char>>>,
        phrases: Seq<Seq<u32>>,
        dist: Distance,
        typed: Seq<Seq<char>>,
        d: u8,
        max_phrase_dist: u8,
        found: Seq<Seq<QueryWord>>,
        matches: Seq<Match>,
        phrase: Seq<Seq<char>>,
    )
        requires
            self.holds_by(inserted, phrases, dist),
            d <= 1,
            matches == search::matches_of(
                self.words(),
                Seq::empty(),
                found,
            ),
            found.no_duplicates(),
            forall|c: Seq<QueryWord>| #[trigger]
                found.contains(c) <==> self.is_wanted(
                    phrases,
                    dist,
                    d,
                    typed,
                    false,
                    max_phrase_dist,
                    c,
                ),
            inserted.contains(phrase),
            are_near(&self.script_regex, dist, d, typed, phrase),
            phrase_distance(dist, typed, phrase) <= max_phrase_dist,
        ensures
            is_found_once(matches, phrase, phrase_distance(dist, typed, phrase)),
    {
        let words = self.words();
        let all = builder::decoded_all(words, phrases);
        laws::lemma_laid_out(inserted, words, phrases);
        assert(all.contains(phrase));
        let k = choose|k: int| 0 <= k < all.len() && all[k] == phrase;
        let ids = phrases[k];
        let c = Seq::new(
            typed.len(),
            |i: int| QueryWord::Full { id: ids[i], edit_distance: dist(typed[i], phrase[i]) as u8 },
        );
        assert forall|i: int| 0 <= i < c.len() implies self.is_offer_at(
            dist,
            d,
            typed,
            false,
            i,
            #[trigger] c[i],
        ) && query::word_distance(c[i]) == dist(typed[i], phrase[i]) && words[ids[i] as int]
            == phrase[i] && ids[i] < words.len() by {
            assert(phrases[k][i] < words.len());
            assert(all[k][i] == words[ids[i] as int]);
            assert(is_near(&self.script_regex, dist, d, typed[i], phrase[i]));
            assert(dist(typed[i], typed[i]) == 0);
        }
        lemma_distances_add_up(dist, typed, phrase, c);
        assert forall|i: int| 0 <= i < c.len() implies (#[trigger] c[i])->Full_id < words.len()
            && words[c[i]->Full_id as int] == phrase[i] by {
            assert(self.is_offer_at(dist, d, typed, false, i, c[i]));
        }
        laws::lemma_query_in_text(words, phrases, phrase, c);
        assert(self.is_wanted(phrases, dist, d, typed, false, max_phrase_dist, c));
        assert(found.contains(c));
        let j = choose|j: int| 0 <= j < found.len() && found[j] == c;
        assert(matches[j].phrase =~= phrase) by {
            assert forall|i: int| 0 <= i < c.len() implies #[trigger] matches[j].phrase[i] == phrase[i] by {
                assert(c[i]->Full_id < words.len());
            }
        }
        assert(matches[j] == (Match { phrase, edit_distance: phrase_distance(dist, typed, phrase) }));
        assert forall|a: int, b: int|
            0 <= a < matches.len() && 0 <= b < matches.len() && (#[trigger] matches[a]).phrase == phrase
                && (#[trigger] matches[b]).phrase == phrase implies a == b by {
            self.lemma_matches_differ(
                inserted,
                phrases,
                dist,
                d,
                typed,
                false,
                max_phrase_dist,
                found,
                a,
                b,
            );
        }
    }

    /// Where what is looked for was found, a beginning that is near is found, just once.
    proof fn lemma_finds_beginning(
        &self,
        inserted: Seq<Seq<Seq<char>>>,
        phrases: Seq<Seq<u32>>,
        dist: Distance,
        typed: Seq<Seq<char>>,
        d: u8,
        max_phrase_dist: u8,
        found: Seq<Seq<QueryWord>>,
        matches: Seq<Match>,
        beginning: Seq<Seq<char>>,
    )
        requires
            self.holds_by(inserted, phrases, dist),
            d <= 1,
            matches == search::matches_of(
                self.words(),
                typed,
                found,
            ),
            found.no_duplicates(),
            forall|c: Seq<QueryWord>| #[trigger]
                found.contains(c) <==> self.is_wanted(
                    phrases,
                    dist,
                    d,
                    typed,
                    true,
                    max_phrase_dist,
                    c,
                ),
            typed.len() > 0,
            is_beginning_of_one(typed.last(), beginning, inserted),
            are_near(&self.script_regex, dist, d, typed, beginning),
            phrase_distance(dist, typed, beginning) <= max_phrase_dist,
        ensures
            is_found_once(matches, beginning, phrase_distance(dist, typed, beginning)),
    {
        let words = self.words();
        let all = builder::decoded_all(words, phrases);
        let n = typed.len() - 1;
        laws::lemma_laid_out(inserted, words, phrases);
        let b = choose|b: int|
            0 <= b < inserted.len() && laws::begins(beginning, #[trigger] inserted[b]) && (
            beginning.last() == typed.last() || beginning.last() == inserted[b][n]);
        assert(inserted.contains(inserted[b]));
        assert(all.contains(inserted[b]));
        let k = choose|k: int| 0 <= k < all.len() && all[k] == inserted[b];
        let ids = phrases[k];
        let last = typed[n];
        assert forall|i: int| 0 <= i <= n implies #[trigger] ids[i] < words.len() && words[ids[i] as int]
            == inserted[b][i] by {
            assert(phrases[k][i] < words.len());
            assert(all[k][i] == words[ids[i] as int]);
        }
        let whole = beginning[n] != last;
        let range = if whole {
            (0u32, 0u32)
        } else {
            self.lemma_range(inserted, phrases, last, ids[n])
        };
        let c = Seq::new(
            typed.len(),
            |i: int|
                if i < n || whole {
                    QueryWord::Full { id: ids[i], edit_distance: dist(typed[i], beginning[i]) as u8 }
                } else {
                    QueryWord::Prefix { id_range: range }
                },
        );
        assert forall|i: int| 0 <= i < c.len() implies self.is_offer_at(
            dist,
            d,
            typed,
            true,
            i,
            #[trigger] c[i],
        ) && query::word_distance(c[i]) == dist(typed[i], beginning[i]) && laws::word_covers(
            c[i],
            ids[i],
        ) by {
            assert(is_near(&self.script_regex, dist, d, typed[i], beginning[i]));
            assert(dist(typed[i], typed[i]) == 0);
            assert(ids[i] < words.len());
            assert(dist(typed[i], beginning[i]) == 0 <==> typed[i] == beginning[i]);
            if i < n {
                assert(beginning[i] == inserted[b][i]);
            }
        }
        assert forall|i: int| 0 <= i < c.len() implies query::word_distance(#[trigger] c[i]) == dist(
            typed[i],
            beginning[i],
        ) by {
            assert(self.is_offer_at(dist, d, typed, true, i, c[i]));
        }
        lemma_distances_add_up(dist, typed, beginning, c);
        assert(laws::covers(c, phrases[k])) by {
            assert forall|i: int| 0 <= i < c.len() implies laws::word_covers(#[trigger] c[i], phrases[k][i]) by {
                assert(self.is_offer_at(dist, d, typed, true, i, c[i]));
            }
        }
        assert(self.is_wanted(phrases, dist, d, typed, true, max_phrase_dist, c));
        assert(found.contains(c));
        let j = choose|j: int| 0 <= j < found.len() && found[j] == c;
        assert forall|i: int| 0 <= i < c.len() implies #[trigger] matches[j].phrase[i] == beginning[i] by {
            assert(ids[i] < words.len());
            if i < n {
                assert(beginning[i] == inserted[b][i]);
            }
        }
        assert(matches[j].phrase =~= beginning);
        assert(matches[j] == (Match {
            phrase: beginning,
            edit_distance: phrase_distance(dist, typed, beginning),
        }));
        assert forall|x: int, y: int|
            0 <= x < matches.len() && 0 <= y < matches.len() && (#[trigger] matches[x]).phrase
                == beginning && (#[trigger] matches[y]).phrase == beginning implies x == y by {
            self.lemma_matches_differ(
                inserted,
                phrases,
                dist,
                d,
                typed,
                true,
                max_phrase_dist,
                found,
                x,
                y,
            );
        }
    }

    /// What is looked for, written out, is a phrase that was inserted, or begins one.
    proof fn lemma_wanted_was_inserted(
        &self,
        inserted: Seq<Seq<Seq<char>>>,
        phrases: Seq<Seq<u32>>,
        dist: Distance,
        d: u8,
        typed: Seq<Seq<char>>,
        ends_in_prefix: bool,
        max_phrase_dist: u8,
        c: Seq<QueryWord>,
    )
        requires
            self.holds_by(inserted, phrases, dist),
            ends_in_prefix ==> typed.len() > 0,
            self.is_wanted(phrases, dist, d, typed, ends_in_prefix, max_phrase_dist, c),
        ensures
            ends_in_prefix ==> laws::begins_one(
                query::written_out(self.words(), typed, 0, c),
                inserted,
            ),
            !ends_in_prefix ==> inserted.contains(
                query::written_out(self.words(), Seq::empty(), 0, c),
            ),
    {
        let words = self.words();
        if ends_in_prefix {
            let all = builder::decoded_all(words, phrases);
            laws::lemma_laid_out(inserted, words, phrases);
            let n = typed.len() - 1;
            let x = query::written_out(words, typed, 0, c);
            let k = choose|k: int| 0 <= k < phrases.len() && laws::covers(c, #[trigger] phrases[k]);
            assert forall|i: int| 0 <= i < n implies x[i] == #[trigger] all[k][i] by {
                assert(self.is_offer_at(dist, d, typed, true, i, c[i]));
                assert(laws::word_covers(c[i], phrases[k][i]));
            }
            assert(laws::starts_with(all[k][n], x[n])) by {
                assert(self.is_offer_at(dist, d, typed, true, n, c[n]));
                assert(laws::word_covers(c[n], phrases[k][n]));
                assert(phrases[k][n] < words.len());
                assert(all[k][n] == words[phrases[k][n] as int]);
                assert(all[k][n].take(all[k][n].len() as int) =~= all[k][n]);
            }
            assert(laws::begins(x, all[k]));
            assert(all.contains(all[k]));
            assert(inserted.contains(all[k]));
            let b = choose|b: int| 0 <= b < inserted.len() && inserted[b] == all[k];
            assert(laws::begins(x, inserted[b]));
        } else {
            fuzzy_laws::lemma_phrase_in_text(inserted, words, phrases, Seq::empty(), 0, c);
        }
    }

    /// What was found is just what is near to what was typed: all of it was inserted, or begins
    /// what was; it is near word by word, with as many edits as are given, and no more than are
    /// allowed; and everything of that kind is found, just once.
    pub open spec fn is_what_is_near(
        &self,
        inserted: Seq<Seq<Seq<char>>>,
        dist: Distance,
        typed: Seq<Seq<char>>,
        ends_in_prefix: bool,
        max_word_dist: u8,
        max_phrase_dist: u8,
        matches: Seq<Match>,
    ) -> bool {
        let d = laws::one_at_most(max_word_dist);
        &&& forall|m: Match| #[trigger]
            matches.contains(m) ==> {
                &&& if ends_in_prefix {
                    laws::begins_one(m.phrase, inserted)
                } else {
                    inserted.contains(m.phrase)
                }
                &&& are_near(&self.script_regex, dist, d, typed, m.phrase)
                &&& m.edit_distance == phrase_distance(dist, typed, m.phrase)
                &&& m.edit_distance <= max_phrase_dist
            }
        &&& forall|phrase: Seq<Seq<char>>|
            (if ends_in_prefix {
                is_beginning_of_one(typed.last(), phrase, inserted)
            } else {
                inserted.contains(phrase)
            }) && #[trigger] are_near(&self.script_regex, dist, d, typed, phrase) && phrase_distance(
                dist,
                typed,
                phrase,
            ) <= max_phrase_dist ==> is_found_once(
                matches,
                phrase,
                phrase_distance(dist, typed, phrase),
            )
    }

    /// Where what is looked for was found, each combination once, that is what is near.
    pub(crate) proof fn lemma_is_what_is_near(
        &self,
        inserted: Seq<Seq<Seq<char>>>,
        phrases: Seq<Seq<u32>>,
        dist: Distance,
        typed: Seq<Seq<char>>,
        ends_in_prefix: bool,
        max_word_dist: u8,
        max_phrase_dist: u8,
        found: Seq<Seq<QueryWord>>,
        matches: Seq<Match>,
    )
        requires
            self.holds_by(inserted, phrases, dist),
            ends_in_prefix ==> typed.len() > 0,
            matches == search::matches_of(
                self.words(),
                if ends_in_prefix {
                    typed
                } else {
                    Seq::empty()
                },
                found,
            ),
            found.no_duplicates(),
            forall|c: Seq<QueryWord>| #[trigger]
                found.contains(c) <==> self.is_wanted(
                    phrases,
                    dist,
                    laws::one_at_most(max_word_dist),
                    typed,
                    ends_in_prefix,
                    max_phrase_dist,
                    c,
                ),
        ensures
            self.is_what_is_near(
                inserted,
                dist,
                typed,
                ends_in_prefix,
                max_word_dist,
                max_phrase_dist,
                matches,
            ),
    {
        let d = laws::one_at_most(max_word_dist);
        assert forall|m: Match| #[trigger] matches.contains(m) implies (if ends_in_prefix {
            laws::begins_one(m.phrase, inserted)
        } else {
            inserted.contains(m.phrase)
        }) && are_near(&self.script_regex, dist, d, typed, m.phrase) && m.edit_distance
            == phrase_distance(dist, typed, m.phrase) && m.edit_distance <= max_phrase_dist by {
            let j = choose|j: int| 0 <= j < matches.len() && matches[j] == m;
            assert(found.contains(found[j]));
            self.lemma_wanted_is_near(
                inserted,
                phrases,
                dist,
                d,
                typed,
                ends_in_prefix,
                max_phrase_dist,
                found[j],
            );
            self.lemma_wanted_was_inserted(
                inserted,
                phrases,
                dist,
                d,
                typed,
                ends_in_prefix,
                max_phrase_dist,
                found[j],
            );
        }
        assert forall|phrase: Seq<Seq<char>>|
            (if ends_in_prefix {
                is_beginning_of_one(typed.last(), phrase, inserted)
            } else {
                inserted.contains(phrase)
            }) && #[trigger] are_near(&self.script_regex, dist, d, typed, phrase) && phrase_distance(
                dist,
                typed,
                phrase,
            ) <= max_phrase_dist implies is_found_once(
            matches,
            phrase,
            phrase_distance(dist, typed, phrase),
        ) by {
            if ends_in_prefix {
                self.lemma_finds_beginning(
                    inserted,
                    phrases,
                    dist,
                    typed,
                    d,
                    max_phrase_dist,
                    found,
                    matches,
                    phrase,
                );
            } else {
                self.lemma_finds_whole(
                    inserted,
                    phrases,
                    dist,
                    typed,
                    d,
                    max_phrase_dist,
                    found,
                    matches,
                    phrase,
                );
            }
        }
    }

    /// What may be picked from what comes of looking up every word is what is looked for.
    pub(crate) proof fn lemma_settled_wanted(
        &self,
        inserted: Seq<Seq<Seq<char>>>,
        phrases: Seq<Seq<u32>>,
        dist: Distance,
        d: u8,
        typed: Seq<Seq<char>>,
        ends_in_prefix: bool,
        max_phrase_dist: u8,
        slots: Seq<Seq<QueryWord>>,
        c: Seq<QueryWord>,
    )
        requires
            self.holds_by(inserted, phrases, dist),
            d <= 1,
            self.may_settle(typed, d, ends_in_prefix, slots),
        ensures
            steady_laws::is_sought(phrases, slots, max_phrase_dist, ends_in_prefix, c)
                <==> self.is_wanted(
                phrases,
                dist,
                d,
                typed,
                ends_in_prefix,
                max_phrase_dist,
                c,
            ),
    {
        assert forall|i: int, q: QueryWord| 0 <= i < slots.len() implies (#[trigger] slots[i].contains(q)
            <==> self.is_offer_at(dist, d, typed, ends_in_prefix, i, q)) by {
            assert(self.may_settle_at(typed, d, ends_in_prefix, i, slots[i]));
            let a = choose|a: Option<Seq<QueryWord>>| #[trigger]
                self.may_answer_at(typed, d, ends_in_prefix, i, Ok(a)) && slots[i]
                    == multi::variants_of(a);
            self.lemma_offers_at(inserted, phrases, dist, d, typed, ends_in_prefix, i, a);
        }
        if c.len() == slots.len() {
            assert(slots.take(c.len() as int) =~= slots);
            if laws::is_pick(slots, c) {
                assert forall|i: int| 0 <= i < c.len() implies self.is_offer_at(
                    dist,
                    d,
                    typed,
                    ends_in_prefix,
                    i,
                    #[trigger] c[i],
                ) by {
                    assert(slots[i].contains(c[i]));
                }
            }
            if self.is_wanted(phrases, dist, d, typed, ends_in_prefix, max_phrase_dist, c) {
                assert forall|i: int| 0 <= i < c.len() implies slots[i].contains(#[trigger] c[i]) by {
                    assert(self.is_offer_at(dist, d, typed, ends_in_prefix, i, c[i]));
                    assert(slots[i].contains(c[i]) <==> self.is_offer_at(
                        dist,
                        d,
                        typed,
                        ends_in_prefix,
                        i,
                        c[i],
                    ));
                }
            }
        }
    }

    /// What a fuzzy search finds are phrases that were inserted, and near to what was typed, word
    /// by word. The edits that are given add up over the words, and are no more than were allowed.
    pub proof fn fuzzy_matches_are_near(
        &self,
        inserted: Seq<Seq<Seq<char>>>,
        phrases: Seq<Seq<u32>>,
        dist: Distance,
        typed: Seq<Seq<char>>,
        max_word_dist: u8,
        max_phrase_dist: u8,
        matches: Seq<Match>,
    )
        requires
            self.holds_by(inserted, phrases, dist),
            self.may_fuzzy_match(typed, max_word_dist, max_phrase_dist, Ok(matches)),
        ensures
            forall|m: Match| #[trigger]
                matches.contains(m) ==> {
                    &&& inserted.contains(m.phrase)
                    &&& are_near(
                        &self.script_regex,
                        dist,
                        laws::one_at_most(max_word_dist),
                        typed,
                        m.phrase,
                    )
                    &&& m.edit_distance == phrase_distance(dist, typed, m.phrase)
                    &&& m.edit_distance <= max_phrase_dist
                },
    {
        let found = self.lemma_found(
            inserted,
            phrases,
            dist,
            typed,
            false,
            max_word_dist,
            max_phrase_dist,
            matches,
        );
        self.lemma_is_what_is_near(
            inserted,
            phrases,
            dist,
            typed,
            false,
            max_word_dist,
            max_phrase_dist,
            found,
            matches,
        );
    }

    /// A phrase that was inserted is found by a fuzzy search, just once and with the edits that
    /// lead to it, if it is near to what was typed, word by word, and within the edits that are
    /// allowed in all.
    pub proof fn fuzzy_match_finds_what_is_near(
        &self,
        inserted: Seq<Seq<Seq<char>>>,
        phrases: Seq<Seq<u32>>,
        dist: Distance,
        typed: Seq<Seq<char>>,
        max_word_dist: u8,
        max_phrase_dist: u8,
        matches: Seq<Match>,
        phrase: Seq<Seq<char>>,
    )
        requires
            self.holds_by(inserted, phrases, dist),
            self.may_fuzzy_match(typed, max_word_dist, max_phrase_dist, Ok(matches)),
            inserted.contains(phrase),
            are_near(
                &self.script_regex,
                dist,
                laws::one_at_most(max_word_dist),
                typed,
                phrase,
            ),
            phrase_distance(dist, typed, phrase) <= max_phrase_dist,
        ensures
            is_found_once(matches, phrase, phrase_distance(dist, typed, phrase)),
    {
        let found = self.lemma_found(
            inserted,
            phrases,
            dist,
            typed,
            false,
            max_word_dist,
            max_phrase_dist,
            matches,
        );
        self.lemma_is_what_is_near(
            inserted,
            phrases,
            dist,
            typed,
            false,
            max_word_dist,
            max_phrase_dist,
            found,
            matches,
        );
    }

    /// A fuzzy search that allows no edits in a word agrees with `contains`: it gives the phrase
    /// itself, once, or nothing.
    pub proof fn fuzzy_match_without_edits_is_contains(
        &self,
        inserted: Seq<Seq<Seq<char>>>,
        phrases: Seq<Seq<u32>>,
        dist: Distance,
        typed: Seq<Seq<char>>,
        max_phrase_dist: u8,
        matches: Seq<Match>,
        contained: bool,
    )
        requires
            self.holds_by(inserted, phrases, dist),
            self.may_fuzzy_match(typed, 0, max_phrase_dist, Ok(matches)),
            self.may_contain(typed, Ok(contained)),
        ensures
            matches == if contained {
                seq![Match { phrase: typed, edit_distance: 0 }]
            } else {
                Seq::empty()
            },
    {
        self.lemma_sound(inserted, phrases);
        self.contains_what_was_inserted(inserted, phrases, typed, contained);
        self.fuzzy_matches_are_near(inserted, phrases, dist, typed, 0, max_phrase_dist, matches);
        let exact = Match { phrase: typed, edit_distance: 0 };
        lemma_no_distance(dist, typed);
        assert forall|j: int| 0 <= j < matches.len() implies #[trigger] matches[j] == exact by {
            assert(matches.contains(matches[j]));
            lemma_near_without_edits(&self.script_regex, dist, typed, matches[j].phrase);
        }
        if contained {
            self.fuzzy_match_finds_what_is_near(
                inserted,
                phrases,
                dist,
                typed,
                0,
                max_phrase_dist,
                matches,
                typed,
            );
            let j = choose|j: int| 0 <= j < matches.len() && matches[j] == exact;
            assert(matches.len() == 1) by {
                if matches.len() > 1 {
                    assert(matches[0].phrase == typed);
                    assert(matches[1].phrase == typed);
                }
            }
            assert(matches =~= seq![exact]);
        } else {
            if matches.len() > 0 {
                assert(matches[0] == exact);
                assert(matches.contains(matches[0]));
            }
            assert(matches =~= Seq::<Match>::empty());
        }
    }

    /// What a fuzzy search for the beginning of a phrase finds begins a phrase that was inserted,
    /// and is near to what was typed, word by word: the last word is the typed one or a correction
    /// of it, and never a completion. The edits that are given add up over the words, and are no
    /// more than were allowed.
    pub proof fn fuzzy_prefix_matches_are_near(
        &self,
        inserted: Seq<Seq<Seq<char>>>,
        phrases: Seq<Seq<u32>>,
        dist: Distance,
        typed: Seq<Seq<char>>,
        max_word_dist: u8,
        max_phrase_dist: u8,
        matches: Seq<Match>,
    )
        requires
            self.holds_by(inserted, phrases, dist),
            self.may_fuzzy_match_prefix(typed, max_word_dist, max_phrase_dist, Ok(matches)),
        ensures
            forall|m: Match| #[trigger]
                matches.contains(m) ==> {
                    &&& laws::begins_one(m.phrase, inserted)
                    &&& are_near(
                        &self.script_regex,
                        dist,
                        laws::one_at_most(max_word_dist),
                        typed,
                        m.phrase,
                    )
                    &&& m.edit_distance == phrase_distance(dist, typed, m.phrase)
                    &&& m.edit_distance <= max_phrase_dist
                },
    {
        if typed.len() > 0 {
            let found = self.lemma_found(
                inserted,
                phrases,
                dist,
                typed,
                true,
                max_word_dist,
                max_phrase_dist,
                matches,
            );
            self.lemma_is_what_is_near(
                inserted,
                phrases,
                dist,
                typed,
                true,
                max_word_dist,
                max_phrase_dist,
                found,
                matches,
            );
        }
    }

    /// The beginning of a phrase that was inserted is found by a fuzzy search for the beginning of
    /// a phrase, just once and with the edits that lead to it, if it is near to what was typed,
    /// word by word, and within the edits that are allowed in all. Its last word is the typed one,
    /// complete or not, or else complete.
    pub proof fn fuzzy_match_prefix_finds_what_is_near(
        &self,
        inserted: Seq<Seq<Seq<char>>>,
        phrases: Seq<Seq<u32>>,
        dist: Distance,
        typed: Seq<Seq<char>>,
        max_word_dist: u8,
        max_phrase_dist: u8,
        matches: Seq<Match>,
        beginning: Seq<Seq<char>>,
    )
        requires
            self.holds_by(inserted, phrases, dist),
            self.may_fuzzy_match_prefix(typed, max_word_dist, max_phrase_dist, Ok(matches)),
            typed.len() > 0,
            is_beginning_of_one(typed.last(), beginning, inserted),
            are_near(
                &self.script_regex,
                dist,
                laws::one_at_most(max_word_dist),
                typed,
                beginning,
            ),
            phrase_distance(dist, typed, beginning) <= max_phrase_dist,
        ensures
            is_found_once(matches, beginning, phrase_distance(dist, typed, beginning)),
    {
        if typed.len() > 0 {
            let found = self.lemma_found(
                inserted,
                phrases,
                dist,
                typed,
                true,
                max_word_dist,
                max_phrase_dist,
                matches,
            );
            self.lemma_is_what_is_near(
                inserted,
                phrases,
                dist,
                typed,
                true,
                max_word_dist,
                max_phrase_dist,
                found,
                matches,
            );
        }
    }

    /// The words that start with a text have their ids in a row.
    proof fn lemma_range(
        &self,
        inserted: Seq<Seq<Seq<char>>>,
        phrases: Seq<Seq<u32>>,
        start: Seq<char>,
        id: u32,
    ) -> (range: (u32, u32))
        requires
            self.holds(inserted, phrases),
            id < self.words().len(),
            laws::starts_with(self.words()[id as int], start),
        ensures
            range.0 <= range.1 < self.words().len(),
            range.0 <= id <= range.1,
            forall|i: int|
                0 <= i < self.words().len() ==> (laws::starts_with(
                    #[trigger] self.words()[i],
                    start,
                ) <==> range.0 <= i <= range.1),
    {
        self.lemma_sound(inserted, phrases);
        let words = self.words();
        let first = lemma_first(words, start, id as int);
        let last = lemma_last(words, start, id as int);
        assert forall|i: int| 0 <= i < words.len() implies (laws::starts_with(
            #[trigger] words[i],
            start,
        ) <==> first <= i <= last) by {
            if first < i < last {
                lemma_between(words, start, first, i, last);
            }
        }
        (first as u32, last as u32)
    }

    /// A fuzzy search for the beginning of a phrase that allows no edits in a word agrees with
    /// `contains_prefix`: it gives what was typed, once, or nothing. For nothing typed it gives
    /// nothing.
    pub proof fn fuzzy_match_prefix_without_edits_is_contains_prefix(
        &self,
        inserted: Seq<Seq<Seq<char>>>,
        phrases: Seq<Seq<u32>>,
        dist: Distance,
        typed: Seq<Seq<char>>,
        max_phrase_dist: u8,
        matches: Seq<Match>,
        contained: bool,
    )
        requires
            self.holds_by(inserted, phrases, dist),
            self.may_fuzzy_match_prefix(typed, 0, max_phrase_dist, Ok(matches)),
            self.may_contain_prefix(typed, Ok(contained)),
        ensures
            matches == if contained && typed.len() > 0 {
                seq![Match { phrase: typed, edit_distance: 0 }]
            } else {
                Seq::empty()
            },
    {
        self.lemma_sound(inserted, phrases);
        self.contains_prefix_of_what_was_inserted(inserted, phrases, typed, contained);
        self.fuzzy_prefix_matches_are_near(
            inserted,
            phrases,
            dist,
            typed,
            0,
            max_phrase_dist,
            matches,
        );
        let exact = Match { phrase: typed, edit_distance: 0 };
        lemma_no_distance(dist, typed);
        assert forall|j: int| 0 <= j < matches.len() implies #[trigger] matches[j] == exact by {
            assert(matches.contains(matches[j]));
            lemma_near_without_edits(&self.script_regex, dist, typed, matches[j].phrase);
        }
        if contained && typed.len() > 0 {
            let k = choose|k: int| 0 <= k < inserted.len() && laws::begins(typed, #[trigger] inserted[k]);
            assert(is_beginning_of_one(typed.last(), typed, inserted));
            self.fuzzy_match_prefix_finds_what_is_near(
                inserted,
                phrases,
                dist,
                typed,
                0,
                max_phrase_dist,
                matches,
                typed,
            );
            let j = choose|j: int| 0 <= j < matches.len() && matches[j] == exact;
            assert(matches.len() == 1) by {
                if matches.len() > 1 {
                    assert(matches[0].phrase == typed);
                    assert(matches[1].phrase == typed);
                }
            }
            assert(matches =~= seq![exact]);
        } else {
            if matches.len() > 0 {
                assert(matches[0] == exact);
                assert(matches.contains(matches[0]));
            }
            assert(matches =~= Seq::<Match>::empty());
        }
    }
}

/// `beginning` begins one of some phrases, and its last word is the typed one, complete or not, or
/// else complete.
pub open spec fn is_beginning_of_one(
    typed: Seq<char>,
    beginning: Seq<Seq<char>>,
    inserted: Seq<Seq<Seq<char>>>,
) -> bool {
    exists|b: int|
        0 <= b < inserted.len() && laws::begins(beginning, #[trigger] inserted[b]) && (
        beginning.last() == typed || beginning.last() == inserted[b][beginning.len() - 1])
}

/// The first word that starts with a text.
proof fn lemma_first(words: Seq<Seq<char>>, start: Seq<char>, i: int) -> (first: int)
    requires
        0 <= i < words.len(),
        laws::starts_with(words[i], start),
    ensures
        0 <= first <= i,
        laws::starts_with(words[first], start),
        forall|j: int| 0 <= j < first ==> !laws::starts_with(#[trigger] words[j], start),
    decreases i,
{
    if exists|j: int| 0 <= j < i && laws::starts_with(#[trigger] words[j], start) {
        let j = choose|j: int| 0 <= j < i && laws::starts_with(#[trigger] words[j], start);
        lemma_first(words, start, j)
    } else {
        i
    }
}

/// The last word that starts with a text.
proof fn lemma_last(words: Seq<Seq<char>>, start: Seq<char>, i: int) -> (last: int)
    requires
        0 <= i < words.len(),
        laws::starts_with(words[i], start),
    ensures
        i <= last < words.len(),
        laws::starts_with(words[last], start),
        forall|j: int| last < j < words.len() ==> !laws::starts_with(#[trigger] words[j], start),
    decreases words.len() - i,
{
    if exists|j: int| i < j < words.len() && laws::starts_with(#[trigger] words[j], start) {
        let j = choose|j: int| i < j < words.len() && laws::starts_with(#[trigger] words[j], start);
        lemma_last(words, start, j)
    } else {
        i
    }
}

/// Between two words that start with a text, in alphabetical order, all do.
proof fn lemma_between(words: Seq<Seq<char>>, start: Seq<char>, first: int, i: int, last: int)
    requires
        order::strictly_sorted(order::text_order(), words),
        0 <= first < i < last < words.len(),
        laws::starts_with(words[first], start),
        laws::starts_with(words[last], start),
    ensures
        laws::starts_with(words[i], start),
{
    let (a, w, b) = (words[first], words[i], words[last]);
    let n = start.len() as int;
    assert(order::text_order()(a, w));
    assert(order::text_order()(w, b));
    let k = choose|k: int| order::precedes_at(order::char_order(), a, w, k);
    let m = choose|m: int| order::precedes_at(order::char_order(), w, b, m);
    if k >= n {
        assert(w.take(n) =~= w.take(k).take(n));
        assert(a.take(n) =~= a.take(k).take(n));
    } else if m >= n {
        assert(w.take(n) =~= w.take(m).take(n));
        assert(b.take(n) =~= b.take(m).take(n));
    } else {
        // where the word leaves the text, it cannot come both after and before it
        assert(a.take(n)[k] == start[k]);
        assert(b.take(n)[m] == start[m]);
        if k < m {
            assert(w.take(m)[k] == b.take(m)[k]);
            assert(b.take(n)[k] == start[k]);
        } else if m < k {
            assert(w.take(k)[m] == a.take(k)[m]);
            assert(a.take(n)[m] == start[m]);
        }
    }
}

/// No edits lead from a phrase to itself.
proof fn lemma_no_distance(dist: Distance, typed: Seq<Seq<char>>)
    requires
        laws::is_distance(dist),
    ensures
        phrase_distance(dist, typed, typed) == 0,
    decreases typed.len(),
{
    if typed.len() > 0 {
        lemma_no_distance(dist, typed.drop_last());
        assert(dist(typed.last(), typed.last()) == 0);
    }
}

/// What is near without any edits is the same.
proof fn lemma_near_without_edits(
    pattern: &ScriptPattern,
    dist: Distance,
    typed: Seq<Seq<char>>,
    phrase: Seq<Seq<char>>,
)
    requires
        laws::is_distance(dist),
        are_near(pattern, dist, 0, typed, phrase),
    ensures
        typed == phrase,
{
    assert forall|i: int| 0 <= i < phrase.len() implies typed[i] == #[trigger] phrase[i] by {
        assert(is_near(pattern, dist, 0, typed[i], phrase[i]));
        assert(dist(typed[i], phrase[i]) == 0 <==> typed[i] == phrase[i]);
    }
    assert(typed =~= phrase);
}

} // verus!
