//! What searches come to, where the indexes hold the phrases that were inserted, and the fuzzy index
//! is steady and finds no word twice: then a search for a phrase always finds the same.
use vstd::prelude::*;
use crate::distance_laws;
use crate::index::PrefixSet;
use crate::laws;
use crate::multi;
use crate::query::{FuzzyMapLookupResult, QueryWord};
use crate::search;
use crate::search::{FuzzyPhraseSet, Match, SearchError};

verus! {

broadcast use vstd::seq_lib::group_to_multiset_ensures;

/// What a phrase gets are the combinations that it claims.
pub(crate) proof fn lemma_own(len: nat, ends_in_prefix: bool, found: Seq<(Seq<QueryWord>, bool)>, c: Seq<QueryWord>)
    ensures
        multi::own(len, ends_in_prefix, found).contains(c) <==> c.len() == len && found.contains(
            (c, ends_in_prefix),
        ),
    decreases found.len(),
{
    if found.len() > 0 {
        let front = found.drop_last();
        let last = found.last();
        let before = multi::own(len, ends_in_prefix, front);
        let now = multi::own(len, ends_in_prefix, found);
        lemma_own(len, ends_in_prefix, front, c);
        if front.contains((c, ends_in_prefix)) {
            let j = choose|j: int| 0 <= j < front.len() && front[j] == (c, ends_in_prefix);
            assert(found[j] == (c, ends_in_prefix));
        }
        if found.contains((c, ends_in_prefix)) && !front.contains((c, ends_in_prefix)) {
            let j = choose|j: int| 0 <= j < found.len() && found[j] == (c, ends_in_prefix);
            assert(j == found.len() - 1) by {
                if j < found.len() - 1 {
                    assert(front[j] == (c, ends_in_prefix));
                }
            }
        }
        if multi::claims(len, ends_in_prefix, last) {
            assert(now == before.push(last.0));
            if before.contains(c) {
                let j = choose|j: int| 0 <= j < before.len() && before[j] == c;
                assert(now[j] == c);
            }
            if c == last.0 {
                assert(now[before.len() as int] == c);
                assert(found[found.len() - 1] == (c, ends_in_prefix));
            }
            if now.contains(c) && c != last.0 {
                let j = choose|j: int| 0 <= j < now.len() && now[j] == c;
                assert(before[j] == c);
            }
        }
    }
}

/// Where no combination was found twice, a phrase gets none twice.
pub(crate) proof fn lemma_own_once(len: nat, ends_in_prefix: bool, found: Seq<(Seq<QueryWord>, bool)>)
    requires
        found.no_duplicates(),
    ensures
        multi::own(len, ends_in_prefix, found).no_duplicates(),
    decreases found.len(),
{
    if found.len() > 0 {
        let front = found.drop_last();
        let last = found.last();
        assert(front.no_duplicates());
        lemma_own_once(len, ends_in_prefix, front);
        lemma_own(len, ends_in_prefix, front, last.0);
        if multi::claims(len, ends_in_prefix, last) {
            assert(!front.contains(last)) by {
                if front.contains(last) {
                    let k = choose|k: int| 0 <= k < front.len() && front[k] == last;
                    assert(found[k] == found[found.len() - 1]);
                }
            }
            assert(last == (last.0, ends_in_prefix));
            assert(!multi::own(len, ends_in_prefix, front).contains(last.0));
        }
    }
}

/// The same combinations, each once and written out in the same way, are the same matches up to
/// their order.
pub(crate) proof fn lemma_same_matches(
    words: Seq<Seq<char>>,
    typed: Seq<Seq<char>>,
    found: Seq<Seq<QueryWord>>,
    other_typed: Seq<Seq<char>>,
    other_found: Seq<Seq<QueryWord>>,
)
    requires
        found.no_duplicates(),
        other_found.no_duplicates(),
        forall|c: Seq<QueryWord>| #[trigger] found.contains(c) <==> other_found.contains(c),
        forall|c: Seq<QueryWord>| #[trigger]
            found.contains(c) ==> search::match_of(words, typed, c) == search::match_of(
                words,
                other_typed,
                c,
            ),
    ensures
        search::matches_of(words, typed, found).to_multiset() == search::matches_of(
            words,
            other_typed,
            other_found,
        ).to_multiset(),
    decreases found.len(),
{
    let here = search::matches_of(words, typed, found);
    let there = search::matches_of(words, other_typed, other_found);
    if found.len() == 0 {
        if other_found.len() > 0 {
            assert(other_found.contains(other_found[0]));
            assert(found.contains(other_found[0]));
        }
        assert(here =~= there);
    } else {
        let c = found.last();
        assert(found[found.len() - 1] == c);
        assert(found.contains(c));
        let j = choose|j: int| 0 <= j < other_found.len() && other_found[j] == c;
        let front = found.drop_last();
        let rest = other_found.remove(j);
        assert(front.no_duplicates());
        assert forall|x: int, y: int| 0 <= x < y < rest.len() implies rest[x] != rest[y] by {
            let a = if x < j { x } else { x + 1 };
            let b = if y < j { y } else { y + 1 };
            assert(rest[x] == other_found[a]);
            assert(rest[y] == other_found[b]);
        }
        assert forall|q: Seq<QueryWord>| #[trigger] front.contains(q) <==> rest.contains(q) by {
            if front.contains(q) {
                let k = choose|k: int| 0 <= k < front.len() && front[k] == q;
                assert(found[k] == q);
                assert(found.contains(q));
                assert(q != c);
                let m = choose|m: int| 0 <= m < other_found.len() && other_found[m] == q;
                assert(rest[if m < j { m } else { m - 1 }] == q);
            }
            if rest.contains(q) {
                let k = choose|k: int| 0 <= k < rest.len() && rest[k] == q;
                let m = if k < j { k } else { k + 1 };
                assert(other_found[m] == q);
                assert(other_found.contains(q));
                assert(q != c);
                assert(found.contains(q));
                let n = choose|n: int| 0 <= n < found.len() && found[n] == q;
                assert(front[n] == q);
            }
        }
        assert forall|q: Seq<QueryWord>| #[trigger] front.contains(q) implies search::match_of(
            words,
            typed,
            q,
        ) == search::match_of(words, other_typed, q) by {
            let k = choose|k: int| 0 <= k < front.len() && front[k] == q;
            assert(found[k] == q);
            assert(found.contains(q));
        }
        lemma_same_matches(words, typed, front, other_typed, rest);
        let m = search::match_of(words, typed, c);
        assert(here =~= search::matches_of(words, typed, front).push(m));
        assert(search::matches_of(words, other_typed, rest) =~= there.remove(j));
        assert(there[j] == m);
        assert(there.contains(m));
        assert(here.to_multiset() =~= there.to_multiset());
    }
}

/// A combination is what a search for a phrase looks for.
pub open spec fn is_sought(
    phrases: Seq<Seq<u32>>,
    slots: Seq<Seq<QueryWord>>,
    dist: u8,
    ends_in_prefix: bool,
    c: Seq<QueryWord>,
) -> bool {
    &&& c.len() == slots.len()
    &&& laws::is_near_pick(slots, dist, c)
    &&& if ends_in_prefix {
        laws::is_beginning(phrases, c)
    } else {
        laws::is_phrase(phrases, c)
    }
}

impl<G, R> PrefixSet<G, R> where
    G: Fn(&str) -> Option<u64>,
    R: Fn(&str) -> Option<(u64, u64)>,
 {
    /// An index that holds words that differ always replies in the same way.
    pub(crate) proof fn lemma_one_reply(&self, words: Seq<Seq<char>>)
        requires
            self.holds(words),
            words.no_duplicates(),
        ensures
            forall|word: Seq<char>, a: Option<u64>, b: Option<u64>| #[trigger]
                self.may_get(word, a) && #[trigger] self.may_get(word, b) ==> a == b,
            forall|start: Seq<char>, a: Option<(u64, u64)>, b: Option<(u64, u64)>| #[trigger]
                self.may_get_prefix_range(start, a) && #[trigger] self.may_get_prefix_range(start, b)
                    ==> a == b,
    {
        assert forall|word: Seq<char>, a: Option<u64>, b: Option<u64>| #[trigger]
            self.may_get(word, a) && #[trigger] self.may_get(word, b) implies a == b by {
            if let Some(id) = a {
                assert(words.contains(words[id as int]));
            }
            if let Some(id) = b {
                assert(words.contains(words[id as int]));
            }
        }
        assert forall|start: Seq<char>, a: Option<(u64, u64)>, b: Option<(u64, u64)>| #[trigger]
            self.may_get_prefix_range(start, a) && #[trigger] self.may_get_prefix_range(start, b) implies a
            == b by {
            if let Some((first, last)) = a {
                assert(laws::starts_with(words[first as int], start));
                assert(laws::starts_with(words[last as int], start));
            }
            if let Some((first, last)) = b {
                assert(laws::starts_with(words[first as int], start));
                assert(laws::starts_with(words[last as int], start));
            }
        }
    }
}

impl<G, R, L, C, P, M, N, W, E> FuzzyPhraseSet<G, R, L, C, P, M, N, W> where
    G: Fn(&str) -> Option<u64>,
    R: Fn(&str) -> Option<(u64, u64)>,
    L: Fn(&str, u8, &Vec<String>) -> Result<Vec<FuzzyMapLookupResult>, E>,
    C: Fn(&Vec<QueryWord>) -> Result<bool, E>,
    P: Fn(&Vec<QueryWord>) -> Result<bool, E>,
    M: Fn(&Vec<Vec<QueryWord>>, u8) -> Result<Vec<Vec<QueryWord>>, E>,
    N: Fn(&Vec<Vec<QueryWord>>, u8) -> Result<Vec<Vec<QueryWord>>, E>,
    W: Fn(&[Vec<QueryWord>], u8, bool) -> Result<Vec<(Vec<QueryWord>, bool)>, E>,
 {
    /// A set that holds what was inserted, and whose fuzzy index is steady and finds no word twice.
    pub open spec fn is_reliable(
        &self,
        inserted: Seq<Seq<Seq<char>>>,
        phrases: Seq<Seq<u32>>,
    ) -> bool {
        &&& self.holds(inserted, phrases)
        &&& self.fuzzy_map.is_steady()
        &&& self.fuzzy_map.finds_once()
    }

    /// `variants` may be what comes of looking up the word at position `i`.
    pub open spec fn may_settle_at(
        &self,
        typed: Seq<Seq<char>>,
        d: u8,
        ends_in_prefix: bool,
        i: int,
        variants: Seq<QueryWord>,
    ) -> bool {
        exists|answer: Option<Seq<QueryWord>>| #[trigger]
            self.may_answer_at(typed, d, ends_in_prefix, i, Ok(answer)) && variants
                == multi::variants_of(answer)
    }

    /// `slots` may be what comes of looking up every word of a phrase.
    pub open spec fn may_settle(
        &self,
        typed: Seq<Seq<char>>,
        d: u8,
        ends_in_prefix: bool,
        slots: Seq<Seq<QueryWord>>,
    ) -> bool {
        &&& slots.len() == typed.len()
        &&& forall|i: int|
            0 <= i < slots.len() ==> self.may_settle_at(
                typed,
                d,
                ends_in_prefix,
                i,
                #[trigger] slots[i],
            )
    }

    /// Where the indexes are steady, a word always gets the same answer.
    proof fn lemma_one_answer(
        &self,
        typed: Seq<Seq<char>>,
        d: u8,
        ends_in_prefix: bool,
        i: int,
        a: Option<Seq<QueryWord>>,
        b: Option<Seq<QueryWord>>,
    )
        requires
            self.prefix_set.holds(self.words()),
            self.words().no_duplicates(),
            self.fuzzy_map.is_steady(),
            self.may_answer_at(typed, d, ends_in_prefix, i, Ok(a)),
            self.may_answer_at(typed, d, ends_in_prefix, i, Ok(b)),
        ensures
            a == b,
    {
        self.prefix_set.lemma_one_reply(self.words());
        let word = typed[i];
        if ends_in_prefix && i == typed.len() - 1 {
            let (ra, ha) = choose|
                range: Option<(u64, u64)>,
                reply: Result<Seq<FuzzyMapLookupResult>, E>,
            | #[trigger]
                self.prefix_set.may_get_prefix_range(word, range) && #[trigger] search::last_answer(
                    range,
                    reply,
                ) == Ok::<Option<Seq<QueryWord>>, E>(a) && if self.script_regex.accepts(word) {
                    self.fuzzy_map.may_find(word, d, &self.word_list, reply)
                } else {
                    reply == Ok::<Seq<FuzzyMapLookupResult>, E>(Seq::empty())
                };
            let (rb, hb) = choose|
                range: Option<(u64, u64)>,
                reply: Result<Seq<FuzzyMapLookupResult>, E>,
            | #[trigger]
                self.prefix_set.may_get_prefix_range(word, range) && #[trigger] search::last_answer(
                    range,
                    reply,
                ) == Ok::<Option<Seq<QueryWord>>, E>(b) && if self.script_regex.accepts(word) {
                    self.fuzzy_map.may_find(word, d, &self.word_list, reply)
                } else {
                    reply == Ok::<Seq<FuzzyMapLookupResult>, E>(Seq::empty())
                };
            assert(ra == rb);
            if self.script_regex.accepts(word) {
                assert(self.fuzzy_map.may_find(word, d, &self.word_list, Ok(ha->Ok_0)));
                assert(self.fuzzy_map.may_find(word, d, &self.word_list, Ok(hb->Ok_0)));
            }
            assert(ha == hb);
        } else if self.script_regex.accepts(word) {
            let ha = choose|reply: Result<Seq<FuzzyMapLookupResult>, E>| #[trigger]
                self.fuzzy_map.may_find(word, d, &self.word_list, reply) && Ok::<
                    Option<Seq<QueryWord>>,
                    E,
                >(a) == search::fuzzy_answer(reply);
            let hb = choose|reply: Result<Seq<FuzzyMapLookupResult>, E>| #[trigger]
                self.fuzzy_map.may_find(word, d, &self.word_list, reply) && Ok::<
                    Option<Seq<QueryWord>>,
                    E,
                >(b) == search::fuzzy_answer(reply);
            assert(self.fuzzy_map.may_find(word, d, &self.word_list, Ok(ha->Ok_0)));
            assert(self.fuzzy_map.may_find(word, d, &self.word_list, Ok(hb->Ok_0)));
            assert(ha == hb);
        }
    }

    /// No word is found twice for a place.
    pub(crate) proof fn lemma_answer_once(
        &self,
        typed: Seq<Seq<char>>,
        d: u8,
        ends_in_prefix: bool,
        i: int,
        a: Option<Seq<QueryWord>>,
    )
        requires
            self.fuzzy_map.finds_once(),
            self.may_answer_at(typed, d, ends_in_prefix, i, Ok(a)),
        ensures
            multi::variants_of(a).no_duplicates(),
    {
        let word = typed[i];
        let variants = multi::variants_of(a);
        if ends_in_prefix && i == typed.len() - 1 {
            let (range, reply) = choose|
                range: Option<(u64, u64)>,
                reply: Result<Seq<FuzzyMapLookupResult>, E>,
            | #[trigger]
                self.prefix_set.may_get_prefix_range(word, range) && #[trigger] search::last_answer(
                    range,
                    reply,
                ) == Ok::<Option<Seq<QueryWord>>, E>(a) && if self.script_regex.accepts(word) {
                    self.fuzzy_map.may_find(word, d, &self.word_list, reply)
                } else {
                    reply == Ok::<Seq<FuzzyMapLookupResult>, E>(Seq::empty())
                };
            let hits = reply->Ok_0;
            if self.script_regex.accepts(word) {
                assert(self.fuzzy_map.may_find(word, d, &self.word_list, Ok(hits)));
                assert forall|x: int, y: int| 0 <= x < y < hits.len() implies (#[trigger] hits[x]).id
                    != (#[trigger] hits[y]).id by {}
            }
            distance_laws::lemma_beside(range is Some, hits);
            let beside = search::beside_prefix(range is Some, hits);
            assert(variants =~= search::last_variants(range, hits));
            if range is Some {
                assert forall|x: int, y: int| 0 <= x < y < variants.len() implies variants[x]
                    != variants[y] by {
                    assert(variants[y] == beside[y - 1]);
                    assert(beside[y - 1] is Full);
                    if x > 0 {
                        assert(variants[x] == beside[x - 1]);
                    }
                }
            }
        } else if self.script_regex.accepts(word) {
            let reply = choose|reply: Result<Seq<FuzzyMapLookupResult>, E>| #[trigger]
                self.fuzzy_map.may_find(word, d, &self.word_list, reply) && Ok::<
                    Option<Seq<QueryWord>>,
                    E,
                >(a) == search::fuzzy_answer(reply);
            let hits = reply->Ok_0;
            assert(self.fuzzy_map.may_find(word, d, &self.word_list, Ok(hits)));
            assert forall|x: int, y: int| 0 <= x < y < variants.len() implies variants[x]
                != variants[y] by {
                assert(hits[x].id != hits[y].id);
            }
        }
    }

    /// Looked up again, the words of a phrase come to the same.
    pub(crate) proof fn lemma_settled(
        &self,
        inserted: Seq<Seq<Seq<char>>>,
        phrases: Seq<Seq<u32>>,
        typed: Seq<Seq<char>>,
        d: u8,
        ends_in_prefix: bool,
        i: int,
        variants: Seq<QueryWord>,
        answer: Option<Seq<QueryWord>>,
    )
        requires
            self.is_reliable(inserted, phrases),
            self.may_settle_at(typed, d, ends_in_prefix, i, variants),
            self.may_answer_at(typed, d, ends_in_prefix, i, Ok(answer)),
        ensures
            variants == multi::variants_of(answer),
            variants.no_duplicates(),
    {
        self.lemma_sound(inserted, phrases);
        laws::lemma_laid_out(inserted, self.words(), phrases);
        let a = choose|a: Option<Seq<QueryWord>>| #[trigger]
            self.may_answer_at(typed, d, ends_in_prefix, i, Ok(a)) && variants == multi::variants_of(a);
        self.lemma_one_answer(typed, d, ends_in_prefix, i, a, answer);
        self.lemma_answer_once(typed, d, ends_in_prefix, i, a);
    }

    /// Whatever the words of a phrase come to, only the last slot may hold a prefix.
    pub(crate) proof fn lemma_settled_askable(
        &self,
        typed: Seq<Seq<char>>,
        d: u8,
        ends_in_prefix: bool,
        slots: Seq<Seq<QueryWord>>,
    )
        requires
            self.may_settle(typed, d, ends_in_prefix, slots),
        ensures
            laws::are_askable(slots, ends_in_prefix),
    {
        assert forall|i: int|
            0 <= i < slots.len() && !(ends_in_prefix && i == slots.len() - 1) implies laws::all_full(
            #[trigger] slots[i],
        ) by {
            let a = choose|a: Option<Seq<QueryWord>>| #[trigger]
                self.may_answer_at(typed, d, ends_in_prefix, i, Ok(a)) && slots[i]
                    == multi::variants_of(a);
            if let Some(variants) = a {
                self.lemma_answers_are_whole(typed[i], d, variants);
            }
        }
    }

    /// Whatever the words of a phrase come to, no word stands twice in a slot.
    pub(crate) proof fn lemma_settled_once(
        &self,
        typed: Seq<Seq<char>>,
        d: u8,
        ends_in_prefix: bool,
        slots: Seq<Seq<QueryWord>>,
    )
        requires
            self.fuzzy_map.finds_once(),
            self.may_settle(typed, d, ends_in_prefix, slots),
        ensures
            laws::are_distinct(slots),
    {
        assert forall|i: int| 0 <= i < slots.len() implies (#[trigger] slots[i]).no_duplicates() by {
            let a = choose|a: Option<Seq<QueryWord>>| #[trigger]
                self.may_answer_at(typed, d, ends_in_prefix, i, Ok(a)) && slots[i]
                    == multi::variants_of(a);
            self.lemma_answer_once(typed, d, ends_in_prefix, i, a);
        }
    }

    /// What a fuzzy search for a phrase finds is what it looks for, each combination once.
    pub(crate) proof fn lemma_found_alone(
        &self,
        inserted: Seq<Seq<Seq<char>>>,
        phrases: Seq<Seq<u32>>,
        typed: Seq<Seq<char>>,
        ends_in_prefix: bool,
        max_word_dist: u8,
        max_phrase_dist: u8,
        mine: Seq<Seq<QueryWord>>,
        matches: Seq<Match>,
    ) -> (found: Seq<Seq<QueryWord>>)
        requires
            self.is_reliable(inserted, phrases),
            ends_in_prefix ==> typed.len() > 0,
            self.may_settle(typed, laws::one_at_most(max_word_dist), ends_in_prefix, mine),
            if ends_in_prefix {
                self.may_fuzzy_match_prefix(typed, max_word_dist, max_phrase_dist, Ok(matches))
            } else {
                self.may_fuzzy_match(typed, max_word_dist, max_phrase_dist, Ok(matches))
            },
        ensures
            matches == search::matches_of(
                self.words(),
                if ends_in_prefix {
                    typed
                } else {
                    Seq::empty()
                },
                found,
            ),
            found.no_duplicates(),
            forall|c: Seq<QueryWord>| #[trigger]
                found.contains(c) <==> is_sought(phrases, mine, max_phrase_dist, ends_in_prefix, c),
    {
        self.lemma_sound(inserted, phrases);
        let d = laws::one_at_most(max_word_dist);
        let words = self.words();
        let shown = if ends_in_prefix {
            typed
        } else {
            Seq::empty()
        };
        self.lemma_settled_once(typed, d, ends_in_prefix, mine);
        if self.may_gather(typed, d, ends_in_prefix, Ok(None)) && matches.len() == 0 {
            let j = self.lemma_gathered_nothing(typed, d, ends_in_prefix);
            assert(self.may_settle_at(typed, d, ends_in_prefix, j, mine[j]));
            self.lemma_settled(inserted, phrases, typed, d, ends_in_prefix, j, mine[j], None);
            let none = Seq::<Seq<QueryWord>>::empty();
            assert forall|c: Seq<QueryWord>| #[trigger] none.contains(c) <==> is_sought(
                phrases,
                mine,
                max_phrase_dist,
                ends_in_prefix,
                c,
            ) by {
                if is_sought(phrases, mine, max_phrase_dist, ends_in_prefix, c) {
                    assert(mine.take(c.len() as int)[j].contains(c[j]));
                }
            }
            assert(matches =~= search::matches_of(words, shown, none));
            none
        } else {
            let (slots, reply) = choose|
                slots: Seq<Seq<QueryWord>>,
                reply: Result<Seq<Seq<QueryWord>>, E>,
            |
                #![trigger
                    self.may_gather(typed, d, ends_in_prefix, Ok(Some(slots))),
                    search::search_result(words, shown, reply)
                ]
                self.may_gather(typed, d, ends_in_prefix, Ok(Some(slots))) && (if ends_in_prefix {
                    self.phrase_set.may_match_prefixes(slots, max_phrase_dist, reply)
                } else {
                    self.phrase_set.may_match(slots, max_phrase_dist, reply)
                }) && Ok::<Seq<Match>, SearchError<E>>(matches) == search::search_result(
                    words,
                    shown,
                    reply,
                );
            assert forall|j: int| 0 <= j < typed.len() implies mine[j] == #[trigger] slots[j] by {
                assert(self.may_settle_at(typed, d, ends_in_prefix, j, mine[j]));
                self.lemma_settled(
                    inserted,
                    phrases,
                    typed,
                    d,
                    ends_in_prefix,
                    j,
                    mine[j],
                    Some(slots[j]),
                );
            }
            assert(mine =~= slots);
            let found = reply->Ok_0;
            if ends_in_prefix {
                assert(self.phrase_set.may_match_prefixes(slots, max_phrase_dist, Ok(found)));
            } else {
                assert(self.phrase_set.may_match(slots, max_phrase_dist, Ok(found)));
            }
            found
        }
    }

    /// Whole words are written out in the same way whatever was typed, and for the beginning of a
    /// phrase what was typed is at hand.
    pub(crate) proof fn lemma_shown(
        &self,
        phrases: Seq<Seq<u32>>,
        slots: Seq<Seq<QueryWord>>,
        dist: u8,
        ends_in_prefix: bool,
        typed: Seq<Seq<char>>,
        c: Seq<QueryWord>,
    )
        requires
            is_sought(phrases, slots, dist, ends_in_prefix, c),
        ensures
            search::match_of(self.words(), typed, c) == search::match_of(
                self.words(),
                if ends_in_prefix {
                    typed
                } else {
                    Seq::empty()
                },
                c,
            ),
    {
        if !ends_in_prefix {
            assert(laws::all_full(c));
            assert(search::match_of(self.words(), typed, c).phrase =~= search::match_of(
                self.words(),
                Seq::empty(),
                c,
            ).phrase);
        }
    }
}

} // verus!
