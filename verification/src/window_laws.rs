//! What a search for phrases anywhere in a text comes to, where the indexes hold the phrases that
//! were inserted.
use vstd::prelude::*;
use crate::builder;
use crate::fuzzy_laws;
use crate::laws;
use crate::query;
use crate::query::{FuzzyMapLookupResult, QueryWord};
use crate::search::{FuzzyPhraseSet, SearchError};
use crate::windows;
use crate::windows::{Answers, Chunk, WindowMatch};

verus! {

/// The place of a word in a stretch.
pub open spec fn place(chunks: Seq<Chunk>, c: int, at: int) -> (Chunk, int) {
    (chunks[c], at)
}

/// A place is that of a word in one of the stretches.
pub open spec fn is_place(chunks: Seq<Chunk>, p: (Chunk, int)) -> bool {
    exists|c: int, at: int|
        0 <= c < chunks.len() && 0 <= at < chunks[c].slots.len() && p == #[trigger] place(
            chunks,
            c,
            at,
        )
}

/// A place lies within a text, and so does its stretch.
pub open spec fn is_within(typed: Seq<Seq<char>>, p: (Chunk, int)) -> bool {
    0 <= p.1 < p.0.slots.len() && 0 <= p.0.start && p.0.start + p.0.slots.len() <= typed.len()
}

/// The places where a phrase may start are the words of the stretches.
pub(crate) proof fn lemma_starts(chunks: Seq<Chunk>)
    ensures
        forall|c: int, at: int|
            0 <= c < chunks.len() && 0 <= at < chunks[c].slots.len() ==> windows::starts(
                chunks,
            ).contains(#[trigger] place(chunks, c, at)),
        forall|j: int|
            0 <= j < windows::starts(chunks).len() ==> is_place(
                chunks,
                #[trigger] windows::starts(chunks)[j],
            ),
    decreases chunks.len(),
{
    if chunks.len() > 0 {
        let front = chunks.drop_last();
        let last = chunks.last();
        lemma_starts(front);
        let before = windows::starts(front);
        let tail = windows::chunk_starts(last, last.slots.len());
        let all = windows::starts(chunks);
        assert forall|c: int, at: int| 0 <= c < chunks.len() && 0 <= at < chunks[c].slots.len() implies all.contains(
            #[trigger] place(chunks, c, at),
        ) by {
            if c < front.len() {
                assert(front[c] == chunks[c]);
                assert(before.contains(place(front, c, at)));
                let j = choose|j: int| 0 <= j < before.len() && before[j] == place(front, c, at);
                assert(all[j] == place(chunks, c, at));
            } else {
                assert(tail[at] == place(chunks, c, at));
                assert(all[before.len() + at] == place(chunks, c, at));
            }
        }
        assert forall|j: int| 0 <= j < all.len() implies is_place(chunks, #[trigger] all[j]) by {
            if j < before.len() {
                assert(is_place(front, before[j]));
                let (c, at) = choose|c: int, at: int|
                    0 <= c < front.len() && 0 <= at < front[c].slots.len() && before[j]
                        == #[trigger] place(front, c, at);
                assert(front[c] == chunks[c]);
                assert(all[j] == place(chunks, c, at));
            } else {
                assert(all[j] == tail[j - before.len()]);
                assert(all[j] == place(chunks, chunks.len() - 1, j - before.len()));
            }
        }
    }
}

/// A phrase may start on any word for which there are possibilities, and on no other; and from
/// there it can reach up to the end of the stretch, that is to the next missing word or the end of
/// the text.
pub proof fn a_phrase_may_start_on_any_found_word(answers: Answers, ends_in_prefix: bool)
    ensures
        forall|i: int|
            0 <= i < answers.len() && (#[trigger] answers[i]) is Some ==> exists|j: int|
                0 <= j < windows::starts(windows::chunks(answers, ends_in_prefix)).len()
                    && #[trigger] starts_at(answers, ends_in_prefix, j, i),
        forall|j: int, i: int| #[trigger]
            starts_at(answers, ends_in_prefix, j, i) && 0 <= j < windows::starts(
                windows::chunks(answers, ends_in_prefix),
            ).len() ==> {
                let (chunk, at) = windows::starts(windows::chunks(answers, ends_in_prefix))[j];
                let end = chunk.start + chunk.slots.len();
                &&& 0 <= i < end <= answers.len()
                &&& end == answers.len() || answers[end] is None
                &&& forall|m: int|
                    i <= m < end ==> (#[trigger] answers[m]) == Some(chunk.slots[m - chunk.start])
            },
{
    let cs = windows::chunks(answers, ends_in_prefix);
    let runs = windows::runs(answers);
    windows::runs_are_the_maximal_stretches(answers);
    lemma_starts(cs);
    assert forall|i: int| 0 <= i < answers.len() && (#[trigger] answers[i]) is Some implies exists|j: int|
        0 <= j < windows::starts(cs).len() && #[trigger] starts_at(answers, ends_in_prefix, j, i) by {
        let k = choose|k: int| 0 <= k < runs.len() && (#[trigger] runs[k]).0 <= i < runs[k].1;
        let at = i - runs[k].0;
        assert(cs[k] == windows::chunk_of(answers, ends_in_prefix, runs[k]));
        assert(windows::starts(cs).contains(place(cs, k, at)));
        let j = choose|j: int| 0 <= j < windows::starts(cs).len() && windows::starts(cs)[j] == place(cs, k, at);
        assert(starts_at(answers, ends_in_prefix, j, i));
    }
    assert forall|j: int, i: int| #[trigger] starts_at(answers, ends_in_prefix, j, i) && 0 <= j
        < windows::starts(cs).len() implies ({
        let (chunk, at) = windows::starts(cs)[j];
        let end = chunk.start + chunk.slots.len();
        &&& 0 <= i < end <= answers.len()
        &&& end == answers.len() || answers[end] is None
        &&& forall|m: int| i <= m < end ==> (#[trigger] answers[m]) == Some(chunk.slots[m - chunk.start])
    }) by {
        assert(is_place(cs, windows::starts(cs)[j]));
        let (c, at) = choose|c: int, at: int|
            0 <= c < cs.len() && 0 <= at < cs[c].slots.len() && windows::starts(cs)[j]
                == #[trigger] place(cs, c, at);
        let run = runs[c];
        assert(windows::is_maximal_run(answers, run));
        let chunk = cs[c];
        assert(chunk == windows::chunk_of(answers, ends_in_prefix, run));
        assert forall|m: int| i <= m < run.1 implies (#[trigger] answers[m]) == Some(
            chunk.slots[m - chunk.start],
        ) by {
            assert(answers[run.0 + (m - run.0)] is Some);
        }
    }
}

/// The place with number `j` is the word at position `i` of the text.
pub open spec fn starts_at(answers: Answers, ends_in_prefix: bool, j: int, i: int) -> bool {
    let (chunk, at) = windows::starts(windows::chunks(answers, ends_in_prefix))[j];
    chunk.start + at == i
}

impl<G, R, L, C, P, M, N, W, E> FuzzyPhraseSet<G, R, L, C, P, M, N, W> where
    G: Fn(&str) -> Option<u64>,
    R: Fn(&str) -> Option<(u64, u64)>,
    L: Fn(&str, u8, &Vec<String>) -> Result<Vec<FuzzyMapLookupResult>, E>,
    C: Fn(&Vec<QueryWord>) -> Result<bool, E>,
    P: Fn(&Vec<QueryWord>) -> Result<bool, E>,
    M: Fn(&Vec<Vec<QueryWord>>, u8) -> Result<Vec<Vec<QueryWord>>, E>,
    N: Fn(&Vec<Vec<QueryWord>>, u8) -> Result<Vec<Vec<QueryWord>>, E>,
    W: Fn(&[Vec<QueryWord>], u8, bool) -> Result<Vec<(Vec<QueryWord>, bool)>, E>,
 {
    /// Only at the end of a text that ends in a prefix may a prefix stand in the last slot.
    pub(crate) proof fn lemma_place_askable(
        &self,
        typed: Seq<Seq<char>>,
        d: u8,
        ends_in_prefix: bool,
        answers: Answers,
        p: (Chunk, int),
    )
        requires
            self.may_answer_all(typed, d, ends_in_prefix, Ok(answers)),
            is_place(windows::chunks(answers, ends_in_prefix), p),
        ensures
            laws::are_askable(p.0.slots.skip(p.1), p.0.ends_in_prefix),
            is_within(typed, p),
    {
        let cs = windows::chunks(answers, ends_in_prefix);
        windows::runs_are_the_maximal_stretches(answers);
        let (c, at) = choose|c: int, at: int|
            0 <= c < cs.len() && 0 <= at < cs[c].slots.len() && p == #[trigger] place(cs, c, at);
        let run = windows::runs(answers)[c];
        assert(windows::is_maximal_run(answers, run));
        let chunk = cs[c];
        assert(chunk == windows::chunk_of(answers, ends_in_prefix, run));
        let rest = chunk.slots.skip(at);
        assert forall|i: int|
            0 <= i < rest.len() && !(chunk.ends_in_prefix && i == rest.len() - 1) implies laws::all_full(
            #[trigger] rest[i],
        ) by {
            let x = run.0 + at + i;
            assert(rest[i] == chunk.slots[at + i]);
            assert(answers[x] is Some);
            assert(answers[x] == Some(rest[i]));
            assert(self.may_answer_at(typed, d, ends_in_prefix, x, Ok(answers[x])));
            self.lemma_answers_are_whole(typed[x], d, rest[i]);
        }
    }

    /// A window that was found at a place, written out.
    spec fn window_at(&self, typed: Seq<Seq<char>>, p: (Chunk, int), f: (Seq<QueryWord>, bool)) -> WindowMatch {
        windows::window_of(self.words(), typed, windows::position(p), f)
    }

    /// All that the phrase graph found at a place is among the results.
    spec fn is_searched(
        &self,
        typed: Seq<Seq<char>>,
        max_phrase_dist: u8,
        p: (Chunk, int),
        results: Seq<WindowMatch>,
    ) -> bool {
        exists|found: Seq<(Seq<QueryWord>, bool)>| #[trigger]
            self.may_find_at(max_phrase_dist, p, Ok(found)) && forall|n: int|
                0 <= n < found.len() ==> results.contains(
                    self.window_at(typed, p, #[trigger] found[n]),
                )
    }

    /// A result is something that the phrase graph found at a place.
    spec fn comes_from(
        &self,
        typed: Seq<Seq<char>>,
        max_phrase_dist: u8,
        p: (Chunk, int),
        r: WindowMatch,
    ) -> bool {
        exists|found: Seq<(Seq<QueryWord>, bool)>, n: int|
            0 <= n < found.len() && #[trigger] self.may_find_at(max_phrase_dist, p, Ok(found)) && r
                == self.window_at(typed, p, #[trigger] found[n])
    }

    /// A result is something that the phrase graph found at one of some places.
    spec fn comes_from_one(
        &self,
        typed: Seq<Seq<char>>,
        max_phrase_dist: u8,
        places: Seq<(Chunk, int)>,
        r: WindowMatch,
    ) -> bool {
        exists|j: int|
            0 <= j < places.len() && self.comes_from(typed, max_phrase_dist, #[trigger] places[j], r)
    }

    /// What was found at some places is written out, and nothing else.
    proof fn lemma_all_windows(
        &self,
        typed: Seq<Seq<char>>,
        places: Seq<(Chunk, int)>,
        found: Seq<Seq<(Seq<QueryWord>, bool)>>,
    )
        ensures
            forall|j: int, n: int|
                0 <= j < found.len() && 0 <= n < found[j].len() ==> windows::all_windows(
                    self.words(),
                    typed,
                    places,
                    found,
                ).contains(self.window_at(typed, places[j], #[trigger] found[j][n])),
            forall|m: int|
                0 <= m < windows::all_windows(self.words(), typed, places, found).len()
                    ==> self.was_found(
                    typed,
                    places,
                    found,
                    #[trigger] windows::all_windows(self.words(), typed, places, found)[m],
                ),
        decreases found.len(),
    {
        if found.len() > 0 {
            let front = found.drop_last();
            let last = found.len() - 1;
            self.lemma_all_windows(typed, places, front);
            let before = windows::all_windows(self.words(), typed, places, front);
            let added = windows::windows_from(
                self.words(),
                typed,
                windows::position(places[last]),
                found[last],
            );
            let results = windows::all_windows(self.words(), typed, places, found);
            assert(results == before + added);
            assert forall|j: int, n: int| 0 <= j < found.len() && 0 <= n < found[j].len() implies results.contains(
                self.window_at(typed, places[j], #[trigger] found[j][n]),
            ) by {
                let w = self.window_at(typed, places[j], found[j][n]);
                if j < last {
                    assert(front[j][n] == found[j][n]);
                    assert(before.contains(w));
                    let m = choose|m: int| 0 <= m < before.len() && before[m] == w;
                    assert(results[m] == w);
                } else {
                    assert(results[before.len() + n] == added[n]);
                }
            }
            assert forall|m: int| 0 <= m < results.len() implies self.was_found(
                typed,
                places,
                found,
                #[trigger] results[m],
            ) by {
                if m < before.len() {
                    assert(results[m] == before[m]);
                    assert(self.was_found(typed, places, front, before[m]));
                    let (j, n) = choose|j: int, n: int|
                        0 <= j < front.len() && 0 <= n < front[j].len() && before[m]
                            == self.window_at(typed, places[j], #[trigger] front[j][n]);
                    assert(found[j][n] == front[j][n]);
                } else {
                    let n = m - before.len();
                    assert(results[m] == self.window_at(typed, places[last], found[last][n]));
                }
            }
        }
    }

    /// A result is something that was found at one of some places.
    spec fn was_found(
        &self,
        typed: Seq<Seq<char>>,
        places: Seq<(Chunk, int)>,
        found: Seq<Seq<(Seq<QueryWord>, bool)>>,
        r: WindowMatch,
    ) -> bool {
        exists|j: int, n: int|
            0 <= j < found.len() && 0 <= n < found[j].len() && r == self.window_at(
                typed,
                places[j],
                #[trigger] found[j][n],
            )
    }

    /// What a search gives is what the phrase graph found at each place.
    proof fn lemma_searched(
        &self,
        typed: Seq<Seq<char>>,
        max_phrase_dist: u8,
        places: Seq<(Chunk, int)>,
        results: Seq<WindowMatch>,
    )
        requires
            self.may_search(typed, max_phrase_dist, places, Ok(results)),
        ensures
            forall|j: int|
                0 <= j < places.len() ==> self.is_searched(
                    typed,
                    max_phrase_dist,
                    #[trigger] places[j],
                    results,
                ),
            forall|m: int|
                0 <= m < results.len() ==> self.comes_from_one(
                    typed,
                    max_phrase_dist,
                    places,
                    #[trigger] results[m],
                ),
    {
        let found = choose|found: Seq<Seq<(Seq<QueryWord>, bool)>>| #[trigger]
            self.may_find_first(typed, max_phrase_dist, places, found) && found.len()
                == places.len() && results == windows::all_windows(
                self.words(),
                typed,
                places,
                found,
            );
        self.lemma_all_windows(typed, places, found);
        assert forall|j: int| 0 <= j < places.len() implies self.is_searched(
            typed,
            max_phrase_dist,
            #[trigger] places[j],
            results,
        ) by {
            let here = found[j];
            assert(self.may_find_at(max_phrase_dist, places[j], Ok(here)));
            assert forall|n: int| 0 <= n < here.len() implies results.contains(
                self.window_at(typed, places[j], #[trigger] here[n]),
            ) by {
                assert(found[j][n] == here[n]);
            }
        }
        assert forall|m: int| 0 <= m < results.len() implies self.comes_from_one(
            typed,
            max_phrase_dist,
            places,
            #[trigger] results[m],
        ) by {
            assert(self.was_found(typed, places, found, results[m]));
            let (j, n) = choose|j: int, n: int|
                0 <= j < found.len() && 0 <= n < found[j].len() && results[m] == self.window_at(
                    typed,
                    places[j],
                    #[trigger] found[j][n],
                );
            let here = found[j];
            assert(self.may_find_at(max_phrase_dist, places[j], Ok(here)));
            assert(results[m] == self.window_at(typed, places[j], here[n]));
            assert(self.comes_from(typed, max_phrase_dist, places[j], results[m]));
        }
    }

    /// What is found in a text without a mark are phrases that were inserted. They lie within the
    /// text, within one stretch of found words, and make no more edits than were allowed.
    pub proof fn windows_are_phrases_that_were_inserted(
        &self,
        inserted: Seq<Seq<Seq<char>>>,
        phrases: Seq<Seq<u32>>,
        typed: Seq<Seq<char>>,
        max_word_dist: u8,
        max_phrase_dist: u8,
        ends_in_prefix: bool,
        results: Seq<WindowMatch>,
    )
        requires
            self.holds(inserted, phrases),
            self.may_fuzzy_match_windows(
                typed,
                max_word_dist,
                max_phrase_dist,
                ends_in_prefix,
                Ok(results),
            ),
        ensures
            forall|m: int|
                0 <= m < results.len() && !(#[trigger] results[m]).ends_in_prefix ==> {
                    let r = results[m];
                    &&& inserted.contains(r.phrase)
                    &&& r.edit_distance <= max_phrase_dist
                    &&& 0 <= r.start_position
                    &&& r.start_position + r.phrase.len() <= typed.len()
                },
    {
        self.lemma_sound(inserted, phrases);
        let d = laws::one_at_most(max_word_dist);
        let answers = choose|answers: Answers| #[trigger]
            self.may_answer_all(typed, d, ends_in_prefix, Ok(answers)) && self.may_search(
                typed,
                max_phrase_dist,
                windows::starts(windows::chunks(answers, ends_in_prefix)),
                Ok(results),
            );
        let cs = windows::chunks(answers, ends_in_prefix);
        let places = windows::starts(cs);
        self.lemma_searched(typed, max_phrase_dist, places, results);
        lemma_starts(cs);
        windows::runs_are_the_maximal_stretches(answers);
        assert forall|m: int|
            0 <= m < results.len() && !(#[trigger] results[m]).ends_in_prefix implies ({
            let r = results[m];
            &&& inserted.contains(r.phrase)
            &&& r.edit_distance <= max_phrase_dist
            &&& 0 <= r.start_position
            &&& r.start_position + r.phrase.len() <= typed.len()
        }) by {
            assert(self.comes_from_one(typed, max_phrase_dist, places, results[m]));
            let j = choose|j: int|
                0 <= j < places.len() && self.comes_from(
                    typed,
                    max_phrase_dist,
                    #[trigger] places[j],
                    results[m],
                );
            let (found, n) = choose|found: Seq<(Seq<QueryWord>, bool)>, n: int|
                0 <= n < found.len() && #[trigger] self.may_find_at(max_phrase_dist, places[j], Ok(found))
                    && results[m] == self.window_at(typed, places[j], #[trigger] found[n]);
            let rest = places[j].0.slots.skip(places[j].1);
            let c = found[n].0;
            assert(found[n] == (c, false));
            assert(found.contains((c, false)));
            assert(is_place(cs, places[j]));
            self.lemma_place_askable(typed, d, ends_in_prefix, answers, places[j]);
            assert(laws::window_rule(
                phrases,
                rest,
                max_phrase_dist,
                places[j].0.ends_in_prefix,
                found,
                c,
            ));
            let (k, at) = choose|k: int, at: int|
                0 <= k < cs.len() && 0 <= at < cs[k].slots.len() && places[j] == #[trigger] place(
                    cs,
                    k,
                    at,
                );
            assert(windows::is_maximal_run(answers, windows::runs(answers)[k]));
            assert(cs[k] == windows::chunk_of(answers, ends_in_prefix, windows::runs(answers)[k]));
            fuzzy_laws::lemma_phrase_in_text(
                inserted,
                self.words(),
                phrases,
                typed,
                windows::position(places[j]),
                c,
            );
        }
    }

    /// A phrase that was inserted is found wherever it stands in a text, with no edits; unless it
    /// stands at the end of a text that ends in a prefix.
    #[verifier::rlimit(40)]
    #[verifier::spinoff_prover]
    pub proof fn windows_find_what_was_inserted(
        &self,
        inserted: Seq<Seq<Seq<char>>>,
        phrases: Seq<Seq<u32>>,
        typed: Seq<Seq<char>>,
        from: int,
        to: int,
        max_word_dist: u8,
        max_phrase_dist: u8,
        ends_in_prefix: bool,
        results: Seq<WindowMatch>,
    )
        requires
            self.holds(inserted, phrases),
            self.fuzzy_map.finds(self.words(), &self.script_regex),
            0 <= from < to <= typed.len(),
            to < typed.len() || !ends_in_prefix,
            inserted.contains(typed.subrange(from, to)),
            self.may_fuzzy_match_windows(
                typed,
                max_word_dist,
                max_phrase_dist,
                ends_in_prefix,
                Ok(results),
            ),
        ensures
            results.contains(
                WindowMatch {
                    phrase: typed.subrange(from, to),
                    edit_distance: 0,
                    start_position: from,
                    ends_in_prefix: false,
                },
            ),
    {
        self.lemma_sound(inserted, phrases);
        let d = laws::one_at_most(max_word_dist);
        let phrase = typed.subrange(from, to);
        let answers = choose|answers: Answers| #[trigger]
            self.may_answer_all(typed, d, ends_in_prefix, Ok(answers)) && self.may_search(
                typed,
                max_phrase_dist,
                windows::starts(windows::chunks(answers, ends_in_prefix)),
                Ok(results),
            );
        let cs = windows::chunks(answers, ends_in_prefix);
        let places = windows::starts(cs);
        self.lemma_searched(typed, max_phrase_dist, places, results);
        lemma_starts(cs);
        windows::runs_are_the_maximal_stretches(answers);
        self.lemma_words_of(inserted, phrases, phrase);
        assert forall|i: int| from <= i < to implies (#[trigger] answers[i]) is Some && self.may_answer(
            typed[i],
            d,
            Ok(answers[i]),
        ) by {
            assert(self.may_answer_at(typed, d, ends_in_prefix, i, Ok(answers[i])));
            assert(phrase[i - from] == typed[i]);
            self.lemma_own_answer(typed[i], d, answers[i]);
        }
        let runs = windows::runs(answers);
        assert(answers[from] is Some);
        let k = choose|k: int| 0 <= k < runs.len() && (#[trigger] runs[k]).0 <= from < runs[k].1;
        assert(windows::is_maximal_run(answers, runs[k]));
        let run = runs[k];
        assert(to <= run.1);
        let chunk = cs[k];
        assert(chunk == windows::chunk_of(answers, ends_in_prefix, run));
        let at = from - run.0;
        let rest = chunk.slots.skip(at);
        assert(places.contains(place(cs, k, at)));
        let j = choose|j: int| 0 <= j < places.len() && places[j] == place(cs, k, at);
        let slots = rest.take(to - from);
        assert forall|i: int| 0 <= i < phrase.len() implies self.may_answer(
            phrase[i],
            d,
            Ok(Some(#[trigger] slots[i])),
        ) by {
            assert(answers[from + i] is Some);
            assert(slots[i] == chunk.slots[at + i]);
            assert(Some(slots[i]) == answers[from + i]);
        }
        let c = self.lemma_exact_pick(inserted, phrases, phrase, d, slots);
        assert(self.is_searched(typed, max_phrase_dist, places[j], results));
        let found = choose|found: Seq<(Seq<QueryWord>, bool)>| #[trigger]
            self.may_find_at(max_phrase_dist, places[j], Ok(found)) && forall|n: int|
                0 <= n < found.len() ==> results.contains(
                    self.window_at(typed, places[j], #[trigger] found[n]),
                );
        assert(laws::is_near_pick(rest, max_phrase_dist, c));
        assert(is_place(cs, places[j]));
        self.lemma_place_askable(typed, d, ends_in_prefix, answers, places[j]);
        assert(laws::window_rule(phrases, rest, max_phrase_dist, chunk.ends_in_prefix, found, c));
        assert(found.contains((c, false)));
        let n = choose|n: int| 0 <= n < found.len() && found[n] == (c, false);
        let w = self.window_at(typed, places[j], found[n]);
        assert(results.contains(w));
        assert(w.phrase =~= phrase);
    }

    /// What is found with a mark, in a text that ends in a prefix and in no other, stands at its end,
    /// begins a phrase that was inserted, and makes no more edits than were allowed.
    pub proof fn marked_windows_begin_what_was_inserted(
        &self,
        inserted: Seq<Seq<Seq<char>>>,
        phrases: Seq<Seq<u32>>,
        typed: Seq<Seq<char>>,
        max_word_dist: u8,
        max_phrase_dist: u8,
        ends_in_prefix: bool,
        results: Seq<WindowMatch>,
    )
        requires
            self.holds(inserted, phrases),
            self.may_fuzzy_match_windows(
                typed,
                max_word_dist,
                max_phrase_dist,
                ends_in_prefix,
                Ok(results),
            ),
        ensures
            forall|m: int|
                0 <= m < results.len() && (#[trigger] results[m]).ends_in_prefix ==> {
                    let r = results[m];
                    &&& ends_in_prefix
                    &&& r.edit_distance <= max_phrase_dist
                    &&& 0 <= r.start_position
                    &&& r.start_position + r.phrase.len() == typed.len()
                    &&& laws::begins_one(r.phrase, inserted)
                },
    {
        self.lemma_sound(inserted, phrases);
        let d = laws::one_at_most(max_word_dist);
        let words = self.words();
        let all = builder::decoded_all(words, phrases);
        laws::lemma_laid_out(inserted, words, phrases);
        let answers = choose|answers: Answers| #[trigger]
            self.may_answer_all(typed, d, ends_in_prefix, Ok(answers)) && self.may_search(
                typed,
                max_phrase_dist,
                windows::starts(windows::chunks(answers, ends_in_prefix)),
                Ok(results),
            );
        let cs = windows::chunks(answers, ends_in_prefix);
        let places = windows::starts(cs);
        self.lemma_searched(typed, max_phrase_dist, places, results);
        lemma_starts(cs);
        windows::runs_are_the_maximal_stretches(answers);
        assert forall|m: int|
            0 <= m < results.len() && (#[trigger] results[m]).ends_in_prefix implies ({
            let r = results[m];
            &&& ends_in_prefix
            &&& r.edit_distance <= max_phrase_dist
            &&& 0 <= r.start_position
            &&& r.start_position + r.phrase.len() == typed.len()
            &&& laws::begins_one(r.phrase, inserted)
        }) by {
            let r = results[m];
            assert(self.comes_from_one(typed, max_phrase_dist, places, r));
            let j = choose|j: int|
                0 <= j < places.len() && self.comes_from(
                    typed,
                    max_phrase_dist,
                    #[trigger] places[j],
                    r,
                );
            let (found, n) = choose|found: Seq<(Seq<QueryWord>, bool)>, n: int|
                0 <= n < found.len() && #[trigger] self.may_find_at(max_phrase_dist, places[j], Ok(found))
                    && r == self.window_at(typed, places[j], #[trigger] found[n]);
            let (chunk, at) = places[j];
            let rest = chunk.slots.skip(at);
            let c = found[n].0;
            let last = c.len() - 1;
            assert(found[n] == (c, true));
            assert(found.contains((c, true)));
            assert(is_place(cs, places[j]));
            self.lemma_place_askable(typed, d, ends_in_prefix, answers, places[j]);
            assert(laws::window_rule(
                phrases,
                rest,
                max_phrase_dist,
                chunk.ends_in_prefix,
                found,
                c,
            ));
            let (k, a) = choose|k: int, a: int|
                0 <= k < cs.len() && 0 <= a < cs[k].slots.len() && places[j] == #[trigger] place(
                    cs,
                    k,
                    a,
                );
            let run = windows::runs(answers)[k];
            assert(windows::is_maximal_run(answers, run));
            assert(cs[k] == windows::chunk_of(answers, ends_in_prefix, run));
            assert(rest.take(c.len() as int) =~= rest);
            assert forall|i: int| 0 <= i < c.len() implies rest[i].contains(#[trigger] c[i])
                && self.may_answer_at(
                typed,
                d,
                ends_in_prefix,
                r.start_position + i,
                Ok(Some(rest[i])),
            ) by {
                let p = r.start_position + i;
                assert(rest[i] == chunk.slots[at + i]);
                assert(answers[p] is Some);
                assert(answers[p] == Some(rest[i]));
            }
            let b = choose|b: int| 0 <= b < phrases.len() && laws::covers(c, #[trigger] phrases[b]);
            assert forall|i: int| 0 <= i < last implies r.phrase[i] == #[trigger] all[b][i] by {
                assert(rest[i].contains(c[i]));
                self.lemma_answers_are_whole(typed[r.start_position + i], d, rest[i]);
                assert(laws::word_covers(c[i], phrases[b][i]));
            }
            assert(laws::word_covers(c[last], phrases[b][last]));
            assert(phrases[b][last] < words.len());
            assert(rest[last].contains(c[last]));
            match c[last] {
                QueryWord::Full { id, edit_distance } => {
                    assert(all[b][last] == r.phrase[last]);
                    assert(all[b][last].take(all[b][last].len() as int) =~= all[b][last]);
                },
                QueryWord::Prefix { id_range } => {
                    let i = choose|i: int| 0 <= i < rest[last].len() && rest[last][i] == c[last];
                    assert(self.may_answer_last(typed.last(), d, Ok(Some(rest[last]))));
                    self.lemma_last_answers(typed.last(), d, rest[last], i);
                    assert(laws::starts_with(all[b][last], typed.last()));
                    assert(r.phrase[last] == typed.last());
                },
            }
            assert(laws::begins(r.phrase, all[b]));
            assert(all.contains(all[b]));
            assert(inserted.contains(all[b]));
            let x = choose|x: int| 0 <= x < inserted.len() && inserted[x] == all[b];
            assert(laws::begins(r.phrase, inserted[x]));
        }
    }

    /// What begins a phrase that was inserted is found, marked, at the end of a text that ends in a
    /// prefix, as it was typed and with no edits.
    #[verifier::rlimit(40)]
    #[verifier::spinoff_prover]
    pub proof fn windows_find_what_begins(
        &self,
        inserted: Seq<Seq<Seq<char>>>,
        phrases: Seq<Seq<u32>>,
        typed: Seq<Seq<char>>,
        from: int,
        max_word_dist: u8,
        max_phrase_dist: u8,
        results: Seq<WindowMatch>,
    )
        requires
            self.holds(inserted, phrases),
            self.fuzzy_map.finds(self.words(), &self.script_regex),
            0 <= from < typed.len(),
            laws::begins_one(typed.skip(from), inserted),
            self.may_fuzzy_match_windows(
                typed,
                max_word_dist,
                max_phrase_dist,
                true,
                Ok(results),
            ),
        ensures
            results.contains(
                WindowMatch {
                    phrase: typed.skip(from),
                    edit_distance: 0,
                    start_position: from,
                    ends_in_prefix: true,
                },
            ),
    {
        self.lemma_sound(inserted, phrases);
        let d = laws::one_at_most(max_word_dist);
        let words = self.words();
        let tail = typed.skip(from);
        let last = tail.len() - 1;
        let to = typed.len() as int;
        let answers = choose|answers: Answers| #[trigger]
            self.may_answer_all(typed, d, true, Ok(answers)) && self.may_search(
                typed,
                max_phrase_dist,
                windows::starts(windows::chunks(answers, true)),
                Ok(results),
            );
        let cs = windows::chunks(answers, true);
        let places = windows::starts(cs);
        self.lemma_searched(typed, max_phrase_dist, places, results);
        lemma_starts(cs);
        windows::runs_are_the_maximal_stretches(answers);
        let b = self.lemma_beginning_answered(inserted, phrases, tail, d);
        assert forall|i: int| from <= i < to - 1 implies (#[trigger] answers[i]) is Some
            && answers[i]->Some_0.contains(
            QueryWord::Full { id: phrases[b][i - from], edit_distance: 0 },
        ) by {
            assert(self.may_answer_at(typed, d, true, i, Ok(answers[i])));
            assert(tail[i - from] == typed[i]);
            assert(self.may_answer(tail[i - from], d, Ok(answers[i])));
        }
        assert(answers[to - 1] is Some) by {
            assert(self.may_answer_at(typed, d, true, to - 1, Ok(answers[to - 1])));
            assert(self.may_answer_last(tail.last(), d, Ok(answers[to - 1])));
        }
        let runs = windows::runs(answers);
        assert(answers[from] is Some);
        let k = choose|k: int| 0 <= k < runs.len() && (#[trigger] runs[k]).0 <= from < runs[k].1;
        let run = runs[k];
        assert(windows::is_maximal_run(answers, run));
        assert(to == run.1) by {
            if run.1 < to {
                assert(answers[run.1] is Some);
            }
        }
        let chunk = cs[k];
        assert(chunk == windows::chunk_of(answers, true, run));
        let at = from - run.0;
        let slots = chunk.slots.skip(at);
        assert(places.contains(place(cs, k, at)));
        let j = choose|j: int| 0 <= j < places.len() && places[j] == place(cs, k, at);
        assert forall|i: int| 0 <= i < slots.len() implies answers[from + i] == Some(#[trigger] slots[i]) by {
            assert(answers[from + i] is Some);
            assert(slots[i] == chunk.slots[at + i]);
        }
        assert forall|i: int| 0 <= i < last implies (#[trigger] slots[i]).contains(
            QueryWord::Full { id: phrases[b][i], edit_distance: 0 },
        ) by {
            assert(answers[from + i] is Some);
            assert(answers[from + i] == Some(slots[i]));
        }
        assert(self.may_answer_at(typed, d, true, to - 1, Ok(answers[to - 1])));
        assert(answers[from + last] == Some(slots[last]));
        assert(self.may_answer_last(tail.last(), d, Ok(Some(slots[last]))));
        let c = self.lemma_prefix_pick(phrases, b, slots);
        assert(self.is_searched(typed, max_phrase_dist, places[j], results));
        let found = choose|found: Seq<(Seq<QueryWord>, bool)>| #[trigger]
            self.may_find_at(max_phrase_dist, places[j], Ok(found)) && forall|n: int|
                0 <= n < found.len() ==> results.contains(
                    self.window_at(typed, places[j], #[trigger] found[n]),
                );
        assert(slots.take(c.len() as int) =~= slots);
        assert(laws::is_near_pick(slots, max_phrase_dist, c));
        assert(is_place(cs, places[j]));
        self.lemma_place_askable(typed, d, true, answers, places[j]);
        assert(laws::window_rule(phrases, slots, max_phrase_dist, chunk.ends_in_prefix, found, c));
        assert(found.contains((c, true)));
        let n = choose|n: int| 0 <= n < found.len() && found[n] == (c, true);
        let w = self.window_at(typed, places[j], found[n]);
        assert(results.contains(w));
        assert forall|i: int| 0 <= i < last implies #[trigger] w.phrase[i] == tail[i] by {
            assert(c[i] == (QueryWord::Full { id: phrases[b][i], edit_distance: 0 }));
            assert(phrases[b][i] < words.len());
        }
        assert(w.phrase[last] == tail[last]);
        assert(w.phrase =~= tail);
    }

    /// Where the indexes hold what was inserted, all that is found in a text can be written out.
    pub proof fn windows_fit(
        &self,
        inserted: Seq<Seq<Seq<char>>>,
        phrases: Seq<Seq<u32>>,
        typed: Seq<Seq<char>>,
        max_word_dist: u8,
        max_phrase_dist: u8,
        ends_in_prefix: bool,
        outcome: Result<Seq<WindowMatch>, SearchError<E>>,
    )
        requires
            self.holds(inserted, phrases),
            self.may_fuzzy_match_windows(
                typed,
                max_word_dist,
                max_phrase_dist,
                ends_in_prefix,
                outcome,
            ),
        ensures
            outcome != Err::<Seq<WindowMatch>, SearchError<E>>(SearchError::Unfit),
    {
        self.lemma_sound(inserted, phrases);
        let d = laws::one_at_most(max_word_dist);
        if outcome == Err::<Seq<WindowMatch>, SearchError<E>>(SearchError::Unfit) {
            let answers = choose|answers: Answers| #[trigger]
                self.may_answer_all(typed, d, ends_in_prefix, Ok(answers)) && self.may_search(
                    typed,
                    max_phrase_dist,
                    windows::starts(windows::chunks(answers, ends_in_prefix)),
                    outcome,
                );
            let cs = windows::chunks(answers, ends_in_prefix);
            let places = windows::starts(cs);
            lemma_starts(cs);
            let (found, reply) = choose|
                found: Seq<Seq<(Seq<QueryWord>, bool)>>,
                reply: Result<Seq<(Seq<QueryWord>, bool)>, E>,
            | #[trigger]
                self.may_find_first(typed, max_phrase_dist, places, found) && found.len()
                    < places.len() && #[trigger] self.may_find_at(
                    max_phrase_dist,
                    places[found.len() as int],
                    reply,
                ) && windows::window_error(
                    self.words().len() as int,
                    typed.len() as int,
                    places[found.len() as int],
                    reply,
                ) == Some(SearchError::<E>::Unfit);
            let j = found.len() as int;
            assert(is_place(cs, places[j]));
            self.lemma_place_askable(typed, d, ends_in_prefix, answers, places[j]);
            self.lemma_place_fits(inserted, phrases, typed, max_phrase_dist, places[j], reply->Ok_0);
        }
    }

    /// What the phrase graph finds at a place within a text can be written out.
    proof fn lemma_place_fits(
        &self,
        inserted: Seq<Seq<Seq<char>>>,
        phrases: Seq<Seq<u32>>,
        typed: Seq<Seq<char>>,
        max_phrase_dist: u8,
        p: (Chunk, int),
        found: Seq<(Seq<QueryWord>, bool)>,
    )
        requires
            self.holds(inserted, phrases),
            is_within(typed, p),
            laws::are_askable(p.0.slots.skip(p.1), p.0.ends_in_prefix),
            self.may_find_at(max_phrase_dist, p, Ok(found)),
        ensures
            windows::windows_fit(
                self.words().len() as int,
                typed.len() as int,
                windows::position(p),
                found,
            ),
    {
        self.lemma_sound(inserted, phrases);
        let words = self.words().len() as int;
        let n = typed.len() as int;
        let (chunk, at) = p;
        let slots = chunk.slots.skip(at);
        assert forall|i: int| 0 <= i < found.len() implies query::fits(
            words,
            n,
            windows::position(p),
            (#[trigger] found[i]).0,
        ) by {
            let c = found[i].0;
            assert(found.contains(found[i]));
            assert(laws::window_rule(
                phrases,
                slots,
                max_phrase_dist,
                chunk.ends_in_prefix,
                found,
                c,
            ));
            assert(found.contains((c, true)) || found.contains((c, false)));
            if found.contains((c, false)) {
                fuzzy_laws::lemma_phrase_begins(phrases, c);
            }
            fuzzy_laws::lemma_beginning_fits(
                words,
                phrases,
                n,
                windows::position(p),
                max_phrase_dist,
                c,
            );
        }
    }
}

} // verus!
