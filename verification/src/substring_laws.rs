//! A search for phrases anywhere in a text finds, in each part of the text, what a search for that
//! part alone finds.
use vstd::prelude::*;
use crate::laws;
use crate::laws::Distance;
use crate::multi;
use crate::query;
use crate::query::{FuzzyMapLookupResult, QueryWord};
use crate::search;
use crate::search::{FuzzyPhraseSet, Match};
use crate::steady_laws;
use crate::steady_laws::is_sought;
use crate::window_laws;
use crate::windows;
use crate::windows::{Answers, Chunk, WindowMatch};

verus! {

/// A result stands at a certain place in the text, is of a certain length, and is marked or not.
pub open spec fn is_result_at(r: WindowMatch, start: int, len: nat, marked: bool) -> bool {
    r.start_position == start && r.phrase.len() == len && r.ends_in_prefix == marked
}

/// The results that stand at a certain place, are of a certain length, and are marked or not.
pub open spec fn results_at(
    results: Seq<WindowMatch>,
    start: int,
    len: nat,
    marked: bool,
) -> Seq<Match>
    decreases results.len(),
{
    if results.len() == 0 {
        Seq::empty()
    } else {
        let before = results_at(results.drop_last(), start, len, marked);
        let last = results.last();
        if is_result_at(last, start, len, marked) {
            before.push(Match { phrase: last.phrase, edit_distance: last.edit_distance })
        } else {
            before
        }
    }
}

/// The results of two lists are those of the first and then those of the second.
proof fn lemma_results_add_up(
    a: Seq<WindowMatch>,
    b: Seq<WindowMatch>,
    start: int,
    len: nat,
    marked: bool,
)
    ensures
        results_at(a + b, start, len, marked) == results_at(a, start, len, marked) + results_at(
            b,
            start,
            len,
            marked,
        ),
    decreases b.len(),
{
    if b.len() == 0 {
        assert(a + b =~= a);
        assert(results_at(a, start, len, marked) + Seq::<Match>::empty() =~= results_at(
            a,
            start,
            len,
            marked,
        ));
    } else {
        lemma_results_add_up(a, b.drop_last(), start, len, marked);
        assert((a + b).drop_last() =~= a + b.drop_last());
        let before = results_at(a, start, len, marked);
        let after = results_at(b.drop_last(), start, len, marked);
        let last = Match { phrase: b.last().phrase, edit_distance: b.last().edit_distance };
        assert(before + after.push(last) =~= (before + after).push(last));
    }
}

/// The results that were found from one position on.
proof fn lemma_results_from(
    words: Seq<Seq<char>>,
    typed: Seq<Seq<char>>,
    from: int,
    found: Seq<(Seq<QueryWord>, bool)>,
    start: int,
    len: nat,
    marked: bool,
)
    requires
        0 <= start,
        start + len <= typed.len(),
    ensures
        results_at(windows::windows_from(words, typed, from, found), start, len, marked) == if from
            == start {
            search::matches_of(
                words,
                typed.subrange(start, start + len),
                multi::own(len, marked, found),
            )
        } else {
            Seq::empty()
        },
    decreases found.len(),
{
    let part = typed.subrange(start, start + len);
    let now = windows::windows_from(words, typed, from, found);
    if found.len() == 0 {
        assert(now =~= Seq::<WindowMatch>::empty());
        assert(search::matches_of(words, part, multi::own(len, marked, found)) =~= Seq::<Match>::empty());
    } else {
        let front = found.drop_last();
        let last = found.last();
        lemma_results_from(words, typed, from, front, start, len, marked);
        assert(now.drop_last() =~= windows::windows_from(words, typed, from, front));
        assert(now.last() == windows::window_of(words, typed, from, last));
        if from == start && multi::claims(len, marked, last) {
            assert(query::written_out(words, typed, from, last.0) =~= query::written_out(
                words,
                part,
                0,
                last.0,
            ));
            let own = multi::own(len, marked, front);
            assert(search::matches_of(words, part, own.push(last.0)) =~= search::matches_of(
                words,
                part,
                own,
            ).push(search::match_of(words, part, last.0)));
        }
    }
}

/// The results that were found at some places come from the one place at their position.
proof fn lemma_results_of_places(
    words: Seq<Seq<char>>,
    typed: Seq<Seq<char>>,
    places: Seq<(Chunk, int)>,
    found: Seq<Seq<(Seq<QueryWord>, bool)>>,
    start: int,
    len: nat,
    marked: bool,
)
    requires
        0 <= start,
        start + len <= typed.len(),
        found.len() <= places.len(),
        forall|j: int, k: int|
            0 <= j < k < places.len() ==> windows::position(#[trigger] places[j]) < windows::position(
                #[trigger] places[k],
            ),
    ensures
        (forall|j: int|
            0 <= j < found.len() ==> windows::position(#[trigger] places[j]) != start)
            ==> results_at(windows::all_windows(words, typed, places, found), start, len, marked)
            == Seq::<Match>::empty(),
        forall|j: int|
            0 <= j < found.len() && windows::position(#[trigger] places[j]) == start ==> results_at(
                windows::all_windows(words, typed, places, found),
                start,
                len,
                marked,
            ) == search::matches_of(
                words,
                typed.subrange(start, start + len),
                multi::own(len, marked, found[j]),
            ),
    decreases found.len(),
{
    if found.len() > 0 {
        let front = found.drop_last();
        let last = found.len() - 1;
        let from = windows::position(places[last]);
        let before = windows::all_windows(words, typed, places, front);
        let added = windows::windows_from(words, typed, from, found[last]);
        lemma_results_of_places(words, typed, places, front, start, len, marked);
        lemma_results_add_up(before, added, start, len, marked);
        lemma_results_from(words, typed, from, found[last], start, len, marked);
        let first = results_at(before, start, len, marked);
        let second = results_at(added, start, len, marked);
        if from == start {
            assert(forall|j: int| 0 <= j < front.len() ==> windows::position(#[trigger] places[j]) < from);
            assert(first + second =~= second);
        } else {
            assert(first + second =~= first);
        }
        assert forall|j: int|
            0 <= j < found.len() && windows::position(#[trigger] places[j]) == start implies results_at(
            windows::all_windows(words, typed, places, found),
            start,
            len,
            marked,
        ) == search::matches_of(
            words,
            typed.subrange(start, start + len),
            multi::own(len, marked, found[j]),
        ) by {
            if j < last {
                assert(front[j] == found[j]);
                assert(windows::position(places[j]) < windows::position(places[last]));
            }
        }
    }
}

/// The places of stretches that come in order come in order.
proof fn lemma_places_in_order(cs: Seq<Chunk>)
    requires
        forall|a: int, b: int|
            0 <= a < b < cs.len() ==> (#[trigger] cs[a]).start + cs[a].slots.len() <= (
            #[trigger] cs[b]).start,
    ensures
        forall|j: int, k: int|
            0 <= j < k < windows::starts(cs).len() ==> windows::position(
                #[trigger] windows::starts(cs)[j],
            ) < windows::position(#[trigger] windows::starts(cs)[k]),
        cs.len() > 0 ==> forall|j: int|
            0 <= j < windows::starts(cs).len() ==> windows::position(
                #[trigger] windows::starts(cs)[j],
            ) < cs.last().start + cs.last().slots.len(),
    decreases cs.len(),
{
    if cs.len() > 0 {
        let front = cs.drop_last();
        let last = cs.last();
        assert forall|a: int, b: int| 0 <= a < b < front.len() implies (#[trigger] front[a]).start
            + front[a].slots.len() <= (#[trigger] front[b]).start by {
            assert(cs[a].start + cs[a].slots.len() <= cs[b].start);
        }
        lemma_places_in_order(front);
        let before = windows::starts(front);
        let tail = windows::chunk_starts(last, last.slots.len());
        let all = windows::starts(cs);
        assert forall|j: int| 0 <= j < before.len() implies windows::position(#[trigger] before[j])
            < last.start by {
            assert(front.len() > 0);
            assert(cs[front.len() - 1].start + cs[front.len() - 1].slots.len() <= cs[cs.len()
                - 1].start);
            assert(front.last() == cs[front.len() - 1]);
        }
        assert forall|j: int| 0 <= j < all.len() implies windows::position(#[trigger] all[j])
            < last.start + last.slots.len() && all[j] == (if j < before.len() {
            before[j]
        } else {
            tail[j - before.len()]
        }) by {}
        assert forall|j: int, k: int| 0 <= j < k < all.len() implies windows::position(#[trigger] all[j])
            < windows::position(#[trigger] all[k]) by {
            if k < before.len() {
                assert(windows::position(before[j]) < windows::position(before[k]));
            } else if j < before.len() {
                assert(windows::position(before[j]) < last.start);
            }
        }
    }
}

/// The places of the stretches of a text come in order.
pub(crate) proof fn lemma_chunks_in_order(answers: Answers, ends_in_prefix: bool)
    ensures
        forall|j: int, k: int|
            0 <= j < k < windows::starts(windows::chunks(answers, ends_in_prefix)).len()
                ==> windows::position(
                #[trigger] windows::starts(windows::chunks(answers, ends_in_prefix))[j],
            ) < windows::position(
                #[trigger] windows::starts(windows::chunks(answers, ends_in_prefix))[k],
            ),
{
    let cs = windows::chunks(answers, ends_in_prefix);
    let runs = windows::runs(answers);
    windows::runs_are_the_maximal_stretches(answers);
    assert forall|a: int, b: int| 0 <= a < b < cs.len() implies (#[trigger] cs[a]).start
        + cs[a].slots.len() <= (#[trigger] cs[b]).start by {
        assert(windows::is_maximal_run(answers, runs[a]));
        assert(runs[a].1 < runs[b].0);
        assert(cs[a] == windows::chunk_of(answers, ends_in_prefix, runs[a]));
        assert(cs[b] == windows::chunk_of(answers, ends_in_prefix, runs[b]));
    }
    lemma_places_in_order(cs);
}

/// There is no place at a missing word.
proof fn lemma_no_place(answers: Answers, ends_in_prefix: bool, start: int)
    requires
        0 <= start < answers.len(),
        answers[start] is None,
    ensures
        forall|j: int|
            0 <= j < windows::starts(windows::chunks(answers, ends_in_prefix)).len()
                ==> windows::position(
                #[trigger] windows::starts(windows::chunks(answers, ends_in_prefix))[j],
            ) != start,
{
    let cs = windows::chunks(answers, ends_in_prefix);
    let places = windows::starts(cs);
    let runs = windows::runs(answers);
    windows::runs_are_the_maximal_stretches(answers);
    window_laws::lemma_starts(cs);
    assert forall|j: int| 0 <= j < places.len() implies windows::position(#[trigger] places[j]) != start by {
        assert(window_laws::is_place(cs, places[j]));
        let (c, at) = choose|c: int, at: int|
            0 <= c < cs.len() && 0 <= at < cs[c].slots.len() && places[j] == #[trigger] window_laws::place(
                cs,
                c,
                at,
            );
        assert(windows::is_maximal_run(answers, runs[c]));
        assert(cs[c] == windows::chunk_of(answers, ends_in_prefix, runs[c]));
        assert(answers[runs[c].0 + at] is Some);
    }
}

/// There is a place at each word that was found, from which a stretch goes on to a missing word or
/// the end of the text.
proof fn lemma_some_place(answers: Answers, ends_in_prefix: bool, start: int) -> (j: int)
    requires
        0 <= start < answers.len(),
        answers[start] is Some,
    ensures
        ({
            let cs = windows::chunks(answers, ends_in_prefix);
            let places = windows::starts(cs);
            let rest = places[j].0.slots.skip(places[j].1);
            &&& 0 <= j < places.len()
            &&& window_laws::is_place(cs, places[j])
            &&& windows::position(places[j]) == start
            &&& rest.len() > 0
            &&& start + rest.len() <= answers.len()
            &&& start + rest.len() < answers.len() ==> answers[start + rest.len()] is None
            &&& forall|i: int| 0 <= i < rest.len() ==> answers[start + i] == Some(#[trigger] rest[i])
            &&& places[j].0.ends_in_prefix == (ends_in_prefix && start + rest.len()
                == answers.len())
        }),
{
    let cs = windows::chunks(answers, ends_in_prefix);
    let places = windows::starts(cs);
    let runs = windows::runs(answers);
    windows::runs_are_the_maximal_stretches(answers);
    window_laws::lemma_starts(cs);
    let k = choose|k: int| 0 <= k < runs.len() && (#[trigger] runs[k]).0 <= start < runs[k].1;
    let run = runs[k];
    assert(windows::is_maximal_run(answers, run));
    let chunk = cs[k];
    assert(chunk == windows::chunk_of(answers, ends_in_prefix, run));
    let at = start - run.0;
    assert(places.contains(window_laws::place(cs, k, at)));
    let j = choose|j: int| 0 <= j < places.len() && places[j] == window_laws::place(cs, k, at);
    let rest = chunk.slots.skip(at);
    assert(window_laws::is_place(cs, places[j]));
    assert forall|i: int| 0 <= i < rest.len() implies answers[start + i] == Some(#[trigger] rest[i]) by {
        assert(answers[start + i] is Some);
        assert(rest[i] == chunk.slots[at + i]);
    }
    j
}

/// The slots of a part of a text are those of the stretch, or one of them is empty.
proof fn lemma_part_slots(
    answers: Answers,
    start: int,
    len: nat,
    rest: Seq<Seq<QueryWord>>,
    mine: Seq<Seq<QueryWord>>,
)
    requires
        0 <= start,
        start + len <= answers.len(),
        start + rest.len() <= answers.len(),
        start + rest.len() < answers.len() ==> answers[start + rest.len()] is None,
        forall|i: int| 0 <= i < rest.len() ==> answers[start + i] == Some(#[trigger] rest[i]),
        mine == Seq::new(len, |j: int| multi::variants_of(answers[start + j])),
    ensures
        len <= rest.len() ==> mine == rest.take(len as int) && mine.take(len as int) == mine,
        len > rest.len() ==> mine[rest.len() as int].len() == 0,
{
    if len <= rest.len() {
        assert forall|i: int| 0 <= i < len implies #[trigger] mine[i] == rest.take(len as int)[i] by {
            assert(answers[start + i] == Some(rest[i]));
        }
        assert(mine =~= rest.take(len as int));
        assert(mine.take(len as int) =~= mine);
    }
}

impl<G, R, L, C, P, M, N, W, E> FuzzyPhraseSet<G, R, L, C, P, M, N, W> where
    G: Fn(&str) -> Option<u64>,
    R: Fn(&str) -> Option<(u64, u64)>,
    L: Fn(&str, u8, &Vec<String>) -> Result<Vec<FuzzyMapLookupResult>, E>,
    C: Fn(&Vec<QueryWord>) -> Result<bool, E>,
    P: Fn(&Vec<QueryWord>) -> Result<bool, E>,
    M: Fn(&Vec<Vec<QueryWord>>, u8) -> Result<Vec<Vec<QueryWord>>, E>,
    N: Fn(&Vec<Vec<QueryWord>>, u8) -> Result<Vec<Vec<QueryWord>>, E>,
    W: Fn(&[Vec<QueryWord>], u8, bool) -> Result<Vec<(Vec<QueryWord>, bool)>, E>,
 {
    /// What is found in a part of a text is what a search for it looks for, each combination once.
    #[verifier::rlimit(60)]
    #[verifier::spinoff_prover]
    proof fn lemma_part_found(
        &self,
        inserted: Seq<Seq<Seq<char>>>,
        phrases: Seq<Seq<u32>>,
        typed: Seq<Seq<char>>,
        start: int,
        len: nat,
        max_word_dist: u8,
        max_phrase_dist: u8,
        ends_in_prefix: bool,
        results: Seq<WindowMatch>,
    ) -> (r: (Seq<Seq<QueryWord>>, Seq<Seq<QueryWord>>))
        requires
            self.holds(inserted, phrases),
            self.fuzzy_map.finds_once(),
            0 <= start,
            len > 0,
            start + len <= typed.len(),
            self.may_fuzzy_match_windows(
                typed,
                max_word_dist,
                max_phrase_dist,
                ends_in_prefix,
                Ok(results),
            ),
        ensures
            ({
                let (mine, own) = r;
                let part = typed.subrange(start, start + len);
                let marked = ends_in_prefix && start + len == typed.len();
                &&& self.may_settle(part, laws::one_at_most(max_word_dist), marked, mine)
                &&& own.no_duplicates()
                &&& forall|q: Seq<QueryWord>| #[trigger]
                    own.contains(q) <==> is_sought(phrases, mine, max_phrase_dist, marked, q)
                &&& results_at(results, start, len, marked) == search::matches_of(
                    self.words(),
                    part,
                    own,
                )
            }),
            !(ends_in_prefix && start + len == typed.len()) ==> results_at(results, start, len, true)
                == Seq::<Match>::empty(),
    {
        self.lemma_sound(inserted, phrases);
        let d = laws::one_at_most(max_word_dist);
        let words = self.words();
        let part = typed.subrange(start, start + len);
        let marked = ends_in_prefix && start + len == typed.len();
        let answers = choose|answers: Answers| #[trigger]
            self.may_answer_all(typed, d, ends_in_prefix, Ok(answers)) && self.may_search(
                typed,
                max_phrase_dist,
                windows::starts(windows::chunks(answers, ends_in_prefix)),
                Ok(results),
            );
        let cs = windows::chunks(answers, ends_in_prefix);
        let places = windows::starts(cs);
        let found = choose|found: Seq<Seq<(Seq<QueryWord>, bool)>>| #[trigger]
            self.may_find_first(typed, max_phrase_dist, places, found) && found.len()
                == places.len() && results == windows::all_windows(words, typed, places, found);
        lemma_chunks_in_order(answers, ends_in_prefix);
        lemma_results_of_places(words, typed, places, found, start, len, marked);
        lemma_results_of_places(words, typed, places, found, start, len, true);
        let mine = Seq::new(len, |j: int| multi::variants_of(answers[start + j]));
        assert forall|j: int| 0 <= j < mine.len() implies self.may_settle_at(
            part,
            d,
            marked,
            j,
            #[trigger] mine[j],
        ) by {
            assert(self.may_answer_at(typed, d, ends_in_prefix, start + j, Ok(answers[start + j])));
            assert(part[j] == typed[start + j]);
            assert(self.may_answer_at(part, d, marked, j, Ok(answers[start + j])));
        }
        assert(self.may_settle(part, d, marked, mine));
        if answers[start] is None {
            lemma_no_place(answers, ends_in_prefix, start);
            let none = Seq::<Seq<QueryWord>>::empty();
            assert forall|q: Seq<QueryWord>| #[trigger] none.contains(q) <==> is_sought(
                phrases,
                mine,
                max_phrase_dist,
                marked,
                q,
            ) by {
                if is_sought(phrases, mine, max_phrase_dist, marked, q) {
                    assert(mine.take(q.len() as int)[0].contains(q[0]));
                }
            }
            assert(search::matches_of(words, part, none) =~= Seq::<Match>::empty());
            (mine, none)
        } else {
            let j = lemma_some_place(answers, ends_in_prefix, start);
            let (chunk, at) = places[j];
            let rest = chunk.slots.skip(at);
            let here = found[j];
            assert(self.may_find_at(max_phrase_dist, places[j], Ok(here)));
            self.lemma_place_askable(typed, d, ends_in_prefix, answers, places[j]);
            self.lemma_rest_distinct(typed, d, ends_in_prefix, answers, start, rest);
            assert(here.no_duplicates());
            steady_laws::lemma_own_once(len, marked, here);
            let own = multi::own(len, marked, here);
            assert forall|q: Seq<QueryWord>| #[trigger] own.contains(q) <==> is_sought(
                phrases,
                mine,
                max_phrase_dist,
                marked,
                q,
            ) by {
                steady_laws::lemma_own(len, marked, here, q);
                assert(laws::window_rule(
                    phrases,
                    rest,
                    max_phrase_dist,
                    chunk.ends_in_prefix,
                    here,
                    q,
                ));
                lemma_part_slots(answers, start, len, rest, mine);
                if len > rest.len() {
                    let gap = rest.len() as int;
                    if is_sought(phrases, mine, max_phrase_dist, marked, q) {
                        assert(mine.take(q.len() as int)[gap].contains(q[gap]));
                    }
                }
            }
            if !marked {
                let none = multi::own(len, true, here);
                assert forall|q: Seq<QueryWord>| !#[trigger] none.contains(q) by {
                    steady_laws::lemma_own(len, true, here, q);
                    assert(laws::window_rule(
                        phrases,
                        rest,
                        max_phrase_dist,
                        chunk.ends_in_prefix,
                        here,
                        q,
                    ));
                }
                if none.len() > 0 {
                    assert(none.contains(none[0]));
                }
                assert(search::matches_of(words, part, none) =~= Seq::<Match>::empty());
            }
            (mine, own)
        }
    }

    /// A search for phrases anywhere in a text finds, in each part of the text, what a fuzzy search
    /// for that part alone finds, up to the order. In a part at the end of a text that ends in a
    /// prefix it finds, marked, what a search for the beginning of a phrase finds. Elsewhere nothing
    /// is marked.
    pub proof fn windows_are_found_as_each_part_alone(
        &self,
        inserted: Seq<Seq<Seq<char>>>,
        phrases: Seq<Seq<u32>>,
        typed: Seq<Seq<char>>,
        start: int,
        len: nat,
        max_word_dist: u8,
        max_phrase_dist: u8,
        ends_in_prefix: bool,
        results: Seq<WindowMatch>,
        matches: Seq<Match>,
    )
        requires
            self.is_reliable(inserted, phrases),
            0 <= start,
            len > 0,
            start + len <= typed.len(),
            self.may_fuzzy_match_windows(
                typed,
                max_word_dist,
                max_phrase_dist,
                ends_in_prefix,
                Ok(results),
            ),
            if ends_in_prefix && start + len == typed.len() {
                self.may_fuzzy_match_prefix(
                    typed.subrange(start, start + len),
                    max_word_dist,
                    max_phrase_dist,
                    Ok(matches),
                )
            } else {
                self.may_fuzzy_match(
                    typed.subrange(start, start + len),
                    max_word_dist,
                    max_phrase_dist,
                    Ok(matches),
                )
            },
        ensures
            results_at(
                results,
                start,
                len,
                ends_in_prefix && start + len == typed.len(),
            ).to_multiset() == matches.to_multiset(),
            !(ends_in_prefix && start + len == typed.len()) ==> results_at(results, start, len, true)
                == Seq::<Match>::empty(),
    {
        let words = self.words();
        let part = typed.subrange(start, start + len);
        let marked = ends_in_prefix && start + len == typed.len();
        let (mine, own) = self.lemma_part_found(
            inserted,
            phrases,
            typed,
            start,
            len,
            max_word_dist,
            max_phrase_dist,
            ends_in_prefix,
            results,
        );
        let alone = self.lemma_found_alone(
            inserted,
            phrases,
            part,
            marked,
            max_word_dist,
            max_phrase_dist,
            mine,
            matches,
        );
        let shown = if marked {
            part
        } else {
            Seq::empty()
        };
        assert forall|q: Seq<QueryWord>| #[trigger] own.contains(q) implies search::match_of(
            words,
            part,
            q,
        ) == search::match_of(words, shown, q) by {
            self.lemma_shown(phrases, mine, max_phrase_dist, marked, part, q);
        }
        steady_laws::lemma_same_matches(words, part, own, shown, alone);
    }

    /// A search for phrases anywhere in a text finds, in each part of the text, just what is near to
    /// that part: phrases that were inserted or, at the end of a text that ends in a prefix,
    /// beginnings of such, which are marked.
    pub proof fn windows_find_what_is_near(
        &self,
        inserted: Seq<Seq<Seq<char>>>,
        phrases: Seq<Seq<u32>>,
        dist: Distance,
        typed: Seq<Seq<char>>,
        start: int,
        len: nat,
        max_word_dist: u8,
        max_phrase_dist: u8,
        ends_in_prefix: bool,
        results: Seq<WindowMatch>,
    )
        requires
            self.holds_by(inserted, phrases, dist),
            0 <= start,
            len > 0,
            start + len <= typed.len(),
            self.may_fuzzy_match_windows(
                typed,
                max_word_dist,
                max_phrase_dist,
                ends_in_prefix,
                Ok(results),
            ),
        ensures
            self.is_what_is_near(
                inserted,
                dist,
                typed.subrange(start, start + len),
                ends_in_prefix && start + len == typed.len(),
                max_word_dist,
                max_phrase_dist,
                results_at(results, start, len, ends_in_prefix && start + len == typed.len()),
            ),
            !(ends_in_prefix && start + len == typed.len()) ==> results_at(results, start, len, true)
                == Seq::<Match>::empty(),
    {
        let d = laws::one_at_most(max_word_dist);
        let words = self.words();
        let part = typed.subrange(start, start + len);
        let marked = ends_in_prefix && start + len == typed.len();
        let (mine, own) = self.lemma_part_found(
            inserted,
            phrases,
            typed,
            start,
            len,
            max_word_dist,
            max_phrase_dist,
            ends_in_prefix,
            results,
        );
        let shown = if marked {
            part
        } else {
            Seq::empty()
        };
        let matches = results_at(results, start, len, marked);
        assert forall|c: Seq<QueryWord>| #[trigger] own.contains(c) <==> self.is_wanted(
            phrases,
            dist,
            d,
            part,
            marked,
            max_phrase_dist,
            c,
        ) by {
            self.lemma_settled_wanted(
                inserted,
                phrases,
                dist,
                d,
                part,
                marked,
                max_phrase_dist,
                mine,
                c,
            );
        }
        assert forall|k: int| 0 <= k < own.len() implies #[trigger] matches[k] == search::matches_of(
            words,
            shown,
            own,
        )[k] by {
            assert(own.contains(own[k]));
            self.lemma_shown(phrases, mine, max_phrase_dist, marked, part, own[k]);
        }
        assert(matches =~= search::matches_of(words, shown, own));
        self.lemma_is_what_is_near(
            inserted,
            phrases,
            dist,
            part,
            marked,
            max_word_dist,
            max_phrase_dist,
            own,
            matches,
        );
    }

    /// No word stands twice in a slot of a stretch.
    proof fn lemma_rest_distinct(
        &self,
        typed: Seq<Seq<char>>,
        d: u8,
        ends_in_prefix: bool,
        answers: Answers,
        start: int,
        rest: Seq<Seq<QueryWord>>,
    )
        requires
            self.fuzzy_map.finds_once(),
            self.may_answer_all(typed, d, ends_in_prefix, Ok(answers)),
            0 <= start,
            start + rest.len() <= answers.len(),
            forall|i: int|
                0 <= i < rest.len() ==> answers[start + i] == Some(#[trigger] rest[i]),
        ensures
            laws::are_distinct(rest),
    {
        assert forall|i: int| 0 <= i < rest.len() implies (#[trigger] rest[i]).no_duplicates() by {
            assert(answers[start + i] == Some(rest[i]));
            assert(self.may_answer_at(typed, d, ends_in_prefix, start + i, Ok(answers[start + i])));
            self.lemma_answer_once(typed, d, ends_in_prefix, start + i, answers[start + i]);
        }
    }
}

} // verus!
