//! Searching for phrases that start and end anywhere in a text.
use vstd::prelude::*;
use crate::index;
use crate::order;
use crate::query;
use crate::query::{FuzzyMapLookupResult, QueryWord};
use crate::search;
use crate::search::{FuzzyPhraseSet, SearchError};
use crate::text;
use crate::text::Word;

verus! {

/// A phrase that was found somewhere in a text.
#[derive(Debug, Eq, PartialEq, Clone)]
pub struct FuzzyWindowResult {
    pub phrase: Vec<String>,
    pub edit_distance: u8,
    pub start_position: usize,
    pub ends_in_prefix: bool,
}

/// A phrase that was found somewhere in a text, as a mathematical value.
pub struct WindowMatch {
    pub phrase: Seq<Seq<char>>,
    pub edit_distance: nat,
    pub start_position: int,
    pub ends_in_prefix: bool,
}

impl View for FuzzyWindowResult {
    type V = WindowMatch;

    open spec fn view(&self) -> WindowMatch {
        WindowMatch {
            phrase: text::texts(self.phrase@),
            edit_distance: self.edit_distance as nat,
            start_position: self.start_position as int,
            ends_in_prefix: self.ends_in_prefix,
        }
    }
}

/// The windows of a list of results.
pub open spec fn seen_windows(results: Seq<FuzzyWindowResult>) -> Seq<WindowMatch> {
    results.map_values(|r: FuzzyWindowResult| r@)
}

/// The outcome of a window search as a mathematical value.
pub open spec fn seen<E>(outcome: Result<Vec<FuzzyWindowResult>, SearchError<E>>) -> Result<
    Seq<WindowMatch>,
    SearchError<E>,
> {
    match outcome {
        Ok(v) => Ok(seen_windows(v@)),
        Err(e) => Err(e),
    }
}

/// A stretch of adjoining words for which there are possibilities: phrases lie within one such
/// stretch, since nothing can be found where a word is missing.
pub struct Subquery {
    pub start_position: usize,
    pub ends_in_prefix: bool,
    pub word_possibilities: Vec<Vec<QueryWord>>,
}

/// A stretch of adjoining words as a mathematical value.
pub struct Chunk {
    pub start: int,
    pub ends_in_prefix: bool,
    pub slots: Seq<Seq<QueryWord>>,
}

impl View for Subquery {
    type V = Chunk;

    open spec fn view(&self) -> Chunk {
        Chunk {
            start: self.start_position as int,
            ends_in_prefix: self.ends_in_prefix,
            slots: query::slots_of(self.word_possibilities@),
        }
    }
}

/// What is known of each word of a text.
pub type Answers = Seq<Option<Seq<QueryWord>>>;

/// The answers of a list of lookups, as sequences.
pub open spec fn answers_of(answers: Seq<Option<Vec<QueryWord>>>) -> Answers {
    answers.map_values(
        |a: Option<Vec<QueryWord>>|
            match a {
                Some(v) => Some(v@),
                None => None,
            },
    )
}

/// The number of words at the end for which there are possibilities.
pub open spec fn open_len(answers: Answers) -> nat
    decreases answers.len(),
{
    if answers.len() == 0 || answers.last() is None {
        0
    } else {
        open_len(answers.drop_last()) + 1
    }
}

/// The stretches that a missing word has put an end to, each with the position of its first word
/// and the position after its last.
pub open spec fn closed_runs(answers: Answers) -> Seq<(int, int)>
    decreases answers.len(),
{
    if answers.len() == 0 {
        Seq::empty()
    } else {
        let before = closed_runs(answers.drop_last());
        let open = open_len(answers.drop_last());
        if answers.last() is None && open > 0 {
            before.push((answers.len() - 1 - open, answers.len() - 1))
        } else {
            before
        }
    }
}

/// All the stretches of a text. Its end puts an end to the last one.
pub open spec fn runs(answers: Answers) -> Seq<(int, int)> {
    closed_runs(answers.push(None))
}

/// The possibilities of a stretch.
pub open spec fn run_slots(answers: Answers, run: (int, int)) -> Seq<Seq<QueryWord>> {
    Seq::new((run.1 - run.0) as nat, |i: int| answers[run.0 + i]->Some_0)
}

/// A stretch with its possibilities. It can end in a prefix only at the end of the text.
pub open spec fn chunk_of(answers: Answers, ends_in_prefix: bool, run: (int, int)) -> Chunk {
    Chunk {
        start: run.0,
        ends_in_prefix: ends_in_prefix && run.1 == answers.len(),
        slots: run_slots(answers, run),
    }
}

/// Some stretches of a text with their possibilities.
pub open spec fn run_chunks(
    answers: Answers,
    ends_in_prefix: bool,
    runs: Seq<(int, int)>,
) -> Seq<Chunk> {
    runs.map_values(|run: (int, int)| chunk_of(answers, ends_in_prefix, run))
}

/// The stretches of a text with their possibilities.
pub open spec fn chunks(answers: Answers, ends_in_prefix: bool) -> Seq<Chunk> {
    run_chunks(answers, ends_in_prefix, runs(answers))
}

/// The chunks of a list of subqueries.
pub open spec fn chunks_of(subqueries: Seq<Subquery>) -> Seq<Chunk> {
    subqueries.map_values(|s: Subquery| s@)
}

proof fn lemma_open_len(answers: Answers)
    ensures
        open_len(answers) <= answers.len(),
    decreases answers.len(),
{
    if answers.len() > 0 {
        lemma_open_len(answers.drop_last());
    }
}

/// A stretch of a text is not empty, holds words for which there are possibilities, and ends, on
/// both sides, at the end of the text or at a missing word.
pub open spec fn is_maximal_run(answers: Answers, run: (int, int)) -> bool {
    &&& 0 <= run.0 < run.1 <= answers.len()
    &&& forall|i: int| run.0 <= i < run.1 ==> (#[trigger] answers[i]) is Some
    &&& run.0 == 0 || answers[run.0 - 1] is None
    &&& run.1 == answers.len() || answers[run.1] is None
}

proof fn lemma_open_words(answers: Answers)
    ensures
        open_len(answers) <= answers.len(),
        forall|i: int|
            answers.len() - open_len(answers) <= i < answers.len() ==> (#[trigger] answers[i]) is Some,
        open_len(answers) < answers.len() ==> answers[answers.len() - open_len(answers) - 1] is None,
    decreases answers.len(),
{
    if answers.len() > 0 {
        lemma_open_words(answers.drop_last());
        if answers.last() is Some {
            let n = answers.len() - open_len(answers);
            assert forall|i: int| n <= i < answers.len() implies (#[trigger] answers[i]) is Some by {
                if i < answers.len() - 1 {
                    assert(answers.drop_last()[i] == answers[i]);
                }
            }
            if open_len(answers) < answers.len() {
                assert(answers.drop_last()[n - 1] == answers[n - 1]);
            }
        }
    }
}

proof fn lemma_closed_runs(answers: Answers)
    ensures
        forall|k: int|
            0 <= k < closed_runs(answers).len() ==> {
                let run = #[trigger] closed_runs(answers)[k];
                &&& is_maximal_run(answers, run)
                &&& run.1 < answers.len()
                &&& answers[run.1] is None
            },
        forall|k: int, m: int|
            0 <= k < m < closed_runs(answers).len() ==> (#[trigger] closed_runs(answers)[k]).1 < (
            #[trigger] closed_runs(answers)[m]).0,
        forall|i: int|
            0 <= i < answers.len() - open_len(answers) && (#[trigger] answers[i]) is Some ==> exists|k: int|
                0 <= k < closed_runs(answers).len() && (#[trigger] closed_runs(answers)[k]).0 <= i
                    < closed_runs(answers)[k].1,
    decreases answers.len(),
{
    if answers.len() > 0 {
        let front = answers.drop_last();
        lemma_closed_runs(front);
        lemma_open_words(front);
        lemma_open_words(answers);
        let before = closed_runs(front);
        let now = closed_runs(answers);
        assert forall|k: int| 0 <= k < now.len() implies ({
            let run = #[trigger] now[k];
            &&& is_maximal_run(answers, run)
            &&& run.1 < answers.len()
            &&& answers[run.1] is None
        }) by {
            let run = now[k];
            if k < before.len() {
                assert(run == before[k]);
                assert(is_maximal_run(front, run));
                assert forall|i: int| run.0 <= i < run.1 implies (#[trigger] answers[i]) is Some by {
                    assert(front[i] == answers[i]);
                }
                assert(front[run.1] == answers[run.1]);
                if run.0 > 0 {
                    assert(front[run.0 - 1] == answers[run.0 - 1]);
                }
            } else {
                assert forall|i: int| run.0 <= i < run.1 implies (#[trigger] answers[i]) is Some by {
                    assert(front[i] == answers[i]);
                }
                if run.0 > 0 {
                    assert(front[run.0 - 1] == answers[run.0 - 1]);
                }
            }
        }
        assert forall|k: int, m: int| 0 <= k < m < now.len() implies (#[trigger] now[k]).1 < (
        #[trigger] now[m]).0 by {
            assert(now[k] == before[k]);
            if m < before.len() {
                assert(now[m] == before[m]);
            } else {
                // the run that ends here starts after the missing word that ended an earlier one
                assert(front[before[k].1] is None);
                if before[k].1 >= now[m].0 {
                    assert(front[before[k].1] is Some);
                }
            }
        }
        assert forall|i: int|
            0 <= i < answers.len() - open_len(answers) && (#[trigger] answers[i]) is Some implies exists|
            k: int,
        |
            0 <= k < now.len() && (#[trigger] now[k]).0 <= i < now[k].1 by {
            assert(i < front.len());
            assert(front[i] == answers[i]);
            if i < front.len() - open_len(front) {
                let k = choose|k: int|
                    0 <= k < before.len() && (#[trigger] before[k]).0 <= i < before[k].1;
                assert(now[k] == before[k]);
            } else {
                assert(answers.last() is None);
                assert(now[before.len() as int].0 <= i < now[before.len() as int].1);
            }
        }
    }
}

/// The stretches of a text are maximal, come in order, and together hold every word for which
/// there are possibilities. So no phrase that is found within one reaches over a missing word.
pub proof fn runs_are_the_maximal_stretches(answers: Answers)
    ensures
        forall|k: int| 0 <= k < runs(answers).len() ==> is_maximal_run(answers, #[trigger] runs(answers)[k]),
        forall|k: int, m: int|
            0 <= k < m < runs(answers).len() ==> (#[trigger] runs(answers)[k]).1 < (
            #[trigger] runs(answers)[m]).0,
        forall|i: int|
            0 <= i < answers.len() && (#[trigger] answers[i]) is Some ==> exists|k: int|
                0 <= k < runs(answers).len() && (#[trigger] runs(answers)[k]).0 <= i < runs(
                    answers,
                )[k].1,
{
    let all = answers.push(None);
    lemma_closed_runs(all);
    assert(open_len(all) == 0);
    assert forall|k: int| 0 <= k < runs(answers).len() implies is_maximal_run(
        answers,
        #[trigger] runs(answers)[k],
    ) by {
        let run = closed_runs(all)[k];
        assert(is_maximal_run(all, run));
        assert forall|i: int| run.0 <= i < run.1 implies (#[trigger] answers[i]) is Some by {
            assert(all[i] is Some);
        }
        if run.0 > 0 {
            assert(all[run.0 - 1] == answers[run.0 - 1]);
        }
        if run.1 < answers.len() {
            assert(all[run.1] == answers[run.1]);
        }
    }
    assert forall|i: int| 0 <= i < answers.len() && (#[trigger] answers[i]) is Some implies exists|k: int|
        0 <= k < runs(answers).len() && (#[trigger] runs(answers)[k]).0 <= i < runs(answers)[k].1 by {
        assert(all[i] == answers[i]);
        let k = choose|k: int|
            0 <= k < closed_runs(all).len() && (#[trigger] closed_runs(all)[k]).0 <= i < closed_runs(
                all,
            )[k].1;
        assert(runs(answers)[k].0 <= i);
    }
}

/// Finds the stretches of a text.
pub fn split_chunks(answers: Vec<Option<Vec<QueryWord>>>, ends_in_prefix: bool) -> (r: Vec<Subquery>)
    ensures
        chunks_of(r@) == chunks(answers_of(answers@), ends_in_prefix),
{
    let ghost all = answers_of(answers@);
    let ghost ended = all.push(None);
    let n: usize = answers.len();
    let mut subqueries: Vec<Subquery> = Vec::new();
    let mut start: usize = 0;
    let mut open: Vec<Vec<QueryWord>> = Vec::new();
    let mut rest = order::reversed(answers);
    let ghost back = rest@;
    let mut i: usize = 0;
    proof {
        assert(ended.take(0) == Seq::<Option<Seq<QueryWord>>>::empty());
        assert(closed_runs(ended.take(0)) =~= Seq::<(int, int)>::empty());
        assert(chunks_of(subqueries@) =~= run_chunks(all, ends_in_prefix, closed_runs(ended.take(0))));
    }
    loop
        invariant_except_break
            i <= n,
            rest@.len() == n - i,
            open@.len() > 0 ==> start == i - open@.len(),
            chunks_of(subqueries@) == run_chunks(all, ends_in_prefix, closed_runs(ended.take(i as int))),
            open@.len() == open_len(ended.take(i as int)),
            open_len(ended.take(i as int)) <= i,
            forall|k: int| 0 <= k < open@.len() ==> ended[i - open@.len() + k] == Some(#[trigger] open@[k]@),
        invariant
            n == all.len(),
            ended == all.push(None),
            all == answers_of(back.reverse()),
            back.len() == n,
            rest@ == back.take(rest@.len() as int),
        ensures
            chunks_of(subqueries@) == run_chunks(all, ends_in_prefix, closed_runs(ended.take(n + 1))),
        decreases n - i,
    {
        let ghost old_open = open@;
        let ghost old_subqueries = subqueries@;
        let answer: Option<Vec<QueryWord>> = match rest.pop() {
            Some(a) => a,
            None => None,
        };
        proof {
            assert(ended.take(i + 1).drop_last() == ended.take(i as int));
            assert(ended.take(i + 1).last() == ended[i as int]);
            if i < n {
                assert(answer == back[n - 1 - i]);
                assert(back.reverse()[i as int] == answer);
                assert(rest@ == back.take(rest@.len() as int));
            }
            lemma_open_len(ended.take(i as int));
        }
        match answer {
            Some(p) => {
                let ghost added = p@;
                open.push(p);
                if open.len() == 1 {
                    start = i;
                }
                proof {
                    assert(i < n);
                    assert(ended[i as int] == Some(added));
                    assert forall|k: int| 0 <= k < open@.len() implies ended[i + 1 - open@.len() + k] == Some(
                        #[trigger] open@[k]@,
                    ) by {
                        if k < old_open.len() {
                            assert(open@[k] == old_open[k]);
                        }
                    }
                }
            },
            None => {
                assert(ended[i as int] is None);
                if open.len() > 0 {
                    let ends = i == n && ends_in_prefix;
                    let subquery = Subquery {
                        start_position: start,
                        ends_in_prefix: ends,
                        word_possibilities: open,
                    };
                    proof {
                        let run = (i - old_open.len(), i as int);
                        let chunk = chunk_of(all, ends_in_prefix, run);
                        assert forall|k: int| 0 <= k < old_open.len() implies #[trigger] query::slots_of(
                            old_open,
                        )[k] == chunk.slots[k] by {
                            assert(ended[i - old_open.len() + k] == Some(old_open[k]@));
                            assert(all[i - old_open.len() + k] == ended[i - old_open.len() + k]);
                        }
                        assert(subquery@.slots =~= chunk.slots);
                        assert(subquery@ == chunk);
                        assert(closed_runs(ended.take(i + 1)) == closed_runs(ended.take(i as int)).push(run));
                    }
                    subqueries.push(subquery);
                    assert(chunks_of(subqueries@) =~= chunks_of(old_subqueries).push(
                        chunk_of(all, ends_in_prefix, (i - old_open.len(), i as int)),
                    ));
                    assert(chunks_of(subqueries@) =~= run_chunks(
                        all,
                        ends_in_prefix,
                        closed_runs(ended.take(i + 1)),
                    ));
                    open = Vec::new();
                }
            },
        }
        if i == n {
            break;
        }
        i = i + 1;
    }
    assert(ended.take(n + 1) == ended);
    subqueries
}

/// The places where a phrase may start: any word of any stretch.
pub open spec fn starts(chunks: Seq<Chunk>) -> Seq<(Chunk, int)>
    decreases chunks.len(),
{
    if chunks.len() == 0 {
        Seq::empty()
    } else {
        starts(chunks.drop_last()) + chunk_starts(chunks.last(), chunks.last().slots.len())
    }
}

/// The first `n` places of a stretch.
pub open spec fn chunk_starts(chunk: Chunk, n: nat) -> Seq<(Chunk, int)> {
    Seq::new(n, |i: int| (chunk, i))
}

/// The position in the text of a place in a stretch.
pub open spec fn position(place: (Chunk, int)) -> int {
    place.0.start + place.1
}

/// One window that the phrase graph found from position `from` of the text on, written out. In
/// place of a prefix stands what was typed there.
pub open spec fn window_of(
    words: Seq<Seq<char>>,
    typed: Seq<Seq<char>>,
    from: int,
    found: (Seq<QueryWord>, bool),
) -> WindowMatch {
    WindowMatch {
        phrase: query::written_out(words, typed, from, found.0),
        edit_distance: query::total_distance(found.0),
        start_position: from,
        ends_in_prefix: found.1,
    }
}

/// All the windows can be written out.
pub open spec fn windows_fit(
    words: int,
    typed: int,
    from: int,
    found: Seq<(Seq<QueryWord>, bool)>,
) -> bool {
    forall|i: int| 0 <= i < found.len() ==> query::fits(words, typed, from, (#[trigger] found[i]).0)
}

/// The windows, written out.
pub open spec fn windows_from(
    words: Seq<Seq<char>>,
    typed: Seq<Seq<char>>,
    from: int,
    found: Seq<(Seq<QueryWord>, bool)>,
) -> Seq<WindowMatch> {
    found.map_values(|f: (Seq<QueryWord>, bool)| window_of(words, typed, from, f))
}

/// What a search has found, with the phrase graph's reply for one more place.
pub open spec fn with_windows<E>(
    words: Seq<Seq<char>>,
    typed: Seq<Seq<char>>,
    from: int,
    before: Seq<WindowMatch>,
    reply: Result<Seq<(Seq<QueryWord>, bool)>, E>,
) -> Result<Seq<WindowMatch>, SearchError<E>> {
    match reply {
        Err(e) => Err(SearchError::Index(e)),
        Ok(found) => if windows_fit(words.len() as int, typed.len() as int, from, found) {
            Ok(before + windows_from(words, typed, from, found))
        } else {
            Err(SearchError::Unfit)
        },
    }
}

/// What makes an end to a search at a place: a reply that is an error, or that cannot be written
/// out.
pub open spec fn window_error<E>(
    words: int,
    typed: int,
    place: (Chunk, int),
    reply: Result<Seq<(Seq<QueryWord>, bool)>, E>,
) -> Option<SearchError<E>> {
    match reply {
        Err(e) => Some(SearchError::Index(e)),
        Ok(found) => if windows_fit(words, typed, position(place), found) {
            None
        } else {
            Some(SearchError::Unfit)
        },
    }
}

/// What was found at the first of some places, written out.
pub open spec fn all_windows(
    words: Seq<Seq<char>>,
    typed: Seq<Seq<char>>,
    places: Seq<(Chunk, int)>,
    found: Seq<Seq<(Seq<QueryWord>, bool)>>,
) -> Seq<WindowMatch>
    decreases found.len(),
{
    if found.len() == 0 {
        Seq::empty()
    } else {
        all_windows(words, typed, places, found.drop_last()) + windows_from(
            words,
            typed,
            position(places[found.len() - 1]),
            found.last(),
        )
    }
}

/// Writes out what the phrase graph replied for one place, behind what was found before.
pub fn add_windows<T: Word, E>(
    words: &Vec<String>,
    typed: &[T],
    from: usize,
    before: Vec<FuzzyWindowResult>,
    reply: Result<Vec<(Vec<QueryWord>, bool)>, E>,
) -> (r: Result<Vec<FuzzyWindowResult>, SearchError<E>>)
    ensures
        seen(r) == with_windows(
            text::texts(words@),
            text::texts(typed@),
            from as int,
            seen_windows(before@),
            index::windows_of(reply),
        ),
{
    let found = match reply {
        Err(e) => return Err(SearchError::Index(e)),
        Ok(found) => found,
    };
    let ghost all = index::flagged(found@);
    let ghost w = text::texts(words@);
    let ghost t = text::texts(typed@);
    let ghost first = seen_windows(before@);
    let mut results = before;
    let mut i: usize = 0;
    assert(seen_windows(results@) =~= first + windows_from(w, t, from as int, all.take(0)));
    while i < found.len()
        invariant
            i <= found@.len(),
            all == index::flagged(found@),
            index::windows_of(reply) == Ok::<Seq<(Seq<QueryWord>, bool)>, E>(all),
            w == text::texts(words@),
            t == text::texts(typed@),
            forall|j: int|
                0 <= j < i ==> query::fits(w.len() as int, t.len() as int, from as int, (
                #[trigger] all[j]).0),
            seen_windows(results@) == first + windows_from(
                w,
                t,
                from as int,
                all.take(i as int),
            ),
        decreases found@.len() - i,
    {
        let combination = &found[i].0;
        assert(all[i as int] == (combination@, found@[i as int].1));
        match query::checked_distance(words.len(), typed.len(), from, combination) {
            None => {
                assert(!query::fits(w.len() as int, t.len() as int, from as int, all[i as int].0));
                return Err(SearchError::Unfit);
            },
            Some(edit_distance) => {
                let phrase = query::write_out(words, typed, from, combination);
                let ghost done = results@;
                let result = FuzzyWindowResult {
                    phrase,
                    edit_distance,
                    start_position: from,
                    ends_in_prefix: found[i].1,
                };
                proof {
                    assert(result@ == window_of(w, t, from as int, all[i as int]));
                    assert(all.take(i + 1) == all.take(i as int).push(all[i as int]));
                    assert(windows_from(w, t, from as int, all.take(i + 1))
                        =~= windows_from(w, t, from as int, all.take(i as int)).push(
                        result@,
                    ));
                }
                results.push(result);
                assert(seen_windows(results@) =~= seen_windows(done).push(result@));
            },
        }
        i = i + 1;
    }
    assert(all.take(i as int) == all);
    Ok(results)
}

proof fn lemma_starts_of_prefix(chunks: Seq<Chunk>, c: int, n: nat)
    requires
        0 <= c < chunks.len(),
        n <= chunks[c].slots.len(),
    ensures
        starts(chunks.take(c)).len() + n <= starts(chunks).len(),
        starts(chunks.take(c)) + chunk_starts(chunks[c], n) == starts(chunks).take(
            (starts(chunks.take(c)).len() + n) as int,
        ),
    decreases chunks.len(),
{
    let front = chunks.drop_last();
    if c == chunks.len() - 1 {
        assert(chunks.take(c) == front);
        assert(starts(front) + chunk_starts(chunks[c], n) =~= starts(chunks).take(
            (starts(front).len() + n) as int,
        ));
    } else {
        lemma_starts_of_prefix(front, c, n);
        assert(front.take(c) == chunks.take(c));
        assert(front[c] == chunks[c]);
        let m = (starts(chunks.take(c)).len() + n) as int;
        assert(starts(chunks).take(m) =~= starts(front).take(m));
    }
}

impl<G, R, L, C, P, M, N, W, E> FuzzyPhraseSet<G, R, L, C, P, M, N, W> where
    G: Fn(&str) -> Option<u64>,
    R: Fn(&str) -> Option<(u64, u64)>,
    L: Fn(&str, u8, &Vec<String>) -> Result<Vec<FuzzyMapLookupResult>, E>,
    C: Fn(&Vec<QueryWord>) -> Result<bool, E>,
    P: Fn(&Vec<QueryWord>) -> Result<bool, E>,
    M: Fn(&Vec<Vec<QueryWord>>, u8) -> Result<Vec<Vec<QueryWord>>, E>,
    N: Fn(&Vec<Vec<QueryWord>>, u8) -> Result<Vec<Vec<QueryWord>>, E>,
    W: Fn(&[Vec<QueryWord>], u8, bool) -> Result<Vec<(Vec<QueryWord>, bool)>, E>,
 {
    /// `answers` may be what comes back for the first words of a text.
    pub open spec fn may_answer_first(
        &self,
        words: Seq<Seq<char>>,
        edit_distance: u8,
        ends_in_prefix: bool,
        answers: Answers,
    ) -> bool {
        forall|i: int|
            0 <= i < answers.len() ==> self.may_answer_at(
                words,
                edit_distance,
                ends_in_prefix,
                i,
                Ok(#[trigger] answers[i]),
            )
    }

    /// `answers` may be what comes of looking up every word of a text. A lookup that fails makes
    /// an end to it.
    pub open spec fn may_answer_all(
        &self,
        words: Seq<Seq<char>>,
        edit_distance: u8,
        ends_in_prefix: bool,
        answers: Result<Answers, E>,
    ) -> bool {
        match answers {
            Ok(all) => all.len() == words.len() && self.may_answer_first(
                words,
                edit_distance,
                ends_in_prefix,
                all,
            ),
            Err(e) => exists|before: Answers|
                before.len() < words.len() && #[trigger] self.may_answer_first(
                    words,
                    edit_distance,
                    ends_in_prefix,
                    before,
                ) && self.may_answer_at(
                    words,
                    edit_distance,
                    ends_in_prefix,
                    before.len() as int,
                    Err(e),
                ),
        }
    }

    /// Looks up every word of a text.
    fn answer_all<T: Word>(&self, phrase: &[T], edit_distance: u8, ends_in_prefix: bool) -> (r: Result<
        Vec<Option<Vec<QueryWord>>>,
        E,
    >)
        requires
            self.callable(),
        ensures
            self.may_answer_all(
                text::texts(phrase@),
                edit_distance,
                ends_in_prefix,
                match r {
                    Ok(v) => Ok(answers_of(v@)),
                    Err(e) => Err(e),
                },
            ),
    {
        let ghost words = text::texts(phrase@);
        let mut answers: Vec<Option<Vec<QueryWord>>> = Vec::new();
        let mut i: usize = 0;
        while i < phrase.len()
            invariant
                self.callable(),
                words == text::texts(phrase@),
                i <= phrase@.len(),
                answers@.len() == i,
                self.may_answer_first(
                    words,
                    edit_distance,
                    ends_in_prefix,
                    answers_of(answers@),
                ),
            decreases phrase@.len() - i,
        {
            let ghost before = answers@;
            let reply = if ends_in_prefix && i == phrase.len() - 1 {
                self.get_terminal_word_possibilities(phrase[i].as_text(), edit_distance)
            } else {
                self.get_nonterminal_word_possibilities(phrase[i].as_text(), edit_distance)
            };
            let ghost a = search::answer_of(reply);
            assert(self.may_answer_at(words, edit_distance, ends_in_prefix, i as int, a));
            match reply {
                Ok(answer) => {
                    answers.push(answer);
                    proof {
                        let done = answers_of(answers@);
                        assert forall|j: int| 0 <= j < i + 1 implies self.may_answer_at(
                            words,
                            edit_distance,
                            ends_in_prefix,
                            j,
                            Ok(#[trigger] done[j]),
                        ) by {
                            if j < i {
                                assert(done[j] == answers_of(before)[j]);
                            } else {
                                assert(a == Ok::<Option<Seq<QueryWord>>, E>(done[j]));
                            }
                        }
                    }
                },
                Err(e) => {
                    assert(self.may_answer_first(
                        words,
                        edit_distance,
                        ends_in_prefix,
                        answers_of(before),
                    ));
                    return Err(e);
                },
            }
            i = i + 1;
        }
        Ok(answers)
    }

    /// `reply` may come of asking the phrase graph for the windows at a place.
    pub open spec fn may_find_at(
        &self,
        max_phrase_dist: u8,
        place: (Chunk, int),
        reply: Result<Seq<(Seq<QueryWord>, bool)>, E>,
    ) -> bool {
        self.phrase_set.may_match_windows(
            place.0.slots.skip(place.1),
            max_phrase_dist,
            place.0.ends_in_prefix,
            reply,
        )
    }

    /// `found` may be what the phrase graph finds at the first of some places, and all of it can
    /// be written out.
    pub open spec fn may_find_first(
        &self,
        typed: Seq<Seq<char>>,
        max_phrase_dist: u8,
        places: Seq<(Chunk, int)>,
        found: Seq<Seq<(Seq<QueryWord>, bool)>>,
    ) -> bool {
        &&& found.len() <= places.len()
        &&& forall|j: int|
            0 <= j < found.len() ==> self.may_find_at(
                max_phrase_dist,
                places[j],
                Ok(#[trigger] found[j]),
            ) && windows_fit(
                self.words().len() as int,
                typed.len() as int,
                position(places[j]),
                found[j],
            )
    }

    /// `outcome` may come of asking the phrase graph for the windows at each of some places. A
    /// reply that is an error, or that cannot be written out, makes an end to it.
    pub open spec fn may_search(
        &self,
        typed: Seq<Seq<char>>,
        max_phrase_dist: u8,
        places: Seq<(Chunk, int)>,
        outcome: Result<Seq<WindowMatch>, SearchError<E>>,
    ) -> bool {
        match outcome {
            Ok(results) => exists|found: Seq<Seq<(Seq<QueryWord>, bool)>>| #[trigger]
                self.may_find_first(typed, max_phrase_dist, places, found) && found.len()
                    == places.len() && results == all_windows(self.words(), typed, places, found),
            Err(e) => exists|
                found: Seq<Seq<(Seq<QueryWord>, bool)>>,
                reply: Result<Seq<(Seq<QueryWord>, bool)>, E>,
            | #[trigger]
                self.may_find_first(typed, max_phrase_dist, places, found) && found.len()
                    < places.len() && #[trigger] self.may_find_at(
                    max_phrase_dist,
                    places[found.len() as int],
                    reply,
                ) && window_error(
                    self.words().len() as int,
                    typed.len() as int,
                    places[found.len() as int],
                    reply,
                ) == Some(e),
        }
    }

    /// `outcome` may come of a fuzzy search for phrases anywhere in a text.
    pub open spec fn may_fuzzy_match_windows(
        &self,
        words: Seq<Seq<char>>,
        max_word_dist: u8,
        max_phrase_dist: u8,
        ends_in_prefix: bool,
        outcome: Result<Seq<WindowMatch>, SearchError<E>>,
    ) -> bool {
        let edit_distance = search::word_dist_limit(max_word_dist);
        ||| exists|e: E| #[trigger]
            self.may_answer_all(words, edit_distance, ends_in_prefix, Err(e)) && outcome == Err::<
                Seq<WindowMatch>,
                SearchError<E>,
            >(SearchError::Index(e))
        ||| exists|answers: Answers| #[trigger]
            self.may_answer_all(words, edit_distance, ends_in_prefix, Ok(answers))
                && self.may_search(
                words,
                max_phrase_dist,
                starts(chunks(answers, ends_in_prefix)),
                outcome,
            )
    }

    /// The phrases of the set that some words in a row are an approximate spelling of. With
    /// `ends_in_prefix` the last word of the text need not be complete, and the text may end in
    /// the middle of a phrase.
    pub fn fuzzy_match_windows<T: Word>(
        &self,
        phrase: &[T],
        max_word_dist: u8,
        max_phrase_dist: u8,
        ends_in_prefix: bool,
    ) -> (r: Result<Vec<FuzzyWindowResult>, SearchError<E>>)
        requires
            self.callable(),
        ensures
            self.may_fuzzy_match_windows(
                text::texts(phrase@),
                max_word_dist,
                max_phrase_dist,
                ends_in_prefix,
                seen(r),
            ),
            phrase@.len() == 0 ==> seen(r) == Ok::<Seq<WindowMatch>, SearchError<E>>(Seq::empty()),
    {
        let mut results: Vec<FuzzyWindowResult> = Vec::new();
        assert(seen_windows(results@) =~= Seq::<WindowMatch>::empty());
        let ghost words = text::texts(phrase@);
        let edit_distance: u8 = search::cap_word_dist(max_word_dist);
        if phrase.len() == 0 {
            proof {
                let none: Answers = Seq::empty();
                assert(self.may_answer_all(words, edit_distance, ends_in_prefix, Ok(none)));
                assert(none.push(None).drop_last() =~= none);
                assert(closed_runs(none) =~= Seq::<(int, int)>::empty());
                assert(runs(none) =~= Seq::<(int, int)>::empty());
                assert(chunks(none, ends_in_prefix) =~= Seq::<Chunk>::empty());
                let places = starts(chunks(none, ends_in_prefix));
                assert(places =~= Seq::<(Chunk, int)>::empty());
                assert(self.may_find_first(words, max_phrase_dist, places, Seq::empty()));
            }
            return Ok(results);
        }
        let answers = match self.answer_all(phrase, edit_distance, ends_in_prefix) {
            Ok(answers) => answers,
            Err(e) => {
                return Err(SearchError::Index(e));
            },
        };
        let ghost all = answers_of(answers@);
        let subqueries = split_chunks(answers, ends_in_prefix);
        let ghost cs = chunks(all, ends_in_prefix);
        let ghost places = starts(cs);
        let ghost mut done: Seq<Seq<(Seq<QueryWord>, bool)>> = Seq::empty();
        proof {
            runs_are_the_maximal_stretches(all);
            assert(cs.take(0) =~= Seq::<Chunk>::empty());
            assert(starts(cs.take(0)) =~= Seq::<(Chunk, int)>::empty());
        }
        let mut c: usize = 0;
        while c < subqueries.len()
            invariant
                self.callable(),
                words == text::texts(phrase@),
                words.len() == phrase.len(),
                edit_distance == search::word_dist_limit(max_word_dist),
                self.may_answer_all(words, edit_distance, ends_in_prefix, Ok(all)),
                cs == chunks(all, ends_in_prefix),
                cs == chunks_of(subqueries@),
                forall|k: int| 0 <= k < cs.len() ==> is_maximal_run(all, #[trigger] runs(all)[k]),
                places == starts(cs),
                c <= subqueries@.len(),
                done.len() == starts(cs.take(c as int)).len(),
                self.may_find_first(words, max_phrase_dist, places, done),
                seen_windows(results@) == all_windows(self.words(), words, places, done),
            decreases subqueries@.len() - c,
        {
            let chunk = &subqueries[c];
            let ghost ch = cs[c as int];
            let n: usize = chunk.word_possibilities.len();
            let mut i: usize = 0;
            proof {
                assert(ch == chunk@);
                assert(is_maximal_run(all, runs(all)[c as int]));
                assert(ch.start + ch.slots.len() <= words.len());
            }
            while i < n
                invariant
                    self.callable(),
                    words == text::texts(phrase@),
                    words.len() == phrase.len(),
                    edit_distance == search::word_dist_limit(max_word_dist),
                    self.may_answer_all(words, edit_distance, ends_in_prefix, Ok(all)),
                    cs == chunks(all, ends_in_prefix),
                    c < cs.len(),
                    ch == cs[c as int],
                    ch == chunk@,
                    n == ch.slots.len(),
                    ch.start + ch.slots.len() <= words.len(),
                    i <= n,
                    places == starts(cs),
                    done.len() == starts(cs.take(c as int)).len() + i,
                    self.may_find_first(words, max_phrase_dist, places, done),
                    seen_windows(results@) == all_windows(self.words(), words, places, done),
                decreases n - i,
            {
                let reply = self.phrase_set.match_combinations_as_windows(
                    vstd::slice::slice_subrange(chunk.word_possibilities.as_slice(), i, n),
                    max_phrase_dist,
                    chunk.ends_in_prefix,
                );
                let ghost found = index::windows_of(reply);
                let ghost m = done.len() as int;
                proof {
                    lemma_starts_of_prefix(cs, c as int, (i + 1) as nat);
                    assert((starts(cs.take(c as int)) + chunk_starts(ch, (i + 1) as nat))[m] == (
                        ch,
                        i as int,
                    ));
                    assert(places.take(m + 1)[m] == places[m]);
                    assert(query::slots_of(chunk.word_possibilities@.subrange(i as int, n as int))
                        =~= ch.slots.skip(i as int));
                    assert(self.may_find_at(max_phrase_dist, places[m], found));
                }
                match add_windows(
                    &self.word_list,
                    phrase,
                    chunk.start_position + i,
                    results,
                    reply,
                ) {
                    Ok(more) => {
                        results = more;
                        proof {
                            let old_done = done;
                            let fresh = found->Ok_0;
                            done = done.push(fresh);
                            assert(done.drop_last() =~= old_done);
                            assert forall|j: int| 0 <= j < done.len() implies self.may_find_at(
                                max_phrase_dist,
                                places[j],
                                Ok(#[trigger] done[j]),
                            ) && windows_fit(
                                self.words().len() as int,
                                words.len() as int,
                                position(places[j]),
                                done[j],
                            ) by {
                                if j < m {
                                    assert(done[j] == old_done[j]);
                                }
                            }
                        }
                    },
                    Err(e) => {
                        assert(window_error(
                            self.words().len() as int,
                            words.len() as int,
                            places[m],
                            found,
                        ) == Some(e));
                        return Err(e);
                    },
                }
                i = i + 1;
            }
            assert(cs.take(c + 1).drop_last() == cs.take(c as int));
            assert(starts(cs.take(c + 1)) =~= starts(cs.take(c as int)) + chunk_starts(ch, n as nat));
            c = c + 1;
        }
        assert(cs.take(c as int) == cs);
        Ok(results)
    }
}

} // verus!
