//! What searches make of the replies of the lookups, whatever these reply.
use vstd::prelude::*;
use crate::index;
use crate::laws;
use crate::multi;
use crate::multi::{Corrected, Entry, Input};
use crate::multi_laws;
use crate::query;
use crate::query::{FuzzyMapLookupResult, QueryWord};
use crate::search;
use crate::search::{FuzzyPhraseSet, Match, SearchError, WordAnswer};
use crate::substring_laws;
use crate::window_laws;
use crate::windows;
use crate::windows::{Answers, WindowMatch};

verus! {

/// The edits of a combination, counted from its first word on.
pub open spec fn edits(c: Seq<QueryWord>) -> nat
    decreases c.len(),
{
    if c.len() == 0 {
        0
    } else {
        edits(c.drop_first()) + match c[0] {
            QueryWord::Full { id, edit_distance } => edit_distance as nat,
            QueryWord::Prefix { id_range } => 0,
        }
    }
}

/// The edits are the same, counted from the last word on.
proof fn lemma_edits(c: Seq<QueryWord>)
    ensures
        edits(c) == query::total_distance(c),
    decreases c.len(),
{
    if c.len() == 1 {
        assert(c.drop_first() =~= Seq::<QueryWord>::empty());
        assert(c.drop_last() =~= Seq::<QueryWord>::empty());
        assert(edits(c.drop_first()) == 0);
        assert(query::total_distance(c.drop_last()) == 0);
    } else if c.len() > 1 {
        let middle = c.drop_first().drop_last();
        lemma_edits(c.drop_first());
        lemma_edits(c.drop_last());
        lemma_edits(middle);
        assert(c.drop_last().drop_first() =~= middle);
        assert(c.drop_first().last() == c.last());
        assert(c.drop_last()[0] == c[0]);
    }
}

/// A combination can be written out: each whole word is in the list, something was typed wherever
/// there is a prefix, and a byte holds the number of edits.
pub open spec fn can_be_written(words: int, typed: int, from: int, c: Seq<QueryWord>) -> bool {
    &&& edits(c) <= 255
    &&& forall|i: int|
        0 <= i < c.len() ==> match #[trigger] c[i] {
            QueryWord::Full { id, edit_distance } => id < words,
            QueryWord::Prefix { id_range } => from + i < typed,
        }
}

/// A combination is written out as a phrase with a number of edits: in place of a whole word stands
/// the word with its id, and in place of a prefix what was typed there.
pub open spec fn is_written(
    words: Seq<Seq<char>>,
    typed: Seq<Seq<char>>,
    from: int,
    c: Seq<QueryWord>,
    phrase: Seq<Seq<char>>,
    edit_distance: nat,
) -> bool {
    &&& edit_distance == edits(c)
    &&& phrase.len() == c.len()
    &&& forall|i: int|
        0 <= i < c.len() ==> match #[trigger] c[i] {
            QueryWord::Full { id, edit_distance } => phrase[i] == words[id as int],
            QueryWord::Prefix { id_range } => phrase[i] == typed[from + i],
        }
}

/// A combination is written out word by word, if it can be.
pub proof fn combinations_are_written_word_by_word(
    words: Seq<Seq<char>>,
    typed: Seq<Seq<char>>,
    from: int,
    c: Seq<QueryWord>,
)
    ensures
        query::fits(words.len() as int, typed.len() as int, from, c) <==> can_be_written(
            words.len() as int,
            typed.len() as int,
            from,
            c,
        ),
        is_written(
            words,
            typed,
            from,
            c,
            query::written_out(words, typed, from, c),
            query::total_distance(c),
        ),
{
    lemma_edits(c);
    let n = typed.len() as int;
    let m = words.len() as int;
    if query::fits(m, n, from, c) {
        assert forall|i: int| 0 <= i < c.len() implies match #[trigger] c[i] {
            QueryWord::Full { id, edit_distance } => id < m,
            QueryWord::Prefix { id_range } => from + i < n,
        } by {
            assert(query::word_fits(m, from + i < n, c[i]));
        }
    }
    if can_be_written(m, n, from, c) {
        assert forall|i: int| 0 <= i < c.len() implies query::word_fits(m, from + i < n, #[trigger] c[i]) by {}
    }
}

/// All the combinations can be written out.
pub open spec fn all_can_be_written(words: int, typed: int, found: Seq<Seq<QueryWord>>) -> bool {
    forall|j: int| 0 <= j < found.len() ==> can_be_written(words, typed, 0, #[trigger] found[j])
}

/// What a search makes of the combinations that it got: each is written out, in their order; an
/// error stays an error, and one that cannot be written out is an error, too.
pub proof fn combinations_are_written_out_in_order<E>(
    words: Seq<Seq<char>>,
    typed: Seq<Seq<char>>,
    reply: Result<Seq<Seq<QueryWord>>, E>,
)
    ensures
        match (reply, search::search_result(words, typed, reply)) {
            (Err(e), Err(SearchError::Index(f))) => e == f,
            (Ok(found), Ok(matches)) => {
                &&& all_can_be_written(words.len() as int, typed.len() as int, found)
                &&& matches.len() == found.len()
                &&& forall|j: int|
                    0 <= j < found.len() ==> is_written(
                        words,
                        typed,
                        0,
                        #[trigger] found[j],
                        matches[j].phrase,
                        matches[j].edit_distance,
                    )
            },
            (Ok(found), Err(SearchError::Unfit)) => !all_can_be_written(
                words.len() as int,
                typed.len() as int,
                found,
            ),
            _ => false,
        },
{
    if let Ok(found) = reply {
        let m = words.len() as int;
        let n = typed.len() as int;
        assert forall|j: int| 0 <= j < found.len() implies (query::fits(m, n, 0, #[trigger] found[j])
            <==> can_be_written(m, n, 0, found[j])) && is_written(
            words,
            typed,
            0,
            found[j],
            query::written_out(words, typed, 0, found[j]),
            query::total_distance(found[j]),
        ) by {
            combinations_are_written_word_by_word(words, typed, 0, found[j]);
        }
    }
}

/// The windows that are found at one position are written out in their order, behind those that
/// were found before, each with that position and its mark.
pub proof fn windows_are_written_out_in_order<E>(
    words: Seq<Seq<char>>,
    typed: Seq<Seq<char>>,
    from: int,
    before: Seq<WindowMatch>,
    reply: Result<Seq<(Seq<QueryWord>, bool)>, E>,
)
    ensures
        match (reply, windows::with_windows(words, typed, from, before, reply)) {
            (Err(e), Err(SearchError::Index(f))) => e == f,
            (Ok(found), Ok(after)) => {
                &&& after.len() == before.len() + found.len()
                &&& after.take(before.len() as int) == before
                &&& forall|j: int|
                    0 <= j < found.len() ==> can_be_written(
                        words.len() as int,
                        typed.len() as int,
                        from,
                        (#[trigger] found[j]).0,
                    ) && is_window(words, typed, from, found[j], after[before.len() + j])
            },
            (Ok(found), Err(SearchError::Unfit)) => exists|j: int|
                0 <= j < found.len() && !can_be_written(
                    words.len() as int,
                    typed.len() as int,
                    from,
                    (#[trigger] found[j]).0,
                ),
            _ => false,
        },
{
    if let Ok(found) = reply {
        let m = words.len() as int;
        let n = typed.len() as int;
        assert forall|j: int| 0 <= j < found.len() implies (query::fits(
            m,
            n,
            from,
            (#[trigger] found[j]).0,
        ) <==> can_be_written(m, n, from, found[j].0)) && is_written(
            words,
            typed,
            from,
            found[j].0,
            query::written_out(words, typed, from, found[j].0),
            query::total_distance(found[j].0),
        ) by {
            combinations_are_written_word_by_word(words, typed, from, found[j].0);
        }
        if windows::windows_fit(m, n, from, found) {
            let after = before + windows::windows_from(words, typed, from, found);
            assert(after.take(before.len() as int) =~= before);
        }
    }
}

/// A result is a window that was found at a position, written out, with its mark.
pub open spec fn is_window(
    words: Seq<Seq<char>>,
    typed: Seq<Seq<char>>,
    from: int,
    found: (Seq<QueryWord>, bool),
    r: WindowMatch,
) -> bool {
    &&& is_written(words, typed, from, found.0, r.phrase, r.edit_distance)
    &&& r.start_position == from
    &&& r.ends_in_prefix == found.1
}

/// The combinations that are as long as a phrase and marked or not, in their order.
pub open spec fn selected(
    found: Seq<(Seq<QueryWord>, bool)>,
    len: nat,
    marked: bool,
) -> Seq<(Seq<QueryWord>, bool)> {
    found.filter(|f: (Seq<QueryWord>, bool)| f.0.len() == len && f.1 == marked)
}

/// What belongs to a phrase is what is selected for it.
proof fn lemma_selected(found: Seq<(Seq<QueryWord>, bool)>, len: nat, marked: bool)
    ensures
        multi::own(len, marked, found).len() == selected(found, len, marked).len(),
        forall|k: int|
            0 <= k < selected(found, len, marked).len() ==> #[trigger] multi::own(len, marked, found)[k]
                == selected(found, len, marked)[k].0,
    decreases found.len(),
{
    reveal(Seq::filter);
    if found.len() > 0 {
        lemma_selected(found.drop_last(), len, marked);
    }
}

/// Of what was found for a cluster, each of its phrases gets what is as long as it is and marked
/// just if it is still being typed, written out in the same order, behind what it had before.
/// Other phrases get nothing.
pub proof fn phrases_get_what_is_theirs(
    words: Seq<Seq<char>>,
    inputs: Seq<Input>,
    cluster: Seq<Entry>,
    before: Seq<Seq<Match>>,
    found: Seq<(Seq<QueryWord>, bool)>,
    i: int,
)
    requires
        0 <= i < before.len(),
    ensures
        ({
            let after = multi::dealt(words, inputs, cluster, before, found);
            let own = selected(found, inputs[i].0.len(), inputs[i].1);
            &&& after.len() == before.len()
            &&& if exists|k: int| 0 <= k < cluster.len() && (#[trigger] cluster[k]).2 == i {
                &&& after[i].len() == before[i].len() + own.len()
                &&& after[i].take(before[i].len() as int) == before[i]
                &&& forall|k: int|
                    0 <= k < own.len() ==> is_written(
                        words,
                        inputs[i].0,
                        0,
                        (#[trigger] own[k]).0,
                        after[i][before[i].len() + k].phrase,
                        after[i][before[i].len() + k].edit_distance,
                    )
            } else {
                after[i] == before[i]
            }
        }),
{
    let after = multi::dealt(words, inputs, cluster, before, found);
    let own = selected(found, inputs[i].0.len(), inputs[i].1);
    lemma_selected(found, inputs[i].0.len(), inputs[i].1);
    if multi::in_cluster(cluster, i) {
        assert(after[i].take(before[i].len() as int) =~= before[i]);
        assert forall|k: int| 0 <= k < own.len() implies is_written(
            words,
            inputs[i].0,
            0,
            (#[trigger] own[k]).0,
            after[i][before[i].len() + k].phrase,
            after[i][before[i].len() + k].edit_distance,
        ) by {
            combinations_are_written_word_by_word(words, inputs[i].0, 0, own[k].0);
        }
    }
}

/// What was found for a cluster is dealt out, if all that belongs to a phrase can be written out; an
/// error stays an error, and what cannot be written out is an error, too.
pub proof fn a_cluster_is_dealt_out_if_it_can_be_written<E>(
    words: Seq<Seq<char>>,
    inputs: Seq<Input>,
    cluster: Seq<Entry>,
    before: Seq<Seq<Match>>,
    reply: Result<Seq<(Seq<QueryWord>, bool)>, E>,
)
    ensures
        match (reply, multi::with_cluster(words, inputs, cluster, before, reply)) {
            (Err(e), Err(SearchError::Index(f))) => e == f,
            (Ok(found), Ok(after)) => after == multi::dealt(words, inputs, cluster, before, found)
                && all_owned_can_be_written(words.len() as int, cluster, found),
            (Ok(found), Err(SearchError::Unfit)) => !all_owned_can_be_written(
                words.len() as int,
                cluster,
                found,
            ),
            _ => false,
        },
{
    if let Ok(found) = reply {
        let m = words.len() as int;
        assert forall|k: int, i: int|
            0 <= k < cluster.len() && 0 <= i < found.len() implies (query::fits(
            m,
            (#[trigger] cluster[k]).0.len() as int,
            0,
            (#[trigger] found[i]).0,
        ) <==> can_be_written(m, cluster[k].0.len() as int, 0, found[i].0)) by {
            combinations_are_written_word_by_word(words, cluster[k].0, 0, found[i].0);
        }
        if multi::cluster_fits(m, cluster, found) {
            assert forall|k: int, i: int|
                0 <= k < cluster.len() && 0 <= i < found.len() && (#[trigger] found[i]).0.len() == (
                #[trigger] cluster[k]).0.len() && found[i].1 == cluster[k].1 implies can_be_written(
                m,
                cluster[k].0.len() as int,
                0,
                found[i].0,
            ) by {
                assert(multi::claims(cluster[k].0.len(), cluster[k].1, found[i]));
            }
        }
        if all_owned_can_be_written(m, cluster, found) {
            assert(multi::cluster_fits(m, cluster, found));
        }
    }
}

/// All that is as long as a phrase of a cluster, and marked just if it is still being typed, can be
/// written out.
pub open spec fn all_owned_can_be_written(
    words: int,
    cluster: Seq<Entry>,
    found: Seq<(Seq<QueryWord>, bool)>,
) -> bool {
    forall|k: int, i: int|
        0 <= k < cluster.len() && 0 <= i < found.len() && (#[trigger] found[i]).0.len() == (
        #[trigger] cluster[k]).0.len() && found[i].1 == cluster[k].1 ==> can_be_written(
            words,
            cluster[k].0.len() as int,
            0,
            found[i].0,
        )
}

/// What is found in the middle of a phrase becomes whole words, one by one and in their order; if
/// nothing is found there is no answer, and an error stays an error.
pub proof fn hits_become_whole_words<E>(reply: Result<Seq<FuzzyMapLookupResult>, E>)
    ensures
        match (reply, search::fuzzy_answer(reply)) {
            (Err(e), Err(f)) => e == f,
            (Ok(hits), Ok(None)) => hits.len() == 0,
            (Ok(hits), Ok(Some(variants))) => {
                &&& hits.len() > 0
                &&& variants.len() == hits.len()
                &&& forall|i: int|
                    0 <= i < hits.len() ==> #[trigger] variants[i] == (QueryWord::Full {
                        id: hits[i].id,
                        edit_distance: hits[i].edit_distance,
                    })
            },
            _ => false,
        },
{
}

/// What was found beside a prefix: where some words start like this, without the exact word, which
/// is one of them.
pub open spec fn kept_beside(
    range: Option<(u64, u64)>,
    hits: Seq<FuzzyMapLookupResult>,
) -> Seq<FuzzyMapLookupResult> {
    hits.filter(|h: FuzzyMapLookupResult| range is None || h.edit_distance != 0)
}

/// What stands beside a prefix is what is kept beside it.
proof fn lemma_kept_beside(range: Option<(u64, u64)>, hits: Seq<FuzzyMapLookupResult>)
    ensures
        search::beside_prefix(range is Some, hits).len() == kept_beside(range, hits).len(),
        forall|k: int|
            0 <= k < kept_beside(range, hits).len() ==> #[trigger] search::beside_prefix(
                range is Some,
                hits,
            )[k] == (QueryWord::Full {
                id: kept_beside(range, hits)[k].id,
                edit_distance: kept_beside(range, hits)[k].edit_distance,
            }),
    decreases hits.len(),
{
    reveal(Seq::filter);
    if hits.len() > 0 {
        lemma_kept_beside(range, hits.drop_last());
    }
}

/// At the end of a phrase that is still being typed stands first the prefix, if some words start
/// like this, with the first and the last of their ids; and then, in their order, what a fuzzy
/// lookup found beside it. If that is nothing there is no answer, and an error stays an error.
pub proof fn a_prefix_comes_first<E>(
    range: Option<(u64, u64)>,
    reply: Result<Seq<FuzzyMapLookupResult>, E>,
)
    ensures
        match (reply, search::last_answer(range, reply)) {
            (Err(e), Err(f)) => e == f,
            (Ok(hits), Ok(None)) => range is None && kept_beside(range, hits).len() == 0,
            (Ok(hits), Ok(Some(variants))) => {
                let kept = kept_beside(range, hits);
                let n: int = if range is Some { 1 } else { 0 };
                &&& variants.len() == n + kept.len()
                &&& variants.len() > 0
                &&& range matches Some((first, last)) ==> variants[0] == (QueryWord::Prefix {
                    id_range: (first as u32, last as u32),
                })
                &&& forall|k: int|
                    0 <= k < kept.len() ==> variants[n + k] == (QueryWord::Full {
                        id: (#[trigger] kept[k]).id,
                        edit_distance: kept[k].edit_distance,
                    })
            },
            _ => false,
        },
{
    if let Ok(hits) = reply {
        lemma_kept_beside(range, hits);
        let kept = kept_beside(range, hits);
        let beside = search::beside_prefix(range is Some, hits);
        let all = search::last_variants(range, hits);
        assert forall|k: int| 0 <= k < kept.len() implies all[(if range is Some { 1int } else { 0int }) + k]
            == (QueryWord::Full { id: (#[trigger] kept[k]).id, edit_distance: kept[k].edit_distance }) by {
            assert(beside[k] == (QueryWord::Full {
                id: kept[k].id,
                edit_distance: kept[k].edit_distance,
            }));
        }
    }
}

impl<G, R, L, C, P, M, N, W, E> FuzzyPhraseSet<G, R, L, C, P, M, N, W> where
    G: Fn(&str) -> Option<u64>,
    R: Fn(&str) -> Option<(u64, u64)>,
    L: Fn(&str, u8, &Vec<String>) -> Result<Vec<FuzzyMapLookupResult>, E>,
    C: Fn(&Vec<QueryWord>) -> Result<bool, E>,
    P: Fn(&Vec<QueryWord>) -> Result<bool, E>,
    M: Fn(&Vec<Vec<QueryWord>>, u8) -> Result<Vec<Vec<QueryWord>>, E>,
    N: Fn(&Vec<Vec<QueryWord>>, u8) -> Result<Vec<Vec<QueryWord>>, E>,
    W: Fn(&[Vec<QueryWord>], u8, bool) -> Result<Vec<(Vec<QueryWord>, bool)>, E>,
 {
    /// A word in the middle of a phrase is looked up as it is, and with just the edits that are
    /// allowed: in the fuzzy index, with the list of all words, if its script allows it, and else in
    /// the index of words.
    pub proof fn a_word_is_looked_up_as_it_is(&self, word: Seq<char>, d: u8, answer: WordAnswer<E>)
        requires
            self.may_answer(word, d, answer),
        ensures
            self.script_regex.accepts(word) ==> exists|
                w: &str,
                reply: Result<Vec<FuzzyMapLookupResult>, E>,
            |
                w@ == word && #[trigger] call_ensures(self.fuzzy_map.find, (w, d, &self.word_list), reply)
                    && answer == (match reply {
                    Ok(v) => search::fuzzy_answer(Ok::<Seq<FuzzyMapLookupResult>, E>(v@)),
                    Err(e) => Err(e),
                }),
            !self.script_regex.accepts(word) ==> exists|w: &str, reply: Option<u64>|
                w@ == word && #[trigger] call_ensures(self.prefix_set.id_of, (w,), reply) && answer
                    == (match reply {
                    Some(id) => Ok::<Option<Seq<QueryWord>>, E>(
                        Some(seq![QueryWord::Full { id: id as u32, edit_distance: 0 }]),
                    ),
                    None => Ok(None),
                }),
    {
    }

    /// The last word of a phrase that is still being typed is looked up as it is: in the index of
    /// words for those that start with it and, if its script allows it, in the fuzzy index with just
    /// the edits that are allowed and the list of all words.
    pub proof fn a_last_word_is_looked_up_as_it_is(
        &self,
        word: Seq<char>,
        d: u8,
        answer: WordAnswer<E>,
    )
        requires
            self.may_answer_last(word, d, answer),
        ensures
            exists|v: &str, range: Option<(u64, u64)>|
                v@ == word && #[trigger] call_ensures(self.prefix_set.range_of, (v,), range) && (
                if self.script_regex.accepts(word) {
                    exists|w: &str, reply: Result<Vec<FuzzyMapLookupResult>, E>|
                        w@ == word && #[trigger] call_ensures(
                            self.fuzzy_map.find,
                            (w, d, &self.word_list),
                            reply,
                        ) && answer == (match reply {
                            Ok(v) => search::last_answer(range, Ok::<Seq<FuzzyMapLookupResult>, E>(v@)),
                            Err(e) => Err(e),
                        })
                } else {
                    answer == search::last_answer(
                        range,
                        Ok::<Seq<FuzzyMapLookupResult>, E>(Seq::empty()),
                    )
                }),
    {
        let (range, reply) = choose|
            range: Option<(u64, u64)>,
            reply: Result<Seq<FuzzyMapLookupResult>, E>,
        | #[trigger]
            self.prefix_set.may_get_prefix_range(word, range) && #[trigger] search::last_answer(
                range,
                reply,
            ) == answer && if self.script_regex.accepts(word) {
                self.fuzzy_map.may_find(word, d, &self.word_list, reply)
            } else {
                reply == Ok::<Seq<FuzzyMapLookupResult>, E>(Seq::empty())
            };
        let v = choose|v: &str| v@ == word && #[trigger] call_ensures(self.prefix_set.range_of, (v,), range);
        assert(call_ensures(self.prefix_set.range_of, (v,), range));
        if self.script_regex.accepts(word) {
            let (w, r) = choose|w: &str, r: Result<Vec<FuzzyMapLookupResult>, E>|
                w@ == word && index::hits_of(r) == reply && #[trigger] call_ensures(
                    self.fuzzy_map.find,
                    (w, d, &self.word_list),
                    r,
                );
            assert(call_ensures(self.fuzzy_map.find, (w, d, &self.word_list), r));
        }
    }

    /// A fuzzy lookup of a word failed with an error.
    pub open spec fn a_lookup_failed(&self, word: Seq<char>, d: u8, e: E) -> bool {
        exists|w: &str|
            w@ == word && #[trigger] call_ensures(self.fuzzy_map.find, (w, d, &self.word_list), Err(e))
    }

    /// A fuzzy lookup of one of some words failed with an error, after something was found for all
    /// the words before it.
    pub open spec fn a_lookup_failed_in_turn(
        &self,
        typed: Seq<Seq<char>>,
        d: u8,
        ends_in_prefix: bool,
        e: E,
    ) -> bool {
        exists|i: int|
            0 <= i < typed.len() && self.a_lookup_failed(#[trigger] typed[i], d, e) && forall|j: int|
                0 <= j < i ==> self.has_an_answer(typed, d, ends_in_prefix, j)
    }

    /// Something was found for the word at position `j`.
    pub open spec fn has_an_answer(&self, typed: Seq<Seq<char>>, d: u8, ends_in_prefix: bool, j: int) -> bool {
        exists|variants: Seq<QueryWord>| #[trigger]
            self.may_answer_at(typed, d, ends_in_prefix, j, Ok(Some(variants)))
    }

    /// What ends the gathering is a lookup that failed in its turn.
    proof fn lemma_lookup_failed_in_turn(
        &self,
        typed: Seq<Seq<char>>,
        d: u8,
        ends_in_prefix: bool,
        before: Seq<Seq<QueryWord>>,
        e: E,
    )
        requires
            self.may_fill(typed, d, ends_in_prefix, before),
            before.len() < typed.len(),
            self.may_answer_at(typed, d, ends_in_prefix, before.len() as int, Err(e)),
        ensures
            self.a_lookup_failed_in_turn(typed, d, ends_in_prefix, e),
    {
        let i = before.len() as int;
        self.lemma_lookup_failed(typed, d, ends_in_prefix, i, e);
        assert forall|j: int| 0 <= j < i implies self.has_an_answer(typed, d, ends_in_prefix, j) by {
            assert(self.may_answer_at(typed, d, ends_in_prefix, j, Ok(Some(before[j]))));
        }
        assert(self.a_lookup_failed(typed[i], d, e));
    }

    /// An answer that is an error comes of a lookup that failed.
    proof fn lemma_lookup_failed(
        &self,
        typed: Seq<Seq<char>>,
        d: u8,
        ends_in_prefix: bool,
        i: int,
        e: E,
    )
        requires
            0 <= i < typed.len(),
            self.may_answer_at(typed, d, ends_in_prefix, i, Err(e)),
        ensures
            self.a_lookup_failed(typed[i], d, e),
    {
        let word = typed[i];
        assert(self.fuzzy_map.may_find(word, d, &self.word_list, Err(e))) by {
            if ends_in_prefix && i == typed.len() - 1 {
                let (range, reply) = choose|
                    range: Option<(u64, u64)>,
                    reply: Result<Seq<FuzzyMapLookupResult>, E>,
                | #[trigger]
                    self.prefix_set.may_get_prefix_range(word, range) && #[trigger] search::last_answer(
                        range,
                        reply,
                    ) == Err::<Option<Seq<QueryWord>>, E>(e) && if self.script_regex.accepts(word) {
                        self.fuzzy_map.may_find(word, d, &self.word_list, reply)
                    } else {
                        reply == Ok::<Seq<FuzzyMapLookupResult>, E>(Seq::empty())
                    };
                assert(reply == Err::<Seq<FuzzyMapLookupResult>, E>(e));
            } else {
                let reply = choose|reply: Result<Seq<FuzzyMapLookupResult>, E>| #[trigger]
                    self.fuzzy_map.may_find(word, d, &self.word_list, reply) && Err::<
                        Option<Seq<QueryWord>>,
                        E,
                    >(e) == search::fuzzy_answer(reply);
                assert(reply == Err::<Seq<FuzzyMapLookupResult>, E>(e));
            }
        }
        let (w, r) = choose|w: &str, r: Result<Vec<FuzzyMapLookupResult>, E>|
            w@ == word && index::hits_of(r) == Err::<Seq<FuzzyMapLookupResult>, E>(e)
                && #[trigger] call_ensures(self.fuzzy_map.find, (w, d, &self.word_list), r);
        assert(r == Err::<Vec<FuzzyMapLookupResult>, E>(e));
        assert(call_ensures(self.fuzzy_map.find, (w, d, &self.word_list), Err(e)));
    }

    /// The phrase graph is asked for what was found for each word, in the order of the words.
    pub open spec fn is_asked(
        &self,
        typed: Seq<Seq<char>>,
        max_word_dist: u8,
        ends_in_prefix: bool,
        q: Seq<Vec<QueryWord>>,
    ) -> bool {
        &&& q.len() == typed.len()
        &&& forall|i: int|
            0 <= i < q.len() ==> self.may_answer_at(
                typed,
                laws::one_at_most(max_word_dist),
                ends_in_prefix,
                i,
                Ok(Some(#[trigger] laws::in_memory(q)[i])),
            )
    }

    /// A query word stands for a word with its exact id.
    pub open spec fn is_exact(&self, word: Seq<char>, q: QueryWord) -> bool {
        exists|w: &str, id: u64|
            w@ == word && #[trigger] call_ensures(self.prefix_set.id_of, (w,), Some(id)) && q == (
            QueryWord::Full { id: id as u32, edit_distance: 0 })
    }

    /// A query word stands for the words that start with a text.
    pub open spec fn is_start(&self, word: Seq<char>, q: QueryWord) -> bool {
        exists|w: &str, first: u64, last: u64|
            w@ == word && #[trigger] call_ensures(self.prefix_set.range_of, (w,), Some((first, last)))
                && q == (QueryWord::Prefix { id_range: (first as u32, last as u32) })
    }

    /// Whether a phrase is contained is answered unless the phrase graph itself fails, asked for just
    /// the words of the phrase, by their ids; and then with its error.
    pub proof fn contains_fails_only_with_the_phrase_graph(
        &self,
        typed: Seq<Seq<char>>,
        e: E,
        prefix_error: E,
    )
        ensures
            self.may_contain(typed, Err(e)) ==> exists|q: &Vec<QueryWord>| #[trigger]
                call_ensures(self.phrase_set.holds, (q,), Err(e)) && q@.len() == typed.len() && forall|
                    i: int,
                |
                    0 <= i < typed.len() ==> self.is_exact(#[trigger] typed[i], q@[i]),
            self.may_contain_prefix(typed, Err(prefix_error)) ==> exists|q: &Vec<QueryWord>| #[trigger]
                call_ensures(self.phrase_set.holds_prefix, (q,), Err(prefix_error)) && q@.len()
                    == typed.len() && forall|i: int|
                    0 <= i < typed.len() ==> if i < typed.len() - 1 {
                        self.is_exact(#[trigger] typed[i], q@[i])
                    } else {
                        self.is_start(typed[i], q@[i])
                    },
    {
        if self.may_contain(typed, Err(e)) {
            let query = choose|query: Seq<QueryWord>| #[trigger]
                self.may_identify(typed, Some(query)) && self.phrase_set.may_contain(query, Err(e));
            let q = choose|q: &Vec<QueryWord>|
                q@ == query && #[trigger] call_ensures(self.phrase_set.holds, (q,), Err(e));
            assert forall|i: int| 0 <= i < typed.len() implies self.is_exact(#[trigger] typed[i], q@[i]) by {
                assert(self.may_be(typed[i], query[i]));
                self.lemma_is_exact(typed[i], query[i]);
            }
            assert(call_ensures(self.phrase_set.holds, (q,), Err(e)));
        }
        if self.may_contain_prefix(typed, Err(prefix_error)) {
            if typed.len() == 0 {
                let q = choose|q: &Vec<QueryWord>|
                    q@ == Seq::<QueryWord>::empty() && #[trigger] call_ensures(
                        self.phrase_set.holds_prefix,
                        (q,),
                        Err(prefix_error),
                    );
                assert(call_ensures(self.phrase_set.holds_prefix, (q,), Err(prefix_error)));
            } else {
                let front = typed.drop_last();
                let n = front.len() as int;
                let (query, range) = choose|query: Seq<QueryWord>, range: Option<(u64, u64)>| #[trigger]
                    self.may_identify(front, Some(query)) && #[trigger]
                    self.prefix_set.may_get_prefix_range(typed.last(), range) && match range {
                        None => false,
                        Some((first, last)) => self.phrase_set.may_contain_prefix(
                            query.push(QueryWord::Prefix { id_range: (first as u32, last as u32) }),
                            Err(prefix_error),
                        ),
                    };
                let (first, last) = range->Some_0;
                let whole = query.push(QueryWord::Prefix { id_range: (first as u32, last as u32) });
                let q = choose|q: &Vec<QueryWord>|
                    q@ == whole && #[trigger] call_ensures(
                        self.phrase_set.holds_prefix,
                        (q,),
                        Err(prefix_error),
                    );
                let w = choose|w: &str|
                    w@ == typed.last() && #[trigger] call_ensures(self.prefix_set.range_of, (w,), range);
                assert(call_ensures(self.prefix_set.range_of, (w,), Some((first, last))));
                assert forall|i: int| 0 <= i < typed.len() implies if i < typed.len() - 1 {
                    self.is_exact(#[trigger] typed[i], q@[i])
                } else {
                    self.is_start(typed[i], q@[i])
                } by {
                    if i < n {
                        assert(self.may_be(front[i], query[i]));
                        self.lemma_is_exact(front[i], query[i]);
                    } else {
                        assert(q@[n] == (QueryWord::Prefix { id_range: (first as u32, last as u32) }));
                    }
                }
                assert(call_ensures(self.phrase_set.holds_prefix, (q,), Err(prefix_error)));
            }
        }
    }

    /// What stands for a word by its exact id is what the index replied.
    proof fn lemma_is_exact(&self, word: Seq<char>, q: QueryWord)
        requires
            self.may_be(word, q),
        ensures
            self.is_exact(word, q),
    {
        let id = choose|id: u64| #[trigger]
            self.prefix_set.may_get(word, Some(id)) && q == (QueryWord::Full {
                id: id as u32,
                edit_distance: 0,
            });
        let w = choose|w: &str| w@ == word && #[trigger] call_ensures(self.prefix_set.id_of, (w,), Some(id));
        assert(call_ensures(self.prefix_set.id_of, (w,), Some(id)));
    }

    /// A fuzzy search fails only where a lookup of one of its words fails, with just the edits that
    /// are allowed in a word, or where the phrase graph fails, asked for just the edits that are
    /// allowed in all; and then with that error.
    pub proof fn a_fuzzy_search_fails_only_with_an_index(
        &self,
        typed: Seq<Seq<char>>,
        max_word_dist: u8,
        max_phrase_dist: u8,
        e: E,
    )
        requires
            self.may_fuzzy_match(typed, max_word_dist, max_phrase_dist, Err(SearchError::Index(e))),
        ensures
            self.a_lookup_failed_in_turn(typed, laws::one_at_most(max_word_dist), false, e) || exists|
                q: &Vec<Vec<QueryWord>>,
            | #[trigger]
                call_ensures(self.phrase_set.combine, (q, max_phrase_dist), Err(e)) && self.is_asked(
                    typed,
                    max_word_dist,
                    false,
                    q@,
                ),
    {
        let d = laws::one_at_most(max_word_dist);
        let outcome = Err::<Seq<Match>, SearchError<E>>(SearchError::Index(e));
        if self.may_gather(typed, d, false, Err(e)) {
            let before = choose|before: Seq<Seq<QueryWord>>| #[trigger]
                self.may_fill(typed, d, false, before) && before.len() < typed.len()
                    && self.may_answer_at(typed, d, false, before.len() as int, Err(e));
            self.lemma_lookup_failed_in_turn(typed, d, false, before, e);
        } else {
            let (slots, reply) = choose|
                slots: Seq<Seq<QueryWord>>,
                reply: Result<Seq<Seq<QueryWord>>, E>,
            | #[trigger]
                self.may_gather(typed, d, false, Ok(Some(slots))) && #[trigger] self.phrase_set.may_match(
                    slots,
                    max_phrase_dist,
                    reply,
                ) && outcome == search::search_result(self.words(), Seq::empty(), reply);
            assert(reply == Err::<Seq<Seq<QueryWord>>, E>(e));
            let (q, r) = choose|q: &Vec<Vec<QueryWord>>, r: Result<Vec<Vec<QueryWord>>, E>|
                query::slots_of(q@) == slots && index::combinations_of(r) == reply && #[trigger]
                call_ensures(self.phrase_set.combine, (q, max_phrase_dist), r);
            assert(r == Err::<Vec<Vec<QueryWord>>, E>(e));
            assert(laws::in_memory(q@) =~= slots);
            assert(call_ensures(self.phrase_set.combine, (q, max_phrase_dist), Err(e)));
        }
    }

    /// A fuzzy search for the beginning of a phrase fails only where a lookup of one of its words
    /// fails, with just the edits that are allowed in a word, or where the phrase graph fails, asked
    /// for just the edits that are allowed in all; and then with that error.
    pub proof fn a_fuzzy_prefix_search_fails_only_with_an_index(
        &self,
        typed: Seq<Seq<char>>,
        max_word_dist: u8,
        max_phrase_dist: u8,
        e: E,
    )
        requires
            self.may_fuzzy_match_prefix(
                typed,
                max_word_dist,
                max_phrase_dist,
                Err(SearchError::Index(e)),
            ),
        ensures
            self.a_lookup_failed_in_turn(typed, laws::one_at_most(max_word_dist), true, e) || exists|
                q: &Vec<Vec<QueryWord>>,
            | #[trigger]
                call_ensures(self.phrase_set.combine_prefixes, (q, max_phrase_dist), Err(e)) && self.is_asked(
                    typed,
                    max_word_dist,
                    true,
                    q@,
                ),
    {
        let d = laws::one_at_most(max_word_dist);
        let outcome = Err::<Seq<Match>, SearchError<E>>(SearchError::Index(e));
        if self.may_gather(typed, d, true, Err(e)) {
            let before = choose|before: Seq<Seq<QueryWord>>| #[trigger]
                self.may_fill(typed, d, true, before) && before.len() < typed.len()
                    && self.may_answer_at(typed, d, true, before.len() as int, Err(e));
            self.lemma_lookup_failed_in_turn(typed, d, true, before, e);
        } else {
            let (slots, reply) = choose|
                slots: Seq<Seq<QueryWord>>,
                reply: Result<Seq<Seq<QueryWord>>, E>,
            | #[trigger]
                self.may_gather(typed, d, true, Ok(Some(slots))) && #[trigger]
                self.phrase_set.may_match_prefixes(slots, max_phrase_dist, reply) && outcome
                    == search::search_result(self.words(), typed, reply);
            assert(reply == Err::<Seq<Seq<QueryWord>>, E>(e));
            let (q, r) = choose|q: &Vec<Vec<QueryWord>>, r: Result<Vec<Vec<QueryWord>>, E>|
                query::slots_of(q@) == slots && index::combinations_of(r) == reply && #[trigger]
                call_ensures(self.phrase_set.combine_prefixes, (q, max_phrase_dist), r);
            assert(r == Err::<Vec<Vec<QueryWord>>, E>(e));
            assert(laws::in_memory(q@) =~= slots);
            assert(call_ensures(self.phrase_set.combine_prefixes, (q, max_phrase_dist), Err(e)));
        }
    }

    /// The phrase graph failed, asked for windows.
    pub open spec fn windows_failed(&self, max_phrase_dist: u8, e: E) -> bool {
        exists|q: &[Vec<QueryWord>], ends: bool| #[trigger]
            call_ensures(self.phrase_set.combine_windows, (q, max_phrase_dist, ends), Err(e))
    }

    /// A reply with windows that is an error comes of the phrase graph.
    proof fn lemma_windows_failed(
        &self,
        slots: Seq<Seq<QueryWord>>,
        max_phrase_dist: u8,
        ends: bool,
        e: E,
    )
        requires
            self.phrase_set.may_match_windows(slots, max_phrase_dist, ends, Err(e)),
        ensures
            self.windows_failed(max_phrase_dist, e),
    {
        let (q, r) = choose|q: &[Vec<QueryWord>], r: Result<Vec<(Vec<QueryWord>, bool)>, E>|
            query::slots_of(q@) == slots && index::windows_of(r) == Err::<
                Seq<(Seq<QueryWord>, bool)>,
                E,
            >(e) && #[trigger] call_ensures(
                self.phrase_set.combine_windows,
                (q, max_phrase_dist, ends),
                r,
            );
        assert(r == Err::<Vec<(Vec<QueryWord>, bool)>, E>(e));
        assert(call_ensures(self.phrase_set.combine_windows, (q, max_phrase_dist, ends), Err(e)));
    }

    /// A search for phrases anywhere in a text fails only where a lookup of one of its words fails,
    /// with just the edits that are allowed in a word, or where the phrase graph fails, asked for
    /// just the edits that are allowed in all; and then with that error.
    pub proof fn a_window_search_fails_only_with_an_index(
        &self,
        typed: Seq<Seq<char>>,
        max_word_dist: u8,
        max_phrase_dist: u8,
        ends_in_prefix: bool,
        e: E,
    )
        requires
            self.may_fuzzy_match_windows(
                typed,
                max_word_dist,
                max_phrase_dist,
                ends_in_prefix,
                Err(SearchError::Index(e)),
            ),
        ensures
            (exists|i: int|
                0 <= i < typed.len() && self.a_lookup_failed(
                    #[trigger] typed[i],
                    laws::one_at_most(max_word_dist),
                    e,
                )) || self.windows_failed(max_phrase_dist, e),
    {
        let d = laws::one_at_most(max_word_dist);
        if self.may_answer_all(typed, d, ends_in_prefix, Err(e)) {
            let before = choose|before: Answers|
                before.len() < typed.len() && #[trigger] self.may_answer_first(
                    typed,
                    d,
                    ends_in_prefix,
                    before,
                ) && self.may_answer_at(typed, d, ends_in_prefix, before.len() as int, Err(e));
            self.lemma_lookup_failed(typed, d, ends_in_prefix, before.len() as int, e);
        } else {
            let answers = choose|answers: Answers| #[trigger]
                self.may_answer_all(typed, d, ends_in_prefix, Ok(answers)) && self.may_search(
                    typed,
                    max_phrase_dist,
                    windows::starts(windows::chunks(answers, ends_in_prefix)),
                    Err(SearchError::Index(e)),
                );
            let places = windows::starts(windows::chunks(answers, ends_in_prefix));
            let (found, reply) = choose|
                found: Seq<Seq<(Seq<QueryWord>, bool)>>,
                reply: Result<Seq<(Seq<QueryWord>, bool)>, E>,
            | #[trigger]
                self.may_find_first(typed, max_phrase_dist, places, found) && found.len()
                    < places.len() && #[trigger] self.may_find_at(
                    max_phrase_dist,
                    places[found.len() as int],
                    reply,
                ) && windows::window_error(
                    self.words().len() as int,
                    typed.len() as int,
                    places[found.len() as int],
                    reply,
                ) == Some(SearchError::Index(e));
            assert(reply == Err::<Seq<(Seq<QueryWord>, bool)>, E>(e));
            let p = places[found.len() as int];
            self.lemma_windows_failed(p.0.slots.skip(p.1), max_phrase_dist, p.0.ends_in_prefix, e);
        }
    }

    /// A search for many phrases fails only where a lookup of a word of one of them fails, with just
    /// the edits that are allowed in a word, or where the phrase graph fails, asked for just the
    /// edits that are allowed in all; and then with that error.
    pub proof fn a_search_for_many_fails_only_with_an_index(
        &self,
        inputs: Seq<Input>,
        max_word_dist: u8,
        max_phrase_dist: u8,
        e: E,
    )
        requires
            self.may_fuzzy_match_multi(
                inputs,
                max_word_dist,
                max_phrase_dist,
                Err(SearchError::Index(e)),
            ),
        ensures
            (exists|i: int, j: int|
                0 <= i < inputs.len() && 0 <= j < inputs[i].0.len() && self.a_lookup_failed(
                    #[trigger] inputs[i].0[j],
                    laws::one_at_most(max_word_dist),
                    e,
                )) || self.windows_failed(max_phrase_dist, e),
    {
        let d = laws::one_at_most(max_word_dist);
        let requests = multi::requests(inputs);
        if self.may_correct(requests, d, Err(e)) {
            let lookups = multi::firsts(requests);
            let before = choose|before: Seq<Corrected>| #[trigger]
                self.may_correct_first(lookups, d, before) && before.len() < lookups.len()
                    && self.may_answer_as(
                    lookups[before.len() as int].0,
                    lookups[before.len() as int].1,
                    d,
                    Err(e),
                );
            let r = lookups[before.len() as int];
            multi_laws::lemma_firsts(requests);
            assert(lookups.contains(r));
            assert(requests.contains(r));
            let (i, j) = lemma_request_of(inputs, r);
            assert(self.may_answer_at(inputs[i].0, d, inputs[i].1, j, Err(e)));
            self.lemma_lookup_failed(inputs[i].0, d, inputs[i].1, j, e);
        } else {
            let (table, arranged) = choose|table: Seq<Corrected>, arranged: Seq<Entry>| #[trigger]
                self.may_correct(requests, d, Ok(table)) && #[trigger] multi::is_arranged(
                    inputs,
                    arranged,
                ) && self.may_search_clusters(
                    inputs,
                    table,
                    max_phrase_dist,
                    multi::clusters(arranged),
                    Err(SearchError::Index(e)),
                );
            let cs = multi::clusters(arranged);
            let (found, reply) = choose|
                found: Seq<Seq<(Seq<QueryWord>, bool)>>,
                reply: Result<Seq<(Seq<QueryWord>, bool)>, E>,
            | #[trigger]
                self.may_find_clusters(table, max_phrase_dist, cs, found) && found.len() < cs.len()
                    && #[trigger] self.may_find_cluster(
                    table,
                    max_phrase_dist,
                    cs[found.len() as int],
                    reply,
                ) && multi::cluster_error(
                    self.words().len() as int,
                    cs[found.len() as int],
                    reply,
                ) == Some(SearchError::Index(e));
            assert(reply == Err::<Seq<(Seq<QueryWord>, bool)>, E>(e));
            let longest = cs[found.len() as int].last();
            self.lemma_windows_failed(
                multi::phrase_slots(table, (longest.0, longest.1)),
                max_phrase_dist,
                longest.1,
                e,
            );
        }
    }

    /// What a fuzzy search finds is what the phrase graph replied, in that order and written out, or
    /// nothing.
    pub proof fn fuzzy_matches_come_in_the_order_of_the_reply(
        &self,
        typed: Seq<Seq<char>>,
        max_word_dist: u8,
        max_phrase_dist: u8,
        matches: Seq<Match>,
    )
        requires
            self.may_fuzzy_match(typed, max_word_dist, max_phrase_dist, Ok(matches)),
        ensures
            matches.len() > 0 ==> exists|
                q: &Vec<Vec<QueryWord>>,
                reply: Result<Vec<Vec<QueryWord>>, E>,
            | #[trigger]
                call_ensures(self.phrase_set.combine, (q, max_phrase_dist), reply) && self.is_asked(
                    typed,
                    max_word_dist,
                    false,
                    q@,
                ) && reply is Ok
                    && matches.len() == reply->Ok_0@.len() && forall|j: int|
                    0 <= j < matches.len() ==> is_written(
                        self.words(),
                        Seq::empty(),
                        0,
                        reply->Ok_0@[j]@,
                        (#[trigger] matches[j]).phrase,
                        matches[j].edit_distance,
                    ),
    {
        let d = laws::one_at_most(max_word_dist);
        if matches.len() > 0 {
            let (slots, reply) = choose|
                slots: Seq<Seq<QueryWord>>,
                reply: Result<Seq<Seq<QueryWord>>, E>,
            | #[trigger]
                self.may_gather(typed, d, false, Ok(Some(slots))) && #[trigger] self.phrase_set.may_match(
                    slots,
                    max_phrase_dist,
                    reply,
                ) && Ok::<Seq<Match>, SearchError<E>>(matches) == search::search_result(
                    self.words(),
                    Seq::empty(),
                    reply,
                );
            let (q, r) = choose|q: &Vec<Vec<QueryWord>>, r: Result<Vec<Vec<QueryWord>>, E>|
                query::slots_of(q@) == slots && index::combinations_of(r) == reply && #[trigger]
                call_ensures(self.phrase_set.combine, (q, max_phrase_dist), r);
            combinations_are_written_out_in_order(self.words(), Seq::empty(), reply);
            let found = reply->Ok_0;
            assert forall|j: int| 0 <= j < matches.len() implies is_written(
                self.words(),
                Seq::empty(),
                0,
                r->Ok_0@[j]@,
                (#[trigger] matches[j]).phrase,
                matches[j].edit_distance,
            ) by {
                assert(found[j] == r->Ok_0@[j]@);
            }
            assert(laws::in_memory(q@) =~= slots);
            assert(call_ensures(self.phrase_set.combine, (q, max_phrase_dist), r));
        }
    }

    /// What a fuzzy search for the beginning of a phrase finds is what the phrase graph replied, in
    /// that order and written out, or nothing.
    pub proof fn fuzzy_prefix_matches_come_in_the_order_of_the_reply(
        &self,
        typed: Seq<Seq<char>>,
        max_word_dist: u8,
        max_phrase_dist: u8,
        matches: Seq<Match>,
    )
        requires
            self.may_fuzzy_match_prefix(typed, max_word_dist, max_phrase_dist, Ok(matches)),
        ensures
            matches.len() > 0 ==> exists|
                q: &Vec<Vec<QueryWord>>,
                reply: Result<Vec<Vec<QueryWord>>, E>,
            | #[trigger]
                call_ensures(self.phrase_set.combine_prefixes, (q, max_phrase_dist), reply) && self.is_asked(
                    typed,
                    max_word_dist,
                    true,
                    q@,
                ) && reply is Ok && matches.len() == reply->Ok_0@.len() && forall|j: int|
                    0 <= j < matches.len() ==> is_written(
                        self.words(),
                        typed,
                        0,
                        reply->Ok_0@[j]@,
                        (#[trigger] matches[j]).phrase,
                        matches[j].edit_distance,
                    ),
    {
        let d = laws::one_at_most(max_word_dist);
        if matches.len() > 0 {
            let (slots, reply) = choose|
                slots: Seq<Seq<QueryWord>>,
                reply: Result<Seq<Seq<QueryWord>>, E>,
            | #[trigger]
                self.may_gather(typed, d, true, Ok(Some(slots))) && #[trigger]
                self.phrase_set.may_match_prefixes(slots, max_phrase_dist, reply) && Ok::<
                    Seq<Match>,
                    SearchError<E>,
                >(matches) == search::search_result(self.words(), typed, reply);
            let (q, r) = choose|q: &Vec<Vec<QueryWord>>, r: Result<Vec<Vec<QueryWord>>, E>|
                query::slots_of(q@) == slots && index::combinations_of(r) == reply && #[trigger]
                call_ensures(self.phrase_set.combine_prefixes, (q, max_phrase_dist), r);
            combinations_are_written_out_in_order(self.words(), typed, reply);
            let found = reply->Ok_0;
            assert forall|j: int| 0 <= j < matches.len() implies is_written(
                self.words(),
                typed,
                0,
                r->Ok_0@[j]@,
                (#[trigger] matches[j]).phrase,
                matches[j].edit_distance,
            ) by {
                assert(found[j] == r->Ok_0@[j]@);
            }
            assert(laws::in_memory(q@) =~= slots);
            assert(call_ensures(self.phrase_set.combine_prefixes, (q, max_phrase_dist), r));
        }
    }

    /// What a search for many phrases finds for one of them is, of what the phrase graph replied to
    /// one question, that which is as long as the phrase and marked just if it is still being
    /// typed, in that order and written out; or it is nothing.
    pub proof fn matches_of_many_come_in_the_order_of_the_reply(
        &self,
        inputs: Seq<Input>,
        i: int,
        max_word_dist: u8,
        max_phrase_dist: u8,
        lists: Seq<Seq<Match>>,
    )
        requires
            0 <= i < inputs.len(),
            self.may_fuzzy_match_multi(inputs, max_word_dist, max_phrase_dist, Ok(lists)),
        ensures
            lists.len() == inputs.len(),
            lists[i].len() > 0 ==> exists|
                q: &[Vec<QueryWord>],
                ends: bool,
                reply: Result<Vec<(Vec<QueryWord>, bool)>, E>,
            | #[trigger]
                call_ensures(self.phrase_set.combine_windows, (q, max_phrase_dist, ends), reply)
                    && reply is Ok && self.are_written(
                    inputs[i],
                    laws::marked_in_memory(reply->Ok_0@),
                    lists[i],
                ),
    {
        let (table, cluster, k, dealt) = self.lemma_cluster_of(
            inputs,
            i,
            max_word_dist,
            max_phrase_dist,
            lists,
        );
        let (typed, flag) = inputs[i];
        let longest = cluster.last();
        let own = selected(dealt, typed.len(), flag);
        lemma_selected(dealt, typed.len(), flag);
        assert forall|k: int| 0 <= k < own.len() implies is_written(
            self.words(),
            typed,
            0,
            (#[trigger] own[k]).0,
            lists[i][k].phrase,
            lists[i][k].edit_distance,
        ) by {
            combinations_are_written_word_by_word(self.words(), typed, 0, own[k].0);
        }
        assert(self.are_written(inputs[i], dealt, lists[i]));
        if lists[i].len() > 0 {
            if longest.0.len() == 0 {
                assert(dealt =~= Seq::<(Seq<QueryWord>, bool)>::empty());
                assert(multi::own(typed.len(), flag, dealt).len() == 0);
            }
            let slots = multi::phrase_slots(table, (longest.0, longest.1));
            assert(self.phrase_set.may_match_windows(slots, max_phrase_dist, longest.1, Ok(dealt)));
            let (q, r) = choose|q: &[Vec<QueryWord>], r: Result<Vec<(Vec<QueryWord>, bool)>, E>|
                query::slots_of(q@) == slots && index::windows_of(r) == Ok::<
                    Seq<(Seq<QueryWord>, bool)>,
                    E,
                >(dealt) && #[trigger] call_ensures(
                    self.phrase_set.combine_windows,
                    (q, max_phrase_dist, longest.1),
                    r,
                );
            assert(laws::marked_in_memory(r->Ok_0@) =~= dealt);
            assert(call_ensures(self.phrase_set.combine_windows, (q, max_phrase_dist, longest.1), r));
        }
    }

    /// The matches are, of what was found, that which is as long as a phrase and marked just if it
    /// is still being typed, in that order and written out.
    pub open spec fn are_written(
        &self,
        input: Input,
        found: Seq<(Seq<QueryWord>, bool)>,
        matches: Seq<Match>,
    ) -> bool {
        let own = selected(found, input.0.len(), input.1);
        &&& matches.len() == own.len()
        &&& forall|k: int|
            0 <= k < own.len() ==> is_written(
                self.words(),
                input.0,
                0,
                (#[trigger] own[k]).0,
                matches[k].phrase,
                matches[k].edit_distance,
            )
    }

    /// What is found in a text comes in the order of its positions. What is found at one position is
    /// what the phrase graph replied to one question, in that order and written out.
    pub proof fn windows_come_in_the_order_of_positions_and_replies(
        &self,
        typed: Seq<Seq<char>>,
        max_word_dist: u8,
        max_phrase_dist: u8,
        ends_in_prefix: bool,
        results: Seq<WindowMatch>,
        start: int,
    )
        requires
            self.may_fuzzy_match_windows(
                typed,
                max_word_dist,
                max_phrase_dist,
                ends_in_prefix,
                Ok(results),
            ),
        ensures
            forall|i: int|
                0 <= i < results.len() ==> 0 <= (#[trigger] results[i]).start_position < typed.len(),
            forall|i: int, j: int|
                0 <= i < j < results.len() ==> (#[trigger] results[i]).start_position <= (
                #[trigger] results[j]).start_position,
            results.filter(|r: WindowMatch| r.start_position == start).len() > 0 ==> exists|
                q: &[Vec<QueryWord>],
                ends: bool,
                reply: Result<Vec<(Vec<QueryWord>, bool)>, E>,
            | #[trigger]
                call_ensures(self.phrase_set.combine_windows, (q, max_phrase_dist, ends), reply)
                    && reply is Ok && self.are_windows(
                    typed,
                    start,
                    laws::marked_in_memory(reply->Ok_0@),
                    results.filter(|r: WindowMatch| r.start_position == start),
                ),
    {
        let d = laws::one_at_most(max_word_dist);
        let answers = choose|answers: Answers| #[trigger]
            self.may_answer_all(typed, d, ends_in_prefix, Ok(answers)) && self.may_search(
                typed,
                max_phrase_dist,
                windows::starts(windows::chunks(answers, ends_in_prefix)),
                Ok(results),
            );
        let places = windows::starts(windows::chunks(answers, ends_in_prefix));
        let found = choose|found: Seq<Seq<(Seq<QueryWord>, bool)>>| #[trigger]
            self.may_find_first(typed, max_phrase_dist, places, found) && found.len()
                == places.len() && results == windows::all_windows(self.words(), typed, places, found);
        substring_laws::lemma_chunks_in_order(answers, ends_in_prefix);
        lemma_windows_in_order(self.words(), typed, places, found, start);
        let here = results.filter(|r: WindowMatch| r.start_position == start);
        window_laws::lemma_starts(windows::chunks(answers, ends_in_prefix));
        assert forall|i: int| 0 <= i < results.len() implies 0 <= (#[trigger] results[i]).start_position
            < typed.len() by {
            let j = lemma_window_place(self.words(), typed, places, found, i);
            assert(window_laws::is_place(
                windows::chunks(answers, ends_in_prefix),
                places[j],
            ));
            self.lemma_place_askable(typed, d, ends_in_prefix, answers, places[j]);
        }
        if here.len() > 0 {
            let j = choose|j: int|
                0 <= j < found.len() && windows::position(#[trigger] places[j]) == start;
            assert(here == windows::windows_from(self.words(), typed, start, found[j]));
            let p = places[j];
            let slots = p.0.slots.skip(p.1);
            assert(self.may_find_at(max_phrase_dist, p, Ok(found[j])));
            let (q, r) = choose|q: &[Vec<QueryWord>], r: Result<Vec<(Vec<QueryWord>, bool)>, E>|
                query::slots_of(q@) == slots && index::windows_of(r) == Ok::<
                    Seq<(Seq<QueryWord>, bool)>,
                    E,
                >(found[j]) && #[trigger] call_ensures(
                    self.phrase_set.combine_windows,
                    (q, max_phrase_dist, p.0.ends_in_prefix),
                    r,
                );
            assert(laws::marked_in_memory(r->Ok_0@) =~= found[j]);
            assert forall|k: int| 0 <= k < here.len() implies is_window(
                self.words(),
                typed,
                start,
                found[j][k],
                #[trigger] here[k],
            ) by {
                combinations_are_written_word_by_word(self.words(), typed, start, found[j][k].0);
            }
            assert(self.are_windows(typed, start, found[j], here));
            assert(call_ensures(
                self.phrase_set.combine_windows,
                (q, max_phrase_dist, p.0.ends_in_prefix),
                r,
            ));
        }
    }

    /// The results are what was found at a position, in that order and written out.
    pub open spec fn are_windows(
        &self,
        typed: Seq<Seq<char>>,
        start: int,
        found: Seq<(Seq<QueryWord>, bool)>,
        results: Seq<WindowMatch>,
    ) -> bool {
        &&& results.len() == found.len()
        &&& forall|k: int|
            0 <= k < results.len() ==> is_window(
                self.words(),
                typed,
                start,
                found[k],
                #[trigger] results[k],
            )
    }
}

/// What all elements are kept of stays as it is.
proof fn lemma_kept<A>(s: Seq<A>, pred: spec_fn(A) -> bool, keep: bool)
    requires
        forall|i: int| 0 <= i < s.len() ==> pred(#[trigger] s[i]) == keep,
    ensures
        s.filter(pred) == if keep {
            s
        } else {
            Seq::empty()
        },
    decreases s.len(),
{
    reveal(Seq::filter);
    if s.len() > 0 {
        lemma_kept(s.drop_last(), pred, keep);
        assert(s =~= s.drop_last().push(s.last()));
        assert(pred(s[s.len() - 1]) == keep);
    } else {
        assert(s =~= Seq::empty());
    }
}

/// What was found at places that come in order comes in order, and what was found at one place is
/// what there is at its position.
proof fn lemma_windows_in_order(
    words: Seq<Seq<char>>,
    typed: Seq<Seq<char>>,
    places: Seq<(windows::Chunk, int)>,
    found: Seq<Seq<(Seq<QueryWord>, bool)>>,
    start: int,
)
    requires
        found.len() <= places.len(),
        forall|j: int, k: int|
            0 <= j < k < places.len() ==> windows::position(#[trigger] places[j]) < windows::position(
                #[trigger] places[k],
            ),
    ensures
        ({
            let results = windows::all_windows(words, typed, places, found);
            let here = results.filter(|r: WindowMatch| r.start_position == start);
            &&& forall|i: int, j: int|
                0 <= i < j < results.len() ==> (#[trigger] results[i]).start_position <= (
                #[trigger] results[j]).start_position
            &&& forall|i: int|
                0 <= i < results.len() ==> found.len() > 0 && (#[trigger] results[i]).start_position
                    <= windows::position(places[found.len() - 1])
            &&& forall|j: int|
                0 <= j < found.len() && windows::position(#[trigger] places[j]) == start ==> here
                    == windows::windows_from(words, typed, start, found[j])
            &&& (forall|j: int|
                0 <= j < found.len() ==> windows::position(#[trigger] places[j]) != start) ==> here
                == Seq::<WindowMatch>::empty()
        }),
    decreases found.len(),
{
    let pred = |r: WindowMatch| r.start_position == start;
    let results = windows::all_windows(words, typed, places, found);
    if found.len() == 0 {
        lemma_kept(results, pred, true);
    } else {
        let front = found.drop_last();
        let last = found.len() - 1;
        let from = windows::position(places[last]);
        let before = windows::all_windows(words, typed, places, front);
        let added = windows::windows_from(words, typed, from, found[last]);
        lemma_windows_in_order(words, typed, places, front, start);
        assert(results == before + added);
        Seq::filter_distributes_over_add(before, added, pred);
        assert forall|i: int| 0 <= i < added.len() implies pred(#[trigger] added[i]) == (from == start) by {}
        lemma_kept(added, pred, from == start);
        if last > 0 {
            assert(windows::position(places[last - 1]) < windows::position(places[last]));
        }
        let a = before.filter(pred);
        let b = added.filter(pred);
        if from == start {
            assert(forall|j: int| 0 <= j < last ==> windows::position(#[trigger] places[j]) < from);
            assert(a + b =~= b);
        } else {
            assert(a + b =~= a);
        }
        assert forall|j: int|
            0 <= j < found.len() && windows::position(#[trigger] places[j]) == start implies results.filter(
            pred,
        ) == windows::windows_from(words, typed, start, found[j]) by {
            if j < last {
                assert(front[j] == found[j]);
                assert(windows::position(places[j]) < windows::position(places[last]));
            }
        }
    }
}

/// What was found was found at one of the places.
proof fn lemma_window_place(
    words: Seq<Seq<char>>,
    typed: Seq<Seq<char>>,
    places: Seq<(windows::Chunk, int)>,
    found: Seq<Seq<(Seq<QueryWord>, bool)>>,
    i: int,
) -> (j: int)
    requires
        0 <= i < windows::all_windows(words, typed, places, found).len(),
    ensures
        0 <= j < found.len(),
        windows::all_windows(words, typed, places, found)[i].start_position == windows::position(
            places[j],
        ),
    decreases found.len(),
{
    let before = windows::all_windows(words, typed, places, found.drop_last());
    if i < before.len() {
        lemma_window_place(words, typed, places, found.drop_last(), i)
    } else {
        found.len() - 1
    }
}

/// A lookup that all the phrases need is one that some phrase needs for one of its words.
proof fn lemma_request_of(inputs: Seq<Input>, r: (Seq<char>, bool)) -> (at: (int, int))
    requires
        multi::requests(inputs).contains(r),
    ensures
        0 <= at.0 < inputs.len(),
        0 <= at.1 < inputs[at.0].0.len(),
        r.0 == inputs[at.0].0[at.1],
        r.1 == (inputs[at.0].1 && at.1 == inputs[at.0].0.len() - 1),
    decreases inputs.len(),
{
    let all = multi::requests(inputs);
    let k = choose|k: int| 0 <= k < all.len() && all[k] == r;
    if inputs.len() == 0 {
        (0, 0)
    } else {
        let front = inputs.drop_last();
        let before = multi::requests(front);
        if k < before.len() {
            assert(before[k] == r);
            assert(before.contains(r));
            let at = lemma_request_of(front, r);
            assert(front[at.0] == inputs[at.0]);
            at
        } else {
            assert(multi::phrase_requests(inputs.last())[k - before.len()] == r);
            (inputs.len() - 1, k - before.len())
        }
    }
}

} // verus!
