//! What the values that the contracts speak of come to in plain terms: texts, ids, orders, plans,
//! and what was read of a directory.
use vstd::prelude::*;
use vstd::utf8;
use crate::builder;
use crate::index;
use crate::laws;
use crate::metadata;
use crate::metadata::FuzzyPhraseSetMetadata;
use crate::multi;
use crate::open;
use crate::open::{Listing, OpenError};
use crate::order;
use crate::order::Ordered;
use crate::query;
use crate::query::{FuzzyMapLookupResult, QueryWord};
use crate::script;
use crate::script::{ScriptPattern, ScriptTable};
use crate::search;
use crate::search::{FuzzyMatchResult, FuzzyPhraseSet, Match, SearchError};
use crate::text;
use crate::windows;
use crate::windows::FuzzyWindowResult;

verus! {

broadcast use vstd::seq_lib::group_to_multiset_ensures;

/// Words are their characters, all of them and in their order, whether borrowed or owned.
pub proof fn words_are_their_characters(borrowed: Seq<&str>, owned: Seq<String>)
    ensures
        text::texts(borrowed).len() == borrowed.len(),
        forall|i: int| 0 <= i < borrowed.len() ==> #[trigger] text::texts(borrowed)[i] == borrowed[i]@,
        text::texts(owned).len() == owned.len(),
        forall|i: int| 0 <= i < owned.len() ==> #[trigger] text::texts(owned)[i] == owned[i]@,
{
}

/// The phrases that are asked for are the words of each, with its flag.
pub proof fn inputs_are_the_phrases(borrowed: Seq<(&[&str], bool)>, owned: Seq<(&[String], bool)>)
    ensures
        multi::inputs_of(borrowed).len() == borrowed.len(),
        forall|i: int|
            0 <= i < borrowed.len() ==> {
                let input = #[trigger] multi::inputs_of(borrowed)[i];
                &&& input.0.len() == borrowed[i].0@.len()
                &&& forall|j: int| 0 <= j < input.0.len() ==> #[trigger] input.0[j] == borrowed[i].0@[j]@
                &&& input.1 == borrowed[i].1
            },
        multi::inputs_of(owned).len() == owned.len(),
        forall|i: int|
            0 <= i < owned.len() ==> {
                let input = #[trigger] multi::inputs_of(owned)[i];
                &&& input.0.len() == owned[i].0@.len()
                &&& forall|j: int| 0 <= j < input.0.len() ==> #[trigger] input.0[j] == owned[i].0@[j]@
                &&& input.1 == owned[i].1
            },
{
}

/// A result in memory gives a found phrase, word by word, and its edits.
pub open spec fn gives(result: FuzzyMatchResult, m: Match) -> bool {
    &&& m.phrase.len() == result.phrase@.len()
    &&& forall|i: int| 0 <= i < m.phrase.len() ==> #[trigger] m.phrase[i] == result.phrase@[i]@
    &&& m.edit_distance == result.edit_distance
}

/// Results in memory give the found phrases one by one, and errors are what they are.
pub proof fn results_give_what_was_found<E>(
    outcome: Result<Vec<FuzzyMatchResult>, SearchError<E>>,
    lists: Result<Vec<Vec<FuzzyMatchResult>>, SearchError<E>>,
)
    ensures
        match (outcome, search::seen(outcome)) {
            (Ok(v), Ok(matches)) => v@.len() == matches.len() && forall|i: int|
                0 <= i < matches.len() ==> gives(v@[i], #[trigger] matches[i]),
            (Err(e), Err(seen)) => e == seen,
            _ => false,
        },
        match (lists, multi::seen(lists)) {
            (Ok(v), Ok(seen)) => v@.len() == seen.len() && forall|k: int|
                0 <= k < seen.len() ==> v@[k]@.len() == (#[trigger] seen[k]).len() && forall|i: int|
                    0 <= i < seen[k].len() ==> gives(v@[k]@[i], #[trigger] seen[k][i]),
            (Err(e), Err(seen)) => e == seen,
            _ => false,
        },
{
}

/// Windows in memory give the found phrases one by one, with their places and marks.
pub proof fn windows_give_what_was_found<E>(
    outcome: Result<Vec<FuzzyWindowResult>, SearchError<E>>,
)
    ensures
        match (outcome, windows::seen(outcome)) {
            (Ok(v), Ok(found)) => v@.len() == found.len() && forall|i: int|
                0 <= i < found.len() ==> {
                    let w = #[trigger] found[i];
                    &&& w.phrase.len() == v@[i].phrase@.len()
                    &&& forall|j: int|
                        0 <= j < w.phrase.len() ==> #[trigger] w.phrase[j] == v@[i].phrase@[j]@
                    &&& w.edit_distance == v@[i].edit_distance
                    &&& w.start_position == v@[i].start_position
                    &&& w.ends_in_prefix == v@[i].ends_in_prefix
                },
            (Err(e), Err(seen)) => e == seen,
            _ => false,
        },
{
}

/// What is held in memory of query words is what it is: slots, combinations, windows, hits and
/// answers are taken one by one, and errors are what they are.
pub proof fn replies_are_what_they_hold<E>(
    slots: Seq<Vec<QueryWord>>,
    combinations: Result<Vec<Vec<QueryWord>>, E>,
    marked: Result<Vec<(Vec<QueryWord>, bool)>, E>,
    hits: Result<Vec<FuzzyMapLookupResult>, E>,
    answer: Result<Option<Vec<QueryWord>>, E>,
    answers: Seq<Option<Vec<QueryWord>>>,
)
    ensures
        query::slots_of(slots) == laws::in_memory(slots),
        match combinations {
            Ok(v) => index::combinations_of(combinations) == Ok::<Seq<Seq<QueryWord>>, E>(
                laws::in_memory(v@),
            ),
            Err(e) => index::combinations_of(combinations) == Err::<Seq<Seq<QueryWord>>, E>(e),
        },
        match marked {
            Ok(v) => index::windows_of(marked) == Ok::<Seq<(Seq<QueryWord>, bool)>, E>(
                laws::marked_in_memory(v@),
            ),
            Err(e) => index::windows_of(marked) == Err::<Seq<(Seq<QueryWord>, bool)>, E>(e),
        },
        match hits {
            Ok(v) => index::hits_of(hits) == Ok::<Seq<FuzzyMapLookupResult>, E>(v@),
            Err(e) => index::hits_of(hits) == Err::<Seq<FuzzyMapLookupResult>, E>(e),
        },
        match answer {
            Ok(Some(v)) => search::answer_of(answer) == Ok::<Option<Seq<QueryWord>>, E>(Some(v@)),
            Ok(None) => search::answer_of(answer) == Ok::<Option<Seq<QueryWord>>, E>(None),
            Err(e) => search::answer_of(answer) == Err::<Option<Seq<QueryWord>>, E>(e),
        },
        windows::answers_of(answers).len() == answers.len(),
        forall|i: int|
            0 <= i < answers.len() ==> match answers[i] {
                Some(v) => #[trigger] windows::answers_of(answers)[i] == Some(v@),
                None => windows::answers_of(answers)[i] is None,
            },
{
    assert(query::slots_of(slots) =~= laws::in_memory(slots));
    if let Ok(v) = combinations {
        assert(query::slots_of(v@) =~= laws::in_memory(v@));
    }
    if let Ok(v) = marked {
        assert(index::flagged(v@) =~= laws::marked_in_memory(v@));
    }
}

/// Stretches in memory are the stretches of a text: they begin where they begin, end in a prefix
/// if they do, and hold their slots.
pub proof fn stretches_are_what_they_hold(subqueries: Seq<windows::Subquery>, i: int)
    requires
        0 <= i < subqueries.len(),
    ensures
        windows::chunks_of(subqueries).len() == subqueries.len(),
        windows::chunks_of(subqueries)[i].start == subqueries[i].start_position,
        windows::chunks_of(subqueries)[i].ends_in_prefix == subqueries[i].ends_in_prefix,
        windows::chunks_of(subqueries)[i].slots == laws::in_memory(
            subqueries[i].word_possibilities@,
        ),
{
    assert(windows::chunks_of(subqueries)[i].slots =~= laws::in_memory(
        subqueries[i].word_possibilities@,
    ));
}

/// Groups of positions stand for the phrases at these positions.
pub proof fn groups_are_positions(inputs: Seq<multi::Input>, groups: Seq<Vec<usize>>, g: int, k: int)
    requires
        0 <= g < groups.len(),
        0 <= k < groups[g]@.len(),
    ensures
        multi::groups_entries(inputs, groups).len() == groups.len(),
        multi::groups_entries(inputs, groups)[g].len() == groups[g]@.len(),
        multi::groups_entries(inputs, groups)[g][k] == (
            inputs[groups[g]@[k] as int].0,
            inputs[groups[g]@[k] as int].1,
            groups[g]@[k] as int,
        ),
{
}

/// The words of a set are those of its list.
pub proof fn a_set_knows_its_word_list<G, R, L, C, P, M, N, W, E>(
    set: &FuzzyPhraseSet<G, R, L, C, P, M, N, W>,
) where
    G: Fn(&str) -> Option<u64>,
    R: Fn(&str) -> Option<(u64, u64)>,
    L: Fn(&str, u8, &Vec<String>) -> Result<Vec<FuzzyMapLookupResult>, E>,
    C: Fn(&Vec<QueryWord>) -> Result<bool, E>,
    P: Fn(&Vec<QueryWord>) -> Result<bool, E>,
    M: Fn(&Vec<Vec<QueryWord>>, u8) -> Result<Vec<Vec<QueryWord>>, E>,
    N: Fn(&Vec<Vec<QueryWord>>, u8) -> Result<Vec<Vec<QueryWord>>, E>,
    W: Fn(&[Vec<QueryWord>], u8, bool) -> Result<Vec<(Vec<QueryWord>, bool)>, E>,

    ensures
        set.words().len() == set.word_list@.len(),
        forall|i: int| 0 <= i < set.words().len() ==> #[trigger] set.words()[i] == set.word_list@[i]@,
{
}

/// A set can be searched if its lookups can be called with anything.
pub proof fn a_set_asks_for_nothing_else<G, R, L, C, P, M, N, W, E>(
    set: &FuzzyPhraseSet<G, R, L, C, P, M, N, W>,
) where
    G: Fn(&str) -> Option<u64>,
    R: Fn(&str) -> Option<(u64, u64)>,
    L: Fn(&str, u8, &Vec<String>) -> Result<Vec<FuzzyMapLookupResult>, E>,
    C: Fn(&Vec<QueryWord>) -> Result<bool, E>,
    P: Fn(&Vec<QueryWord>) -> Result<bool, E>,
    M: Fn(&Vec<Vec<QueryWord>>, u8) -> Result<Vec<Vec<QueryWord>>, E>,
    N: Fn(&Vec<Vec<QueryWord>>, u8) -> Result<Vec<Vec<QueryWord>>, E>,
    W: Fn(&[Vec<QueryWord>], u8, bool) -> Result<Vec<(Vec<QueryWord>, bool)>, E>,

    requires
        forall|w: &str| #[trigger] call_requires(set.prefix_set.id_of, (w,)),
        forall|w: &str| #[trigger] call_requires(set.prefix_set.range_of, (w,)),
        forall|w: &str, d: u8, list: &Vec<String>| #[trigger]
            call_requires(set.fuzzy_map.find, (w, d, list)),
        forall|q: &Vec<QueryWord>| #[trigger] call_requires(set.phrase_set.holds, (q,)),
        forall|q: &Vec<QueryWord>| #[trigger] call_requires(set.phrase_set.holds_prefix, (q,)),
        forall|q: &Vec<Vec<QueryWord>>, d: u8| #[trigger]
            call_requires(set.phrase_set.combine, (q, d)),
        forall|q: &Vec<Vec<QueryWord>>, d: u8| #[trigger]
            call_requires(set.phrase_set.combine_prefixes, (q, d)),
        forall|q: &[Vec<QueryWord>], d: u8, b: bool| #[trigger]
            call_requires(set.phrase_set.combine_windows, (q, d, b)),
    ensures
        set.callable(),
{
}

/// A table of scripts can be asked if its lookups can be called with anything.
pub proof fn a_script_table_asks_for_nothing_else<Q, B, S>(scripts: &ScriptTable<Q, B>) where
    Q: Fn(&str) -> Option<S>,
    B: Fn(&Vec<S>) -> String,

    requires
        forall|n: &str| #[trigger] call_requires(scripts.by_name, (n,)),
        forall|v: &Vec<S>| #[trigger] call_requires(scripts.pattern_for, (v,)),
    ensures
        scripts.callable(),
{
}

/// What differs first decides the lexicographic order, and what ends first comes first.
proof fn lemma_lex<T>(lt: spec_fn(T, T) -> bool, start: Seq<T>, x: T, a: Seq<T>, y: T, b: Seq<T>)
    ensures
        lt(x, y) ==> order::lex(lt)(start.push(x) + a, start.push(y) + b),
        order::lex(lt)(start, start.push(y) + b),
{
    let k = start.len() as int;
    let left = start.push(x) + a;
    let right = start.push(y) + b;
    assert(left.take(k) =~= start);
    assert(right.take(k) =~= start);
    assert(start.take(k) =~= start);
    if lt(x, y) {
        assert(order::precedes_at(lt, left, right, k));
    }
    assert(order::precedes_at(lt, start, right, k));
}

/// Words are ordered by the code point of the first character in which they differ, and a word
/// comes before those that it begins. The order is strict and total, so that settles it.
pub proof fn words_are_ordered_by_code_point(
    start: Seq<char>,
    x: char,
    a: Seq<char>,
    y: char,
    b: Seq<char>,
)
    ensures
        (x as u32) < (y as u32) ==> order::text_order()(start.push(x) + a, start.push(y) + b),
        order::text_order()(start, start.push(y) + b),
        order::is_strict_order(order::text_order()),
{
    order::text_order_is_strict();
    lemma_lex(order::char_order(), start, x, a, y, b);
}

/// Phrases are ordered by the first word in which they differ, and a phrase comes before those that
/// it begins. The order is strict and total, so that settles it.
pub proof fn phrases_are_ordered_by_words(
    start: Seq<Seq<char>>,
    x: Seq<char>,
    a: Seq<Seq<char>>,
    y: Seq<char>,
    b: Seq<Seq<char>>,
)
    ensures
        order::text_order()(x, y) ==> order::words_order()(start.push(x) + a, start.push(y) + b),
        order::words_order()(start, start.push(y) + b),
        order::is_strict_order(order::words_order()),
{
    order::words_order_is_strict();
    lemma_lex(order::text_order(), start, x, a, y, b);
}

/// Lists of ids are ordered by the first id in which they differ, and a list comes before those
/// that it begins. The order is strict and total, so that settles it.
pub proof fn phrases_are_ordered_by_ids(
    start: Seq<u32>,
    x: u32,
    a: Seq<u32>,
    y: u32,
    b: Seq<u32>,
)
    ensures
        x < y ==> order::ids_order()(start.push(x) + a, start.push(y) + b),
        order::ids_order()(start, start.push(y) + b),
        order::is_strict_order(order::ids_order()),
{
    order::ids_order_is_strict();
    lemma_lex(order::id_order(), start, x, a, y, b);
}

/// Lists of ids that are held in memory.
pub open spec fn listed(lists: Seq<Vec<u32>>) -> Seq<Seq<u32>> {
    Seq::new(lists.len(), |i: int| lists[i]@)
}

/// Sorting puts lists of ids in order, without losing or adding any.
pub proof fn sorting_puts_in_order(before: Seq<Vec<u32>>, after: Seq<Vec<u32>>)
    requires
        order::sorted(<Vec<u32> as Ordered>::order(), order::keys(after)),
        order::keys(after).to_multiset() == order::keys(before).to_multiset(),
    ensures
        before.len() == after.len(),
        forall|i: int, j: int|
            0 <= i < j < after.len() ==> (#[trigger] after[i])@ == (#[trigger] after[j])@
                || order::ids_order()(after[i]@, after[j]@),
        listed(before).to_multiset() == listed(after).to_multiset(),
{
    order::ids_order_is_strict();
    let x = order::keys(before);
    let y = order::keys(after);
    assert(x.len() == x.to_multiset().len());
    assert(y.len() == y.to_multiset().len());
    assert forall|i: int, j: int| 0 <= i < j < after.len() implies (#[trigger] after[i])@ == (
    #[trigger] after[j])@ || order::ids_order()(after[i]@, after[j]@) by {
        assert(!order::ids_order()(y[j], y[i]));
        assert(order::ids_order()(y[i], y[j]) || y[i] == y[j] || order::ids_order()(y[j], y[i]));
    }
    assert(listed(before) =~= x);
    assert(listed(after) =~= y);
}

/// There are as many ids as there are numbers of 32 bits.
pub proof fn ids_are_the_numbers_of_32_bits()
    ensures
        builder::ID_COUNT == u32::MAX + 1,
{
}

/// The phrases that lists of ids in memory stand for.
pub open spec fn read_out(words: Seq<String>, phrases: Seq<Vec<u32>>) -> Seq<Seq<Seq<char>>> {
    Seq::new(
        phrases.len(),
        |k: int| Seq::new(phrases[k]@.len(), |i: int| words[phrases[k]@[i] as int]@),
    )
}

/// A word is in a list.
pub open spec fn is_listed(words: Seq<String>, word: Seq<char>) -> bool {
    exists|i: int| 0 <= i < words.len() && (#[trigger] words[i])@ == word
}

/// A word stands in a phrase that was inserted.
pub open spec fn was_inserted(inserted: Seq<Seq<Seq<char>>>, word: Seq<char>) -> bool {
    exists|k: int, m: int|
        0 <= k < inserted.len() && 0 <= m < inserted[k].len() && #[trigger] inserted[k][m] == word
}

/// A plan lays out what was inserted. Its words are those that occur, all different and in
/// alphabetical order. Its phrases are in the order of their ids, which are all below the number of
/// words; read out, they are the phrases that were inserted, each as often as it was.
pub proof fn a_plan_lays_out_what_was_inserted(
    inserted: Seq<Seq<Seq<char>>>,
    words: Seq<String>,
    phrases: Seq<Vec<u32>>,
)
    requires
        builder::lays_out(inserted, text::texts(words), builder::ids_of(phrases)),
    ensures
        forall|i: int, j: int|
            0 <= i < j < words.len() ==> order::text_order()(
                (#[trigger] words[i])@,
                (#[trigger] words[j])@,
            ),
        forall|word: Seq<char>| #[trigger] is_listed(words, word) <==> was_inserted(inserted, word),
        forall|k: int, m: int|
            0 <= k < phrases.len() && 0 <= m < phrases[k]@.len() ==> #[trigger] phrases[k]@[m]
                < words.len(),
        forall|i: int, j: int|
            0 <= i < j < phrases.len() ==> (#[trigger] phrases[i])@ == (#[trigger] phrases[j])@
                || order::ids_order()(phrases[i]@, phrases[j]@),
        read_out(words, phrases).to_multiset() == inserted.to_multiset(),
{
    let texts = text::texts(words);
    let ids = builder::ids_of(phrases);
    order::ids_order_is_strict();
    assert forall|i: int, j: int| 0 <= i < j < words.len() implies order::text_order()(
        (#[trigger] words[i])@,
        (#[trigger] words[j])@,
    ) by {
        assert(order::text_order()(texts[i], texts[j]));
    }
    assert forall|word: Seq<char>| #[trigger] is_listed(words, word) <==> was_inserted(inserted, word) by {
        if is_listed(words, word) {
            let i = choose|i: int| 0 <= i < words.len() && (#[trigger] words[i])@ == word;
            assert(texts[i] == word);
            assert(texts.contains(word));
            assert(builder::occurs(inserted, word));
            let k = choose|k: int| 0 <= k < inserted.len() && (#[trigger] inserted[k]).contains(word);
            let m = choose|m: int| 0 <= m < inserted[k].len() && inserted[k][m] == word;
            assert(inserted[k][m] == word);
        }
        if was_inserted(inserted, word) {
            let (k, m) = choose|k: int, m: int|
                0 <= k < inserted.len() && 0 <= m < inserted[k].len() && #[trigger] inserted[k][m]
                    == word;
            assert(inserted[k].contains(word));
            assert(builder::occurs(inserted, word));
            assert(texts.contains(word));
            let i = choose|i: int| 0 <= i < texts.len() && texts[i] == word;
            assert(words[i]@ == word);
        }
    }
    assert forall|k: int, m: int|
        0 <= k < phrases.len() && 0 <= m < phrases[k]@.len() implies #[trigger] phrases[k]@[m]
        < words.len() by {
        assert(ids[k][m] < texts.len());
    }
    assert forall|i: int, j: int| 0 <= i < j < phrases.len() implies (#[trigger] phrases[i])@ == (
    #[trigger] phrases[j])@ || order::ids_order()(phrases[i]@, phrases[j]@) by {
        assert(!order::ids_order()(ids[j], ids[i]));
        assert(order::ids_order()(ids[i], ids[j]) || ids[i] == ids[j] || order::ids_order()(
            ids[j],
            ids[i],
        ));
    }
    let all = builder::decoded_all(texts, ids);
    assert forall|k: int| 0 <= k < phrases.len() implies #[trigger] read_out(words, phrases)[k] == all[k] by {
        assert forall|i: int| 0 <= i < phrases[k]@.len() implies #[trigger] read_out(words, phrases)[k][i]
            == all[k][i] by {
            assert(ids[k][i] < texts.len());
        }
        assert(read_out(words, phrases)[k] =~= all[k]);
    }
    assert(read_out(words, phrases) =~= all);
}

/// New words are numbered behind the known ones, in the order in which they are first seen: all
/// that is seen is numbered, nothing else and nothing twice, and what is seen sooner is numbered
/// no matter what is seen later.
pub proof fn words_are_numbered_as_they_are_first_seen(
    known: Seq<Seq<char>>,
    words: Seq<Seq<char>>,
    n: int,
)
    requires
        known.no_duplicates(),
        0 <= n <= words.len(),
    ensures
        builder::interned_with(known, words).no_duplicates(),
        forall|w: Seq<char>| #[trigger]
            builder::interned_with(known, words).contains(w) <==> known.contains(w) || words.contains(
                w,
            ),
        builder::interned_with(known, words.take(n)).is_prefix_of(
            builder::interned_with(known, words),
        ),
        known.is_prefix_of(builder::interned_with(known, words)),
    decreases words.len(),
{
    let all = builder::interned_with(known, words);
    if words.len() > 0 {
        let front = words.drop_last();
        let last = words.last();
        let before = builder::interned_with(known, front);
        let m = if n < words.len() { n } else { n - 1 };
        words_are_numbered_as_they_are_first_seen(known, front, m);
        assert forall|w: Seq<char>| #[trigger] all.contains(w) <==> known.contains(w) || words.contains(w) by {
            assert(before.contains(w) <==> known.contains(w) || front.contains(w));
            if front.contains(w) {
                let k = choose|k: int| 0 <= k < front.len() && front[k] == w;
                assert(words[k] == w);
            }
            if words.contains(w) && w != last {
                let k = choose|k: int| 0 <= k < words.len() && words[k] == w;
                assert(front[k] == w);
            }
            assert(words[words.len() - 1] == last);
            if !before.contains(last) {
                if before.contains(w) {
                    let k = choose|k: int| 0 <= k < before.len() && before[k] == w;
                    assert(all[k] == w);
                }
                assert(all[before.len() as int] == last);
                if all.contains(w) && w != last {
                    let k = choose|k: int| 0 <= k < all.len() && all[k] == w;
                    assert(before[k] == w);
                }
            }
        }
        if n < words.len() {
            assert(front.take(n) =~= words.take(n));
        } else {
            assert(words.take(n) =~= words);
        }
    } else {
        assert(words.take(n) =~= words);
    }
}

/// The temporary ids of words are their places among the words that have one.
pub proof fn temporary_ids_are_places(interned: Seq<Seq<char>>, words: Seq<Seq<char>>, i: int)
    requires
        0 <= i < words.len(),
        interned.contains(words[i]),
        interned.len() <= u32::MAX + 1,
    ensures
        builder::tmpids_of(interned, words).len() == words.len(),
        builder::tmpids_of(interned, words)[i] < interned.len(),
        interned[builder::tmpids_of(interned, words)[i] as int] == words[i],
{
    assert(interned[interned.index_of(words[i])] == words[i]);
}

/// The ids that are planned for the fuzzy index ascend, and are those of the words that the pattern
/// accepts.
pub proof fn fuzzy_ids_ascend(pattern: &ScriptPattern, words: Seq<Seq<char>>)
    requires
        words.len() <= u32::MAX + 1,
    ensures
        forall|i: int, j: int|
            0 <= i < j < builder::accepted_ids(pattern, words).len() ==> #[trigger] builder::accepted_ids(
                pattern,
                words,
            )[i] < #[trigger] builder::accepted_ids(pattern, words)[j],
        forall|id: u32| #[trigger]
            builder::accepted_ids(pattern, words).contains(id) <==> id < words.len()
                && pattern.accepts(words[id as int]),
    decreases words.len(),
{
    let now = builder::accepted_ids(pattern, words);
    assert forall|id: u32| #[trigger] now.contains(id) <==> id < words.len() && pattern.accepts(
        words[id as int],
    ) by {
        laws::lemma_accepted_ids(pattern, words, id);
    }
    if words.len() > 0 {
        let front = words.drop_last();
        let before = builder::accepted_ids(pattern, front);
        fuzzy_ids_ascend(pattern, front);
        assert forall|i: int, j: int| 0 <= i < j < now.len() implies #[trigger] now[i] < #[trigger] now[j] by {
            if j < before.len() {
                assert(before[i] < before[j]);
            } else {
                assert(before.contains(before[i]));
                assert(now[i] == before[i]);
            }
        }
    }
}

/// A plan has for the fuzzy index the words in the scripts Latin, Greek and Cyrillic, and no others:
/// those that the text that describes just these three accepts. A set that is opened with the same
/// table can fuzzy match just such words, too.
pub proof fn latin_greek_and_cyrillic_are_enabled<Q, B, S>(
    scripts: &ScriptTable<Q, B>,
    named: spec_fn(Seq<char>) -> Option<S>,
    described: spec_fn(Seq<S>) -> Seq<char>,
    pattern: ScriptPattern,
    words: Seq<Seq<char>>,
) where Q: Fn(&str) -> Option<S>, B: Fn(&Vec<S>) -> String
    requires
        scripts.goes_by(named, described),
        scripts.may_compile(metadata::current().fuzzy_enabled_scripts, Ok(pattern)),
        words.len() <= u32::MAX + 1,
    ensures
        ({
            let enabled = described(
                seq![
                    named("Latin"@)->Some_0,
                    named("Greek"@)->Some_0,
                    named("Cyrillic"@)->Some_0,
                ],
            );
            &&& forall|word: Seq<char>| #[trigger]
                pattern.accepts(word) == script::pattern_accepts(enabled, word)
            &&& forall|id: u32| #[trigger]
                builder::accepted_ids(&pattern, words).contains(id) <==> id < words.len()
                    && script::pattern_accepts(enabled, words[id as int])
        }),
{
    let names = metadata::current().fuzzy_enabled_scripts;
    scripts.a_pattern_is_that_of_the_named_scripts(named, described, names, Ok(pattern));
    assert(Seq::new(names.len(), |i: int| named(names[i])->Some_0) =~= seq![
        named("Latin"@)->Some_0,
        named("Greek"@)->Some_0,
        named("Cyrillic"@)->Some_0,
    ]);
    fuzzy_ids_ascend(&pattern, words);
}

/// Two descriptions of indexes are the same just if all their parts are: the kind, the version, and
/// the scripts, in number, order and name.
pub proof fn descriptions_are_their_parts(a: FuzzyPhraseSetMetadata, b: FuzzyPhraseSetMetadata)
    ensures
        a@ == b@ <==> {
            &&& a.index_type@ == b.index_type@
            &&& a.format_version == b.format_version
            &&& a.fuzzy_enabled_scripts@.len() == b.fuzzy_enabled_scripts@.len()
            &&& forall|i: int|
                0 <= i < a.fuzzy_enabled_scripts@.len() ==> (#[trigger] a.fuzzy_enabled_scripts@[i])@
                    == b.fuzzy_enabled_scripts@[i]@
        },
{
    let x = a@.fuzzy_enabled_scripts;
    let y = b@.fuzzy_enabled_scripts;
    assert(forall|i: int|
        0 <= i < a.fuzzy_enabled_scripts@.len() ==> (#[trigger] a.fuzzy_enabled_scripts@[i])@ == x[i]);
    assert(forall|i: int|
        0 <= i < b.fuzzy_enabled_scripts@.len() ==> (#[trigger] b.fuzzy_enabled_scripts@[i])@ == y[i]);
    assert(x.len() == a.fuzzy_enabled_scripts@.len());
    assert(y.len() == b.fuzzy_enabled_scripts@.len());
    if a@ == b@ {
        assert forall|i: int| 0 <= i < a.fuzzy_enabled_scripts@.len() implies (
        #[trigger] a.fuzzy_enabled_scripts@[i])@ == b.fuzzy_enabled_scripts@[i]@ by {
            assert(b.fuzzy_enabled_scripts@[i]@ == y[i]);
        }
    }
    if a.fuzzy_enabled_scripts@.len() == b.fuzzy_enabled_scripts@.len() && forall|i: int|
        0 <= i < a.fuzzy_enabled_scripts@.len() ==> (#[trigger] a.fuzzy_enabled_scripts@[i])@
            == b.fuzzy_enabled_scripts@[i]@ {
        assert(x =~= y);
    }
}

/// The metadata of this library.
pub proof fn current_metadata_are_these(m: FuzzyPhraseSetMetadata)
    requires
        m@ == metadata::current(),
    ensures
        m.index_type@ == "fuzzy_phrase_set"@,
        m.format_version == 1,
        m.fuzzy_enabled_scripts@.len() == 3,
        m.fuzzy_enabled_scripts@[0]@ == "Latin"@,
        m.fuzzy_enabled_scripts@[1]@ == "Greek"@,
        m.fuzzy_enabled_scripts@[2]@ == "Cyrillic"@,
{
    let names = m@.fuzzy_enabled_scripts;
    assert(names.len() == 3);
    assert(names[0] == m.fuzzy_enabled_scripts@[0]@);
    assert(names[1] == m.fuzzy_enabled_scripts@[1]@);
    assert(names[2] == m.fuzzy_enabled_scripts@[2]@);
}

/// What is wrong before the indexes are looked at: each error comes just in its case, and none
/// where there is a directory with metadata that are those of this library.
pub proof fn a_foreign_directory_is_refused<E>(
    listing: Listing,
    read: Result<FuzzyPhraseSetMetadata, E>,
)
    ensures
        ({
            let error = open::first_error(listing, open::described_by(read));
            let there = listing.is_there && listing.is_dir;
            match error {
                Some(OpenError::NotADirectory) => !there,
                Some(OpenError::Read(e)) => there && read is Err && read->Err_0 == e,
                Some(OpenError::UnexpectedMetadata) => there && read is Ok && read->Ok_0@
                    != metadata::current(),
                Some(_) => false,
                None => there && read is Ok && read->Ok_0@ == metadata::current(),
            }
        }),
{
}

/// The words of an index are text up to a certain one.
pub open spec fn is_text_up_to(words: Seq<Vec<u8>>, n: int) -> bool {
    forall|i: int| 0 <= i < n ==> utf8::valid_utf8((#[trigger] words[i])@)
}

/// What is wrong with the indexes: each error comes just in its case, in the order in which the
/// indexes are looked at, and none where all are there, could be read, and hold text.
pub proof fn a_broken_directory_is_refused<A, P, F, E>(
    listing: Listing,
    prefix_set: Result<(A, Vec<Vec<u8>>), E>,
    phrase_set: Result<P, E>,
    fuzzy_map: Result<F, E>,
)
    ensures
        ({
            let error = open::last_error(
                listing,
                open::words_read(prefix_set),
                open::whether_read(phrase_set),
                open::whether_read(fuzzy_map),
            );
            let words = prefix_set->Ok_0.1@;
            let has_words = listing.has_prefix_set && prefix_set is Ok && is_text_up_to(
                words,
                words.len() as int,
            );
            match error {
                Some(OpenError::NoPrefixSet) => !listing.has_prefix_set,
                Some(OpenError::NotText(i)) => listing.has_prefix_set && prefix_set is Ok && i
                    < words.len() && is_text_up_to(words, i as int) && !utf8::valid_utf8(
                    words[i as int]@,
                ),
                Some(OpenError::NoPhraseSet) => has_words && !listing.has_phrase_set,
                Some(OpenError::Read(e)) => {
                    ||| listing.has_prefix_set && prefix_set is Err && prefix_set->Err_0 == e
                    ||| has_words && listing.has_phrase_set && phrase_set is Err && phrase_set->Err_0
                        == e
                    ||| has_words && listing.has_phrase_set && phrase_set is Ok && fuzzy_map is Err
                        && fuzzy_map->Err_0 == e
                },
                Some(_) => false,
                None => has_words && listing.has_phrase_set && phrase_set is Ok && fuzzy_map is Ok,
            }
        }),
{
    let words = prefix_set->Ok_0.1@;
    let bytes = open::bytes_of(words);
    assert(bytes.len() == words.len());
    assert forall|i: int| 0 <= i < words.len() implies #[trigger] bytes[i] == words[i]@ by {}
    assert(open::all_text(bytes) <==> is_text_up_to(words, words.len() as int)) by {
        if open::all_text(bytes) {
            assert forall|i: int| 0 <= i < words.len() implies utf8::valid_utf8((#[trigger] words[i])@) by {
                assert(utf8::valid_utf8(bytes[i]));
            }
        }
        if is_text_up_to(words, words.len() as int) {
            assert forall|i: int| 0 <= i < bytes.len() implies utf8::valid_utf8(#[trigger] bytes[i]) by {
                assert(utf8::valid_utf8(words[i]@));
            }
        }
    }
    assert forall|i: int| 0 <= i < words.len() implies (#[trigger] is_text_up_to(words, i)
        && !utf8::valid_utf8(words[i]@) <==> open::is_first_not_text(bytes, i)) by {
        if is_text_up_to(words, i) && !utf8::valid_utf8(words[i]@) {
            assert forall|j: int| 0 <= j < i implies utf8::valid_utf8(#[trigger] bytes[j]) by {
                assert(utf8::valid_utf8(words[j]@));
            }
        }
        if open::is_first_not_text(bytes, i) {
            assert forall|j: int| 0 <= j < i implies utf8::valid_utf8((#[trigger] words[j])@) by {
                assert(utf8::valid_utf8(bytes[j]));
            }
        }
    }
    if prefix_set is Ok && !open::all_text(bytes) {
        let first = open::first_not_text(bytes);
        lemma_first_not_text(bytes);
        assert(open::is_first_not_text(bytes, first));
        assert(is_text_up_to(words, first));
        assert(prefix_set->Ok_0.1.len() == words.len());
    }
}

/// Where not all words are text, there is a first that is not.
proof fn lemma_first_not_text(words: Seq<Seq<u8>>)
    requires
        !open::all_text(words),
    ensures
        open::is_first_not_text(words, open::first_not_text(words)),
{
    let i = choose|i: int| 0 <= i < words.len() && !utf8::valid_utf8(#[trigger] words[i]);
    lemma_first_not_text_before(words, i);
}

/// Up to a word that is not text, there is a first that is not.
proof fn lemma_first_not_text_before(words: Seq<Seq<u8>>, i: int)
    requires
        0 <= i < words.len(),
        !utf8::valid_utf8(words[i]),
    ensures
        exists|j: int| open::is_first_not_text(words, j),
    decreases i,
{
    if exists|j: int| 0 <= j < i && !utf8::valid_utf8(#[trigger] words[j]) {
        let j = choose|j: int| 0 <= j < i && !utf8::valid_utf8(#[trigger] words[j]);
        lemma_first_not_text_before(words, j);
    } else {
        assert(open::is_first_not_text(words, i));
    }
}

/// The words of an index are decoded one by one.
pub proof fn words_are_decoded_one_by_one(words: Seq<Vec<u8>>)
    ensures
        open::texts_of(open::bytes_of(words)).len() == words.len(),
        forall|i: int|
            0 <= i < words.len() ==> #[trigger] open::texts_of(open::bytes_of(words))[i]
                == utf8::decode_utf8(words[i]@),
{
}

} // verus!
