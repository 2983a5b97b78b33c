//! What holds of a phrase set as a whole.
//!
//! A phrase set is only as good as its indexes. Here is stated what indexes have to reply so as to
//! hold the words and phrases that a builder laid out, and what the searches then come to.
use vstd::prelude::*;
use crate::builder;
use crate::index;
use crate::index::{FuzzyMap, PhraseSet, PrefixSet};
use crate::metadata;
use crate::order;
use crate::query;
use crate::query::{FuzzyMapLookupResult, QueryWord};
use crate::script::{ScriptPattern, ScriptTable};
use crate::search::FuzzyPhraseSet;
use crate::text;

verus! {

/// A number of edits that lead from one word to another.
pub type Distance = spec_fn(Seq<char>, Seq<char>) -> nat;

/// No edits lead just from a word to itself.
pub open spec fn is_distance(dist: Distance) -> bool {
    forall|a: Seq<char>, b: Seq<char>| #[trigger] dist(a, b) == 0 <==> a == b
}

/// The number of edits in a word that a search goes by: as many as are allowed, but one at most.
pub open spec fn one_at_most(max_word_dist: u8) -> u8 {
    if max_word_dist == 0 {
        0
    } else {
        1
    }
}

/// `word` starts with `start`.
pub open spec fn starts_with(word: Seq<char>, start: Seq<char>) -> bool {
    start.len() <= word.len() && word.take(start.len() as int) == start
}

/// `typed` is how someone begins to type `phrase`: all words but the last are complete, and the
/// last is the start of a word.
pub open spec fn begins(typed: Seq<Seq<char>>, phrase: Seq<Seq<char>>) -> bool {
    &&& typed.len() <= phrase.len()
    &&& forall|i: int| 0 <= i < typed.len() - 1 ==> typed[i] == #[trigger] phrase[i]
    &&& typed.len() > 0 ==> starts_with(phrase[typed.len() - 1], typed.last())
}

/// `typed` begins one of some phrases.
pub open spec fn begins_one(typed: Seq<Seq<char>>, phrases: Seq<Seq<Seq<char>>>) -> bool {
    exists|k: int| 0 <= k < phrases.len() && begins(typed, #[trigger] phrases[k])
}

/// A query word stands for an id.
pub open spec fn word_covers(q: QueryWord, id: u32) -> bool {
    match q {
        QueryWord::Full { id: own, edit_distance } => own == id,
        QueryWord::Prefix { id_range } => id_range.0 <= id <= id_range.1,
    }
}

/// The words of a query stand for the first ids of a phrase.
pub open spec fn covers(q: Seq<QueryWord>, ids: Seq<u32>) -> bool {
    &&& q.len() <= ids.len()
    &&& forall|i: int| 0 <= i < q.len() ==> word_covers(#[trigger] q[i], ids[i])
}

/// All words of a query are whole words.
pub open spec fn all_full(q: Seq<QueryWord>) -> bool {
    forall|i: int| 0 <= i < q.len() ==> (#[trigger] q[i]) is Full
}

/// A query is one of the phrases.
pub open spec fn is_phrase(phrases: Seq<Seq<u32>>, q: Seq<QueryWord>) -> bool {
    exists|k: int|
        0 <= k < phrases.len() && q.len() == phrases[k].len() && all_full(q) && covers(
            q,
            #[trigger] phrases[k],
        )
}

/// A query begins one of the phrases.
pub open spec fn is_beginning(phrases: Seq<Seq<u32>>, q: Seq<QueryWord>) -> bool {
    exists|k: int| 0 <= k < phrases.len() && covers(q, #[trigger] phrases[k])
}

/// Only the last slot may hold a prefix, and only where that is allowed.
pub open spec fn are_askable(slots: Seq<Seq<QueryWord>>, ends_in_prefix: bool) -> bool {
    forall|i: int|
        0 <= i < slots.len() && !(ends_in_prefix && i == slots.len() - 1) ==> all_full(
            #[trigger] slots[i],
        )
}

/// No word stands twice in a slot.
pub open spec fn are_distinct(slots: Seq<Seq<QueryWord>>) -> bool {
    forall|i: int| 0 <= i < slots.len() ==> (#[trigger] slots[i]).no_duplicates()
}

/// A combination picks one word for each slot.
pub open spec fn is_pick(slots: Seq<Seq<QueryWord>>, c: Seq<QueryWord>) -> bool {
    &&& c.len() == slots.len()
    &&& forall|i: int| 0 <= i < c.len() ==> slots[i].contains(#[trigger] c[i])
}

/// A combination picks words for the first slots, and makes no more than `dist` edits.
pub open spec fn is_near_pick(slots: Seq<Seq<QueryWord>>, dist: u8, c: Seq<QueryWord>) -> bool {
    &&& c.len() <= slots.len()
    &&& is_pick(slots.take(c.len() as int), c)
    &&& query::total_distance(c) <= dist
}

impl<G, R> PrefixSet<G, R> where
    G: Fn(&str) -> Option<u64>,
    R: Fn(&str) -> Option<(u64, u64)>,
 {
    /// The index holds `words`: it replies with the position of a word, and with the positions of
    /// the first and the last word that start in a certain way.
    pub open spec fn holds(&self, words: Seq<Seq<char>>) -> bool {
        &&& forall|w: &str, reply: Option<u64>| #[trigger]
            call_ensures(self.id_of, (w,), reply) ==> match reply {
                Some(id) => id < words.len() && words[id as int] == w@,
                None => !words.contains(w@),
            }
        &&& forall|w: &str, reply: Option<(u64, u64)>| #[trigger]
            call_ensures(self.range_of, (w,), reply) ==> match reply {
                Some((first, last)) => first <= last < words.len() && forall|i: int|
                    0 <= i < words.len() ==> (starts_with(#[trigger] words[i], w@) <==> first <= i
                        <= last),
                None => forall|i: int|
                    0 <= i < words.len() ==> !starts_with(#[trigger] words[i], w@),
            }
    }
}

impl<C, P, M, N, W, E> PhraseSet<C, P, M, N, W> where
    C: Fn(&Vec<QueryWord>) -> Result<bool, E>,
    P: Fn(&Vec<QueryWord>) -> Result<bool, E>,
    M: Fn(&Vec<Vec<QueryWord>>, u8) -> Result<Vec<Vec<QueryWord>>, E>,
    N: Fn(&Vec<Vec<QueryWord>>, u8) -> Result<Vec<Vec<QueryWord>>, E>,
    W: Fn(&[Vec<QueryWord>], u8, bool) -> Result<Vec<(Vec<QueryWord>, bool)>, E>,
 {
    /// The index holds `phrases`, as far as single queries go: if it replies, then with whether
    /// the query is, or begins, one of them. Only the last word of a beginning may be a prefix.
    pub open spec fn answers_for(&self, phrases: Seq<Seq<u32>>) -> bool {
        &&& forall|q: &Vec<QueryWord>, reply: Result<bool, E>| #[trigger]
            call_ensures(self.holds, (q,), reply) && reply is Ok && all_full(q@) ==> reply->Ok_0
                == is_phrase(phrases, q@)
        &&& forall|q: &Vec<QueryWord>, reply: Result<bool, E>| #[trigger]
            call_ensures(self.holds_prefix, (q,), reply) && reply is Ok && (q@.len() > 0 ==> all_full(
                q@.drop_last(),
            )) ==> reply->Ok_0 == is_beginning(phrases, q@)
    }

    /// The index holds `phrases`, as far as combinations go: if it replies, then with all picks
    /// within the distance that are, or begin, one of them, and with no others; and with none
    /// twice, where no word stands twice in a slot.
    pub open spec fn combines_for(&self, phrases: Seq<Seq<u32>>) -> bool {
        &&& forall|q: &Vec<Vec<QueryWord>>, dist: u8, reply: Result<Vec<Vec<QueryWord>>, E>| #[trigger]
            call_ensures(self.combine, (q, dist), reply) && reply is Ok && are_askable(
                in_memory(q@),
                false,
            ) ==> combination_rule(phrases, in_memory(q@), dist, false, in_memory(reply->Ok_0@))
        &&& forall|q: &Vec<Vec<QueryWord>>, dist: u8, reply: Result<Vec<Vec<QueryWord>>, E>| #[trigger]
            call_ensures(self.combine_prefixes, (q, dist), reply) && reply is Ok && are_askable(
                in_memory(q@),
                true,
            ) ==> combination_rule(phrases, in_memory(q@), dist, true, in_memory(reply->Ok_0@))
    }

    /// The index holds `phrases`, as far as windows go: if it replies, then with all picks of at
    /// least one word within the distance that are one of them and, where the slots end in a
    /// prefix, with all picks for all slots that begin one, which it marks. Whether a pick for all
    /// slots that is a phrase is among them also without the mark is then left open, and so is
    /// whether the empty phrase is found where it was inserted. None is found twice, where no word
    /// stands twice in a slot.
    pub open spec fn windows_for(&self, phrases: Seq<Seq<u32>>) -> bool {
        forall|
            q: &[Vec<QueryWord>],
            dist: u8,
            ends_in_prefix: bool,
            reply: Result<Vec<(Vec<QueryWord>, bool)>, E>,
        | #[trigger]
            call_ensures(self.combine_windows, (q, dist, ends_in_prefix), reply) && reply is Ok
                && are_askable(in_memory(q@), ends_in_prefix) ==> windows_rule(
                phrases,
                in_memory(q@),
                dist,
                ends_in_prefix,
                marked_in_memory(reply->Ok_0@),
            )
    }

    /// What the replies to single queries come to.
    pub(crate) proof fn lemma_answers_for(&self, phrases: Seq<Seq<u32>>)
        requires
            self.answers_for(phrases),
        ensures
            forall|q: Seq<QueryWord>, b: bool| #[trigger]
                self.may_contain(q, Ok(b)) && all_full(q) ==> b == is_phrase(phrases, q),
            forall|q: Seq<QueryWord>, b: bool| #[trigger]
                self.may_contain_prefix(q, Ok(b)) && (q.len() > 0 ==> all_full(q.drop_last())) ==> b
                    == is_beginning(phrases, q),
    {
    }

    /// What the replies with combinations come to.
    pub(crate) proof fn lemma_combines_for(&self, phrases: Seq<Seq<u32>>)
        requires
            self.combines_for(phrases),
        ensures
            forall|slots: Seq<Seq<QueryWord>>, dist: u8, found: Seq<Seq<QueryWord>>| #[trigger]
                self.may_match(slots, dist, Ok(found)) && are_askable(slots, false)
                    ==> combination_rule(phrases, slots, dist, false, found),
            forall|slots: Seq<Seq<QueryWord>>, dist: u8, found: Seq<Seq<QueryWord>>| #[trigger]
                self.may_match_prefixes(slots, dist, Ok(found)) && are_askable(slots, true)
                    ==> combination_rule(phrases, slots, dist, true, found),
    {
        assert forall|slots: Seq<Seq<QueryWord>>, dist: u8, found: Seq<Seq<QueryWord>>| #[trigger]
            self.may_match(slots, dist, Ok(found)) && are_askable(slots, false) implies combination_rule(
            phrases,
            slots,
            dist,
            false,
            found,
        ) by {
            let (q, r) = choose|q: &Vec<Vec<QueryWord>>, r: Result<Vec<Vec<QueryWord>>, E>|
                query::slots_of(q@) == slots && index::combinations_of(r) == Ok::<
                    Seq<Seq<QueryWord>>,
                    E,
                >(found) && #[trigger] call_ensures(self.combine, (q, dist), r);
            assert(in_memory(q@) =~= slots);
            assert(in_memory(r->Ok_0@) =~= found);
        }
        assert forall|slots: Seq<Seq<QueryWord>>, dist: u8, found: Seq<Seq<QueryWord>>| #[trigger]
            self.may_match_prefixes(slots, dist, Ok(found)) && are_askable(slots, true) implies combination_rule(
            phrases,
            slots,
            dist,
            true,
            found,
        ) by {
            let (q, r) = choose|q: &Vec<Vec<QueryWord>>, r: Result<Vec<Vec<QueryWord>>, E>|
                query::slots_of(q@) == slots && index::combinations_of(r) == Ok::<
                    Seq<Seq<QueryWord>>,
                    E,
                >(found) && #[trigger] call_ensures(self.combine_prefixes, (q, dist), r);
            assert(in_memory(q@) =~= slots);
            assert(in_memory(r->Ok_0@) =~= found);
        }
    }

    /// What the replies with windows come to.
    pub(crate) proof fn lemma_windows_for(&self, phrases: Seq<Seq<u32>>)
        requires
            self.windows_for(phrases),
        ensures
            forall|
                slots: Seq<Seq<QueryWord>>,
                dist: u8,
                ends_in_prefix: bool,
                found: Seq<(Seq<QueryWord>, bool)>,
            | #[trigger]
                self.may_match_windows(slots, dist, ends_in_prefix, Ok(found)) && are_askable(
                    slots,
                    ends_in_prefix,
                ) && are_distinct(slots) ==> found.no_duplicates(),
            forall|
                slots: Seq<Seq<QueryWord>>,
                dist: u8,
                ends_in_prefix: bool,
                found: Seq<(Seq<QueryWord>, bool)>,
                c: Seq<QueryWord>,
            |
                #[trigger] self.may_match_windows(slots, dist, ends_in_prefix, Ok(found))
                    && are_askable(slots, ends_in_prefix) ==> #[trigger] window_rule(
                    phrases,
                    slots,
                    dist,
                    ends_in_prefix,
                    found,
                    c,
                ),
    {
        assert forall|
            slots: Seq<Seq<QueryWord>>,
            dist: u8,
            ends_in_prefix: bool,
            found: Seq<(Seq<QueryWord>, bool)>,
        | #[trigger]
            self.may_match_windows(slots, dist, ends_in_prefix, Ok(found)) && are_askable(
                slots,
                ends_in_prefix,
            ) implies windows_rule(phrases, slots, dist, ends_in_prefix, found) by {
            let (q, r) = choose|q: &[Vec<QueryWord>], r: Result<Vec<(Vec<QueryWord>, bool)>, E>|
                query::slots_of(q@) == slots && index::windows_of(r) == Ok::<
                    Seq<(Seq<QueryWord>, bool)>,
                    E,
                >(found) && #[trigger] call_ensures(
                    self.combine_windows,
                    (q, dist, ends_in_prefix),
                    r,
                );
            assert(in_memory(q@) =~= slots);
            assert(marked_in_memory(r->Ok_0@) =~= found);
        }
    }
}

/// Lists of query words that are held in memory.
pub open spec fn in_memory(lists: Seq<Vec<QueryWord>>) -> Seq<Seq<QueryWord>> {
    Seq::new(lists.len(), |i: int| lists[i]@)
}

/// Lists of query words that are held in memory, each with a mark.
pub open spec fn marked_in_memory(lists: Seq<(Vec<QueryWord>, bool)>) -> Seq<(Seq<QueryWord>, bool)> {
    Seq::new(lists.len(), |i: int| (lists[i].0@, lists[i].1))
}

/// What is found are the picks for all slots, within the distance, that are a phrase or begin one;
/// and none is found twice, where no word stands twice in a slot.
pub open spec fn combination_rule(
    phrases: Seq<Seq<u32>>,
    slots: Seq<Seq<QueryWord>>,
    dist: u8,
    ends_in_prefix: bool,
    found: Seq<Seq<QueryWord>>,
) -> bool {
    &&& forall|c: Seq<QueryWord>| #[trigger]
        found.contains(c) <==> c.len() == slots.len() && is_near_pick(slots, dist, c) && (
        if ends_in_prefix {
            is_beginning(phrases, c)
        } else {
            is_phrase(phrases, c)
        })
    &&& are_distinct(slots) ==> found.no_duplicates()
}

/// What is found as windows goes by the rule, and none is found twice, where no word stands twice
/// in a slot.
pub open spec fn windows_rule(
    phrases: Seq<Seq<u32>>,
    slots: Seq<Seq<QueryWord>>,
    dist: u8,
    ends_in_prefix: bool,
    found: Seq<(Seq<QueryWord>, bool)>,
) -> bool {
    &&& forall|c: Seq<QueryWord>| #[trigger]
        window_rule(phrases, slots, dist, ends_in_prefix, found, c)
    &&& are_distinct(slots) ==> found.no_duplicates()
}

/// Whether a combination is among the windows that were found, with a mark or without.
pub open spec fn window_rule(
    phrases: Seq<Seq<u32>>,
    slots: Seq<Seq<QueryWord>>,
    dist: u8,
    ends_in_prefix: bool,
    found: Seq<(Seq<QueryWord>, bool)>,
    c: Seq<QueryWord>,
) -> bool {
    &&& found.contains((c, true)) ==> ends_in_prefix && c.len() == slots.len() && is_near_pick(
        slots,
        dist,
        c,
    ) && is_beginning(phrases, c)
    &&& c.len() > 0 && ends_in_prefix && c.len() == slots.len() && is_near_pick(slots, dist, c)
        && is_beginning(phrases, c) ==> found.contains((c, true))
    &&& found.contains((c, false)) ==> is_near_pick(slots, dist, c) && is_phrase(phrases, c)
    &&& c.len() > 0 && (c.len() < slots.len() || !ends_in_prefix) && is_near_pick(slots, dist, c)
        && is_phrase(phrases, c) ==> found.contains((c, false))
}

impl<L, E> FuzzyMap<L> where
    L: Fn(&str, u8, &Vec<String>) -> Result<Vec<FuzzyMapLookupResult>, E>,
 {
    /// The index is steady: asked again, it replies as before, if it replies.
    pub open spec fn is_steady(&self) -> bool {
        forall|
            v: &str,
            w: &str,
            edit_distance: u8,
            list: &Vec<String>,
            reply: Result<Vec<FuzzyMapLookupResult>, E>,
            again: Result<Vec<FuzzyMapLookupResult>, E>,
        | #[trigger]
            call_ensures(self.find, (v, edit_distance, list), reply) && #[trigger] call_ensures(
                self.find,
                (w, edit_distance, list),
                again,
            ) && v@ == w@ && reply is Ok && again is Ok ==> reply->Ok_0@ == again->Ok_0@
    }

    /// The index finds no word twice.
    pub open spec fn finds_once(&self) -> bool {
        forall|
            w: &str,
            edit_distance: u8,
            list: &Vec<String>,
            reply: Result<Vec<FuzzyMapLookupResult>, E>,
            i: int,
            j: int,
        |
            #![trigger
                call_ensures(self.find, (w, edit_distance, list), reply),
                reply->Ok_0@[i],
                reply->Ok_0@[j]
            ]
            call_ensures(self.find, (w, edit_distance, list), reply) && reply is Ok && 0 <= i < j
                < reply->Ok_0@.len() ==> reply->Ok_0@[i].id != reply->Ok_0@[j].id
    }

    /// The index measures edits by `dist`: if it is handed the list of `words` and replies, then
    /// with those of them that can be found by an approximate spelling and are no more than
    /// `edit_distance` edits away, each once and with its distance, and with no others. It is built
    /// for one edit, and need not do so for more.
    pub open spec fn measures(
        &self,
        words: Seq<Seq<char>>,
        pattern: &ScriptPattern,
        dist: Distance,
    ) -> bool {
        &&& self.finds_once()
        &&& forall|
            w: &str,
            edit_distance: u8,
            list: &Vec<String>,
            reply: Result<Vec<FuzzyMapLookupResult>, E>,
            id: u32,
            edits: u8,
        |
            #![trigger
                call_ensures(self.find, (w, edit_distance, list), reply),
                reply->Ok_0@.contains(FuzzyMapLookupResult { id, edit_distance: edits })
            ]
            call_ensures(self.find, (w, edit_distance, list), reply) && reply is Ok && edit_distance
                <= 1 && text::texts(list@) == words ==> (reply->Ok_0@.contains(
                FuzzyMapLookupResult { id, edit_distance: edits },
            ) <==> id < words.len() && pattern.accepts(words[id as int]) && edits == dist(
                w@,
                words[id as int],
            ) && edits <= edit_distance)
    }

    /// The index finds those of the `words` themselves that can be found by an approximate
    /// spelling: if it is handed the list and replies to one of them, then that word is among what
    /// it found, with no edit.
    pub open spec fn finds(&self, words: Seq<Seq<char>>, pattern: &ScriptPattern) -> bool {
        forall|
            w: &str,
            edit_distance: u8,
            list: &Vec<String>,
            reply: Result<Vec<FuzzyMapLookupResult>, E>,
        | #[trigger]
            call_ensures(self.find, (w, edit_distance, list), reply) && reply is Ok && edit_distance
                <= 1 && text::texts(list@) == words && words.contains(w@) && pattern.accepts(w@)
                ==> exists|i: int|
                0 <= i < reply->Ok_0@.len() && (#[trigger] reply->Ok_0@[i]).edit_distance == 0
                    && reply->Ok_0@[i].id < words.len() && words[reply->Ok_0@[i].id as int] == w@
    }
}

/// Words in alphabetical order are all different.
proof fn lemma_words_differ(words: Seq<Seq<char>>)
    requires
        order::strictly_sorted(order::text_order(), words),
    ensures
        words.no_duplicates(),
{
    order::text_order_is_strict();
    assert forall|i: int, j: int| 0 <= i < words.len() && 0 <= j < words.len() && i != j implies words[i]
        != words[j] by {
        if i < j {
            assert(order::text_order()(words[i], words[j]));
        } else {
            assert(order::text_order()(words[j], words[i]));
        }
    }
}

/// The laid out phrases are those that were inserted.
pub(crate) proof fn lemma_laid_out(inserted: Seq<Seq<Seq<char>>>, words: Seq<Seq<char>>, phrases: Seq<Seq<u32>>)
    requires
        builder::lays_out(inserted, words, phrases),
    ensures
        words.no_duplicates(),
        forall|p: Seq<Seq<char>>| #[trigger] inserted.contains(p) <==> builder::decoded_all(words, phrases).contains(
            p,
        ),
        inserted.len() == phrases.len(),
{
    broadcast use vstd::seq_lib::group_to_multiset_ensures;

    lemma_words_differ(words);
    let all = builder::decoded_all(words, phrases);
    assert(inserted.len() == inserted.to_multiset().len());
    assert(all.len() == all.to_multiset().len());
    assert forall|p: Seq<Seq<char>>| #[trigger] inserted.contains(p) <==> all.contains(p) by {
        assert(inserted.contains(p) <==> inserted.to_multiset().contains(p));
        assert(all.contains(p) <==> all.to_multiset().contains(p));
    }
}

/// The numbers that a builder gives to words keep the order: lists of ids are ordered as the
/// phrases that they stand for.
pub proof fn numbering_keeps_the_order(words: Seq<Seq<char>>, a: Seq<u32>, b: Seq<u32>)
    requires
        order::strictly_sorted(order::text_order(), words),
        forall|i: int| 0 <= i < a.len() ==> #[trigger] a[i] < words.len(),
        forall|i: int| 0 <= i < b.len() ==> #[trigger] b[i] < words.len(),
    ensures
        order::ids_order()(a, b) <==> order::words_order()(
            builder::decoded(words, a),
            builder::decoded(words, b),
        ),
{
    let x = builder::decoded(words, a);
    let y = builder::decoded(words, b);
    order::text_order_is_strict();
    lemma_words_differ(words);
    assert forall|i: u32, j: u32| i < words.len() && j < words.len() implies (#[trigger] order::id_order()(
        i,
        j,
    ) <==> order::text_order()(words[i as int], words[j as int])) by {
        if i < j {
            assert(order::text_order()(words[i as int], words[j as int]));
        } else if j < i {
            assert(order::text_order()(words[j as int], words[i as int]));
        }
    }
    assert forall|k: int| order::precedes_at(order::id_order(), a, b, k) <==> #[trigger] order::precedes_at(
        order::text_order(),
        x,
        y,
        k,
    ) by {
        if 0 <= k <= a.len() && k < b.len() {
            if a.take(k) == b.take(k) {
                assert(x.take(k) =~= builder::decoded(words, a.take(k)));
                assert(y.take(k) =~= builder::decoded(words, b.take(k)));
            }
            if x.take(k) == y.take(k) {
                assert forall|i: int| 0 <= i < k implies #[trigger] a.take(k)[i] == b.take(k)[i] by {
                    assert(x.take(k)[i] == words[a[i] as int]);
                    assert(y.take(k)[i] == words[b[i] as int]);
                }
                assert(a.take(k) =~= b.take(k));
            }
            if k < a.len() {
                assert(order::id_order()(a[k], b[k]) <==> order::text_order()(
                    words[a[k] as int],
                    words[b[k] as int],
                ));
            }
        }
    }
    if order::ids_order()(a, b) {
        let k = choose|k: int| order::precedes_at(order::id_order(), a, b, k);
        assert(order::precedes_at(order::text_order(), x, y, k));
    }
    if order::words_order()(x, y) {
        let k = choose|k: int| order::precedes_at(order::text_order(), x, y, k);
        assert(order::precedes_at(order::id_order(), a, b, k));
    }
}

/// Sequences in order with the same elements are the same.
proof fn lemma_one_order<K>(lt: spec_fn(K, K) -> bool, a: Seq<K>, b: Seq<K>)
    requires
        order::is_strict_order(lt),
        order::sorted(lt, a),
        order::sorted(lt, b),
        a.to_multiset() == b.to_multiset(),
    ensures
        a == b,
{
    let leq = |x: K, y: K| !lt(y, x);
    assert(vstd::relations::antisymmetric(leq)) by {
        assert forall|x: K, y: K| #[trigger] leq(x, y) && #[trigger] leq(y, x) implies x == y by {
            assert(lt(x, y) || x == y || lt(y, x));
        }
    }
    assert(vstd::relations::transitive(leq)) by {
        assert forall|x: K, y: K, z: K| #[trigger] leq(x, y) && #[trigger] leq(y, z) implies leq(x, z) by {
            assert(lt(x, y) || x == y || lt(y, x));
            if lt(z, x) && lt(x, y) {
                assert(lt(z, y));
            }
        }
    }
    assert(vstd::relations::reflexive(leq));
    assert(vstd::relations::strongly_connected(leq)) by {
        assert forall|x: K, y: K| #[trigger] leq(x, y) || #[trigger] leq(y, x) by {
            if lt(y, x) && lt(x, y) {
                assert(lt(x, x));
            }
        }
    }
    vstd::seq_lib::lemma_sorted_unique(a, b, leq);
}

/// The order in which phrases are inserted does not matter: what is laid out is the same.
pub proof fn insertion_order_does_not_matter(
    inserted: Seq<Seq<Seq<char>>>,
    words: Seq<Seq<char>>,
    phrases: Seq<Seq<u32>>,
    other_inserted: Seq<Seq<Seq<char>>>,
    other_words: Seq<Seq<char>>,
    other_phrases: Seq<Seq<u32>>,
)
    requires
        inserted.to_multiset() == other_inserted.to_multiset(),
        builder::lays_out(inserted, words, phrases),
        builder::lays_out(other_inserted, other_words, other_phrases),
    ensures
        words == other_words,
        phrases == other_phrases,
{
    broadcast use vstd::seq_lib::group_to_multiset_ensures;

    lemma_laid_out(inserted, words, phrases);
    lemma_laid_out(other_inserted, other_words, other_phrases);
    order::text_order_is_strict();
    order::words_order_is_strict();
    // the words are the same
    assert forall|p: Seq<Seq<char>>| #[trigger] inserted.contains(p) <==> other_inserted.contains(p) by {
        assert(inserted.contains(p) <==> inserted.to_multiset().contains(p));
        assert(other_inserted.contains(p) <==> other_inserted.to_multiset().contains(p));
    }
    assert forall|w: Seq<char>| builder::occurs(inserted, w) <==> #[trigger] builder::occurs(other_inserted, w) by {
        if builder::occurs(inserted, w) {
            let i = choose|i: int| 0 <= i < inserted.len() && (#[trigger] inserted[i]).contains(w);
            assert(inserted.contains(inserted[i]));
            assert(other_inserted.contains(inserted[i]));
            let j = choose|j: int| 0 <= j < other_inserted.len() && other_inserted[j] == inserted[i];
            assert(other_inserted[j].contains(w));
        }
        if builder::occurs(other_inserted, w) {
            let i = choose|i: int| 0 <= i < other_inserted.len() && (#[trigger] other_inserted[i]).contains(w);
            assert(other_inserted.contains(other_inserted[i]));
            assert(inserted.contains(other_inserted[i]));
            let j = choose|j: int| 0 <= j < inserted.len() && inserted[j] == other_inserted[i];
            assert(inserted[j].contains(w));
        }
    }
    words.lemma_multiset_has_no_duplicates();
    other_words.lemma_multiset_has_no_duplicates();
    assert forall|w: Seq<char>| words.to_multiset().count(w) == #[trigger] other_words.to_multiset().count(w) by {
        assert(words.contains(w) <==> other_words.contains(w));
        assert(words.contains(w) <==> words.to_multiset().contains(w));
        assert(other_words.contains(w) <==> other_words.to_multiset().contains(w));
    }
    assert(words.to_multiset() =~= other_words.to_multiset());
    lemma_strictly_sorted(order::text_order(), words);
    lemma_strictly_sorted(order::text_order(), other_words);
    lemma_one_order(order::text_order(), words, other_words);
    // the phrases are the same, as text and so as ids
    lemma_text_in_order(words, phrases);
    lemma_text_in_order(words, other_phrases);
    let all = builder::decoded_all(words, phrases);
    let other_all = builder::decoded_all(words, other_phrases);
    lemma_one_order(order::words_order(), all, other_all);
    assert(phrases.len() == all.len());
    assert(other_phrases.len() == other_all.len());
    assert forall|k: int| 0 <= k < phrases.len() implies #[trigger] phrases[k] == other_phrases[k] by {
        assert(all[k] == other_all[k]);
        assert(all[k].len() == phrases[k].len());
        assert(other_all[k].len() == other_phrases[k].len());
        assert forall|i: int| 0 <= i < phrases[k].len() implies #[trigger] phrases[k][i]
            == other_phrases[k][i] by {
            assert(all[k][i] == words[phrases[k][i] as int]);
            assert(other_all[k][i] == words[other_phrases[k][i] as int]);
            assert(phrases[k][i] < words.len());
            assert(other_phrases[k][i] < words.len());
        }
        assert(phrases[k] =~= other_phrases[k]);
    }
    assert(phrases =~= other_phrases);
}

/// What is strictly in order is in order.
proof fn lemma_strictly_sorted<K>(lt: spec_fn(K, K) -> bool, s: Seq<K>)
    requires
        order::is_strict_order(lt),
        order::strictly_sorted(lt, s),
    ensures
        order::sorted(lt, s),
{
    assert forall|i: int, j: int| 0 <= i < j < s.len() implies !lt(#[trigger] s[j], #[trigger] s[i]) by {
        if lt(s[j], s[i]) {
            assert(lt(s[i], s[j]));
            assert(lt(s[i], s[i]));
        }
    }
}

/// Phrases in the order of their ids are in the order of their text.
proof fn lemma_text_in_order(words: Seq<Seq<char>>, phrases: Seq<Seq<u32>>)
    requires
        order::strictly_sorted(order::text_order(), words),
        builder::in_range(words.len() as int, phrases),
        order::sorted(order::ids_order(), phrases),
    ensures
        order::sorted(order::words_order(), builder::decoded_all(words, phrases)),
{
    let all = builder::decoded_all(words, phrases);
    assert forall|i: int, j: int| 0 <= i < j < all.len() implies !order::words_order()(
        #[trigger] all[j],
        #[trigger] all[i],
    ) by {
        assert forall|k: int| 0 <= k < phrases[i].len() implies #[trigger] phrases[i][k] < words.len() by {}
        assert forall|k: int| 0 <= k < phrases[j].len() implies #[trigger] phrases[j][k] < words.len() by {}
        numbering_keeps_the_order(words, phrases[j], phrases[i]);
        assert(!order::ids_order()(phrases[j], phrases[i]));
    }
}

/// The ids that a pattern accepts are those of the words that it accepts.
pub(crate) proof fn lemma_accepted_ids(pattern: &ScriptPattern, words: Seq<Seq<char>>, id: u32)
    requires
        words.len() <= builder::ID_COUNT,
    ensures
        builder::accepted_ids(pattern, words).contains(id) <==> id < words.len() && pattern.accepts(
            words[id as int],
        ),
    decreases words.len(),
{
    if words.len() > 0 {
        let front = words.drop_last();
        let last = (words.len() - 1) as u32;
        let before = builder::accepted_ids(pattern, front);
        let now = builder::accepted_ids(pattern, words);
        lemma_accepted_ids(pattern, front, id);
        if pattern.accepts(words.last()) {
            assert(now == before.push(last));
            if before.contains(id) {
                let k = choose|k: int| 0 <= k < before.len() && before[k] == id;
                assert(now[k] == id);
            }
            assert(now[before.len() as int] == last);
            if now.contains(id) && id != last {
                let k = choose|k: int| 0 <= k < now.len() && now[k] == id;
                assert(before[k] == id);
            }
        }
    }
}

/// Where the table of scripts is steady, any two sets that are opened with it decide alike which
/// words can be found by an approximate spelling, and so does a builder that plans with it: the
/// ids that it plans for the fuzzy index are those of the words that the sets accept.
pub proof fn sets_and_plans_decide_alike<Q, B, S>(
    scripts: &ScriptTable<Q, B>,
    planned: ScriptPattern,
    opened: ScriptPattern,
    words: Seq<Seq<char>>,
) where Q: Fn(&str) -> Option<S>, B: Fn(&Vec<S>) -> String
    requires
        scripts.is_steady(),
        scripts.may_compile(metadata::current().fuzzy_enabled_scripts, Ok(planned)),
        scripts.may_compile(metadata::current().fuzzy_enabled_scripts, Ok(opened)),
        words.len() <= builder::ID_COUNT,
    ensures
        forall|word: Seq<char>| #[trigger] planned.accepts(word) == opened.accepts(word),
        forall|id: u32| #[trigger]
            builder::accepted_ids(&planned, words).contains(id) <==> id < words.len()
                && opened.accepts(words[id as int]),
{
    let names = metadata::current().fuzzy_enabled_scripts;
    assert forall|word: Seq<char>| #[trigger] planned.accepts(word) == opened.accepts(word) by {
        scripts.patterns_for_the_same_scripts_agree(names, planned, opened, word);
    }
    assert forall|id: u32| #[trigger] builder::accepted_ids(&planned, words).contains(id) <==> id
        < words.len() && opened.accepts(words[id as int]) by {
        lemma_accepted_ids(&planned, words, id);
    }
}

/// What a query of whole words comes to in text.
pub(crate) proof fn lemma_query_in_text(
    words: Seq<Seq<char>>,
    phrases: Seq<Seq<u32>>,
    typed: Seq<Seq<char>>,
    q: Seq<QueryWord>,
)
    requires
        words.no_duplicates(),
        builder::in_range(words.len() as int, phrases),
        q.len() == typed.len(),
        all_full(q),
        forall|i: int|
            0 <= i < q.len() ==> (#[trigger] q[i])->Full_id < words.len() && words[q[i]->Full_id as int]
                == typed[i],
    ensures
        is_phrase(phrases, q) <==> builder::decoded_all(words, phrases).contains(typed),
{
    let all = builder::decoded_all(words, phrases);
    if is_phrase(phrases, q) {
        let k = choose|k: int|
            0 <= k < phrases.len() && q.len() == phrases[k].len() && all_full(q) && covers(
                q,
                #[trigger] phrases[k],
            );
        assert forall|i: int| 0 <= i < typed.len() implies #[trigger] all[k][i] == typed[i] by {
            assert(word_covers(q[i], phrases[k][i]));
        }
        assert(all[k] =~= typed);
    }
    if all.contains(typed) {
        let k = choose|k: int| 0 <= k < all.len() && all[k] == typed;
        assert forall|i: int| 0 <= i < q.len() implies word_covers(#[trigger] q[i], phrases[k][i]) by {
            assert(all[k][i] == words[phrases[k][i] as int]);
            assert(phrases[k][i] < words.len());
        }
        assert(covers(q, phrases[k]));
    }
}

impl<G, R, L, C, P, M, N, W, E> FuzzyPhraseSet<G, R, L, C, P, M, N, W> where
    G: Fn(&str) -> Option<u64>,
    R: Fn(&str) -> Option<(u64, u64)>,
    L: Fn(&str, u8, &Vec<String>) -> Result<Vec<FuzzyMapLookupResult>, E>,
    C: Fn(&Vec<QueryWord>) -> Result<bool, E>,
    P: Fn(&Vec<QueryWord>) -> Result<bool, E>,
    M: Fn(&Vec<Vec<QueryWord>>, u8) -> Result<Vec<Vec<QueryWord>>, E>,
    N: Fn(&Vec<Vec<QueryWord>>, u8) -> Result<Vec<Vec<QueryWord>>, E>,
    W: Fn(&[Vec<QueryWord>], u8, bool) -> Result<Vec<(Vec<QueryWord>, bool)>, E>,
 {
    /// The indexes hold the phrases that were inserted into a builder: what it laid out.
    pub open spec fn holds(&self, inserted: Seq<Seq<Seq<char>>>, phrases: Seq<Seq<u32>>) -> bool {
        &&& builder::lays_out(inserted, self.words(), phrases)
        &&& self.prefix_set.holds(self.words())
        &&& self.phrase_set.answers_for(phrases)
        &&& self.phrase_set.combines_for(phrases)
        &&& self.phrase_set.windows_for(phrases)
    }

    /// What the replies of the phrase graph come to.
    pub(crate) proof fn lemma_sound(&self, inserted: Seq<Seq<Seq<char>>>, phrases: Seq<Seq<u32>>)
        requires
            self.holds(inserted, phrases),
        ensures
            forall|q: Seq<QueryWord>, b: bool| #[trigger]
                self.phrase_set.may_contain(q, Ok(b)) && all_full(q) ==> b == is_phrase(phrases, q),
            forall|q: Seq<QueryWord>, b: bool| #[trigger]
                self.phrase_set.may_contain_prefix(q, Ok(b)) && (q.len() > 0 ==> all_full(
                    q.drop_last(),
                )) ==> b == is_beginning(phrases, q),
            forall|slots: Seq<Seq<QueryWord>>, dist: u8, found: Seq<Seq<QueryWord>>| #[trigger]
                self.phrase_set.may_match(slots, dist, Ok(found)) && are_askable(slots, false)
                    ==> combination_rule(phrases, slots, dist, false, found),
            forall|slots: Seq<Seq<QueryWord>>, dist: u8, found: Seq<Seq<QueryWord>>| #[trigger]
                self.phrase_set.may_match_prefixes(slots, dist, Ok(found)) && are_askable(slots, true)
                    ==> combination_rule(phrases, slots, dist, true, found),
            forall|
                slots: Seq<Seq<QueryWord>>,
                dist: u8,
                ends_in_prefix: bool,
                found: Seq<(Seq<QueryWord>, bool)>,
            | #[trigger]
                self.phrase_set.may_match_windows(slots, dist, ends_in_prefix, Ok(found))
                    && are_askable(slots, ends_in_prefix) && are_distinct(slots)
                    ==> found.no_duplicates(),
            forall|
                slots: Seq<Seq<QueryWord>>,
                dist: u8,
                ends_in_prefix: bool,
                found: Seq<(Seq<QueryWord>, bool)>,
                c: Seq<QueryWord>,
            |
                #[trigger] self.phrase_set.may_match_windows(slots, dist, ends_in_prefix, Ok(found))
                    && are_askable(slots, ends_in_prefix) ==> #[trigger] window_rule(
                    phrases,
                    slots,
                    dist,
                    ends_in_prefix,
                    found,
                    c,
                ),
    {
        self.phrase_set.lemma_answers_for(phrases);
        self.phrase_set.lemma_combines_for(phrases);
        self.phrase_set.lemma_windows_for(phrases);
    }

    /// What exact lookups come to.
    proof fn lemma_identified(&self, typed: Seq<Seq<char>>, q: Option<Seq<QueryWord>>)
        requires
            self.prefix_set.holds(self.words()),
            self.words().len() <= builder::ID_COUNT,
            self.may_identify(typed, q),
        ensures
            match q {
                Some(q) => {
                    &&& q.len() == typed.len()
                    &&& all_full(q)
                    &&& forall|i: int|
                        0 <= i < q.len() ==> (#[trigger] q[i])->Full_id < self.words().len()
                            && self.words()[q[i]->Full_id as int] == typed[i]
                },
                None => exists|i: int|
                    0 <= i < typed.len() && !self.words().contains(#[trigger] typed[i]),
            },
    {
        match q {
            Some(q) => {
                assert forall|i: int| 0 <= i < q.len() implies (#[trigger] q[i]) is Full
                    && q[i]->Full_id < self.words().len() && self.words()[q[i]->Full_id as int]
                    == typed[i] by {
                    assert(self.may_be(typed[i], q[i]));
                }
            },
            None => {
                let before = choose|before: Seq<QueryWord>| #[trigger]
                    self.may_identify_first(typed, before) && before.len() < typed.len()
                        && self.prefix_set.may_get(typed[before.len() as int], None);
                assert(!self.words().contains(typed[before.len() as int]));
            },
        }
    }

    /// A set that holds what was inserted contains a phrase just if it was inserted.
    pub proof fn contains_what_was_inserted(
        &self,
        inserted: Seq<Seq<Seq<char>>>,
        phrases: Seq<Seq<u32>>,
        phrase: Seq<Seq<char>>,
        answer: bool,
    )
        requires
            self.holds(inserted, phrases),
            self.may_contain(phrase, Ok(answer)),
        ensures
            answer <==> inserted.contains(phrase),
    {
        self.lemma_sound(inserted, phrases);
        let words = self.words();
        lemma_laid_out(inserted, words, phrases);
        if !answer && self.may_identify(phrase, None) {
            self.lemma_identified(phrase, None);
            let i = choose|i: int| 0 <= i < phrase.len() && !words.contains(#[trigger] phrase[i]);
            if inserted.contains(phrase) {
                let k = choose|k: int| 0 <= k < inserted.len() && inserted[k] == phrase;
                assert(inserted[k].contains(phrase[i]));
                assert(builder::occurs(inserted, phrase[i]));
            }
        } else {
            let q = choose|q: Seq<QueryWord>| #[trigger]
                self.may_identify(phrase, Some(q)) && self.phrase_set.may_contain(q, Ok(answer));
            self.lemma_identified(phrase, Some(q));
            lemma_query_in_text(words, phrases, phrase, q);
        }
    }

    /// A set that holds what was inserted contains a phrase as a prefix just if it begins one
    /// that was inserted.
    pub proof fn contains_prefix_of_what_was_inserted(
        &self,
        inserted: Seq<Seq<Seq<char>>>,
        phrases: Seq<Seq<u32>>,
        phrase: Seq<Seq<char>>,
        answer: bool,
    )
        requires
            self.holds(inserted, phrases),
            self.may_contain_prefix(phrase, Ok(answer)),
        ensures
            answer <==> begins_one(phrase, inserted),
    {
        self.lemma_sound(inserted, phrases);
        let words = self.words();
        let all = builder::decoded_all(words, phrases);
        lemma_laid_out(inserted, words, phrases);
        assert(begins_one(phrase, inserted) <==> begins_one(phrase, all)) by {
            if begins_one(phrase, inserted) {
                let k = choose|k: int| 0 <= k < inserted.len() && begins(phrase, #[trigger] inserted[k]);
                assert(inserted.contains(inserted[k]));
                assert(all.contains(inserted[k]));
                let m = choose|m: int| 0 <= m < all.len() && all[m] == inserted[k];
                assert(begins(phrase, all[m]));
            }
            if begins_one(phrase, all) {
                let k = choose|k: int| 0 <= k < all.len() && begins(phrase, #[trigger] all[k]);
                assert(all.contains(all[k]));
                assert(inserted.contains(all[k]));
                let m = choose|m: int| 0 <= m < inserted.len() && inserted[m] == all[k];
                assert(begins(phrase, inserted[m]));
            }
        }
        if phrase.len() == 0 {
            let none = Seq::<QueryWord>::empty();
            assert(is_beginning(phrases, none) <==> begins_one(phrase, all)) by {
                if phrases.len() > 0 {
                    assert(covers(none, phrases[0]));
                    assert(begins(phrase, all[0]));
                }
            }
        } else if !answer && self.may_identify(phrase.drop_last(), None) {
            let front = phrase.drop_last();
            self.lemma_identified(front, None);
            let i = choose|i: int| 0 <= i < front.len() && !words.contains(#[trigger] front[i]);
            if begins_one(phrase, all) {
                let k = choose|k: int| 0 <= k < all.len() && begins(phrase, #[trigger] all[k]);
                assert(phrase[i] == all[k][i]);
                assert(phrases[k][i] < words.len());
                assert(words[phrases[k][i] as int] == front[i]);
            }
        } else {
            let front = phrase.drop_last();
            let last = phrase.last();
            let n = front.len() as int;
            let (q, range) = choose|q: Seq<QueryWord>, range: Option<(u64, u64)>| #[trigger]
                self.may_identify(front, Some(q)) && #[trigger] self.prefix_set.may_get_prefix_range(
                    last,
                    range,
                ) && match range {
                    None => !answer,
                    Some((first, last)) => self.phrase_set.may_contain_prefix(
                        q.push(QueryWord::Prefix { id_range: (first as u32, last as u32) }),
                        Ok(answer),
                    ),
                };
            self.lemma_identified(front, Some(q));
            match range {
                None => {
                    if begins_one(phrase, all) {
                        let k = choose|k: int| 0 <= k < all.len() && begins(phrase, #[trigger] all[k]);
                        assert(phrases[k][n] < words.len());
                        assert(starts_with(words[phrases[k][n] as int], last));
                    }
                },
                Some((a, b)) => {
                    let whole = q.push(QueryWord::Prefix { id_range: (a as u32, b as u32) });
                    if is_beginning(phrases, whole) {
                        let k = choose|k: int| 0 <= k < phrases.len() && covers(whole, #[trigger] phrases[k]);
                        assert forall|i: int| 0 <= i < phrase.len() - 1 implies phrase[i]
                            == #[trigger] all[k][i] by {
                            assert(whole[i] == q[i]);
                            assert(word_covers(whole[i], phrases[k][i]));
                        }
                        assert(word_covers(whole[n], phrases[k][n]));
                        assert(phrases[k][n] < words.len());
                        assert(starts_with(words[phrases[k][n] as int], last));
                        assert(begins(phrase, all[k]));
                    }
                    if begins_one(phrase, all) {
                        let k = choose|k: int| 0 <= k < all.len() && begins(phrase, #[trigger] all[k]);
                        assert forall|i: int| 0 <= i < whole.len() implies word_covers(
                            #[trigger] whole[i],
                            phrases[k][i],
                        ) by {
                            assert(phrases[k][i] < words.len());
                            if i < n {
                                assert(whole[i] == q[i]);
                                assert(phrase[i] == all[k][i]);
                            } else {
                                assert(starts_with(words[phrases[k][i] as int], last));
                            }
                        }
                        assert(covers(whole, phrases[k]));
                    }
                },
            }
        }
    }

    /// Everything that is contained in full is contained as a prefix.
    pub proof fn contained_in_full_is_contained_as_prefix(
        &self,
        inserted: Seq<Seq<Seq<char>>>,
        phrases: Seq<Seq<u32>>,
        phrase: Seq<Seq<char>>,
        as_prefix: bool,
    )
        requires
            self.holds(inserted, phrases),
            self.may_contain(phrase, Ok(true)),
            self.may_contain_prefix(phrase, Ok(as_prefix)),
        ensures
            as_prefix,
    {
        self.lemma_sound(inserted, phrases);
        self.contains_what_was_inserted(inserted, phrases, phrase, true);
        self.contains_prefix_of_what_was_inserted(inserted, phrases, phrase, as_prefix);
        let k = choose|k: int| 0 <= k < inserted.len() && inserted[k] == phrase;
        if phrase.len() > 0 {
            assert(phrase.last().take(phrase.last().len() as int) =~= phrase.last());
        }
        assert(begins(phrase, inserted[k]));
    }
}

} // verus!
