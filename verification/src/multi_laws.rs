//! What a search for many phrases comes to, where the indexes hold the phrases that were inserted.
use vstd::prelude::*;
use crate::fuzzy_laws;
use crate::laws;
use crate::laws::Distance;
use crate::multi;
use crate::multi::{Corrected, Entry, Input};
use crate::query;
use crate::query::{FuzzyMapLookupResult, QueryWord};
use crate::search;
use crate::search::{FuzzyPhraseSet, Match, SearchError};
use crate::steady_laws;
use crate::steady_laws::is_sought;

verus! {

/// The lookups of a list that differ are those of the list, each once.
pub(crate) proof fn lemma_firsts(requests: Seq<(Seq<char>, bool)>)
    ensures
        multi::firsts(requests).no_duplicates(),
        forall|r: (Seq<char>, bool)| #[trigger]
            multi::firsts(requests).contains(r) <==> requests.contains(r),
    decreases requests.len(),
{
    if requests.len() > 0 {
        let front = requests.drop_last();
        let last = requests.last();
        let before = multi::firsts(front);
        let now = multi::firsts(requests);
        lemma_firsts(front);
        assert forall|r: (Seq<char>, bool)| #[trigger] now.contains(r) <==> requests.contains(r) by {
            if front.contains(r) {
                let k = choose|k: int| 0 <= k < front.len() && front[k] == r;
                assert(requests[k] == r);
            }
            if requests.contains(r) && r != last {
                let k = choose|k: int| 0 <= k < requests.len() && requests[k] == r;
                assert(front[k] == r);
            }
            if !before.contains(last) {
                assert(now == before.push(last));
                if before.contains(r) {
                    let k = choose|k: int| 0 <= k < before.len() && before[k] == r;
                    assert(now[k] == r);
                }
                if now.contains(r) && r != last {
                    let k = choose|k: int| 0 <= k < now.len() && now[k] == r;
                    assert(before[k] == r);
                }
                assert(now[before.len() as int] == last);
            }
            assert(requests[requests.len() - 1] == last);
        }
    }
}

/// The lookups that all the phrases need are those that each one needs.
proof fn lemma_requested(inputs: Seq<Input>, i: int, j: int)
    requires
        0 <= i < inputs.len(),
        0 <= j < inputs[i].0.len(),
    ensures
        multi::requests(inputs).contains(multi::phrase_requests(inputs[i])[j]),
{
    let all = multi::requests(inputs);
    let before = multi::requests(inputs.take(i));
    let mine = multi::phrase_requests(inputs[i]);
    let m = before.len() + j + 1;
    multi::lemma_requests_of_prefix(inputs, i, j + 1);
    assert((before + mine.take(j + 1))[m - 1] == mine[j]);
    assert(all.take(m)[m - 1] == all[m - 1]);
}

/// A phrase gets its results from its own cluster, and from no other.
proof fn lemma_share(
    words: Seq<Seq<char>>,
    inputs: Seq<Input>,
    cs: Seq<Seq<Entry>>,
    found: Seq<Seq<(Seq<QueryWord>, bool)>>,
    c: int,
    i: int,
)
    requires
        found.len() <= cs.len(),
        0 <= i < inputs.len(),
        0 <= c < cs.len(),
        forall|d: int| 0 <= d < cs.len() ==> (#[trigger] multi::in_cluster(cs[d], i) <==> d == c),
    ensures
        multi::all_dealt(words, inputs, cs, found).len() == inputs.len(),
        multi::all_dealt(words, inputs, cs, found)[i] == if c < found.len() {
            search::matches_of(
                words,
                inputs[i].0,
                multi::own(inputs[i].0.len(), inputs[i].1, found[c]),
            )
        } else {
            Seq::empty()
        },
    decreases found.len(),
{
    if found.len() > 0 {
        let front = found.drop_last();
        let last = found.len() - 1;
        lemma_share(words, inputs, cs, front, c, i);
        assert(multi::in_cluster(cs[last], i) <==> last == c);
        if c == last {
            let mine = search::matches_of(
                words,
                inputs[i].0,
                multi::own(inputs[i].0.len(), inputs[i].1, found[c]),
            );
            assert(Seq::<Match>::empty() + mine =~= mine);
        } else if c < last {
            assert(front[c] == found[c]);
        }
    }
}

impl<G, R, L, C, P, M, N, W, E> FuzzyPhraseSet<G, R, L, C, P, M, N, W> where
    G: Fn(&str) -> Option<u64>,
    R: Fn(&str) -> Option<(u64, u64)>,
    L: Fn(&str, u8, &Vec<String>) -> Result<Vec<FuzzyMapLookupResult>, E>,
    C: Fn(&Vec<QueryWord>) -> Result<bool, E>,
    P: Fn(&Vec<QueryWord>) -> Result<bool, E>,
    M: Fn(&Vec<Vec<QueryWord>>, u8) -> Result<Vec<Vec<QueryWord>>, E>,
    N: Fn(&Vec<Vec<QueryWord>>, u8) -> Result<Vec<Vec<QueryWord>>, E>,
    W: Fn(&[Vec<QueryWord>], u8, bool) -> Result<Vec<(Vec<QueryWord>, bool)>, E>,
 {
    /// Each word is looked up only once, or twice if it stands both at the end of a phrase that is
    /// still being typed and elsewhere: a table holds no word twice in the same role. For each
    /// request it holds what a lookup gave, and nothing else.
    pub proof fn each_word_is_looked_up_once(
        &self,
        requests: Seq<(Seq<char>, bool)>,
        edit_distance: u8,
        table: Seq<Corrected>,
    )
        requires
            self.may_correct(requests, edit_distance, Ok(table)),
        ensures
            forall|a: int, b: int|
                0 <= a < b < table.len() ==> !((#[trigger] table[a]).word == (#[trigger] table[b]).word
                    && table[a].terminal == table[b].terminal),
            forall|a: int|
                0 <= a < table.len() ==> requests.contains(
                    ((#[trigger] table[a]).word, table[a].terminal),
                ),
            forall|k: int|
                0 <= k < requests.len() ==> match #[trigger] multi::looked_up(
                    table,
                    requests[k].0,
                    requests[k].1,
                ) {
                    Some(variants) => self.is_correction(
                        requests[k],
                        edit_distance,
                        Corrected { word: requests[k].0, terminal: requests[k].1, variants },
                    ),
                    None => false,
                },
    {
        let lookups = multi::firsts(requests);
        lemma_firsts(requests);
        assert forall|a: int| 0 <= a < table.len() implies (table[a].word, table[a].terminal)
            == #[trigger] lookups[a] by {
            assert(self.is_correction(lookups[a], edit_distance, table[a]));
        }
        assert forall|a: int, b: int| 0 <= a < b < table.len() implies !((#[trigger] table[a]).word
            == (#[trigger] table[b]).word && table[a].terminal == table[b].terminal) by {
            assert(lookups[a] != lookups[b]);
        }
        assert forall|a: int| 0 <= a < table.len() implies requests.contains(
            ((#[trigger] table[a]).word, table[a].terminal),
        ) by {
            assert(lookups.contains(lookups[a]));
        }
        assert forall|k: int| 0 <= k < requests.len() implies match #[trigger] multi::looked_up(
            table,
            requests[k].0,
            requests[k].1,
        ) {
            Some(variants) => self.is_correction(
                requests[k],
                edit_distance,
                Corrected { word: requests[k].0, terminal: requests[k].1, variants },
            ),
            None => false,
        } by {
            let (word, terminal) = requests[k];
            multi::lemma_looked_up(table, word, terminal);
            assert(lookups.contains(requests[k]));
            let n = choose|n: int| 0 <= n < lookups.len() && lookups[n] == requests[k];
            assert(self.is_correction(lookups[n], edit_distance, table[n]));
            if let Some(variants) = multi::looked_up(table, word, terminal) {
                let j = choose|j: int|
                    0 <= j < table.len() && #[trigger] table[j] == (Corrected { word, terminal, variants });
                assert(self.is_correction(lookups[j], edit_distance, table[j]));
            }
        }
    }

    /// What a phrase of a cluster gets is what a search for it looks for.
    proof fn lemma_sought(
        &self,
        inserted: Seq<Seq<Seq<char>>>,
        phrases: Seq<Seq<u32>>,
        table: Seq<Corrected>,
        dist: u8,
        cluster: Seq<Entry>,
        k: int,
        found: Seq<(Seq<QueryWord>, bool)>,
        c: Seq<QueryWord>,
    )
        requires
            self.holds(inserted, phrases),
            multi::is_chain(cluster),
            0 <= k < cluster.len(),
            laws::are_askable(
                multi::phrase_slots(table, (cluster.last().0, cluster.last().1)),
                cluster.last().1,
            ),
            cluster[k].0.len() > 0 || !cluster[k].1 && !inserted.contains(Seq::empty()),
            self.phrase_set.may_match_windows(
                multi::phrase_slots(table, (cluster.last().0, cluster.last().1)),
                dist,
                cluster.last().1,
                Ok(found),
            ),
        ensures
            multi::own(cluster[k].0.len(), cluster[k].1, found).contains(c) <==> is_sought(
                phrases,
                multi::phrase_slots(table, (cluster[k].0, cluster[k].1)),
                dist,
                cluster[k].1,
                c,
            ),
    {
        self.lemma_sound(inserted, phrases);
        let e = cluster[k];
        let last = cluster.last();
        let slots = multi::phrase_slots(table, (last.0, last.1));
        let mine = multi::phrase_slots(table, (e.0, e.1));
        let n = e.0.len() as int;
        steady_laws::lemma_own(e.0.len(), e.1, found, c);
        if k < cluster.len() - 1 {
            assert(multi::goes_on(cluster[k], cluster[cluster.len() - 1]));
            assert(!e.1);
            assert forall|j: int| 0 <= j < n implies #[trigger] mine[j] == slots.take(n)[j] by {
                assert(last.0.take(n)[j] == last.0[j]);
            }
            assert(mine =~= slots.take(n));
        } else {
            assert(mine =~= slots.take(n));
        }
        assert(mine.take(n) =~= mine);
        assert(laws::window_rule(phrases, slots, dist, last.1, found, c));
        if c.len() == 0 && laws::is_phrase(phrases, c) {
            fuzzy_laws::lemma_phrase_in_text(
                inserted,
                self.words(),
                phrases,
                Seq::empty(),
                0,
                c,
            );
            assert(query::written_out(self.words(), Seq::empty(), 0, c) =~= Seq::<Seq<char>>::empty());
        }
    }

    /// The slots of a phrase, filled from a table, are what comes of looking up its words.
    proof fn lemma_slots(
        &self,
        inputs: Seq<Input>,
        d: u8,
        table: Seq<Corrected>,
        i: int,
    )
        requires
            self.may_correct(multi::requests(inputs), d, Ok(table)),
            0 <= i < inputs.len(),
        ensures
            self.may_settle(inputs[i].0, d, inputs[i].1, multi::phrase_slots(table, inputs[i])),
    {
        let all = multi::requests(inputs);
        let input = inputs[i];
        let mine = multi::phrase_slots(table, input);
        self.each_word_is_looked_up_once(all, d, table);
        assert forall|j: int| 0 <= j < mine.len() implies self.may_settle_at(
            input.0,
            d,
            input.1,
            j,
            #[trigger] mine[j],
        ) by {
            let r = multi::phrase_requests(input)[j];
            lemma_requested(inputs, i, j);
            let n = choose|n: int| 0 <= n < all.len() && all[n] == r;
            assert(multi::looked_up(table, all[n].0, all[n].1) is Some);
            let answer = choose|answer: Option<Seq<QueryWord>>| #[trigger]
                self.may_answer_as(r.0, r.1, d, Ok(answer)) && mine[j] == multi::variants_of(answer);
            assert(self.may_answer_at(input.0, d, input.1, j, Ok(answer)));
        }
    }

    /// What a phrase gets comes of the reply for its cluster.
    pub(crate) proof fn lemma_cluster_of(
        &self,
        inputs: Seq<Input>,
        i: int,
        max_word_dist: u8,
        max_phrase_dist: u8,
        lists: Seq<Seq<Match>>,
    ) -> (r: (Seq<Corrected>, Seq<Entry>, int, Seq<(Seq<QueryWord>, bool)>))
        requires
            0 <= i < inputs.len(),
            self.may_fuzzy_match_multi(inputs, max_word_dist, max_phrase_dist, Ok(lists)),
        ensures
            ({
                let (table, cluster, k, dealt) = r;
                let longest = cluster.last();
                &&& self.may_correct(
                    multi::requests(inputs),
                    laws::one_at_most(max_word_dist),
                    Ok(table),
                )
                &&& multi::is_chain(cluster)
                &&& 0 <= k < cluster.len()
                &&& cluster[k] == multi::entry(inputs, i)
                &&& 0 <= longest.2 < inputs.len()
                &&& longest == multi::entry(inputs, longest.2)
                &&& self.may_find_cluster(table, max_phrase_dist, cluster, Ok(dealt))
                &&& lists.len() == inputs.len()
                &&& lists[i] == search::matches_of(
                    self.words(),
                    inputs[i].0,
                    multi::own(inputs[i].0.len(), inputs[i].1, dealt),
                )
            }),
    {
        let d = laws::one_at_most(max_word_dist);
        let words = self.words();
        let (table, arranged) = choose|table: Seq<Corrected>, arranged: Seq<Entry>| #[trigger]
            self.may_correct(multi::requests(inputs), d, Ok(table)) && #[trigger] multi::is_arranged(
                inputs,
                arranged,
            ) && self.may_search_clusters(
                inputs,
                table,
                max_phrase_dist,
                multi::clusters(arranged),
                Ok(lists),
            );
        let cs = multi::clusters(arranged);
        multi::lemma_arranged_entries(inputs, arranged);
        multi::lemma_arranged_apart(inputs, arranged);
        multi::clusters_share_out_the_phrases(arranged);
        let e = multi::entry(inputs, i);
        assert(arranged.contains(e));
        let (c, k) = choose|c: int, k: int| multi::stands_at(cs, e, c, k);
        assert(multi::in_cluster(cs[c], i)) by {
            assert(cs[c][k].2 == i);
        }
        assert forall|a: int| 0 <= a < cs.len() implies (#[trigger] multi::in_cluster(cs[a], i) <==> a == c) by {
            if multi::in_cluster(cs[a], i) {
                let m = choose|m: int| 0 <= m < cs[a].len() && (#[trigger] cs[a][m]).2 == i;
                assert(multi::stands_at(cs, cs[a][m], a, m));
                assert(arranged.contains(cs[a][m]));
                assert(cs[a][m] == e);
                assert(multi::stands_at(cs, e, a, m));
            }
        }
        let replies = choose|found: Seq<Seq<(Seq<QueryWord>, bool)>>| #[trigger]
            self.may_find_clusters(table, max_phrase_dist, cs, found) && found.len() == cs.len()
                && lists == multi::all_dealt(words, inputs, cs, found);
        lemma_share(words, inputs, cs, replies, c, i);
        let cluster = cs[c];
        let dealt = replies[c];
        assert(self.may_find_cluster(table, max_phrase_dist, cluster, Ok(dealt)));
        assert(multi::is_chain(cluster));
        let longest = cluster.last();
        assert(multi::stands_at(cs, longest, c, cluster.len() - 1));
        assert(arranged.contains(longest));
        (table, cluster, k, dealt)
    }

    /// What a phrase gets is what a search for it looks for, each combination once.
    proof fn lemma_dealt(
        &self,
        inserted: Seq<Seq<Seq<char>>>,
        phrases: Seq<Seq<u32>>,
        inputs: Seq<Input>,
        i: int,
        max_word_dist: u8,
        max_phrase_dist: u8,
        lists: Seq<Seq<Match>>,
    ) -> (r: (Seq<Seq<QueryWord>>, Seq<Seq<QueryWord>>))
        requires
            self.holds(inserted, phrases),
            self.fuzzy_map.finds_once(),
            0 <= i < inputs.len(),
            self.may_fuzzy_match_multi(inputs, max_word_dist, max_phrase_dist, Ok(lists)),
        ensures
            lists.len() == inputs.len(),
            lists[i] == search::matches_of(self.words(), inputs[i].0, r.1),
            r.1.no_duplicates(),
            self.may_settle(
                inputs[i].0,
                laws::one_at_most(max_word_dist),
                inputs[i].1,
                r.0,
            ),
            inputs[i].0.len() > 0 || !inputs[i].1 && !inserted.contains(Seq::empty()) ==> forall|
                c: Seq<QueryWord>,
            | #[trigger]
                r.1.contains(c) <==> is_sought(phrases, r.0, max_phrase_dist, inputs[i].1, c),
            inputs[i].0.len() == 0 && inputs[i].1 ==> lists[i].len() == 0,
    {
        self.lemma_sound(inserted, phrases);
        let d = laws::one_at_most(max_word_dist);
        let words = self.words();
        let input = inputs[i];
        let (table, cluster, k, dealt) = self.lemma_cluster_of(
            inputs,
            i,
            max_word_dist,
            max_phrase_dist,
            lists,
        );
        let mine = multi::phrase_slots(table, input);
        self.lemma_slots(inputs, d, table, i);
        let longest = cluster.last();
        self.lemma_slots(inputs, d, table, longest.2);
        let slots = multi::phrase_slots(table, (longest.0, longest.1));
        self.lemma_settled_once(longest.0, d, longest.1, slots);
        self.lemma_settled_askable(longest.0, d, longest.1, slots);
        if k < cluster.len() - 1 {
            assert(multi::goes_on(cluster[k], cluster[cluster.len() - 1]));
        }
        let own = multi::own(input.0.len(), input.1, dealt);
        steady_laws::lemma_own_once(input.0.len(), input.1, dealt);
        if input.0.len() > 0 || !input.1 && !inserted.contains(Seq::empty()) {
            assert forall|q: Seq<QueryWord>| #[trigger] own.contains(q) <==> is_sought(
                phrases,
                mine,
                max_phrase_dist,
                input.1,
                q,
            ) by {
                if longest.0.len() == 0 {
                    if is_sought(phrases, mine, max_phrase_dist, input.1, q) {
                        fuzzy_laws::lemma_phrase_in_text(inserted, words, phrases, Seq::empty(), 0, q);
                        assert(query::written_out(words, Seq::empty(), 0, q) =~= Seq::<
                            Seq<char>,
                        >::empty());
                    }
                } else {
                    self.lemma_sought(
                        inserted,
                        phrases,
                        table,
                        max_phrase_dist,
                        cluster,
                        k,
                        dealt,
                        q,
                    );
                }
            }
        }
        (mine, own)
    }

    /// A search for many phrases gives a list for each of them, by position. Up to their order, the
    /// list holds the results of a fuzzy search for that phrase, or of one for the beginning of a
    /// phrase where it is still being typed. This leaves out the empty phrase where that was
    /// inserted.
    pub proof fn many_phrases_are_found_as_each_alone(
        &self,
        inserted: Seq<Seq<Seq<char>>>,
        phrases: Seq<Seq<u32>>,
        inputs: Seq<Input>,
        i: int,
        max_word_dist: u8,
        max_phrase_dist: u8,
        lists: Seq<Seq<Match>>,
        matches: Seq<Match>,
    )
        requires
            self.is_reliable(inserted, phrases),
            0 <= i < inputs.len(),
            inputs[i].1 || inputs[i].0.len() > 0 || !inserted.contains(Seq::empty()),
            self.may_fuzzy_match_multi(inputs, max_word_dist, max_phrase_dist, Ok(lists)),
            if inputs[i].1 {
                self.may_fuzzy_match_prefix(inputs[i].0, max_word_dist, max_phrase_dist, Ok(matches))
            } else {
                self.may_fuzzy_match(inputs[i].0, max_word_dist, max_phrase_dist, Ok(matches))
            },
        ensures
            lists.len() == inputs.len(),
            lists[i].to_multiset() == matches.to_multiset(),
    {
        self.lemma_sound(inserted, phrases);
        let (typed, ends_in_prefix) = inputs[i];
        let (mine, own) = self.lemma_dealt(
            inserted,
            phrases,
            inputs,
            i,
            max_word_dist,
            max_phrase_dist,
            lists,
        );
        if typed.len() == 0 && ends_in_prefix {
            assert(lists[i] =~= matches);
        } else {
            let found = self.lemma_found_alone(
                inserted,
                phrases,
                typed,
                ends_in_prefix,
                max_word_dist,
                max_phrase_dist,
                mine,
                matches,
            );
            let shown = if ends_in_prefix {
                typed
            } else {
                Seq::empty()
            };
            assert forall|q: Seq<QueryWord>| #[trigger] own.contains(q) implies search::match_of(
                self.words(),
                typed,
                q,
            ) == search::match_of(self.words(), shown, q) by {
                self.lemma_shown(phrases, mine, max_phrase_dist, ends_in_prefix, typed, q);
            }
            steady_laws::lemma_same_matches(self.words(), typed, own, shown, found);
        }
    }

    /// What is found for a phrase does not depend on the others that are searched for with it, nor
    /// on their order: wherever the phrase stands among whatever others, its list holds the same
    /// results up to their order. This leaves out the empty phrase where that was inserted.
    pub proof fn a_phrase_is_found_alike_among_any_others(
        &self,
        inserted: Seq<Seq<Seq<char>>>,
        phrases: Seq<Seq<u32>>,
        inputs: Seq<Input>,
        i: int,
        lists: Seq<Seq<Match>>,
        other_inputs: Seq<Input>,
        j: int,
        other_lists: Seq<Seq<Match>>,
        max_word_dist: u8,
        max_phrase_dist: u8,
    )
        requires
            self.is_reliable(inserted, phrases),
            0 <= i < inputs.len(),
            0 <= j < other_inputs.len(),
            inputs[i] == other_inputs[j],
            inputs[i].1 || inputs[i].0.len() > 0 || !inserted.contains(Seq::empty()),
            self.may_fuzzy_match_multi(inputs, max_word_dist, max_phrase_dist, Ok(lists)),
            self.may_fuzzy_match_multi(
                other_inputs,
                max_word_dist,
                max_phrase_dist,
                Ok(other_lists),
            ),
        ensures
            lists[i].to_multiset() == other_lists[j].to_multiset(),
    {
        self.lemma_sound(inserted, phrases);
        let d = laws::one_at_most(max_word_dist);
        let (typed, ends_in_prefix) = inputs[i];
        let (mine, own) = self.lemma_dealt(
            inserted,
            phrases,
            inputs,
            i,
            max_word_dist,
            max_phrase_dist,
            lists,
        );
        let (other_mine, other_own) = self.lemma_dealt(
            inserted,
            phrases,
            other_inputs,
            j,
            max_word_dist,
            max_phrase_dist,
            other_lists,
        );
        if typed.len() == 0 && ends_in_prefix {
            assert(lists[i] =~= other_lists[j]);
        } else {
            assert forall|k: int| 0 <= k < mine.len() implies #[trigger] mine[k] == other_mine[k] by {
                assert(self.may_settle_at(typed, d, ends_in_prefix, k, mine[k]));
                assert(self.may_settle_at(typed, d, ends_in_prefix, k, other_mine[k]));
                let a = choose|a: Option<Seq<QueryWord>>| #[trigger]
                    self.may_answer_at(typed, d, ends_in_prefix, k, Ok(a)) && other_mine[k]
                        == multi::variants_of(a);
                self.lemma_settled(inserted, phrases, typed, d, ends_in_prefix, k, mine[k], a);
            }
            assert(mine =~= other_mine);
            steady_laws::lemma_same_matches(self.words(), typed, own, typed, other_own);
        }
    }

    /// A search for many phrases finds, for each of them, just what is near to it: phrases that were
    /// inserted or, where it is still being typed, beginnings of such. This leaves out the empty
    /// phrase where that was inserted, and finds nothing for one that is still being typed.
    pub proof fn many_phrases_find_what_is_near(
        &self,
        inserted: Seq<Seq<Seq<char>>>,
        phrases: Seq<Seq<u32>>,
        dist: Distance,
        inputs: Seq<Input>,
        i: int,
        max_word_dist: u8,
        max_phrase_dist: u8,
        lists: Seq<Seq<Match>>,
    )
        requires
            self.holds_by(inserted, phrases, dist),
            0 <= i < inputs.len(),
            self.may_fuzzy_match_multi(inputs, max_word_dist, max_phrase_dist, Ok(lists)),
        ensures
            lists.len() == inputs.len(),
            inputs[i].0.len() > 0 || !inputs[i].1 && !inserted.contains(Seq::empty())
                ==> self.is_what_is_near(
                inserted,
                dist,
                inputs[i].0,
                inputs[i].1,
                max_word_dist,
                max_phrase_dist,
                lists[i],
            ),
            inputs[i].0.len() == 0 && inputs[i].1 ==> lists[i].len() == 0,
    {
        let d = laws::one_at_most(max_word_dist);
        let (typed, ends_in_prefix) = inputs[i];
        let (mine, own) = self.lemma_dealt(
            inserted,
            phrases,
            inputs,
            i,
            max_word_dist,
            max_phrase_dist,
            lists,
        );
        if typed.len() > 0 || !ends_in_prefix && !inserted.contains(Seq::empty()) {
            let shown = if ends_in_prefix {
                typed
            } else {
                Seq::empty()
            };
            assert forall|c: Seq<QueryWord>| #[trigger] own.contains(c) <==> self.is_wanted(
                phrases,
                dist,
                d,
                typed,
                ends_in_prefix,
                max_phrase_dist,
                c,
            ) by {
                self.lemma_settled_wanted(
                    inserted,
                    phrases,
                    dist,
                    d,
                    typed,
                    ends_in_prefix,
                    max_phrase_dist,
                    mine,
                    c,
                );
            }
            assert forall|k: int| 0 <= k < own.len() implies #[trigger] lists[i][k]
                == search::matches_of(self.words(), shown, own)[k] by {
                assert(own.contains(own[k]));
                self.lemma_shown(phrases, mine, max_phrase_dist, ends_in_prefix, typed, own[k]);
            }
            assert(lists[i] =~= search::matches_of(self.words(), shown, own));
            self.lemma_is_what_is_near(
                inserted,
                phrases,
                dist,
                typed,
                ends_in_prefix,
                max_word_dist,
                max_phrase_dist,
                own,
                lists[i],
            );
        }
    }

    /// Where the indexes hold what was inserted, all that a search for many phrases finds can be
    /// written out.
    pub proof fn matches_of_many_phrases_fit(
        &self,
        inserted: Seq<Seq<Seq<char>>>,
        phrases: Seq<Seq<u32>>,
        inputs: Seq<Input>,
        max_word_dist: u8,
        max_phrase_dist: u8,
        outcome: Result<Seq<Seq<Match>>, SearchError<E>>,
    )
        requires
            self.holds(inserted, phrases),
            self.may_fuzzy_match_multi(inputs, max_word_dist, max_phrase_dist, outcome),
        ensures
            outcome != Err::<Seq<Seq<Match>>, SearchError<E>>(SearchError::Unfit),
    {
        self.lemma_sound(inserted, phrases);
        let d = laws::one_at_most(max_word_dist);
        if outcome == Err::<Seq<Seq<Match>>, SearchError<E>>(SearchError::Unfit) {
            let (table, arranged) = choose|table: Seq<Corrected>, arranged: Seq<Entry>| #[trigger]
                self.may_correct(multi::requests(inputs), d, Ok(table)) && #[trigger] multi::is_arranged(
                    inputs,
                    arranged,
                ) && self.may_search_clusters(
                    inputs,
                    table,
                    max_phrase_dist,
                    multi::clusters(arranged),
                    outcome,
                );
            let cs = multi::clusters(arranged);
            let words = self.words().len() as int;
            let (before, reply) = choose|
                found: Seq<Seq<(Seq<QueryWord>, bool)>>,
                reply: Result<Seq<(Seq<QueryWord>, bool)>, E>,
            | #[trigger]
                self.may_find_clusters(table, max_phrase_dist, cs, found) && found.len() < cs.len()
                    && #[trigger] self.may_find_cluster(
                    table,
                    max_phrase_dist,
                    cs[found.len() as int],
                    reply,
                ) && multi::cluster_error(words, cs[found.len() as int], reply) == Some(
                    SearchError::<E>::Unfit,
                );
            let cluster = cs[before.len() as int];
            let longest = cluster.last();
            let slots = multi::phrase_slots(table, (longest.0, longest.1));
            multi::lemma_arranged_entries(inputs, arranged);
            multi::lemma_arranged_apart(inputs, arranged);
            multi::clusters_share_out_the_phrases(arranged);
            assert(multi::stands_at(cs, longest, before.len() as int, cluster.len() - 1));
            assert(arranged.contains(longest));
            self.lemma_slots(inputs, d, table, longest.2);
            self.lemma_settled_askable(longest.0, d, longest.1, slots);
            let found = reply->Ok_0;
            assert forall|k: int, i: int|
                0 <= k < cluster.len() && 0 <= i < found.len() && multi::claims(
                    (#[trigger] cluster[k]).0.len(),
                    cluster[k].1,
                    #[trigger] found[i],
                ) implies query::fits(words, cluster[k].0.len() as int, 0, found[i].0) by {
                let c = found[i].0;
                assert(self.phrase_set.may_match_windows(
                    slots,
                    max_phrase_dist,
                    longest.1,
                    Ok(found),
                ));
                assert(found.contains(found[i]));
                assert(laws::window_rule(phrases, slots, max_phrase_dist, longest.1, found, c));
                assert(found.contains((c, true)) || found.contains((c, false)));
                if found.contains((c, false)) {
                    fuzzy_laws::lemma_phrase_begins(phrases, c);
                }
                fuzzy_laws::lemma_beginning_fits(
                    words,
                    phrases,
                    c.len() as int,
                    0,
                    max_phrase_dist,
                    c,
                );
            }
            assert(multi::cluster_fits(words, cluster, found));
        }
    }
}

} // verus!
