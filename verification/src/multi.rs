//! Searching for many phrases at once, with the work that they share done once.
use vstd::prelude::*;
use crate::index;
use crate::order;
use crate::order::Ordered;
use crate::query;
use crate::query::{FuzzyMapLookupResult, QueryWord};
use crate::search;
use crate::search::{FuzzyMatchResult, FuzzyPhraseSet, Match, SearchError};
use crate::text;
use crate::text::{Standing, Word};

verus! {

/// A phrase that is asked for, and whether it is still being typed.
pub type Input = (Seq<Seq<char>>, bool);

/// The phrases that are asked for.
pub open spec fn inputs_of<T: Word>(phrases: Seq<(&[T], bool)>) -> Seq<Input> {
    phrases.map_values(|p: (&[T], bool)| (text::texts(p.0@), p.1))
}

/// A phrase that is asked for, with its position.
pub type Entry = (Seq<Seq<char>>, bool, int);

/// The phrase that is asked for at position `i`.
pub open spec fn entry(inputs: Seq<Input>, i: int) -> Entry {
    (inputs[i].0, inputs[i].1, i)
}

/// The phrases that are asked for, with their positions.
pub open spec fn entries(inputs: Seq<Input>) -> Seq<Entry> {
    Seq::new(inputs.len(), |i: int| entry(inputs, i))
}

/// The order by words; then what is complete comes before what is still being typed; then the
/// order by position.
pub open spec fn entry_order() -> spec_fn(Entry, Entry) -> bool {
    |a: Entry, b: Entry|
        {
            ||| order::words_order()(a.0, b.0)
            ||| a.0 == b.0 && !a.1 && b.1
            ||| a.0 == b.0 && a.1 == b.1 && a.2 < b.2
        }
}

/// The order of entries is strict.
proof fn entry_order_is_strict()
    ensures
        order::is_strict_order(entry_order()),
{
    order::words_order_is_strict();
    let w = order::words_order();
    let lt = entry_order();
    assert forall|x: Entry, y: Entry, z: Entry| #[trigger] lt(x, y) && #[trigger] lt(y, z) implies lt(x, z) by {
        if w(x.0, y.0) && w(y.0, z.0) {
            assert(w(x.0, z.0));
        }
    }
    assert forall|x: Entry, y: Entry| #[trigger] lt(x, y) || x == y || lt(y, x) by {
        assert(w(x.0, y.0) || x.0 == y.0 || w(y.0, x.0));
    }
    assert forall|x: Entry| !#[trigger] lt(x, x) by {
        assert(!w(x.0, x.0));
    }
}

/// A phrase that is asked for, while it is being put in order.
struct Indexed<'a, T> {
    words: &'a [T],
    ends_in_prefix: bool,
    index: usize,
}

/// Compares two phrases word by word.
fn stand_words<T: Word>(a: &[T], b: &[T]) -> (r: Standing)
    ensures
        r == Standing::Before <==> order::words_order()(text::texts(a@), text::texts(b@)),
        r == Standing::Same <==> text::texts(a@) == text::texts(b@),
        r == Standing::After <==> order::words_order()(text::texts(b@), text::texts(a@)),
{
    let ghost x = text::texts(a@);
    let ghost y = text::texts(b@);
    let mut k: usize = 0;
    proof {
        order::words_order_is_strict();
        order::text_order_is_strict();
        assert(x.take(0) == y.take(0));
    }
    while k < a.len() && k < b.len()
        invariant
            order::is_strict_order(order::words_order()),
            order::is_strict_order(order::text_order()),
            x == text::texts(a@),
            y == text::texts(b@),
            k <= a@.len(),
            k <= b@.len(),
            x.take(k as int) == y.take(k as int),
        decreases a@.len() - k,
    {
        let s = text::stand(a[k].as_text(), b[k].as_text());
        match s {
            Standing::Before => {
                assert(order::precedes_at(order::text_order(), x, y, k as int));
                assert(order::words_order()(x, y));
                return Standing::Before;
            },
            Standing::After => {
                assert(order::precedes_at(order::text_order(), y, x, k as int));
                assert(order::words_order()(y, x));
                return Standing::After;
            },
            Standing::Same => {
                assert(x.take(k + 1) == x.take(k as int).push(x[k as int]));
                assert(y.take(k + 1) == y.take(k as int).push(y[k as int]));
            },
        }
        k = k + 1;
    }
    if a.len() == b.len() {
        assert(x == x.take(k as int));
        assert(y == y.take(k as int));
        Standing::Same
    } else if a.len() < b.len() {
        assert(order::precedes_at(order::text_order(), x, y, k as int));
        assert(order::words_order()(x, y));
        Standing::Before
    } else {
        assert(order::precedes_at(order::text_order(), y, x, k as int));
        assert(order::words_order()(y, x));
        Standing::After
    }
}

impl<'a, T: Word> Ordered for Indexed<'a, T> {
    type Key = Entry;

    closed spec fn key(&self) -> Entry {
        (text::texts(self.words@), self.ends_in_prefix, self.index as int)
    }

    open spec fn order() -> spec_fn(Entry, Entry) -> bool {
        entry_order()
    }

    proof fn order_is_strict() {
        entry_order_is_strict();
    }

    fn precedes(&self, other: &Self) -> (r: bool) {
        proof {
            order::words_order_is_strict();
        }
        match stand_words(self.words, other.words) {
            Standing::Before => true,
            Standing::After => false,
            Standing::Same => if self.ends_in_prefix == other.ends_in_prefix {
                self.index < other.index
            } else {
                other.ends_in_prefix
            },
        }
    }
}

/// `arranged` are the phrases that are asked for, in order.
pub open spec fn is_arranged(inputs: Seq<Input>, arranged: Seq<Entry>) -> bool {
    &&& order::sorted(entry_order(), arranged)
    &&& arranged.to_multiset() == entries(inputs).to_multiset()
}

/// `b` goes on where `a`, which is complete, ends.
pub open spec fn goes_on(a: Entry, b: Entry) -> bool {
    &&& !a.1
    &&& a.0.len() < b.0.len()
    &&& b.0.take(a.0.len() as int) == a.0
}

/// Phrases in order, as clusters: a phrase that goes on where the one before it ends is in the
/// same cluster. The last of a cluster is its longest, and the others begin it.
pub open spec fn clusters(arranged: Seq<Entry>) -> Seq<Seq<Entry>>
    decreases arranged.len(),
{
    if arranged.len() == 0 {
        Seq::empty()
    } else {
        let before = clusters(arranged.drop_last());
        if arranged.len() > 1 && goes_on(arranged[arranged.len() - 2], arranged.last()) {
            before.drop_last().push(before.last().push(arranged.last()))
        } else {
            before.push(seq![arranged.last()])
        }
    }
}

/// The phrases at some positions.
pub open spec fn group_entries(inputs: Seq<Input>, group: Seq<usize>) -> Seq<Entry> {
    group.map_values(|i: usize| entry(inputs, i as int))
}

/// The phrases at some lists of positions.
pub open spec fn groups_entries(inputs: Seq<Input>, groups: Seq<Vec<usize>>) -> Seq<Seq<Entry>> {
    groups.map_values(|g: Vec<usize>| group_entries(inputs, g@))
}

proof fn lemma_clusters_end(arranged: Seq<Entry>)
    requires
        arranged.len() > 0,
    ensures
        clusters(arranged).len() > 0,
        clusters(arranged).last().len() > 0,
        clusters(arranged).last().last() == arranged.last(),
{
}

/// Whether the words of `long` begin with those of `short`, and go on.
fn extends<T: Word>(short: &[T], long: &[T]) -> (r: bool)
    ensures
        r == (text::texts(short@).len() < text::texts(long@).len() && text::texts(long@).take(
            text::texts(short@).len() as int,
        ) == text::texts(short@)),
{
    if long.len() <= short.len() {
        return false;
    }
    let ghost x = text::texts(short@);
    let ghost y = text::texts(long@);
    let mut k: usize = 0;
    while k < short.len()
        invariant
            x == text::texts(short@),
            y == text::texts(long@),
            x.len() < y.len(),
            k <= short@.len(),
            forall|j: int| 0 <= j < k ==> x[j] == #[trigger] y[j],
        decreases short@.len() - k,
    {
        if !text::same_text(short[k].as_text(), long[k].as_text()) {
            assert(y.take(x.len() as int)[k as int] == y[k as int]);
            return false;
        }
        k = k + 1;
    }
    assert(y.take(x.len() as int) =~= x);
    true
}

/// Puts the phrases that are asked for in order, and finds the clusters.
pub fn group_phrases<T: Word>(phrases: &[(&[T], bool)]) -> (r: Vec<Vec<usize>>)
    ensures
        exists|arranged: Seq<Entry>| #[trigger]
            is_arranged(inputs_of(phrases@), arranged) && groups_entries(inputs_of(phrases@), r@)
                == clusters(arranged),
        forall|g: int, k: int|
            0 <= g < r@.len() && 0 <= k < r@[g]@.len() ==> #[trigger] r@[g]@[k] < phrases@.len(),
{
    let ghost inputs = inputs_of(phrases@);
    let mut indexed: Vec<Indexed<T>> = Vec::new();
    let mut i: usize = 0;
    while i < phrases.len()
        invariant
            inputs == inputs_of(phrases@),
            i <= phrases@.len(),
            indexed@.len() == i,
            order::keys(indexed@) == entries(inputs).take(i as int),
        decreases phrases@.len() - i,
    {
        let ghost before = indexed@;
        indexed.push(Indexed { words: phrases[i].0, ends_in_prefix: phrases[i].1, index: i });
        i = i + 1;
        assert(order::keys(indexed@) =~= order::keys(before).push(entry(inputs, i - 1)));
        assert(order::keys(indexed@) =~= entries(inputs).take(i as int));
    }
    assert(entries(inputs).take(i as int) == entries(inputs));
    let indexed = order::sort(indexed);
    let ghost arranged = order::keys(indexed@);
    assert(is_arranged(inputs, arranged));
    proof {
        lemma_arranged_entries(inputs, arranged);
    }
    let mut groups: Vec<Vec<usize>> = Vec::new();
    let mut group: Vec<usize> = Vec::new();
    let mut j: usize = 0;
    assert(arranged.take(0) == Seq::<Entry>::empty());
    assert(groups_entries(inputs, groups@) =~= clusters(arranged.take(0)));
    while j < indexed.len()
        invariant
            inputs == inputs_of(phrases@),
            arranged == order::keys(indexed@),
            forall|k: int| 0 <= k < arranged.len() ==> {
                let e = #[trigger] arranged[k];
                0 <= e.2 < inputs.len() && e == entry(inputs, e.2)
            },
            j <= indexed@.len(),
            group@.len() > 0 ==> 0 < j < indexed@.len() && goes_on(arranged[j - 1], arranged[j as int]),
            j > 0 && group@.len() == 0 && j < indexed@.len() ==> !goes_on(arranged[j - 1], arranged[j as int]),
            group@.len() > 0 ==> groups_entries(inputs, groups@).push(group_entries(inputs, group@))
                == clusters(arranged.take(j as int)),
            group@.len() == 0 ==> groups_entries(inputs, groups@) == clusters(
                arranged.take(j as int),
            ),
            forall|g: int, k: int|
                0 <= g < groups@.len() && 0 <= k < groups@[g]@.len() ==> #[trigger] groups@[g]@[k]
                    < inputs.len(),
            forall|k: int| 0 <= k < group@.len() ==> #[trigger] group@[k] < inputs.len(),
        decreases indexed@.len() - j,
    {
        let ghost old_group = group@;
        let ghost old_groups = groups@;
        let item = &indexed[j];
        proof {
            assert(arranged[j as int] == indexed@[j as int].key());
            assert(arranged.take(j + 1).drop_last() == arranged.take(j as int));
            assert(arranged.take(j + 1).last() == arranged[j as int]);
            if j > 0 {
                assert(arranged.take(j + 1)[j - 1] == arranged[j - 1]);
            }
        }
        group.push(item.index);
        proof {
            assert(group_entries(inputs, group@) =~= group_entries(inputs, old_group).push(
                arranged[j as int],
            ));
            let before = clusters(arranged.take(j as int));
            if old_group.len() > 0 {
                assert(before.drop_last() =~= groups_entries(inputs, groups@));
                assert(before.last() == group_entries(inputs, old_group));
            } else {
                assert(group_entries(inputs, old_group) =~= Seq::<Entry>::empty());
                assert(group_entries(inputs, group@) =~= seq![arranged[j as int]]);
            }
            assert(groups_entries(inputs, groups@).push(group_entries(inputs, group@)) =~= clusters(
                arranged.take(j + 1),
            ));
        }
        let done_with_group = if j + 1 < indexed.len() {
            let peek = &indexed[j + 1];
            assert(arranged[j + 1] == indexed@[j + 1].key());
            item.ends_in_prefix || !extends(item.words, peek.words)
        } else {
            true
        };
        if done_with_group {
            let ghost g = group@;
            groups.push(group);
            assert(groups_entries(inputs, groups@) =~= groups_entries(inputs, old_groups).push(
                group_entries(inputs, g),
            ));
            group = Vec::new();
        }
        j = j + 1;
    }
    assert(arranged.take(j as int) == arranged);
    groups
}

pub(crate) proof fn lemma_arranged_entries(inputs: Seq<Input>, arranged: Seq<Entry>)
    requires
        is_arranged(inputs, arranged),
    ensures
        arranged.len() == inputs.len(),
        forall|k: int| 0 <= k < arranged.len() ==> {
            let e = #[trigger] arranged[k];
            0 <= e.2 < inputs.len() && e == entry(inputs, e.2)
        },
{
    broadcast use vstd::seq_lib::group_to_multiset_ensures;

    assert(arranged.len() == arranged.to_multiset().len());
    assert forall|k: int| 0 <= k < arranged.len() implies ({
        let e = #[trigger] arranged[k];
        0 <= e.2 < inputs.len() && e == entry(inputs, e.2)
    }) by {
        let e = arranged[k];
        assert(arranged.contains(e));
        assert(arranged.to_multiset().contains(e));
        assert(entries(inputs).to_multiset().contains(e));
        assert(entries(inputs).contains(e));
    }
}

/// In a cluster, every phrase goes on where the ones before it end.
pub open spec fn is_chain(cluster: Seq<Entry>) -> bool {
    forall|k: int, m: int|
        0 <= k < m < cluster.len() ==> goes_on(#[trigger] cluster[k], #[trigger] cluster[m])
}

/// `e` stands in cluster `c` at place `k`.
pub open spec fn stands_at(cs: Seq<Seq<Entry>>, e: Entry, c: int, k: int) -> bool {
    0 <= c < cs.len() && 0 <= k < cs[c].len() && cs[c][k] == e
}

/// Clusters are chains that are not empty. Together they hold the phrases that they were made
/// from, each at one place only.
pub proof fn clusters_share_out_the_phrases(arranged: Seq<Entry>)
    requires
        arranged.no_duplicates(),
    ensures
        forall|c: int| 0 <= c < clusters(arranged).len() ==> (#[trigger] clusters(arranged)[c]).len() > 0,
        forall|c: int| 0 <= c < clusters(arranged).len() ==> is_chain(#[trigger] clusters(arranged)[c]),
        forall|e: Entry|
            arranged.contains(e) ==> exists|c: int, k: int| stands_at(clusters(arranged), e, c, k),
        forall|e: Entry, c: int, k: int| #[trigger]
            stands_at(clusters(arranged), e, c, k) ==> arranged.contains(e),
        forall|e: Entry, c: int, k: int, d: int, m: int| #[trigger]
            stands_at(clusters(arranged), e, c, k) && #[trigger] stands_at(
                clusters(arranged),
                e,
                d,
                m,
            ) ==> c == d && k == m,
    decreases arranged.len(),
{
    let cs = clusters(arranged);
    if arranged.len() > 0 {
        let front = arranged.drop_last();
        let last = arranged.last();
        assert(front.no_duplicates());
        clusters_share_out_the_phrases(front);
        let before = clusters(front);
        assert(!front.contains(last));
        if front.len() > 0 {
            lemma_clusters_end(front);
        }
        let joined = arranged.len() > 1 && goes_on(arranged[arranged.len() - 2], last);
        assert(cs.len() == if joined { before.len() } else { before.len() + 1 });
        let lc = cs.len() - 1;
        let lk = cs[lc].len() - 1;
        assert(cs[lc][lk] == last);
        // apart from the new place, nothing has moved
        assert forall|c: int, k: int| 0 <= c < cs.len() && 0 <= k < cs[c].len() && !(c == lc && k == lk)
            implies 0 <= c < before.len() && 0 <= k < before[c].len() && cs[c][k] == #[trigger] before[c][k] by {
            if joined && c == lc {
                assert(cs[c] == before[c].push(last));
            } else if c < before.len() {
                assert(cs[c] == before[c]);
            }
        }
        assert forall|c: int, k: int| 0 <= c < before.len() && 0 <= k < before[c].len() implies 0 <= c
            < cs.len() && 0 <= k < cs[c].len() && #[trigger] cs[c][k] == before[c][k] && !(c == lc && k
            == lk) by {
            if joined && c == lc {
                assert(cs[c] == before[c].push(last));
            } else {
                assert(cs[c] == before[c]);
            }
        }
        assert forall|c: int| 0 <= c < cs.len() implies (#[trigger] cs[c]).len() > 0 by {
            if !(joined && c == lc) && c < before.len() {
                assert(cs[c] == before[c]);
            }
        }
        assert forall|c: int| 0 <= c < cs.len() implies is_chain(#[trigger] cs[c]) by {
            if joined && c == lc {
                let old = before[c];
                assert(cs[c] == old.push(last));
                assert(is_chain(old));
                assert(old.last() == arranged[arranged.len() - 2]);
                assert forall|k: int, m: int| 0 <= k < m < cs[c].len() implies goes_on(
                    #[trigger] cs[c][k],
                    #[trigger] cs[c][m],
                ) by {
                    if m < old.len() {
                        assert(goes_on(old[k], old[m]));
                    } else if k < old.len() - 1 {
                        let a = old[k];
                        let b = old[old.len() - 1];
                        assert(goes_on(a, b));
                        assert(goes_on(b, last));
                        assert(last.0.take(a.0.len() as int) == last.0.take(b.0.len() as int).take(
                            a.0.len() as int,
                        ));
                    }
                }
            } else if c < before.len() {
                assert(cs[c] == before[c]);
            }
        }
        assert forall|e: Entry| arranged.contains(e) implies exists|c: int, k: int| stands_at(cs, e, c, k) by {
            if e == last {
                assert(stands_at(cs, e, lc, lk));
            } else {
                let j = choose|j: int| 0 <= j < arranged.len() && arranged[j] == e;
                assert(front[j] == e);
                assert(front.contains(e));
                let (c, k) = choose|c: int, k: int| stands_at(before, e, c, k);
                assert(cs[c][k] == before[c][k]);
                assert(stands_at(cs, e, c, k));
            }
        }
        assert forall|e: Entry, c: int, k: int| #[trigger] stands_at(cs, e, c, k) implies arranged.contains(
            e,
        ) by {
            if c == lc && k == lk {
                assert(arranged[arranged.len() - 1] == e);
            } else {
                assert(cs[c][k] == before[c][k]);
                assert(stands_at(before, e, c, k));
                assert(front.contains(e));
                let j = choose|j: int| 0 <= j < front.len() && front[j] == e;
                assert(arranged[j] == e);
            }
        }
        assert forall|e: Entry, c: int, k: int, d: int, m: int| #[trigger]
            stands_at(cs, e, c, k) && #[trigger] stands_at(cs, e, d, m) implies c == d && k == m by {
            if c == lc && k == lk {
                if !(d == lc && m == lk) {
                    assert(cs[d][m] == before[d][m]);
                    assert(stands_at(before, e, d, m));
                }
            } else {
                assert(cs[c][k] == before[c][k]);
                assert(stands_at(before, e, c, k));
                if d == lc && m == lk {
                } else {
                    assert(cs[d][m] == before[d][m]);
                    assert(stands_at(before, e, d, m));
                }
            }
        }
    }
}

/// The phrases that are asked for are put in order: by their words, then those that are complete
/// before those that are still being typed, then by their positions. Each comes once.
pub proof fn phrases_are_put_in_order(inputs: Seq<Input>, arranged: Seq<Entry>)
    requires
        is_arranged(inputs, arranged),
    ensures
        arranged.len() == inputs.len(),
        arranged.no_duplicates(),
        forall|k: int|
            0 <= k < arranged.len() ==> {
                let e = #[trigger] arranged[k];
                0 <= e.2 < inputs.len() && e.0 == inputs[e.2].0 && e.1 == inputs[e.2].1
            },
        forall|a: int, b: int|
            0 <= a < b < arranged.len() ==> {
                let x = #[trigger] arranged[a];
                let y = #[trigger] arranged[b];
                ||| order::words_order()(x.0, y.0)
                ||| x.0 == y.0 && !x.1 && y.1
                ||| x.0 == y.0 && x.1 == y.1 && x.2 < y.2
            },
{
    lemma_arranged_entries(inputs, arranged);
    lemma_arranged_apart(inputs, arranged);
    entry_order_is_strict();
    assert forall|a: int, b: int| 0 <= a < b < arranged.len() implies ({
        let x = #[trigger] arranged[a];
        let y = #[trigger] arranged[b];
        ||| order::words_order()(x.0, y.0)
        ||| x.0 == y.0 && !x.1 && y.1
        ||| x.0 == y.0 && x.1 == y.1 && x.2 < y.2
    }) by {
        let x = arranged[a];
        let y = arranged[b];
        assert(!entry_order()(y, x));
        assert(x != y);
        assert(entry_order()(x, y) || x == y || entry_order()(y, x));
    }
}

/// Of two phrases that come one after the other, the second is searched together with the first
/// just if the first is complete and the second goes on where it ends: then it comes next in the
/// same cluster. Otherwise the next cluster begins with it.
pub proof fn phrases_that_go_on_are_searched_together(arranged: Seq<Entry>, n: int) -> (r: (int, int))
    requires
        0 <= n < arranged.len(),
    ensures
        stands_at(clusters(arranged), arranged[n], r.0, r.1),
        n == 0 ==> r == (0int, 0int),
        n + 1 < arranged.len() ==> {
            let (a, b) = (arranged[n], arranged[n + 1]);
            if !a.1 && a.0.len() < b.0.len() && a.0.is_prefix_of(b.0) {
                stands_at(clusters(arranged), b, r.0, r.1 + 1)
            } else {
                stands_at(clusters(arranged), b, r.0 + 1, 0)
            }
        },
        n + 1 == arranged.len() ==> r.0 == clusters(arranged).len() - 1 && r.1 == clusters(
            arranged,
        )[r.0].len() - 1,
    decreases arranged.len(),
{
    let cs = clusters(arranged);
    let front = arranged.drop_last();
    let before = clusters(front);
    let len = arranged.len() as int;
    let last = arranged.last();
    if len == 1 {
        assert(before =~= Seq::<Seq<Entry>>::empty());
        assert(cs =~= seq![seq![last]]);
        (0, 0)
    } else {
        let end = phrases_that_go_on_are_searched_together(front, len - 2);
        let joined = goes_on(arranged[len - 2], last);
        let x = arranged[len - 2];
        assert(joined <==> !x.1 && x.0.len() < last.0.len() && x.0.is_prefix_of(last.0)) by {
            if x.0.is_prefix_of(last.0) {
                assert(last.0.take(x.0.len() as int) =~= x.0);
            }
            if joined {
                assert(x.0 =~= last.0.subrange(0, x.0.len() as int));
            }
        }
        assert(front[len - 2] == x);
        if joined {
            assert(cs == before.drop_last().push(before.last().push(last)));
        } else {
            assert(cs == before.push(seq![last]));
        }
        // what stood somewhere before still stands there
        assert forall|e: Entry, c: int, k: int| #[trigger] stands_at(before, e, c, k) implies stands_at(
            cs,
            e,
            c,
            k,
        ) by {
            if joined && c == before.len() - 1 {
                assert(cs[c] == before[c].push(last));
            } else {
                assert(cs[c] == before[c]);
            }
        }
        if n == len - 1 {
            if joined {
                assert(stands_at(cs, last, end.0, end.1 + 1));
                (end.0, end.1 + 1)
            } else {
                assert(stands_at(cs, last, end.0 + 1, 0));
                (end.0 + 1, 0)
            }
        } else if n == len - 2 {
            assert(stands_at(cs, x, end.0, end.1));
            end
        } else {
            let r = phrases_that_go_on_are_searched_together(front, n);
            assert(front[n] == arranged[n]);
            assert(front[n + 1] == arranged[n + 1]);
            r
        }
    }
}

pub(crate) proof fn lemma_arranged_apart(inputs: Seq<Input>, arranged: Seq<Entry>)
    requires
        is_arranged(inputs, arranged),
    ensures
        arranged.no_duplicates(),
        forall|i: int| 0 <= i < inputs.len() ==> arranged.contains(#[trigger] entry(inputs, i)),
{
    broadcast use vstd::seq_lib::group_to_multiset_ensures;

    let es = entries(inputs);
    assert(es.no_duplicates());
    es.lemma_multiset_has_no_duplicates();
    assert(arranged.to_multiset() == es.to_multiset());
    assert forall|e: Entry| arranged.to_multiset().contains(e) implies arranged.to_multiset().count(e) == 1 by {
        assert(es.to_multiset().contains(e));
    }
    arranged.lemma_multiset_has_no_duplicates_conv();
    assert forall|i: int| 0 <= i < inputs.len() implies arranged.contains(#[trigger] entry(inputs, i)) by {
        assert(es[i] == entry(inputs, i));
        assert(es.contains(es[i]));
        assert(es.to_multiset().contains(es[i]));
    }
}

/// The possibilities of a word that have been looked up: either for the middle of a phrase, or for
/// the end of one that is still being typed.
pub struct Corrected {
    pub word: Seq<char>,
    pub terminal: bool,
    pub variants: Seq<QueryWord>,
}

/// The possibilities of a word that have been looked up, in memory.
struct Correction<'a> {
    word: &'a str,
    terminal: bool,
    variants: Vec<QueryWord>,
}

impl<'a> View for Correction<'a> {
    type V = Corrected;

    closed spec fn view(&self) -> Corrected {
        Corrected { word: self.word@, terminal: self.terminal, variants: self.variants@ }
    }
}

/// The words that have been looked up.
spec fn table_of(table: Seq<Correction>) -> Seq<Corrected> {
    table.map_values(|c: Correction| c@)
}

/// The possibilities of a word in a table.
pub open spec fn looked_up(table: Seq<Corrected>, word: Seq<char>, terminal: bool) -> Option<Seq<QueryWord>>
    decreases table.len(),
{
    if table.len() == 0 {
        None
    } else if table.last().word == word && table.last().terminal == terminal {
        Some(table.last().variants)
    } else {
        looked_up(table.drop_last(), word, terminal)
    }
}

/// The possibilities that an answer comes to. Where nothing was found, nothing can stand in that
/// place.
pub open spec fn variants_of(answer: Option<Seq<QueryWord>>) -> Seq<QueryWord> {
    match answer {
        Some(variants) => variants,
        None => Seq::empty(),
    }
}

/// The lookups that a phrase needs, word by word: only the last word of a phrase that is still
/// being typed is looked up as such.
pub open spec fn phrase_requests(input: Input) -> Seq<(Seq<char>, bool)> {
    Seq::new(input.0.len(), |i: int| (input.0[i], input.1 && i == input.0.len() - 1))
}

/// The lookups that all the phrases need.
pub open spec fn requests(inputs: Seq<Input>) -> Seq<(Seq<char>, bool)>
    decreases inputs.len(),
{
    if inputs.len() == 0 {
        Seq::empty()
    } else {
        requests(inputs.drop_last()) + phrase_requests(inputs.last())
    }
}

/// The lookups of a list that differ, in the order in which they first occur.
pub open spec fn firsts(requests: Seq<(Seq<char>, bool)>) -> Seq<(Seq<char>, bool)>
    decreases requests.len(),
{
    if requests.len() == 0 {
        Seq::empty()
    } else {
        let before = firsts(requests.drop_last());
        if before.contains(requests.last()) {
            before
        } else {
            before.push(requests.last())
        }
    }
}

/// The slots of a phrase, filled from a table.
pub open spec fn phrase_slots(table: Seq<Corrected>, input: Input) -> Seq<Seq<QueryWord>> {
    phrase_requests(input).map_values(
        |r: (Seq<char>, bool)|
            match looked_up(table, r.0, r.1) {
                Some(variants) => variants,
                None => Seq::empty(),
            },
    )
}

/// The combinations that are as long as a phrase, and end in a prefix just if it does.
pub open spec fn own(len: nat, ends_in_prefix: bool, found: Seq<(Seq<QueryWord>, bool)>) -> Seq<Seq<QueryWord>>
    decreases found.len(),
{
    if found.len() == 0 {
        Seq::empty()
    } else {
        let before = own(len, ends_in_prefix, found.drop_last());
        if claims(len, ends_in_prefix, found.last()) {
            before.push(found.last().0)
        } else {
            before
        }
    }
}

/// A combination is as long as a phrase, and ends in a prefix just if it does.
pub open spec fn claims(len: nat, ends_in_prefix: bool, found: (Seq<QueryWord>, bool)) -> bool {
    found.0.len() == len && found.1 == ends_in_prefix
}

/// The phrase at position `i` is in a cluster.
pub open spec fn in_cluster(cluster: Seq<Entry>, i: int) -> bool {
    exists|k: int| 0 <= k < cluster.len() && (#[trigger] cluster[k]).2 == i
}

/// All the combinations that belong to a phrase of the cluster can be written out.
pub open spec fn cluster_fits(
    words: int,
    cluster: Seq<Entry>,
    found: Seq<(Seq<QueryWord>, bool)>,
) -> bool {
    forall|k: int, i: int|
        0 <= k < cluster.len() && 0 <= i < found.len() && claims(
            (#[trigger] cluster[k]).0.len(),
            cluster[k].1,
            #[trigger] found[i],
        ) ==> query::fits(words, cluster[k].0.len() as int, 0, found[i].0)
}

/// Results with the combinations of one cluster dealt out: each phrase of the cluster gets those
/// that belong to it, written out, and what belongs to none is left aside.
pub open spec fn dealt(
    words: Seq<Seq<char>>,
    inputs: Seq<Input>,
    cluster: Seq<Entry>,
    before: Seq<Seq<Match>>,
    found: Seq<(Seq<QueryWord>, bool)>,
) -> Seq<Seq<Match>> {
    Seq::new(
        before.len(),
        |i: int|
            if in_cluster(cluster, i) {
                before[i] + search::matches_of(
                    words,
                    inputs[i].0,
                    own(inputs[i].0.len(), inputs[i].1, found),
                )
            } else {
                before[i]
            },
    )
}

/// What the search makes of the phrase graph's reply for one cluster.
pub open spec fn with_cluster<E>(
    words: Seq<Seq<char>>,
    inputs: Seq<Input>,
    cluster: Seq<Entry>,
    before: Seq<Seq<Match>>,
    reply: Result<Seq<(Seq<QueryWord>, bool)>, E>,
) -> Result<Seq<Seq<Match>>, SearchError<E>> {
    match reply {
        Err(e) => Err(SearchError::Index(e)),
        Ok(found) => if cluster_fits(words.len() as int, cluster, found) {
            Ok(dealt(words, inputs, cluster, before, found))
        } else {
            Err(SearchError::Unfit)
        },
    }
}

/// What makes an end to a search at a cluster: a reply that is an error, or that cannot be written
/// out.
pub open spec fn cluster_error<E>(
    words: int,
    cluster: Seq<Entry>,
    reply: Result<Seq<(Seq<QueryWord>, bool)>, E>,
) -> Option<SearchError<E>> {
    match reply {
        Err(e) => Some(SearchError::Index(e)),
        Ok(found) => if cluster_fits(words, cluster, found) {
            None
        } else {
            Some(SearchError::Unfit)
        },
    }
}

/// The combinations that were found for the first of some clusters, dealt out.
pub open spec fn all_dealt(
    words: Seq<Seq<char>>,
    inputs: Seq<Input>,
    clusters: Seq<Seq<Entry>>,
    found: Seq<Seq<(Seq<QueryWord>, bool)>>,
) -> Seq<Seq<Match>>
    decreases found.len(),
{
    if found.len() == 0 {
        Seq::new(inputs.len(), |i: int| Seq::empty())
    } else {
        dealt(
            words,
            inputs,
            clusters[found.len() - 1],
            all_dealt(words, inputs, clusters, found.drop_last()),
            found.last(),
        )
    }
}

/// The matches of lists of results.
pub open spec fn seen_lists(results: Seq<Vec<FuzzyMatchResult>>) -> Seq<Seq<Match>> {
    results.map_values(|v: Vec<FuzzyMatchResult>| search::seen_matches(v@))
}

/// The outcome of a search for many phrases as a mathematical value.
pub open spec fn seen<E>(outcome: Result<Vec<Vec<FuzzyMatchResult>>, SearchError<E>>) -> Result<
    Seq<Seq<Match>>,
    SearchError<E>,
> {
    match outcome {
        Ok(v) => Ok(seen_lists(v@)),
        Err(e) => Err(e),
    }
}

/// Deals out what the phrase graph replied for one cluster.
pub fn add_cluster<T: Word, E>(
    words: &Vec<String>,
    phrases: &[(&[T], bool)],
    group: &Vec<usize>,
    before: Vec<Vec<FuzzyMatchResult>>,
    reply: Result<Vec<(Vec<QueryWord>, bool)>, E>,
) -> (r: Result<Vec<Vec<FuzzyMatchResult>>, SearchError<E>>)
    requires
        before@.len() == phrases@.len(),
        forall|k: int| 0 <= k < group@.len() ==> #[trigger] group@[k] < phrases@.len(),
        is_chain(group_entries(inputs_of(phrases@), group@)),
    ensures
        seen(r) == with_cluster(
            text::texts(words@),
            inputs_of(phrases@),
            group_entries(inputs_of(phrases@), group@),
            seen_lists(before@),
            index::windows_of(reply),
        ),
{
    let found = match reply {
        Err(e) => return Err(SearchError::Index(e)),
        Ok(found) => found,
    };
    let ghost all = index::flagged(found@);
    let ghost w = text::texts(words@);
    let ghost inputs = inputs_of(phrases@);
    let ghost cluster = group_entries(inputs, group@);
    let ghost first = seen_lists(before@);
    let mut results = before;
    let mut i: usize = 0;
    proof {
        assert(all.take(0) == Seq::<(Seq<QueryWord>, bool)>::empty());
        assert forall|j: int| 0 <= j < first.len() implies first[j] == #[trigger] dealt(
            w,
            inputs,
            cluster,
            first,
            all.take(0),
        )[j] by {
            assert(search::matches_of(w, inputs[j].0, Seq::empty()) =~= Seq::<Match>::empty());
            assert(first[j] + Seq::<Match>::empty() =~= first[j]);
        }
        assert(first =~= dealt(w, inputs, cluster, first, all.take(0)));
    }
    while i < found.len()
        invariant
            i <= found@.len(),
            all == index::flagged(found@),
            index::windows_of(reply) == Ok::<Seq<(Seq<QueryWord>, bool)>, E>(all),
            w == text::texts(words@),
            inputs == inputs_of(phrases@),
            cluster == group_entries(inputs, group@),
            is_chain(cluster),
            forall|k: int| 0 <= k < group@.len() ==> #[trigger] group@[k] < phrases@.len(),
            results@.len() == phrases@.len(),
            first.len() == phrases@.len(),
            cluster_fits(w.len() as int, cluster, all.take(i as int)),
            seen_lists(results@) == dealt(w, inputs, cluster, first, all.take(i as int)),
        decreases found@.len() - i,
    {
        let combination = &found[i].0;
        let ends_in_prefix = found[i].1;
        let ghost f = all[i as int];
        let ghost now = all.take(i + 1);
        proof {
            assert(f == (combination@, ends_in_prefix));
            assert(now.drop_last() == all.take(i as int));
            assert(now.last() == f);
        }
        let member = find_member(phrases, group, combination.len(), ends_in_prefix);
        match member {
            Some(k) => {
                let idx: usize = group[k];
                let ghost e = cluster[k as int];
                assert(e == entry(inputs, idx as int));
                match search::write_match(words, phrases[idx].0, combination) {
                    None => {
                        assert(claims(cluster[k as int].0.len(), cluster[k as int].1, all[i as int]));
                        assert(!cluster_fits(w.len() as int, cluster, all));
                        return Err(SearchError::Unfit);
                    },
                    Some(result) => {
                        let ghost old_results = results@;
                        results[idx].push(result);
                        proof {
                            assert(in_cluster(cluster, idx as int));
                            assert forall|j: int| 0 <= j < first.len() implies seen_lists(results@)[j]
                                == #[trigger] dealt(w, inputs, cluster, first, now)[j] by {
                                if j == idx {
                                    let mine = own(inputs[j].0.len(), inputs[j].1, now.drop_last());
                                    assert(own(inputs[j].0.len(), inputs[j].1, now) == mine.push(f.0));
                                    assert(search::matches_of(w, inputs[j].0, mine.push(f.0))
                                        =~= search::matches_of(w, inputs[j].0, mine).push(result@));
                                    assert(search::seen_matches(results@[j]@) =~= search::seen_matches(
                                        old_results[j]@,
                                    ).push(result@));
                                    assert(seen_lists(old_results)[j] == first[j] + search::matches_of(
                                        w,
                                        inputs[j].0,
                                        mine,
                                    ));
                                    assert(seen_lists(results@)[j] =~= first[j] + search::matches_of(
                                        w,
                                        inputs[j].0,
                                        mine.push(f.0),
                                    ));
                                } else {
                                    assert(seen_lists(results@)[j] == seen_lists(old_results)[j]);
                                    if in_cluster(cluster, j) {
                                        let m = choose|m: int|
                                            0 <= m < cluster.len() && (#[trigger] cluster[m]).2 == j;
                                        assert(cluster[m] == entry(inputs, group@[m] as int));
                                        assert(m != k);
                                        if m < k {
                                            assert(goes_on(cluster[m], cluster[k as int]));
                                        } else {
                                            assert(goes_on(cluster[k as int], cluster[m]));
                                        }
                                        assert(own(inputs[j].0.len(), inputs[j].1, now) == own(
                                            inputs[j].0.len(),
                                            inputs[j].1,
                                            now.drop_last(),
                                        ));
                                    }
                                }
                            }
                            assert(seen_lists(results@) =~= dealt(w, inputs, cluster, first, now));
                            assert forall|m: int, n: int|
                                0 <= m < cluster.len() && 0 <= n < now.len() && claims(
                                    (#[trigger] cluster[m]).0.len(),
                                    cluster[m].1,
                                    #[trigger] now[n],
                                ) implies query::fits(
                                w.len() as int,
                                cluster[m].0.len() as int,
                                0,
                                now[n].0,
                            ) by {
                                if n < i {
                                    assert(now[n] == all.take(i as int)[n]);
                                } else {
                                    if m < k {
                                        assert(goes_on(cluster[m], cluster[k as int]));
                                    } else if m > k {
                                        assert(goes_on(cluster[k as int], cluster[m]));
                                    }
                                }
                            }
                        }
                    },
                }
            },
            None => {
                proof {
                    assert forall|j: int| 0 <= j < first.len() implies seen_lists(results@)[j]
                        == #[trigger] dealt(w, inputs, cluster, first, now)[j] by {
                        if in_cluster(cluster, j) {
                            let m = choose|m: int|
                                0 <= m < cluster.len() && (#[trigger] cluster[m]).2 == j;
                            assert(cluster[m] == entry(inputs, group@[m] as int));
                            assert(!claims(cluster[m].0.len(), cluster[m].1, f));
                        }
                    }
                    assert(seen_lists(results@) =~= dealt(w, inputs, cluster, first, now));
                    assert forall|m: int, n: int|
                        0 <= m < cluster.len() && 0 <= n < now.len() && claims(
                            (#[trigger] cluster[m]).0.len(),
                            cluster[m].1,
                            #[trigger] now[n],
                        ) implies query::fits(w.len() as int, cluster[m].0.len() as int, 0, now[n].0) by {
                        if n < i {
                            assert(now[n] == all.take(i as int)[n]);
                        }
                    }
                }
            },
        }
        i = i + 1;
    }
    assert(all.take(i as int) == all);
    Ok(results)
}

/// Finds the phrase of a cluster that is as long as a combination, and ends in a prefix just if
/// that does.
fn find_member<T: Word>(phrases: &[(&[T], bool)], group: &Vec<usize>, len: usize, ends_in_prefix: bool) -> (r:
    Option<usize>)
    requires
        forall|k: int| 0 <= k < group@.len() ==> #[trigger] group@[k] < phrases@.len(),
    ensures
        ({
            let cluster = group_entries(inputs_of(phrases@), group@);
            match r {
                Some(k) => k < group@.len() && cluster[k as int].0.len() == len && cluster[k as int].1
                    == ends_in_prefix,
                None => forall|k: int|
                    0 <= k < cluster.len() ==> !((#[trigger] cluster[k]).0.len() == len && cluster[k].1
                        == ends_in_prefix),
            }
        }),
{
    let mut k: usize = 0;
    let ghost cluster = group_entries(inputs_of(phrases@), group@);
    while k < group.len()
        invariant
            cluster == group_entries(inputs_of(phrases@), group@),
            k <= group@.len(),
            forall|k: int| 0 <= k < group@.len() ==> #[trigger] group@[k] < phrases@.len(),
            forall|m: int|
                0 <= m < k ==> !((#[trigger] cluster[m]).0.len() == len && cluster[m].1
                    == ends_in_prefix),
        decreases group@.len() - k,
    {
        let idx: usize = group[k];
        assert(cluster[k as int] == entry(inputs_of(phrases@), idx as int));
        if phrases[idx].0.len() == len && phrases[idx].1 == ends_in_prefix {
            return Some(k);
        }
        k = k + 1;
    }
    None
}

/// Finds the possibilities of a word in a table.
fn look_up<'b, 'a>(table: &'b Vec<Correction<'a>>, word: &str, terminal: bool) -> (r: Option<&'b Vec<QueryWord>>)
    ensures
        looked_up(table_of(table@), word@, terminal) == (match r {
            Some(v) => Some(v@),
            None => None,
        }),
{
    let ghost all = table_of(table@);
    let mut i: usize = table.len();
    assert(all.take(i as int) == all);
    while i > 0
        invariant
            all == table_of(table@),
            i <= table@.len(),
            looked_up(all, word@, terminal) == looked_up(all.take(i as int), word@, terminal),
        decreases i,
    {
        i = i - 1;
        assert(all.take(i + 1).drop_last() == all.take(i as int));
        assert(all.take(i + 1).last() == table@[i as int]@);
        if table[i].terminal == terminal && text::same_text(table[i].word, word) {
            return Some(&table[i].variants);
        }
    }
    None
}

/// What is found in a table stands in it.
pub(crate) proof fn lemma_looked_up(table: Seq<Corrected>, word: Seq<char>, terminal: bool)
    ensures
        match looked_up(table, word, terminal) {
            Some(variants) => exists|j: int|
                0 <= j < table.len() && #[trigger] table[j] == (Corrected { word, terminal, variants }),
            None => forall|j: int|
                0 <= j < table.len() ==> !((#[trigger] table[j]).word == word && table[j].terminal
                    == terminal),
        },
    decreases table.len(),
{
    if table.len() > 0 {
        let front = table.drop_last();
        let last = table.len() - 1;
        lemma_looked_up(front, word, terminal);
        if table[last].word == word && table[last].terminal == terminal {
            assert(table[last] == (Corrected { word, terminal, variants: table[last].variants }));
        } else {
            match looked_up(front, word, terminal) {
                Some(variants) => {
                    let j = choose|j: int|
                        0 <= j < front.len() && #[trigger] front[j] == (Corrected { word, terminal, variants });
                    assert(table[j] == (Corrected { word, terminal, variants }));
                },
                None => {
                    assert forall|j: int| 0 <= j < table.len() implies !((#[trigger] table[j]).word == word
                        && table[j].terminal == terminal) by {
                        if j < last {
                            assert(table[j] == front[j]);
                        }
                    }
                },
            }
        }
    }
}

/// The lookups that differ among the first of a list come first among those of the whole list.
proof fn lemma_firsts_of_prefix(requests: Seq<(Seq<char>, bool)>, n: int)
    requires
        0 <= n <= requests.len(),
    ensures
        firsts(requests.take(n)).len() <= firsts(requests).len(),
        firsts(requests).take(firsts(requests.take(n)).len() as int) == firsts(requests.take(n)),
    decreases requests.len(),
{
    if n < requests.len() {
        let front = requests.drop_last();
        lemma_firsts_of_prefix(front, n);
        assert(front.take(n) =~= requests.take(n));
        let m = firsts(requests.take(n)).len() as int;
        assert(firsts(requests).take(m) =~= firsts(front).take(m));
    } else {
        assert(requests.take(n) =~= requests);
        assert(firsts(requests).take(firsts(requests).len() as int) =~= firsts(requests));
    }
}

pub(crate) proof fn lemma_requests_of_prefix(inputs: Seq<Input>, p: int, n: int)
    requires
        0 <= p < inputs.len(),
        0 <= n <= inputs[p].0.len(),
    ensures
        requests(inputs.take(p)).len() + n <= requests(inputs).len(),
        requests(inputs.take(p)) + phrase_requests(inputs[p]).take(n) == requests(inputs).take(
            requests(inputs.take(p)).len() + n,
        ),
    decreases inputs.len(),
{
    let front = inputs.drop_last();
    let m = requests(inputs.take(p)).len() + n;
    if p == inputs.len() - 1 {
        assert(inputs.take(p) == front);
        assert(requests(front) + phrase_requests(inputs[p]).take(n) =~= requests(inputs).take(m));
    } else {
        lemma_requests_of_prefix(front, p, n);
        assert(front.take(p) == inputs.take(p));
        assert(front[p] == inputs[p]);
        assert(requests(inputs).take(m) =~= requests(front).take(m));
    }
}

impl<G, R, L, C, P, M, N, W, E> FuzzyPhraseSet<G, R, L, C, P, M, N, W> where
    G: Fn(&str) -> Option<u64>,
    R: Fn(&str) -> Option<(u64, u64)>,
    L: Fn(&str, u8, &Vec<String>) -> Result<Vec<FuzzyMapLookupResult>, E>,
    C: Fn(&Vec<QueryWord>) -> Result<bool, E>,
    P: Fn(&Vec<QueryWord>) -> Result<bool, E>,
    M: Fn(&Vec<Vec<QueryWord>>, u8) -> Result<Vec<Vec<QueryWord>>, E>,
    N: Fn(&Vec<Vec<QueryWord>>, u8) -> Result<Vec<Vec<QueryWord>>, E>,
    W: Fn(&[Vec<QueryWord>], u8, bool) -> Result<Vec<(Vec<QueryWord>, bool)>, E>,
 {
    /// `answer` may be what comes back for a word, as one in the middle of a phrase or as one at
    /// the end.
    pub open spec fn may_answer_as(
        &self,
        word: Seq<char>,
        terminal: bool,
        edit_distance: u8,
        answer: search::WordAnswer<E>,
    ) -> bool {
        if terminal {
            self.may_answer_last(word, edit_distance, answer)
        } else {
            self.may_answer(word, edit_distance, answer)
        }
    }

    /// `c` may be what comes of one lookup.
    pub open spec fn is_correction(
        &self,
        request: (Seq<char>, bool),
        edit_distance: u8,
        c: Corrected,
    ) -> bool {
        &&& (c.word, c.terminal) == request
        &&& exists|answer: Option<Seq<QueryWord>>| #[trigger]
            self.may_answer_as(request.0, request.1, edit_distance, Ok(answer)) && c.variants
                == variants_of(answer)
    }

    /// `table` may be what comes of the first of some lookups.
    pub open spec fn may_correct_first(
        &self,
        lookups: Seq<(Seq<char>, bool)>,
        edit_distance: u8,
        table: Seq<Corrected>,
    ) -> bool {
        &&& table.len() <= lookups.len()
        &&& forall|j: int|
            0 <= j < table.len() ==> self.is_correction(lookups[j], edit_distance, #[trigger] table[j])
    }

    /// `outcome` may be the table that comes of some lookups. What was looked up already is not
    /// looked up again, and a lookup that fails makes an end to it.
    pub open spec fn may_correct(
        &self,
        requests: Seq<(Seq<char>, bool)>,
        edit_distance: u8,
        outcome: Result<Seq<Corrected>, E>,
    ) -> bool {
        let lookups = firsts(requests);
        match outcome {
            Ok(table) => table.len() == lookups.len() && self.may_correct_first(
                lookups,
                edit_distance,
                table,
            ),
            Err(e) => exists|before: Seq<Corrected>| #[trigger]
                self.may_correct_first(lookups, edit_distance, before) && before.len() < lookups.len()
                    && self.may_answer_as(
                    lookups[before.len() as int].0,
                    lookups[before.len() as int].1,
                    edit_distance,
                    Err(e),
                ),
        }
    }

    /// A lookup that failed makes an end to the table.
    proof fn lemma_correction_failed(
        &self,
        requests: Seq<(Seq<char>, bool)>,
        edit_distance: u8,
        n: int,
        e: E,
    )
        requires
            0 <= n <= requests.len(),
            self.may_correct(requests.take(n), edit_distance, Err(e)),
        ensures
            self.may_correct(requests, edit_distance, Err(e)),
    {
        let lookups = firsts(requests);
        let own = firsts(requests.take(n));
        lemma_firsts_of_prefix(requests, n);
        assert forall|j: int| 0 <= j < own.len() implies own[j] == #[trigger] lookups[j] by {
            assert(lookups.take(own.len() as int)[j] == lookups[j]);
        }
        let before = choose|before: Seq<Corrected>| #[trigger]
            self.may_correct_first(own, edit_distance, before) && before.len() < own.len()
                && self.may_answer_as(
                own[before.len() as int].0,
                own[before.len() as int].1,
                edit_distance,
                Err(e),
            );
        assert forall|j: int| 0 <= j < before.len() implies self.is_correction(
            lookups[j],
            edit_distance,
            #[trigger] before[j],
        ) by {
            assert(own[j] == lookups[j]);
        }
        assert(own[before.len() as int] == lookups[before.len() as int]);
        assert(self.may_correct_first(lookups, edit_distance, before));
    }

    /// A table holds a word just if it was looked up.
    proof fn lemma_known(
        &self,
        requests: Seq<(Seq<char>, bool)>,
        edit_distance: u8,
        table: Seq<Corrected>,
        word: Seq<char>,
        terminal: bool,
    )
        requires
            self.may_correct(requests, edit_distance, Ok(table)),
        ensures
            looked_up(table, word, terminal) is Some <==> firsts(requests).contains((word, terminal)),
    {
        let lookups = firsts(requests);
        lemma_looked_up(table, word, terminal);
        if let Some(variants) = looked_up(table, word, terminal) {
            let j = choose|j: int|
                0 <= j < table.len() && #[trigger] table[j] == (Corrected { word, terminal, variants });
            assert(self.is_correction(lookups[j], edit_distance, table[j]));
            assert(lookups[j] == (word, terminal));
        }
        if lookups.contains((word, terminal)) {
            let j = choose|j: int| 0 <= j < lookups.len() && lookups[j] == (word, terminal);
            assert(self.is_correction(lookups[j], edit_distance, table[j]));
        }
    }

    /// Puts the possibilities of a word in a table, unless they are there already.
    fn correct_word<'a>(
        &self,
        table: Vec<Correction<'a>>,
        word: &'a str,
        terminal: bool,
        edit_distance: u8,
        Ghost(done): Ghost<Seq<(Seq<char>, bool)>>,
    ) -> (r: Result<Vec<Correction<'a>>, E>)
        requires
            self.callable(),
            self.may_correct(done, edit_distance, Ok(table_of(table@))),
        ensures
            self.may_correct(
                done.push((word@, terminal)),
                edit_distance,
                match r {
                    Ok(v) => Ok(table_of(v@)),
                    Err(e) => Err(e),
                },
            ),
    {
        let ghost before = table_of(table@);
        let ghost now = done.push((word@, terminal));
        let ghost lookups = firsts(now);
        proof {
            assert(now.drop_last() == done);
            assert(now.last() == (word@, terminal));
            self.lemma_known(done, edit_distance, before, word@, terminal);
        }
        if look_up(&table, word, terminal).is_some() {
            return Ok(table);
        }
        let answer = if terminal {
            self.get_terminal_word_possibilities(word, edit_distance)
        } else {
            self.get_nonterminal_word_possibilities(word, edit_distance)
        };
        let ghost a = search::answer_of(answer);
        let ghost m = before.len() as int;
        proof {
            assert(lookups == firsts(done).push((word@, terminal)));
            assert(self.may_answer_as(word@, terminal, edit_distance, a));
            assert forall|j: int| 0 <= j < m implies self.is_correction(
                lookups[j],
                edit_distance,
                #[trigger] before[j],
            ) by {
                assert(lookups[j] == firsts(done)[j]);
            }
            assert(lookups[m] == (word@, terminal));
            assert(self.may_correct_first(lookups, edit_distance, before));
        }
        let variants: Vec<QueryWord> = match answer {
            Ok(Some(variants)) => variants,
            Ok(None) => Vec::new(),
            Err(e) => {
                return Err(e);
            },
        };
        assert(variants@ =~= variants_of(a->Ok_0));
        let correction = Correction { word, terminal, variants };
        let ghost seen = correction@;
        let mut table = table;
        table.push(correction);
        proof {
            let after = table_of(table@);
            assert(after =~= before.push(seen));
            let request = lookups[m];
            assert(self.may_answer_as(request.0, request.1, edit_distance, Ok(a->Ok_0)));
            assert(seen.variants == variants_of(a->Ok_0));
            assert((seen.word, seen.terminal) == request);
            assert(self.is_correction(lookups[m], edit_distance, seen));
            assert forall|j: int| 0 <= j < after.len() implies self.is_correction(
                lookups[j],
                edit_distance,
                #[trigger] after[j],
            ) by {
                if j < m {
                    assert(after[j] == before[j]);
                }
            }
        }
        Ok(table)
    }

    /// Looks up every word of some phrases, each only once.
    fn correct_all<'a, T: Word>(&self, phrases: &'a [(&'a [T], bool)], edit_distance: u8) -> (r: Result<
        Vec<Correction<'a>>,
        E,
    >)
        requires
            self.callable(),
        ensures
            self.may_correct(
                requests(inputs_of(phrases@)),
                edit_distance,
                match r {
                    Ok(v) => Ok(table_of(v@)),
                    Err(e) => Err(e),
                },
            ),
    {
        let ghost inputs = inputs_of(phrases@);
        let mut table: Vec<Correction<'a>> = Vec::new();
        let mut p: usize = 0;
        proof {
            assert(inputs.take(0) == Seq::<Input>::empty());
            assert(table_of(table@) =~= Seq::<Corrected>::empty());
        }
        while p < phrases.len()
            invariant
                self.callable(),
                inputs == inputs_of(phrases@),
                p <= phrases@.len(),
                self.may_correct(
                    requests(inputs.take(p as int)),
                    edit_distance,
                    Ok(table_of(table@)),
                ),
            decreases phrases@.len() - p,
        {
            let phrase: &'a [T] = phrases[p].0;
            let ends_in_prefix = phrases[p].1;
            let ghost before = requests(inputs.take(p as int));
            let ghost mine = phrase_requests(inputs[p as int]);
            let mut j: usize = 0;
            proof {
                assert(inputs[p as int] == (text::texts(phrase@), ends_in_prefix));
                assert(before + mine.take(0) =~= before);
            }
            while j < phrase.len()
                invariant
                    self.callable(),
                    inputs == inputs_of(phrases@),
                    p < phrases@.len(),
                    inputs[p as int] == (text::texts(phrase@), ends_in_prefix),
                    before == requests(inputs.take(p as int)),
                    mine == phrase_requests(inputs[p as int]),
                    j <= phrase@.len(),
                    self.may_correct(
                        before + mine.take(j as int),
                        edit_distance,
                        Ok(table_of(table@)),
                    ),
                decreases phrase@.len() - j,
            {
                let terminal = ends_in_prefix && j == phrase.len() - 1;
                let word: &'a str = phrase[j].as_text();
                proof {
                    assert(mine[j as int] == (word@, terminal));
                    assert((before + mine.take(j as int)).push((word@, terminal)) =~= before
                        + mine.take(j + 1));
                }
                match self.correct_word(
                    table,
                    word,
                    terminal,
                    edit_distance,
                    Ghost(before + mine.take(j as int)),
                ) {
                    Ok(more) => {
                        table = more;
                    },
                    Err(e) => {
                        proof {
                            lemma_requests_of_prefix(inputs, p as int, j + 1);
                            self.lemma_correction_failed(
                                requests(inputs),
                                edit_distance,
                                before.len() + j + 1,
                                e,
                            );
                        }
                        return Err(e);
                    },
                }
                j = j + 1;
            }
            proof {
                assert(mine.take(j as int) =~= mine);
                assert(inputs.take(p + 1).drop_last() == inputs.take(p as int));
            }
            p = p + 1;
        }
        assert(inputs.take(p as int) == inputs);
        Ok(table)
    }

    /// `reply` may come of asking the phrase graph for the longest phrase of a cluster. For the
    /// empty phrase it is not asked, and nothing is found.
    pub open spec fn may_find_cluster(
        &self,
        table: Seq<Corrected>,
        max_phrase_dist: u8,
        cluster: Seq<Entry>,
        reply: Result<Seq<(Seq<QueryWord>, bool)>, E>,
    ) -> bool {
        let longest = (cluster.last().0, cluster.last().1);
        if longest.0.len() == 0 {
            reply == Ok::<Seq<(Seq<QueryWord>, bool)>, E>(Seq::empty())
        } else {
            self.phrase_set.may_match_windows(
                phrase_slots(table, longest),
                max_phrase_dist,
                longest.1,
                reply,
            )
        }
    }

    /// `found` may be what the phrase graph finds for the first of some clusters, and all of it
    /// that belongs to a phrase can be written out.
    pub open spec fn may_find_clusters(
        &self,
        table: Seq<Corrected>,
        max_phrase_dist: u8,
        clusters: Seq<Seq<Entry>>,
        found: Seq<Seq<(Seq<QueryWord>, bool)>>,
    ) -> bool {
        &&& found.len() <= clusters.len()
        &&& forall|j: int|
            0 <= j < found.len() ==> self.may_find_cluster(
                table,
                max_phrase_dist,
                clusters[j],
                Ok(#[trigger] found[j]),
            ) && cluster_fits(self.words().len() as int, clusters[j], found[j])
    }

    /// `outcome` may come of asking the phrase graph for each cluster in turn. A reply that is an
    /// error, or that cannot be written out, makes an end to it.
    pub open spec fn may_search_clusters(
        &self,
        inputs: Seq<Input>,
        table: Seq<Corrected>,
        max_phrase_dist: u8,
        clusters: Seq<Seq<Entry>>,
        outcome: Result<Seq<Seq<Match>>, SearchError<E>>,
    ) -> bool {
        match outcome {
            Ok(lists) => exists|found: Seq<Seq<(Seq<QueryWord>, bool)>>| #[trigger]
                self.may_find_clusters(table, max_phrase_dist, clusters, found) && found.len()
                    == clusters.len() && lists == all_dealt(self.words(), inputs, clusters, found),
            Err(e) => exists|
                found: Seq<Seq<(Seq<QueryWord>, bool)>>,
                reply: Result<Seq<(Seq<QueryWord>, bool)>, E>,
            | #[trigger]
                self.may_find_clusters(table, max_phrase_dist, clusters, found) && found.len()
                    < clusters.len() && #[trigger] self.may_find_cluster(
                    table,
                    max_phrase_dist,
                    clusters[found.len() as int],
                    reply,
                ) && cluster_error(
                    self.words().len() as int,
                    clusters[found.len() as int],
                    reply,
                ) == Some(e),
        }
    }

    /// `outcome` may come of a fuzzy search for many phrases: every word is looked up, and then
    /// the phrase graph is asked once for each cluster.
    pub open spec fn may_fuzzy_match_multi(
        &self,
        inputs: Seq<Input>,
        max_word_dist: u8,
        max_phrase_dist: u8,
        outcome: Result<Seq<Seq<Match>>, SearchError<E>>,
    ) -> bool {
        let edit_distance = search::word_dist_limit(max_word_dist);
        ||| exists|e: E| #[trigger]
            self.may_correct(requests(inputs), edit_distance, Err(e)) && outcome == Err::<
                Seq<Seq<Match>>,
                SearchError<E>,
            >(SearchError::Index(e))
        ||| exists|table: Seq<Corrected>, arranged: Seq<Entry>| #[trigger]
            self.may_correct(requests(inputs), edit_distance, Ok(table)) && #[trigger] is_arranged(
                inputs,
                arranged,
            ) && self.may_search_clusters(
                inputs,
                table,
                max_phrase_dist,
                clusters(arranged),
                outcome,
            )
    }

    /// Fills the slots of a phrase from a table.
    fn fill_slots<'a, T: Word>(table: &Vec<Correction<'a>>, phrase: &[T], ends_in_prefix: bool) -> (r: Vec<
        Vec<QueryWord>,
    >)
        ensures
            query::slots_of(r@) == phrase_slots(
                table_of(table@),
                (text::texts(phrase@), ends_in_prefix),
            ),
    {
        let ghost input = (text::texts(phrase@), ends_in_prefix);
        let ghost all = phrase_slots(table_of(table@), input);
        let mut slots: Vec<Vec<QueryWord>> = Vec::with_capacity(phrase.len());
        let mut j: usize = 0;
        assert(query::slots_of(slots@) =~= all.take(0));
        while j < phrase.len()
            invariant
                input == (text::texts(phrase@), ends_in_prefix),
                all == phrase_slots(table_of(table@), input),
                j <= phrase@.len(),
                query::slots_of(slots@) == all.take(j as int),
            decreases phrase@.len() - j,
        {
            let terminal = ends_in_prefix && j == phrase.len() - 1;
            let word = phrase[j].as_text();
            let slot: Vec<QueryWord> = match look_up(table, word, terminal) {
                Some(v) => query::copy_slot(v),
                None => Vec::new(),
            };
            let ghost added = slot@;
            let ghost before = slots@;
            proof {
                assert(phrase_requests(input)[j as int] == (word@, terminal));
                assert(added =~= all[j as int]);
            }
            slots.push(slot);
            j = j + 1;
            assert(query::slots_of(slots@) =~= query::slots_of(before).push(added));
            assert(all.take(j as int) =~= all.take(j - 1).push(all[j - 1]));
        }
        assert(all.take(j as int) =~= all);
        slots
    }

    /// The results of `fuzzy_match`, or of `fuzzy_match_prefix` where the flag is set, for each of
    /// some phrases, by position. Every word is looked up only once, and where one phrase begins
    /// another the phrase graph is asked for the longer one alone.
    pub fn fuzzy_match_multi<T: Word>(
        &self,
        phrases: &[(&[T], bool)],
        max_word_dist: u8,
        max_phrase_dist: u8,
    ) -> (r: Result<Vec<Vec<FuzzyMatchResult>>, SearchError<E>>)
        requires
            self.callable(),
        ensures
            self.may_fuzzy_match_multi(
                inputs_of(phrases@),
                max_word_dist,
                max_phrase_dist,
                seen(r),
            ),
            r matches Ok(lists) ==> lists@.len() == phrases@.len(),
    {
        let ghost inputs = inputs_of(phrases@);
        let edit_distance: u8 = search::cap_word_dist(max_word_dist);
        let corrected = match self.correct_all(phrases, edit_distance) {
            Ok(corrected) => corrected,
            Err(e) => {
                return Err(SearchError::Index(e));
            },
        };
        let ghost table = table_of(corrected@);
        let groups = group_phrases(phrases);
        let ghost arranged = choose|arranged: Seq<Entry>| #[trigger]
            is_arranged(inputs, arranged) && groups_entries(inputs, groups@) == clusters(arranged);
        let ghost cs = clusters(arranged);
        proof {
            lemma_arranged_apart(inputs, arranged);
            clusters_share_out_the_phrases(arranged);
        }
        let mut results: Vec<Vec<FuzzyMatchResult>> = Vec::new();
        while results.len() < phrases.len()
            invariant
                results@.len() <= phrases@.len(),
                forall|k: int| 0 <= k < results@.len() ==> (#[trigger] results@[k])@.len() == 0,
            decreases phrases@.len() - results@.len(),
        {
            results.push(Vec::new());
        }
        let ghost mut done: Seq<Seq<(Seq<QueryWord>, bool)>> = Seq::empty();
        proof {
            let first = all_dealt(self.words(), inputs, cs, done);
            assert forall|k: int| 0 <= k < inputs.len() implies #[trigger] seen_lists(results@)[k]
                == first[k] by {
                assert(search::seen_matches(results@[k]@) =~= Seq::<Match>::empty());
            }
            assert(seen_lists(results@) =~= first);
        }
        let mut g: usize = 0;
        while g < groups.len()
            invariant
                self.callable(),
                inputs == inputs_of(phrases@),
                edit_distance == search::word_dist_limit(max_word_dist),
                self.may_correct(requests(inputs), edit_distance, Ok(table)),
                table == table_of(corrected@),
                is_arranged(inputs, arranged),
                cs == clusters(arranged),
                cs == groups_entries(inputs, groups@),
                forall|c: int| 0 <= c < cs.len() ==> (#[trigger] cs[c]).len() > 0,
                forall|c: int| 0 <= c < cs.len() ==> is_chain(#[trigger] cs[c]),
                forall|g: int, k: int|
                    0 <= g < groups@.len() && 0 <= k < groups@[g]@.len() ==> #[trigger] groups@[g]@[k]
                        < phrases@.len(),
                g <= groups@.len(),
                results@.len() == phrases@.len(),
                done.len() == g,
                self.may_find_clusters(table, max_phrase_dist, cs, done),
                seen_lists(results@) == all_dealt(self.words(), inputs, cs, done),
            decreases groups@.len() - g,
        {
            let group = &groups[g];
            let ghost cluster = cs[g as int];
            let ghost before = seen_lists(results@);
            proof {
                assert(cluster == group_entries(inputs, group@));
                assert(cluster.len() > 0);
                assert(is_chain(cluster));
            }
            let longest_idx: usize = group[group.len() - 1];
            let longest_phrase = phrases[longest_idx].0;
            let ends_in_prefix = phrases[longest_idx].1;
            assert(cluster.last() == entry(inputs, longest_idx as int));
            let reply = if longest_phrase.len() > 0 {
                let slots = Self::fill_slots(&corrected, longest_phrase, ends_in_prefix);
                self.phrase_set.match_combinations_as_windows(
                    slots.as_slice(),
                    max_phrase_dist,
                    ends_in_prefix,
                )
            } else {
                Ok(Vec::new())
            };
            let ghost found = index::windows_of(reply);
            proof {
                if longest_phrase@.len() == 0 {
                    assert(found->Ok_0 =~= Seq::<(Seq<QueryWord>, bool)>::empty());
                }
                assert(self.may_find_cluster(table, max_phrase_dist, cluster, found));
            }
            match add_cluster(&self.word_list, phrases, group, results, reply) {
                Ok(more) => {
                    results = more;
                    proof {
                        let old_done = done;
                        let fresh = found->Ok_0;
                        done = done.push(fresh);
                        assert(done.drop_last() =~= old_done);
                        assert(seen_lists(results@).len() == before.len());
                        assert forall|j: int| 0 <= j < done.len() implies self.may_find_cluster(
                            table,
                            max_phrase_dist,
                            cs[j],
                            Ok(#[trigger] done[j]),
                        ) && cluster_fits(self.words().len() as int, cs[j], done[j]) by {
                            if j < g {
                                assert(done[j] == old_done[j]);
                            }
                        }
                    }
                },
                Err(e) => {
                    assert(cluster_error(self.words().len() as int, cs[done.len() as int], found)
                        == Some(e));
                    return Err(e);
                },
            }
            g = g + 1;
        }
        Ok(results)
    }
}

} // verus!
