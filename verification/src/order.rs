//! Lexicographic order on sequences, and a merge sort that is generic in the order.
use vstd::prelude::*;

verus! {

broadcast use vstd::seq_lib::group_to_multiset_ensures;

/// `lt` is a strict total order.
pub open spec fn is_strict_order<T>(lt: spec_fn(T, T) -> bool) -> bool {
    &&& forall|x: T| !#[trigger] lt(x, x)
    &&& forall|x: T, y: T, z: T| #[trigger] lt(x, y) && #[trigger] lt(y, z) ==> lt(x, z)
    &&& forall|x: T, y: T| #[trigger] lt(x, y) || x == y || lt(y, x)
}

/// `a` and `b` agree before position `k`, and there `a` ends or has the smaller element.
pub open spec fn precedes_at<T>(
    lt: spec_fn(T, T) -> bool,
    a: Seq<T>,
    b: Seq<T>,
    k: int,
) -> bool {
    &&& 0 <= k <= a.len()
    &&& k < b.len()
    &&& a.take(k) == b.take(k)
    &&& k == a.len() || lt(a[k], b[k])
}

/// `a` comes before `b` in the lexicographic order that `lt` induces.
pub open spec fn lex_lt<T>(lt: spec_fn(T, T) -> bool, a: Seq<T>, b: Seq<T>) -> bool {
    exists|k: int| precedes_at(lt, a, b, k)
}

/// The lexicographic order that `lt` induces, as a function.
pub open spec fn lex<T>(lt: spec_fn(T, T) -> bool) -> spec_fn(Seq<T>, Seq<T>) -> bool {
    |a: Seq<T>, b: Seq<T>| lex_lt(lt, a, b)
}

/// The order of characters: by code point.
pub open spec fn char_order() -> spec_fn(char, char) -> bool {
    |x: char, y: char| (x as int) < (y as int)
}

/// The order of words: lexicographic by code point.
pub open spec fn text_order() -> spec_fn(Seq<char>, Seq<char>) -> bool {
    lex(char_order())
}

/// The order of phrases: lexicographic by word.
pub open spec fn words_order() -> spec_fn(Seq<Seq<char>>, Seq<Seq<char>>) -> bool {
    lex(text_order())
}

/// The order of word ids.
pub open spec fn id_order() -> spec_fn(u32, u32) -> bool {
    |x: u32, y: u32| x < y
}

/// The order of phrases that are written as word ids: lexicographic by id.
pub open spec fn ids_order() -> spec_fn(Seq<u32>, Seq<u32>) -> bool {
    lex(id_order())
}

/// No element of `s` comes before an earlier one.
pub open spec fn sorted<K>(lt: spec_fn(K, K) -> bool, s: Seq<K>) -> bool {
    forall|i: int, j: int| 0 <= i < j < s.len() ==> !lt(#[trigger] s[j], #[trigger] s[i])
}

/// Every element of `s` comes before all later ones.
pub open spec fn strictly_sorted<K>(lt: spec_fn(K, K) -> bool, s: Seq<K>) -> bool {
    forall|i: int, j: int| 0 <= i < j < s.len() ==> lt(#[trigger] s[i], #[trigger] s[j])
}

/// Two sequences that differ do so at a first position.
proof fn lemma_first_difference<T>(a: Seq<T>, b: Seq<T>, from: int) -> (k: int)
    requires
        a != b,
        0 <= from <= a.len(),
        from <= b.len(),
        a.take(from) == b.take(from),
    ensures
        from <= k <= a.len(),
        k <= b.len(),
        a.take(k) == b.take(k),
        k == a.len() || k == b.len() || a[k] != b[k],
        k < a.len() || k < b.len(),
    decreases a.len() - from,
{
    if from == a.len() || from == b.len() {
        if from == a.len() && from == b.len() {
            assert(a == a.take(from));
            assert(b == b.take(from));
        }
        from
    } else if a[from] != b[from] {
        from
    } else {
        assert(a.take(from + 1) == a.take(from).push(a[from]));
        assert(b.take(from + 1) == b.take(from).push(b[from]));
        lemma_first_difference(a, b, from + 1)
    }
}

/// The lexicographic order of a strict total order is one.
pub proof fn lex_is_strict_order<T>(lt: spec_fn(T, T) -> bool)
    requires
        is_strict_order(lt),
    ensures
        is_strict_order(lex(lt)),
{
    let ll = lex(lt);
    assert forall|x: Seq<T>| !#[trigger] ll(x, x) by {
        if ll(x, x) {
            let k = choose|k: int| precedes_at(lt, x, x, k);
            assert(precedes_at(lt, x, x, k));
        }
    }
    assert forall|x: Seq<T>, y: Seq<T>, z: Seq<T>| #[trigger] ll(x, y) && #[trigger] ll(y, z) implies ll(x, z) by {
        let k = choose|k: int| precedes_at(lt, x, y, k);
        let m = choose|m: int| precedes_at(lt, y, z, m);
        let n = if k <= m { k } else { m };
        assert(x.take(n) == x.take(k).take(n));
        assert(y.take(n) == y.take(k).take(n));
        assert(y.take(n) == y.take(m).take(n));
        assert(z.take(n) == z.take(m).take(n));
        if k < m {
            assert(y[k] == y.take(m)[k]);
            assert(z[k] == z.take(m)[k]);
        }
        if m < k {
            assert(x[m] == x.take(k)[m]);
            assert(y[m] == y.take(k)[m]);
        }
        assert(precedes_at(lt, x, z, n));
    }
    assert forall|x: Seq<T>, y: Seq<T>| #[trigger] ll(x, y) || x == y || ll(y, x) by {
        if x != y {
            assert(x.take(0) == y.take(0));
            let k = lemma_first_difference(x, y, 0);
            if k == x.len() {
                assert(precedes_at(lt, x, y, k));
            } else if k == y.len() {
                assert(precedes_at(lt, y, x, k));
            } else if lt(x[k], y[k]) {
                assert(precedes_at(lt, x, y, k));
            } else {
                assert(lt(y[k], x[k]));
                assert(precedes_at(lt, y, x, k));
            }
        }
    }
}

/// Words are strictly ordered.
pub proof fn text_order_is_strict()
    ensures
        is_strict_order(text_order()),
{
    assert forall|x: char, y: char| #[trigger] char_order()(x, y) || x == y || char_order()(y, x) by {
        if x as int == y as int {
            assert(x == y);
        }
    }
    lex_is_strict_order(char_order());
}

/// Phrases are strictly ordered by their words.
pub proof fn words_order_is_strict()
    ensures
        is_strict_order(words_order()),
{
    text_order_is_strict();
    lex_is_strict_order(text_order());
}

/// Phrases are strictly ordered by their ids.
pub proof fn ids_order_is_strict()
    ensures
        is_strict_order(ids_order()),
{
    lex_is_strict_order(id_order());
}

/// What can be sorted: values that an executable test orders by a key.
pub trait Ordered: Sized {
    type Key;

    spec fn key(&self) -> Self::Key;

    spec fn order() -> spec_fn(Self::Key, Self::Key) -> bool;

    proof fn order_is_strict()
        ensures
            is_strict_order(Self::order()),
    ;

    fn precedes(&self, other: &Self) -> (r: bool)
        ensures
            r == Self::order()(self.key(), other.key()),
    ;
}

/// The keys of a sequence of ordered values.
pub open spec fn keys<T: Ordered>(s: Seq<T>) -> Seq<T::Key> {
    s.map_values(|t: T| t.key())
}

/// The values of `v` in reverse.
pub fn reversed<T>(v: Vec<T>) -> (r: Vec<T>)
    ensures
        r@ == v@.reverse(),
{
    let ghost all = v@;
    let mut v = v;
    let mut r: Vec<T> = Vec::new();
    while v.len() > 0
        invariant
            v@.len() + r@.len() == all.len(),
            v@ == all.take(v@.len() as int),
            r@ == all.reverse().take(r@.len() as int),
        decreases v@.len(),
    {
        let ghost before = r@;
        let last = v.pop().unwrap();
        r.push(last);
        assert(v@ == all.take(v@.len() as int));
        assert(last == all.reverse()[before.len() as int]);
        assert(r@ == all.reverse().take(r@.len() as int));
    }
    assert(r@ == all.reverse());
    r
}

/// Merges two sorted lists.
fn merge<T: Ordered>(left: Vec<T>, right: Vec<T>) -> (r: Vec<T>)
    requires
        sorted(T::order(), keys(left@)),
        sorted(T::order(), keys(right@)),
    ensures
        sorted(T::order(), keys(r@)),
        keys(r@).to_multiset() == keys(left@).to_multiset().add(keys(right@).to_multiset()),
{
    let ghost total = keys(left@).to_multiset().add(keys(right@).to_multiset());
    let ghost lt = T::order();
    proof {
        T::order_is_strict();
    }
    let mut left = left;
    let mut right = right;
    let mut down: Vec<T> = Vec::new();
    while left.len() > 0 || right.len() > 0
        invariant
            lt == T::order(),
            is_strict_order(lt),
            sorted(lt, keys(left@)),
            sorted(lt, keys(right@)),
            forall|i: int, j: int|
                0 <= i < j < down@.len() ==> !lt(#[trigger] down@[i].key(), #[trigger] down@[j].key()),
            forall|i: int, j: int|
                0 <= i < left@.len() && 0 <= j < down@.len() ==> !lt(
                    #[trigger] down@[j].key(),
                    #[trigger] left@[i].key(),
                ),
            forall|i: int, j: int|
                0 <= i < right@.len() && 0 <= j < down@.len() ==> !lt(
                    #[trigger] down@[j].key(),
                    #[trigger] right@[i].key(),
                ),
            keys(left@).to_multiset().add(keys(right@).to_multiset()).add(
                keys(down@).to_multiset(),
            ) == total,
        decreases left@.len() + right@.len(),
    {
        let ghost old_left = left@;
        let ghost old_right = right@;
        let from_right = right.len() > 0 && (left.len() == 0 || !right[right.len() - 1].precedes(
            &left[left.len() - 1],
        ));
        proof {
            assert(forall|i: int| 0 <= i < left@.len() ==> keys(left@)[i] == #[trigger] left@[i].key());
            assert(forall|i: int| 0 <= i < right@.len() ==> keys(right@)[i] == #[trigger] right@[i].key());
        }
        if from_right {
            let item = right.pop().unwrap();
            proof {
                assert(keys(old_right) == keys(right@).push(item.key()));
                assert(keys(down@.push(item)) == keys(down@).push(item.key()));
            }
            down.push(item);
            assert(sorted(lt, keys(right@))) by {
                assert(forall|i: int| 0 <= i < right@.len() ==> keys(right@)[i] == #[trigger] keys(old_right)[i]);
            }
        } else {
            let item = left.pop().unwrap();
            proof {
                assert(keys(old_left) == keys(left@).push(item.key()));
                assert(keys(down@.push(item)) == keys(down@).push(item.key()));
            }
            down.push(item);
            assert(sorted(lt, keys(left@))) by {
                assert(forall|i: int| 0 <= i < left@.len() ==> keys(left@)[i] == #[trigger] keys(old_left)[i]);
            }
        }
        assert(keys(left@).to_multiset().add(keys(right@).to_multiset()).add(
            keys(down@).to_multiset(),
        ) =~= total);
    }
    let ghost flat = down@;
    let r = reversed(down);
    proof {
        assert(keys(r@) == keys(flat).reverse());
        assert(keys(left@) == Seq::<T::Key>::empty());
        assert(keys(right@) == Seq::<T::Key>::empty());
        keys(flat).lemma_reverse_to_multiset();
        assert(keys(r@).to_multiset() =~= total);
    }
    r
}

/// Sorts a list by its keys.
pub fn sort<T: Ordered>(v: Vec<T>) -> (r: Vec<T>)
    ensures
        sorted(T::order(), keys(r@)),
        keys(r@).to_multiset() == keys(v@).to_multiset(),
    decreases v@.len(),
{
    if v.len() <= 1 {
        return v;
    }
    let ghost all = v@;
    let mut left = v;
    let half: usize = left.len() / 2;
    let right = left.split_off(half);
    proof {
        assert(all == left@ + right@);
        assert(keys(all) == keys(left@) + keys(right@));
        vstd::seq_lib::lemma_multiset_commutative(keys(left@), keys(right@));
    }
    let left = sort(left);
    let right = sort(right);
    merge(left, right)
}

impl Ordered for Vec<u32> {
    type Key = Seq<u32>;

    open spec fn key(&self) -> Seq<u32> {
        self@
    }

    open spec fn order() -> spec_fn(Seq<u32>, Seq<u32>) -> bool {
        ids_order()
    }

    proof fn order_is_strict() {
        ids_order_is_strict();
    }

    fn precedes(&self, other: &Self) -> (r: bool) {
        proof {
            ids_order_is_strict();
            assert(self@.take(0) =~= other@.take(0));
        }
        let mut k: usize = 0;
        while k < self.len() && k < other.len()
            invariant
                is_strict_order(ids_order()),
                k <= self@.len(),
                k <= other@.len(),
                self@.take(k as int) == other@.take(k as int),
            decreases self@.len() - k,
        {
            if self[k] < other[k] {
                assert(precedes_at(id_order(), self@, other@, k as int));
                assert(ids_order()(self@, other@));
                return true;
            }
            if other[k] < self[k] {
                assert(precedes_at(id_order(), other@, self@, k as int));
                assert(ids_order()(other@, self@));
                return false;
            }
            assert(self@.take(k + 1) =~= self@.take(k as int).push(self@[k as int]));
            assert(other@.take(k + 1) =~= other@.take(k as int).push(other@[k as int]));
            k = k + 1;
        }
        if k < other.len() {
            assert(precedes_at(id_order(), self@, other@, k as int));
            assert(ids_order()(self@, other@));
            true
        } else {
            if k < self.len() {
                assert(precedes_at(id_order(), other@, self@, k as int));
                assert(ids_order()(other@, self@));
            } else {
                assert(self@ =~= self@.take(k as int));
                assert(other@ =~= other@.take(k as int));
            }
            false
        }
    }
}

} // verus!
