//! Ordering by a key, with ties kept in their first order.

use vstd::multiset::*;
use vstd::prelude::*;
use vstd::relations::*;
use vstd::seq_lib::*;

verus! {

/// Each key with its position.
pub open spec fn keyed(keys: Seq<u64>) -> Seq<(u64, usize)> {
    Seq::new(keys.len(), |i: int| (keys[i], i as usize))
}

/// By key, then by position.
pub open spec fn by_key() -> spec_fn((u64, usize), (u64, usize)) -> bool {
    |a: (u64, usize), b: (u64, usize)| a.0 < b.0 || (a.0 == b.0 && a.1 <= b.1)
}

/// The positions of `keys` in the order of their keys, ties in the order of the
/// positions.
pub open spec fn order_of(keys: Seq<u64>) -> Seq<usize> {
    keyed(keys).sort_by(by_key()).map_values(|p: (u64, usize)| p.1)
}

/// Whether the key in position `a` comes before the one in position `b`.
pub open spec fn key_before(keys: Seq<u64>, a: int, b: int) -> bool {
    keys[a] < keys[b] || (keys[a] == keys[b] && a < b)
}

proof fn lemma_by_key_total()
    ensures
        total_ordering(by_key()),
{
}

/// Every position occurs exactly once, and the keys ascend with ties in the
/// order of the positions.
pub proof fn lemma_order_of(keys: Seq<u64>)
    requires
        keys.len() <= usize::MAX,
    ensures
        order_of(keys).len() == keys.len(),
        forall|i: int| 0 <= i < keys.len() ==> (#[trigger] order_of(keys)[i]) < keys.len(),
        forall|i: int, j: int|
            0 <= i < j < keys.len() ==> key_before(
                keys,
                (#[trigger] order_of(keys)[i]) as int,
                (#[trigger] order_of(keys)[j]) as int,
            ),
        forall|k: usize| k < keys.len() ==> order_of(keys).contains(k),
        order_of(keys).no_duplicates(),
{
    broadcast use group_to_multiset_ensures;

    lemma_by_key_total();
    let pairs = keyed(keys);
    let sorted = pairs.sort_by(by_key());
    let order = order_of(keys);
    pairs.lemma_sort_by_ensures(by_key());
    assert(sorted.len() == sorted.to_multiset().len());
    assert(pairs.len() == pairs.to_multiset().len());
    assert forall|i: int| 0 <= i < keys.len() implies (#[trigger] order[i]) < keys.len()
        && sorted[i] == (keys[order[i] as int], order[i]) by {
        assert(sorted.contains(sorted[i]));
        assert(pairs.contains(sorted[i]));
    }
    assert forall|k: usize| k < keys.len() implies order.contains(k) by {
        assert(pairs[k as int] == (keys[k as int], k));
        assert(pairs.contains((keys[k as int], k)));
        assert(pairs.to_multiset().count((keys[k as int], k)) > 0);
        assert(sorted.to_multiset().count((keys[k as int], k)) > 0);
        assert(sorted.contains((keys[k as int], k)));
        let i = choose|i: int| 0 <= i < sorted.len() && sorted[i] == (keys[k as int], k);
        assert(order[i] == k);
    }
    assert(pairs.no_duplicates()) by {
        assert forall|i: int, j: int| 0 <= i < pairs.len() && 0 <= j < pairs.len() && i != j implies
            pairs[i] != pairs[j] by {
            assert(pairs[i].1 == i && pairs[j].1 == j);
        }
    }
    pairs.lemma_multiset_has_no_duplicates();
    assert(sorted.no_duplicates()) by {
        assert forall|x: (u64, usize)| sorted.to_multiset().contains(x) implies
            sorted.to_multiset().count(x) == 1 by {
            assert(pairs.to_multiset().contains(x));
        }
        sorted.lemma_multiset_has_no_duplicates_conv();
    }
    assert forall|i: int, j: int| 0 <= i < j < keys.len() implies key_before(
        keys,
        (#[trigger] order[i]) as int,
        (#[trigger] order[j]) as int,
    ) by {
        assert(by_key()(sorted[i], sorted[j]));
        assert(sorted[i] != sorted[j]);
        assert(sorted[i] == (keys[order[i] as int], order[i]));
        assert(sorted[j] == (keys[order[j] as int], order[j]));
    }
    assert forall|i: int, j: int| 0 <= i < order.len() && 0 <= j < order.len() && i != j implies
        order[i] != order[j] by {
        if i < j {
            assert(key_before(keys, order[i] as int, order[j] as int));
        } else {
            assert(key_before(keys, order[j] as int, order[i] as int));
        }
    }
}

/// An order that ascends strictly by key and position is the one of
/// [`order_of`].
pub proof fn lemma_order_unique(keys: Seq<u64>, pairs: Seq<(u64, usize)>)
    requires
        pairs.to_multiset() == keyed(keys).to_multiset(),
        sorted_by(pairs, by_key()),
    ensures
        pairs == keyed(keys).sort_by(by_key()),
{
    lemma_by_key_total();
    keyed(keys).lemma_sort_by_ensures(by_key());
    lemma_sorted_unique(pairs, keyed(keys).sort_by(by_key()), by_key());
}

fn pair_at_most(a: (u64, usize), b: (u64, usize)) -> (r: bool)
    ensures
        r == by_key()(a, b),
{
    a.0 < b.0 || (a.0 == b.0 && a.1 <= b.1)
}

/// Merges two sorted runs.
fn merge_runs(left: &Vec<(u64, usize)>, right: &Vec<(u64, usize)>) -> (r: Vec<(u64, usize)>)
    requires
        sorted_by(left@, by_key()),
        sorted_by(right@, by_key()),
    ensures
        sorted_by(r@, by_key()),
        r@.to_multiset() == left@.to_multiset().add(right@.to_multiset()),
{
    broadcast use group_to_multiset_ensures;

    let mut r: Vec<(u64, usize)> = Vec::new();
    let n: usize = left.len();
    let m: usize = right.len();
    let mut i: usize = 0;
    let mut j: usize = 0;
    proof {
        lemma_by_key_total();
        assert(left@.take(0) =~= Seq::empty());
        assert(right@.take(0) =~= Seq::empty());
        assert(r@.to_multiset() =~= left@.take(0).to_multiset().add(right@.take(0).to_multiset()));
    }
    while i < n || j < m
        invariant
            n == left@.len(),
            m == right@.len(),
            i <= n,
            j <= m,
            sorted_by(left@, by_key()),
            sorted_by(right@, by_key()),
            sorted_by(r@, by_key()),
            total_ordering(by_key()),
            r@.to_multiset() == left@.take(i as int).to_multiset().add(
                right@.take(j as int).to_multiset(),
            ),
            forall|k: int| 0 <= k < r@.len() && i < n ==> by_key()(#[trigger] r@[k], left@[i as int]),
            forall|k: int| 0 <= k < r@.len() && j < m ==> by_key()(#[trigger] r@[k], right@[j as int]),
        decreases n - i + m - j,
    {
        if j >= m || (i < n && pair_at_most(left[i], right[j])) {
            let ghost before = r@;
            let x: (u64, usize) = left[i];
            r.push(x);
            proof {
                to_multiset_build(before, x);
                to_multiset_build(left@.take(i as int), x);
                assert(left@.take(i + 1) =~= left@.take(i as int).push(x));
                assert(r@.to_multiset() =~= left@.take(i + 1).to_multiset().add(
                    right@.take(j as int).to_multiset(),
                ));
                assert forall|k: int| 0 <= k < r@.len() && i + 1 < n implies by_key()(
                    #[trigger] r@[k],
                    left@[i + 1],
                ) by {
                    assert(by_key()(left@[i as int], left@[i + 1]));
                    if k < before.len() {
                        assert(r@[k] == before[k]);
                        assert(by_key()(before[k], left@[i as int]));
                    }
                }
                assert forall|k: int| 0 <= k < r@.len() && j < m implies by_key()(
                    #[trigger] r@[k],
                    right@[j as int],
                ) by {
                    if k < before.len() {
                        assert(r@[k] == before[k]);
                    }
                }
            }
            i = i + 1;
        } else {
            let ghost before = r@;
            let x: (u64, usize) = right[j];
            r.push(x);
            proof {
                to_multiset_build(before, x);
                to_multiset_build(right@.take(j as int), x);
                assert(right@.take(j + 1) =~= right@.take(j as int).push(x));
                assert(r@.to_multiset() =~= left@.take(i as int).to_multiset().add(
                    right@.take(j + 1).to_multiset(),
                ));
                assert forall|k: int| 0 <= k < r@.len() && j + 1 < m implies by_key()(
                    #[trigger] r@[k],
                    right@[j + 1],
                ) by {
                    assert(by_key()(right@[j as int], right@[j + 1]));
                    if k < before.len() {
                        assert(r@[k] == before[k]);
                        assert(by_key()(before[k], right@[j as int]));
                    }
                }
                assert forall|k: int| 0 <= k < r@.len() && i < n implies by_key()(
                    #[trigger] r@[k],
                    left@[i as int],
                ) by {
                    if k < before.len() {
                        assert(r@[k] == before[k]);
                    } else {
                        assert(by_key()(x, left@[i as int]) || by_key()(left@[i as int], x));
                    }
                }
            }
            j = j + 1;
        }
    }
    proof {
        assert(left@.take(n as int) =~= left@);
        assert(right@.take(m as int) =~= right@);
    }
    r
}

/// Sorts the pairs from `lo` to `hi`.
fn sort_range(v: &Vec<(u64, usize)>, lo: usize, hi: usize) -> (r: Vec<(u64, usize)>)
    requires
        lo <= hi <= v@.len(),
    ensures
        sorted_by(r@, by_key()),
        r@.to_multiset() == v@.subrange(lo as int, hi as int).to_multiset(),
    decreases hi - lo,
{
    if hi - lo <= 1 {
        let mut r: Vec<(u64, usize)> = Vec::new();
        if lo < hi {
            r.push(v[lo]);
        }
        assert(r@ =~= v@.subrange(lo as int, hi as int));
        return r;
    }
    let mid: usize = lo + (hi - lo) / 2;
    let left: Vec<(u64, usize)> = sort_range(v, lo, mid);
    let right: Vec<(u64, usize)> = sort_range(v, mid, hi);
    proof {
        let a = v@.subrange(lo as int, mid as int);
        let b = v@.subrange(mid as int, hi as int);
        assert(v@.subrange(lo as int, hi as int) =~= a + b);
        lemma_multiset_commutative(a, b);
    }
    merge_runs(&left, &right)
}

/// The positions of `keys` in the order of their keys, ties in the order of the
/// positions.
pub fn stable_order(keys: &Vec<u64>) -> (r: Vec<usize>)
    ensures
        r@ == order_of(keys@),
{
    let n: usize = keys.len();
    let mut pairs: Vec<(u64, usize)> = Vec::new();
    let mut i: usize = 0;
    while i < n
        invariant
            n == keys@.len(),
            i <= n,
            pairs@ == keyed(keys@).take(i as int),
        decreases n - i,
    {
        pairs.push((keys[i], i));
        assert(pairs@ =~= keyed(keys@).take(i + 1));
        i = i + 1;
    }
    assert(pairs@ =~= keyed(keys@));
    assert(pairs@.subrange(0, n as int) =~= keyed(keys@));
    let sorted: Vec<(u64, usize)> = sort_range(&pairs, 0, n);
    proof {
        lemma_order_unique(keys@, sorted@);
    }
    let mut r: Vec<usize> = Vec::new();
    let k: usize = sorted.len();
    let mut j: usize = 0;
    while j < k
        invariant
            k == sorted@.len(),
            j <= k,
            r@ == sorted@.map_values(|p: (u64, usize)| p.1).take(j as int),
        decreases k - j,
    {
        r.push(sorted[j].1);
        assert(r@ =~= sorted@.map_values(|p: (u64, usize)| p.1).take(j + 1));
        j = j + 1;
    }
    assert(r@ =~= order_of(keys@));
    r
}

/// Whether `s` ascends without repetition.
pub open spec fn ascends(s: Seq<u64>) -> bool {
    forall|i: int, j: int| 0 <= i < j < s.len() ==> (#[trigger] s[i]) < (#[trigger] s[j])
}

/// Whether `r` holds the elements of `s`, each once and in ascending order.
pub open spec fn ascending_set_of(r: Seq<u64>, s: Seq<u64>) -> bool {
    &&& ascends(r)
    &&& forall|x: u64| #[trigger] r.contains(x) <==> s.contains(x)
}

/// An ascending sequence is determined by its elements.
pub proof fn lemma_ascending_set_unique(a: Seq<u64>, b: Seq<u64>, s: Seq<u64>)
    requires
        ascending_set_of(a, s),
        ascending_set_of(b, s),
    ensures
        a == b,
    decreases a.len() + b.len(),
{
    if a.len() == 0 {
        if b.len() > 0 {
            assert(b.contains(b[0]));
            assert(a.contains(b[0]));
        }
        assert(a =~= b);
    } else if b.len() == 0 {
        assert(a.contains(a[0]));
        assert(b.contains(a[0]));
        assert(false);
    } else {
        let x = a.last();
        let y = b.last();
        assert(a[a.len() - 1] == x);
        assert(a.contains(x));
        assert(b.contains(x));
        assert(b[b.len() - 1] == y);
        assert(b.contains(y));
        assert(a.contains(y));
        let i = choose|i: int| 0 <= i < b.len() && b[i] == x;
        let j = choose|j: int| 0 <= j < a.len() && a[j] == y;
        assert(x == y);
        let a1 = a.drop_last();
        let b1 = b.drop_last();
        assert forall|v: u64| #[trigger] a1.contains(v) implies b1.contains(v) by {
            let k = choose|k: int| 0 <= k < a1.len() && a1[k] == v;
            assert(a[k] == v);
            assert(a.contains(v));
            assert(b.contains(v));
            let m = choose|m: int| 0 <= m < b.len() && b[m] == v;
            assert(b1[m] == v);
        }
        assert forall|v: u64| #[trigger] b1.contains(v) implies a1.contains(v) by {
            let k = choose|k: int| 0 <= k < b1.len() && b1[k] == v;
            assert(b[k] == v);
            assert(b.contains(v));
            assert(a.contains(v));
            let m = choose|m: int| 0 <= m < a.len() && a[m] == v;
            assert(a1[m] == v);
        }
        lemma_ascending_set_unique(a1, b1, a1);
        assert(a =~= a1.push(x));
        assert(b =~= b1.push(y));
    }
}

/// The elements of a set in ascending order.
pub open spec fn in_order(set: Set<u64>) -> Seq<u64> {
    choose|s: Seq<u64>| #[trigger] ascends(s) && s.to_set() == set
}

/// An ascending sequence is the order of its elements.
pub proof fn lemma_in_order(s: Seq<u64>)
    requires
        ascends(s),
    ensures
        in_order(s.to_set()) == s,
{
    let t = in_order(s.to_set());
    assert(ascends(t) && t.to_set() == s.to_set());
    assert forall|x: u64| #[trigger] t.contains(x) <==> s.contains(x) by {
        assert(t.to_set().contains(x) <==> s.to_set().contains(x));
    }
    lemma_ascending_set_unique(t, s, s);
}

/// The elements of a set below a bound have an ascending order.
proof fn lemma_order_below(set: Set<u64>, bound: int) -> (s: Seq<u64>)
    requires
        0 <= bound <= u64::MAX + 1,
    ensures
        ascends(s),
        forall|x: u64| #[trigger] s.contains(x) <==> set.contains(x) && x < bound,
    decreases bound,
{
    if bound == 0 {
        Seq::empty()
    } else {
        let t = lemma_order_below(set, bound - 1);
        let last = (bound - 1) as u64;
        if set.contains(last) {
            let s = t.push(last);
            assert forall|i: int, j: int| 0 <= i < j < s.len() implies s[i] < s[j] by {
                assert(t.contains(t[i]));
            }
            assert forall|x: u64| #[trigger] s.contains(x) <==> set.contains(x) && x < bound by {
                assert(s[t.len() as int] == last);
                if t.contains(x) {
                    let i = choose|i: int| 0 <= i < t.len() && t[i] == x;
                    assert(s[i] == x);
                }
                if s.contains(x) && x != last {
                    let i = choose|i: int| 0 <= i < s.len() && s[i] == x;
                    assert(t[i] == x);
                }
            }
            s
        } else {
            t
        }
    }
}

/// The order of a set ascends and has the elements of the set.
pub proof fn lemma_in_order_of(set: Set<u64>)
    ensures
        ascends(in_order(set)),
        in_order(set).to_set() == set,
{
    let s = lemma_order_below(set, u64::MAX + 1);
    assert forall|x: u64| #[trigger] s.to_set().contains(x) <==> set.contains(x) by {
        assert(s.contains(x) <==> set.contains(x));
    }
    assert(s.to_set() =~= set);
    assert(ascends(s) && s.to_set() == set);
}

/// The elements of `v`, each once and in ascending order.
pub fn sorted_unique(v: &Vec<u64>) -> (r: Vec<u64>)
    ensures
        ascending_set_of(r@, v@),
{
    let n: usize = v.len();
    let order: Vec<usize> = stable_order(v);
    proof {
        lemma_order_of(v@);
    }
    let mut r: Vec<u64> = Vec::new();
    let mut i: usize = 0;
    while i < n
        invariant
            n == v@.len(),
            i <= n,
            order@ == order_of(v@),
            order@.len() == n,
            forall|k: int| 0 <= k < n ==> (#[trigger] order@[k]) < n,
            forall|a: int, b: int|
                0 <= a < b < n ==> key_before(
                    v@,
                    (#[trigger] order@[a]) as int,
                    (#[trigger] order@[b]) as int,
                ),
            ascends(r@),
            i == 0 ==> r@.len() == 0,
            i > 0 ==> r@.len() > 0 && r@.last() == v@[order@[i - 1] as int],
            forall|x: u64| #[trigger] r@.contains(x) ==> v@.contains(x),
            forall|k: int| 0 <= k < i ==> r@.contains(v@[#[trigger] order@[k] as int]),
        decreases n - i,
    {
        let x: u64 = v[order[i]];
        let ghost before = r@;
        if i == 0 || r[r.len() - 1] != x {
            r.push(x);
            proof {
                assert(r@.last() == x);
                assert forall|y: u64| #[trigger] r@.contains(y) implies v@.contains(y) by {
                    let k = choose|k: int| 0 <= k < r@.len() && r@[k] == y;
                    if k < before.len() {
                        assert(before[k] == y);
                        assert(before.contains(y));
                    } else {
                        assert(v@[order@[i as int] as int] == y);
                    }
                }
                assert forall|k: int| 0 <= k < i implies r@.contains(
                    v@[#[trigger] order@[k] as int],
                ) by {
                    let y = v@[order@[k] as int];
                    assert(before.contains(y));
                    let m = choose|m: int| 0 <= m < before.len() && before[m] == y;
                    assert(r@[m] == y);
                }
                assert(r@[r@.len() - 1] == v@[order@[i as int] as int]);
            }
        }
        i = i + 1;
    }
    proof {
        assert forall|x: u64| v@.contains(x) implies #[trigger] r@.contains(x) by {
            let k = choose|k: int| 0 <= k < v@.len() && v@[k] == x;
            assert(order_of(v@).contains(k as usize));
            let m = choose|m: int| 0 <= m < order@.len() && order@[m] == k as usize;
            assert(r@.contains(v@[order@[m] as int]));
        }
    }
    r
}

/// The elements in the opposite order.
pub fn reversed<T>(v: Vec<T>) -> (r: Vec<T>)
    ensures
        r@ == v@.reverse(),
{
    let ghost all = v@;
    let mut v: Vec<T> = v;
    let mut r: Vec<T> = Vec::new();
    assert(all.take(all.len() as int) =~= all);
    assert(r@ =~= all.skip(all.len() as int).reverse());
    while v.len() > 0
        invariant
            v@.len() <= all.len(),
            v@ == all.take(v@.len() as int),
            r@ == all.skip(v@.len() as int).reverse(),
        decreases v@.len(),
    {
        let ghost n = v@.len() as int;
        match v.pop() {
            Some(x) => {
                r.push(x);
                assert(v@ =~= all.take(n - 1));
                assert(r@ =~= all.skip(n - 1).reverse());
            },
            None => {},
        }
    }
    assert(r@ =~= all.reverse());
    r
}

// ---------------------------------------------------------------------------
// Sums
// ---------------------------------------------------------------------------

/// The sum of numbers.
pub open spec fn sum_of(s: Seq<nat>) -> nat
    decreases s.len(),
{
    if s.len() == 0 {
        0
    } else {
        sum_of(s.drop_last()) + s.last()
    }
}

proof fn lemma_sum_remove(s: Seq<nat>, k: int)
    requires
        0 <= k < s.len(),
    ensures
        sum_of(s) == sum_of(s.remove(k)) + s[k],
    decreases s.len(),
{
    if k == s.len() - 1 {
        assert(s.remove(k) =~= s.drop_last());
    } else {
        lemma_sum_remove(s.drop_last(), k);
        assert(s.drop_last().remove(k) =~= s.remove(k).drop_last());
        assert(s.remove(k).last() == s.last());
    }
}

/// The sum of numbers does not depend on their order.
pub proof fn lemma_sum_permuted(s: Seq<nat>, order: Seq<usize>)
    requires
        s.len() <= usize::MAX,
        order.len() == s.len(),
        order.no_duplicates(),
        forall|i: int| 0 <= i < order.len() ==> (#[trigger] order[i]) < s.len(),
        forall|k: usize| k < s.len() ==> order.contains(k),
    ensures
        sum_of(order.map_values(|p: usize| s[p as int])) == sum_of(s),
    decreases s.len(),
{
    let picked = order.map_values(|p: usize| s[p as int]);
    if s.len() > 0 {
        let last = (s.len() - 1) as usize;
        assert(order[0] < s.len());
        assert(order.contains(last));
        let k = choose|k: int| 0 <= k < order.len() && order[k] == last;
        let rest = order.remove(k);
        let t = s.drop_last();
        assert forall|i: int| 0 <= i < rest.len() implies (#[trigger] rest[i]) < t.len() by {
            let j = if i < k {
                i
            } else {
                i + 1
            };
            assert(rest[i] == order[j]);
            assert(order[j] != order[k]);
        }
        assert forall|i: int, j: int| 0 <= i < rest.len() && 0 <= j < rest.len() && i != j implies rest[i]
            != rest[j] by {
            let a = if i < k {
                i
            } else {
                i + 1
            };
            let b = if j < k {
                j
            } else {
                j + 1
            };
            assert(order[a] != order[b]);
        }
        assert forall|v: usize| v < t.len() implies rest.contains(v) by {
            assert(order.contains(v));
            let j = choose|j: int| 0 <= j < order.len() && order[j] == v;
            if j < k {
                assert(rest[j] == v);
            } else {
                assert(rest[j - 1] == v);
            }
        }
        lemma_sum_permuted(t, rest);
        lemma_sum_remove(picked, k);
        assert(picked.remove(k) =~= rest.map_values(|p: usize| t[p as int])) by {
            assert forall|i: int| 0 <= i < rest.len() implies picked.remove(k)[i] == t[rest[i] as int] by {
                assert(rest[i] < t.len());
            }
        }
    }
}

/// One for each item that is `x`.
spec fn marks_of<A>(s: Seq<A>, x: A) -> Seq<nat> {
    s.map_values(
        |a: A|
            if a == x {
                1nat
            } else {
                0nat
            },
    )
}

proof fn lemma_marks_count<A>(s: Seq<A>, x: A)
    ensures
        sum_of(marks_of(s, x)) == s.to_multiset().count(x),
    decreases s.len(),
{
    broadcast use group_to_multiset_ensures;

    if s.len() > 0 {
        lemma_marks_count(s.drop_last(), x);
        assert(marks_of(s, x).drop_last() =~= marks_of(s.drop_last(), x));
        assert(s =~= s.drop_last().push(s.last()));
    }
}

/// Items in another order are the same items, each as often.
pub proof fn lemma_multiset_permuted<A>(s: Seq<A>, order: Seq<usize>)
    requires
        s.len() <= usize::MAX,
        order.len() == s.len(),
        order.no_duplicates(),
        forall|i: int| 0 <= i < order.len() ==> (#[trigger] order[i]) < s.len(),
        forall|k: usize| k < s.len() ==> order.contains(k),
    ensures
        Seq::new(order.len(), |i: int| s[order[i] as int]).to_multiset() == s.to_multiset(),
{
    let p = Seq::new(order.len(), |i: int| s[order[i] as int]);
    assert forall|x: A| #[trigger] p.to_multiset().count(x) == s.to_multiset().count(x) by {
        let marks = marks_of(s, x);
        lemma_marks_count(s, x);
        lemma_marks_count(p, x);
        lemma_sum_permuted(marks, order);
        assert(marks_of(p, x) =~= order.map_values(|q: usize| marks[q as int]));
    }
    assert(p.to_multiset() =~= s.to_multiset());
}

/// Whether `p` lists every position below `n` once.
pub open spec fn is_rearrangement(p: Seq<usize>, n: nat) -> bool {
    &&& p.len() == n
    &&& p.no_duplicates()
    &&& forall|i: int| 0 <= i < p.len() ==> (#[trigger] p[i]) < n
    &&& forall|k: usize| k < n ==> #[trigger] p.contains(k)
}

/// Whether a rearrangement leaves positions with equal keys in their order.
pub open spec fn keeps_ties(keys: Seq<u64>, p: Seq<usize>) -> bool {
    forall|i: int, j: int|
        0 <= i < j < p.len() && keys[#[trigger] p[i] as int] == keys[#[trigger] p[j] as int] ==> p[i]
            < p[j]
}

/// The order by key does not depend on the order in which the keys come, as long as ties
/// stay in theirs.
pub proof fn lemma_order_rearranged(keys: Seq<u64>, p: Seq<usize>)
    requires
        keys.len() <= usize::MAX,
        is_rearrangement(p, keys.len()),
        keeps_ties(keys, p),
    ensures
        order_of(p.map_values(|i: usize| keys[i as int])).map_values(|k: usize| p[k as int])
            == order_of(keys),
{
    let other = p.map_values(|i: usize| keys[i as int]);
    let o = order_of(other);
    let q = o.map_values(|k: usize| p[k as int]);
    let pairs = Seq::new(q.len(), |i: int| keyed(keys)[q[i] as int]);
    lemma_order_of(other);
    assert forall|i: int| 0 <= i < q.len() implies (#[trigger] q[i]) < keys.len() by {
        assert(o[i] < other.len());
        assert(p[o[i] as int] < keys.len());
    }
    assert forall|i: int, j: int| 0 <= i < q.len() && 0 <= j < q.len() && i != j implies q[i]
        != q[j] by {
        assert(o[i] != o[j]);
        assert(o[i] < other.len() && o[j] < other.len());
        assert(p[o[i] as int] != p[o[j] as int]);
    }
    assert forall|k: usize| k < keys.len() implies q.contains(k) by {
        assert(p.contains(k));
        let a = choose|a: int| 0 <= a < p.len() && p[a] == k;
        assert(o.contains(a as usize));
        let b = choose|b: int| 0 <= b < o.len() && o[b] == a as usize;
        assert(q[b] == k);
    }
    lemma_multiset_permuted(keyed(keys), q);
    assert forall|i: int, j: int| 0 <= i < j < pairs.len() implies #[trigger] by_key()(
        pairs[i],
        pairs[j],
    ) by {
        assert(key_before(other, o[i] as int, o[j] as int));
        assert(o[i] < other.len() && o[j] < other.len());
        assert(q[i] < keys.len() && q[j] < keys.len());
        if other[o[i] as int] == other[o[j] as int] {
            assert(keys[p[o[i] as int] as int] == keys[p[o[j] as int] as int]);
            assert(p[o[i] as int] < p[o[j] as int]);
        }
    }
    lemma_order_unique(keys, pairs);
    assert forall|i: int| 0 <= i < q.len() implies q[i] == order_of(keys)[i] by {
        assert(q[i] < keys.len());
        assert(pairs[i].1 == q[i]);
    }
    lemma_order_of(keys);
    assert(q =~= order_of(keys));
}

} // verus!
