//! Smashing the two heaviest stones together until at most one is left.
use vstd::prelude::*;
use vstd::relations::{sorted_by, total_ordering};

use crate::algorithms::Solution;

verus! {

/// Every element of `s` is at most every later one.
pub open spec fn ascending(s: Seq<i32>) -> bool {
    forall|i: int, j: int| 0 <= i < j < s.len() ==> s[i] <= s[j]
}

/// The ascending order on `i32`.
pub open spec fn le_i32() -> spec_fn(i32, i32) -> bool {
    |a: i32, b: i32| a <= b
}

/// `t` with `v` put in after every element that is at most `v`.
pub open spec fn insert_asc(t: Seq<i32>, v: i32) -> Seq<i32>
    decreases t.len(),
{
    if t.len() == 0 {
        seq![v]
    } else if t.last() <= v {
        t.push(v)
    } else {
        insert_asc(t.drop_last(), v).push(t.last())
    }
}

proof fn lemma_insert_asc(t: Seq<i32>, v: i32)
    requires
        ascending(t),
    ensures
        insert_asc(t, v).len() == t.len() + 1,
        ascending(insert_asc(t, v)),
        insert_asc(t, v).to_multiset() == t.to_multiset().insert(v),
    decreases t.len(),
{
    broadcast use vstd::seq_lib::group_to_multiset_ensures;

    if t.len() == 0 {
        assert(seq![v] =~= Seq::<i32>::empty().push(v));
    } else if t.last() <= v {
    } else {
        let u = t.drop_last();
        lemma_insert_asc(u, v);
        let w = insert_asc(u, v);
        assert(t =~= u.push(t.last()));
        assert forall|k: int| 0 <= k < w.len() implies w[k] <= t.last() by {
            assert(w.to_multiset().count(w[k]) > 0);
            if w[k] != v {
                assert(u.to_multiset().count(w[k]) > 0);
                let q = choose|q: int| 0 <= q < u.len() && u[q] == w[k];
                assert(t[q] <= t[t.len() - 1]);
            }
        }
        assert(w.push(t.last()).to_multiset() =~= t.to_multiset().insert(v));
    }
}

/// The weight left after smashing the stones of the ascending `s`: the two
/// heaviest, `x >= y`, are destroyed and a stone of weight `x - y` comes back
/// where that is positive; the last stone left, or 0 where none is.
pub open spec fn smash(s: Seq<i32>) -> int
    decreases s.len(),
{
    if s.len() == 0 {
        0
    } else if s.len() == 1 {
        s[0] as int
    } else {
        let x = s.last();
        let y = s[s.len() - 2];
        let rest = s.take(s.len() - 2);
        if x - y > 0 {
            proof {
                lemma_insert_len(rest, (x - y) as i32);
            }
            smash(insert_asc(rest, (x - y) as i32))
        } else {
            smash(rest)
        }
    }
}

/// No difference of weights along `smash(s)` leaves the `i32` range.
pub open spec fn smash_fits(s: Seq<i32>) -> bool
    decreases s.len(),
{
    s.len() < 2 || {
        let x = s.last();
        let y = s[s.len() - 2];
        let rest = s.take(s.len() - 2);
        x - y <= i32::MAX && if x - y > 0 {
            proof {
                lemma_insert_len(rest, (x - y) as i32);
            }
            smash_fits(insert_asc(rest, (x - y) as i32))
        } else {
            smash_fits(rest)
        }
    }
}

pub proof fn lemma_insert_len(t: Seq<i32>, v: i32)
    ensures
        insert_asc(t, v).len() == t.len() + 1,
    decreases t.len(),
{
    if t.len() > 0 {
        lemma_insert_len(t.drop_last(), v);
    }
}

/// The stones in ascending order of weight.
pub open spec fn sorted_stones(stones: Seq<i32>) -> Seq<i32> {
    stones.sort_by(le_i32())
}

proof fn lemma_le_total()
    ensures
        total_ordering(le_i32()),
{
}

proof fn lemma_sorted_stones(stones: Seq<i32>)
    ensures
        ascending(sorted_stones(stones)),
        sorted_stones(stones).to_multiset() == stones.to_multiset(),
{
    lemma_le_total();
    stones.lemma_sort_by_ensures(le_i32());
    let s = sorted_stones(stones);
    assert forall|i: int, j: int| 0 <= i < j < s.len() implies s[i] <= s[j] by {
        assert(sorted_by(s, le_i32()));
        assert(le_i32()(s[i], s[j]));
    }
}

/// Two ascending sequences with the same elements are equal.
proof fn lemma_ascending_unique(a: Seq<i32>, b: Seq<i32>)
    requires
        ascending(a),
        ascending(b),
        a.to_multiset() == b.to_multiset(),
    ensures
        a == b,
{
    lemma_le_total();
    assert(sorted_by(a, le_i32()));
    assert(sorted_by(b, le_i32()));
    vstd::seq_lib::lemma_sorted_unique(a, b, le_i32());
}

/// In an ascending sequence with the elements of `bag`, an element of `bag`
/// that no other exceeds is the last one.
proof fn lemma_max_is_last(bag: Seq<i32>, s: Seq<i32>, i: int)
    requires
        ascending(s),
        s.len() > 0,
        bag.to_multiset() == s.to_multiset(),
        0 <= i < bag.len(),
        forall|k: int| 0 <= k < bag.len() ==> bag[k] <= bag[i],
    ensures
        bag[i] == s.last(),
{
    broadcast use vstd::seq_lib::group_to_multiset_ensures;

    assert(bag.to_multiset().count(bag[i]) > 0);
    let q = choose|q: int| 0 <= q < s.len() && s[q] == bag[i];
    assert(s[q] <= s[s.len() - 1]);
    assert(s.to_multiset().count(s.last()) > 0);
    let r = choose|r: int| 0 <= r < bag.len() && bag[r] == s.last();
}

/// The position of an element of `v` that no other exceeds.
fn max_index(v: &Vec<i32>) -> (i: usize)
    requires
        v@.len() > 0,
    ensures
        i < v@.len(),
        forall|k: int| 0 <= k < v@.len() ==> v@[k] <= v@[i as int],
{
    let mut best: usize = 0;
    let mut k: usize = 1;
    while k < v.len()
        invariant
            best < k <= v@.len(),
            forall|j: int| 0 <= j < k ==> v@[j] <= v@[best as int],
        decreases v@.len() - k,
    {
        if v[k] > v[best] {
            best = k;
        }
        k += 1;
    }
    best
}

/// Removes an element of `v` that no other exceeds, and returns it.
fn take_max(v: &mut Vec<i32>, Ghost(s): Ghost<Seq<i32>>) -> (x: i32)
    requires
        old(v)@.len() > 0,
        ascending(s),
        old(v)@.to_multiset() == s.to_multiset(),
    ensures
        x == s.last(),
        final(v)@.len() == old(v)@.len() - 1,
        final(v)@.to_multiset() == s.drop_last().to_multiset(),
{
    broadcast use vstd::seq_lib::group_to_multiset_ensures;

    proof {
        vstd::seq_lib::to_multiset_len(s);
        vstd::seq_lib::to_multiset_len(old(v)@);
    }
    let i = max_index(v);
    proof {
        lemma_max_is_last(v@, s, i as int);
    }
    let ghost before = v@;
    let x = v.remove(i);
    proof {
        vstd::seq_lib::to_multiset_remove(before, i as int);
        assert(s =~= s.drop_last().push(s.last()));
        assert(s.drop_last().to_multiset() =~= s.to_multiset().remove(x));
    }
    x
}

/// Sorts `v` in ascending order, keeping every element.
fn sort_ascending(v: &mut Vec<i32>)
    ensures
        ascending(final(v)@),
        final(v)@.to_multiset() == old(v)@.to_multiset(),
{
    broadcast use vstd::seq_lib::group_to_multiset_ensures;

    let n = v.len();
    let mut i: usize = 1;
    if n == 0 {
        return;
    }
    while i < n
        invariant
            1 <= i <= n,
            n == v@.len(),
            v@.to_multiset() == old(v)@.to_multiset(),
            forall|a: int, b: int| 0 <= a < b < i ==> v@[a] <= v@[b],
        decreases n - i,
    {
        let mut j: usize = i;
        while j > 0 && v[j] < v[j - 1]
            invariant
                0 <= j <= i < n,
                n == v@.len(),
                v@.to_multiset() == old(v)@.to_multiset(),
                forall|a: int, b: int| 0 <= a < b <= i && b != j ==> v@[a] <= v@[b],
                forall|b: int| j < b <= i ==> v@[j as int] <= v@[b],
            decreases j,
        {
            let ghost before = v@;
            let a = v[j - 1];
            let b = v[j];
            v.set(j - 1, b);
            v.set(j, a);
            proof {
                broadcast use vstd::multiset::group_multiset_axioms;

                let s1 = before.update(j - 1, b);
                assert(v@ == s1.update(j as int, a));
                vstd::seq_lib::to_multiset_update(before, j - 1, b);
                vstd::seq_lib::to_multiset_update(s1, j as int, a);
                assert(before.contains(a) && before.contains(b)) by {
                    assert(before[j - 1] == a && before[j as int] == b);
                }
                vstd::seq_lib::to_multiset_contains(before, a);
                vstd::seq_lib::to_multiset_contains(before, b);
                let m = before.to_multiset();
                assert(m.count(a) > 0 && m.count(b) > 0);
                assert(v@.to_multiset() =~= m);
            }
            j -= 1;
        }
        i += 1;
    }
}

/// The first position of the ascending `v` whose element is at least `x`.
fn lower_bound(v: &Vec<i32>, x: i32) -> (p: usize)
    requires
        ascending(v@),
    ensures
        p <= v@.len(),
        forall|k: int| 0 <= k < p ==> v@[k] < x,
        forall|k: int| p <= k < v@.len() ==> v@[k] >= x,
{
    let mut lo: usize = 0;
    let mut hi: usize = v.len();
    while lo < hi
        invariant
            lo <= hi <= v@.len(),
            ascending(v@),
            forall|k: int| 0 <= k < lo ==> v@[k] < x,
            forall|k: int| hi <= k < v@.len() ==> v@[k] >= x,
        decreases hi - lo,
    {
        let mid = lo + (hi - lo) / 2;
        if v[mid] < x {
            lo = mid + 1;
        } else {
            hi = mid;
        }
    }
    lo
}

/// No element of `s` is negative.
pub open spec fn all_nonneg(s: Seq<i32>) -> bool {
    forall|i: int| 0 <= i < s.len() ==> s[i] >= 0
}

proof fn lemma_insert_nonneg(t: Seq<i32>, v: i32)
    requires
        all_nonneg(t),
        v >= 0,
    ensures
        all_nonneg(insert_asc(t, v)),
    decreases t.len(),
{
    if t.len() > 0 && t.last() > v {
        lemma_insert_nonneg(t.drop_last(), v);
    }
}

proof fn lemma_fits_nonneg(s: Seq<i32>)
    requires
        all_nonneg(s),
    ensures
        smash_fits(s),
    decreases s.len(),
{
    if s.len() >= 2 {
        let x = s.last();
        let y = s[s.len() - 2];
        let rest = s.take(s.len() - 2);
        assert(all_nonneg(rest));
        if x - y > 0 {
            lemma_insert_len(rest, (x - y) as i32);
            lemma_insert_nonneg(rest, (x - y) as i32);
            lemma_fits_nonneg(insert_asc(rest, (x - y) as i32));
        } else {
            lemma_fits_nonneg(rest);
        }
    }
}

/// Where no stone has a negative weight, no difference along the smashing
/// leaves the `i32` range, in whatever order the stones are given: both
/// `last_stone_weight` and `last_stone_weight_none_heap` accept such stones,
/// and both give `smash(sorted_stones(stones))`, so they agree.
pub proof fn law_nonneg_stones_fit(stones: Seq<i32>)
    requires
        all_nonneg(stones),
    ensures
        smash_fits(stones),
        smash_fits(sorted_stones(stones)),
{
    broadcast use vstd::seq_lib::group_to_multiset_ensures;

    lemma_fits_nonneg(stones);
    lemma_sorted_stones(stones);
    let s = sorted_stones(stones);
    assert forall|k: int| 0 <= k < s.len() implies s[k] >= 0 by {
        assert(s.to_multiset().count(s[k]) > 0);
        assert(stones.to_multiset().count(s[k]) > 0);
        let q = choose|q: int| 0 <= q < stones.len() && stones[q] == s[k];
    }
    lemma_fits_nonneg(s);
}

impl Solution {
    /// The weight of the last stone after smashing the two heaviest stones
    /// together while at least two are left (a stone of their difference
    /// comes back where it is positive), or 0 where none is left.
    pub fn last_stone_weight(stones: Vec<i32>) -> (res: i32)
        requires
            smash_fits(sorted_stones(stones@)),
        ensures
            res == smash(sorted_stones(stones@)),
    {
        broadcast use vstd::seq_lib::group_to_multiset_ensures;

        let mut heap = stones;
        let ghost mut s = sorted_stones(heap@);
        proof {
            lemma_sorted_stones(heap@);
            vstd::seq_lib::to_multiset_len(s);
            vstd::seq_lib::to_multiset_len(heap@);
        }
        while 1 < heap.len()
            invariant
                ascending(s),
                heap@.to_multiset() == s.to_multiset(),
                heap@.len() == s.len(),
                smash(s) == smash(sorted_stones(stones@)),
                smash_fits(s),
            decreases heap@.len(),
        {
            let x = take_max(&mut heap, Ghost(s));
            let ghost s1 = s.drop_last();
            let y = take_max(&mut heap, Ghost(s1));
            proof {
                assert(s1.drop_last() =~= s.take(s.len() - 2));
                assert(y == s[s.len() - 2]);
            }
            let left = x - y;
            if 0 < left {
                let ghost before = heap@;
                heap.push(left);
                proof {
                    lemma_insert_asc(s.take(s.len() - 2), left);
                    assert(heap@ =~= before.push(left));
                    vstd::seq_lib::to_multiset_build(before, left);
                    assert(heap@.to_multiset() == before.to_multiset().insert(left));
                    s = insert_asc(s.take(s.len() - 2), left);
                }
            } else {
                proof {
                    s = s.take(s.len() - 2);
                }
            }
        }
        if heap.len() == 1 {
            proof {
                assert(heap@.to_multiset().count(heap@[0]) > 0);
                assert(s =~= seq![s[0]]);
                assert(s.to_multiset().count(heap@[0]) > 0);
            }
            heap[0]
        } else {
            0
        }
    }

    /// The same smashing as `last_stone_weight`, on the stones kept sorted in
    /// a vector: the difference goes back in at its place by binary search.
    pub fn last_stone_weight_none_heap(stones: Vec<i32>) -> (res: i32)
        requires
            smash_fits(sorted_stones(stones@)),
        ensures
            res == smash(sorted_stones(stones@)),
    {
        broadcast use vstd::seq_lib::group_to_multiset_ensures;

        let mut stones = stones;
        let ghost given = stones@;
        sort_ascending(&mut stones);
        proof {
            lemma_sorted_stones(given);
            lemma_ascending_unique(stones@, sorted_stones(given));
        }
        while 1 < stones.len()
            invariant
                ascending(stones@),
                smash(stones@) == smash(sorted_stones(given)),
                smash_fits(stones@),
            decreases stones@.len(),
        {
            let ghost s = stones@;
            let x = stones.pop().unwrap();
            let y = stones.pop().unwrap();
            proof {
                assert(stones@ =~= s.take(s.len() - 2));
            }
            let left = x - y;
            if 0 < left {
                let t = stones.len();
                let p = lower_bound(&stones, left);
                let ghost rest = stones@;
                stones.insert(p, left);
                proof {
                    lemma_insert_asc(rest, left);
                    vstd::seq_lib::to_multiset_insert(rest, p as int, left);
                    assert forall|a: int, b: int| 0 <= a < b < stones@.len() implies stones@[a]
                        <= stones@[b] by {
                        if b < p {
                        } else if a > p {
                            assert(stones@[a] == rest[a - 1] && stones@[b] == rest[b - 1]);
                        } else if a == p {
                            assert(stones@[b] == rest[b - 1]);
                        } else {
                            if b > p {
                                assert(stones@[b] == rest[b - 1]);
                            }
                        }
                    }
                    lemma_ascending_unique(stones@, insert_asc(rest, left));
                }
            }
        }
        if stones.is_empty() {
            0
        } else {
            stones[0]
        }
    }
}

} // verus!
