//! Sum of the minimums of all contiguous subarrays, modulo 1_000_000_007.
use vstd::prelude::*;

use crate::algorithms::Solution;

verus! {

/// The modulus of the result.
pub const MODULUS: u64 = 1_000_000_007;

/// The minimum of `a[l..=r]`.
pub open spec fn min_of(a: Seq<i32>, l: int, r: int) -> int
    decreases r - l,
{
    if r <= l {
        a[l] as int
    } else {
        let m = min_of(a, l, r - 1);
        if (a[r] as int) < m {
            a[r] as int
        } else {
            m
        }
    }
}

/// Sum of `min_of(a, l, r)` over `l < m`: the subarrays that end at `r`.
pub open spec fn mins_ending_at(a: Seq<i32>, r: int, m: int) -> int
    decreases m,
{
    if m <= 0 {
        0
    } else {
        mins_ending_at(a, r, m - 1) + min_of(a, m - 1, r)
    }
}

/// Sum of the minimums of the subarrays that end before `n`, by right end.
pub open spec fn mins_by_right(a: Seq<i32>, n: int) -> int
    decreases n,
{
    if n <= 0 {
        0
    } else {
        mins_by_right(a, n - 1) + mins_ending_at(a, n - 1, n)
    }
}

/// Sum of `min_of(a, l, r)` over `l <= r < m`: the subarrays that start at `l`.
pub open spec fn mins_starting_at(a: Seq<i32>, l: int, m: int) -> int
    decreases m - l,
{
    if m <= l {
        0
    } else {
        mins_starting_at(a, l, m - 1) + min_of(a, l, m - 1)
    }
}

/// Sum of `mins_starting_at(a, l, n)` over `l < m`.
pub open spec fn sum_starts(a: Seq<i32>, m: int, n: int) -> int
    decreases m,
{
    if m <= 0 {
        0
    } else {
        sum_starts(a, m - 1, n) + mins_starting_at(a, m - 1, n)
    }
}

/// Sum of the minimums of the subarrays of `a[..n]`, by left end.
pub open spec fn mins_by_left(a: Seq<i32>, n: int) -> int {
    sum_starts(a, n, n)
}

/// Sum of the minimums of all contiguous subarrays of `a`.
pub open spec fn subarray_mins_total(a: Seq<i32>) -> int {
    mins_by_right(a, a.len() as int)
}

/// Every element is at least zero.
pub open spec fn all_nonneg(a: Seq<i32>) -> bool {
    forall|i: int| 0 <= i < a.len() ==> a[i] >= 0
}

// ---------------------------------------------------------------------------
// Exchanging the order of summation.

proof fn lemma_sum_starts_step(a: Seq<i32>, m: int, n: int)
    requires
        0 <= m <= n,
    ensures
        sum_starts(a, m, n + 1) == sum_starts(a, m, n) + mins_ending_at(a, n, m),
    decreases m,
{
    if m > 0 {
        lemma_sum_starts_step(a, m - 1, n);
    }
}

/// Summing the minimums by left end or by right end gives the same total.
pub proof fn law_sum_order(a: Seq<i32>, n: int)
    requires
        0 <= n,
    ensures
        mins_by_left(a, n) == mins_by_right(a, n),
    decreases n,
{
    if n > 0 {
        law_sum_order(a, n - 1);
        lemma_sum_starts_step(a, n - 1, n - 1);
        assert(sum_starts(a, n, n) == sum_starts(a, n - 1, n) + mins_starting_at(a, n - 1, n));
        assert(mins_starting_at(a, n - 1, n - 1) == 0);
        assert(mins_starting_at(a, n - 1, n) == min_of(a, n - 1, n - 1));
    }
}

// ---------------------------------------------------------------------------
// Bounds.

proof fn lemma_min_of_nonneg(a: Seq<i32>, l: int, r: int)
    requires
        all_nonneg(a),
        0 <= l < a.len(),
        r < a.len(),
    ensures
        min_of(a, l, r) >= 0,
    decreases r - l,
{
    if r > l {
        lemma_min_of_nonneg(a, l, r - 1);
    }
}

proof fn lemma_ending_nonneg(a: Seq<i32>, r: int, m: int)
    requires
        all_nonneg(a),
        0 <= r < a.len(),
        m <= a.len(),
    ensures
        mins_ending_at(a, r, m) >= 0,
    decreases m,
{
    if m > 0 {
        lemma_ending_nonneg(a, r, m - 1);
        lemma_min_of_nonneg(a, m - 1, r);
    }
}

proof fn lemma_by_right_mono(a: Seq<i32>, i: int, n: int)
    requires
        all_nonneg(a),
        0 <= i <= n <= a.len(),
    ensures
        0 <= mins_by_right(a, i) <= mins_by_right(a, n),
    decreases n,
{
    if n > i {
        lemma_by_right_mono(a, i, n - 1);
        lemma_ending_nonneg(a, n - 1, n);
    } else {
        lemma_by_right_nonneg(a, n);
    }
}

proof fn lemma_by_right_nonneg(a: Seq<i32>, n: int)
    requires
        all_nonneg(a),
        0 <= n <= a.len(),
    ensures
        0 <= mins_by_right(a, n),
    decreases n,
{
    if n > 0 {
        lemma_by_right_nonneg(a, n - 1);
        lemma_ending_nonneg(a, n - 1, n);
    }
}

// ---------------------------------------------------------------------------
// The stack of pending minimums.

/// Index of the element below position `k` of the stack, or -1 at the bottom.
pub open spec fn prev_idx(st: Seq<(i32, usize)>, k: int) -> int {
    if k <= 0 {
        -1
    } else {
        st[k - 1].1 as int
    }
}

/// What position `k` of the stack adds when it is popped at index `n`: its value
/// times the number of subarrays, ending before `n`, of which it is the minimum.
pub open spec fn popped_share(st: Seq<(i32, usize)>, k: int, n: int) -> int {
    st[k].0 * ((n - st[k].1) * (st[k].1 - prev_idx(st, k)))
}

/// Sum of `popped_share(st, k, n)` over `from <= k < to`.
pub open spec fn pending(st: Seq<(i32, usize)>, from: int, to: int, n: int) -> int
    decreases to - from,
{
    if to <= from {
        0
    } else {
        pending(st, from, to - 1, n) + popped_share(st, to - 1, n)
    }
}

/// Sum over `k < m` of the value at position `k` times the length of its range.
pub open spec fn block_sum(st: Seq<(i32, usize)>, m: int) -> int
    decreases m,
{
    if m <= 0 {
        0
    } else {
        block_sum(st, m - 1) + st[m - 1].0 * (st[m - 1].1 - prev_idx(st, m - 1))
    }
}

/// The stack after processing `a[..=r]`: strictly increasing indices and values,
/// the top at `r`, and position `k` holding the minimum of every subarray
/// `a[l..=r]` with `prev_idx(st, k) < l <= st[k].1`.
pub open spec fn stack_ok(a: Seq<i32>, st: Seq<(i32, usize)>, r: int) -> bool {
    &&& st.len() >= 1
    &&& 0 <= r < a.len()
    &&& st.last().1 == r
    &&& forall|k: int| 0 <= k < st.len() ==> (#[trigger] st[k]).1 < a.len() && st[k].0 == a[st[k].1 as int]
    &&& forall|k: int| 0 < k < st.len() ==> (#[trigger] st[k - 1]).1 < st[k].1 && st[k - 1].0 < st[k].0
    &&& forall|k: int, l: int|
        0 <= k < st.len() && prev_idx(st, k) < l <= st[k].1 ==> #[trigger] min_of(a, l, r) == (#[trigger] st[k]).0
}

proof fn lemma_pending_split(st: Seq<(i32, usize)>, from: int, m: int, to: int, n: int)
    requires
        from <= m <= to,
    ensures
        pending(st, from, to, n) == pending(st, from, m, n) + pending(st, m, to, n),
    decreases to - m,
{
    if to > m {
        lemma_pending_split(st, from, m, to - 1, n);
    }
}

proof fn lemma_popped_share_bounds(st: Seq<(i32, usize)>, k: int, n: int)
    requires
        0 <= k < st.len(),
        st[k].0 >= 0,
        st[k].1 <= n,
        prev_idx(st, k) < st[k].1,
    ensures
        popped_share(st, k, n) >= 0,
{
    let v = st[k].0 as int;
    let x = n - st[k].1;
    let y = st[k].1 - prev_idx(st, k);
    assert(v * (x * y) >= 0) by (nonlinear_arith)
        requires
            v >= 0,
            x >= 0,
            y >= 0,
    ;
}

/// The values of a stack are at least zero, its indices below `n`.
pub open spec fn stack_bounded(st: Seq<(i32, usize)>, n: int) -> bool {
    &&& forall|k: int| 0 <= k < st.len() ==> (#[trigger] st[k]).0 >= 0 && st[k].1 < n
    &&& forall|k: int| 0 < k < st.len() ==> (#[trigger] st[k - 1]).1 < st[k].1
}

proof fn lemma_pending_nonneg(st: Seq<(i32, usize)>, from: int, to: int, n: int)
    requires
        0 <= from,
        to <= st.len(),
        stack_bounded(st, n),
    ensures
        pending(st, from, to, n) >= 0,
    decreases to - from,
{
    if to > from {
        lemma_pending_nonneg(st, from, to - 1, n);
        if to - 1 > 0 {
            assert(st[to - 2].1 < st[to - 1].1);
        }
        lemma_popped_share_bounds(st, to - 1, n);
    }
}

proof fn lemma_pending_take(st: Seq<(i32, usize)>, m: int, to: int, n: int)
    requires
        0 <= to <= m <= st.len(),
    ensures
        pending(st.take(m), 0, to, n + 1) == pending(st, 0, to, n) + block_sum(st, to),
    decreases to,
{
    if to > 0 {
        lemma_pending_take(st, m, to - 1, n);
        let t = st.take(m);
        assert(t[to - 1] == st[to - 1]);
        assert(prev_idx(t, to - 1) == prev_idx(st, to - 1));
        let v = st[to - 1].0 as int;
        let x = n - st[to - 1].1;
        let y = st[to - 1].1 - prev_idx(st, to - 1);
        assert(v * ((x + 1) * y) == v * (x * y) + v * y) by (nonlinear_arith);
    }
}

proof fn lemma_block_sum_take(st: Seq<(i32, usize)>, m: int, k: int)
    requires
        0 <= k <= m <= st.len(),
    ensures
        block_sum(st.take(m), k) == block_sum(st, k),
    decreases k,
{
    if k > 0 {
        lemma_block_sum_take(st, m, k - 1);
        assert(st.take(m)[k - 1] == st[k - 1]);
        assert(prev_idx(st.take(m), k - 1) == prev_idx(st, k - 1));
    }
}

/// `min_of` is constant, equal to `v`, on `l` in `(p, q]`.
proof fn lemma_ending_block(a: Seq<i32>, r: int, p: int, q: int, v: int)
    requires
        -1 <= p <= q,
        forall|l: int| p < l <= q ==> #[trigger] min_of(a, l, r) == v,
    ensures
        mins_ending_at(a, r, q + 1) == mins_ending_at(a, r, p + 1) + v * (q - p),
    decreases q - p,
{
    if q > p {
        lemma_ending_block(a, r, p, q - 1, v);
        assert(min_of(a, q, r) == v);
        assert(mins_ending_at(a, r, q + 1) == mins_ending_at(a, r, q) + min_of(a, q, r));
        assert(v * (q - p) == v * (q - 1 - p) + v) by (nonlinear_arith);
    } else {
        assert(v * (q - p) == 0) by (nonlinear_arith)
            requires
                q == p,
        ;
    }
}

/// The minimums of the subarrays ending at `r` add up to the block sums of the stack.
proof fn lemma_ending_is_block_sum(a: Seq<i32>, st: Seq<(i32, usize)>, r: int, k: int)
    requires
        stack_ok(a, st, r),
        0 <= k <= st.len(),
    ensures
        mins_ending_at(a, r, prev_idx(st, k) + 1) == block_sum(st, k),
    decreases k,
{
    if k > 0 {
        lemma_ending_is_block_sum(a, st, r, k - 1);
        let p = prev_idx(st, k - 1);
        let q = st[k - 1].1 as int;
        if k - 1 > 0 {
            assert(st[k - 2].1 < st[k - 1].1);
        }
        assert forall|l: int| p < l <= q implies #[trigger] min_of(a, l, r) == st[k - 1].0 by {
            assert(min_of(a, l, r) == st[k - 1].0);
        }
        lemma_ending_block(a, r, p, q, st[k - 1].0 as int);
        assert(prev_idx(st, k) == q);
    }
}

proof fn lemma_stack_ok_step(a: Seq<i32>, st: Seq<(i32, usize)>, r: int, m: int)
    requires
        stack_ok(a, st, r),
        r + 1 < a.len(),
        r + 1 <= usize::MAX,
        0 <= m <= st.len(),
        m > 0 ==> st[m - 1].0 < a[r + 1],
        forall|k: int| m <= k < st.len() ==> (#[trigger] st[k]).0 >= a[r + 1],
    ensures
        stack_ok(a, st.take(m).push((a[r + 1], (r + 1) as usize)), r + 1),
{
    let ns = st.take(m).push((a[r + 1], (r + 1) as usize));
    let num = a[r + 1];
    if m > 0 {
        lemma_stack_indices_increase(st, m - 1, st.len() - 1);
    }
    assert forall|k: int| 0 < k < ns.len() implies (#[trigger] ns[k - 1]).1 < ns[k].1 && ns[k - 1].0 < ns[k].0 by {
        if k == m {
            assert(st[m - 1].1 <= r);
        } else {
            assert(ns[k - 1] == st[k - 1] && ns[k] == st[k]);
        }
    }
    assert forall|k: int| 0 <= k < ns.len() implies (#[trigger] ns[k]).1 < a.len() && ns[k].0 == a[ns[k].1 as int] by {
        if k < m {
            assert(ns[k] == st[k]);
        }
    }
    // Strictly increasing values: the values below position k are below st[k].0.
    assert forall|k: int, j: int| 0 <= j <= k < st.len() implies (#[trigger] st[j]).0 <= (#[trigger] st[k]).0 by {
        lemma_stack_values_increase(st, j, k);
    }
    assert forall|k: int, l: int|
        0 <= k < ns.len() && prev_idx(ns, k) < l <= ns[k].1 implies #[trigger] min_of(a, l, r + 1) == (#[trigger] ns[k]).0 by {
        if k < m {
            assert(ns[k] == st[k]);
            lemma_stack_indices_increase(st, k, st.len() - 1);
            assert(ns[k].1 <= r);
        } else {
            assert(ns[k].1 == r + 1);
        }
        assert(l >= 0);
        if l == r + 1 {
            assert(min_of(a, l, r + 1) == a[r + 1]);
            if k < m {
                assert(ns[k] == st[k]);
                assert(st[k].1 <= r);
            }
        } else {
            assert(min_of(a, l, r + 1) == if (a[r + 1] as int) < min_of(a, l, r) {
                a[r + 1] as int
            } else {
                min_of(a, l, r)
            });
            // l lies in the range of some position j of the old stack.
            let j = lemma_find_block(st, l, r);
            assert(min_of(a, l, r) == st[j].0);
            if k < m {
                assert(ns[k] == st[k]);
                assert(prev_idx(ns, k) == prev_idx(st, k));
                lemma_block_unique(st, j, k, l);
                assert(st[k].0 <= st[m - 1].0);
            } else {
                assert(k == m);
                assert(prev_idx(ns, k) == prev_idx(st, m));
                if j < m {
                    if m > 0 {
                        assert(st[j].1 <= st[m - 1].1) by {
                            lemma_stack_indices_increase(st, j, m - 1);
                        }
                    }
                    assert(false);
                }
            }
        }
    }
}

proof fn lemma_stack_values_increase(st: Seq<(i32, usize)>, j: int, k: int)
    requires
        0 <= j <= k < st.len(),
        forall|k: int| 0 < k < st.len() ==> (#[trigger] st[k - 1]).1 < st[k].1 && st[k - 1].0 < st[k].0,
    ensures
        st[j].0 <= st[k].0,
    decreases k - j,
{
    if j < k {
        lemma_stack_values_increase(st, j, k - 1);
        assert(st[k - 1].0 < st[k].0);
    }
}

proof fn lemma_stack_indices_increase(st: Seq<(i32, usize)>, j: int, k: int)
    requires
        0 <= j <= k < st.len(),
        forall|k: int| 0 < k < st.len() ==> (#[trigger] st[k - 1]).1 < st[k].1,
    ensures
        st[j].1 <= st[k].1,
        j < k ==> st[j].1 < st[k].1,
    decreases k - j,
{
    if j < k {
        lemma_stack_indices_increase(st, j, k - 1);
        assert(st[k - 1].1 < st[k].1);
    }
}

/// Every `l` in `[0, r]` lies in the range of some position of the stack.
proof fn lemma_find_block(st: Seq<(i32, usize)>, l: int, r: int) -> (j: int)
    requires
        st.len() >= 1,
        st.last().1 == r,
        0 <= l <= r,
        forall|k: int| 0 < k < st.len() ==> (#[trigger] st[k - 1]).1 < st[k].1,
    ensures
        0 <= j < st.len(),
        prev_idx(st, j) < l <= st[j].1,
{
    lemma_find_block_upto(st, l, st.len() - 1)
}

proof fn lemma_find_block_upto(st: Seq<(i32, usize)>, l: int, k: int) -> (j: int)
    requires
        0 <= k < st.len(),
        0 <= l <= st[k].1,
        forall|k: int| 0 < k < st.len() ==> (#[trigger] st[k - 1]).1 < st[k].1,
    ensures
        0 <= j <= k,
        prev_idx(st, j) < l <= st[j].1,
    decreases k,
{
    if prev_idx(st, k) < l {
        k
    } else {
        lemma_find_block_upto(st, l, k - 1)
    }
}

/// The ranges of two positions of the stack do not overlap.
proof fn lemma_block_unique(st: Seq<(i32, usize)>, j: int, k: int, l: int)
    requires
        0 <= j < st.len(),
        0 <= k < st.len(),
        prev_idx(st, j) < l <= st[j].1,
        prev_idx(st, k) < l <= st[k].1,
        forall|k: int| 0 < k < st.len() ==> (#[trigger] st[k - 1]).1 < st[k].1,
    ensures
        j == k,
{
    if j < k {
        lemma_stack_indices_increase(st, j, k - 1);
    } else if k < j {
        lemma_stack_indices_increase(st, k, j - 1);
    }
}

proof fn lemma_stack_bounded(a: Seq<i32>, st: Seq<(i32, usize)>, r: int, n: int)
    requires
        stack_ok(a, st, r),
        all_nonneg(a),
        r < n,
    ensures
        stack_bounded(st, n),
{
    assert forall|k: int| 0 <= k < st.len() implies (#[trigger] st[k]).0 >= 0 && st[k].1 < n by {
        lemma_stack_indices_increase(st, k, st.len() - 1);
    }
}

impl Solution {
    /// Pops from the stack every element whose value is at least `val`; returns
    /// what they add when popped at index `idx`.
    pub fn pop_out(val: i32, idx: usize, stack: &mut Vec<(i32, usize)>) -> (res: u64)
        requires
            stack_bounded(old(stack)@, idx as int),
            forall|k: int| 0 < k < old(stack)@.len() ==> (#[trigger] old(stack)@[k - 1]).0 < old(stack)@[k].0,
            idx <= u32::MAX,
            pending(old(stack)@, 0, old(stack)@.len() as int, idx as int) <= u64::MAX,
        ensures
            exists|m: int|
                0 <= m <= old(stack)@.len() && final(stack)@ == old(stack)@.take(m) && (m > 0 ==> old(
                    stack,
                )@[m - 1].0 < val) && (forall|k: int| m <= k < old(stack)@.len() ==> (#[trigger] old(stack)@[k]).0 >= val)
                    && res == pending(old(stack)@, m, old(stack)@.len() as int, idx as int),
    {
        let ghost st = stack@;
        let ghost n = st.len() as int;
        let mut res: u64 = 0;
        proof {
            lemma_pending_nonneg(st, 0, n, idx as int);
        }
        loop
            invariant
                stack@.len() <= n,
                stack@ == st.take(stack@.len() as int),
                stack_bounded(st, idx as int),
                forall|k: int| 0 < k < st.len() ==> (#[trigger] st[k - 1]).0 < st[k].0,
                n == st.len(),
                idx <= u32::MAX,
                pending(st, 0, n, idx as int) <= u64::MAX,
                forall|k: int| stack@.len() <= k < n ==> (#[trigger] st[k]).0 >= val,
                res == pending(st, stack@.len() as int, n, idx as int),
            ensures
                exists|m: int|
                    0 <= m <= n && stack@ == st.take(m) && (m > 0 ==> st[m - 1].0 < val) && (forall|k: int|
                        m <= k < n ==> (#[trigger] st[k]).0 >= val) && res == pending(st, m, n, idx as int),
            decreases stack@.len(),
        {
            let cur = stack.len();
            if cur == 0 {
                assert(stack@ == st.take(0));
                break;
            }
            let (num, i) = stack[cur - 1];
            assert(stack@[cur - 1] == st[cur - 1]);
            if val <= num {
                stack.pop();
                assert(stack@ =~= st.take(cur - 1));
                let k = cur - 1;
                proof {
                    lemma_stack_indices_increase(st, 0, k as int);
                    if k > 0 {
                        assert(st[k - 1].1 < st[k as int].1);
                    }
                    lemma_pending_split(st, 0, k as int, n, idx as int);
                    lemma_pending_nonneg(st, 0, k as int, idx as int);
                    lemma_pending_nonneg(st, cur as int, n, idx as int);
                    lemma_popped_share_bounds(st, k as int, idx as int);
                }
                let mut add: u64 = (idx - i) as u64;
                let prev: u64 = if stack.len() > 0 {
                    let (_, p) = stack[stack.len() - 1];
                    assert(p == st[k - 1].1);
                    (i - p - 1) as u64
                } else {
                    i as u64
                };
                proof {
                    let x = add as int;
                    let y = prev as int;
                    assert(x * y + x <= (idx as int) * (idx as int)) by (nonlinear_arith)
                        requires
                            0 <= x <= idx,
                            0 <= y,
                            y + 1 <= idx,
                    ;
                    assert((idx as int) * (idx as int) <= (u32::MAX as int) * (u32::MAX as int)) by (
                    nonlinear_arith)
                        requires
                            idx <= u32::MAX,
                    ;
                }
                add = add + add * prev;
                proof {
                    let v = num as int;
                    let x = (idx - i) as int;
                    let y = (i - prev_idx(st, k as int) - 1) as int;
                    assert(x + x * y == x * (y + 1)) by (nonlinear_arith);
                    assert(add as int == (idx - i) * (i - prev_idx(st, k as int)));
                    lemma_pending_split(st, k as int, k + 1, n, idx as int);
                    assert(pending(st, k as int, k as int, idx as int) == 0);
                    assert(pending(st, k as int, k + 1, idx as int) == popped_share(st, k as int, idx as int));
                    lemma_pending_split(st, 0, k as int, n, idx as int);
                    lemma_pending_nonneg(st, 0, k as int, idx as int);
                    assert(v * (add as int) == popped_share(st, k as int, idx as int));
                }
                res = res + num as u64 * add;
            } else {
                assert(st[cur - 1].0 < val);
                break;
            }
        }
        res
    }

    /// The sum of the minimums of all contiguous subarrays of `arr`, modulo
    /// 1_000_000_007, computed with a stack of increasing values.
    pub fn sum_subarray_mins(arr: Vec<i32>) -> (res: i32)
        requires
            arr@.len() >= 1,
            arr@.len() <= u32::MAX,
            all_nonneg(arr@),
            subarray_mins_total(arr@) <= u64::MAX,
        ensures
            res as int == subarray_mins_total(arr@) % (MODULUS as int),
    {
        let ghost a = arr@;
        let n = arr.len();
        let mut res: u64 = 0;
        let mut stack: Vec<(i32, usize)> = Vec::new();
        stack.push((arr[0], 0usize));
        proof {
            assert(min_of(a, 0, 0) == a[0]);
            assert(stack_ok(a, stack@, 0));
            assert(mins_ending_at(a, 0, 0) == 0);
            assert(mins_ending_at(a, 0, 1) == a[0]);
            assert(mins_by_right(a, 0) == 0);
            assert(mins_by_right(a, 1) == a[0]);
            assert(pending(stack@, 0, 0, 1) == 0);
            assert(pending(stack@, 0, 1, 1) == popped_share(stack@, 0, 1));
            let v = a[0] as int;
            assert(v * ((1 - 0) * (0 - (-1))) == v) by (nonlinear_arith);
        }
        let mut i: usize = 1;
        while i < n
            invariant
                1 <= i <= n,
                n == a.len(),
                a == arr@,
                n <= u32::MAX,
                all_nonneg(a),
                mins_by_right(a, n as int) <= u64::MAX,
                stack_ok(a, stack@, i - 1),
                res + pending(stack@, 0, stack@.len() as int, i as int) == mins_by_right(a, i as int),
            decreases n - i,
        {
            let num = arr[i];
            let ghost st = stack@;
            proof {
                lemma_stack_bounded(a, st, i - 1, i as int);
                lemma_by_right_mono(a, i as int, n as int);
                lemma_pending_nonneg(st, 0, st.len() as int, i as int);
                assert forall|k: int| 0 < k < st.len() implies (#[trigger] st[k - 1]).0 < st[k].0 by {
                    assert(st[k - 1].0 < st[k].0);
                }
            }
            let top = stack[stack.len() - 1].0;
            let mut popped: u64 = 0;
            if num <= top {
                popped = Solution::pop_out(num, i, &mut stack);
            } else {
                assert(stack@ == st.take(st.len() as int));
            }
            let ghost m = stack@.len() as int;
            proof {
                if num > top {
                    assert(popped == pending(st, m, st.len() as int, i as int));
                }
                assert(stack@ == st.take(m));
                assert forall|k: int| m <= k < st.len() implies (#[trigger] st[k]).0 >= num by {
                    if num > top {
                        assert(false);
                    }
                }
                if m > 0 && num > top {
                    assert(st[m - 1].0 < num);
                }
                lemma_pending_split(st, 0, m, st.len() as int, i as int);
                lemma_pending_nonneg(st, 0, m, i as int);
                lemma_pending_nonneg(st, m, st.len() as int, i as int);
            }
            stack.push((num, i));
            proof {
                let ns = stack@;
                assert(ns == st.take(m).push((a[i as int], i)));
                lemma_stack_ok_step(a, st, i - 1, m);
                // The pending sum of the new stack at i + 1.
                lemma_pending_take(st, m, m, i as int);
                assert(ns.take(m) =~= st.take(m));
                assert(pending(ns, 0, m, i + 1) == pending(ns.take(m), 0, m, i + 1)) by {
                    lemma_pending_prefix(ns, m, m, i + 1);
                }
                assert(pending(ns, 0, m + 1, i + 1) == pending(ns, 0, m, i + 1) + popped_share(ns, m, i + 1));
                assert(prev_idx(ns, m) == prev_idx(st, m));
                assert(popped_share(ns, m, i + 1) == num * (i - prev_idx(st, m))) by {
                    let v = num as int;
                    let y = i - prev_idx(st, m);
                    assert(v * (1 * y) == v * y) by (nonlinear_arith);
                }
                // The minimums of the subarrays ending at i.
                lemma_ending_is_block_sum(a, ns, i as int, m + 1);
                assert(prev_idx(ns, m + 1) == i);
                lemma_block_sum_take(st, m, m);
                lemma_block_sum_take(ns, m, m);
                assert(block_sum(ns, m) == block_sum(st, m)) by {
                    assert(ns.take(m) =~= st.take(m));
                    lemma_block_sum_take(st, m, m);
                    lemma_block_sum_take(ns, m, m);
                }
                assert(mins_by_right(a, i + 1) == mins_by_right(a, i as int) + mins_ending_at(a, i as int, i + 1));
                lemma_by_right_mono(a, i + 1, n as int);
            }
            res = res + popped;
            i += 1;
        }
        let ghost st = stack@;
        proof {
            lemma_stack_bounded(a, st, n - 1, n as int);
            lemma_pending_nonneg(st, 0, st.len() as int, n as int);
            assert forall|k: int| 0 < k < st.len() implies (#[trigger] st[k - 1]).0 < st[k].0 by {
                assert(st[k - 1].0 < st[k].0);
            }
        }
        let last = Solution::pop_out(0, n, &mut stack);
        proof {
            let m = stack@.len() as int;
            if m > 0 {
                assert(st[m - 1].0 >= 0);
            }
            assert(m == 0);
        }
        res = res + last;
        (res % MODULUS) as i32
    }
}

proof fn lemma_pending_prefix(st: Seq<(i32, usize)>, m: int, to: int, n: int)
    requires
        0 <= to <= m <= st.len(),
    ensures
        pending(st, 0, to, n) == pending(st.take(m), 0, to, n),
    decreases to,
{
    if to > 0 {
        lemma_pending_prefix(st, m, to - 1, n);
        assert(st.take(m)[to - 1] == st[to - 1]);
        assert(prev_idx(st.take(m), to - 1) == prev_idx(st, to - 1));
    }
}

/// The sum of the minimums of all contiguous subarrays of `arr`, modulo
/// 1_000_000_007, by trying every subarray.
pub fn brute_force(arr: Vec<i32>) -> (res: i32)
    requires
        all_nonneg(arr@),
        subarray_mins_total(arr@) <= u64::MAX,
    ensures
        res as int == subarray_mins_total(arr@) % (MODULUS as int),
{
    let ghost a = arr@;
    let n = arr.len();
    let mut res: u64 = 0;
    proof {
        law_sum_order(a, n as int);
        lemma_sum_starts_mono(a, 0, n as int, n as int);
    }
    let mut i: usize = 0;
    while i < n
        invariant
            i <= n,
            n == a.len(),
            a == arr@,
            all_nonneg(a),
            sum_starts(a, n as int, n as int) <= u64::MAX,
            res == sum_starts(a, i as int, n as int),
        decreases n - i,
    {
        let mut min = arr[i];
        let mut j: usize = i;
        let ghost base = res as int;
        proof {
            lemma_sum_starts_mono(a, i as int + 1, n as int, n as int);
            lemma_starting_mono(a, i as int, i as int, n as int);
        }
        while j < n
            invariant
                i <= j <= n,
                n == a.len(),
                a == arr@,
                all_nonneg(a),
                base == sum_starts(a, i as int, n as int),
                base + mins_starting_at(a, i as int, n as int) <= u64::MAX,
                j > i ==> min == min_of(a, i as int, j - 1),
                j == i ==> min == a[i as int],
                res == base + mins_starting_at(a, i as int, j as int),
            decreases n - j,
        {
            if arr[j] < min {
                min = arr[j];
            }
            proof {
                assert(min == min_of(a, i as int, j as int));
                lemma_min_of_nonneg(a, i as int, j as int);
                lemma_starting_mono(a, i as int, j as int + 1, n as int);
            }
            res = res + min as u64;
            j += 1;
        }
        i += 1;
    }
    (res % MODULUS) as i32
}

proof fn lemma_starting_mono(a: Seq<i32>, l: int, m: int, n: int)
    requires
        all_nonneg(a),
        0 <= l < a.len(),
        l <= m <= n <= a.len(),
    ensures
        0 <= mins_starting_at(a, l, m) <= mins_starting_at(a, l, n),
    decreases n - m,
{
    if n > m {
        lemma_starting_mono(a, l, m, n - 1);
        lemma_min_of_nonneg(a, l, n - 1);
    } else {
        lemma_starting_nonneg(a, l, m);
    }
}

proof fn lemma_starting_nonneg(a: Seq<i32>, l: int, m: int)
    requires
        all_nonneg(a),
        0 <= l < a.len(),
        m <= a.len(),
    ensures
        0 <= mins_starting_at(a, l, m),
    decreases m - l,
{
    if m > l {
        lemma_starting_nonneg(a, l, m - 1);
        lemma_min_of_nonneg(a, l, m - 1);
    }
}

proof fn lemma_sum_starts_mono(a: Seq<i32>, i: int, m: int, n: int)
    requires
        all_nonneg(a),
        0 <= i <= m <= n,
        n == a.len(),
    ensures
        0 <= sum_starts(a, i, n) <= sum_starts(a, m, n),
    decreases m - i,
{
    if m > i {
        lemma_sum_starts_mono(a, i, m - 1, n);
        lemma_starting_nonneg(a, m - 1, n);
    } else {
        lemma_sum_starts_nonneg(a, i, n);
    }
}

proof fn lemma_sum_starts_nonneg(a: Seq<i32>, m: int, n: int)
    requires
        all_nonneg(a),
        0 <= m <= n,
        n == a.len(),
    ensures
        0 <= sum_starts(a, m, n),
    decreases m,
{
    if m > 0 {
        lemma_sum_starts_nonneg(a, m - 1, n);
        lemma_starting_nonneg(a, m - 1, n);
    }
}

proof fn lemma_min_of_at_most(a: Seq<i32>, l: int, r: int, v: int)
    requires
        0 <= l <= r < a.len(),
        forall|i: int| 0 <= i < a.len() ==> a[i] <= v,
    ensures
        min_of(a, l, r) <= v,
    decreases r - l,
{
    if r > l {
        lemma_min_of_at_most(a, l, r - 1, v);
    }
}

proof fn lemma_ending_at_most(a: Seq<i32>, r: int, m: int, v: int)
    requires
        0 <= m <= r + 1,
        r < a.len(),
        v >= 0,
        forall|i: int| 0 <= i < a.len() ==> a[i] <= v,
    ensures
        mins_ending_at(a, r, m) <= m * v,
    decreases m,
{
    if m > 0 {
        lemma_ending_at_most(a, r, m - 1, v);
        lemma_min_of_at_most(a, m - 1, r, v);
        assert((m - 1) * v + v == m * v) by (nonlinear_arith);
    }
}

proof fn lemma_by_right_at_most(a: Seq<i32>, n: int, v: int)
    requires
        0 <= n <= a.len(),
        v >= 0,
        forall|i: int| 0 <= i < a.len() ==> a[i] <= v,
    ensures
        mins_by_right(a, n) <= n * n * v,
    decreases n,
{
    if n > 0 {
        lemma_by_right_at_most(a, n - 1, v);
        lemma_ending_at_most(a, n - 1, n, v);
        assert((n - 1) * (n - 1) * v + n * v <= n * n * v) by (nonlinear_arith)
            requires
                n >= 1,
                v >= 0,
        ;
    }
}

/// For weights between 0 and `v`, the minimums of the subarrays of `a` add
/// up to at most `n * n * v`, `n` being the length of `a`: with at most
/// 30000 values of at most 30000 the sum fits in a `u64`.
pub proof fn law_subarray_total_bound(a: Seq<i32>, v: int)
    requires
        all_nonneg(a),
        forall|i: int| 0 <= i < a.len() ==> a[i] <= v,
    ensures
        0 <= subarray_mins_total(a) <= a.len() * a.len() * v,
        a.len() <= 30000 && v <= 30000 ==> subarray_mins_total(a) <= u64::MAX,
{
    let n = a.len() as int;
    lemma_by_right_nonneg(a, n);
    if n > 0 {
        assert(a[0] >= 0);
    }
    if v >= 0 {
        lemma_by_right_at_most(a, n, v);
    } else {
        assert(n * n * v == 0) by (nonlinear_arith)
            requires
                n == 0,
        ;
    }
    assert(a.len() * a.len() * v == n * n * v);
    if a.len() <= 30000 && v <= 30000 {
        assert(n * n * v <= 30000 * 30000 * 30000) by (nonlinear_arith)
            requires
                0 <= n <= 30000,
                v <= 30000,
        ;
    }
}

/// Within the problem's limits, at most 30000 values of 0 to 30000, every
/// condition of `sum_subarray_mins` but a non-empty array holds.
pub proof fn law_limits_fit(a: Seq<i32>)
    requires
        a.len() <= 30000,
        forall|i: int| 0 <= i < a.len() ==> 0 <= #[trigger] a[i] <= 30000,
    ensures
        a.len() <= u32::MAX,
        all_nonneg(a),
        subarray_mins_total(a) <= u64::MAX,
{
    law_subarray_total_bound(a, 30000);
}

} // verus!
