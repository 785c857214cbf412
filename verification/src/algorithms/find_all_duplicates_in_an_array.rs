//! The values that occur more than once in an array of values `1..=n`.
use vstd::prelude::*;

use crate::algorithms::Solution;

verus! {

/// How many times `v` occurs in `s`.
pub open spec fn count_of(s: Seq<i32>, v: i32) -> nat
    decreases s.len(),
{
    if s.len() == 0 {
        0
    } else {
        count_of(s.drop_last(), v) + if s.last() == v {
            1nat
        } else {
            0nat
        }
    }
}

/// Position `p` holds neither 0 nor the value `p + 1`.
pub open spec fn misplaced(s: Seq<i32>, p: int) -> bool {
    s[p] != 0 && s[p] != p + 1
}

/// The number of misplaced positions among the first `n`.
pub open spec fn misplaced_upto(s: Seq<i32>, n: int) -> nat
    decreases n,
{
    if n <= 0 {
        0
    } else {
        misplaced_upto(s, n - 1) + if misplaced(s, n - 1) {
            1nat
        } else {
            0nat
        }
    }
}

pub proof fn lemma_count_push(s: Seq<i32>, x: i32, v: i32)
    ensures
        count_of(s.push(x), v) == count_of(s, v) + if x == v {
            1nat
        } else {
            0nat
        },
{
    assert(s.push(x).drop_last() =~= s);
}

pub proof fn lemma_count_update(s: Seq<i32>, i: int, x: i32, v: i32)
    requires
        0 <= i < s.len(),
    ensures
        count_of(s.update(i, x), v) + (if s[i] == v {
            1int
        } else {
            0int
        }) == count_of(s, v) + if x == v {
            1int
        } else {
            0int
        },
    decreases s.len(),
{
    let t = s.update(i, x);
    if i < s.len() - 1 {
        assert(t.drop_last() =~= s.drop_last().update(i, x));
        lemma_count_update(s.drop_last(), i, x, v);
    } else {
        assert(t.drop_last() =~= s.drop_last());
    }
}

proof fn lemma_misplaced_update(s: Seq<i32>, i: int, x: i32, n: int)
    requires
        0 <= i < s.len(),
        0 <= n <= s.len(),
    ensures
        misplaced_upto(s.update(i, x), n) + (if i < n && misplaced(s, i) {
            1int
        } else {
            0int
        }) == misplaced_upto(s, n) + if i < n && misplaced(s.update(i, x), i) {
            1int
        } else {
            0int
        },
    decreases n,
{
    if n > 0 {
        lemma_misplaced_update(s, i, x, n - 1);
    }
}

/// Where every position holds 0 or its own value, `v >= 1` occurs at most once,
/// at position `v - 1`.
proof fn lemma_count_settled(s: Seq<i32>, v: i32)
    requires
        v >= 1,
        forall|p: int| 0 <= p < s.len() ==> s[p] == 0 || s[p] == p + 1,
    ensures
        count_of(s, v) == if v - 1 < s.len() && s[v - 1] == v {
            1nat
        } else {
            0nat
        },
    decreases s.len(),
{
    if s.len() > 0 {
        lemma_count_settled(s.drop_last(), v);
    }
}

impl Solution {
    /// The values that occur twice in `nums`, whose values lie in `1..=nums.len()`.
    /// A value that occurs `c >= 1` times is listed `c - 1` times, in no fixed order.
    pub fn find_duplicates(mut nums: Vec<i32>) -> (res: Vec<i32>)
        requires
            forall|i: int| 0 <= i < nums@.len() ==> 1 <= #[trigger] nums@[i] <= nums@.len(),
        ensures
            forall|v: i32| #[trigger] count_of(res@, v) == if count_of(nums@, v) > 0 {
                count_of(nums@, v) - 1
            } else {
                0
            },
    {
        let ghost orig = nums@;
        let mut res: Vec<i32> = Vec::new();
        let len = nums.len();
        let mut idx: usize = 0;
        while idx < len
            invariant
                len == nums@.len(),
                len == orig.len(),
                idx <= len,
                forall|p: int| 0 <= p < len ==> 0 <= #[trigger] nums@[p] <= len,
                forall|p: int| 0 <= p < idx ==> #[trigger] nums@[p] == 0 || nums@[p] == p + 1,
                forall|v: i32| v != 0 ==> #[trigger] count_of(res@, v) + count_of(nums@, v) == count_of(orig, v),
                forall|v: i32| #[trigger] count_of(res@, v) > 0 ==> 1 <= v <= len && nums@[v - 1] == v,
            decreases misplaced_upto(nums@, len as int), len - idx,
        {
            let i = nums[idx];
            let target_idx: usize = if i >= 1 { (i - 1) as usize } else { 0 };
            let target = nums[target_idx];
            if idx == target_idx || i == 0 {
                idx += 1;
                continue;
            }
            let ghost before = nums@;
            if i == target {
                proof {
                    lemma_misplaced_update(before, idx as int, 0, len as int);
                    assert forall|v: i32| v != 0 implies #[trigger] count_of(res@.push(i), v) + count_of(
                        before.update(idx as int, 0),
                        v,
                    ) == count_of(orig, v) by {
                        lemma_count_push(res@, i, v);
                        lemma_count_update(before, idx as int, 0, v);
                    }
                    assert forall|v: i32| #[trigger] count_of(res@.push(i), v) > 0 implies 1 <= v <= len
                        && before.update(idx as int, 0)[v - 1] == v by {
                        lemma_count_push(res@, i, v);
                        if v != i {
                            assert(count_of(res@, v) > 0);
                        }
                    }
                }
                res.push(i);
                nums.set(idx, 0);
                idx += 1;
            } else {
                proof {
                    let s1 = before.update(idx as int, target);
                    let s2 = s1.update(target_idx as int, i);
                    lemma_misplaced_update(before, idx as int, target, len as int);
                    lemma_misplaced_update(s1, target_idx as int, i, len as int);
                    assert forall|v: i32| v != 0 implies #[trigger] count_of(res@, v) + count_of(s2, v)
                        == count_of(orig, v) by {
                        lemma_count_update(before, idx as int, target, v);
                        lemma_count_update(s1, target_idx as int, i, v);
                    }
                    assert forall|v: i32| #[trigger] count_of(res@, v) > 0 implies 1 <= v <= len
                        && s2[v - 1] == v by {
                        assert(before[v - 1] == v);
                    }
                }
                nums.set(idx, target);
                nums.set(target_idx, i);
            }
        }
        proof {
            assert forall|v: i32| #[trigger] count_of(res@, v) == if count_of(orig, v) > 0 {
                count_of(orig, v) - 1
            } else {
                0
            } by {
                if v >= 1 {
                    lemma_count_settled(nums@, v);
                    if count_of(res@, v) > 0 {
                        assert(nums@[v - 1] == v);
                    }
                } else {
                    lemma_count_settled_neg(orig, v);
                }
            }
        }
        res
    }
}

/// Values below 1 never occur where every value is positive.
proof fn lemma_count_settled_neg(s: Seq<i32>, v: i32)
    requires
        v < 1,
        forall|p: int| 0 <= p < s.len() ==> #[trigger] s[p] >= 1,
    ensures
        count_of(s, v) == 0,
    decreases s.len(),
{
    if s.len() > 0 {
        lemma_count_settled_neg(s.drop_last(), v);
    }
}

} // verus!
