//! Prefix sums of an array.
use vstd::prelude::*;

use crate::algorithms::Solution;

verus! {

/// The sum of the elements of `s`.
pub open spec fn total(s: Seq<i32>) -> int
    decreases s.len(),
{
    if s.len() == 0 {
        0
    } else {
        total(s.drop_last()) + s.last()
    }
}

/// Every prefix of `s` sums to a value that an `i32` holds.
pub open spec fn prefix_sums_fit(s: Seq<i32>) -> bool {
    forall|i: int|
        0 < i <= s.len() ==> i32::MIN <= #[trigger] total(s.take(i)) <= i32::MAX
}

impl Solution {
    /// The running sums of `nums`: element `i` is the sum of the elements
    /// `0..=i`.
    pub fn running_sum(nums: Vec<i32>) -> (res: Vec<i32>)
        requires
            prefix_sums_fit(nums@),
        ensures
            res@.len() == nums@.len(),
            forall|i: int| 0 <= i < res@.len() ==> res@[i] == total(#[trigger] nums@.take(i + 1)),
    {
        let mut prev: i32 = 0;
        let mut result: Vec<i32> = Vec::with_capacity(nums.len());
        let mut k: usize = 0;
        while k < nums.len()
            invariant
                k <= nums@.len(),
                prefix_sums_fit(nums@),
                result@.len() == k,
                prev == total(nums@.take(k as int)),
                forall|i: int| 0 <= i < k ==> result@[i] == total(#[trigger] nums@.take(i + 1)),
            decreases nums@.len() - k,
        {
            assert(nums@.take(k + 1).drop_last() =~= nums@.take(k as int));
            assert(i32::MIN <= total(nums@.take(k + 1)) <= i32::MAX);
            prev += nums[k];
            result.push(prev);
            k += 1;
        }
        result
    }
}

} // verus!
