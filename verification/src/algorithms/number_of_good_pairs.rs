//! Counting the pairs of equal elements.
use vstd::prelude::*;

use crate::algorithms::Solution;
use crate::algorithms::find_all_duplicates_in_an_array::{count_of, lemma_count_push};

verus! {

/// Number of pairs `i < j < m` with `s[i] == s[j]`, counted by their first index `i < n`.
pub open spec fn pairs_upto(s: Seq<i32>, n: int) -> int
    decreases n,
{
    if n <= 0 {
        0
    } else {
        pairs_upto(s, n - 1) + count_of(s.subrange(n, s.len() as int), s[n - 1])
    }
}

/// Number of pairs `i < j` with `s[i] == s[j]`.
pub open spec fn good_pairs(s: Seq<i32>) -> int {
    pairs_upto(s, s.len() as int)
}

proof fn lemma_pairs_mono(s: Seq<i32>, i: int, n: int)
    requires
        0 <= i <= n <= s.len(),
    ensures
        0 <= pairs_upto(s, i) <= pairs_upto(s, n),
    decreases n,
{
    if n > i {
        lemma_pairs_mono(s, i, n - 1);
    } else if n > 0 {
        lemma_pairs_nonneg(s, n);
    }
}

proof fn lemma_pairs_nonneg(s: Seq<i32>, n: int)
    requires
        0 <= n <= s.len(),
    ensures
        0 <= pairs_upto(s, n),
    decreases n,
{
    if n > 0 {
        lemma_pairs_nonneg(s, n - 1);
    }
}

proof fn lemma_count_prefix(s: Seq<i32>, v: i32, lo: int, j: int, hi: int)
    requires
        0 <= lo <= j <= hi <= s.len(),
    ensures
        count_of(s.subrange(lo, j), v) <= count_of(s.subrange(lo, hi), v),
    decreases hi - j,
{
    if hi > j {
        lemma_count_prefix(s, v, lo, j, hi - 1);
        assert(s.subrange(lo, hi).drop_last() =~= s.subrange(lo, hi - 1));
    }
}

impl Solution {
    /// The number of pairs `i < j` with `nums[i] == nums[j]`.
    pub fn num_identical_pairs(nums: Vec<i32>) -> (res: i32)
        requires
            good_pairs(nums@) <= i32::MAX,
        ensures
            res == good_pairs(nums@),
    {
        let ghost s = nums@;
        let mut result: i32 = 0;
        let size = nums.len();
        let mut i: usize = 0;
        while i < size
            invariant
                size == s.len(),
                s == nums@,
                i <= size,
                good_pairs(s) <= i32::MAX,
                result == pairs_upto(s, i as int),
            decreases size - i,
        {
            let ghost base = result as int;
            proof {
                lemma_pairs_mono(s, i + 1, size as int);
            }
            let mut j: usize = i + 1;
            assert(s.subrange(i + 1, i + 1) =~= Seq::<i32>::empty());
            while j < size
                invariant
                    size == s.len(),
                    s == nums@,
                    i < j <= size,
                    base == pairs_upto(s, i as int),
                    base + count_of(s.subrange(i + 1, size as int), s[i as int]) <= i32::MAX,
                    result == base + count_of(s.subrange(i + 1, j as int), s[i as int]),
                decreases size - j,
            {
                proof {
                    assert(s.subrange(i + 1, j + 1) =~= s.subrange(i + 1, j as int).push(s[j as int]));
                    lemma_count_push(s.subrange(i + 1, j as int), s[j as int], s[i as int]);
                    lemma_count_prefix(s, s[i as int], i + 1, j + 1, size as int);
                }
                if nums[i] == nums[j] {
                    result += 1;
                }
                j += 1;
            }
            i += 1;
        }
        result
    }
}

} // verus!
