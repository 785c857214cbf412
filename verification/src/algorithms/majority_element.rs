//! The element that occurs in more than half of the positions, by voting.
use vstd::prelude::*;

use crate::algorithms::Solution;
use crate::algorithms::find_all_duplicates_in_an_array::{count_of, lemma_count_push};

verus! {

/// The candidate and counter of the voting after the elements of `s`.
pub open spec fn vote(s: Seq<i32>) -> (i32, nat)
    decreases s.len(),
{
    if s.len() == 0 {
        (0, 0)
    } else {
        let (maj, cnt) = vote(s.drop_last());
        let n = s.last();
        if cnt == 0 {
            (n, 1)
        } else if maj == n {
            (maj, cnt + 1)
        } else {
            (maj, (cnt - 1) as nat)
        }
    }
}

/// `v` occurs in more than half of the positions of `s`.
pub open spec fn is_majority(s: Seq<i32>, v: i32) -> bool {
    2 * count_of(s, v) > s.len()
}

proof fn lemma_vote_bounds(s: Seq<i32>)
    ensures
        vote(s).1 <= s.len(),
        forall|v: i32| v != vote(s).0 ==> 2 * count_of(s, v) + vote(s).1 <= s.len(),
        2 * count_of(s, vote(s).0) <= s.len() + vote(s).1,
    decreases s.len(),
{
    if s.len() > 0 {
        let t = s.drop_last();
        let n = s.last();
        lemma_vote_bounds(t);
        assert(t.push(n) =~= s);
        assert forall|v: i32| #[trigger] count_of(s, v) == count_of(t, v) + if n == v {
            1nat
        } else {
            0nat
        } by {
            lemma_count_push(t, n, v);
        }
    }
}

impl Solution {
    /// The element left standing by majority voting over `nums`: the majority
    /// element where one occurs in more than half of the positions.
    pub fn majority_element(nums: Vec<i32>) -> (res: i32)
        ensures
            res == vote(nums@).0,
            forall|v: i32| is_majority(nums@, v) ==> res == v,
    {
        let mut cnt: usize = 0;
        let mut maj: i32 = 0;
        let mut i: usize = 0;
        while i < nums.len()
            invariant
                i <= nums@.len(),
                (maj, cnt as nat) == vote(nums@.take(i as int)),
                cnt <= i,
            decreases nums@.len() - i,
        {
            let n = nums[i];
            assert(nums@.take(i + 1).drop_last() =~= nums@.take(i as int));
            if cnt == 0 {
                maj = n;
                cnt = 1;
            } else if maj == n {
                cnt += 1;
            } else {
                cnt -= 1;
            }
            i += 1;
        }
        assert(nums@.take(nums@.len() as int) =~= nums@);
        proof {
            lemma_vote_bounds(nums@);
        }
        maj
    }
}

} // verus!
