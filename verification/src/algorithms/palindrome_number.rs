//! Whether the decimal digits of a number read the same both ways.
use vstd::prelude::*;
use std::collections::VecDeque;

use crate::algorithms::Solution;

verus! {

/// The decimal digits of `x >= 0`, least significant first; none for 0.
pub open spec fn digits(x: int) -> Seq<i32>
    decreases x,
{
    if x <= 0 {
        Seq::empty()
    } else {
        seq![(x % 10) as i32] + digits(x / 10)
    }
}

impl Solution {
    /// Whether `x` is not negative and its decimal digits read the same
    /// backwards and forwards.
    pub fn is_palindrome(x: i32) -> (res: bool)
        ensures
            res == (x >= 0 && digits(x as int) == digits(x as int).reverse()),
    {
        if x < 0 {
            return false;
        }
        let mut a = VecDeque::<i32>::new();
        let mut b = VecDeque::<i32>::new();
        let mut x1: u32 = x as u32;
        while x1 != 0
            invariant
                x1 >= 0,
                b@ + digits(x1 as int) == digits(x as int),
                a@ == b@.reverse(),
            decreases x1,
        {
            let n: i32 = (x1 % 10) as i32;
            x1 /= 10;
            a.push_front(n);
            b.push_back(n);
            proof {
                assert(digits(x1 * 10 + n) == seq![n] + digits(x1 as int));
            }
            assert(a@ =~= b@.reverse());
            assert(b@ + digits(x1 as int) =~= digits(x as int));
        }
        assert(b@ =~= digits(x as int));
        let mut i: usize = 0;
        while i < a.len()
            invariant
                i <= a@.len(),
                a@.len() == b@.len(),
                a@ == b@.reverse(),
                b@ == digits(x as int),
                forall|j: int| 0 <= j < i ==> a@[j] == b@[j],
            decreases a@.len() - i,
        {
            if a[i] != b[i] {
                assert(a@[i as int] != b@[i as int]);
                assert(a@ != b@);
                return false;
            }
            i += 1;
        }
        assert(a@ =~= b@);
        true
    }
}

} // verus!
