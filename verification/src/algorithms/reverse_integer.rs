//! Reversing the decimal digits of a 32-bit integer.
use vstd::prelude::*;

use crate::algorithms::Solution;

verus! {

/// Appends the decimal digits of `n`, least significant first, to the number
/// `acc`.
pub open spec fn rev_acc(n: nat, acc: int) -> int
    decreases n,
{
    if n == 0 {
        acc
    } else {
        rev_acc(n / 10, acc * 10 + n % 10)
    }
}

/// The number whose decimal digits are those of `n` in reverse order.
pub open spec fn reversed(n: nat) -> int {
    rev_acc(n, 0)
}

/// What `reverse` returns: the reversed digits of `|x|` with the sign of `x`,
/// or 0 where `|x|` or the reversed number does not fit in an `i32`.
pub open spec fn reverse_spec(x: i32) -> int {
    if x == i32::MIN {
        0
    } else {
        let a: nat = if x < 0 { (-x) as nat } else { x as nat };
        let r = reversed(a);
        if r > i32::MAX {
            0
        } else if x < 0 {
            -r
        } else {
            r
        }
    }
}

proof fn lemma_rev_acc_grows(n: nat, acc: int)
    requires
        acc >= 0,
    ensures
        rev_acc(n, acc) >= acc,
    decreases n,
{
    if n > 0 {
        lemma_rev_acc_grows(n / 10, acc * 10 + n % 10);
    }
}

impl Solution {
    /// The decimal digits of `x` in reverse order, with the sign of `x`; 0
    /// where the result, or the magnitude of `x`, does not fit in an `i32`.
    pub fn reverse(x: i32) -> (res: i32)
        ensures
            res == reverse_spec(x),
    {
        let sign: i32 = if x < 0 { -1 } else { 1 };
        if x == i32::MIN {
            return 0;
        }
        let mut res: i32 = 0;
        let mut m: u32 = if x < 0 { (-x) as u32 } else { x as u32 };
        let ghost a: nat = m as nat;
        while m != 0
            invariant
                0 <= res,
                x != i32::MIN,
                a == (if x < 0 { (-x) as nat } else { x as nat }),
                rev_acc(m as nat, res as int) == reversed(a),
            decreases m,
        {
            let ghost m0: nat = m as nat;
            let n: i32 = (m % 10) as i32;
            m /= 10;
            assert(rev_acc(m0, res as int) == rev_acc(m as nat, res * 10 + n));
            match res.checked_mul(10) {
                Some(r10) => match r10.checked_add(n) {
                    Some(r) => {
                        res = r;
                    },
                    None => {
                        proof {
                            lemma_rev_acc_grows(m as nat, res * 10 + n);
                        }
                        return 0;
                    },
                },
                None => {
                    proof {
                        lemma_rev_acc_grows(m as nat, res * 10 + n);
                    }
                    return 0;
                },
            }
        }
        match res.checked_mul(sign) {
            Some(r) => r,
            None => 0,
        }
    }
}

} // verus!
