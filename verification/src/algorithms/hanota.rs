//! Moving a tower of disks from one peg to another.
use vstd::prelude::*;

use crate::algorithms::Solution;

verus! {

impl Solution {
    /// Moves every disk of `a` onto `c`, keeping their order; `b` is left as it was.
    pub fn hanota(a: &mut Vec<i32>, b: &mut Vec<i32>, c: &mut Vec<i32>)
        ensures
            final(a)@ == Seq::<i32>::empty(),
            final(b)@ == old(b)@,
            final(c)@ == old(c)@ + old(a)@,
    {
        let n = a.len();
        Self::hanota_inner(n, a, b, c);
        assert(old(a)@.take(0) =~= Seq::<i32>::empty());
        assert(old(a)@.skip(0) =~= old(a)@);
    }

    /// Moves the top `n + 1` disks of `a` (all of them where `a` has only `n`)
    /// onto `c` through `b`, keeping their order.
    fn hanota_inner(n: usize, a: &mut Vec<i32>, b: &mut Vec<i32>, c: &mut Vec<i32>)
        requires
            old(a)@.len() >= n,
        ensures
            ({
                let len = old(a)@.len();
                let m = if n + 1 < len { n + 1 } else { len as int };
                &&& final(a)@ == old(a)@.take(len - m)
                &&& final(b)@ == old(b)@
                &&& final(c)@ == old(c)@ + old(a)@.skip(len - m)
            }),
        decreases n,
    {
        let ghost a0 = a@;
        let ghost b0 = b@;
        let ghost c0 = c@;
        if n == 0 {
            if let Some(num) = a.pop() {
                c.push(num);
                assert(a0.skip(a0.len() - 1) =~= seq![num]);
            } else {
                assert(a0.skip(0) =~= Seq::<i32>::empty());
                assert(c0 + Seq::<i32>::empty() =~= c0);
            }
            assert(a@ =~= a0.take(a0.len() - (if 1 < a0.len() { 1 } else { a0.len() as int })));
            return;
        }
        Self::hanota_inner(n - 1, a, c, b);
        let ghost a1 = a@;
        let ghost b1 = b@;
        Self::hanota_inner(0, a, b, c);
        let ghost a2 = a@;
        let ghost c2 = c@;
        Self::hanota_inner(n - 1, b, a, c);
        let ghost len = a0.len() as int;
        proof {
            assert(a1 == a0.take(len - n));
            assert(b1 == b0 + a0.skip(len - n));
            assert(b@ =~= b0);
            if len >= n + 1 {
                assert(a2 =~= a0.take(len - n - 1));
                assert(c2 =~= c0 + seq![a0[len - n - 1]]);
                assert(c@ =~= c0 + a0.skip(len - n - 1));
            } else {
                assert(a2 =~= a0.take(0));
                assert(c2 =~= c0);
                assert(c@ =~= c0 + a0.skip(0));
            }
        }
    }
}

} // verus!
