//! The product of all other elements, for each element of an array.
use vstd::prelude::*;

use crate::algorithms::Solution;

verus! {

/// The product of the elements of `s`.
pub open spec fn prod(s: Seq<i32>) -> int
    decreases s.len(),
{
    if s.len() == 0 {
        1
    } else {
        prod(s.drop_last()) * s.last()
    }
}

/// The product of the elements of `s` other than the one at position `i`.
pub open spec fn prod_except(s: Seq<i32>, i: int) -> int {
    prod(s.take(i)) * prod(s.skip(i + 1))
}

/// A value that an `i32` holds.
pub open spec fn fits_i32(v: int) -> bool {
    i32::MIN <= v <= i32::MAX
}

/// Every product that `product_except_self` computes on the way fits in an
/// `i32`: each product of a suffix, each product of a proper prefix, and each
/// answer for a position strictly inside the array.
pub open spec fn products_fit(s: Seq<i32>) -> bool {
    &&& forall|j: int| 0 <= j < s.len() ==> fits_i32(#[trigger] prod(s.skip(j)))
    &&& forall|j: int| 1 <= j < s.len() ==> fits_i32(#[trigger] prod(s.take(j)))
    &&& forall|j: int| 1 <= j < s.len() - 1 ==> fits_i32(#[trigger] prod_except(s, j))
}

proof fn lemma_prod_front(s: Seq<i32>)
    requires
        s.len() > 0,
    ensures
        prod(s) == s[0] * prod(s.drop_first()),
    decreases s.len(),
{
    if s.len() == 1 {
        assert(s.drop_last() =~= Seq::<i32>::empty());
        assert(s.drop_first() =~= Seq::<i32>::empty());
    } else {
        let t = s.drop_last();
        lemma_prod_front(t);
        assert(t.drop_first() =~= s.drop_first().drop_last());
        assert(s.drop_first().last() == s.last());
        let a = s[0] as int;
        let b = prod(t.drop_first());
        let c = s.last() as int;
        assert((a * b) * c == a * (b * c)) by (nonlinear_arith);
    }
}

proof fn lemma_prod_skip(s: Seq<i32>, j: int)
    requires
        0 <= j < s.len(),
    ensures
        prod(s.skip(j)) == s[j] * prod(s.skip(j + 1)),
{
    lemma_prod_front(s.skip(j));
    assert(s.skip(j).drop_first() =~= s.skip(j + 1));
}

impl Solution {
    /// For each position `i`, the product of all elements of `nums` but the
    /// one at `i`.
    pub fn product_except_self(nums: Vec<i32>) -> (res: Vec<i32>)
        requires
            nums@.len() >= 2,
            products_fit(nums@),
        ensures
            res@.len() == nums@.len(),
            forall|i: int| 0 <= i < res@.len() ==> res@[i] == prod_except(nums@, i),
    {
        let ghost s = nums@;
        let len = nums.len();
        let mut res = nums.clone();
        assert(res@ =~= s);
        let mut i: usize = len - 1;
        proof {
            assert(prod(Seq::<i32>::empty()) == 1);
            assert(s.skip(len - 1).drop_last() =~= Seq::<i32>::empty());
            assert(prod(s.skip(len - 1)) == s[len - 1]);
        }
        while i > 0
            invariant
                len == s.len(),
                len >= 2,
                res@.len() == len,
                i < len,
                products_fit(s),
                forall|k: int| 0 <= k < i ==> res@[k] == s[k],
                forall|k: int| i <= k < len ==> res@[k] == prod(#[trigger] s.skip(k)),
            decreases i,
        {
            proof {
                lemma_prod_skip(s, i - 1);
                assert(fits_i32(prod(s.skip(i - 1))));
            }
            let v = res[i - 1] * res[i];
            res.set(i - 1, v);
            i -= 1;
        }
        res.set(0, res[1]);
        let mut prefix: i32 = nums[0];
        proof {
            assert(prod(Seq::<i32>::empty()) == 1);
            assert(s.take(1).drop_last() =~= Seq::<i32>::empty());
            assert(s.take(0) =~= Seq::<i32>::empty());
            assert(prod(s.take(1)) == s[0]);
            assert(prod_except(s, 0) == prod(s.skip(1)));
        }
        let mut i: usize = 1;
        while i < len - 1
            invariant
                len == s.len(),
                len >= 2,
                res@.len() == len,
                1 <= i <= len - 1,
                nums@ == s,
                products_fit(s),
                prefix == prod(s.take(i as int)),
                forall|k: int| 0 <= k < i ==> res@[k] == prod_except(s, k),
                forall|k: int| i <= k < len ==> res@[k] == prod(#[trigger] s.skip(k)),
            decreases len - i,
        {
            assert(fits_i32(prod_except(s, i as int)));
            assert(res@[i + 1] == prod(s.skip(i + 1)));
            let v = prefix * res[i + 1];
            res.set(i, v);
            assert(s.take(i + 1).drop_last() =~= s.take(i as int));
            assert(s.take(i + 1).last() == s[i as int]);
            assert(prod(s.take(i + 1)) == prod(s.take(i as int)) * s[i as int]);
            assert(fits_i32(prod(s.take(i + 1))));
            prefix = prefix * nums[i];
            i += 1;
        }
        proof {
            assert(prod(Seq::<i32>::empty()) == 1);
            assert(s.skip(len as int) =~= Seq::<i32>::empty());
            assert(prod_except(s, len - 1) == prod(s.take(len - 1)));
        }
        res.set(len - 1, prefix);
        res
    }
}

} // verus!
