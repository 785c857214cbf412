//! Removing repeated elements from a sorted array in place.
use vstd::prelude::*;

use crate::algorithms::Solution;
use crate::algorithms::find_all_duplicates_in_an_array::{count_of, lemma_count_push};

verus! {

/// How many equal elements end at position `r` of `s`, `s[r]` included.
pub open spec fn run_len(s: Seq<i32>, r: int) -> nat
    decreases r,
{
    if r <= 0 {
        1
    } else if s[r - 1] == s[r] {
        run_len(s, r - 1) + 1
    } else {
        1
    }
}

/// The elements of `s[..n]` that are at most the second of their run, in
/// order.
pub open spec fn keep_two(s: Seq<i32>, n: int) -> Seq<i32>
    decreases n,
{
    if n <= 0 {
        Seq::empty()
    } else if run_len(s, n - 1) <= 2 {
        keep_two(s, n - 1).push(s[n - 1])
    } else {
        keep_two(s, n - 1)
    }
}

/// The element before position `i`, or `i32::MIN` before the first one.
pub open spec fn before(s: Seq<i32>, i: int) -> i32 {
    if i <= 0 {
        i32::MIN
    } else {
        s[i - 1]
    }
}

/// The elements of `s[..n]` that differ from the element before them (from
/// `i32::MIN` for the first one), in order.
pub open spec fn keep_one(s: Seq<i32>, n: int) -> Seq<i32>
    decreases n,
{
    if n <= 0 {
        Seq::empty()
    } else if before(s, n - 1) != s[n - 1] {
        keep_one(s, n - 1).push(s[n - 1])
    } else {
        keep_one(s, n - 1)
    }
}

proof fn lemma_run_len_bound(s: Seq<i32>, r: int)
    requires
        0 <= r,
    ensures
        run_len(s, r) <= r + 1,
    decreases r,
{
    if r > 0 {
        lemma_run_len_bound(s, r - 1);
    }
}

proof fn lemma_keep_two_len(s: Seq<i32>, n: int)
    requires
        0 <= n,
    ensures
        keep_two(s, n).len() <= n,
    decreases n,
{
    if n > 0 {
        lemma_keep_two_len(s, n - 1);
    }
}

proof fn lemma_keep_one_len(s: Seq<i32>, n: int)
    requires
        0 <= n,
    ensures
        keep_one(s, n).len() <= n,
    decreases n,
{
    if n > 0 {
        lemma_keep_one_len(s, n - 1);
    }
}

impl Solution {
    /// Moves to the front of `nums`, in order, each element that is at most
    /// the second of its run of equal elements; the positions after them keep
    /// their old values. Returns the number of elements moved, but at least
    /// 1.
    pub fn remove_duplicates_remove_duplicates_from_sorted(nums: &mut Vec<i32>) -> (res: i32)
        ensures
            final(nums)@.len() == old(nums)@.len(),
            final(nums)@ == keep_two(old(nums)@, old(nums)@.len() as int) + old(nums)@.skip(
                keep_two(old(nums)@, old(nums)@.len() as int).len() as int,
            ),
            res == (if keep_two(old(nums)@, old(nums)@.len() as int).len() == 0 {
                1
            } else {
                keep_two(old(nums)@, old(nums)@.len() as int).len()
            }) as i32,
    {
        let ghost s = nums@;
        let len = nums.len();
        let mut read: usize = 0;
        let mut write: usize = 0;
        let mut pre: i32 = i32::MIN;
        let mut count: usize = 0;
        while read < len
            invariant
                len == s.len(),
                nums@.len() == len,
                read <= len,
                write == keep_two(s, read as int).len(),
                write <= read,
                nums@.take(write as int) == keep_two(s, read as int),
                forall|j: int| write <= j < len ==> #[trigger] nums@[j] == s[j],
                read > 0 ==> pre == s[read - 1] && count == run_len(s, read - 1),
                read == 0 ==> pre == i32::MIN && count == 0,
            decreases len - read,
        {
            proof {
                lemma_keep_two_len(s, read as int);
                if read > 0 {
                    lemma_run_len_bound(s, read - 1);
                }
            }
            if pre != nums[read] {
                count = 0;
            }
            pre = nums[read];
            count += 1;
            if count <= 2 {
                nums.set(write, nums[read]);
                write += 1;
            }
            read += 1;
            proof {
                assert(nums@.take(write as int) =~= keep_two(s, read as int));
            }
        }
        proof {
            lemma_keep_two_len(s, len as int);
            assert(nums@ =~= keep_two(s, len as int) + s.skip(write as int));
        }
        let k: usize = if write > 1 { write } else { 1 };
        #[verifier::truncate]
        (k as i32)
    }

    /// Moves to the front of `nums`, in order, each element that differs from
    /// the one before it (the first from `i32::MIN`); the positions after them
    /// keep their old values. Returns the number of elements moved.
    pub fn remove_duplicates_remove_duplicates_i_from_sorted(nums: &mut Vec<i32>) -> (res: i32)
        ensures
            final(nums)@.len() == old(nums)@.len(),
            final(nums)@ == keep_one(old(nums)@, old(nums)@.len() as int) + old(nums)@.skip(
                keep_one(old(nums)@, old(nums)@.len() as int).len() as int,
            ),
            res == keep_one(old(nums)@, old(nums)@.len() as int).len() as i32,
    {
        let ghost s = nums@;
        let mut write: usize = 0;
        let mut pre: i32 = i32::MIN;
        let mut i: usize = 0;
        while i < nums.len()
            invariant
                nums@.len() == s.len(),
                i <= s.len(),
                write == keep_one(s, i as int).len(),
                write <= i,
                nums@.take(write as int) == keep_one(s, i as int),
                forall|j: int| write <= j < s.len() ==> #[trigger] nums@[j] == s[j],
                pre == before(s, i as int),
            decreases s.len() - i,
        {
            proof {
                lemma_keep_one_len(s, i as int);
            }
            if pre != nums[i] {
                nums.set(write, nums[i]);
                write += 1;
            }
            pre = nums[i];
            i += 1;
            proof {
                assert(nums@.take(write as int) =~= keep_one(s, i as int));
            }
        }
        proof {
            lemma_keep_one_len(s, s.len() as int);
            assert(nums@ =~= keep_one(s, s.len() as int) + s.skip(write as int));
        }
        #[verifier::truncate]
        (write as i32)
    }
}

/// Every element is at most every later one.
pub open spec fn sorted(s: Seq<i32>) -> bool {
    forall|i: int, j: int| 0 <= i < j < s.len() ==> s[i] <= s[j]
}

/// Every element is less than every later one.
pub open spec fn strictly_sorted(s: Seq<i32>) -> bool {
    forall|i: int, j: int| 0 <= i < j < s.len() ==> s[i] < s[j]
}

proof fn lemma_count_below(t: Seq<i32>, v: i32)
    requires
        forall|k: int| 0 <= k < t.len() ==> t[k] < v,
    ensures
        count_of(t, v) == 0,
    decreases t.len(),
{
    if t.len() > 0 {
        lemma_count_below(t.drop_last(), v);
    }
}

/// In a sorted array, the run that ends at `r` holds every earlier
/// occurrence of `s[r]`.
proof fn lemma_run_len_count(s: Seq<i32>, r: int)
    requires
        sorted(s),
        0 <= r < s.len(),
    ensures
        run_len(s, r) == count_of(s.take(r + 1), s[r]),
    decreases r,
{
    lemma_count_push(s.take(r), s[r], s[r]);
    assert(s.take(r).push(s[r]) =~= s.take(r + 1));
    if r == 0 {
        assert(s.take(0) =~= Seq::<i32>::empty());
    } else if s[r - 1] == s[r] {
        lemma_run_len_count(s, r - 1);
    } else {
        lemma_count_below(s.take(r), s[r]);
    }
}

/// On a sorted array, the elements kept at most twice are each value as often
/// as it occurs, but at most twice, in ascending order.
pub proof fn law_sorted_keeps_at_most_two(s: Seq<i32>)
    requires
        sorted(s),
    ensures
        forall|v: i32| #[trigger] count_of(keep_two(s, s.len() as int), v) == if count_of(s, v) < 2 {
            count_of(s, v)
        } else {
            2
        },
        sorted(keep_two(s, s.len() as int)),
{
    lemma_keep_two_prefix(s, s.len() as int);
    assert(s.take(s.len() as int) =~= s);
}

proof fn lemma_keep_two_prefix(s: Seq<i32>, n: int)
    requires
        sorted(s),
        0 <= n <= s.len(),
    ensures
        forall|v: i32| #[trigger] count_of(keep_two(s, n), v) == if count_of(s.take(n), v) < 2 {
            count_of(s.take(n), v)
        } else {
            2
        },
        sorted(keep_two(s, n)),
        n > 0 ==> forall|k: int| 0 <= k < keep_two(s, n).len() ==> keep_two(s, n)[k] <= s[n - 1],
    decreases n,
{
    if n == 0 {
        assert(s.take(0) =~= Seq::<i32>::empty());
    } else {
        lemma_keep_two_prefix(s, n - 1);
        let x = s[n - 1];
        let kept = keep_two(s, n - 1);
        lemma_run_len_count(s, n - 1);
        assert(s.take(n - 1).push(x) =~= s.take(n));
        assert forall|v: i32| #[trigger] count_of(s.take(n), v) == count_of(s.take(n - 1), v)
            + if x == v {
            1nat
        } else {
            0nat
        } by {
            lemma_count_push(s.take(n - 1), x, v);
        }
        if run_len(s, n - 1) <= 2 {
            assert forall|v: i32| #[trigger] count_of(kept.push(x), v) == count_of(kept, v) + if x
                == v {
                1nat
            } else {
                0nat
            } by {
                lemma_count_push(kept, x, v);
            }
        }
        if n > 1 {
            assert(s[n - 2] <= s[n - 1]);
        }
    }
}

/// On a sorted array that does not hold `i32::MIN`, the elements kept once
/// are each value that occurs, once, in strictly ascending order.
pub proof fn law_sorted_keeps_one(s: Seq<i32>)
    requires
        sorted(s),
        forall|i: int| 0 <= i < s.len() ==> s[i] != i32::MIN,
    ensures
        forall|v: i32| #[trigger] count_of(keep_one(s, s.len() as int), v) == if count_of(s, v) > 0 {
            1nat
        } else {
            0nat
        },
        strictly_sorted(keep_one(s, s.len() as int)),
{
    lemma_keep_one_prefix(s, s.len() as int);
    assert(s.take(s.len() as int) =~= s);
}

proof fn lemma_keep_one_prefix(s: Seq<i32>, n: int)
    requires
        sorted(s),
        forall|i: int| 0 <= i < s.len() ==> s[i] != i32::MIN,
        0 <= n <= s.len(),
    ensures
        forall|v: i32| #[trigger] count_of(keep_one(s, n), v) == if count_of(s.take(n), v) > 0 {
            1nat
        } else {
            0nat
        },
        strictly_sorted(keep_one(s, n)),
        n > 0 ==> forall|k: int| 0 <= k < keep_one(s, n).len() ==> keep_one(s, n)[k] <= s[n - 1],
    decreases n,
{
    if n == 0 {
        assert(s.take(0) =~= Seq::<i32>::empty());
    } else {
        lemma_keep_one_prefix(s, n - 1);
        let x = s[n - 1];
        let kept = keep_one(s, n - 1);
        assert(s.take(n - 1).push(x) =~= s.take(n));
        assert forall|v: i32| #[trigger] count_of(s.take(n), v) == count_of(s.take(n - 1), v)
            + if x == v {
            1nat
        } else {
            0nat
        } by {
            lemma_count_push(s.take(n - 1), x, v);
        }
        if n > 1 {
            assert(s[n - 2] <= s[n - 1]);
        }
        if before(s, n - 1) != x {
            assert forall|v: i32| #[trigger] count_of(kept.push(x), v) == count_of(kept, v) + if x
                == v {
                1nat
            } else {
                0nat
            } by {
                lemma_count_push(kept, x, v);
            }
            if n > 1 {
                assert(s[n - 2] < x);
                lemma_count_below(s.take(n - 1), x);
            } else {
                assert(s.take(0) =~= Seq::<i32>::empty());
            }
        } else {
            assert(n > 1);
            assert(s.take(n - 1)[n - 2] == x);
            lemma_count_positive(s.take(n - 1), n - 2);
        }
    }
}

proof fn lemma_count_positive(t: Seq<i32>, k: int)
    requires
        0 <= k < t.len(),
    ensures
        count_of(t, t[k]) > 0,
    decreases t.len(),
{
    if k < t.len() - 1 {
        lemma_count_positive(t.drop_last(), k);
    }
}

} // verus!
