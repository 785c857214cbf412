//! Loading boxes onto a truck, the boxes with the most units first.
use vstd::prelude::*;

use crate::algorithms::Solution;

verus! {

/// Each box type as (number of boxes, units per box).
pub open spec fn box_pairs(b: Seq<Vec<i32>>) -> Seq<(i32, i32)> {
    b.map_values(|v: Vec<i32>| (v@[0], v@[1]))
}

/// `t` with `x` put in after every element whose units are at least those of
/// `x`.
pub open spec fn insert_by_units(t: Seq<(i32, i32)>, x: (i32, i32)) -> Seq<(i32, i32)>
    decreases t.len(),
{
    if t.len() == 0 {
        seq![x]
    } else if t.last().1 >= x.1 {
        t.push(x)
    } else {
        insert_by_units(t.drop_last(), x).push(t.last())
    }
}

/// The box types in descending order of units per box, those with equal units
/// in the order that they had: the order of a stable sort.
pub open spec fn by_units(s: Seq<(i32, i32)>) -> Seq<(i32, i32)>
    decreases s.len(),
{
    if s.len() == 0 {
        Seq::empty()
    } else {
        insert_by_units(by_units(s.drop_last()), s.last())
    }
}

/// The smaller of `a` and `b`.
pub open spec fn min_int(a: int, b: int) -> int {
    if a < b {
        a
    } else {
        b
    }
}

/// The units loaded from the box types `t`, in order, onto a truck with room
/// for `size` boxes: from each type as many boxes as fit, until the room is
/// used up.
pub open spec fn greedy(t: Seq<(i32, i32)>, size: int) -> int
    decreases t.len(),
{
    if t.len() == 0 {
        0
    } else {
        let r = min_int(size, t[0].0 as int) * t[0].1;
        if size - t[0].0 <= 0 {
            r
        } else {
            r + greedy(t.drop_first(), size - t[0].0)
        }
    }
}

/// A value that an `i32` holds.
pub open spec fn fits(v: int) -> bool {
    i32::MIN <= v <= i32::MAX
}

/// Along `greedy(t, size)`, started with `acc` units loaded, every product,
/// running total and remaining room fits in an `i32`.
pub open spec fn greedy_fits(t: Seq<(i32, i32)>, size: int, acc: int) -> bool
    decreases t.len(),
{
    t.len() == 0 || {
        let r = min_int(size, t[0].0 as int) * t[0].1;
        &&& fits(r)
        &&& fits(acc + r)
        &&& fits(size - t[0].0)
        &&& (size - t[0].0 > 0 ==> greedy_fits(t.drop_first(), size - t[0].0, acc + r))
    }
}

proof fn lemma_insert_by_units(t: Seq<(i32, i32)>, x: (i32, i32), j: int)
    requires
        0 <= j <= t.len(),
        forall|k: int| j <= k < t.len() ==> (#[trigger] t[k]).1 < x.1,
        j > 0 ==> t[j - 1].1 >= x.1,
    ensures
        insert_by_units(t, x) == t.insert(j, x),
    decreases t.len(),
{
    if t.len() == 0 {
        assert(t.insert(j, x) =~= seq![x]);
    } else if t.last().1 >= x.1 {
        assert(t.insert(j, x) =~= t.push(x));
    } else {
        lemma_insert_by_units(t.drop_last(), x, j);
        assert(t.drop_last().insert(j, x).push(t.last()) =~= t.insert(j, x));
    }
}

impl Solution {
    /// The most units that a truck with room for `truck_size` boxes carries:
    /// the box types (number of boxes, units per box) sorted stably by units,
    /// most first, and from each as many boxes as still fit.
    pub fn maximum_units(box_types: Vec<Vec<i32>>, truck_size: i32) -> (res: i32)
        requires
            forall|i: int| 0 <= i < box_types@.len() ==> (#[trigger] box_types@[i])@.len() >= 2,
            greedy_fits(by_units(box_pairs(box_types@)), truck_size as int, 0),
        ensures
            res == greedy(by_units(box_pairs(box_types@)), truck_size as int),
    {
        let ghost pairs = box_pairs(box_types@);
        let mut sorted: Vec<(i32, i32)> = Vec::new();
        let mut i: usize = 0;
        while i < box_types.len()
            invariant
                i <= box_types@.len(),
                pairs == box_pairs(box_types@),
                forall|k: int| 0 <= k < box_types@.len() ==> (#[trigger] box_types@[k])@.len() >= 2,
                sorted@ == by_units(pairs.take(i as int)),
            decreases box_types@.len() - i,
        {
            let x: (i32, i32) = (box_types[i][0], box_types[i][1]);
            assert(x == pairs[i as int]);
            let mut j: usize = sorted.len();
            while j > 0 && sorted[j - 1].1 < x.1
                invariant
                    j <= sorted@.len(),
                    forall|k: int| j <= k < sorted@.len() ==> (#[trigger] sorted@[k]).1 < x.1,
                decreases j,
            {
                j -= 1;
            }
            proof {
                lemma_insert_by_units(sorted@, x, j as int);
                assert(pairs.take(i + 1).drop_last() =~= pairs.take(i as int));
            }
            sorted.insert(j, x);
            i += 1;
        }
        assert(pairs.take(box_types@.len() as int) =~= pairs);
        let ghost t = sorted@;
        let mut result: i32 = 0;
        let mut size: i32 = truck_size;
        let mut k: usize = 0;
        assert(t.skip(0) =~= t);
        while k < sorted.len()
            invariant_except_break
                k <= t.len(),
                sorted@ == t,
                result + greedy(t.skip(k as int), size as int) == greedy(t, truck_size as int),
                greedy_fits(t.skip(k as int), size as int, result as int),
            ensures
                result == greedy(t, truck_size as int),
            decreases t.len() - k,
        {
            let (count, units) = sorted[k];
            let ghost u = t.skip(k as int);
            assert(u[0] == (count, units));
            assert(u.drop_first() =~= t.skip(k + 1));
            let m: i32 = if size < count {
                size
            } else {
                count
            };
            result += m * units;
            size -= count;
            k += 1;
            if size <= 0 {
                break;
            }
        }
        result
    }
}

} // verus!
