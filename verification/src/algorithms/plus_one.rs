//! Adding one to a number written as a vector of decimal digits.
use vstd::prelude::*;

use crate::algorithms::Solution;

verus! {

/// Adds the carry `c` into the digits `s` from the last one backwards: while
/// a digit plus the carry reaches ten, it keeps the remainder and hands the
/// quotient on; the first sum below ten is stored and ends the walk. The
/// result is the new digits and the carry left over in front of them.
pub open spec fn carry(s: Seq<i32>, c: int) -> (Seq<int>, int)
    decreases s.len(),
{
    if s.len() == 0 {
        (Seq::empty(), c)
    } else {
        let v = s.last() + c;
        if v >= 10 {
            let (p, rest) = carry(s.drop_last(), v / 10);
            (p.push(v % 10), rest)
        } else {
            (ints(s.drop_last()).push(v), 0)
        }
    }
}

/// The elements of `s` as mathematical integers.
pub open spec fn ints(s: Seq<i32>) -> Seq<int> {
    s.map_values(|d: i32| d as int)
}

/// No sum of a digit and the carry exceeds `i32::MAX` along the walk.
pub open spec fn carry_fits(s: Seq<i32>, c: int) -> bool
    decreases s.len(),
{
    s.len() == 0 || {
        let v = s.last() + c;
        v <= i32::MAX && (v >= 10 ==> carry_fits(s.drop_last(), v / 10))
    }
}

/// The digits after adding one to `s`: a leftover carry goes in front.
pub open spec fn plus_one_digits(s: Seq<i32>) -> Seq<int> {
    let (p, c) = carry(s, 1);
    if c > 0 {
        seq![c] + p
    } else {
        p
    }
}

/// Every element is a decimal digit.
pub open spec fn all_digits(s: Seq<int>) -> bool {
    forall|i: int| 0 <= i < s.len() ==> 0 <= #[trigger] s[i] <= 9
}

/// The number that the decimal digits `s` write, most significant first.
pub open spec fn value(s: Seq<int>) -> int
    decreases s.len(),
{
    if s.len() == 0 {
        0
    } else {
        10 * value(s.drop_last()) + s.last()
    }
}

/// `10` to the power `n`.
pub open spec fn pow10(n: nat) -> int
    decreases n,
{
    if n == 0 {
        1
    } else {
        10 * pow10((n - 1) as nat)
    }
}

proof fn lemma_value_front(a: int, p: Seq<int>)
    ensures
        value(seq![a] + p) == a * pow10(p.len()) + value(p),
    decreases p.len(),
{
    if p.len() > 0 {
        lemma_value_front(a, p.drop_last());
        assert((seq![a] + p).drop_last() =~= seq![a] + p.drop_last());
        assert((seq![a] + p).last() == p.last());
        assert(a * pow10(p.len()) == 10 * (a * pow10((p.len() - 1) as nat))) by (nonlinear_arith)
            requires
                pow10(p.len()) == 10 * pow10((p.len() - 1) as nat),
        ;
    } else {
        assert(seq![a] + p =~= seq![a]);
        assert(seq![a].drop_last() =~= Seq::<int>::empty());
        assert(value(Seq::<int>::empty()) == 0);
        assert(value(seq![a]) == a);
        assert(pow10(0) == 1);
        assert(a * pow10(0) == a);
    }
}

/// On decimal digits with a carry of at most one, the walk keeps decimal
/// digits, leaves a carry of at most one, and adds the carry to the number.
proof fn lemma_carry_value(s: Seq<i32>, c: int)
    requires
        0 <= c <= 1,
        forall|i: int| 0 <= i < s.len() ==> 0 <= #[trigger] s[i] <= 9,
    ensures
        carry(s, c).0.len() == s.len(),
        all_digits(carry(s, c).0),
        0 <= carry(s, c).1 <= 1,
        value(carry(s, c).0) + carry(s, c).1 * pow10(s.len()) == value(ints(s)) + c,
    decreases s.len(),
{
    let m = ints(s);
    if s.len() > 0 {
        let t = s.drop_last();
        let v = s.last() + c;
        assert(m.drop_last() =~= ints(t));
        assert(m.last() == s.last() as int);
        if v >= 10 {
            lemma_carry_value(t, v / 10);
            let (p, rest) = carry(t, v / 10);
            assert(v == 10 && v / 10 == 1 && v % 10 == 0);
            assert(carry(s, c) == (p.push(v % 10), rest));
            assert(p.push(v % 10).drop_last() =~= p);
            assert(value(p.push(v % 10)) == 10 * value(p));
            assert(value(m) == 10 * value(m.drop_last()) + m.last());
            assert(rest * pow10(s.len()) == 10 * (rest * pow10(t.len()))) by (nonlinear_arith)
                requires
                    pow10(s.len()) == 10 * pow10(t.len()),
            ;
            assert(value(carry(s, c).0) + carry(s, c).1 * pow10(s.len()) == value(m) + c);
        } else {
            let p = ints(t);
            assert(carry(s, c) == (p.push(v), 0int));
            assert(p.push(v).drop_last() =~= p);
            assert(value(p.push(v)) == 10 * value(p) + v);
            assert(value(m) == 10 * value(m.drop_last()) + m.last());
            assert(carry(s, c).1 == 0);
            assert(0 * pow10(s.len()) == 0);
            assert(value(carry(s, c).0) == value(m) + c);
        }
    } else {
        assert(m =~= Seq::<int>::empty());
        assert(pow10(0) == 1);
        assert(c * pow10(0) == c);
    }
}

impl Solution {
    /// Adds one to the number whose decimal digits `digits` holds, most
    /// significant first, carrying from the last digit forwards and putting a
    /// new leading digit in front where the carry runs off the start.
    ///
    /// The walk is exact for any values; on decimal digits, the result writes
    /// the number plus one in decimal digits.
    pub fn plus_one(digits: Vec<i32>) -> (res: Vec<i32>)
        requires
            carry_fits(digits@, 1),
        ensures
            ints(res@) == plus_one_digits(digits@),
            all_digits(ints(digits@)) ==> {
                &&& all_digits(ints(res@))
                &&& value(ints(res@)) == value(ints(digits@)) + 1
            },
    {
        let ghost s = digits@;
        let mut digits = digits;
        let mut plus: i32 = 1;
        let mut i: usize = digits.len();
        proof {
            assert(s.take(i as int) =~= s);
            assert(ints(digits@.skip(i as int)) =~= Seq::<int>::empty());
            assert(carry(s, 1).0 + Seq::<int>::empty() =~= carry(s, 1).0);
        }
        loop
            invariant_except_break
                i <= s.len(),
                digits@.len() == s.len(),
                digits@.take(i as int) == s.take(i as int),
                plus >= 1,
                carry_fits(s.take(i as int), plus as int),
                carry(s, 1).0 == carry(s.take(i as int), plus as int).0 + ints(
                    digits@.skip(i as int),
                ),
                carry(s, 1).1 == carry(s.take(i as int), plus as int).1,
            ensures
                digits@.len() == s.len(),
                carry(s, 1).0 == ints(digits@),
                carry(s, 1).1 == (if plus > 0 {
                    plus as int
                } else {
                    0
                }),
            decreases i,
        {
            if i == 0 {
                proof {
                    assert(s.take(0) =~= Seq::<i32>::empty());
                    assert(digits@.skip(0) =~= digits@);
                    assert(Seq::<int>::empty() + ints(digits@) =~= ints(digits@));
                }
                break;
            }
            let ghost pre = s.take(i as int);
            let ghost tail = digits@.skip(i as int);
            assert(pre.drop_last() =~= s.take(i - 1));
            assert(pre.last() == digits@[i - 1]);
            let v: i32 = digits[i - 1] + plus;
            if v >= 10 {
                let u: u32 = v as u32;
                plus = (u / 10) as i32;
                digits.set(i - 1, (u % 10) as i32);
                i -= 1;
                proof {
                    assert(digits@.skip(i as int) =~= seq![(v % 10) as i32] + tail);
                    assert(digits@.take(i as int) =~= s.take(i as int));
                    let (p, rest) = carry(s.take(i as int), plus as int);
                    assert(p.push((v as int) % 10) + ints(tail) =~= p + ints(
                        digits@.skip(i as int),
                    ));
                }
            } else {
                digits.set(i - 1, v);
                plus = 0;
                proof {
                    let q = ints(s.take(i - 1));
                    assert(q.push(v as int) + ints(tail) =~= ints(digits@));
                }
                break;
            }
        }
        if plus > 0 {
            digits.insert(0, plus);
            proof {
                assert(ints(digits@) =~= seq![plus as int] + carry(s, 1).0);
            }
        }
        proof {
            let m = ints(s);
            if all_digits(m) {
                assert forall|k: int| 0 <= k < s.len() implies 0 <= #[trigger] s[k] <= 9 by {
                    assert(m[k] == s[k] as int);
                }
                lemma_carry_value(s, 1);
                let (p, c) = carry(s, 1);
                if c > 0 {
                    lemma_value_front(c, p);
                    assert(all_digits(seq![c] + p)) by {
                        assert forall|k: int| 0 <= k < (seq![c] + p).len() implies 0 <= #[trigger] (
                        seq![c] + p)[k] <= 9 by {
                            if k > 0 {
                                assert((seq![c] + p)[k] == p[k - 1]);
                            }
                        }
                    }
                }
            }
        }
        digits
    }
}

} // verus!
