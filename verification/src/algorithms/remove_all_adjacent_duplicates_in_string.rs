//! Removing adjacent pairs of equal characters until none is left.
use vstd::prelude::*;

use crate::algorithms::Solution;
use crate::text::{chars_of, string_from_chars};

verus! {

/// The stack of characters after reading `s`: a character equal to the top
/// of the stack removes it, any other is pushed.
pub open spec fn reduce(s: Seq<char>) -> Seq<char>
    decreases s.len(),
{
    if s.len() == 0 {
        Seq::empty()
    } else {
        let r = reduce(s.drop_last());
        if r.len() > 0 && r.last() == s.last() {
            r.drop_last()
        } else {
            r.push(s.last())
        }
    }
}

/// No two neighbouring characters of `s` are equal.
pub open spec fn no_adjacent_pair(s: Seq<char>) -> bool {
    forall|i: int| 0 <= i < s.len() - 1 ==> #[trigger] s[i] != s[i + 1]
}

proof fn lemma_reduce_no_pair(s: Seq<char>)
    ensures
        no_adjacent_pair(reduce(s)),
    decreases s.len(),
{
    if s.len() > 0 {
        lemma_reduce_no_pair(s.drop_last());
        let r = reduce(s.drop_last());
        if !(r.len() > 0 && r.last() == s.last()) {
            assert forall|i: int| 0 <= i < r.push(s.last()).len() - 1 implies #[trigger] r.push(
                s.last(),
            )[i] != r.push(s.last())[i + 1] by {
                if i + 1 < r.len() {
                    assert(r[i] != r[i + 1]);
                }
            }
        } else {
            assert forall|i: int| 0 <= i < r.drop_last().len() - 1 implies #[trigger] r.drop_last()[i]
                != r.drop_last()[i + 1] by {
                assert(r[i] != r[i + 1]);
            }
        }
    }
}

impl Solution {
    /// Removes adjacent pairs of equal characters from `s`, and again from
    /// what is left, until no two neighbours are equal.
    pub fn remove_duplicates(s: String) -> (res: String)
        ensures
            res@ == reduce(s@),
            no_adjacent_pair(res@),
    {
        let cs = chars_of(s.as_str());
        let mut stack: Vec<char> = Vec::new();
        let mut i: usize = 0;
        while i < cs.len()
            invariant
                i <= cs@.len(),
                cs@ == s@,
                stack@ == reduce(cs@.take(i as int)),
            decreases cs@.len() - i,
        {
            let c = cs[i];
            assert(cs@.take(i + 1).drop_last() =~= cs@.take(i as int));
            match stack.pop() {
                Some(top) => {
                    if top != c {
                        stack.push(top);
                        stack.push(c);
                    }
                },
                None => {
                    stack.push(c);
                },
            }
            i += 1;
        }
        assert(cs@.take(cs@.len() as int) =~= cs@);
        proof {
            lemma_reduce_no_pair(s@);
        }
        string_from_chars(stack.as_slice())
    }
}

} // verus!
