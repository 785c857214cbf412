//! Comparing two strings typed into an editor where `#` erases a character.
use vstd::prelude::*;

use crate::algorithms::Solution;
use crate::text::chars_of;

verus! {

/// The text left after typing `s`, where `#` erases the last character, if any.
pub open spec fn typed(s: Seq<char>) -> Seq<char>
    decreases s.len(),
{
    if s.len() == 0 {
        Seq::empty()
    } else {
        let r = typed(s.drop_last());
        if s.last() == '#' {
            if r.len() > 0 {
                r.drop_last()
            } else {
                r
            }
        } else {
            r.push(s.last())
        }
    }
}

/// The characters left after typing `s`.
fn typed_text(s: &String) -> (v: Vec<char>)
    ensures
        v@ == typed(s@),
{
    let chars = chars_of(s.as_str());
    let mut vec: Vec<char> = Vec::new();
    let mut i: usize = 0;
    while i < chars.len()
        invariant
            i <= chars@.len(),
            chars@ == s@,
            vec@ == typed(s@.take(i as int)),
        decreases chars@.len() - i,
    {
        let c = chars[i];
        assert(s@.take(i + 1).drop_last() =~= s@.take(i as int));
        if c == '#' {
            vec.pop();
        } else {
            vec.push(c);
        }
        i += 1;
    }
    assert(s@.take(s@.len() as int) =~= s@);
    vec
}

impl Solution {
    /// Whether typing `s` and typing `t` leave the same text, `#` being a backspace.
    pub fn backspace_compare(s: String, t: String) -> (same: bool)
        ensures
            same == (typed(s@) == typed(t@)),
    {
        let s_vec = typed_text(&s);
        let t_vec = typed_text(&t);
        if s_vec.len() != t_vec.len() {
            return false;
        }
        let mut i: usize = 0;
        while i < s_vec.len()
            invariant
                i <= s_vec@.len(),
                s_vec@.len() == t_vec@.len(),
                s_vec@ == typed(s@),
                t_vec@ == typed(t@),
                forall|j: int| 0 <= j < i ==> s_vec@[j] == t_vec@[j],
            decreases s_vec@.len() - i,
        {
            if s_vec[i] != t_vec[i] {
                assert(s_vec@[i as int] != t_vec@[i as int]);
                assert(s_vec@ != t_vec@);
                return false;
            }
            i += 1;
        }
        assert(s_vec@ =~= t_vec@);
        true
    }
}

/// A character other than `#` is added at the end of the text typed so far.
pub proof fn law_typing_appends(s: Seq<char>, c: char)
    requires
        c != '#',
    ensures
        typed(s.push(c)) == typed(s).push(c),
{
    assert(s.push(c).drop_last() =~= s);
}

/// A backspace erases the character typed just before it, whatever text
/// was there before: typing `c` then `#` leaves the text as it was.
pub proof fn law_backspace_erases(s: Seq<char>, c: char)
    requires
        c != '#',
    ensures
        typed(s.push(c).push('#')) == typed(s),
{
    law_typing_appends(s, c);
    assert(s.push(c).push('#').drop_last() =~= s.push(c));
    assert(typed(s).push(c).drop_last() =~= typed(s));
}

/// A backspace on empty text leaves it empty.
pub proof fn law_backspace_on_empty(s: Seq<char>)
    requires
        typed(s).len() == 0,
    ensures
        typed(s.push('#')).len() == 0,
{
    assert(s.push('#').drop_last() =~= s);
}

} // verus!
