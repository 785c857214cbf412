//! Small operations on text that the rest of the crate shares.
use vstd::prelude::*;

verus! {

/// Appends the character `c` to `s`.
///
/// Calls `String::push`, which appends one character; the contract claims that
/// the characters of the result are those of `s` followed by `c`.
#[verifier::external_body]
pub(crate) fn push_char(s: &mut String, c: char)
    ensures
        final(s)@ == old(s)@.push(c),
{
    s.push(c);
}

/// The characters of `s`, in order.
pub fn chars_of(s: &str) -> (v: Vec<char>)
    ensures
        v@ == s@,
{
    let mut v: Vec<char> = Vec::new();
    for c in it: s.chars()
        invariant
            v@ == it.seq().take(it.index() as int),
            it.seq() == s@,
    {
        v.push(c);
    }
    v
}

/// A `String` holding the characters of `v`, in order.
pub fn string_from_chars(v: &[char]) -> (s: String)
    ensures
        s@ == v@,
{
    let mut s = String::new();
    let mut i: usize = 0;
    while i < v.len()
        invariant
            i <= v@.len(),
            s@ == v@.take(i as int),
        decreases v@.len() - i,
    {
        push_char(&mut s, v[i]);
        assert(v@.take(i + 1) =~= v@.take(i as int).push(v@[i as int]));
        i += 1;
    }
    assert(v@.take(v@.len() as int) =~= v@);
    s
}

/// `a` comes strictly before `b` in lexicographic order of characters, the
/// order of `String`'s `Ord`.
pub open spec fn lex_lt(a: Seq<char>, b: Seq<char>) -> bool
    decreases a.len(),
{
    if b.len() == 0 {
        false
    } else if a.len() == 0 {
        true
    } else if (a[0] as int) < (b[0] as int) {
        true
    } else if (a[0] as int) > (b[0] as int) {
        false
    } else {
        lex_lt(a.drop_first(), b.drop_first())
    }
}

/// `a` comes before `b`, or is equal to it, in lexicographic order.
pub open spec fn lex_le(a: Seq<char>, b: Seq<char>) -> bool {
    !lex_lt(b, a)
}

/// Every string is lexicographically at most the next one.
pub open spec fn sorted_strings(v: Seq<String>) -> bool {
    forall|i: int| 0 <= i < v.len() - 1 ==> lex_le((#[trigger] v[i])@, v[i + 1]@)
}

/// Whether `a` comes strictly before `b`.
pub fn string_lt(a: &String, b: &String) -> (r: bool)
    ensures
        r == lex_lt(a@, b@),
{
    let x = chars_of(a.as_str());
    let y = chars_of(b.as_str());
    let mut i: usize = 0;
    assert(x@.skip(0) =~= x@);
    assert(y@.skip(0) =~= y@);
    while i < x.len() && i < y.len()
        invariant
            i <= x@.len(),
            i <= y@.len(),
            x@ == a@,
            y@ == b@,
            lex_lt(a@, b@) == lex_lt(x@.skip(i as int), y@.skip(i as int)),
        decreases x@.len() - i,
    {
        let c = x[i];
        let d = y[i];
        assert(x@.skip(i as int)[0] == c && y@.skip(i as int)[0] == d);
        if c < d {
            return true;
        }
        if c > d {
            return false;
        }
        assert(x@.skip(i as int).drop_first() =~= x@.skip(i + 1));
        assert(y@.skip(i as int).drop_first() =~= y@.skip(i + 1));
        i += 1;
    }
    i == x.len() && i < y.len()
}

proof fn lemma_lex_total(a: Seq<char>, b: Seq<char>)
    ensures
        !lex_lt(a, b) && !lex_lt(b, a) ==> a == b,
        !(lex_lt(a, b) && lex_lt(b, a)),
    decreases a.len(),
{
    if a.len() > 0 && b.len() > 0 && a[0] == b[0] {
        lemma_lex_total(a.drop_first(), b.drop_first());
        if a.drop_first() == b.drop_first() {
            assert forall|k: int| 0 <= k < a.len() implies a[k] == b[k] by {
                if k > 0 {
                    assert(a[k] == a.drop_first()[k - 1]);
                    assert(b[k] == b.drop_first()[k - 1]);
                }
            }
            assert(a =~= b);
        }
    } else if a.len() == 0 && b.len() == 0 {
        assert(a =~= b);
    }
}

/// Sorts strings in lexicographic order, keeping every string.
pub fn sort_strings(v: &mut Vec<String>)
    ensures
        sorted_strings(final(v)@),
        final(v)@.to_multiset() == old(v)@.to_multiset(),
{
    broadcast use vstd::seq_lib::group_to_multiset_ensures;

    let n = v.len();
    let mut i: usize = 1;
    if n == 0 {
        return;
    }
    while i < n
        invariant
            1 <= i <= n,
            n == v@.len(),
            v@.to_multiset() == old(v)@.to_multiset(),
            forall|k: int| 0 <= k < i - 1 ==> lex_le((#[trigger] v@[k])@, v@[k + 1]@),
        decreases n - i,
    {
        let mut j: usize = i;
        while j > 0 && string_lt(&v[j], &v[j - 1])
            invariant
                0 <= j <= i < n,
                n == v@.len(),
                v@.to_multiset() == old(v)@.to_multiset(),
                forall|k: int| 0 <= k < j - 1 ==> lex_le((#[trigger] v@[k])@, v@[k + 1]@),
                forall|k: int| j <= k < i ==> lex_le((#[trigger] v@[k])@, v@[k + 1]@),
                0 < j < i ==> lex_le(v@[j - 1]@, v@[j + 1]@),
            decreases j,
        {
            let ghost before = v@;
            let a = v[j - 1].clone();
            let b = v[j].clone();
            v.set(j - 1, b);
            v.set(j, a);
            proof {
                broadcast use vstd::multiset::group_multiset_axioms;
                let s1 = before.update(j - 1, before[j as int]);
                assert(v@ == s1.update(j as int, before[j - 1]));
                vstd::seq_lib::to_multiset_update(before, j - 1, before[j as int]);
                vstd::seq_lib::to_multiset_update(s1, j as int, before[j - 1]);
                let a = before[j - 1];
                let b = before[j as int];
                assert(before.contains(a) && before.contains(b)) by {
                    assert(before[j - 1] == a && before[j as int] == b);
                }
                vstd::seq_lib::to_multiset_contains(before, a);
                vstd::seq_lib::to_multiset_contains(before, b);
                let m = before.to_multiset();
                assert(m.count(a) > 0 && m.count(b) > 0);
                assert(v@.to_multiset() =~= m);
                lemma_lex_total(before[j as int]@, before[j - 1]@);
            }
            j -= 1;
        }
        proof {
            if j > 0 {
                lemma_lex_total(v@[j as int]@, v@[j - 1]@);
            }
        }
        i += 1;
    }
}

} // verus!
