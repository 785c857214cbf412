//! Splitting rules and paths into segments.
use vstd::prelude::*;

use crate::text::{chars_of, string_from_chars};

verus! {

/// After reading the prefix `p`: the non-empty segments finished so far, and
/// the segment being read.
pub open spec fn split_state(p: Seq<char>) -> (Seq<Seq<char>>, Seq<char>)
    decreases p.len(),
{
    if p.len() == 0 {
        (Seq::empty(), Seq::empty())
    } else {
        let (done, cur) = split_state(p.drop_last());
        if p.last() == '/' {
            (
                if cur.len() > 0 {
                    done.push(cur)
                } else {
                    done
                },
                Seq::empty(),
            )
        } else {
            (done, cur.push(p.last()))
        }
    }
}

/// The pieces of `s` between the `/` characters, the empty ones left out.
pub open spec fn segments(s: Seq<char>) -> Seq<Seq<char>> {
    let (done, cur) = split_state(s);
    if cur.len() > 0 {
        done.push(cur)
    } else {
        done
    }
}

/// `s` with each `{` written `:` and each `}` left out.
pub open spec fn formatted(s: Seq<char>) -> Seq<char>
    decreases s.len(),
{
    if s.len() == 0 {
        Seq::empty()
    } else {
        let f = formatted(s.drop_last());
        if s.last() == '{' {
            f.push(':')
        } else if s.last() == '}' {
            f
        } else {
            f.push(s.last())
        }
    }
}

/// `s` holds neither `{` nor `}`.
pub open spec fn no_braces(s: Seq<char>) -> bool {
    forall|i: int| 0 <= i < s.len() ==> s[i] != '{' && s[i] != '}'
}

/// A segment that starts with `:` names a variable.
pub open spec fn is_var_word(w: Seq<char>) -> bool {
    w.len() > 0 && w[0] == ':'
}

/// `s` without the `:` characters at its start.
pub open spec fn trim_colons(s: Seq<char>) -> Seq<char>
    decreases s.len(),
{
    if s.len() > 0 && s[0] == ':' {
        trim_colons(s.drop_first())
    } else {
        s
    }
}

/// The character sequences of the strings of `v`.
pub open spec fn views(v: Seq<String>) -> Seq<Seq<char>> {
    v.map_values(|s: String| s@)
}

pub proof fn lemma_formatted_no_braces(s: Seq<char>)
    requires
        no_braces(s),
    ensures
        formatted(s) == s,
    decreases s.len(),
{
    if s.len() > 0 {
        lemma_formatted_no_braces(s.drop_last());
        assert(s.drop_last().push(s.last()) =~= s);
    }
}

/// The rule `rule` with its variables written `:name`.
pub fn format_rule(rule: &str) -> (res: String)
    ensures
        res@ == formatted(rule@),
{
    let cs = chars_of(rule);
    let mut out: Vec<char> = Vec::new();
    let mut i: usize = 0;
    while i < cs.len()
        invariant
            i <= cs@.len(),
            cs@ == rule@,
            out@ == formatted(cs@.take(i as int)),
        decreases cs@.len() - i,
    {
        assert(cs@.take(i + 1).drop_last() =~= cs@.take(i as int));
        let c = cs[i];
        if c == '{' {
            out.push(':');
        } else if c != '}' {
            out.push(c);
        }
        i += 1;
    }
    assert(cs@.take(cs@.len() as int) =~= cs@);
    string_from_chars(out.as_slice())
}

/// The non-empty segments of `path` between its `/` characters.
pub fn parse_path(path: &str) -> (res: Vec<String>)
    ensures
        views(res@) == segments(path@),
{
    let cs = chars_of(path);
    let mut done: Vec<String> = Vec::new();
    let mut cur: Vec<char> = Vec::new();
    let mut i: usize = 0;
    while i < cs.len()
        invariant
            i <= cs@.len(),
            cs@ == path@,
            views(done@) == split_state(cs@.take(i as int)).0,
            cur@ == split_state(cs@.take(i as int)).1,
        decreases cs@.len() - i,
    {
        assert(cs@.take(i + 1).drop_last() =~= cs@.take(i as int));
        let c = cs[i];
        if c == '/' {
            if cur.len() > 0 {
                let piece = string_from_chars(cur.as_slice());
                let ghost before = done@;
                done.push(piece);
                assert(views(done@) =~= views(before).push(piece@));
            }
            cur = Vec::new();
            assert(cur@ =~= Seq::<char>::empty());
        } else {
            cur.push(c);
        }
        i += 1;
    }
    assert(cs@.take(cs@.len() as int) =~= cs@);
    if cur.len() > 0 {
        let piece = string_from_chars(cur.as_slice());
        let ghost before = done@;
        done.push(piece);
        assert(views(done@) =~= views(before).push(piece@));
    }
    done
}

/// The segments of the rule `path` with its variables written `:name`.
pub fn parse_rule(path: &str) -> (res: Vec<String>)
    ensures
        views(res@) == segments(formatted(path@)),
{
    let new_path = format_rule(path);
    parse_path(new_path.as_str())
}

/// Whether the segment `s` names a variable: it starts with `:`.
pub fn is_variable(s: &str) -> (res: bool)
    ensures
        res == is_var_word(s@),
{
    let cs = chars_of(s);
    cs.len() > 0 && cs[0] == ':'
}

/// `s` without the `:` characters at its start.
pub fn trim_start_colons(s: &str) -> (res: String)
    ensures
        res@ == trim_colons(s@),
{
    let cs = chars_of(s);
    let mut i: usize = 0;
    assert(cs@.skip(0) =~= cs@);
    while i < cs.len() && cs[i] == ':'
        invariant
            i <= cs@.len(),
            cs@ == s@,
            trim_colons(s@) == trim_colons(cs@.skip(i as int)),
        decreases cs@.len() - i,
    {
        assert(cs@.skip(i as int).drop_first() =~= cs@.skip(i + 1));
        i += 1;
    }
    let mut out: Vec<char> = Vec::new();
    let mut j: usize = i;
    while j < cs.len()
        invariant
            i <= j <= cs@.len(),
            out@ == cs@.subrange(i as int, j as int),
        decreases cs@.len() - j,
    {
        out.push(cs[j]);
        j += 1;
        assert(out@ =~= cs@.subrange(i as int, j as int));
    }
    assert(out@ =~= cs@.skip(i as int));
    string_from_chars(out.as_slice())
}

} // verus!
