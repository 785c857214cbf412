//! Ordering the characters of a string by how often they occur.
use vstd::prelude::*;

use crate::algorithms::Solution;
use crate::algorithms::reorganize_string::{count_char, lemma_count_push};
use crate::text::{chars_of, string_from_chars};

verus! {

/// `a` comes before `b` in the output for `s`: it occurs more often in `s`,
/// or as often and is the larger character.
pub open spec fn comes_before(s: Seq<char>, a: char, b: char) -> bool {
    count_char(s, a) > count_char(s, b) || (count_char(s, a) == count_char(s, b) && (a as int)
        > (b as int))
}

/// Each character of `t` comes before, or is equal to, every later one.
pub open spec fn grouped_by_frequency(s: Seq<char>, t: Seq<char>) -> bool {
    forall|i: int, j: int|
        0 <= i < j < t.len() ==> t[i] == t[j] || comes_before(s, #[trigger] t[i], #[trigger] t[j])
}

/// `x` is the character of an entry of `table`.
pub open spec fn in_table(table: Seq<(usize, char)>, x: char) -> bool {
    exists|k: int| 0 <= k < table.len() && (#[trigger] table[k]).1 == x
}

/// Entries hold distinct characters, each with its positive number of
/// occurrences in `s`.
pub open spec fn counts_of(table: Seq<(usize, char)>, s: Seq<char>) -> bool {
    &&& forall|k: int| 0 <= k < table.len() ==> (#[trigger] table[k]).0 == count_char(s, table[k].1)
    &&& forall|k: int| 0 <= k < table.len() ==> (#[trigger] table[k]).0 > 0
    &&& forall|a: int, b: int|
        0 <= a < b < table.len() ==> (#[trigger] table[a]).1 != (#[trigger] table[b]).1
}

proof fn lemma_count_zero_absent(s: Seq<char>, x: char, i: int)
    requires
        0 <= i < s.len(),
        s[i] == x,
    ensures
        count_char(s, x) > 0,
    decreases s.len(),
{
    if i < s.len() - 1 {
        lemma_count_zero_absent(s.drop_last(), x, i);
    }
}

/// Whether the entry `(n, c)` comes before `(m, d)`: by number, then by
/// character, both descending.
fn entry_before(a: (usize, char), b: (usize, char)) -> (r: bool)
    ensures
        r == (a.0 > b.0 || (a.0 == b.0 && (a.1 as int) > (b.1 as int))),
{
    a.0 > b.0 || (a.0 == b.0 && a.1 > b.1)
}

impl Solution {
    /// The characters of `s` grouped by character, the groups ordered by how
    /// often the character occurs, most first, and among equally frequent
    /// ones by the character, largest first.
    pub fn frequency_sort(s: String) -> (res: String)
        ensures
            forall|x: char| count_char(res@, x) == count_char(s@, x),
            grouped_by_frequency(s@, res@),
    {
        let cs = chars_of(s.as_str());
        let ghost src = cs@;
        let mut table: Vec<(usize, char)> = Vec::new();
        let mut i: usize = 0;
        while i < cs.len()
            invariant
                i <= src.len(),
                cs@ == src,
                counts_of(table@, src.take(i as int)),
                forall|x: char| count_char(src.take(i as int), x) > 0 ==> in_table(table@, x),
                table@.len() <= i,
            decreases src.len() - i,
        {
            let c = cs[i];
            let ghost p = src.take(i as int);
            assert(src.take(i + 1) =~= p.push(c));
            proof {
                assert forall|x: char| #[trigger] count_char(src.take(i + 1), x) == count_char(p, x)
                    + if c == x {
                    1nat
                } else {
                    0nat
                } by {
                    lemma_count_push(p, c, x);
                }
            }
            let ghost old_table = table@;
            let mut k: usize = 0;
            while k < table.len() && table[k].1 != c
                invariant
                    k <= table@.len(),
                    forall|j: int| 0 <= j < k ==> (#[trigger] table@[j]).1 != c,
                decreases table@.len() - k,
            {
                k += 1;
            }
            if k < table.len() {
                let (n, _) = table[k];
                proof {
                    assert(n == count_char(p, c));
                    assert(count_char(p, c) <= i) by {
                        crate::algorithms::reorganize_string::lemma_count_le_len(p, c);
                    }
                }
                table.set(k, (n + 1, c));
            } else {
                proof {
                    assert(!in_table(table@, c));
                    assert(count_char(p, c) == 0);
                }
                table.push((1, c));
                proof {
                    assert(table@[table@.len() - 1].1 == c);
                }
            }
            proof {
                assert forall|x: char| count_char(src.take(i + 1), x) > 0 implies in_table(
                    table@,
                    x,
                ) by {
                    if x == c {
                        if k < old_table.len() {
                            assert(table@[k as int].1 == c);
                        } else {
                            assert(table@[table@.len() - 1].1 == c);
                        }
                    } else {
                        assert(count_char(p, x) > 0);
                        assert(in_table(old_table, x));
                        let j = choose|j: int| 0 <= j < old_table.len() && (#[trigger] old_table[j]).1
                            == x;
                        assert(table@[j].1 == x);
                    }
                }
            }
            i += 1;
        }
        assert(src.take(src.len() as int) =~= src);
        let mut out: Vec<char> = Vec::new();
        while table.len() > 0
            invariant
                cs@ == src,
                counts_of(table@, src),
                forall|x: char| #[trigger] count_char(out@, x) == if in_table(table@, x) {
                    0
                } else {
                    count_char(src, x)
                },
                grouped_by_frequency(src, out@),
                forall|a: int, k: int|
                    0 <= a < out@.len() && 0 <= k < table@.len() ==> comes_before(
                        src,
                        #[trigger] out@[a],
                        (#[trigger] table@[k]).1,
                    ),
            decreases table@.len(),
        {
            let mut m: usize = 0;
            let mut k: usize = 1;
            while k < table.len()
                invariant
                    m < k <= table@.len(),
                    forall|j: int|
                        0 <= j < k && j != m ==> comes_before(
                            src,
                            table@[m as int].1,
                            (#[trigger] table@[j]).1,
                        ),
                    counts_of(table@, src),
                decreases table@.len() - k,
            {
                if entry_before(table[k], table[m]) {
                    m = k;
                }
                k += 1;
            }
            let (n, c) = table[m];
            let ghost before = table@;
            let ghost out0 = out@;
            table.remove(m);
            proof {
                assert forall|x: char| #[trigger] in_table(table@, x) == (in_table(before, x) && x
                    != c) by {
                    if in_table(table@, x) {
                        let j = choose|j: int| 0 <= j < table@.len() && (#[trigger] table@[j]).1 == x;
                        if j < m {
                            assert(before[j] == table@[j]);
                        } else {
                            assert(before[j + 1] == table@[j]);
                        }
                    }
                    if in_table(before, x) && x != c {
                        let j = choose|j: int| 0 <= j < before.len() && (#[trigger] before[j]).1 == x;
                        if j < m {
                            assert(table@[j] == before[j]);
                        } else {
                            assert(table@[j - 1] == before[j]);
                        }
                    }
                }
                assert(in_table(before, c)) by {
                    assert(before[m as int].1 == c);
                }
            }
            let mut e: usize = 0;
            while e < n
                invariant
                    e <= n,
                    n == count_char(src, c),
                    out@.len() == out0.len() + e,
                    out@.take(out0.len() as int) == out0,
                    forall|q: int| out0.len() <= q < out@.len() ==> #[trigger] out@[q] == c,
                    forall|x: char| #[trigger] count_char(out@, x) == count_char(out0, x) + if x
                        == c {
                        e as nat
                    } else {
                        0nat
                    },
                decreases n - e,
            {
                let ghost o = out@;
                out.push(c);
                proof {
                    assert forall|x: char| #[trigger] count_char(out@, x) == count_char(o, x) + if x
                        == c {
                        1nat
                    } else {
                        0nat
                    } by {
                        lemma_count_push(o, c, x);
                    }
                    assert(out@.take(out0.len() as int) =~= o.take(out0.len() as int));
                }
                e += 1;
            }
            proof {
                assert forall|a: int, b: int| 0 <= a < b < out@.len() implies out@[a] == out@[b]
                    || comes_before(src, #[trigger] out@[a], #[trigger] out@[b]) by {
                    if b >= out0.len() {
                        if a < out0.len() {
                            assert(out@[a] == out0[a]);
                            assert(before[m as int].1 == c);
                        }
                    } else {
                        assert(out@[a] == out0[a] && out@[b] == out0[b]);
                    }
                }
                assert forall|a: int, k: int|
                    0 <= a < out@.len() && 0 <= k < table@.len() implies comes_before(
                    src,
                    #[trigger] out@[a],
                    (#[trigger] table@[k]).1,
                ) by {
                    let j = if k < m {
                        k
                    } else {
                        k + 1
                    };
                    assert(table@[k] == before[j]);
                    if a < out0.len() {
                        assert(out@[a] == out0[a]);
                    } else {
                        assert(before[j].1 != c);
                    }
                }
            }
        }
        string_from_chars(out.as_slice())
    }
}

} // verus!
