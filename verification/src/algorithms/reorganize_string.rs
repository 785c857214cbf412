//! Rearranging the letters of a string so that no two neighbours are equal.
use vstd::prelude::*;

use crate::algorithms::Solution;
use crate::text::{chars_of, string_from_chars};

verus! {

/// How many times `c` occurs in `s`.
pub open spec fn count_char(s: Seq<char>, c: char) -> nat
    decreases s.len(),
{
    if s.len() == 0 {
        0
    } else {
        count_char(s.drop_last(), c) + if s.last() == c {
            1nat
        } else {
            0nat
        }
    }
}

/// `c` is a lower-case ASCII letter.
pub open spec fn is_lower(c: char) -> bool {
    97 <= (c as int) <= 122
}

/// The `j`-th lower-case letter.
pub open spec fn letter(j: int) -> char {
    (j + 97) as char
}

/// No two neighbouring characters are equal.
pub open spec fn no_equal_neighbours(s: Seq<char>) -> bool {
    forall|p: int| 0 <= p < s.len() - 1 ==> #[trigger] s[p] != s[p + 1]
}

/// Some character occurs more than `(n + 1) / 2` times in `s` of length `n`,
/// so no arrangement without equal neighbours exists.
pub open spec fn too_frequent(s: Seq<char>) -> bool {
    exists|c: char| #[trigger] count_char(s, c) > (s.len() + 1) / 2
}

/// Number of even positions below `size`: the ranks that fill even positions.
pub open spec fn half(size: int) -> int {
    (size + 1) / 2
}

/// The rank of position `p`: even positions are filled first, in order, then odd ones.
pub open spec fn rank(p: int, size: int) -> int {
    if p % 2 == 0 {
        p / 2
    } else {
        half(size) + (p - 1) / 2
    }
}

/// The position filled at rank `k`.
pub open spec fn pos(k: int, size: int) -> int {
    if k < half(size) {
        2 * k
    } else {
        2 * (k - half(size)) + 1
    }
}

/// The index of the letter that the scan of `s` picks as the most frequent:
/// the first letter whose count, as the scan goes, exceeds the count of the
/// letter picked so far.
pub open spec fn scan_max(s: Seq<char>) -> int
    decreases s.len(),
{
    if s.len() == 0 {
        0
    } else {
        let m = scan_max(s.drop_last());
        if count_char(s, letter(m)) < count_char(s, s.last()) {
            s.last() as int - 97
        } else {
            m
        }
    }
}

/// `n` copies of `c`.
pub open spec fn block(c: char, n: nat) -> Seq<char> {
    Seq::new(n, |_k: int| c)
}

/// The letters `0..i` of `s` but letter `m`, each as many times as it occurs,
/// in alphabetical order.
pub open spec fn placed_upto(s: Seq<char>, m: int, i: int) -> Seq<char>
    decreases i,
{
    if i <= 0 {
        Seq::empty()
    } else {
        placed_upto(s, m, i - 1) + if i - 1 == m {
            Seq::<char>::empty()
        } else {
            block(letter(i - 1), count_char(s, letter(i - 1)))
        }
    }
}

/// The order in which the letters of `s` are placed: the picked letter
/// first, then the others alphabetically.
pub open spec fn placing_order(s: Seq<char>) -> Seq<char> {
    let m = scan_max(s);
    block(letter(m), count_char(s, letter(m))) + placed_upto(s, m, 26)
}

/// The arrangement of `s`: the letters in their placing order go to the even
/// positions from the start, then to the odd ones.
pub open spec fn arranged(s: Seq<char>) -> Seq<char> {
    Seq::new(s.len(), |p: int| placing_order(s)[rank(p, s.len() as int)])
}

pub proof fn lemma_count_push(s: Seq<char>, x: char, c: char)
    ensures
        count_char(s.push(x), c) == count_char(s, c) + if x == c {
            1nat
        } else {
            0nat
        },
{
    assert(s.push(x).drop_last() =~= s);
}

proof fn lemma_count_update(s: Seq<char>, i: int, x: char, c: char)
    requires
        0 <= i < s.len(),
    ensures
        count_char(s.update(i, x), c) + (if s[i] == c {
            1int
        } else {
            0int
        }) == count_char(s, c) + if x == c {
            1int
        } else {
            0int
        },
    decreases s.len(),
{
    let t = s.update(i, x);
    if i < s.len() - 1 {
        assert(t.drop_last() =~= s.drop_last().update(i, x));
        lemma_count_update(s.drop_last(), i, x, c);
    } else {
        assert(t.drop_last() =~= s.drop_last());
    }
}

proof fn lemma_count_fill(n: nat, x: char, c: char)
    ensures
        count_char(Seq::new(n, |_i: int| x), c) == if x == c {
            n
        } else {
            0
        },
    decreases n,
{
    if n > 0 {
        lemma_count_fill((n - 1) as nat, x, c);
        assert(Seq::new(n, |_i: int| x).drop_last() =~= Seq::new((n - 1) as nat, |_i: int| x));
    }
}

pub proof fn lemma_count_le_len(s: Seq<char>, c: char)
    ensures
        count_char(s, c) <= s.len(),
    decreases s.len(),
{
    if s.len() > 0 {
        lemma_count_le_len(s.drop_last(), c);
    }
}

proof fn lemma_count_non_lower(s: Seq<char>, c: char)
    requires
        forall|i: int| 0 <= i < s.len() ==> is_lower(#[trigger] s[i]),
        !is_lower(c),
    ensures
        count_char(s, c) == 0,
    decreases s.len(),
{
    if s.len() > 0 {
        lemma_count_non_lower(s.drop_last(), c);
    }
}

proof fn lemma_pos_rank(k: int, size: int)
    requires
        0 <= k < size,
    ensures
        0 <= pos(k, size) < size,
        rank(pos(k, size), size) == k,
{
}

proof fn lemma_rank_bounds(p: int, size: int)
    requires
        0 <= p < size,
    ensures
        0 <= rank(p, size) < size,
        pos(rank(p, size), size) == p,
{
}

/// Two neighbouring positions never have ranks within `half(size)` of each
/// other unless the smaller rank lies before `k - half(size) + 1`.
proof fn lemma_neighbour_ranks(p: int, size: int)
    requires
        0 <= p,
        p + 1 < size,
    ensures
        p % 2 == 0 ==> rank(p + 1, size) == rank(p, size) + half(size),
        p % 2 == 1 ==> rank(p, size) == rank(p + 1, size) + half(size) - 1,
        p % 2 == 1 ==> rank(p + 1, size) < half(size),
{
}

impl Solution {
    /// Rearranges the letters of `s` so that no two neighbours are equal; the
    /// empty string where some letter occurs more than `(n + 1) / 2` times.
    pub fn reorganize_string(s: String) -> (res: String)
        requires
            forall|i: int| 0 <= i < s@.len() ==> is_lower(#[trigger] s@[i]),
            s@.len() < u32::MAX,
        ensures
            too_frequent(s@) ==> res@.len() == 0,
            !too_frequent(s@) ==> no_equal_neighbours(res@) && forall|c: char| #[trigger] count_char(res@, c)
                == count_char(s@, c),
            !too_frequent(s@) ==> res@ == arranged(s@),
    {
        let chars = chars_of(s.as_str());
        let ghost src = chars@;
        let mut counts: Vec<(u32, char)> = Vec::new();
        let mut j: usize = 0;
        while j < 26
            invariant
                j <= 26,
                counts@.len() == j,
                forall|t: int| 0 <= t < j ==> (#[trigger] counts@[t]) == (0u32, '.'),
            decreases 26 - j,
        {
            counts.push((0, '.'));
            j += 1;
        }
        let mut max_idx: usize = 0;
        let mut t: usize = 0;
        while t < chars.len()
            invariant
                t <= chars@.len(),
                chars@ == src,
                src.len() < u32::MAX,
                forall|i: int| 0 <= i < src.len() ==> is_lower(#[trigger] src[i]),
                counts@.len() == 26,
                max_idx < 26,
                forall|q: int| 0 <= q < 26 ==> (#[trigger] counts@[q]).0 == count_char(src.take(t as int), letter(q)),
                forall|q: int| 0 <= q < 26 ==> (#[trigger] counts@[q]).1 == if counts@[q].0 > 0 {
                    letter(q)
                } else {
                    '.'
                },
                forall|q: int| 0 <= q < 26 ==> (#[trigger] counts@[q]).0 <= counts@[max_idx as int].0,
                max_idx as int == scan_max(src.take(t as int)),
            decreases chars@.len() - t,
        {
            let c = chars[t];
            let idx = (c as u32 - 97) as usize;
            proof {
                assert(src.take(t + 1) =~= src.take(t as int).push(c));
                assert(src.take(t + 1).drop_last() =~= src.take(t as int));
                assert forall|q: int| 0 <= q < 26 implies count_char(src.take(t + 1), letter(q))
                    == count_char(src.take(t as int), letter(q)) + if q == idx {
                    1nat
                } else {
                    0nat
                } by {
                    lemma_count_push(src.take(t as int), c, letter(q));
                    assert(letter(idx as int) == c);
                }
                lemma_count_le_len(src.take(t as int), c);
            }
            let old_count = counts[idx].0;
            counts.set(idx, (old_count + 1, c));
            if counts[max_idx].0 < counts[idx].0 {
                max_idx = idx;
            }
            t += 1;
        }
        proof {
            assert(src.take(src.len() as int) =~= src);
        }
        let ghost cnt = counts@;
        let size = chars.len();
        let mut res: Vec<char> = Vec::new();
        let mut q: usize = 0;
        while q < size
            invariant
                q <= size,
                res@.len() == q,
                forall|r: int| 0 <= r < q ==> (#[trigger] res@[r]) == '0',
            decreases size - q,
        {
            res.push('0');
            q += 1;
        }
        let mut idx: usize = 0;
        let (mut x, y) = counts[max_idx];
        proof {
            // too_frequent is decided by the largest count.
            if too_frequent(src) {
                let c = choose|c: char| #[trigger] count_char(src, c) > (src.len() + 1) / 2;
                if is_lower(c) {
                    let qc = c as int - 97;
                    assert(letter(qc) == c);
                    assert(cnt[qc].0 <= cnt[max_idx as int].0);
                } else {
                    lemma_count_non_lower(src, c);
                }
            }
            if x > (size + 1) / 2 {
                assert(count_char(src, letter(max_idx as int)) > (src.len() + 1) / 2);
            }
        }
        if x > ((size + 1) / 2) as u32 {
            return String::new();
        }
        assert(!too_frequent(src)) by {
            if too_frequent(src) {
                let c = choose|c: char| #[trigger] count_char(src, c) > (src.len() + 1) / 2;
                if is_lower(c) {
                    let qc = c as int - 97;
                    assert(letter(qc) == c);
                    assert(cnt[qc].0 <= cnt[max_idx as int].0);
                } else {
                    lemma_count_non_lower(src, c);
                }
            }
        }
        proof {
            assert(res@ =~= Seq::new(size as nat, |_i: int| '0'));
            assert forall|ch: char| count_char(res@, ch) == (if ch == '0' { sz_of(size) } else { 0 }) by {
                lemma_count_fill(size as nat, '0', ch);
            }
        }
        let ghost mx = x as int;
        let ghost e = half(size as int);
        let ghost sz = size as int;
        // Ghost record of the characters in the order they are placed.
        let ghost mut fill: Seq<char> = Seq::empty();
        // Phase one: the most frequent letter on the even positions.
        while 0 < x
            invariant
                sz == size,
                sz < u32::MAX,
                e == half(sz),
                mx <= e,
                x <= mx,
                y == letter(max_idx as int) || mx == 0,
                max_idx < 26,
                max_idx as int == scan_max(src),
                fill.len() == mx - x,
                idx == 2 * fill.len(),
                res@.len() == size,
                forall|p: int| 0 <= p < sz ==> (rank(p, sz) < fill.len() ==> #[trigger] res@[p] == y) && (rank(
                    p,
                    sz,
                ) >= fill.len() ==> res@[p] == '0'),
                forall|r: int| 0 <= r < fill.len() ==> #[trigger] fill[r] == y,
                forall|ch: char| count_char(res@, ch) + (if ch == '0' { fill.len() as int } else { 0 }) == (if ch
                    == '0' {
                    sz
                } else {
                    0
                }) + #[trigger] count_char(fill, ch),
            decreases x,
        {
            let ghost before = res@;
            proof {
                lemma_pos_rank(fill.len() as int, sz);
                assert(pos(fill.len() as int, sz) == idx);
                assert(rank(idx as int, sz) == fill.len());
                assert forall|ch: char| count_char(before.update(idx as int, y), ch) + (if ch == '0' {
                    (fill.len() + 1) as int
                } else {
                    0
                }) == (if ch == '0' {
                    sz
                } else {
                    0
                }) + #[trigger] count_char(fill.push(y), ch) by {
                    lemma_count_update(before, idx as int, y, ch);
                    lemma_count_push(fill, y, ch);
                }
                fill = fill.push(y);
            }
            res.set(idx, y);
            idx += 2;
            x -= 1;
        }
        assert(fill.len() == mx);
        proof {
            assert(fill =~= block(letter(max_idx as int), mx as nat) + placed_upto(
                src,
                max_idx as int,
                0,
            ));
            assert forall|r: int| 0 <= r < 26 implies #[trigger] count_char(fill, letter(r)) == (if r == max_idx {
                mx
            } else {
                0
            }) by {
                if r == max_idx {
                    lemma_count_all(fill, y);
                } else {
                    assert(letter(r) != letter(max_idx as int));
                    lemma_count_absent(fill, letter(r));
                }
            }
        }
        // Phase two: the other letters, continuing on the even positions and then
        // on the odd ones.
        counts.set(max_idx, (0, y));
        let mut i: usize = 0;
        while i < 26
            invariant
                sz == size,
                sz < u32::MAX,
                forall|k: int| 0 <= k < src.len() ==> is_lower(#[trigger] src[k]),
                src.len() == sz,
                e == half(sz),
                mx <= e,
                max_idx < 26,
                cnt.len() == 26,
                counts@.len() == 26,
                forall|r: int| 0 <= r < 26 && r != max_idx ==> #[trigger] counts@[r] == cnt[r],
                counts@[max_idx as int].0 == 0,
                mx == cnt[max_idx as int].0,
                forall|r: int| 0 <= r < 26 ==> (#[trigger] cnt[r]).0 <= mx,
                forall|r: int| 0 <= r < 26 ==> (#[trigger] cnt[r]).0 > 0 ==> cnt[r].1 == letter(r),
                forall|r: int| 0 <= r < 26 ==> (#[trigger] cnt[r]).0 == count_char(src, letter(r)),
                mx > 0 ==> y == letter(max_idx as int),
                max_idx as int == scan_max(src),
                fill == block(letter(max_idx as int), mx as nat) + placed_upto(
                    src,
                    max_idx as int,
                    i as int,
                ),
                i <= 26,
                fill.len() <= sz,
                fill.len() == mx + placed_before(cnt, max_idx as int, i as int),
                idx == (if fill.len() <= e { 2 * (fill.len() as int) } else { 2 * (fill.len() - e) + 1 }),
                res@.len() == size,
                forall|p: int| 0 <= p < sz ==> (rank(p, sz) < fill.len() ==> #[trigger] res@[p] == fill[rank(p, sz)])
                    && (rank(p, sz) >= fill.len() ==> res@[p] == '0'),
                forall|r: int| 0 <= r < fill.len() ==> is_lower(#[trigger] fill[r]),
                forall|r: int| 0 <= r < mx ==> #[trigger] fill[r] == y,
                forall|r: int| mx <= r < fill.len() ==> (#[trigger] fill[r] as int) - 97 < i && (fill[r] as int) - 97 != max_idx,
                forall|p: int| 0 <= p && p + 1 < sz && rank(p, sz) < fill.len() && rank(p + 1, sz) < fill.len()
                    ==> #[trigger] res@[p] != res@[p + 1],
                forall|ch: char| count_char(res@, ch) + (if ch == '0' { fill.len() as int } else { 0 }) == (if ch
                    == '0' {
                    sz
                } else {
                    0
                }) + #[trigger] count_char(fill, ch),
                forall|r: int| 0 <= r < 26 ==> #[trigger] count_char(fill, letter(r)) == (if r == max_idx {
                    mx
                } else if r < i {
                    cnt[r].0 as int
                } else {
                    0
                }),
            decreases 26 - i,
        {
            let (mut x, y2) = counts[i];
            let ghost start = fill.len();
            let ghost fill0 = fill;
            let ghost x0 = x as int;
            assert(x as int == (if i == max_idx { 0 } else { cnt[i as int].0 as int }));
            proof {
                lemma_placed_before_bound(cnt, max_idx as int, 26);
                lemma_placed_before_total(cnt, max_idx as int, src);
                assert(placed_before(cnt, max_idx as int, i + 1) == placed_before(cnt, max_idx as int, i as int) + if i
                    == max_idx {
                    0
                } else {
                    cnt[i as int].0 as int
                });
                assert(placed_before(cnt, max_idx as int, i + 1) <= placed_before(cnt, max_idx as int, 26));
            }
            while x > 0
                invariant
                    sz == size,
                    sz < u32::MAX,
                    e == half(sz),
                    mx <= e,
                    i < 26,
                    max_idx < 26,
                    x0 > 0 ==> i != max_idx,
                    x > 0 ==> y2 == letter(i as int),
                    x as int + (fill.len() - start) == x0,
                    fill.take(start as int) == fill0,
                    fill0.len() == start,
                    start + (x as int) <= sz,
                    fill.len() >= start,
                    fill.len() + x as int <= sz,
                    x as int + (fill.len() - start) <= mx,
                    start >= mx,
                    idx == (if fill.len() <= e { 2 * (fill.len() as int) } else { 2 * (fill.len() - e) + 1 }),
                    res@.len() == size,
                    forall|p: int| 0 <= p < sz ==> (rank(p, sz) < fill.len() ==> #[trigger] res@[p] == fill[rank(p, sz)])
                        && (rank(p, sz) >= fill.len() ==> res@[p] == '0'),
                    forall|r: int| start <= r < fill.len() ==> #[trigger] fill[r] == letter(i as int),
                    x0 > 0 ==> forall|r: int| 0 <= r < start ==> #[trigger] fill[r] != letter(i as int),
                    forall|r: int| 0 <= r < fill.len() ==> is_lower(#[trigger] fill[r]),
                    forall|p: int| 0 <= p && p + 1 < sz && rank(p, sz) < fill.len() && rank(p + 1, sz) < fill.len()
                        ==> #[trigger] res@[p] != res@[p + 1],
                    forall|ch: char| count_char(res@, ch) + (if ch == '0' { fill.len() as int } else { 0 }) == (if ch
                        == '0' {
                        sz
                    } else {
                        0
                    }) + #[trigger] count_char(fill, ch),
                decreases x,
            {
                if idx >= size {
                    idx = 1;
                }
                let ghost k = fill.len() as int;
                let ghost before = res@;
                proof {
                    lemma_pos_rank(k, sz);
                    assert(idx == pos(k, sz));
                    assert(rank(idx as int, sz) == k);
                    // The neighbours of the new position hold other letters.
                    assert forall|p: int| 0 <= p && p + 1 < sz && rank(p, sz) < k + 1 && rank(p + 1, sz) < k + 1
                        implies #[trigger] before.update(idx as int, y2)[p] != before.update(idx as int, y2)[p + 1] by {
                        lemma_neighbour_ranks(p, sz);
                        lemma_rank_bounds(p, sz);
                        lemma_rank_bounds(p + 1, sz);
                        if p == idx || p + 1 == idx {
                            let other = if p == idx { p + 1 } else { p };
                            lemma_rank_bounds(other, sz);
                            assert(rank(other, sz) < k);
                            assert(before[other] == fill[rank(other, sz)]);
                            if rank(other, sz) >= start {
                                assert(false);
                            }
                        }
                    }
                    assert forall|ch: char| count_char(before.update(idx as int, y2), ch) + (if ch == '0' {
                        (fill.len() + 1) as int
                    } else {
                        0
                    }) == (if ch == '0' {
                        sz
                    } else {
                        0
                    }) + #[trigger] count_char(fill.push(y2), ch) by {
                        lemma_count_update(before, idx as int, y2, ch);
                        lemma_count_push(fill, y2, ch);
                    }
                    assert(fill.push(y2).take(start as int) =~= fill.take(start as int));
                    fill = fill.push(y2);
                }
                res.set(idx, y2);
                idx += 2;
                x -= 1;
            }
            proof {
                if x0 == 0 {
                    assert(fill =~= fill0);
                }
                assert(fill =~= fill0 + block(letter(i as int), x0 as nat)) by {
                    assert forall|r: int| 0 <= r < start implies #[trigger] fill[r] == fill0[r] by {
                        assert(fill.take(start as int)[r] == fill[r]);
                    }
                }
                assert(placed_upto(src, max_idx as int, i + 1) =~= placed_upto(
                    src,
                    max_idx as int,
                    i as int,
                ) + block(letter(i as int), x0 as nat));
                assert(fill =~= block(letter(max_idx as int), mx as nat) + placed_upto(
                    src,
                    max_idx as int,
                    i + 1,
                ));
                assert forall|r: int| 0 <= r < start implies #[trigger] fill[r] == fill0[r] by {
                    assert(fill.take(start as int)[r] == fill[r]);
                }
                assert forall|r: int| start <= r < fill.len() implies (#[trigger] fill[r] as int) - 97 == i by {
                    assert(fill[r] == letter(i as int));
                }
                assert forall|r: int| 0 <= r < 26 implies #[trigger] count_char(fill, letter(r)) == (if r == max_idx {
                    mx
                } else if r < i + 1 {
                    cnt[r].0 as int
                } else {
                    0
                }) by {
                    if x0 > 0 {
                        lemma_count_block(fill, start as int, letter(i as int), letter(r));
                    }
                }
            }
            i += 1;
        }
        proof {
            lemma_placed_before_total(cnt, max_idx as int, src);
            assert(fill.len() == sz);
            assert(fill == placing_order(src));
            assert forall|p: int| 0 <= p < sz implies #[trigger] res@[p] == arranged(src)[p] by {
                lemma_rank_bounds(p, sz);
            }
            assert(res@ =~= arranged(src));
            assert forall|ch: char| #[trigger] count_char(res@, ch) == count_char(src, ch) by {
                if is_lower(ch) {
                    let r = ch as int - 97;
                    assert(letter(r) == ch);
                    assert(count_char(fill, letter(r)) == cnt[r].0);
                    assert(cnt[r].0 == count_char(src, letter(r)));
                    assert(count_char(res@, ch) == count_char(fill, ch));
                } else {
                    lemma_count_non_lower(src, ch);
                    lemma_count_non_lower_fill(fill, ch);
                    if ch == '0' {
                        lemma_count_le_len(fill, ch);
                    }
                }
            }
        }
        string_from_chars(res.as_slice())
    }
}

/// `n` as an integer.
pub open spec fn sz_of(n: usize) -> int {
    n as int
}

/// How many characters the second phase places for the letters `0..i`.
pub open spec fn placed_before(cnt: Seq<(u32, char)>, max_idx: int, i: int) -> int
    decreases i,
{
    if i <= 0 {
        0
    } else {
        placed_before(cnt, max_idx, i - 1) + if i - 1 == max_idx {
            0
        } else {
            cnt[i - 1].0 as int
        }
    }
}

proof fn lemma_placed_before_bound(cnt: Seq<(u32, char)>, max_idx: int, i: int)
    requires
        0 <= i <= 26,
    ensures
        placed_before(cnt, max_idx, i) >= 0,
        forall|j: int| 0 <= j <= i ==> 0 <= #[trigger] placed_before(cnt, max_idx, j) <= placed_before(cnt, max_idx, i),
    decreases i,
{
    if i > 0 {
        lemma_placed_before_bound(cnt, max_idx, i - 1);
    }
}

proof fn lemma_placed_before_total(cnt: Seq<(u32, char)>, max_idx: int, src: Seq<char>)
    requires
        0 <= max_idx < 26,
        cnt.len() == 26,
        forall|r: int| 0 <= r < 26 ==> (#[trigger] cnt[r]).0 == count_char(src, letter(r)),
        forall|i: int| 0 <= i < src.len() ==> is_lower(#[trigger] src[i]),
    ensures
        cnt[max_idx].0 + placed_before(cnt, max_idx, 26) == src.len(),
{
    lemma_letters_total(src, cnt, max_idx, 26);
}

proof fn lemma_letters_total(src: Seq<char>, cnt: Seq<(u32, char)>, max_idx: int, i: int)
    requires
        0 <= max_idx < 26,
        0 <= i <= 26,
        cnt.len() == 26,
        forall|r: int| 0 <= r < 26 ==> (#[trigger] cnt[r]).0 == count_char(src, letter(r)),
        forall|k: int| 0 <= k < src.len() ==> is_lower(#[trigger] src[k]),
    ensures
        placed_before(cnt, max_idx, i) + (if max_idx < i { cnt[max_idx].0 as int } else { 0 }) == letters_below(
            src,
            i,
        ),
        i == 26 ==> letters_below(src, i) == src.len(),
    decreases i,
{
    if i > 0 {
        lemma_letters_total(src, cnt, max_idx, i - 1);
    }
    if i == 26 {
        lemma_letters_below_all(src);
    }
}

/// How many characters of `s` are among the first `i` letters.
pub open spec fn letters_below(s: Seq<char>, i: int) -> int
    decreases i,
{
    if i <= 0 {
        0
    } else {
        letters_below(s, i - 1) + count_char(s, letter(i - 1))
    }
}

proof fn lemma_letters_below_all(s: Seq<char>)
    requires
        forall|k: int| 0 <= k < s.len() ==> is_lower(#[trigger] s[k]),
    ensures
        letters_below(s, 26) == s.len(),
    decreases s.len(),
{
    if s.len() > 0 {
        let t = s.drop_last();
        assert forall|k: int| 0 <= k < t.len() implies is_lower(#[trigger] t[k]) by {
            assert(t[k] == s[k]);
        }
        assert(is_lower(s[s.len() - 1]));
        lemma_letters_below_all(t);
        lemma_letters_below_push(t, s.last(), 26);
        assert(t.push(s.last()) =~= s);
    } else {
        lemma_letters_below_empty(s, 26);
    }
}

proof fn lemma_letters_below_empty(s: Seq<char>, i: int)
    requires
        s.len() == 0,
        0 <= i,
    ensures
        letters_below(s, i) == 0,
    decreases i,
{
    if i > 0 {
        lemma_letters_below_empty(s, i - 1);
    }
}

proof fn lemma_letters_below_push(s: Seq<char>, c: char, i: int)
    requires
        0 <= i <= 26,
        is_lower(c),
    ensures
        letters_below(s.push(c), i) == letters_below(s, i) + if (c as int) - 97 < i {
            1int
        } else {
            0int
        },
    decreases i,
{
    if i > 0 {
        lemma_letters_below_push(s, c, i - 1);
        lemma_count_push(s, c, letter(i - 1));
    }
}

/// Characters at positions `start..` are all `c`; those before it are not.
proof fn lemma_count_block(fill: Seq<char>, start: int, c: char, other: char)
    requires
        0 <= start <= fill.len(),
        forall|r: int| start <= r < fill.len() ==> #[trigger] fill[r] == c,
        forall|r: int| 0 <= r < start ==> #[trigger] fill[r] != c,
    ensures
        count_char(fill, other) == count_char(fill.take(start), other) + if other == c {
            fill.len() - start
        } else {
            0
        },
        count_char(fill.take(start), c) == 0,
    decreases fill.len(),
{
    if fill.len() > start {
        let t = fill.drop_last();
        lemma_count_block(t, start, c, other);
        assert(t.take(start) =~= fill.take(start));
    } else {
        assert(fill.take(start) =~= fill);
        lemma_count_absent(fill, c);
    }
}

proof fn lemma_count_all(s: Seq<char>, c: char)
    requires
        forall|r: int| 0 <= r < s.len() ==> #[trigger] s[r] == c,
    ensures
        count_char(s, c) == s.len(),
    decreases s.len(),
{
    if s.len() > 0 {
        lemma_count_all(s.drop_last(), c);
    }
}

proof fn lemma_count_absent(s: Seq<char>, c: char)
    requires
        forall|r: int| 0 <= r < s.len() ==> #[trigger] s[r] != c,
    ensures
        count_char(s, c) == 0,
    decreases s.len(),
{
    if s.len() > 0 {
        lemma_count_absent(s.drop_last(), c);
    }
}

proof fn lemma_count_non_lower_fill(s: Seq<char>, c: char)
    requires
        forall|i: int| 0 <= i < s.len() ==> is_lower(#[trigger] s[i]),
        !is_lower(c),
    ensures
        count_char(s, c) == 0,
    decreases s.len(),
{
    if s.len() > 0 {
        lemma_count_non_lower_fill(s.drop_last(), c);
    }
}

} // verus!
