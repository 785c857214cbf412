//! Sliding one line of the board towards its end, merging equal tiles.
use vstd::prelude::*;

verus! {

/// Sum of the tiles of a line.
pub open spec fn line_total(s: Seq<u32>) -> int
    decreases s.len(),
{
    if s.len() == 0 {
        0
    } else {
        line_total(s.drop_last()) + s.last()
    }
}

/// Whether the step of a pass at position `idx` moves or merges a tile.
pub open spec fn step_acts(s: Seq<u32>, idx: int) -> bool {
    ||| (s[idx] == 0 && s[idx - 1] > 0)
    ||| (s[idx] > 0 && s[idx] == s[idx - 1])
}

/// One step of a pass at position `idx`: a tile left of an empty square moves
/// right into it; two equal tiles merge into the right square.
pub open spec fn slide_step(s: Seq<u32>, idx: int) -> Seq<u32> {
    if s[idx] == 0 && s[idx - 1] > 0 {
        s.update(idx, s[idx - 1]).update(idx - 1, 0)
    } else if s[idx] > 0 && s[idx] == s[idx - 1] {
        s.update(idx, (s[idx] * 2) as u32).update(idx - 1, 0)
    } else {
        s
    }
}

/// The steps of a pass at positions `idx`, `idx - 1`, ..., 1, in this order.
pub open spec fn pass_from(s: Seq<u32>, idx: int) -> Seq<u32>
    decreases idx,
{
    if idx <= 0 {
        s
    } else {
        pass_from(slide_step(s, idx), idx - 1)
    }
}

/// Whether one of the steps of `pass_from(s, idx)` moves or merges a tile.
pub open spec fn pass_changes_from(s: Seq<u32>, idx: int) -> bool
    decreases idx,
{
    if idx <= 0 {
        false
    } else {
        step_acts(s, idx) || pass_changes_from(slide_step(s, idx), idx - 1)
    }
}

/// One pass over a whole line, from its last position down to position 1.
pub open spec fn slide_pass(s: Seq<u32>) -> Seq<u32> {
    pass_from(s, s.len() - 1)
}

/// Whether a pass over the line moves or merges a tile.
pub open spec fn slide_pass_changes(s: Seq<u32>) -> bool {
    pass_changes_from(s, s.len() - 1)
}

/// The weight of position `p` in the potential of a line of length `n`.
pub open spec fn weight(s: Seq<u32>, p: int) -> int {
    if s[p] != 0 {
        2 * s.len() - p
    } else {
        0
    }
}

/// Potential of the first `n` positions: tiles count more the further left they are.
pub open spec fn potential_upto(s: Seq<u32>, n: int) -> int
    decreases n,
{
    if n <= 0 {
        0
    } else {
        potential_upto(s, n - 1) + weight(s, n - 1)
    }
}

/// A measure that every pass that changes the line decreases.
pub open spec fn potential(s: Seq<u32>) -> int {
    potential_upto(s, s.len() as int)
}

/// Passes repeated until one changes nothing: the line after a full move.
pub open spec fn slide(s: Seq<u32>) -> Seq<u32>
    decreases potential(s),
{
    if slide_pass_changes(s) {
        proof {
            lemma_pass_potential(s, s.len() - 1);
        }
        slide(slide_pass(s))
    } else {
        s
    }
}

proof fn lemma_potential_nonneg(s: Seq<u32>, n: int)
    requires
        n <= s.len(),
    ensures
        potential_upto(s, n) >= 0,
    decreases n,
{
    if n > 0 {
        lemma_potential_nonneg(s, n - 1);
    }
}

pub proof fn lemma_potential_update(s: Seq<u32>, i: int, x: u32, n: int)
    requires
        0 <= i < s.len(),
        0 <= n <= s.len(),
    ensures
        potential_upto(s.update(i, x), n) == potential_upto(s, n) + (if i < n {
            weight(s.update(i, x), i) - weight(s, i)
        } else {
            0
        }),
    decreases n,
{
    if n > 0 {
        lemma_potential_update(s, i, x, n - 1);
    }
}

pub proof fn lemma_step_potential(s: Seq<u32>, idx: int)
    requires
        0 < idx < s.len(),
    ensures
        slide_step(s, idx).len() == s.len(),
        step_acts(s, idx) ==> potential(slide_step(s, idx)) < potential(s),
        !step_acts(s, idx) ==> slide_step(s, idx) == s,
{
    let n = s.len() as int;
    if s[idx] == 0 && s[idx - 1] > 0 {
        let s1 = s.update(idx, s[idx - 1]);
        lemma_potential_update(s, idx, s[idx - 1], n);
        lemma_potential_update(s1, idx - 1, 0, n);
    } else if s[idx] > 0 && s[idx] == s[idx - 1] {
        let s1 = s.update(idx, (s[idx] * 2) as u32);
        lemma_potential_update(s, idx, (s[idx] * 2) as u32, n);
        lemma_potential_update(s1, idx - 1, 0, n);
    }
}

/// A pass never increases the potential, and decreases it when it changes the line.
pub proof fn lemma_pass_potential(s: Seq<u32>, idx: int)
    requires
        idx < s.len(),
    ensures
        pass_from(s, idx).len() == s.len(),
        potential(pass_from(s, idx)) <= potential(s),
        potential(pass_from(s, idx)) >= 0,
        pass_changes_from(s, idx) ==> potential(pass_from(s, idx)) < potential(s),
        !pass_changes_from(s, idx) ==> pass_from(s, idx) == s,
    decreases idx,
{
    if idx > 0 {
        lemma_step_potential(s, idx);
        lemma_pass_potential(slide_step(s, idx), idx - 1);
    } else {
        lemma_potential_nonneg(s, s.len() as int);
    }
}

/// The total of a line of four tiles.
pub proof fn lemma_total4(s: Seq<u32>)
    requires
        s.len() == 4,
    ensures
        line_total(s) == s[0] + s[1] + s[2] + s[3],
{
    let s3 = s.drop_last();
    let s2 = s3.drop_last();
    let s1 = s2.drop_last();
    let s0 = s1.drop_last();
    assert(s0.len() == 0);
    assert(line_total(s0) == 0);
    assert(line_total(s1) == s[0]);
    assert(line_total(s2) == s[0] + s[1]);
    assert(line_total(s3) == s[0] + s[1] + s[2]);
}

/// The total of the first `j + 1` tiles of a line.
pub proof fn lemma_total_take(s: Seq<u32>, j: int)
    requires
        0 <= j < s.len(),
    ensures
        line_total(s.take(j + 1)) == line_total(s.take(j)) + s[j],
{
    assert(s.take(j + 1).drop_last() =~= s.take(j));
}

proof fn lemma_total_update(s: Seq<u32>, i: int, x: u32)
    requires
        0 <= i < s.len(),
    ensures
        line_total(s.update(i, x)) == line_total(s) - s[i] + x,
    decreases s.len(),
{
    let t = s.update(i, x);
    if i < s.len() - 1 {
        assert(t.drop_last() == s.drop_last().update(i, x));
        lemma_total_update(s.drop_last(), i, x);
    } else {
        assert(t.drop_last() == s.drop_last());
    }
}

proof fn lemma_total_two(s: Seq<u32>, i: int, j: int)
    requires
        0 <= i < j < s.len(),
    ensures
        line_total(s) >= s[i] + s[j],
    decreases s.len(),
{
    lemma_total_nonneg(s.drop_last());
    if j < s.len() - 1 {
        lemma_total_two(s.drop_last(), i, j);
    } else {
        lemma_total_one(s.drop_last(), i);
    }
}

proof fn lemma_total_one(s: Seq<u32>, i: int)
    requires
        0 <= i < s.len(),
    ensures
        line_total(s) >= s[i],
    decreases s.len(),
{
    lemma_total_nonneg(s.drop_last());
    if i < s.len() - 1 {
        lemma_total_one(s.drop_last(), i);
    }
}

pub proof fn lemma_total_nonneg(s: Seq<u32>)
    ensures
        line_total(s) >= 0,
    decreases s.len(),
{
    if s.len() > 0 {
        lemma_total_nonneg(s.drop_last());
    }
}

/// A step keeps the total of the line when the total fits in a `u32`.
proof fn lemma_step_total(s: Seq<u32>, idx: int)
    requires
        0 < idx < s.len(),
        line_total(s) <= u32::MAX,
    ensures
        line_total(slide_step(s, idx)) == line_total(s),
        step_acts(s, idx) && s[idx] > 0 ==> s[idx] * 2 <= u32::MAX,
{
    if s[idx] == 0 && s[idx - 1] > 0 {
        let s1 = s.update(idx, s[idx - 1]);
        lemma_total_update(s, idx, s[idx - 1]);
        lemma_total_update(s1, idx - 1, 0);
    } else if s[idx] > 0 && s[idx] == s[idx - 1] {
        lemma_total_two(s, idx - 1, idx);
        let s1 = s.update(idx, (s[idx] * 2) as u32);
        lemma_total_update(s, idx, (s[idx] * 2) as u32);
        lemma_total_update(s1, idx - 1, 0);
    }
}

proof fn lemma_pass_total(s: Seq<u32>, idx: int)
    requires
        idx < s.len(),
        line_total(s) <= u32::MAX,
    ensures
        line_total(pass_from(s, idx)) == line_total(s),
    decreases idx,
{
    if idx > 0 {
        lemma_step_total(s, idx);
        lemma_step_potential(s, idx);
        lemma_pass_total(slide_step(s, idx), idx - 1);
    }
}

/// A full move keeps the length and the total of a line.
pub proof fn lemma_slide_keeps_total(s: Seq<u32>)
    requires
        line_total(s) <= u32::MAX,
    ensures
        slide(s).len() == s.len(),
        line_total(slide(s)) == line_total(s),
    decreases potential(s),
{
    if slide_pass_changes(s) {
        lemma_pass_potential(s, s.len() - 1);
        lemma_pass_total(s, s.len() - 1);
        lemma_slide_keeps_total(slide_pass(s));
    }
}

/// One pass over the line: returns whether a tile moved or merged.
pub fn do_sum(arr: &mut Vec<u32>) -> (changed: bool)
    requires
        old(arr)@.len() >= 1,
        line_total(old(arr)@) <= u32::MAX,
    ensures
        final(arr)@ == slide_pass(old(arr)@),
        changed == slide_pass_changes(old(arr)@),
        line_total(final(arr)@) == line_total(old(arr)@),
{
    let ghost orig = arr@;
    let mut changed = false;
    let mut idx = arr.len() - 1;
    proof {
        lemma_pass_total(orig, orig.len() - 1);
    }
    while 0 < idx
        invariant
            idx < arr@.len(),
            arr@.len() == orig.len(),
            pass_from(arr@, idx as int) == slide_pass(orig),
            (changed || pass_changes_from(arr@, idx as int)) == slide_pass_changes(orig),
            line_total(arr@) == line_total(orig),
            line_total(orig) <= u32::MAX,
        decreases idx,
    {
        let ghost before = arr@;
        proof {
            lemma_step_total(before, idx as int);
        }
        let old = arr[idx];
        if arr[idx] == 0 && 0 < arr[idx - 1] {
            let v = arr[idx - 1];
            arr.set(idx, v);
            arr.set(idx - 1, 0);
        } else if 0 < arr[idx] && arr[idx] == arr[idx - 1] {
            let v = arr[idx] * 2;
            arr.set(idx, v);
            arr.set(idx - 1, 0);
        }
        assert(arr@ == slide_step(before, idx as int));
        changed = changed || arr[idx] != old;
        idx -= 1;
    }
    changed
}

/// Moves a whole line towards its end: passes are repeated until one changes
/// nothing.  Returns whether the first pass changed the line, and the line.
///
/// `[1, 1, 2, 2]` gives `(true, [0, 0, 2, 4])`; `[2, 2, 2, 2]` gives `(true, [0, 0, 0, 8])`.
pub fn sum(arr: Vec<u32>) -> (res: (bool, Vec<u32>))
    requires
        arr@.len() >= 1,
        line_total(arr@) <= u32::MAX,
    ensures
        res.0 == slide_pass_changes(arr@),
        res.1@ == slide(arr@),
{
    let ghost orig = arr@;
    let mut arr = arr;
    let changed = do_sum(&mut arr);
    proof {
        lemma_pass_potential(orig, orig.len() - 1);
    }
    loop
        invariant
            arr@.len() == orig.len(),
            orig.len() >= 1,
            line_total(arr@) == line_total(orig),
            line_total(orig) <= u32::MAX,
            slide(arr@) == slide(orig),
            changed == slide_pass_changes(orig),
        ensures
            arr@ == slide(orig),
        decreases potential(arr@),
    {
        let ghost before = arr@;
        proof {
            lemma_pass_potential(before, before.len() - 1);
        }
        if !do_sum(&mut arr) {
            break;
        }
    }
    (changed, arr)
}

/// A full move keeps the total of the tiles of the line.
pub proof fn law_slide_keeps_total(s: Seq<u32>)
    requires
        line_total(s) <= u32::MAX,
    ensures
        line_total(slide(s)) == line_total(s),
{
    lemma_slide_keeps_total(s);
}

/// A full move leaves a line on which a second move changes nothing.
pub proof fn law_slide_idempotent(s: Seq<u32>)
    ensures
        !slide_pass_changes(slide(s)),
        slide(slide(s)) == slide(s),
    decreases potential(s),
{
    if slide_pass_changes(s) {
        lemma_pass_potential(s, s.len() - 1);
        law_slide_idempotent(slide_pass(s));
    }
}

/// A full move never raises the potential of a line.
proof fn lemma_slide_potential(s: Seq<u32>)
    ensures
        potential(slide(s)) <= potential(s),
    decreases potential(s),
{
    if slide_pass_changes(s) {
        lemma_pass_potential(s, s.len() - 1);
        lemma_slide_potential(slide_pass(s));
    }
}

/// A full move changes a line exactly when its first pass does.
pub proof fn law_slide_changes(s: Seq<u32>)
    ensures
        slide_pass_changes(s) <==> slide(s) != s,
{
    if slide_pass_changes(s) {
        lemma_pass_potential(s, s.len() - 1);
        lemma_slide_potential(slide_pass(s));
    }
}

/// Some tile of the line can still go towards its end: a tile with an empty
/// square after it, or a tile with an equal tile after it.
pub open spec fn can_slide(s: Seq<u32>) -> bool {
    exists|i: int|
        1 <= i < s.len() && ((#[trigger] s[i] == 0 && s[i - 1] != 0) || (s[i] != 0 && s[i] == s[
            i - 1
        ]))
}

proof fn lemma_pass_changes_iff(s: Seq<u32>, idx: int)
    requires
        0 <= idx < s.len(),
    ensures
        pass_changes_from(s, idx) <==> exists|i: int|
            1 <= i <= idx && ((#[trigger] s[i] == 0 && s[i - 1] != 0) || (s[i] != 0 && s[i] == s[
                i - 1
            ])),
    decreases idx,
{
    if idx > 0 {
        lemma_step_potential(s, idx);
        if !step_acts(s, idx) {
            lemma_pass_changes_iff(s, idx - 1);
        }
    }
}

/// A pass over a line moves or merges something exactly when some tile can
/// go on: a tile before an empty square, or two equal tiles side by side.
pub proof fn law_pass_changes_iff_can_slide(s: Seq<u32>)
    ensures
        slide_pass_changes(s) <==> can_slide(s),
{
    if s.len() > 0 {
        lemma_pass_changes_iff(s, s.len() - 1);
    }
}

/// After a full move no tile of the line can go on: no tile stands before
/// an empty square and no two equal tiles stand side by side.
pub proof fn law_slide_settles(s: Seq<u32>)
    ensures
        !can_slide(slide(s)),
{
    law_slide_idempotent(s);
    law_pass_changes_iff_can_slide(slide(s));
}

/// Two equal tiles at the end of a line merge into one of twice the value,
/// whatever the value.
pub proof fn law_pair_merges(v: u32)
    requires
        v > 0,
        2 * v <= u32::MAX,
    ensures
        slide_pass_changes(seq![0u32, 0u32, v, v]),
        slide(seq![0u32, 0u32, v, v]) == seq![0u32, 0u32, 0u32, (2 * v) as u32],
{
    let s = seq![0u32, 0u32, v, v];
    let m = seq![0u32, 0u32, 0u32, (2 * v) as u32];
    assert(slide_step(s, 3) =~= m);
    assert(slide_step(m, 2) == m);
    assert(slide_step(m, 1) == m);
    assert(pass_from(m, 0) == m);
    assert(pass_from(m, 1) == m);
    assert(pass_from(m, 2) == m);
    assert(pass_from(s, 3) == m);
    assert(step_acts(s, 3));
    assert(!step_acts(m, 3) && !step_acts(m, 2) && !step_acts(m, 1));
    assert(!pass_changes_from(m, 0));
    assert(!pass_changes_from(slide_step(m, 1), 0));
    assert(!pass_changes_from(m, 1));
    assert(!pass_changes_from(m, 2));
    assert(!pass_changes_from(m, 3));
    assert(slide(m) == m);
    assert(slide_pass(s) == m);
}

} // verus!
