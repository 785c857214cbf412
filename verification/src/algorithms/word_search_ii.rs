//! The words that can be traced on a board of letters, moving between
//! neighbouring squares without visiting a square twice.
use vstd::prelude::*;
use std::collections::HashSet;

use crate::algorithms::Solution;
use crate::text::{chars_of, lex_le, sort_strings, sorted_strings};

verus! {

/// Row step of direction `d`: right, down, left, up.
pub open spec fn dir_dx(d: int) -> int {
    if d == 1 {
        1
    } else if d == 3 {
        -1
    } else {
        0
    }
}

/// Column step of direction `d`: right, down, left, up.
pub open spec fn dir_dy(d: int) -> int {
    if d == 0 {
        1
    } else if d == 2 {
        -1
    } else {
        0
    }
}

/// Number of columns of the board.
pub open spec fn width(board: Seq<Vec<char>>) -> int {
    board[0]@.len() as int
}

/// The board has at least one row, and every row has the same length.
pub open spec fn rectangular(board: Seq<Vec<char>>) -> bool {
    &&& board.len() >= 1
    &&& forall|x: int| 0 <= x < board.len() ==> (#[trigger] board[x])@.len() == board[0]@.len()
}

/// The key of square `(x, y)` in a set of visited squares.
pub open spec fn key(board: Seq<Vec<char>>, x: int, y: int) -> usize {
    (x * width(board) + y) as usize
}

/// From square `(x, y)`, with the squares `used` already visited, the characters
/// `chars[k..]` can be traced by moves between neighbouring squares.
pub open spec fn can_extend(board: Seq<Vec<char>>, chars: Seq<char>, k: int, x: int, y: int, used: Set<usize>) -> bool
    decreases chars.len() - k, 1int,
{
    if k >= chars.len() {
        true
    } else {
        ||| try_dir(board, chars, k, x, y, used, 0)
        ||| try_dir(board, chars, k, x, y, used, 1)
        ||| try_dir(board, chars, k, x, y, used, 2)
        ||| try_dir(board, chars, k, x, y, used, 3)
    }
}

/// The trace of `chars[k..]` from `(x, y)` can continue in direction `d`.
pub open spec fn try_dir(
    board: Seq<Vec<char>>,
    chars: Seq<char>,
    k: int,
    x: int,
    y: int,
    used: Set<usize>,
    d: int,
) -> bool
    decreases chars.len() - k, 0int,
{
    let nx = x + dir_dx(d);
    let ny = y + dir_dy(d);
    if 0 <= k < chars.len() && 0 <= nx < board.len() && 0 <= ny < width(board) && board[nx]@[ny]
        == chars[k] && !used.contains(key(board, nx, ny)) {
        can_extend(board, chars, k + 1, nx, ny, used.insert(key(board, nx, ny)))
    } else {
        false
    }
}

/// The word can be traced on the board from some starting square.
pub open spec fn word_found(board: Seq<Vec<char>>, word: Seq<char>) -> bool {
    exists|x: int, y: int|
        0 <= x < board.len() && 0 <= y < width(board) && #[trigger] board[x]@[y] == word[0]
            && can_extend(board, word, 1, x, y, Set::empty().insert(key(board, x, y)))
}

/// The words of `words`, in order, that can be traced on the board.
pub open spec fn found_words(board: Seq<Vec<char>>, words: Seq<String>) -> Seq<String>
    decreases words.len(),
{
    if words.len() == 0 {
        Seq::empty()
    } else {
        let rest = found_words(board, words.drop_last());
        if word_found(board, words.last()@) {
            rest.push(words.last())
        } else {
            rest
        }
    }
}

/// The character `c` appears on the board.
pub open spec fn on_board(board: Seq<Vec<char>>, c: char) -> bool {
    exists|x: int, y: int| 0 <= x < board.len() && 0 <= y < width(board) && #[trigger] board[x]@[y] == c
}

proof fn lemma_extend_on_board(board: Seq<Vec<char>>, chars: Seq<char>, k: int, x: int, y: int, used: Set<usize>, j: int)
    requires
        can_extend(board, chars, k, x, y, used),
        0 <= k <= j < chars.len(),
    ensures
        on_board(board, chars[j]),
    decreases chars.len() - k,
{
    let d = if try_dir(board, chars, k, x, y, used, 0) {
        0
    } else if try_dir(board, chars, k, x, y, used, 1) {
        1
    } else if try_dir(board, chars, k, x, y, used, 2) {
        2
    } else {
        3
    };
    let nx = x + dir_dx(d);
    let ny = y + dir_dy(d);
    assert(try_dir(board, chars, k, x, y, used, d));
    if j == k {
        assert(board[nx]@[ny] == chars[j]);
    } else {
        lemma_extend_on_board(board, chars, k + 1, nx, ny, used.insert(key(board, nx, ny)), j);
    }
}

/// The step of direction `d`: right, down, left, up.
fn direction(d: usize) -> (r: (isize, isize))
    requires
        d < 4,
    ensures
        r.0 == dir_dx(d as int),
        r.1 == dir_dy(d as int),
{
    match d {
        0 => (0, 1),
        1 => (1, 0),
        2 => (0, -1),
        _ => (-1, 0),
    }
}

/// Whether the character `c` appears on the board.
fn board_has(board: &Vec<Vec<char>>, c: char) -> (r: bool)
    requires
        rectangular(board@),
    ensures
        r == on_board(board@, c),
{
    let mut x: usize = 0;
    while x < board.len()
        invariant
            x <= board@.len(),
            rectangular(board@),
            forall|x2: int, y2: int| 0 <= x2 < x && 0 <= y2 < width(board@) ==> #[trigger] board@[x2]@[y2] != c,
        decreases board@.len() - x,
    {
        let row = &board[x];
        let mut y: usize = 0;
        while y < row.len()
            invariant
                x < board@.len(),
                y <= row@.len(),
                row == &board@[x as int],
                rectangular(board@),
                forall|x2: int, y2: int| 0 <= x2 < x && 0 <= y2 < width(board@) ==> #[trigger] board@[x2]@[y2] != c,
                forall|y2: int| 0 <= y2 < y ==> #[trigger] board@[x as int]@[y2] != c,
            decreases row@.len() - y,
        {
            if row[y] == c {
                assert(board@[x as int]@[y as int] == c);
                return true;
            }
            y += 1;
        }
        x += 1;
    }
    false
}

impl Solution {
    /// The words of `words` that can be traced on `board` by moves between
    /// neighbouring squares (up, down, left, right) that never visit a square
    /// twice, sorted.
    pub fn find_words(board: Vec<Vec<char>>, words: Vec<String>) -> (res: Vec<String>)
        requires
            rectangular(board@),
            board@.len() * width(board@) <= usize::MAX,
            forall|i: int| 0 <= i < words@.len() ==> (#[trigger] words@[i])@.len() >= 1,
        ensures
            sorted_strings(res@),
            res@.to_multiset() == found_words(board@, words@).to_multiset(),
    {
        let n = board[0].len();
        let mut res: Vec<String> = Vec::new();
        let mut w: usize = 0;
        while w < words.len()
            invariant
                w <= words@.len(),
                n == width(board@),
                rectangular(board@),
                board@.len() * width(board@) <= usize::MAX,
                forall|i: int| 0 <= i < words@.len() ==> (#[trigger] words@[i])@.len() >= 1,
                res@ == found_words(board@, words@.take(w as int)),
            decreases words@.len() - w,
        {
            let word = words[w].clone();
            let chars = chars_of(word.as_str());
            proof {
                assert(words@.take(w + 1).drop_last() =~= words@.take(w as int));
                assert(words@.take(w + 1).last() == words@[w as int]);
            }
            let mut all_present = true;
            let mut ci: usize = 0;
            while ci < chars.len()
                invariant
                    ci <= chars@.len(),
                    rectangular(board@),
                    all_present ==> forall|j: int| 0 <= j < ci ==> on_board(board@, #[trigger] chars@[j]),
                    !all_present ==> exists|j: int| 0 <= j < chars@.len() && !on_board(board@, #[trigger] chars@[j]),
                decreases chars@.len() - ci,
            {
                if !board_has(&board, chars[ci]) {
                    all_present = false;
                }
                ci += 1;
            }
            if !all_present {
                proof {
                    let j = choose|j: int| 0 <= j < chars@.len() && !on_board(board@, #[trigger] chars@[j]);
                    if word_found(board@, chars@) {
                        let (x, y) = choose|x: int, y: int|
                            0 <= x < board@.len() && 0 <= y < width(board@) && #[trigger] board@[x]@[y] == chars@[0]
                                && can_extend(board@, chars@, 1, x, y, Set::empty().insert(key(board@, x, y)));
                        if j == 0 {
                            assert(board@[x]@[y] == chars@[0]);
                        } else {
                            lemma_extend_on_board(board@, chars@, 1, x, y, Set::empty().insert(key(board@, x, y)), j);
                        }
                    }
                }
                w += 1;
                continue;
            }
            let first = chars[0];
            let mut found = false;
            let mut x: usize = 0;
            while x < board.len() && !found
                invariant
                    x <= board@.len(),
                    n == width(board@),
                    rectangular(board@),
                    board@.len() * width(board@) <= usize::MAX,
                    chars@.len() >= 1,
                    first == chars@[0],
                    found ==> word_found(board@, chars@),
                    !found ==> forall|x2: int, y2: int|
                        0 <= x2 < x && 0 <= y2 < n && #[trigger] board@[x2]@[y2] == first ==> !can_extend(
                            board@,
                            chars@,
                            1,
                            x2,
                            y2,
                            Set::empty().insert(key(board@, x2, y2)),
                        ),
                decreases board@.len() - x,
            {
                let mut y: usize = 0;
                while y < n && !found
                    invariant
                        x < board@.len(),
                        y <= n,
                        n == width(board@),
                        rectangular(board@),
                        board@.len() * width(board@) <= usize::MAX,
                        chars@.len() >= 1,
                        first == chars@[0],
                        found ==> word_found(board@, chars@),
                        !found ==> forall|x2: int, y2: int|
                            0 <= x2 < x && 0 <= y2 < n && #[trigger] board@[x2]@[y2] == first ==> !can_extend(
                                board@,
                                chars@,
                                1,
                                x2,
                                y2,
                                Set::empty().insert(key(board@, x2, y2)),
                            ),
                        !found ==> forall|y2: int|
                            0 <= y2 < y && #[trigger] board@[x as int]@[y2] == first ==> !can_extend(
                                board@,
                                chars@,
                                1,
                                x as int,
                                y2,
                                Set::empty().insert(key(board@, x as int, y2)),
                            ),
                    decreases n - y,
                {
                    assert(board@[x as int]@.len() == n);
                    if board[x][y] == first {
                        proof {
                            assert(x * n + y < board@.len() * n) by (nonlinear_arith)
                                requires
                                    x < board@.len(),
                                    y < n,
                            ;
                        }
                        let mut moved: HashSet<usize> = HashSet::new();
                        moved.insert(x * n + y);
                        proof {
                            broadcast use vstd::std_specs::hash::group_hash_axioms;
                            assert(moved@ =~= Set::<usize>::empty().insert((x * n + y) as usize));
                        }
                        if Solution::search(x, y, 1, &board, &chars, &mut moved) {
                            found = true;
                        }
                    }
                    y += 1;
                }
                x += 1;
            }
            proof {
                if !found {
                    assert(!word_found(board@, chars@)) by {
                        if word_found(board@, chars@) {
                            let (x2, y2) = choose|x2: int, y2: int|
                                0 <= x2 < board@.len() && 0 <= y2 < width(board@) && #[trigger] board@[x2]@[y2]
                                    == chars@[0] && can_extend(
                                    board@,
                                    chars@,
                                    1,
                                    x2,
                                    y2,
                                    Set::empty().insert(key(board@, x2, y2)),
                                );
                            assert(board@[x2]@[y2] == first);
                        }
                    }
                }
            }
            if found {
                res.push(word);
            }
            w += 1;
        }
        proof {
            assert(words@.take(words@.len() as int) =~= words@);
        }
        sort_strings(&mut res);
        res
    }

    /// Whether `chars[cidx..]` can be traced from square `(x, y)` without
    /// visiting a square of `moved`; on failure `moved` is left as it was.
    fn search(
        x: usize,
        y: usize,
        cidx: usize,
        board: &Vec<Vec<char>>,
        chars: &Vec<char>,
        moved: &mut HashSet<usize>,
    ) -> (found: bool)
        requires
            rectangular(board@),
            board@.len() * width(board@) <= usize::MAX,
            x < board@.len(),
            y < width(board@),
            cidx <= chars@.len(),
        ensures
            found == can_extend(board@, chars@, cidx as int, x as int, y as int, old(moved)@),
            !found ==> final(moved)@ == old(moved)@,
        decreases chars@.len() - cidx,
    {
        broadcast use vstd::std_specs::hash::group_hash_axioms;

        if chars.len() <= cidx {
            return true;
        }
        let m = board.len();
        let n = board[0].len();
        let c = chars[cidx];
        let clen = chars.len();
        let ghost orig = moved@;
        let mut d: usize = 0;
        while d < 4
            invariant
                d <= 4,
                moved@ == orig,
                orig == old(moved)@,
                rectangular(board@),
                board@.len() * width(board@) <= usize::MAX,
                m == board@.len(),
                n == width(board@),
                x < m,
                y < n,
                cidx < chars@.len(),
                clen == chars@.len(),
                c == chars@[cidx as int],
                forall|d2: int| 0 <= d2 < d ==> !#[trigger] try_dir(board@, chars@, cidx as int, x as int, y as int, orig, d2),
            decreases 4 - d,
        {
            let (lhs, rhs) = direction(d);
            let x2 = x.wrapping_add_signed(lhs);
            let y2 = y.wrapping_add_signed(rhs);
            if m <= x2 || n <= y2 {
                d += 1;
                continue;
            }
            assert(board@[x2 as int]@.len() == n);
            if board[x2][y2] != c {
                d += 1;
                continue;
            }
            proof {
                assert(x2 * n + y2 < m * n) by (nonlinear_arith)
                    requires
                        x2 < m,
                        y2 < n,
                ;
            }
            let idx = x2 * n + y2;
            assert(idx as int == key(board@, x2 as int, y2 as int));
            if moved.contains(&idx) {
                d += 1;
                continue;
            }
            moved.insert(idx);
            if Solution::search(x2, y2, cidx + 1, board, chars, moved) {
                proof {
                    let k = cidx as int;
                    assert(try_dir(board@, chars@, k, x as int, y as int, orig, d as int));
                    if d == 0 {
                        assert(try_dir(board@, chars@, k, x as int, y as int, orig, 0));
                    } else if d == 1 {
                        assert(try_dir(board@, chars@, k, x as int, y as int, orig, 1));
                    } else if d == 2 {
                        assert(try_dir(board@, chars@, k, x as int, y as int, orig, 2));
                    } else {
                        assert(try_dir(board@, chars@, k, x as int, y as int, orig, 3));
                    }
                    assert(can_extend(board@, chars@, k, x as int, y as int, orig));
                }
                return true;
            }
            moved.remove(&idx);
            assert(moved@ =~= orig);
            d += 1;
        }
        proof {
            assert(!try_dir(board@, chars@, cidx as int, x as int, y as int, orig, 0));
            assert(!try_dir(board@, chars@, cidx as int, x as int, y as int, orig, 1));
            assert(!try_dir(board@, chars@, cidx as int, x as int, y as int, orig, 2));
            assert(!try_dir(board@, chars@, cidx as int, x as int, y as int, orig, 3));
        }
        false
    }
}

} // verus!
