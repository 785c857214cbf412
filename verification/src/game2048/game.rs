//! The 2048 game on a 4 x 4 board.
use vstd::prelude::*;
use rand::Rng;

use crate::game2048::slide::{
    line_total, slide, slide_pass_changes, sum, lemma_slide_keeps_total, lemma_total4,
    lemma_total_take, law_slide_changes,
};

verus! {

/// How many squares there are on each side of the board.
pub const SQUARE: usize = 4;

/// The board: `SQUARE` rows of `SQUARE` tiles, 0 meaning an empty square.
pub type Grid = [[u32; SQUARE]; SQUARE];

/// A move of the player.
#[derive(Clone, Copy, Debug)]
pub enum Command {
    Left,
    Up,
    Right,
    Down,
}

/// The state of a game: the board, and whether a move is still possible.
pub struct Game {
    pub alive: bool,
    grid: Grid,
}

/// The tile in row `i`, column `j`.
pub open spec fn cell(g: Grid, i: int, j: int) -> u32 {
    g[i][j]
}

/// Line `k` of the board for a move, read in the direction of the move:
/// the tiles travel towards the end of the line.
pub open spec fn line_of(g: Grid, cmd: Command, k: int) -> Seq<u32> {
    match cmd {
        Command::Down => seq![g[0][k], g[1][k], g[2][k], g[3][k]],
        Command::Up => seq![g[3][k], g[2][k], g[1][k], g[0][k]],
        Command::Left => seq![g[k][3], g[k][2], g[k][1], g[k][0]],
        Command::Right => seq![g[k][0], g[k][1], g[k][2], g[k][3]],
    }
}

/// Sum of all tiles of the board.
pub open spec fn grid_total(g: Grid) -> int {
    g[0][0] + g[0][1] + g[0][2] + g[0][3] + g[1][0] + g[1][1] + g[1][2] + g[1][3] + g[2][0]
        + g[2][1] + g[2][2] + g[2][3] + g[3][0] + g[3][1] + g[3][2] + g[3][3]
}

/// The board `after` is `before` moved by `cmd`: every line slid to its end.
pub open spec fn moved(before: Grid, after: Grid, cmd: Command) -> bool {
    forall|k: int| 0 <= k < 4 ==> #[trigger] line_of(after, cmd, k) == slide(line_of(before, cmd, k))
}

/// Whether the move `cmd` changes some line of the board.
pub open spec fn move_changes(g: Grid, cmd: Command) -> bool {
    exists|k: int| 0 <= k < 4 && #[trigger] slide_pass_changes(line_of(g, cmd, k))
}

/// Some square is empty.
pub open spec fn has_empty(g: Grid) -> bool {
    exists|i: int, j: int| 0 <= i < 4 && 0 <= j < 4 && #[trigger] g[i][j] == 0
}

/// Two neighbouring squares, in a row or in a column, hold the same tile.
pub open spec fn has_equal_neighbours(g: Grid) -> bool {
    exists|i: int, j: int|
        0 <= i < 4 && 0 <= j < 4 && ((j < 3 && #[trigger] g[i][j] == g[i][j + 1]) || (i < 3
            && g[i][j] == g[i + 1][j]))
}

/// A move is still possible on the board.
pub open spec fn can_move(g: Grid) -> bool {
    has_empty(g) || has_equal_neighbours(g)
}

/// The empty squares of the first `n` squares in row-major order.
pub open spec fn empty_squares_upto(g: Grid, n: int) -> Seq<(int, int)>
    decreases n,
{
    if n <= 0 {
        Seq::empty()
    } else {
        let rest = empty_squares_upto(g, n - 1);
        let (i, j) = ((n - 1) / 4, (n - 1) % 4);
        if g[i][j] == 0 {
            rest.push((i, j))
        } else {
            rest
        }
    }
}

/// The empty squares of the board in row-major order.
pub open spec fn empty_squares(g: Grid) -> Seq<(int, int)> {
    empty_squares_upto(g, 16)
}

/// `after` is `before` with the tile in row `i`, column `j` set to `v`.
pub open spec fn grid_set(before: Grid, after: Grid, i: int, j: int, v: u32) -> bool {
    forall|a: int, b: int|
        0 <= a < 4 && 0 <= b < 4 ==> #[trigger] after[a][b] == if a == i && b == j {
            v
        } else {
            before[a][b]
        }
}

/// The tile that a roll of the ten-sided die places: 2 on 0..=5, else 4.
pub open spec fn tile_for_roll(roll: int) -> u32 {
    if roll < 6 {
        2
    } else {
        4
    }
}

/// `after` is `before` with one empty square filled with a 2 or a 4, or
/// `before` itself where no square is empty.
pub open spec fn one_tile_added(before: Grid, after: Grid) -> bool {
    if empty_squares(before).len() == 0 {
        after == before
    } else {
        exists|p: int, roll: int|
            0 <= p < empty_squares(before).len() && 0 <= roll < 10 && grid_set(
                before,
                after,
                empty_squares(before)[p].0,
                empty_squares(before)[p].1,
                tile_for_roll(roll),
            )
    }
}

/// A number taken uniformly at random from `0..bound`.
///
/// Calls `rand::Rng::gen_range` on `rand::thread_rng()`; the contract claims only
/// that the number is below `bound`, which `gen_range` guarantees for a non-empty range.
#[verifier::external_body]
fn random_below(bound: usize) -> (r: usize)
    requires
        bound > 0,
    ensures
        r < bound,
{
    rand::thread_rng().gen_range(0..bound)
}

/// Sum of the tiles of the first `i` rows.
pub open spec fn rows_total(g: Grid, i: int) -> int
    decreases i,
{
    if i <= 0 {
        0
    } else {
        rows_total(g, i - 1) + line_total(g[i - 1]@)
    }
}

proof fn lemma_rows_total(g: Grid)
    ensures
        rows_total(g, 4) == grid_total(g),
{
    lemma_total4(g[0]@);
    lemma_total4(g[1]@);
    lemma_total4(g[2]@);
    lemma_total4(g[3]@);
    assert(rows_total(g, 0) == 0);
    assert(rows_total(g, 1) == rows_total(g, 0) + line_total(g[0]@));
    assert(rows_total(g, 2) == rows_total(g, 1) + line_total(g[1]@));
    assert(rows_total(g, 3) == rows_total(g, 2) + line_total(g[2]@));
    assert(rows_total(g, 4) == rows_total(g, 3) + line_total(g[3]@));
}

proof fn lemma_rows_total_mono(g: Grid, i: int, n: int)
    requires
        0 <= i <= n <= 4,
    ensures
        rows_total(g, i) <= rows_total(g, n),
    decreases n,
{
    if n > i {
        lemma_rows_total_mono(g, i, n - 1);
        crate::game2048::slide::lemma_total_nonneg(g[n - 1]@);
    }
}

proof fn lemma_total_prefix_le(s: Seq<u32>, j: int)
    requires
        0 <= j <= s.len(),
    ensures
        line_total(s.take(j)) <= line_total(s),
    decreases s.len() - j,
{
    if j < s.len() {
        lemma_total_take(s, j);
        lemma_total_prefix_le(s, j + 1);
    } else {
        assert(s.take(j) =~= s);
    }
}

proof fn lemma_empty_squares_bounds(g: Grid, n: int)
    requires
        0 <= n <= 16,
    ensures
        empty_squares_upto(g, n).len() <= n,
        forall|p: int|
            0 <= p < empty_squares_upto(g, n).len() ==> {
                let (i, j) = #[trigger] empty_squares_upto(g, n)[p];
                &&& 0 <= i < 4
                &&& 0 <= j < 4
                &&& i * 4 + j < n
                &&& g[i][j] == 0
            },
    decreases n,
{
    if n > 0 {
        lemma_empty_squares_bounds(g, n - 1);
    }
}

impl Default for Game {
    /// An empty board, on which the game is alive.
    fn default() -> (res: Self)
        ensures
            res.alive_flag(),
            forall|i: int, j: int| 0 <= i < 4 && 0 <= j < 4 ==> #[trigger] res.board()[i][j] == 0,
    {
        Self { alive: true, grid: [[0;SQUARE];SQUARE] }
    }
}

impl Game {
    /// The board.
    pub closed spec fn board(&self) -> Grid {
        self.grid
    }

    /// Whether a move was still possible after the last move.
    pub closed spec fn alive_flag(&self) -> bool {
        self.alive
    }

    /// The score: the sum of all tiles.
    pub fn get_score(&self) -> (score: u32)
        requires
            grid_total(self.board()) <= u32::MAX,
        ensures
            score == grid_total(self.board()),
    {
        let mut sum: u32 = 0;
        let mut i: usize = 0;
        proof {
            lemma_rows_total(self.grid);
        }
        while i < SQUARE
            invariant
                i <= 4,
                grid_total(self.grid) <= u32::MAX,
                grid_total(self.grid) == rows_total(self.grid, 4),
                sum == rows_total(self.grid, i as int),
            decreases 4 - i,
        {
            let row = self.grid[i];
            let mut j: usize = 0;
            proof {
                lemma_rows_total_mono(self.grid, i as int + 1, 4);
                assert(row@.take(0) =~= Seq::<u32>::empty());
                assert(row@.take(4) =~= row@);
            }
            while j < SQUARE
                invariant
                    i < 4,
                    j <= 4,
                    row == self.grid[i as int],
                    rows_total(self.grid, i as int) + line_total(row@) <= u32::MAX,
                    row@.take(4) == row@,
                    sum == rows_total(self.grid, i as int) + line_total(row@.take(j as int)),
                decreases 4 - j,
            {
                proof {
                    lemma_total_take(row@, j as int);
                    lemma_total_prefix_le(row@, j as int + 1);
                }
                sum = sum + row[j];
                j += 1;
            }
            i += 1;
        }
        sum
    }

    /// A copy of the board.
    pub fn get_grid(&self) -> (g: Grid)
        ensures
            g == self.board(),
    {
        self.grid
    }

    /// Starts a game: two random empty squares receive a 2 or a 4 each.
    pub fn start(&mut self)
        ensures
            final(self).alive_flag() == old(self).alive_flag(),
            exists|g: Grid| one_tile_added(old(self).board(), g) && one_tile_added(g, final(self).board()),
    {
        let ghost g0 = self.grid;
        self.random_insert();
        let ghost g1 = self.grid;
        self.random_insert();
        assert(one_tile_added(g0, g1) && one_tile_added(g1, self.grid));
    }

    /// Places a tile on the empty square number `pick` (row-major order): a 2
    /// where `roll < 6`, else a 4.  A full board is left as it is.
    pub fn place_tile(&mut self, pick: usize, roll: usize)
        requires
            empty_squares(old(self).board()).len() > 0 ==> pick < empty_squares(old(self).board()).len(),
        ensures
            final(self).alive_flag() == old(self).alive_flag(),
            empty_squares(old(self).board()).len() == 0 ==> final(self).board() == old(self).board(),
            empty_squares(old(self).board()).len() > 0 ==> grid_set(
                old(self).board(),
                final(self).board(),
                empty_squares(old(self).board())[pick as int].0,
                empty_squares(old(self).board())[pick as int].1,
                tile_for_roll(roll as int),
            ),
    {
        let mut vec: Vec<(usize, usize)> = Vec::new();
        let mut i: usize = 0;
        while i < SQUARE
            invariant
                i <= 4,
                self.grid == old(self).board(),
                vec@.len() == empty_squares_upto(self.grid, (i * 4) as int).len(),
                forall|p: int| 0 <= p < vec@.len() ==>
                    (#[trigger] vec@[p]).0 as int == empty_squares_upto(self.grid, (i * 4) as int)[p].0
                    && vec@[p].1 as int == empty_squares_upto(self.grid, (i * 4) as int)[p].1,
            decreases 4 - i,
        {
            let mut j: usize = 0;
            while j < SQUARE
                invariant
                    i < 4,
                    j <= 4,
                    self.grid == old(self).board(),
                    vec@.len() == empty_squares_upto(self.grid, (i * 4 + j) as int).len(),
                    forall|p: int| 0 <= p < vec@.len() ==>
                        (#[trigger] vec@[p]).0 as int == empty_squares_upto(self.grid, (i * 4 + j) as int)[p].0
                        && vec@[p].1 as int == empty_squares_upto(self.grid, (i * 4 + j) as int)[p].1,
                decreases 4 - j,
            {
                assert((i * 4 + j) / 4 == i && (i * 4 + j) % 4 == j) by (nonlinear_arith)
                    requires j < 4;
                if self.grid[i][j] == 0 {
                    vec.push((i, j));
                }
                j += 1;
            }
            i += 1;
        }
        proof {
            lemma_empty_squares_bounds(self.grid, 16);
        }
        let len = vec.len();
        if len == 0 {
            return;
        }
        let (i, j) = vec[pick];
        let val = if roll < 6 { 2 } else { 4 };
        self.grid[i][j] = val;
    }

    /// Fills a random empty square with a 2 (six times in ten) or a 4.
    pub fn random_insert(&mut self)
        ensures
            final(self).alive_flag() == old(self).alive_flag(),
            one_tile_added(old(self).board(), final(self).board()),
    {
        let mut count: usize = 0;
        let mut i: usize = 0;
        while i < SQUARE
            invariant
                i <= 4,
                count == empty_squares_upto(self.grid, (i * 4) as int).len(),
            decreases 4 - i,
        {
            let mut j: usize = 0;
            while j < SQUARE
                invariant
                    i < 4,
                    j <= 4,
                    count == empty_squares_upto(self.grid, (i * 4 + j) as int).len(),
                decreases 4 - j,
            {
                assert((i * 4 + j) / 4 == i && (i * 4 + j) % 4 == j) by (nonlinear_arith)
                    requires j < 4;
                proof {
                    lemma_empty_squares_bounds(self.grid, (i * 4 + j) as int);
                }
                if self.grid[i][j] == 0 {
                    count += 1;
                }
                j += 1;
            }
            i += 1;
        }
        if count == 0 {
            return;
        }
        let pick = random_below(count);
        let roll = random_below(10);
        self.place_tile(pick, roll);
    }

    /// Reads line `k` of the board for the move `cmd`.
    fn read_line(&self, cmd: Command, k: usize) -> (v: Vec<u32>)
        requires
            k < 4,
        ensures
            v@ == line_of(self.grid, cmd, k as int),
    {
        let g = &self.grid;
        let mut v: Vec<u32> = Vec::new();
        match cmd {
            Command::Down => {
                v.push(g[0][k]);
                v.push(g[1][k]);
                v.push(g[2][k]);
                v.push(g[3][k]);
            },
            Command::Up => {
                v.push(g[3][k]);
                v.push(g[2][k]);
                v.push(g[1][k]);
                v.push(g[0][k]);
            },
            Command::Left => {
                v.push(g[k][3]);
                v.push(g[k][2]);
                v.push(g[k][1]);
                v.push(g[k][0]);
            },
            Command::Right => {
                v.push(g[k][0]);
                v.push(g[k][1]);
                v.push(g[k][2]);
                v.push(g[k][3]);
            },
        }
        assert(v@ =~= line_of(self.grid, cmd, k as int));
        v
    }

    /// Writes line `k` of the board for the move `cmd`.
    fn write_line(&mut self, cmd: Command, k: usize, res: &Vec<u32>)
        requires
            k < 4,
            res@.len() == 4,
        ensures
            final(self).alive_flag() == old(self).alive_flag(),
            line_of(final(self).board(), cmd, k as int) == res@,
            forall|k2: int|
                0 <= k2 < 4 && k2 != k ==> #[trigger] line_of(final(self).board(), cmd, k2)
                    == line_of(old(self).board(), cmd, k2),
            grid_total(final(self).board()) == grid_total(old(self).board()) - (line_of(old(self).board(), cmd, k as int)[0]
                + line_of(old(self).board(), cmd, k as int)[1] + line_of(old(self).board(), cmd, k as int)[2]
                + line_of(old(self).board(), cmd, k as int)[3]) + (res@[0] + res@[1] + res@[2] + res@[3]),
    {
        match cmd {
            Command::Down => {
                self.grid[0][k] = res[0];
                self.grid[1][k] = res[1];
                self.grid[2][k] = res[2];
                self.grid[3][k] = res[3];
            },
            Command::Up => {
                self.grid[0][k] = res[3];
                self.grid[1][k] = res[2];
                self.grid[2][k] = res[1];
                self.grid[3][k] = res[0];
            },
            Command::Left => {
                self.grid[k][0] = res[3];
                self.grid[k][1] = res[2];
                self.grid[k][2] = res[1];
                self.grid[k][3] = res[0];
            },
            Command::Right => {
                self.grid[k][0] = res[0];
                self.grid[k][1] = res[1];
                self.grid[k][2] = res[2];
                self.grid[k][3] = res[3];
            },
        }
        assert(line_of(self.grid, cmd, k as int) =~= res@);
        assert forall|k2: int| 0 <= k2 < 4 && k2 != k implies #[trigger] line_of(self.grid, cmd, k2)
            == line_of(old(self).board(), cmd, k2) by {
            assert(line_of(self.grid, cmd, k2) =~= line_of(old(self).board(), cmd, k2));
        }
    }

    /// Moves every line of the board in the direction of `cmd`; returns
    /// whether the first pass over some line changed it, which is whether
    /// the board changed.
    pub fn do_next_tick(&mut self, cmd: Command) -> (changed: bool)
        requires
            grid_total(old(self).board()) <= u32::MAX,
        ensures
            final(self).alive_flag() == old(self).alive_flag(),
            moved(old(self).board(), final(self).board(), cmd),
            changed == move_changes(old(self).board(), cmd),
            changed == grids_differ(final(self).board(), old(self).board()),
            grid_total(final(self).board()) == grid_total(old(self).board()),
    {
        let ghost g0 = self.grid;
        let mut changed = false;
        let mut k: usize = 0;
        while k < SQUARE
            invariant
                k <= 4,
                self.alive == old(self).alive,
                grid_total(self.grid) == grid_total(g0),
                grid_total(g0) <= u32::MAX,
                forall|k2: int| 0 <= k2 < k ==> #[trigger] line_of(self.grid, cmd, k2) == slide(line_of(g0, cmd, k2)),
                forall|k2: int| k <= k2 < 4 ==> #[trigger] line_of(self.grid, cmd, k2) == line_of(g0, cmd, k2),
                changed == exists|k2: int| 0 <= k2 < k && #[trigger] slide_pass_changes(line_of(g0, cmd, k2)),
            decreases 4 - k,
        {
            let line = self.read_line(cmd, k);
            let ghost l = line@;
            proof {
                lemma_total4(l);
            }
            assert(line_total(l) <= grid_total(self.grid));
            let (added, res) = sum(line);
            proof {
                lemma_slide_keeps_total(l);
                let r = res@;
                lemma_total4(r);
            }
            self.write_line(cmd, k, &res);
            changed = changed || added;
            k += 1;
        }
        proof {
            law_move_changed(g0, self.grid, cmd);
        }
        changed
    }

    /// Whether a move is still possible: an empty square, or two neighbouring
    /// squares with the same tile.
    fn check_alive(&self) -> (alive: bool)
        ensures
            alive == can_move(self.grid),
    {
        let g = &self.grid;
        let mut i: usize = 0;
        while i < SQUARE
            invariant
                i <= 4,
                g == &self.grid,
                forall|i2: int, j2: int| 0 <= i2 < i && 0 <= j2 < 4 ==> #[trigger] g[i2][j2] != 0,
            decreases 4 - i,
        {
            let mut j: usize = 0;
            while j < SQUARE
                invariant
                    i < 4,
                    j <= 4,
                    g == &self.grid,
                    forall|i2: int, j2: int| 0 <= i2 < i && 0 <= j2 < 4 ==> #[trigger] g[i2][j2] != 0,
                    forall|j2: int| 0 <= j2 < j ==> #[trigger] g[i as int][j2] != 0,
                decreases 4 - j,
            {
                if g[i][j] == 0 {
                    return true;
                }
                j += 1;
            }
            i += 1;
        }
        assert(!has_empty(self.grid));

        let mut i: usize = 0;
        while i < SQUARE
            invariant
                i <= 4,
                g == &self.grid,
                !has_empty(self.grid),
                forall|i2: int, j2: int| 0 <= i2 < i && 0 <= j2 < 4 ==>
                    (j2 < 3 ==> #[trigger] g[i2][j2] != g[i2][j2 + 1]) && (i2 < 3 ==> g[i2][j2] != g[i2 + 1][j2]),
            decreases 4 - i,
        {
            let mut j: usize = 0;
            while j < SQUARE
                invariant
                    i < 4,
                    j <= 4,
                    g == &self.grid,
                    !has_empty(self.grid),
                    forall|i2: int, j2: int| 0 <= i2 < i && 0 <= j2 < 4 ==>
                        (j2 < 3 ==> #[trigger] g[i2][j2] != g[i2][j2 + 1]) && (i2 < 3 ==> g[i2][j2] != g[i2 + 1][j2]),
                    forall|j2: int| 0 <= j2 < j ==>
                        (j2 < 3 ==> #[trigger] g[i as int][j2] != g[i as int][j2 + 1]) && (i < 3 ==> g[i as int][j2] != g[i + 1][j2]),
                decreases 4 - j,
            {
                let x = g[i][j];
                assert(x != 0);
                let left = if j != 0 { g[i][j - 1] } else { 0 };
                let up = if i != 0 { g[i - 1][j] } else { 0 };
                let down = if i < SQUARE - 1 { g[i + 1][j] } else { 0 };
                let right = if j < SQUARE - 1 { g[i][j + 1] } else { 0 };
                if x == left || x == right || x == up || x == down {
                    proof {
                        if x == left {
                            assert(j > 0 && g[i as int][j - 1] == g[i as int][(j - 1) + 1]);
                        } else if x == right {
                            assert(g[i as int][j as int] == g[i as int][j + 1]);
                        } else if x == up {
                            assert(i > 0 && g[i - 1][j as int] == g[(i - 1) + 1][j as int]);
                        } else {
                            assert(g[i as int][j as int] == g[i + 1][j as int]);
                        }
                    }
                    return true;
                }
                j += 1;
            }
            i += 1;
        }
        false
    }

    /// Plays the move `cmd`: every line slides, the game is alive while a move
    /// remains possible, and where the move changed the board and the game is
    /// alive a random empty square receives a 2 or a 4.
    pub fn next_tick(&mut self, cmd: Command)
        requires
            grid_total(old(self).board()) <= u32::MAX,
        ensures
            exists|m: Grid| {
                &&& moved(old(self).board(), m, cmd)
                &&& grid_total(m) == grid_total(old(self).board())
                &&& final(self).alive_flag() == can_move(m)
                &&& if can_move(m) && move_changes(old(self).board(), cmd) {
                    one_tile_added(m, final(self).board())
                } else {
                    final(self).board() == m
                }
            },
    {
        let grid_change = self.do_next_tick(cmd);
        let ghost m = self.grid;
        self.alive = self.check_alive();
        if self.alive && grid_change {
            self.random_insert();
        }
    }
}

/// A move keeps the sum of the tiles of each line.
proof fn lemma_line_keeps_total(before: Grid, after: Grid, cmd: Command, k: int)
    requires
        0 <= k < 4,
        grid_total(before) <= u32::MAX,
        moved(before, after, cmd),
    ensures
        line_total(line_of(after, cmd, k)) == line_total(line_of(before, cmd, k)),
        line_total(line_of(after, cmd, k)) == line_of(after, cmd, k)[0] + line_of(after, cmd, k)[1]
            + line_of(after, cmd, k)[2] + line_of(after, cmd, k)[3],
        line_total(line_of(before, cmd, k)) == line_of(before, cmd, k)[0] + line_of(before, cmd, k)[1]
            + line_of(before, cmd, k)[2] + line_of(before, cmd, k)[3],
{
    let l = line_of(before, cmd, k);
    lemma_total4(l);
    assert(line_total(l) <= u32::MAX);
    lemma_slide_keeps_total(l);
    assert(line_of(after, cmd, k) == slide(l));
    lemma_total4(line_of(after, cmd, k));
}

/// A move keeps the sum of the tiles.
pub proof fn law_move_keeps_score(before: Grid, after: Grid, cmd: Command)
    requires
        grid_total(before) <= u32::MAX,
        moved(before, after, cmd),
    ensures
        grid_total(after) == grid_total(before),
{
    lemma_line_keeps_total(before, after, cmd, 0);
    lemma_line_keeps_total(before, after, cmd, 1);
    lemma_line_keeps_total(before, after, cmd, 2);
    lemma_line_keeps_total(before, after, cmd, 3);
}

/// Some square holds a different tile on the two boards.
pub open spec fn grids_differ(a: Grid, b: Grid) -> bool {
    exists|i: int, j: int| 0 <= i < 4 && 0 <= j < 4 && #[trigger] a[i][j] != b[i][j]
}

/// Where two boards differ at some place of a line, they differ.
proof fn lemma_line_differs(a: Grid, b: Grid, cmd: Command, k: int, t: int)
    requires
        0 <= k < 4,
        0 <= t < 4,
        line_of(a, cmd, k)[t] != line_of(b, cmd, k)[t],
    ensures
        grids_differ(a, b),
{
    match cmd {
        Command::Down => assert(a[t][k] != b[t][k]),
        Command::Up => assert(a[3 - t][k] != b[3 - t][k]),
        Command::Left => assert(a[k][3 - t] != b[k][3 - t]),
        Command::Right => assert(a[k][t] != b[k][t]),
    }
}

/// Where every line of a move is the same on two boards, no square differs.
proof fn lemma_lines_same(a: Grid, b: Grid, cmd: Command)
    requires
        forall|k: int| 0 <= k < 4 ==> #[trigger] line_of(a, cmd, k) == line_of(b, cmd, k),
    ensures
        !grids_differ(a, b),
{
    assert forall|i: int, j: int| 0 <= i < 4 && 0 <= j < 4 implies #[trigger] a[i][j] == b[i][j] by {
        match cmd {
            Command::Down => assert(line_of(a, cmd, j)[i] == line_of(b, cmd, j)[i]),
            Command::Up => assert(line_of(a, cmd, j)[3 - i] == line_of(b, cmd, j)[3 - i]),
            Command::Left => assert(line_of(a, cmd, i)[3 - j] == line_of(b, cmd, i)[3 - j]),
            Command::Right => assert(line_of(a, cmd, i)[j] == line_of(b, cmd, i)[j]),
        }
    }
}

/// A move changes the board exactly when its first pass changes some line:
/// the flag that a move reports is whether the board changed.
pub proof fn law_move_changed(before: Grid, after: Grid, cmd: Command)
    requires
        moved(before, after, cmd),
    ensures
        move_changes(before, cmd) <==> grids_differ(after, before),
{
    if move_changes(before, cmd) {
        let k = choose|k: int| 0 <= k < 4 && #[trigger] slide_pass_changes(line_of(before, cmd, k));
        let l = line_of(before, cmd, k);
        law_slide_changes(l);
        assert(line_of(after, cmd, k) == slide(l));
        assert(line_of(after, cmd, k).len() == 4);
        if forall|t: int| 0 <= t < 4 ==> line_of(after, cmd, k)[t] == l[t] {
            assert(line_of(after, cmd, k) =~= l);
        }
        let t = choose|t: int| 0 <= t < 4 && line_of(after, cmd, k)[t] != l[t];
        lemma_line_differs(after, before, cmd, k, t);
    } else {
        assert forall|k: int| 0 <= k < 4 implies #[trigger] line_of(after, cmd, k) == line_of(
            before,
            cmd,
            k,
        ) by {
            law_slide_changes(line_of(before, cmd, k));
        }
        lemma_lines_same(after, before, cmd);
    }
}

} // verus!
