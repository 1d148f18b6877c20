//! The heuristic: how far a board is from the goal.

use vstd::prelude::*;
use crate::board::{appears, is_board, lemma_cell_of_index, lemma_index_of_cell, values};
use crate::config::{Config, HAMMING, LINEAR_CONFLICT, TILES_OUT_OF_ROW_AND_COLUMN};
use crate::goal::{
    goal_col, goal_row, goal_table, goal_value_at, goal_values, lemma_index_of_spiral,
    lemma_spiral_in_grid, lemma_spiral_of_index, spiral_index,
};
use crate::puzzle::{Elem, Node, Puzzle};
use crate::tile::Number;

verus! {

/// The largest side that a search takes: every score of such a board,
/// together with any depth that a search reaches, fits an `i32`.
pub const MAX_LEN: usize = 512;

/// The deepest that a node can lie, which is also the number of boards
/// that one search can close.
pub const MAX_STATES: i32 = 0x4000_0000;

/// One value below `n * n` on each of the `n * n` cells.
pub open spec fn in_range(n: int, vals: Seq<int>) -> bool {
    &&& n >= 1
    &&& vals.len() == n * n
    &&& forall|i: int| 0 <= i < vals.len() ==> 0 <= #[trigger] vals[i] < n * n
}

/// The distance between two rows or two columns.
pub open spec fn gap(a: int, b: int) -> int {
    if a < b {
        b - a
    } else {
        a - b
    }
}

/// The cell at index `i` holds a tile whose goal row is `row`.
pub open spec fn belongs_to_row(n: int, vals: Seq<int>, i: int, row: int) -> bool {
    vals[i] != 0 && goal_row(n, vals[i]) == row
}

/// How many cells of row `row`, in the columns from `from` up to but not
/// including `to`, hold a tile whose goal row is `row`.
pub open spec fn row_conflicts(n: int, vals: Seq<int>, row: int, from: int, to: int) -> int
    decreases to - from,
{
    if to <= from {
        0
    } else {
        row_conflicts(n, vals, row, from, to - 1) + if belongs_to_row(
            n,
            vals,
            row * n + to - 1,
            row,
        ) {
            1int
        } else {
            0int
        }
    }
}

/// The linear conflict of the tile on cell `i`: the tiles that belong to
/// its row and stand between it and its goal column, that column included
/// and its own cell left out.
pub open spec fn linear_conflict(n: int, vals: Seq<int>, i: int) -> int {
    let row = i / n;
    let col = i % n;
    let target = goal_col(n, vals[i]);
    if col > target {
        row_conflicts(n, vals, row, target, col)
    } else {
        row_conflicts(n, vals, row, col + 1, target + 1)
    }
}

/// What the tile on cell `i` adds to the heuristic: nothing for the blank;
/// for any other tile its Manhattan distance, and what each option that is
/// switched on adds to it.
pub open spec fn tile_cost(config: Config, n: int, vals: Seq<int>, i: int) -> int {
    let dif_x = gap(i % n, goal_col(n, vals[i]));
    let dif_y = gap(i / n, goal_row(n, vals[i]));
    if vals[i] == 0 {
        0
    } else {
        dif_x + dif_y + (if config.tiles_out && dif_x != 0 {
            1int
        } else {
            0int
        }) + (if config.tiles_out && dif_y != 0 {
            1int
        } else {
            0int
        }) + (if config.hamming && (dif_x != 0 || dif_y != 0) {
            1int
        } else {
            0int
        }) + (if config.linear_conflict && dif_y == 0 {
            linear_conflict(n, vals, i)
        } else {
            0int
        })
    }
}

/// The heuristic of the first `upto` cells.
pub open spec fn heuristic_upto(config: Config, n: int, vals: Seq<int>, upto: int) -> int
    decreases upto,
{
    if upto <= 0 {
        0
    } else {
        heuristic_upto(config, n, vals, upto - 1) + tile_cost(config, n, vals, upto - 1)
    }
}

/// The heuristic of a board: the sum of what its tiles add.
pub open spec fn heuristic(config: Config, n: int, vals: Seq<int>) -> int {
    heuristic_upto(config, n, vals, vals.len() as int)
}

/// Every non-blank tile of the board is on its goal cell.
pub open spec fn all_home(n: int, vals: Seq<int>) -> bool {
    forall|i: int|
        0 <= i < vals.len() && #[trigger] vals[i] != 0 ==> goal_row(n, vals[i]) == i / n
            && goal_col(n, vals[i]) == i % n
}

/// A stretch of a row holds no more conflicts than cells.
pub proof fn lemma_row_conflicts_bounds(n: int, vals: Seq<int>, row: int, from: int, to: int)
    requires
        from <= to,
    ensures
        0 <= row_conflicts(n, vals, row, from, to) <= to - from,
    decreases to - from,
{
    if from < to {
        lemma_row_conflicts_bounds(n, vals, row, from, to - 1);
    }
}

/// A tile adds nothing when it is at home, and otherwise between one and
/// three times the side.
pub proof fn lemma_tile_cost_bounds(config: Config, n: int, vals: Seq<int>, i: int)
    requires
        in_range(n, vals),
        0 <= i < vals.len(),
    ensures
        0 <= tile_cost(config, n, vals, i) <= 3 * n,
        tile_cost(config, n, vals, i) == 0 <==> (vals[i] != 0 ==> goal_row(n, vals[i]) == i / n
            && goal_col(n, vals[i]) == i % n),
{
    lemma_cell_of_index(n, i);
    if vals[i] != 0 {
        lemma_spiral_in_grid(n, vals[i] - 1);
        let col = i % n;
        let target = goal_col(n, vals[i]);
        if col > target {
            lemma_row_conflicts_bounds(n, vals, i / n, target, col);
        } else {
            lemma_row_conflicts_bounds(n, vals, i / n, col + 1, target + 1);
        }
    }
}

/// The heuristic of the first cells is never negative, at most three times
/// the side for each cell, and zero exactly when their tiles are at home.
pub proof fn lemma_heuristic_upto_bounds(config: Config, n: int, vals: Seq<int>, upto: int)
    requires
        in_range(n, vals),
        0 <= upto <= vals.len(),
    ensures
        0 <= heuristic_upto(config, n, vals, upto) <= 3 * n * upto,
        heuristic_upto(config, n, vals, upto) == 0 <==> (forall|i: int|
            0 <= i < upto && #[trigger] vals[i] != 0 ==> goal_row(n, vals[i]) == i / n && goal_col(
                n,
                vals[i],
            ) == i % n),
    decreases upto,
{
    if upto > 0 {
        lemma_heuristic_upto_bounds(config, n, vals, upto - 1);
        lemma_tile_cost_bounds(config, n, vals, upto - 1);
        assert(3 * n * upto == 3 * n * (upto - 1) + 3 * n) by (nonlinear_arith);
    } else {
        assert(3 * n * upto == 0) by (nonlinear_arith)
            requires
                upto == 0,
        ;
    }
}

/// The heuristic is never negative, and it is zero exactly on the boards
/// whose tiles are all at home, whatever options are switched on.
pub proof fn lemma_heuristic_zero(config: Config, n: int, vals: Seq<int>)
    requires
        in_range(n, vals),
    ensures
        0 <= heuristic(config, n, vals) <= 3 * n * (n * n),
        heuristic(config, n, vals) <= 0 <==> all_home(n, vals),
{
    lemma_heuristic_upto_bounds(config, n, vals, vals.len() as int);
}

/// The scores of a board of side 512 or less stay far below the limit of
/// an `i32`.
proof fn lemma_score_fits(n: int, upto: int)
    by (nonlinear_arith)
    requires
        1 <= n <= 512,
        0 <= upto <= n * n,
    ensures
        0 <= 3 * n * upto <= 402653184,
        3 * n * (upto + 1) == 3 * n * upto + 3 * n,
        n * n <= 262144,
{
}

/// Switching more options on never lowers what a tile adds.
pub proof fn lemma_tile_cost_monotonic(
    fewer: Config,
    more: Config,
    n: int,
    vals: Seq<int>,
    i: int,
)
    requires
        fewer.within(more),
        in_range(n, vals),
        0 <= i < vals.len(),
    ensures
        tile_cost(fewer, n, vals, i) <= tile_cost(more, n, vals, i),
{
    lemma_cell_of_index(n, i);
    if vals[i] != 0 {
        lemma_spiral_in_grid(n, vals[i] - 1);
        let col = i % n;
        let target = goal_col(n, vals[i]);
        if col > target {
            lemma_row_conflicts_bounds(n, vals, i / n, target, col);
        } else {
            lemma_row_conflicts_bounds(n, vals, i / n, col + 1, target + 1);
        }
    }
}

/// Switching more options on never lowers the heuristic of the first
/// cells.
pub proof fn lemma_heuristic_upto_monotonic(
    fewer: Config,
    more: Config,
    n: int,
    vals: Seq<int>,
    upto: int,
)
    requires
        fewer.within(more),
        in_range(n, vals),
        0 <= upto <= vals.len(),
    ensures
        heuristic_upto(fewer, n, vals, upto) <= heuristic_upto(more, n, vals, upto),
    decreases upto,
{
    if upto > 0 {
        lemma_heuristic_upto_monotonic(fewer, more, n, vals, upto - 1);
        lemma_tile_cost_monotonic(fewer, more, n, vals, upto - 1);
    }
}

/// Switching more heuristic options on never lowers the heuristic of a
/// board.
pub proof fn law_more_options_never_lower(fewer: Config, more: Config, n: int, vals: Seq<int>)
    requires
        fewer.within(more),
        in_range(n, vals),
    ensures
        heuristic(fewer, n, vals) <= heuristic(more, n, vals),
{
    lemma_heuristic_upto_monotonic(fewer, more, n, vals, vals.len() as int);
}

impl Puzzle {
    /// Counts the linear conflict of the tile on cell `index` of `tab`.
    pub fn get_linear_conflict(
        &self,
        finalboard: &Vec<Number>,
        tab: &Vec<Number>,
        index: usize,
    ) -> (lc: i32)
        requires
            1 <= self.len <= MAX_LEN,
            finalboard@ == goal_table(self.len as int),
            in_range(self.len as int, values(tab@)),
            index < tab@.len(),
            tab@[index as int].value != 0,
        ensures
            lc == linear_conflict(self.len as int, values(tab@), index as int),
            0 <= lc < self.len,
    {
        let len = self.len;
        let ghost n = len as int;
        let ghost vals = values(tab@);
        proof {
            lemma_cell_of_index(n, index as int);
            lemma_score_fits(n, 0);
            assert(vals[index as int] == tab@[index as int].value);
            lemma_spiral_in_grid(n, vals[index as int] - 1);
        }
        let row = index / len;
        let col = index % len;
        let target = finalboard[(tab[index].value - 1) as usize].x_base as usize;
        let from = if col > target { target } else { col + 1 };
        let to = if col > target { col } else { target + 1 };
        let mut lc: i32 = 0;
        let mut x = from;
        while x < to
            invariant
                n == len,
                1 <= n <= 512,
                vals == values(tab@),
                in_range(n, vals),
                finalboard@ == goal_table(n),
                0 <= row < n,
                from <= x <= to <= n,
                lc == row_conflicts(n, vals, row as int, from as int, x as int),
                0 <= lc <= x - from,
            decreases to - x,
        {
            proof {
                lemma_index_of_cell(n, row as int, x as int);
                lemma_score_fits(n, 0);
            }
            let other = tab[row * len + x].value;
            proof {
                assert(vals[row * n + x] == other);
                if other != 0 {
                    lemma_spiral_in_grid(n, other - 1);
                }
            }
            if other != 0 && finalboard[(other - 1) as usize].y_base as usize == row {
                lc += 1;
            }
            x += 1;
        }
        lc
    }

    /// Scores a node: sets its heuristic from its board, and its total
    /// cost from the heuristic and, unless the search is greedy, its depth.
    pub fn get_heuristics(&self, finalboard: &Vec<Number>, elem: &mut Elem)
        requires
            1 <= self.len <= MAX_LEN,
            self.greedy == 0 || self.greedy == 1,
            finalboard@ == goal_table(self.len as int),
            in_range(self.len as int, values(old(elem).list@)),
            0 <= old(elem).step <= MAX_STATES,
        ensures
            final(elem)@ == (Node {
                glob_heuristic: heuristic(self.config, self.len as int, values(old(elem).list@)),
                total_cost: heuristic(self.config, self.len as int, values(old(elem).list@))
                    + old(elem).step * self.greedy,
                ..old(elem)@
            }),
    {
        let len = self.len;
        let ghost n = len as int;
        let ghost vals = values(elem.list@);
        let mut global_h: i32 = 0;
        let mut i: usize = 0;
        proof {
            lemma_score_fits(n, 0);
        }
        while i < elem.list.len()
            invariant
                n == len,
                len == self.len,
                1 <= n <= 512,
                *elem == *old(elem),
                vals == values(elem.list@),
                in_range(n, vals),
                finalboard@ == goal_table(n),
                0 <= i <= elem.list@.len(),
                global_h == heuristic_upto(self.config, n, vals, i as int),
                0 <= global_h <= 3 * n * i,
            decreases elem.list@.len() - i,
        {
            let e = elem.list[i];
            let mut lc: i32 = 0;
            proof {
                lemma_score_fits(n, i as int);
                lemma_cell_of_index(n, i as int);
                lemma_tile_cost_bounds(self.config, n, vals, i as int);
                assert(vals[i as int] == e.value);
            }
            if e.value != 0 {
                proof {
                    lemma_spiral_in_grid(n, e.value - 1);
                }
                let goal = finalboard[(e.value - 1) as usize];
                let col = (i % len) as i32;
                let row = (i / len) as i32;
                let dif_x = if col < goal.x_base { goal.x_base - col } else { col - goal.x_base };
                let dif_y = if row < goal.y_base { goal.y_base - row } else { row - goal.y_base };
                if self.config.has_option(TILES_OUT_OF_ROW_AND_COLUMN) {
                    if dif_x != 0 {
                        lc += 1;
                    }
                    if dif_y != 0 {
                        lc += 1;
                    }
                }
                if self.config.has_option(HAMMING) && (dif_x != 0 || dif_y != 0) {
                    lc += 1;
                }
                if self.config.has_option(LINEAR_CONFLICT) && dif_y == 0 {
                    lc += self.get_linear_conflict(finalboard, &elem.list, i);
                }
                lc += dif_x + dif_y;
            }
            assert(lc == tile_cost(self.config, n, vals, i as int));
            global_h += lc;
            i += 1;
        }
        proof {
            lemma_score_fits(n, n * n);
            assert(self.greedy == 0 ==> elem.step * self.greedy == 0) by (nonlinear_arith);
            assert(self.greedy == 1 ==> elem.step * self.greedy == elem.step)
                by (nonlinear_arith);
        }
        elem.glob_heuristic = global_h;
        elem.total_cost = global_h + elem.step * self.greedy;
    }
}

/// The goal board is a board, its blank lies on the last cell of the
/// spiral, and all its tiles are at home.
pub proof fn law_goal_is_a_board(n: int)
    requires
        n >= 1,
    ensures
        is_board(n, goal_values(n)),
        all_home(n, goal_values(n)),
        forall|i: int|
            0 <= i < n * n ==> (#[trigger] goal_values(n)[i] == 0 <==> spiral_index(
                n,
                i / n,
                i % n,
            ) == n * n - 1),
{
    let g = goal_values(n);
    lemma_score_positive(n);
    assert forall|i: int| 0 <= i < g.len() implies 0 <= #[trigger] g[i] < n * n && (g[i] != 0
        ==> goal_row(n, g[i]) == i / n && goal_col(n, g[i]) == i % n) && (g[i] == 0
        <==> spiral_index(n, i / n, i % n) == n * n - 1) by {
        lemma_cell_of_index(n, i);
        lemma_spiral_of_index(n, i / n, i % n);
    }
    assert forall|i: int, j: int|
        0 <= i < g.len() && 0 <= j < g.len() && i != j implies #[trigger] g[i]
        != #[trigger] g[j] by {
        lemma_cell_of_index(n, i);
        lemma_cell_of_index(n, j);
        lemma_spiral_of_index(n, i / n, i % n);
        lemma_spiral_of_index(n, j / n, j % n);
    }
    assert forall|v: int| 0 <= v < n * n implies #[trigger] appears(g, v) by {
        let k = if v == 0 { n * n - 1 } else { v - 1 };
        lemma_spiral_in_grid(n, k);
        lemma_index_of_spiral(n, k);
        let i = crate::goal::spiral_row(n, k) * n + crate::goal::spiral_col(n, k);
        lemma_index_of_cell(n, crate::goal::spiral_row(n, k), crate::goal::spiral_col(n, k));
        assert(g[i] == goal_value_at(n, k));
    }
}

/// A board has at least one cell.
proof fn lemma_score_positive(n: int)
    by (nonlinear_arith)
    requires
        n >= 1,
    ensures
        n * n >= 1,
{
}

/// A board whose heuristic is zero or less is the goal board.
pub proof fn law_solved_means_goal(config: Config, n: int, vals: Seq<int>)
    requires
        is_board(n, vals),
    ensures
        heuristic(config, n, vals) <= 0 <==> vals == goal_values(n),
{
    let g = goal_values(n);
    lemma_heuristic_zero(config, n, vals);
    law_goal_is_a_board(n);
    if all_home(n, vals) {
        assert forall|i: int| 0 <= i < vals.len() implies vals[i] == g[i] by {
            lemma_cell_of_index(n, i);
            lemma_spiral_of_index(n, i / n, i % n);
            let k = spiral_index(n, i / n, i % n);
            if vals[i] != 0 {
                lemma_index_of_spiral(n, vals[i] - 1);
            } else if k + 1 != n * n {
                assert(appears(vals, k + 1));
                let j = choose|j: int| 0 <= j < vals.len() && #[trigger] vals[j] == k + 1;
                lemma_cell_of_index(n, j);
            }
        }
        assert(vals =~= g);
    }
}

} // verus!
