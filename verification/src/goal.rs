//! The goal: the values laid out along a clockwise inward spiral.

use vstd::prelude::*;
use crate::puzzle::Puzzle;
use crate::tile::Number;

verus! {

/// The largest side for which the number of cells fits an `i32`.
pub const MAX_SPIRAL_SIDE: i32 = 46340;

/// Column of the `k`-th cell (from 0) that a clockwise inward spiral visits
/// on a square of side `n`, starting at the top-left corner.
///
/// The outer ring is walked along its top, right, bottom and left edge, each
/// edge without its last corner; what is left is the spiral of the square
/// inside it.
pub open spec fn spiral_col(n: int, k: int) -> int
    decreases n,
{
    let m = n - 1;
    if n <= 1 {
        0
    } else if k < m {
        k
    } else if k < 2 * m {
        m
    } else if k < 3 * m {
        3 * m - k
    } else if k < 4 * m {
        0
    } else {
        1 + spiral_col(n - 2, k - 4 * m)
    }
}

/// Row of the `k`-th cell of the same walk.
pub open spec fn spiral_row(n: int, k: int) -> int
    decreases n,
{
    let m = n - 1;
    if n <= 1 {
        0
    } else if k < m {
        0
    } else if k < 2 * m {
        k - m
    } else if k < 3 * m {
        m
    } else if k < 4 * m {
        4 * m - k
    } else {
        1 + spiral_row(n - 2, k - 4 * m)
    }
}

/// The position in the walk of the cell at `row`, `col`: the inverse of
/// `spiral_row` and `spiral_col`.
pub open spec fn spiral_index(n: int, row: int, col: int) -> int
    decreases n,
{
    let m = n - 1;
    if n <= 1 {
        0
    } else if row == 0 && col < m {
        col
    } else if col == m && row < m {
        m + row
    } else if row == m && col > 0 {
        3 * m - col
    } else if col == 0 {
        4 * m - row
    } else {
        4 * m + spiral_index(n - 2, row - 1, col - 1)
    }
}

/// The value that the goal puts on the `k`-th cell of the walk: `1, 2, ..`
/// in visiting order, and the blank on the last cell.
pub open spec fn goal_value_at(n: int, k: int) -> int {
    if k + 1 == n * n {
        0
    } else {
        k + 1
    }
}

/// Entry `k` of the goal table of side `n`.
pub open spec fn goal_entry(n: int, k: int) -> Number {
    Number {
        value: goal_value_at(n, k) as i32,
        x_base: spiral_col(n, k) as i32,
        y_base: spiral_row(n, k) as i32,
        h: 0,
    }
}

/// The goal table of side `n`: one entry per cell in visiting order, so
/// that entry `v - 1` gives the goal cell of value `v`.
pub open spec fn goal_table(n: int) -> Seq<Number> {
    Seq::new((n * n) as nat, |k: int| goal_entry(n, k))
}

/// Goal column of the tile with value `v >= 1`.
pub open spec fn goal_col(n: int, v: int) -> int {
    spiral_col(n, v - 1)
}

/// Goal row of the tile with value `v >= 1`.
pub open spec fn goal_row(n: int, v: int) -> int {
    spiral_row(n, v - 1)
}

/// The goal board in reading order: the value on each cell, row by row.
pub open spec fn goal_values(n: int) -> Seq<int> {
    Seq::new((n * n) as nat, |i: int| goal_value_at(n, spiral_index(n, i / n, i % n)))
}

/// The square of a number that is at most `bound` is at most the square
/// of `bound`.
pub proof fn lemma_square_bound(n: int, bound: int)
    by (nonlinear_arith)
    requires
        0 <= n <= bound,
    ensures
        0 <= n * n <= bound * bound,
{
}

/// A square without its outer ring is the square of a side two shorter.
proof fn lemma_inner_square(n: int)
    by (nonlinear_arith)
    ensures
        (n - 2) * (n - 2) == n * n - 4 * (n - 1),
{
}

/// The walk stays on the square.
pub proof fn lemma_spiral_in_grid(n: int, k: int)
    requires
        n >= 1,
        0 <= k < n * n,
    ensures
        0 <= spiral_col(n, k) < n,
        0 <= spiral_row(n, k) < n,
    decreases n,
{
    if n >= 2 && k >= 4 * (n - 1) {
        lemma_inner_square(n);
        lemma_square_bound(0, n - 2);
        if n == 2 {
            assert(n * n == 4) by (nonlinear_arith)
                requires
                    n == 2,
            ;
        }
        lemma_spiral_in_grid(n - 2, k - 4 * (n - 1));
    }
}

/// Walking to the `k`-th cell and asking for its position gives `k` back.
pub proof fn lemma_index_of_spiral(n: int, k: int)
    requires
        n >= 1,
        0 <= k < n * n,
    ensures
        spiral_index(n, spiral_row(n, k), spiral_col(n, k)) == k,
    decreases n,
{
    if n >= 2 && k >= 4 * (n - 1) {
        lemma_inner_square(n);
        if n == 2 {
            assert(n * n == 4) by (nonlinear_arith)
                requires
                    n == 2,
            ;
        }
        lemma_spiral_in_grid(n - 2, k - 4 * (n - 1));
        lemma_index_of_spiral(n - 2, k - 4 * (n - 1));
    } else if n == 1 {
        assert(n * n == 1) by (nonlinear_arith)
            requires
                n == 1,
        ;
    }
}

/// Every cell of the square is visited, at the position `spiral_index`.
pub proof fn lemma_spiral_of_index(n: int, row: int, col: int)
    requires
        n >= 1,
        0 <= row < n,
        0 <= col < n,
    ensures
        0 <= spiral_index(n, row, col) < n * n,
        spiral_row(n, spiral_index(n, row, col)) == row,
        spiral_col(n, spiral_index(n, row, col)) == col,
    decreases n,
{
    let m = n - 1;
    if n == 1 {
        assert(n * n == 1) by (nonlinear_arith)
            requires
                n == 1,
        ;
    } else if row == 0 || col == m || row == m || col == 0 {
        assert(4 * (n - 1) <= n * n) by (nonlinear_arith)
            requires
                n >= 2,
        ;
    } else {
        lemma_inner_square(n);
        lemma_spiral_of_index(n - 2, row - 1, col - 1);
    }
}

/// No cell is visited twice.
pub proof fn lemma_spiral_injective(n: int, j: int, k: int)
    requires
        n >= 1,
        0 <= j < n * n,
        0 <= k < n * n,
        spiral_row(n, j) == spiral_row(n, k),
        spiral_col(n, j) == spiral_col(n, k),
    ensures
        j == k,
{
    lemma_index_of_spiral(n, j);
    lemma_index_of_spiral(n, k);
}

/// The place of the value `v` in the goal table of side `n`.
pub open spec fn place_of(n: int, v: int) -> int {
    if v == 0 {
        n * n - 1
    } else {
        v - 1
    }
}

/// The goal table holds every value and visits every cell exactly once,
/// and the blank stands on the last cell of the spiral.
///
/// Every entry lies on the board. No two entries have the same value or
/// the same cell, every value below `n * n` has its entry, and the last
/// entry is the blank. The goal board shows on each cell the value of the
/// entry for that cell.
pub proof fn law_goal_table_is_a_board(n: int)
    requires
        1 <= n <= MAX_SPIRAL_SIDE,
    ensures
        goal_table(n).len() == n * n,
        goal_table(n)[n * n - 1].value == 0,
        forall|k: int|
            0 <= k < n * n ==> {
                &&& 0 <= (#[trigger] goal_table(n)[k]).x_base < n
                &&& 0 <= goal_table(n)[k].y_base < n
                &&& 0 <= goal_table(n)[k].value < n * n
                &&& goal_table(n)[k].value == goal_value_at(n, k)
                &&& goal_table(n)[k].x_base == spiral_col(n, k)
                &&& goal_table(n)[k].y_base == spiral_row(n, k)
                &&& goal_values(n)[goal_table(n)[k].y_base * n + goal_table(n)[k].x_base]
                    == goal_table(n)[k].value
            },
        forall|j: int, k: int|
            0 <= j < n * n && 0 <= k < n * n && j != k ==> {
                &&& (#[trigger] goal_table(n)[j]).value != (#[trigger] goal_table(n)[k]).value
                &&& (goal_table(n)[j].x_base != goal_table(n)[k].x_base || goal_table(n)[j].y_base
                    != goal_table(n)[k].y_base)
            },
        forall|v: int| 0 <= v < n * n ==> goal_table(n)[#[trigger] place_of(n, v)].value == v,
{
    let table = goal_table(n);
    lemma_square_bound(n, MAX_SPIRAL_SIDE as int);
    assert(1 <= n * n) by (nonlinear_arith)
        requires
            1 <= n,
    ;
    assert forall|k: int| 0 <= k < n * n implies {
        &&& 0 <= (#[trigger] table[k]).x_base < n
        &&& 0 <= table[k].y_base < n
        &&& 0 <= table[k].value < n * n
        &&& table[k].value == goal_value_at(n, k)
        &&& table[k].x_base == spiral_col(n, k)
        &&& table[k].y_base == spiral_row(n, k)
        &&& goal_values(n)[table[k].y_base * n + table[k].x_base] == table[k].value
    } by {
        lemma_spiral_in_grid(n, k);
        lemma_index_of_spiral(n, k);
        let row = spiral_row(n, k);
        let col = spiral_col(n, k);
        assert(0 <= row * n + col < n * n && (row * n + col) / n == row && (row * n + col) % n
            == col) by {
            vstd::arithmetic::div_mod::lemma_fundamental_div_mod_converse(
                row * n + col,
                n,
                row,
                col,
            );
            assert(0 <= row * n + col < n * n) by (nonlinear_arith)
                requires
                    n >= 1,
                    0 <= row < n,
                    0 <= col < n,
            ;
        }
    }
    assert forall|j: int, k: int| 0 <= j < n * n && 0 <= k < n * n && j != k implies {
        &&& (#[trigger] table[j]).value != (#[trigger] table[k]).value
        &&& (table[j].x_base != table[k].x_base || table[j].y_base != table[k].y_base)
    } by {
        lemma_spiral_in_grid(n, j);
        lemma_spiral_in_grid(n, k);
        if spiral_row(n, j) == spiral_row(n, k) && spiral_col(n, j) == spiral_col(n, k) {
            lemma_spiral_injective(n, j, k);
        }
    }
}

impl Puzzle {
    /// Builds the goal table for a board of side `size`.
    ///
    /// Entry `k` holds the value `k + 1` (the last entry holds the blank)
    /// together with the column and row of the `k`-th cell of the clockwise
    /// inward spiral.
    pub fn get_last_pos(&self, size: i32) -> (board: Vec<Number>)
        requires
            0 <= size <= MAX_SPIRAL_SIDE,
        ensures
            board@ == goal_table(size as int),
    {
        let mut board: Vec<Number> = Vec::new();
        proof {
            lemma_square_bound(size as int, MAX_SPIRAL_SIDE as int);
        }
        let last_elem: i32 = size * size;
        let mut lo: i32 = 0;
        let mut hi: i32 = size - 1;
        let mut c_x: i32 = 0;
        let mut c_y: i32 = 0;
        let mut x: i32 = 1;
        let ghost n = size as int;
        let ghost mut off: int = 0;
        while x <= last_elem
            invariant
                n == size,
                last_elem == n * n,
                last_elem <= 46340 * 46340,
                1 <= x <= last_elem + 1,
                board@.len() == x - 1,
                forall|k: int| 0 <= k < x - 1 ==> board@[k] == goal_entry(n, k),
                0 <= lo,
                hi == n - 1 - lo,
                0 <= off <= x - 1,
                forall|k: int|
                    k >= off ==> #[trigger] spiral_col(n, k) == lo + spiral_col(
                        n - 2 * lo,
                        k - off,
                    ),
                forall|k: int|
                    k >= off ==> #[trigger] spiral_row(n, k) == lo + spiral_row(
                        n - 2 * lo,
                        k - off,
                    ),
                x <= last_elem ==> {
                    &&& lo <= hi
                    &&& last_elem - off == (hi - lo + 1) * (hi - lo + 1)
                    &&& (x - 1 - off < 4 * (hi - lo) || (hi == lo && x - 1 == off))
                    &&& c_x == spiral_col(n, x - 1)
                    &&& c_y == spiral_row(n, x - 1)
                },
            decreases last_elem + 1 - x,
        {
            let value: i32 = if x != last_elem { x } else { 0 };
            board.push(Number { value: value, x_base: c_x, y_base: c_y, h: 0 });
            if x < last_elem {
                let ghost m = hi - lo;
                assert(m >= 1) by {
                    if m == 0 {
                        assert((hi - lo + 1) * (hi - lo + 1) == 1) by (nonlinear_arith)
                            requires
                                hi - lo == 0,
                        ;
                    }
                }
                if c_y == lo && c_x < hi {
                    c_x += 1;
                } else if c_x == hi && c_y < hi {
                    c_y += 1;
                } else if c_y == hi && c_x > lo {
                    c_x -= 1;
                } else if c_y > lo + 1 {
                    c_y -= 1;
                } else {
                    proof {
                        assert((m + 1) * (m + 1) - 4 * m == (m - 1) * (m - 1))
                            by (nonlinear_arith);
                        if m == 1 {
                            assert((m + 1) * (m + 1) == 4) by (nonlinear_arith)
                                requires
                                    m == 1,
                            ;
                        }
                        assert forall|k: int| k >= off + 4 * m implies #[trigger] spiral_col(
                            n,
                            k,
                        ) == lo + 1 + spiral_col(n - 2 * lo - 2, k - off - 4 * m) by {
                            assert(spiral_col(n - 2 * lo, k - off) == 1 + spiral_col(
                                n - 2 * lo - 2,
                                k - off - 4 * m,
                            ));
                        }
                        assert forall|k: int| k >= off + 4 * m implies #[trigger] spiral_row(
                            n,
                            k,
                        ) == lo + 1 + spiral_row(n - 2 * lo - 2, k - off - 4 * m) by {
                            assert(spiral_row(n - 2 * lo, k - off) == 1 + spiral_row(
                                n - 2 * lo - 2,
                                k - off - 4 * m,
                            ));
                        }
                        off = off + 4 * m;
                    }
                    lo += 1;
                    hi -= 1;
                    c_x += 1;
                }
            }
            x += 1;
        }
        assert(board@ =~= goal_table(n));
        board
    }
}

} // verus!
