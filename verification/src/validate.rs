//! The check that a puzzle is fit to be solved.

use vstd::prelude::*;
use crate::board::{appears, is_board, values};
use crate::heuristic::MAX_LEN;
use crate::puzzle::Puzzle;

verus! {

impl Puzzle {
    /// Whether the puzzle can be handed to `solve_puzzle`: its side is
    /// between 1 and `MAX_LEN`, and `numbers` is a board of that side, with
    /// each value below the number of cells on exactly one cell.
    pub fn is_valid(&self) -> (valid: bool)
        ensures
            valid == (1 <= self.len <= MAX_LEN && is_board(self.len as int, values(self.numbers@))),
    {
        let len = self.len;
        if len < 1 || len > MAX_LEN {
            return false;
        }
        let ghost n = len as int;
        let ghost vals = values(self.numbers@);
        assert(n * n <= 262144) by (nonlinear_arith)
            requires
                1 <= n <= 512,
        ;
        let size = len * len;
        if self.numbers.len() != size {
            return false;
        }
        let mut seen: Vec<bool> = Vec::new();
        while seen.len() < size
            invariant
                seen@.len() <= size,
                forall|v: int| 0 <= v < seen@.len() ==> !seen@[v],
            decreases size - seen@.len(),
        {
            seen.push(false);
        }
        let mut i: usize = 0;
        while i < size
            invariant
                i <= size,
                size == n * n,
                n >= 1,
                vals == values(self.numbers@),
                vals.len() == size,
                seen@.len() == size,
                forall|j: int| 0 <= j < i ==> 0 <= #[trigger] vals[j] < size,
                forall|j: int, k: int|
                    0 <= j < i && 0 <= k < i && j != k ==> #[trigger] vals[j] != #[trigger] vals[k],
                forall|v: int|
                    0 <= v < size ==> (#[trigger] seen@[v] <==> exists|j: int|
                        0 <= j < i && #[trigger] vals[j] == v),
            decreases size - i,
        {
            let value = self.numbers[i].value;
            assert(vals[i as int] == value);
            if value < 0 || value as usize >= size {
                return false;
            }
            if seen[value as usize] {
                proof {
                    let j = choose|j: int| 0 <= j < i && #[trigger] vals[j] == value;
                    assert(vals[j] == vals[i as int]);
                }
                return false;
            }
            let ghost before = seen@;
            seen[value as usize] = true;
            proof {
                assert forall|v: int| 0 <= v < size implies (#[trigger] seen@[v] <==> exists|j: int|
                    0 <= j < i + 1 && #[trigger] vals[j] == v) by {
                    if v == value {
                        assert(vals[i as int] == v);
                    } else if before[v] {
                        let j = choose|j: int| 0 <= j < i && #[trigger] vals[j] == v;
                        assert(0 <= j < i + 1 && vals[j] == v);
                    }
                }
            }
            i += 1;
        }
        let mut v: usize = 0;
        while v < size
            invariant
                v <= size,
                size == n * n,
                n == self.len,
                vals == values(self.numbers@),
                vals.len() == size,
                seen@.len() == size,
                forall|w: int|
                    0 <= w < size ==> (#[trigger] seen@[w] <==> exists|j: int|
                        0 <= j < size && #[trigger] vals[j] == w),
                forall|w: int| 0 <= w < v ==> #[trigger] appears(vals, w),
            decreases size - v,
        {
            if !seen[v] {
                assert(!appears(vals, v as int));
                return false;
            }
            v += 1;
        }
        true
    }
}

} // verus!
