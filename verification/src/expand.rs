//! The move generator: the boards one slide away from a node.

use vstd::prelude::*;
use crate::board::{
    copy_board, first_blank, legal, lemma_cell_of_index, lemma_first_blank,
    law_slide_stays_on_board, neighbour, slide, values, Direction,
};
use crate::frontier::lemma_nodes_push;
use crate::goal::goal_table;
use crate::heuristic::{in_range, MAX_LEN, MAX_STATES};
use crate::puzzle::{nodes, Elem, Puzzle};
use crate::search::{expand, is_closed, offer, try_move};
use crate::tile::Number;

verus! {

impl Puzzle {
    /// Whether a board with the values of `board` has been closed.
    pub fn in_close_list(&self, board: &Vec<Number>) -> (found: bool)
        ensures
            found == is_closed(nodes(self.close_l@), values(board@)),
    {
        self.close_l.contains(board)
    }

    /// Slides the blank on cell `z` of `board` to cell `o` and, unless the
    /// new board is closed, pushes it onto the frontier as a child of
    /// `board` at depth `s`.
    pub fn move_elem(&mut self, finalboard: &Vec<Number>, board: &Elem, z: usize, o: usize, s: i32)
        requires
            1 <= old(self).len <= MAX_LEN,
            old(self).greedy == 0 || old(self).greedy == 1,
            finalboard@ == goal_table(old(self).len as int),
            in_range(old(self).len as int, values(board.list@)),
            z < board.list@.len(),
            o < board.list@.len(),
            0 <= s <= MAX_STATES,
        ensures
            final(self).same_puzzle(old(self)),
            final(self).close_l == old(self).close_l,
            final(self).final_list == old(self).final_list,
            nodes(final(self).open_l@) == offer(
                old(self).setting(),
                nodes(old(self).open_l@),
                nodes(old(self).close_l@),
                slide(board.list@, z as int, o as int),
                s as int,
                board.id as int,
            ),
    {
        let mut newboard: Vec<Number> = copy_board(&board.list);
        let moved = newboard[o];
        let blank = newboard[z];
        newboard[z] = Number { value: moved.value, ..blank };
        let neighbour = newboard[o];
        newboard[o] = Number { value: 0, ..neighbour };
        assert(newboard@ == slide(board.list@, z as int, o as int));
        if !self.in_close_list(&newboard) {
            let mut elem: Elem = Elem {
                list: newboard,
                glob_heuristic: 0,
                step: s,
                total_cost: 0,
                id: 0,
                p_id: board.id,
            };
            proof {
                let n = self.len as int;
                let before = values(board.list@);
                let after = values(elem.list@);
                assert forall|i: int| 0 <= i < after.len() implies 0 <= #[trigger] after[i] < n
                    * n by {
                    if i == o {
                    } else if i == z {
                        assert(after[i] == before[o as int]);
                    } else {
                        assert(after[i] == before[i]);
                    }
                }
            }
            self.get_heuristics(finalboard, &mut elem);
            proof {
                lemma_nodes_push(self.open_l@, elem);
            }
            self.open_l.push(elem);
        }
    }

    /// Expands `board`: finds its blank and offers to the frontier, at
    /// depth `step`, the boards that one legal slide up, down, left and
    /// right leads to.
    pub fn find_move(&mut self, finalboard: &Vec<Number>, board: &Elem, step: i32)
        requires
            1 <= old(self).len <= MAX_LEN,
            old(self).greedy == 0 || old(self).greedy == 1,
            finalboard@ == goal_table(old(self).len as int),
            in_range(old(self).len as int, values(board.list@)),
            0 <= step <= MAX_STATES,
        ensures
            final(self).same_puzzle(old(self)),
            final(self).close_l == old(self).close_l,
            final(self).final_list == old(self).final_list,
            nodes(final(self).open_l@) == expand(
                old(self).setting(),
                nodes(old(self).open_l@),
                nodes(old(self).close_l@),
                board@,
                step as int,
            ),
    {
        let len = self.len;
        let ghost n = len as int;
        let ghost vals = values(board.list@);
        let ghost st = self.setting();
        let ghost closed = nodes(self.close_l@);
        let ghost open0 = nodes(self.open_l@);
        assert(n * n <= 262144) by (nonlinear_arith)
            requires
                1 <= n <= 512,
        ;
        let board_size = len * len;
        let mut i: usize = 0;
        while i < board.list.len() && board.list[i].value != 0
            invariant
                i <= board.list@.len(),
                vals == values(board.list@),
                first_blank(vals, 0) == first_blank(vals, i as int),
            decreases board.list@.len() - i,
        {
            assert(vals[i as int] == board.list@[i as int].value);
            i += 1;
        }
        proof {
            lemma_first_blank(vals, 0);
            if i < board.list@.len() {
                assert(vals[i as int] == board.list@[i as int].value);
            }
            assert(i == first_blank(vals, 0));
        }
        if i < board.list.len() {
            proof {
                lemma_cell_of_index(n, i as int);
            }
            // Up
            if i >= len {
                proof {
                    law_slide_stays_on_board(n, i as int, Direction::Up);
                }
                self.move_elem(finalboard, board, i, i - len, step);
            }
            let ghost open1 = nodes(self.open_l@);
            assert(open1 == try_move(st, open0, closed, board@, Direction::Up, step as int));
            // Down
            if i + len < board_size {
                proof {
                    law_slide_stays_on_board(n, i as int, Direction::Down);
                }
                self.move_elem(finalboard, board, i, i + len, step);
            }
            let ghost open2 = nodes(self.open_l@);
            assert(open2 == try_move(st, open1, closed, board@, Direction::Down, step as int));
            // Left
            if i % len != 0 {
                proof {
                    law_slide_stays_on_board(n, i as int, Direction::Left);
                }
                self.move_elem(finalboard, board, i, i - 1, step);
            }
            let ghost open3 = nodes(self.open_l@);
            assert(open3 == try_move(st, open2, closed, board@, Direction::Left, step as int));
            // Right
            if i % len != len - 1 {
                proof {
                    law_slide_stays_on_board(n, i as int, Direction::Right);
                }
                self.move_elem(finalboard, board, i, i + 1, step);
            }
            assert(nodes(self.open_l@) == try_move(
                st,
                open3,
                closed,
                board@,
                Direction::Right,
                step as int,
            ));
        }
    }
}

} // verus!
