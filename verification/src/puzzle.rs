//! A puzzle, its search nodes, and their mathematical views.

use vstd::prelude::*;
use vstd::arithmetic::div_mod::lemma_fundamental_div_mod_converse;
use crate::board::copy_board;
use crate::closed::ClosedList;
use crate::config::Config;
use crate::search::{sound, Search, Setting};
use crate::tile::Number;

verus! {

/// A node of the search: a board with its scores and its place in the
/// lineage.
#[derive(PartialEq, Eq, Debug)]
pub struct Elem {
    /// The board, cell by cell in reading order.
    pub list: Vec<Number>,
    /// The heuristic of the board: an estimate of the slides still to make.
    pub glob_heuristic: i32,
    /// The heuristic plus, unless the search is greedy, the depth.
    pub total_cost: i32,
    /// The depth: the number of slides made from the start board.
    pub step: i32,
    /// The place of the node in the closed list, given when it is closed;
    /// `0` until then.
    pub id: i32,
    /// The id of the node that this one was made from; `0` for the root.
    pub p_id: i32,
}

/// What a node holds, as mathematical values.
#[verifier::ext_equal]
pub struct Node {
    pub list: Seq<Number>,
    pub glob_heuristic: int,
    pub total_cost: int,
    pub step: int,
    pub id: int,
    pub p_id: int,
}

impl View for Elem {
    type V = Node;

    /// The node that this element holds.
    open spec fn view(&self) -> Node {
        Node {
            list: self.list@,
            glob_heuristic: self.glob_heuristic as int,
            total_cost: self.total_cost as int,
            step: self.step as int,
            id: self.id as int,
            p_id: self.p_id as int,
        }
    }
}

impl Clone for Elem {
    /// A copy that holds the same node.
    fn clone(&self) -> (copy: Elem)
        ensures
            copy@ == self@,
    {
        Elem {
            list: copy_board(&self.list),
            glob_heuristic: self.glob_heuristic,
            total_cost: self.total_cost,
            step: self.step,
            id: self.id,
            p_id: self.p_id,
        }
    }
}

/// The nodes that a list of elements holds.
pub open spec fn nodes(elems: Seq<Elem>) -> Seq<Node> {
    Seq::new(elems.len(), |i: int| elems[i]@)
}

/// The board `list` with every tile told the column and row of its cell,
/// for a board of side `n`.
pub open spec fn positioned(list: Seq<Number>, n: int) -> Seq<Number> {
    Seq::new(
        list.len(),
        |i: int| Number { x_base: (i % n) as i32, y_base: (i / n) as i32, ..list[i] },
    )
}

/// A puzzle and the state of its search.
pub struct Puzzle {
    /// The side of the board.
    pub len: usize,
    /// The start board, cell by cell in reading order.
    pub numbers: Vec<Number>,
    /// The options of the search.
    pub config: Config,
    /// The weight of a node's depth in its total cost: `1` for A*, `0` for
    /// a greedy search.
    pub greedy: i32,
    /// The frontier, in the order in which the nodes were pushed.
    pub open_l: Vec<Elem>,
    /// The closed list.
    pub close_l: ClosedList,
    /// The path from the start board to the goal, once the puzzle is
    /// solved.
    pub final_list: Vec<Elem>,
}

impl Puzzle {
    /// The fixed part of this puzzle's search.
    pub open spec fn setting(&self) -> Setting {
        Setting { n: self.len as int, config: self.config, weight: self.greedy as int }
    }

    /// The two lists of this puzzle's search.
    pub open spec fn search(&self) -> Search {
        Search { open: nodes(self.open_l@), closed: nodes(self.close_l@) }
    }

    /// The search of this puzzle is sound for its start board.
    pub open spec fn wf(&self) -> bool {
        sound(self.setting(), self.numbers@, self.search())
    }

    /// `other` is the same puzzle: side, start board and options agree.
    pub open spec fn same_puzzle(&self, other: &Puzzle) -> bool {
        &&& self.len == other.len
        &&& self.numbers == other.numbers
        &&& self.config == other.config
        &&& self.greedy == other.greedy
    }

    /// Tells every tile of the start board the column and row of its cell.
    pub fn init_array_positions(&mut self)
        requires
            old(self).len >= 1,
            old(self).numbers@.len() <= i32::MAX,
        ensures
            final(self).numbers@ == positioned(old(self).numbers@, old(self).len as int),
            final(self).len == old(self).len,
            final(self).config == old(self).config,
            final(self).greedy == old(self).greedy,
            final(self).open_l == old(self).open_l,
            final(self).close_l == old(self).close_l,
            final(self).final_list == old(self).final_list,
    {
        let mut l: usize = 0;
        let mut base_x: i32 = 0;
        let mut base_y: i32 = 0;
        let puzzle_len = self.get_len();
        let mut i: usize = 0;
        while i < self.numbers.len()
            invariant
                puzzle_len == self.len,
                puzzle_len >= 1,
                self.len == old(self).len,
                self.config == old(self).config,
                self.greedy == old(self).greedy,
                self.open_l == old(self).open_l,
                self.close_l == old(self).close_l,
                self.final_list == old(self).final_list,
                self.numbers@.len() == old(self).numbers@.len(),
                self.numbers@.len() <= i32::MAX,
                i <= self.numbers@.len(),
                0 <= l <= puzzle_len,
                base_x == l,
                base_y >= 0,
                i == base_y * puzzle_len + l,
                forall|k: int|
                    0 <= k < i ==> self.numbers@[k] == positioned(
                        old(self).numbers@,
                        puzzle_len as int,
                    )[k],
                forall|k: int|
                    i <= k < self.numbers@.len() ==> self.numbers@[k] == old(self).numbers@[k],
            decreases self.numbers@.len() - i,
        {
            proof {
                assert((base_y + 1) * puzzle_len == base_y * puzzle_len + puzzle_len)
                    by (nonlinear_arith);
                assert(base_y <= base_y * puzzle_len) by (nonlinear_arith)
                    requires
                        base_y >= 0,
                        puzzle_len >= 1,
                ;
            }
            if l == puzzle_len {
                l = 0;
                base_y += 1;
                base_x = 0;
            }
            proof {
                lemma_fundamental_div_mod_converse(
                    i as int,
                    puzzle_len as int,
                    base_y as int,
                    l as int,
                );
            }
            self.numbers[i].update_base(base_x, base_y);
            l += 1;
            base_x += 1;
            i += 1;
        }
        assert(self.numbers@ =~= positioned(old(self).numbers@, puzzle_len as int));
    }

    /// The start board, to read or to change.
    pub fn get_numbers(&mut self) -> (numbers: &mut Vec<Number>)
        ensures
            *numbers == old(self).numbers,
            final(self).numbers == *final(numbers),
            final(self).len == old(self).len,
            final(self).config == old(self).config,
            final(self).greedy == old(self).greedy,
            final(self).open_l == old(self).open_l,
            final(self).close_l == old(self).close_l,
            final(self).final_list == old(self).final_list,
    {
        &mut self.numbers
    }

    /// The side of the board.
    pub fn get_len(&self) -> (len: usize)
        ensures
            len == self.len,
    {
        self.len
    }
}

} // verus!
