//! The search engine: one step, the run to the end, and the whole solve.

use vstd::prelude::*;
use crate::board::{copy_board, is_board, reachable, values};
use crate::closed::ClosedList;
use crate::config::GREEDY;
use crate::frontier::{lemma_nodes_push, lemma_nodes_remove, take_front};
use crate::goal::{goal_table, goal_values, lemma_square_bound};
use crate::laws::{is_solution, law_path_is_a_walk};
use crate::reach::{
    law_exhausted_means_unsolvable, law_solved_means_reached, lemma_run_outcome,
};
use crate::heuristic::{MAX_LEN, MAX_STATES};
use crate::path::lemma_sound_is_chained;
use crate::puzzle::{nodes, positioned, Elem, Node, Puzzle};
use crate::search::{
    advance, front_index, initial, lemma_advance_sound, lemma_front_index,
    lemma_initial_sound, open_ok, path_to, run, scored, SearchState,
};
use crate::tile::Number;

verus! {

impl Puzzle {
    /// Takes one step of the search.
    ///
    /// The front node leaves the frontier; unless its board is closed
    /// already it is given the next id and closed, after it has been
    /// expanded or, where its heuristic is zero or less, with the path to
    /// it written into `final_list`.
    pub fn advance(&mut self, finalboard: &Vec<Number>) -> (state: SearchState)
        requires
            old(self).wf(),
            finalboard@ == goal_table(old(self).len as int),
        ensures
            final(self).wf(),
            final(self).same_puzzle(old(self)),
            (final(self).search(), state) == advance(old(self).setting(), old(self).search()),
            state == SearchState::Solved ==> nodes(final(self).final_list@) == path_to(
                final(self).search().closed,
                final(self).search().closed.len() - 1,
            ),
            state != SearchState::Solved ==> final(self).final_list == old(self).final_list,
    {
        let ghost st = self.setting();
        let ghost before = self.search();
        proof {
            lemma_advance_sound(st, self.numbers@, before);
        }
        if self.open_l.len() > 0 && self.close_l.len() >= MAX_STATES as usize {
            return SearchState::Saturated;
        }
        proof {
            if before.open.len() > 0 {
                lemma_front_index(before.open);
                lemma_nodes_remove(self.open_l@, front_index(before.open));
                assert(open_ok(
                    st,
                    self.numbers@,
                    before.closed,
                    before.open[front_index(before.open)],
                ));
            }
        }
        match take_front(&mut self.open_l) {
            None => SearchState::Exhausted,
            Some(mut board_study) => {
                if self.in_close_list(&board_study.list) {
                    return SearchState::Running;
                }
                let id: i32 = self.close_l.len() as i32;
                board_study.id = id;
                proof {
                    lemma_nodes_push(self.close_l@, board_study);
                    assert(board_study@ == (Node {
                        id: before.closed.len() as int,
                        ..before.open[front_index(before.open)]
                    }));
                }
                if board_study.glob_heuristic <= 0 {
                    self.close_l.push(board_study);
                    proof {
                        lemma_sound_is_chained(st, self.numbers@, self.search());
                    }
                    self.get_final_path(&id);
                    return SearchState::Solved;
                }
                let step = board_study.step + 1;
                self.find_move(finalboard, &board_study, step);
                self.close_l.push(board_study);
                SearchState::Running
            },
        }
    }

    /// Runs the search to its end: steps are taken until the puzzle is
    /// solved, the frontier is empty or the closed list is full.
    pub fn a_star(&mut self, finalboard: &Vec<Number>) -> (state: SearchState)
        requires
            old(self).wf(),
            finalboard@ == goal_table(old(self).len as int),
        ensures
            final(self).wf(),
            final(self).same_puzzle(old(self)),
            (final(self).search(), state) == run(old(self).setting(), old(self).search()),
            state != SearchState::Running,
            state == SearchState::Solved ==> nodes(final(self).final_list@) == path_to(
                final(self).search().closed,
                final(self).search().closed.len() - 1,
            ),
            state != SearchState::Solved ==> final(self).final_list == old(self).final_list,
    {
        loop
            invariant
                self.wf(),
                self.same_puzzle(old(self)),
                self.final_list == old(self).final_list,
                finalboard@ == goal_table(self.len as int),
                run(self.setting(), self.search()) == run(old(self).setting(), old(self).search()),
            decreases MAX_STATES - self.close_l@.len(), self.open_l@.len(),
        {
            let ghost before = self.search();
            proof {
                if before.open.len() > 0 {
                    lemma_front_index(before.open);
                }
            }
            let state = self.advance(finalboard);
            match state {
                SearchState::Running => {},
                _ => {
                    return state;
                },
            }
        }
    }

    /// Solves the puzzle from the board in `numbers`.
    ///
    /// The cells of the board are numbered, the depth is given its weight
    /// from the options, and a search is started afresh from the board and
    /// run to its end. When it ends solved, `final_list` holds a solution:
    /// the path from the start board to the goal board, which is never
    /// longer than the closed list. When it ends exhausted, no sequence of
    /// slides leads from the start board to the goal board. Unless the
    /// search ends solved, `final_list` is left empty.
    pub fn solve_puzzle(&mut self) -> (state: SearchState)
        requires
            1 <= old(self).len <= MAX_LEN,
            is_board(old(self).len as int, values(old(self).numbers@)),
        ensures
            final(self).len == old(self).len,
            final(self).config == old(self).config,
            final(self).greedy == (if old(self).config.greedy { 0int } else { 1int }),
            final(self).numbers@ == positioned(old(self).numbers@, old(self).len as int),
            final(self).wf(),
            (final(self).search(), state) == run(
                final(self).setting(),
                initial(final(self).setting(), final(self).numbers@),
            ),
            state != SearchState::Running,
            state == SearchState::Solved ==> nodes(final(self).final_list@) == path_to(
                final(self).search().closed,
                final(self).search().closed.len() - 1,
            ),
            state != SearchState::Solved ==> final(self).final_list@.len() == 0,
            state == SearchState::Solved ==> is_solution(
                final(self).len as int,
                final(self).numbers@,
                nodes(final(self).final_list@),
            ) && final(self).final_list@.len() <= final(self).close_l@.len(),
            state == SearchState::Solved ==> reachable(
                final(self).len as int,
                values(final(self).numbers@),
                goal_values(final(self).len as int),
            ),
            state == SearchState::Exhausted ==> !reachable(
                final(self).len as int,
                values(final(self).numbers@),
                goal_values(final(self).len as int),
            ),
            state == SearchState::Saturated ==> final(self).close_l@.len() == MAX_STATES,
    {
        proof {
            lemma_square_bound(self.len as int, 512);
        }
        self.greedy = if self.config.has_option(GREEDY) { 0 } else { 1 };
        self.init_array_positions();
        assert(values(self.numbers@) =~= values(old(self).numbers@));
        let finalboard: Vec<Number> = self.get_last_pos(self.len as i32);
        self.open_l = Vec::new();
        self.close_l = ClosedList::new();
        self.final_list = Vec::new();
        let mut elem: Elem = Elem {
            list: copy_board(&self.numbers),
            glob_heuristic: 0,
            step: 0,
            total_cost: 0,
            id: 0,
            p_id: 0,
        };
        self.get_heuristics(&finalboard, &mut elem);
        proof {
            let st = self.setting();
            lemma_initial_sound(st, self.numbers@);
            assert(0 * st.weight == 0) by (nonlinear_arith);
            assert(elem@ == scored(st, self.numbers@, 0, 0));
            lemma_nodes_push(self.open_l@, elem);
        }
        self.open_l.push(elem);
        assert(self.search() == initial(self.setting(), self.numbers@));
        let ghost first = self.search();
        let state = self.a_star(&finalboard);
        proof {
            let st = self.setting();
            let last = self.search().closed.len() - 1;
            lemma_run_outcome(st, self.numbers@, first);
            match state {
                SearchState::Solved => {
                    law_solved_means_reached(st, self.numbers@);
                    law_path_is_a_walk(st, self.numbers@, self.search(), last);
                },
                SearchState::Exhausted => {
                    law_exhausted_means_unsolvable(st, self.numbers@);
                },
                _ => {},
            }
        }
        state
    }
}

} // verus!
