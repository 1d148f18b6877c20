//! What the end of a search says about the puzzle: a solved search has
//! reached the goal, an exhausted one shows that it cannot be reached.

use vstd::prelude::*;
use crate::board::{
    can_slide, first_blank, is_board, law_slide_stays_on_board,
    lemma_reachable_one_more, lemma_values_of_slide, neighbour, next_board, reachable,
    reachable_in, slide, slides_to, values, Direction,
};
use crate::goal::goal_values;
use crate::heuristic::{heuristic, law_solved_means_goal, MAX_LEN, MAX_STATES};
use crate::laws::{child_of, lemma_expand_offers, lemma_try_move_keeps};
use crate::puzzle::Node;
use crate::search::{
    advance, closed_ok, expand, front_index, initial, is_closed, key_at, lemma_advance_sound,
    lemma_front_index, lemma_initial_sound, open_ok, run, sound, try_move, Search, SearchState, Setting,
};
use crate::tile::Number;

verus! {

/// Some node on the frontier has the key `key`.
pub open spec fn on_frontier(open: Seq<Node>, key: Seq<int>) -> bool {
    exists|k: int| 0 <= k < open.len() && values((#[trigger] open[k]).list) == key
}

/// The search has closed the board `key` or holds it on its frontier.
pub open spec fn covered(s: Search, key: Seq<int>) -> bool {
    is_closed(s.closed, key) || on_frontier(s.open, key)
}

/// What a search that is still running has not missed: no closed board
/// has a heuristic of zero or less, and every board that one legal slide
/// leads to from a closed board is closed or on the frontier.
pub open spec fn thorough(st: Setting, s: Search) -> bool {
    &&& forall|i: int| 0 <= i < s.closed.len() ==> (#[trigger] s.closed[i]).glob_heuristic > 0
    &&& forall|i: int, d: Direction|
        0 <= i < s.closed.len() && can_slide(st.n, key_at(s.closed, i), d) ==> covered(
            s,
            #[trigger] next_board(st.n, key_at(s.closed, i), d),
        )
}

/// The search has closed its start board or is about to.
pub open spec fn started(s: Search) -> bool {
    s.closed.len() > 0 || s.open.len() == 1
}

/// A step that leaves the search running has missed nothing.
proof fn lemma_advance_thorough(st: Setting, start: Seq<Number>, s: Search)
    requires
        sound(st, start, s),
        thorough(st, s),
        started(s),
        advance(st, s).1 == SearchState::Running,
    ensures
        thorough(st, advance(st, s).0),
        started(advance(st, s).0),
{
    let next = advance(st, s).0;
    lemma_front_index(s.open);
    let f = front_index(s.open);
    let rest = s.open.remove(f);
    let taken = Node { id: s.closed.len() as int, ..s.open[f] };
    let key = values(taken.list);
    assert forall|k: int| 0 <= k < s.open.len() && k != f implies on_frontier(
        rest,
        values(#[trigger] s.open[k].list),
    ) by {
        if k < f {
            assert(rest[k] == s.open[k]);
        } else {
            assert(rest[k - 1] == s.open[k]);
        }
    }
    if is_closed(s.closed, key) {
        assert forall|i: int, d: Direction|
            0 <= i < next.closed.len() && can_slide(st.n, key_at(next.closed, i), d) implies covered(
            next,
            #[trigger] next_board(st.n, key_at(next.closed, i), d),
        ) by {
            let child = next_board(st.n, key_at(s.closed, i), d);
            assert(covered(s, child));
            if !is_closed(s.closed, child) {
                let k = choose|k: int|
                    0 <= k < s.open.len() && values((#[trigger] s.open[k]).list) == child;
                assert(k != f);
                assert(on_frontier(rest, values(s.open[k].list)));
            }
        }
    } else {
        let closed = s.closed.push(taken);
        let step = taken.step + 1;
        let open = expand(st, rest, s.closed, taken, step);
        assert(next.closed == closed);
        assert(next.open == open);
        let up = try_move(st, rest, s.closed, taken, Direction::Up, step);
        let down = try_move(st, up, s.closed, taken, Direction::Down, step);
        let left = try_move(st, down, s.closed, taken, Direction::Left, step);
        lemma_try_move_keeps(st, rest, s.closed, taken, Direction::Up, step);
        lemma_try_move_keeps(st, up, s.closed, taken, Direction::Down, step);
        lemma_try_move_keeps(st, down, s.closed, taken, Direction::Left, step);
        lemma_try_move_keeps(st, left, s.closed, taken, Direction::Right, step);
        assert forall|k: int| 0 <= k < rest.len() implies #[trigger] open[k] == rest[k] by {
            assert(up[k] == rest[k]);
            assert(down[k] == up[k]);
            assert(left[k] == down[k]);
        }
        assert forall|i: int| 0 <= i < s.closed.len() implies key_at(closed, i) == key_at(
            s.closed,
            i,
        ) && #[trigger] closed[i] == s.closed[i] by {}
        assert(key_at(closed, s.closed.len() as int) == key);
        assert forall|i: int| 0 <= i < closed.len() implies (#[trigger] closed[i]).glob_heuristic
            > 0 by {
            if i < s.closed.len() {
                assert(s.closed[i].glob_heuristic > 0);
            }
        }
        assert forall|i: int, d: Direction|
            0 <= i < closed.len() && can_slide(st.n, key_at(closed, i), d) implies covered(
            next,
            #[trigger] next_board(st.n, key_at(closed, i), d),
        ) by {
            let child = next_board(st.n, key_at(closed, i), d);
            if i < s.closed.len() {
                assert(child == next_board(st.n, key_at(s.closed, i), d));
                assert(covered(s, child));
                if is_closed(s.closed, child) {
                    let j = choose|j: int|
                        0 <= j < s.closed.len() && #[trigger] key_at(s.closed, j) == child;
                    assert(key_at(closed, j) == child);
                } else {
                    let k = choose|k: int|
                        0 <= k < s.open.len() && values((#[trigger] s.open[k]).list) == child;
                    if k == f {
                        assert(key_at(closed, s.closed.len() as int) == child);
                    } else {
                        assert(on_frontier(rest, values(s.open[k].list)));
                        let r = choose|r: int|
                            0 <= r < rest.len() && values((#[trigger] rest[r]).list) == child;
                        assert(open[r] == rest[r]);
                    }
                }
            } else {
                let z = first_blank(key, 0);
                assert(open_ok(st, start, s.closed, s.open[f]));
                law_slide_stays_on_board(st.n, z, d);
                lemma_values_of_slide(taken.list, z, neighbour(st.n, z, d));
                let node = child_of(st, taken, d, step);
                assert(values(node.list) == child);
                if is_closed(s.closed, child) {
                    let j = choose|j: int|
                        0 <= j < s.closed.len() && #[trigger] key_at(s.closed, j) == child;
                    assert(key_at(closed, j) == child);
                } else {
                    lemma_expand_offers(st, rest, s.closed, taken, step, d);
                    let k = choose|k: int| 0 <= k < open.len() && #[trigger] open[k] == node;
                    assert(values(open[k].list) == child);
                }
            }
        }
    }
}

/// The end of a search that has missed nothing.
///
/// The search ends sound. Where it ends solved, the node closed last has
/// a heuristic of zero or less. Where it ends exhausted, the frontier is
/// empty, the start board is closed, and nothing was missed.
pub proof fn lemma_run_outcome(st: Setting, start: Seq<Number>, s: Search)
    requires
        sound(st, start, s),
        thorough(st, s),
        started(s),
    ensures
        sound(st, start, run(st, s).0),
        run(st, s).1 != SearchState::Running,
        run(st, s).1 == SearchState::Solved ==> run(st, s).0.closed.len() > 0 && run(
            st,
            s,
        ).0.closed.last().glob_heuristic <= 0,
        run(st, s).1 == SearchState::Exhausted ==> run(st, s).0.open.len() == 0 && run(
            st,
            s,
        ).0.closed.len() > 0 && thorough(st, run(st, s).0),
        run(st, s).1 == SearchState::Saturated ==> run(st, s).0.closed.len() == MAX_STATES,
    decreases MAX_STATES - s.closed.len(), s.open.len(),
{
    lemma_advance_sound(st, start, s);
    if s.open.len() > 0 {
        lemma_front_index(s.open);
    }
    if advance(st, s).1 == SearchState::Running {
        lemma_advance_thorough(st, start, s);
        lemma_run_outcome(st, start, advance(st, s).0);
    }
}

/// The board of every closed node can be reached from the start board.
pub proof fn lemma_closed_is_reachable(st: Setting, start: Seq<Number>, s: Search, id: int)
    requires
        sound(st, start, s),
        0 <= id < s.closed.len(),
    ensures
        reachable(st.n, values(start), key_at(s.closed, id)),
    decreases id,
{
    assert(closed_ok(st, start, s.closed, id));
    if id == 0 {
        assert(reachable_in(st.n, values(start), values(start), Seq::<Direction>::empty()));
    } else {
        let p = s.closed[id].p_id;
        lemma_closed_is_reachable(st, start, s, p);
        let parent = s.closed[p].list;
        let d = choose|d: Direction| #[trigger] slides_to(st.n, parent, d, s.closed[id].list);
        let z = first_blank(values(parent), 0);
        assert(closed_ok(st, start, s.closed, p));
        law_slide_stays_on_board(st.n, z, d);
        lemma_values_of_slide(parent, z, neighbour(st.n, z, d));
        let moves = choose|moves: Seq<Direction>|
            reachable_in(st.n, values(start), key_at(s.closed, p), moves);
        lemma_reachable_one_more(st.n, values(start), key_at(s.closed, p), moves, d);
    }
}

/// Where the frontier is empty and nothing was missed, every board that
/// legal slides lead to from a closed board is closed.
proof fn lemma_closed_under_slides(
    st: Setting,
    s: Search,
    from: Seq<int>,
    to: Seq<int>,
    moves: Seq<Direction>,
)
    requires
        thorough(st, s),
        s.open.len() == 0,
        is_closed(s.closed, from),
        reachable_in(st.n, from, to, moves),
    ensures
        is_closed(s.closed, to),
    decreases moves.len(),
{
    if moves.len() > 0 {
        let i = choose|i: int| 0 <= i < s.closed.len() && #[trigger] key_at(s.closed, i) == from;
        assert(covered(s, next_board(st.n, key_at(s.closed, i), moves[0])));
        lemma_closed_under_slides(st, s, next_board(st.n, from, moves[0]), to, moves.drop_first());
    }
}

/// A search that ends solved has found the goal board, which can thus be
/// reached from the start board.
pub proof fn law_solved_means_reached(st: Setting, start: Seq<Number>)
    requires
        1 <= st.n <= MAX_LEN,
        st.weight == 0 || st.weight == 1,
        is_board(st.n, values(start)),
        run(st, initial(st, start)).1 == SearchState::Solved,
    ensures
        run(st, initial(st, start)).0.closed.len() > 0,
        values(run(st, initial(st, start)).0.closed.last().list) == goal_values(st.n),
        reachable(st.n, values(start), goal_values(st.n)),
{
    let s = initial(st, start);
    let t = run(st, s).0;
    lemma_initial_sound(st, start);
    lemma_run_outcome(st, start, s);
    let last = t.closed.len() - 1;
    assert(closed_ok(st, start, t.closed, last));
    law_solved_means_goal(st.config, st.n, values(t.closed[last].list));
    lemma_closed_is_reachable(st, start, t, last);
}

/// A search that ends exhausted proves that the start board cannot be
/// solved: no sequence of legal slides leads from it to the goal board.
pub proof fn law_exhausted_means_unsolvable(st: Setting, start: Seq<Number>)
    requires
        1 <= st.n <= MAX_LEN,
        st.weight == 0 || st.weight == 1,
        is_board(st.n, values(start)),
        run(st, initial(st, start)).1 == SearchState::Exhausted,
    ensures
        !reachable(st.n, values(start), goal_values(st.n)),
{
    let s = initial(st, start);
    let t = run(st, s).0;
    let goal = goal_values(st.n);
    lemma_initial_sound(st, start);
    lemma_run_outcome(st, start, s);
    if reachable(st.n, values(start), goal) {
        let moves = choose|moves: Seq<Direction>| reachable_in(st.n, values(start), goal, moves);
        assert(closed_ok(st, start, t.closed, 0));
        assert(key_at(t.closed, 0) == values(start));
        lemma_closed_under_slides(st, t, values(start), goal, moves);
        let i = choose|i: int| 0 <= i < t.closed.len() && #[trigger] key_at(t.closed, i) == goal;
        assert(closed_ok(st, start, t.closed, i));
        assert(t.closed[i].glob_heuristic > 0);
        law_solved_means_goal(st.config, st.n, goal);
    }
}

} // verus!
