//! What holds of every search: the shape of its paths and of its first steps.

use vstd::prelude::*;
use crate::board::{
    appears, can_slide, first_blank, next_board, is_board, is_slide, legal, lemma_first_blank,
    law_slide_stays_on_board, lemma_slide_back, lemma_slide_keeps_board, neighbour, opposite,
    slide, values, Direction,
};
use crate::goal::goal_values;
use crate::heuristic::{
    heuristic, law_goal_is_a_board, law_solved_means_goal, lemma_heuristic_zero, MAX_LEN,
};
use crate::puzzle::Node;
use crate::search::{
    advance, closed_ok, expand, front_index, initial, is_closed, key_at, lemma_advance_sound,
    lemma_front_index, lemma_initial_sound, open_ok, path_to, precedes, run, scored, sound,
    try_move, Search, SearchState, Setting,
};
use crate::tile::Number;

verus! {

/// `path` solves the puzzle of side `n` from the board `start`: it starts
/// with that board and ends with the goal board, its `k`-th node lies at
/// depth `k`, and every node after the first comes from the node before it
/// by one legal slide of the blank.
pub open spec fn is_solution(n: int, start: Seq<Number>, path: Seq<Node>) -> bool {
    &&& path.len() >= 1
    &&& path[0].list == start
    &&& values(path.last().list) == goal_values(n)
    &&& path.len() == path.last().step + 1
    &&& forall|k: int| 0 <= k < path.len() ==> (#[trigger] path[k]).step == k
    &&& forall|k: int|
        0 <= k < path.len() - 1 ==> is_slide(n, (#[trigger] path[k]).list, path[k + 1].list)
}

/// The path to a closed node is a walk from the start board.
///
/// It has one node more than the node lies deep, and never more nodes than
/// the closed list. It starts with the start board and ends with the node.
/// Its `k`-th node lies at depth `k` and is a closed node, and every node
/// after the first comes from the node before it by one legal slide of the
/// blank.
pub proof fn law_path_is_a_walk(st: Setting, start: Seq<Number>, s: Search, id: int)
    requires
        sound(st, start, s),
        0 <= id < s.closed.len(),
    ensures
        path_to(s.closed, id).len() == s.closed[id].step + 1,
        path_to(s.closed, id).len() <= s.closed.len(),
        path_to(s.closed, id)[0].list == start,
        path_to(s.closed, id).last() == s.closed[id],
        forall|k: int|
            0 <= k < path_to(s.closed, id).len() ==> {
                &&& (#[trigger] path_to(s.closed, id)[k]).step == k
                &&& 0 <= path_to(s.closed, id)[k].id <= id
                &&& s.closed[path_to(s.closed, id)[k].id] == path_to(s.closed, id)[k]
            },
        forall|k: int|
            0 <= k < path_to(s.closed, id).len() - 1 ==> is_slide(
                st.n,
                (#[trigger] path_to(s.closed, id)[k]).list,
                path_to(s.closed, id)[k + 1].list,
            ),
    decreases id,
{
    let path = path_to(s.closed, id);
    assert(closed_ok(st, start, s.closed, id));
    if id > 0 {
        let p = s.closed[id].p_id;
        let before = path_to(s.closed, p);
        law_path_is_a_walk(st, start, s, p);
        assert(path == before.push(s.closed[id]));
        assert forall|k: int| 0 <= k < path.len() implies {
            &&& (#[trigger] path[k]).step == k
            &&& 0 <= path[k].id <= id
            &&& s.closed[path[k].id] == path[k]
        } by {
            if k < before.len() {
                assert(path[k] == before[k]);
            }
        }
        assert forall|k: int| 0 <= k < path.len() - 1 implies is_slide(
            st.n,
            (#[trigger] path[k]).list,
            path[k + 1].list,
        ) by {
            assert(path[k] == before[k]);
            if k < before.len() - 1 {
                assert(path[k + 1] == before[k + 1]);
            }
        }
    }
}

/// A start board whose heuristic is zero or less is solved by the first
/// step: the search closes the start board and nothing else, and the path
/// is that one node, at depth 0.
pub proof fn law_solved_start_ends_at_once(st: Setting, start: Seq<Number>)
    requires
        1 <= st.n <= MAX_LEN,
        st.weight == 0 || st.weight == 1,
        is_board(st.n, values(start)),
        heuristic(st.config, st.n, values(start)) <= 0,
    ensures
        run(st, initial(st, start)) == advance(st, initial(st, start)),
        run(st, initial(st, start)).1 == SearchState::Solved,
        run(st, initial(st, start)).0.open.len() == 0,
        run(st, initial(st, start)).0.closed == seq![scored(st, start, 0, 0)],
        path_to(run(st, initial(st, start)).0.closed, 0) == seq![scored(st, start, 0, 0)],
        scored(st, start, 0, 0).step == 0,
{
    let s = initial(st, start);
    let root = scored(st, start, 0, 0);
    assert(s.open.len() == 1);
    assert(s.open[0] == root);
    assert(s.open.remove(0) =~= Seq::<Node>::empty());
    assert(!is_closed(s.closed, values(root.list)));
    assert((Node { id: 0, ..root }) == root);
    assert(s.closed.push(root) =~= seq![root]);
}

/// A slide offered to the frontier leaves what the frontier held in
/// place.
pub proof fn lemma_try_move_keeps(
    st: Setting,
    open: Seq<Node>,
    closed: Seq<Node>,
    parent: Node,
    d: Direction,
    step: int,
)
    ensures
        open.len() <= try_move(st, open, closed, parent, d, step).len(),
        forall|k: int|
            0 <= k < open.len() ==> #[trigger] try_move(st, open, closed, parent, d, step)[k]
                == open[k],
{
}

/// The node that the frontier gets for a slide of `parent` in direction
/// `d`.
pub open spec fn child_of(st: Setting, parent: Node, d: Direction, step: int) -> Node {
    scored(
        st,
        slide(
            parent.list,
            first_blank(values(parent.list), 0),
            neighbour(st.n, first_blank(values(parent.list), 0), d),
        ),
        step,
        parent.id,
    )
}

/// `node` is on the frontier `open`.
pub open spec fn is_open(open: Seq<Node>, node: Node) -> bool {
    exists|k: int| 0 <= k < open.len() && #[trigger] open[k] == node
}

/// `node` is the child of `parent` for a direction in which the blank of
/// `parent` may slide.
pub open spec fn is_legal_child(st: Setting, parent: Node, step: int, node: Node) -> bool {
    exists|d: Direction|
        can_slide(st.n, values(parent.list), d) && #[trigger] child_of(st, parent, d, step) == node
}

/// Expanding a node adds nothing to the frontier but legal slides.
///
/// What the frontier held stays in place, at most four nodes are added,
/// and each of them is the child of `parent` for a direction in which its
/// blank may slide.
pub proof fn law_expand_adds_legal_slides(
    st: Setting,
    open: Seq<Node>,
    closed: Seq<Node>,
    parent: Node,
    step: int,
)
    ensures
        open.len() <= expand(st, open, closed, parent, step).len() <= open.len() + 4,
        forall|k: int|
            0 <= k < open.len() ==> #[trigger] expand(st, open, closed, parent, step)[k] == open[k],
        forall|k: int|
            open.len() <= k < expand(st, open, closed, parent, step).len() ==> is_legal_child(
                st,
                parent,
                step,
                #[trigger] expand(st, open, closed, parent, step)[k],
            ),
{
    let up = try_move(st, open, closed, parent, Direction::Up, step);
    let down = try_move(st, up, closed, parent, Direction::Down, step);
    let left = try_move(st, down, closed, parent, Direction::Left, step);
    let right = try_move(st, left, closed, parent, Direction::Right, step);
    lemma_try_move_keeps(st, open, closed, parent, Direction::Up, step);
    lemma_try_move_keeps(st, up, closed, parent, Direction::Down, step);
    lemma_try_move_keeps(st, down, closed, parent, Direction::Left, step);
    lemma_try_move_keeps(st, left, closed, parent, Direction::Right, step);
    assert forall|k: int| open.len() <= k < right.len() implies is_legal_child(
        st,
        parent,
        step,
        #[trigger] right[k],
    ) by {
        if k < up.len() {
            assert(up[k] == child_of(st, parent, Direction::Up, step));
            assert(down[k] == up[k]);
            assert(left[k] == down[k]);
            assert(right[k] == left[k]);
            assert(can_slide(st.n, values(parent.list), Direction::Up));
        } else if k < down.len() {
            assert(down[k] == child_of(st, parent, Direction::Down, step));
            assert(left[k] == down[k]);
            assert(right[k] == left[k]);
            assert(can_slide(st.n, values(parent.list), Direction::Down));
        } else if k < left.len() {
            assert(left[k] == child_of(st, parent, Direction::Left, step));
            assert(right[k] == left[k]);
            assert(can_slide(st.n, values(parent.list), Direction::Left));
        } else {
            assert(right[k] == child_of(st, parent, Direction::Right, step));
            assert(can_slide(st.n, values(parent.list), Direction::Right));
        }
    }
}

/// Expanding a node puts on the frontier every board that one legal slide
/// of its blank leads to and that is not closed.
pub proof fn lemma_expand_offers(
    st: Setting,
    open: Seq<Node>,
    closed: Seq<Node>,
    parent: Node,
    step: int,
    d: Direction,
)
    requires
        0 <= first_blank(values(parent.list), 0) < parent.list.len(),
        legal(st.n, first_blank(values(parent.list), 0), d),
        !is_closed(closed, values(child_of(st, parent, d, step).list)),
    ensures
        is_open(expand(st, open, closed, parent, step), child_of(st, parent, d, step)),
{
    let node = child_of(st, parent, d, step);
    let up = try_move(st, open, closed, parent, Direction::Up, step);
    let down = try_move(st, up, closed, parent, Direction::Down, step);
    let left = try_move(st, down, closed, parent, Direction::Left, step);
    let right = try_move(st, left, closed, parent, Direction::Right, step);
    lemma_try_move_keeps(st, up, closed, parent, Direction::Down, step);
    lemma_try_move_keeps(st, down, closed, parent, Direction::Left, step);
    lemma_try_move_keeps(st, left, closed, parent, Direction::Right, step);
    match d {
        Direction::Up => {
            assert(up[open.len() as int] == node);
            assert(right[open.len() as int] == node);
        },
        Direction::Down => {
            assert(down[up.len() as int] == node);
            assert(right[up.len() as int] == node);
        },
        Direction::Left => {
            assert(left[down.len() as int] == node);
            assert(right[down.len() as int] == node);
        },
        Direction::Right => {
            assert(right[left.len() as int] == node);
        },
    }
}

/// `vals` is the goal board of side `n` after its blank was slid in
/// direction `d`, and that slide is legal.
pub open spec fn one_slide_from_goal(n: int, d: Direction, vals: Seq<int>) -> bool {
    can_slide(n, goal_values(n), d) && vals == next_board(n, goal_values(n), d)
}

/// A start board that is one legal slide away from the goal is solved
/// with a path of two nodes, the start board and the goal board, whatever
/// options are switched on.
///
/// `d` is the direction in which the blank of the goal board was slid to
/// make the start board.
pub proof fn law_one_slide_from_goal(st: Setting, start: Seq<Number>, d: Direction)
    requires
        1 <= st.n <= MAX_LEN,
        st.weight == 0 || st.weight == 1,
        one_slide_from_goal(st.n, d, values(start)),
    ensures
        run(st, initial(st, start)).1 == SearchState::Solved,
        run(st, initial(st, start)).0.closed.len() == 2,
        path_to(run(st, initial(st, start)).0.closed, 1) == run(st, initial(st, start)).0.closed,
        path_to(run(st, initial(st, start)).0.closed, 1)[0].list == start,
        values(path_to(run(st, initial(st, start)).0.closed, 1)[1].list) == goal_values(st.n),
{
    let n = st.n;
    let g = goal_values(n);
    let z = first_blank(g, 0);
    let o = neighbour(n, z, d);
    let vs = values(start);
    assert(1 <= n * n <= 262144) by (nonlinear_arith)
        requires
            1 <= n <= 512,
    ;
    law_goal_is_a_board(n);
    lemma_first_blank(g, 0);
    assert(appears(g, 0));
    assert(0 <= z < g.len() && g[z] == 0);
    law_slide_stays_on_board(n, z, d);
    lemma_slide_back(n, z, d);
    // The start board is a board, and its blank is where the slide put it.
    let goal_list = Seq::new(g.len(), |i: int| Number { value: g[i] as i32, x_base: 0, y_base: 0, h: 0 });
    assert(values(goal_list) =~= g);
    lemma_slide_keeps_board(n, goal_list, z, o);
    assert(is_board(n, vs));
    lemma_first_blank(vs, 0);
    assert(vs[o] == 0);
    assert(first_blank(vs, 0) == o);
    assert(vs[z] == g[o]);
    assert(vs != g);
    law_solved_means_goal(st.config, n, vs);
    // The first step closes the start board and expands it.
    let s0 = initial(st, start);
    let root = scored(st, start, 0, 0);
    assert(s0.open[0] == root);
    assert(s0.open.remove(0) =~= Seq::<Node>::empty());
    assert(!is_closed(s0.closed, values(root.list)));
    assert((Node { id: 0, ..root }) == root);
    let s1 = advance(st, s0).0;
    assert(advance(st, s0).1 == SearchState::Running);
    assert(s1.closed =~= seq![root]);
    assert(s1.open == expand(st, Seq::<Node>::empty(), s0.closed, root, 1));
    lemma_initial_sound(st, start);
    lemma_advance_sound(st, start, s0);
    // The slide back leads to the goal board, which the frontier now holds.
    let back = opposite(d);
    let goal_node = child_of(st, root, back, 1);
    assert(start[o].value == vs[o]);
    lemma_slide_keeps_board(n, start, o, z);
    assert(values(goal_node.list) =~= g);
    law_solved_means_goal(st.config, n, g);
    lemma_expand_offers(st, Seq::<Node>::empty(), s0.closed, root, 1, back);
    let k = choose|k: int| 0 <= k < s1.open.len() && #[trigger] s1.open[k] == goal_node;
    // The front node costs no more than the goal node, so it is the goal.
    lemma_front_index(s1.open);
    let f = front_index(s1.open);
    let front = s1.open[f];
    assert(!precedes(s1.open[k], front));
    assert(open_ok(st, start, s1.closed, front));
    lemma_heuristic_zero(st.config, n, values(front.list));
    assert(front.step == 1);
    assert(front.glob_heuristic <= 0);
    law_solved_means_goal(st.config, n, values(front.list));
    // The second step closes it and ends the search.
    let taken = Node { id: 1, ..front };
    assert(key_at(s1.closed, 0) == vs);
    assert(!is_closed(s1.closed, values(taken.list)));
    let s2 = advance(st, s1).0;
    assert(advance(st, s1).1 == SearchState::Solved);
    assert(s2.closed =~= seq![root, taken]);
    reveal_with_fuel(run, 3);
    assert(run(st, s0) == advance(st, s1));
    reveal_with_fuel(path_to, 3);
    assert(path_to(s2.closed, 1) =~= s2.closed);
}

} // verus!
