//! The search as a state machine over two lists of nodes.

use vstd::prelude::*;
use crate::board::{
    can_slide, first_blank, is_board, is_slide, legal, lemma_first_blank, law_slide_stays_on_board,
    lemma_slide_keeps_board, neighbour, slide, slides_to, values, Direction,
};
use crate::config::Config;
use crate::heuristic::{heuristic, MAX_LEN, MAX_STATES};
use crate::puzzle::Node;
use crate::tile::Number;

verus! {

/// Where a search stands after a step.
#[derive(Clone, Copy, PartialEq, Eq, Structural, Debug)]
pub enum SearchState {
    /// The frontier may still hold a way to the goal.
    Running,
    /// A board whose heuristic is zero or less was closed; the path to it
    /// has been written down.
    Solved,
    /// The frontier is empty and no such board was found.
    Exhausted,
    /// The closed list holds `MAX_STATES` boards: no further id can be
    /// given out.
    Saturated,
}

/// What stays fixed during one search: the side of the board, the options
/// of the heuristic, and the weight of a node's depth in its total cost
/// (`1` for A*, `0` for a greedy search).
pub struct Setting {
    pub n: int,
    pub config: Config,
    pub weight: int,
}

/// The two lists of a search. The place of a node in `closed` is its id.
#[verifier::ext_equal]
pub struct Search {
    pub open: Seq<Node>,
    pub closed: Seq<Node>,
}

/// `a` leaves the frontier before `b`: it costs less in total or, at equal
/// total cost, has the lower heuristic.
pub open spec fn precedes(a: Node, b: Node) -> bool {
    a.total_cost < b.total_cost || (a.total_cost == b.total_cost && a.glob_heuristic
        < b.glob_heuristic)
}

/// The place of the node that leaves the frontier next: the first of those
/// that no other node precedes.
pub open spec fn front_index(open: Seq<Node>) -> int
    decreases open.len(),
{
    if open.len() <= 1 {
        0
    } else {
        let best = front_index(open.drop_last());
        if precedes(open.last(), open[best]) {
            open.len() - 1
        } else {
            best
        }
    }
}

/// The key of the `i`-th closed node.
pub open spec fn key_at(closed: Seq<Node>, i: int) -> Seq<int> {
    values(closed[i].list)
}

/// Some closed node has the key `key`.
pub open spec fn is_closed(closed: Seq<Node>, key: Seq<int>) -> bool {
    exists|i: int| 0 <= i < closed.len() && #[trigger] key_at(closed, i) == key
}

/// A fresh node for `list`, at depth `step` below the node `p_id`.
pub open spec fn scored(st: Setting, list: Seq<Number>, step: int, p_id: int) -> Node {
    Node {
        list: list,
        glob_heuristic: heuristic(st.config, st.n, values(list)),
        total_cost: heuristic(st.config, st.n, values(list)) + step * st.weight,
        step: step,
        id: 0,
        p_id: p_id,
    }
}

/// The frontier after the board `list`, a child of node `p_id` at depth
/// `step`, was offered to it: a board that is closed is turned away.
pub open spec fn offer(
    st: Setting,
    open: Seq<Node>,
    closed: Seq<Node>,
    list: Seq<Number>,
    step: int,
    p_id: int,
) -> Seq<Node> {
    if is_closed(closed, values(list)) {
        open
    } else {
        open.push(scored(st, list, step, p_id))
    }
}

/// The frontier after `parent` has tried to slide its blank in direction
/// `d`.
pub open spec fn try_move(
    st: Setting,
    open: Seq<Node>,
    closed: Seq<Node>,
    parent: Node,
    d: Direction,
    step: int,
) -> Seq<Node> {
    let z = first_blank(values(parent.list), 0);
    if can_slide(st.n, values(parent.list), d) {
        offer(st, open, closed, slide(parent.list, z, neighbour(st.n, z, d)), step, parent.id)
    } else {
        open
    }
}

/// The frontier after `parent` was expanded: its legal slides are offered
/// in the order up, down, left, right.
pub open spec fn expand(
    st: Setting,
    open: Seq<Node>,
    closed: Seq<Node>,
    parent: Node,
    step: int,
) -> Seq<Node> {
    let up = try_move(st, open, closed, parent, Direction::Up, step);
    let down = try_move(st, up, closed, parent, Direction::Down, step);
    let left = try_move(st, down, closed, parent, Direction::Left, step);
    try_move(st, left, closed, parent, Direction::Right, step)
}

/// One step of the search.
///
/// With an empty frontier the search is exhausted, and with a full closed
/// list it is saturated. Otherwise the front node leaves the frontier. If
/// its board is closed already it is dropped. If not it gets the next id
/// and is closed; with a heuristic of zero or less that solves the puzzle,
/// and else the node is expanded first, against the closed list as it was
/// before.
pub open spec fn advance(st: Setting, s: Search) -> (Search, SearchState) {
    let i = front_index(s.open);
    let rest = s.open.remove(i);
    let taken = Node { id: s.closed.len() as int, ..s.open[i] };
    if s.open.len() == 0 {
        (s, SearchState::Exhausted)
    } else if s.closed.len() >= MAX_STATES {
        (s, SearchState::Saturated)
    } else if is_closed(s.closed, values(taken.list)) {
        (Search { open: rest, closed: s.closed }, SearchState::Running)
    } else if taken.glob_heuristic <= 0 {
        (Search { open: rest, closed: s.closed.push(taken) }, SearchState::Solved)
    } else {
        (
            Search {
                open: expand(st, rest, s.closed, taken, taken.step + 1),
                closed: s.closed.push(taken),
            },
            SearchState::Running,
        )
    }
}

/// The search run to its end: steps are taken until one does not leave the
/// search running.
pub open spec fn run(st: Setting, s: Search) -> (Search, SearchState)
    decreases MAX_STATES - s.closed.len(), s.open.len(),
    via run_ends
{
    if advance(st, s).1 == SearchState::Running {
        run(st, advance(st, s).0)
    } else {
        advance(st, s)
    }
}

/// Every step that leaves the search running closes a board or shortens
/// the frontier.
#[via_fn]
proof fn run_ends(st: Setting, s: Search) {
    if s.open.len() > 0 {
        lemma_front_index(s.open);
    }
}

/// The search as it starts: the scored start board alone on the frontier.
pub open spec fn initial(st: Setting, start: Seq<Number>) -> Search {
    Search { open: seq![scored(st, start, 0, 0)], closed: Seq::empty() }
}

/// The nodes from the root to node `id`, along the parent ids.
pub open spec fn path_to(closed: Seq<Node>, id: int) -> Seq<Node>
    decreases id,
{
    if 0 < id < closed.len() && 0 <= closed[id].p_id < id {
        path_to(closed, closed[id].p_id).push(closed[id])
    } else {
        seq![closed[0]]
    }
}

/// The front node is on the frontier, nothing precedes it, and it precedes
/// everything that was pushed before it.
pub proof fn lemma_front_index(open: Seq<Node>)
    requires
        open.len() > 0,
    ensures
        0 <= front_index(open) < open.len(),
        forall|j: int| 0 <= j < open.len() ==> !precedes(#[trigger] open[j], open[front_index(open)]),
        forall|j: int|
            0 <= j < front_index(open) ==> precedes(open[front_index(open)], #[trigger] open[j]),
    decreases open.len(),
{
    if open.len() > 1 {
        let init = open.drop_last();
        lemma_front_index(init);
        let best = front_index(init);
        assert(forall|j: int| 0 <= j < init.len() ==> init[j] == open[j]);
        assert forall|j: int| 0 <= j < open.len() implies !precedes(
            #[trigger] open[j],
            open[front_index(open)],
        ) by {
            if j < init.len() {
                assert(!precedes(init[j], init[best]));
            }
        }
        assert forall|j: int| 0 <= j < front_index(open) implies precedes(
            open[front_index(open)],
            #[trigger] open[j],
        ) by {
            assert(!precedes(init[j], init[best]));
            if j < best {
                assert(precedes(init[best], init[j]));
            }
        }
    }
}

/// The scores of a node are those of its board.
pub open spec fn consistent(st: Setting, node: Node) -> bool {
    &&& is_board(st.n, values(node.list))
    &&& node.glob_heuristic == heuristic(st.config, st.n, values(node.list))
    &&& node.total_cost == node.glob_heuristic + node.step * st.weight
}

/// `node` is the start board at depth 0.
pub open spec fn is_root(start: Seq<Number>, node: Node) -> bool {
    node.list == start && node.step == 0 && node.p_id == 0
}

/// `node` was made from a closed node with an id below `bound`: its board
/// is one slide from its parent's, and it lies one deeper.
pub open spec fn descends(st: Setting, closed: Seq<Node>, node: Node, bound: int) -> bool {
    &&& 0 <= node.p_id < bound
    &&& node.step == closed[node.p_id].step + 1
    &&& is_slide(st.n, closed[node.p_id].list, node.list)
}

/// What holds of the `i`-th closed node.
pub open spec fn closed_ok(st: Setting, start: Seq<Number>, closed: Seq<Node>, i: int) -> bool {
    &&& closed[i].id == i
    &&& consistent(st, closed[i])
    &&& 0 <= closed[i].step <= i
    &&& if i == 0 {
        is_root(start, closed[i])
    } else {
        descends(st, closed, closed[i], i)
    }
}

/// What holds of a node on the frontier.
pub open spec fn open_ok(st: Setting, start: Seq<Number>, closed: Seq<Node>, node: Node) -> bool {
    &&& node.id == 0
    &&& consistent(st, node)
    &&& 0 <= node.step <= closed.len()
    &&& if closed.len() == 0 {
        is_root(start, node)
    } else {
        descends(st, closed, node, closed.len() as int)
    }
}

/// What every search from `start` keeps true.
///
/// The closed nodes are numbered in the order in which they were closed
/// and no two have the same key. Until the first node is closed the
/// frontier holds the start board and nothing else. The first is the start board; every other
/// node, closed or open, is one slide and one level away from a node
/// closed before it. All scores are those of the boards.
pub open spec fn sound(st: Setting, start: Seq<Number>, s: Search) -> bool {
    &&& 1 <= st.n <= MAX_LEN
    &&& (st.weight == 0 || st.weight == 1)
    &&& s.closed.len() <= MAX_STATES
    &&& s.closed.len() == 0 ==> s.open.len() <= 1
    &&& forall|i: int| 0 <= i < s.closed.len() ==> #[trigger] closed_ok(st, start, s.closed, i)
    &&& forall|i: int, j: int|
        0 <= i < s.closed.len() && 0 <= j < s.closed.len() && i != j ==> #[trigger] key_at(
            s.closed,
            i,
        ) != #[trigger] key_at(s.closed, j)
    &&& forall|k: int|
        0 <= k < s.open.len() ==> open_ok(st, start, s.closed, #[trigger] s.open[k])
}

/// A search starts sound.
pub proof fn lemma_initial_sound(st: Setting, start: Seq<Number>)
    requires
        1 <= st.n <= MAX_LEN,
        st.weight == 0 || st.weight == 1,
        is_board(st.n, values(start)),
    ensures
        sound(st, start, initial(st, start)),
{
    let s = initial(st, start);
    assert(s.open[0] == scored(st, start, 0, 0));
    assert(0 * st.weight == 0) by (nonlinear_arith);
}

/// An offered board keeps what holds of the frontier, as seen from the
/// closed list that its parent has just joined.
proof fn lemma_try_move_sound(
    st: Setting,
    start: Seq<Number>,
    open: Seq<Node>,
    closed: Seq<Node>,
    parent: Node,
    d: Direction,
)
    requires
        1 <= st.n <= MAX_LEN,
        is_board(st.n, values(parent.list)),
        parent.id == closed.len(),
        0 <= parent.step <= closed.len(),
        forall|k: int|
            0 <= k < open.len() ==> open_ok(st, start, closed.push(parent), #[trigger] open[k]),
    ensures
        forall|k: int|
            0 <= k < try_move(st, open, closed, parent, d, parent.step + 1).len() ==> open_ok(
                st,
                start,
                closed.push(parent),
                #[trigger] try_move(st, open, closed, parent, d, parent.step + 1)[k],
            ),
{
    let vals = values(parent.list);
    let z = first_blank(vals, 0);
    let after = try_move(st, open, closed, parent, d, parent.step + 1);
    lemma_first_blank(vals, 0);
    if z < parent.list.len() && legal(st.n, z, d) {
        let o = neighbour(st.n, z, d);
        let child = slide(parent.list, z, o);
        law_slide_stays_on_board(st.n, z, d);
        assert(vals[z] == parent.list[z].value);
        lemma_slide_keeps_board(st.n, parent.list, z, o);
        assert(slides_to(st.n, parent.list, d, child));
        let node = scored(st, child, parent.step + 1, parent.id);
        assert(closed.push(parent)[parent.id] == parent);
        assert(open_ok(st, start, closed.push(parent), node));
        assert forall|k: int| 0 <= k < after.len() implies open_ok(
            st,
            start,
            closed.push(parent),
            #[trigger] after[k],
        ) by {
            if k < open.len() {
                assert(after[k] == open[k]);
            }
        }
    }
}

/// A step keeps a sound search sound.
pub proof fn lemma_advance_sound(st: Setting, start: Seq<Number>, s: Search)
    requires
        sound(st, start, s),
    ensures
        sound(st, start, advance(st, s).0),
{
    let next = advance(st, s).0;
    if s.open.len() > 0 && s.closed.len() < MAX_STATES {
        lemma_front_index(s.open);
        let i = front_index(s.open);
        let rest = s.open.remove(i);
        let taken = Node { id: s.closed.len() as int, ..s.open[i] };
        assert(open_ok(st, start, s.closed, s.open[i]));
        assert forall|k: int| 0 <= k < rest.len() implies open_ok(
            st,
            start,
            s.closed,
            #[trigger] rest[k],
        ) by {
            if k < i {
                assert(rest[k] == s.open[k]);
            } else {
                assert(rest[k] == s.open[k + 1]);
            }
        }
        if !is_closed(s.closed, values(taken.list)) {
            let closed = s.closed.push(taken);
            assert forall|j: int| 0 <= j < closed.len() implies #[trigger] closed_ok(
                st,
                start,
                closed,
                j,
            ) by {
                if j < s.closed.len() {
                    assert(closed_ok(st, start, s.closed, j));
                    assert(closed[j] == s.closed[j]);
                    if j > 0 {
                        assert(closed[closed[j].p_id] == s.closed[closed[j].p_id]);
                    }
                } else if j > 0 {
                    assert(closed[taken.p_id] == s.closed[taken.p_id]);
                }
            }
            assert forall|a: int, b: int|
                0 <= a < closed.len() && 0 <= b < closed.len() && a != b implies #[trigger] key_at(
                closed,
                a,
            ) != #[trigger] key_at(closed, b) by {
                if a < s.closed.len() {
                    assert(key_at(closed, a) == key_at(s.closed, a));
                }
                if b < s.closed.len() {
                    assert(key_at(closed, b) == key_at(s.closed, b));
                }
            }
            assert forall|k: int| 0 <= k < rest.len() implies open_ok(
                st,
                start,
                closed,
                #[trigger] rest[k],
            ) by {
                assert(open_ok(st, start, s.closed, rest[k]));
                assert(closed[rest[k].p_id] == s.closed[rest[k].p_id]);
            }
            if taken.glob_heuristic > 0 {
                let up = try_move(st, rest, s.closed, taken, Direction::Up, taken.step + 1);
                let down = try_move(st, up, s.closed, taken, Direction::Down, taken.step + 1);
                let left = try_move(st, down, s.closed, taken, Direction::Left, taken.step + 1);
                lemma_try_move_sound(st, start, rest, s.closed, taken, Direction::Up);
                lemma_try_move_sound(st, start, up, s.closed, taken, Direction::Down);
                lemma_try_move_sound(st, start, down, s.closed, taken, Direction::Left);
                lemma_try_move_sound(st, start, left, s.closed, taken, Direction::Right);
            }
        }
    }
}

} // verus!
