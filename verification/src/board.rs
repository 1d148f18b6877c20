//! Boards: their values, the slides of the blank, and what can be reached by
//! sliding.

use vstd::prelude::*;
use vstd::arithmetic::div_mod::{lemma_fundamental_div_mod, lemma_fundamental_div_mod_converse};
use vstd::arithmetic::div_mod::lemma_mod_bound;
use crate::tile::Number;

verus! {

/// One slide of the blank.
#[derive(Clone, Copy, PartialEq, Eq, Structural, Debug)]
pub enum Direction {
    Up,
    Down,
    Left,
    Right,
}

/// The values of a board in reading order. Two boards are the same state
/// exactly when their values agree, so this sequence is the key under which
/// a board is remembered.
pub open spec fn values(list: Seq<Number>) -> Seq<int> {
    Seq::new(list.len(), |i: int| list[i].value as int)
}

/// The key of a board as it is stored: the values as they stand on the
/// tiles.
pub open spec fn key_of(list: Seq<Number>) -> Seq<i32> {
    Seq::new(list.len(), |i: int| list[i].value)
}

/// A board of side `n`: one cell per index, and each value below `n * n` on
/// exactly one cell.
pub open spec fn is_board(n: int, vals: Seq<int>) -> bool {
    &&& n >= 1
    &&& vals.len() == n * n
    &&& forall|i: int| 0 <= i < vals.len() ==> 0 <= #[trigger] vals[i] < n * n
    &&& forall|i: int, j: int|
        0 <= i < vals.len() && 0 <= j < vals.len() && i != j ==> #[trigger] vals[i]
            != #[trigger] vals[j]
    &&& forall|v: int| 0 <= v < n * n ==> #[trigger] appears(vals, v)
}

/// The value `v` stands on some cell.
pub open spec fn appears(vals: Seq<int>, v: int) -> bool {
    exists|i: int| 0 <= i < vals.len() && #[trigger] vals[i] == v
}

/// Index of the first blank at or after `from`, or the length where there
/// is none.
pub open spec fn first_blank(vals: Seq<int>, from: int) -> int
    decreases vals.len() - from,
{
    if from < 0 || from >= vals.len() {
        vals.len() as int
    } else if vals[from] == 0 {
        from
    } else {
        first_blank(vals, from + 1)
    }
}

/// Whether the blank at index `i` of a board of side `n` may slide in
/// direction `d`: up and down stay on the board, left and right stay in the
/// row.
pub open spec fn legal(n: int, i: int, d: Direction) -> bool {
    match d {
        Direction::Up => i - n >= 0,
        Direction::Down => i + n < n * n,
        Direction::Left => i % n != 0,
        Direction::Right => i % n != n - 1,
    }
}

/// The index that the blank at `i` reaches by sliding in direction `d`.
pub open spec fn neighbour(n: int, i: int, d: Direction) -> int {
    match d {
        Direction::Up => i - n,
        Direction::Down => i + n,
        Direction::Left => i - 1,
        Direction::Right => i + 1,
    }
}

/// The board after the blank on cell `z` has changed places with the tile
/// on cell `o`: the two values are exchanged, the cells stay as they are.
pub open spec fn slide(list: Seq<Number>, z: int, o: int) -> Seq<Number> {
    list.update(z, Number { value: list[o].value, ..list[z] }).update(
        o,
        Number { value: 0, ..list[o] },
    )
}

/// The values of a board after the blank on cell `z` has changed places
/// with the tile on cell `o`.
pub open spec fn slide_values(vals: Seq<int>, z: int, o: int) -> Seq<int> {
    vals.update(z, vals[o]).update(o, 0)
}

/// The blank of the board `vals` may slide in direction `d`.
pub open spec fn can_slide(n: int, vals: Seq<int>, d: Direction) -> bool {
    0 <= first_blank(vals, 0) < vals.len() && legal(n, first_blank(vals, 0), d)
}

/// The board `vals` after its blank has slid in direction `d`.
pub open spec fn next_board(n: int, vals: Seq<int>, d: Direction) -> Seq<int> {
    slide_values(vals, first_blank(vals, 0), neighbour(n, first_blank(vals, 0), d))
}

/// The slides `moves`, made one after the other and each of them legal,
/// lead from the board `from` to the board `to`.
pub open spec fn reachable_in(n: int, from: Seq<int>, to: Seq<int>, moves: Seq<Direction>) -> bool
    decreases moves.len(),
{
    if moves.len() == 0 {
        from == to
    } else {
        can_slide(n, from, moves[0]) && reachable_in(
            n,
            next_board(n, from, moves[0]),
            to,
            moves.drop_first(),
        )
    }
}

/// Some sequence of legal slides leads from the board `from` to the board
/// `to`.
pub open spec fn reachable(n: int, from: Seq<int>, to: Seq<int>) -> bool {
    exists|moves: Seq<Direction>| reachable_in(n, from, to, moves)
}

/// `b` comes from `a` by sliding its first blank in direction `d`, and the
/// slide is legal.
pub open spec fn slides_to(n: int, a: Seq<Number>, d: Direction, b: Seq<Number>) -> bool {
    let z = first_blank(values(a), 0);
    &&& 0 <= z < a.len()
    &&& legal(n, z, d)
    &&& b == slide(a, z, neighbour(n, z, d))
}

/// `b` comes from `a` by one legal slide of its blank.
pub open spec fn is_slide(n: int, a: Seq<Number>, b: Seq<Number>) -> bool {
    exists|d: Direction| #[trigger] slides_to(n, a, d, b)
}

/// Row and column of a cell index are on the board, and give the index
/// back.
pub proof fn lemma_cell_of_index(n: int, i: int)
    requires
        n >= 1,
        0 <= i < n * n,
    ensures
        0 <= i / n < n,
        0 <= i % n < n,
        i == (i / n) * n + i % n,
{
    lemma_fundamental_div_mod(i, n);
    lemma_mod_bound(i, n);
    let q = i / n;
    assert(q * n == n * q) by (nonlinear_arith);
    assert(0 <= q < n) by (nonlinear_arith)
        requires
            n >= 1,
            0 <= i < n * n,
            i == n * q + i % n,
            0 <= i % n < n,
    ;
}

/// The index of the cell at `row`, `col` is on the board, and has that row
/// and column.
pub proof fn lemma_index_of_cell(n: int, row: int, col: int)
    requires
        n >= 1,
        0 <= row < n,
        0 <= col < n,
    ensures
        0 <= row * n + col < n * n,
        (row * n + col) / n == row,
        (row * n + col) % n == col,
{
    lemma_fundamental_div_mod_converse(row * n + col, n, row, col);
    assert(0 <= row * n + col < n * n) by (nonlinear_arith)
        requires
            n >= 1,
            0 <= row < n,
            0 <= col < n,
    ;
}

/// A legal slide keeps the blank on the board; a slide to the left or to
/// the right keeps it in its row, one up or down keeps it in its column.
pub proof fn law_slide_stays_on_board(n: int, i: int, d: Direction)
    requires
        n >= 1,
        0 <= i < n * n,
        legal(n, i, d),
    ensures
        0 <= neighbour(n, i, d) < n * n,
        neighbour(n, i, d) != i,
        d == Direction::Left || d == Direction::Right ==> neighbour(n, i, d) / n == i / n,
        d == Direction::Left ==> neighbour(n, i, d) % n == i % n - 1,
        d == Direction::Right ==> neighbour(n, i, d) % n == i % n + 1,
        d == Direction::Up ==> neighbour(n, i, d) / n == i / n - 1,
        d == Direction::Down ==> neighbour(n, i, d) / n == i / n + 1,
        d == Direction::Up || d == Direction::Down ==> neighbour(n, i, d) % n == i % n,
{
    lemma_cell_of_index(n, i);
    let row = i / n;
    let col = i % n;
    match d {
        Direction::Up => {
            assert((row - 1) * n == row * n - n) by (nonlinear_arith);
            if row == 0 {
                assert(row * n == 0) by (nonlinear_arith)
                    requires
                        row == 0,
                ;
            }
            lemma_index_of_cell(n, row - 1, col);
        },
        Direction::Down => {
            assert((row + 1) * n == row * n + n) by (nonlinear_arith);
            if row == n - 1 {
                assert(row * n + n == n * n) by (nonlinear_arith)
                    requires
                        row == n - 1,
                ;
            }
            lemma_index_of_cell(n, row + 1, col);
        },
        Direction::Left => {
            lemma_index_of_cell(n, row, col - 1);
        },
        Direction::Right => {
            lemma_index_of_cell(n, row, col + 1);
        },
    }
}

/// The values of a board after a slide are the values before it with two
/// of them exchanged.
pub proof fn lemma_values_of_slide(list: Seq<Number>, z: int, o: int)
    requires
        0 <= z < list.len(),
        0 <= o < list.len(),
    ensures
        values(slide(list, z, o)) == slide_values(values(list), z, o),
{
    assert(values(slide(list, z, o)) =~= slide_values(values(list), z, o));
}

/// One more legal slide at the end of a way makes a way to the board
/// that the slide leads to.
pub proof fn lemma_reachable_one_more(
    n: int,
    from: Seq<int>,
    mid: Seq<int>,
    moves: Seq<Direction>,
    d: Direction,
)
    requires
        reachable_in(n, from, mid, moves),
        can_slide(n, mid, d),
    ensures
        reachable_in(n, from, next_board(n, mid, d), moves.push(d)),
    decreases moves.len(),
{
    let longer = moves.push(d);
    if moves.len() == 0 {
        assert(longer.drop_first() =~= Seq::<Direction>::empty());
        assert(reachable_in(n, next_board(n, mid, d), next_board(n, mid, d), longer.drop_first()));
    } else {
        lemma_reachable_one_more(n, next_board(n, from, moves[0]), mid, moves.drop_first(), d);
        assert(longer.drop_first() =~= moves.drop_first().push(d));
        assert(longer[0] == moves[0]);
    }
}

/// A slide of the blank leaves a board a board.
pub proof fn lemma_slide_keeps_board(n: int, list: Seq<Number>, z: int, o: int)
    requires
        is_board(n, values(list)),
        0 <= z < list.len(),
        0 <= o < list.len(),
        list[z].value == 0,
    ensures
        is_board(n, values(slide(list, z, o))),
        values(slide(list, z, o)) == slide_values(values(list), z, o),
{
    let before = values(list);
    let after = values(slide(list, z, o));
    assert(after =~= slide_values(before, z, o));
    assert forall|i: int, j: int|
        0 <= i < after.len() && 0 <= j < after.len() && i != j implies #[trigger] after[i]
        != #[trigger] after[j] by {
        let pi = if i == z { o } else if i == o { z } else { i };
        let pj = if j == z { o } else if j == o { z } else { j };
        assert(after[i] == before[pi]);
        assert(after[j] == before[pj]);
        assert(pi != pj);
    }
    assert forall|i: int| 0 <= i < after.len() implies 0 <= #[trigger] after[i] < n * n by {
        let pi = if i == z { o } else if i == o { z } else { i };
        assert(after[i] == before[pi]);
    }
    assert forall|v: int| 0 <= v < n * n implies #[trigger] appears(after, v) by {
        assert(appears(before, v));
        let p = choose|p: int| 0 <= p < before.len() && #[trigger] before[p] == v;
        let i = if p == z { o } else if p == o { z } else { p };
        assert(after[i] == v);
    }
}

/// Two boards have the same key exactly when they show the same values,
/// cell by cell: boards that agree are never told apart, and boards that
/// differ on a cell are never taken for one another.
pub proof fn law_key_tells_boards_apart(a: Seq<Number>, b: Seq<Number>)
    ensures
        key_of(a) == key_of(b) <==> values(a) == values(b),
        values(a) == values(b) <==> a.len() == b.len() && forall|i: int|
            0 <= i < a.len() ==> a[i].value == b[i].value,
{
    if key_of(a) == key_of(b) {
        assert(a.len() == key_of(a).len());
        assert(b.len() == key_of(b).len());
        assert forall|i: int| 0 <= i < a.len() implies a[i].value == b[i].value by {
            assert(key_of(a)[i] == key_of(b)[i]);
        }
        assert(values(a) =~= values(b));
    }
    if values(a) == values(b) {
        assert(a.len() == values(a).len());
        assert(b.len() == values(b).len());
        assert forall|i: int| 0 <= i < a.len() implies a[i].value == b[i].value by {
            assert(values(a)[i] == values(b)[i]);
        }
        assert(key_of(a) =~= key_of(b));
    }
    if a.len() == b.len() && forall|i: int| 0 <= i < a.len() ==> a[i].value == b[i].value {
        assert(values(a) =~= values(b));
    }
}

/// The direction that undoes a slide in direction `d`.
pub open spec fn opposite(d: Direction) -> Direction {
    match d {
        Direction::Up => Direction::Down,
        Direction::Down => Direction::Up,
        Direction::Left => Direction::Right,
        Direction::Right => Direction::Left,
    }
}

/// After a legal slide the slide back is legal, and leads back.
pub proof fn lemma_slide_back(n: int, i: int, d: Direction)
    requires
        n >= 1,
        0 <= i < n * n,
        legal(n, i, d),
    ensures
        legal(n, neighbour(n, i, d), opposite(d)),
        neighbour(n, neighbour(n, i, d), opposite(d)) == i,
{
    law_slide_stays_on_board(n, i, d);
    lemma_cell_of_index(n, i);
}

/// The first blank found from `from` on is a blank, nothing before it is,
/// and where the walk finds none there is none.
pub proof fn lemma_first_blank(vals: Seq<int>, from: int)
    requires
        0 <= from <= vals.len(),
    ensures
        from <= first_blank(vals, from) <= vals.len(),
        first_blank(vals, from) < vals.len() ==> vals[first_blank(vals, from)] == 0,
        forall|j: int| from <= j < first_blank(vals, from) ==> vals[j] != 0,
    decreases vals.len() - from,
{
    if from < vals.len() && vals[from] != 0 {
        lemma_first_blank(vals, from + 1);
    }
}

/// Copies a board.
pub fn copy_board(list: &Vec<Number>) -> (copy: Vec<Number>)
    ensures
        copy@ == list@,
{
    let mut copy: Vec<Number> = Vec::new();
    let mut i: usize = 0;
    while i < list.len()
        invariant
            i <= list.len(),
            copy@ == list@.subrange(0, i as int),
        decreases list.len() - i,
    {
        copy.push(list[i]);
        assert(copy@ =~= list@.subrange(0, i + 1));
        i += 1;
    }
    assert(copy@ =~= list@);
    copy
}

/// The key of a board: its values in reading order.
pub fn board_key(list: &Vec<Number>) -> (key: Vec<i32>)
    ensures
        key@ == key_of(list@),
{
    let mut key: Vec<i32> = Vec::new();
    let mut i: usize = 0;
    while i < list.len()
        invariant
            i <= list.len(),
            key@.len() == i,
            forall|j: int| 0 <= j < i ==> key@[j] == list@[j].value,
        decreases list.len() - i,
    {
        key.push(list[i].value);
        i += 1;
    }
    assert(key@ =~= key_of(list@));
    key
}

/// Whether two boards show the same values, cell by cell.
pub fn same_values(a: &Vec<Number>, b: &Vec<Number>) -> (same: bool)
    ensures
        same == (values(a@) == values(b@)),
{
    if a.len() != b.len() {
        assert(values(a@).len() != values(b@).len());
        return false;
    }
    let mut i: usize = 0;
    while i < a.len()
        invariant
            i <= a.len(),
            a.len() == b.len(),
            forall|j: int| 0 <= j < i ==> a@[j].value == b@[j].value,
        decreases a.len() - i,
    {
        if a[i].value != b[i].value {
            assert(values(a@)[i as int] != values(b@)[i as int]);
            return false;
        }
        i += 1;
    }
    assert(values(a@) =~= values(b@));
    true
}

} // verus!
