use npuzzle::closed::ClosedList;
use npuzzle::config::Config;
use npuzzle::frontier::take_front;
use npuzzle::puzzle::{Elem, Puzzle};
use npuzzle::tile::Number;

fn tiles(values: &[i32]) -> Vec<Number> {
    values.iter().map(|&value| Number { value, x_base: 0, y_base: 0, h: 0 }).collect()
}

fn values(list: &[Number]) -> Vec<i32> {
    list.iter().map(|t| t.value).collect()
}

fn puzzle(len: usize) -> Puzzle {
    Puzzle {
        len,
        numbers: Vec::new(),
        config: Config::new(),
        greedy: 1,
        open_l: Vec::new(),
        close_l: ClosedList::new(),
        final_list: Vec::new(),
    }
}

fn node(board: &[i32], heuristic: i32, total: i32) -> Elem {
    Elem {
        list: tiles(board),
        glob_heuristic: heuristic,
        total_cost: total,
        step: 0,
        id: 0,
        p_id: 0,
    }
}

fn successors(len: usize, board: &[i32]) -> Vec<Vec<i32>> {
    let mut p = puzzle(len);
    let goal = p.get_last_pos(len as i32);
    let parent = Elem {
        list: tiles(board),
        glob_heuristic: 0,
        total_cost: 0,
        step: 0,
        id: 0,
        p_id: 0,
    };
    p.find_move(&goal, &parent, 1);
    p.open_l.iter().map(|e| values(&e.list)).collect()
}

#[test]
fn blank_in_the_top_left_corner_slides_down_and_right() {
    assert_eq!(
        successors(3, &[0, 1, 2, 3, 4, 5, 6, 7, 8]),
        vec![vec![3, 1, 2, 0, 4, 5, 6, 7, 8], vec![1, 0, 2, 3, 4, 5, 6, 7, 8]]
    );
}

#[test]
fn blank_in_the_top_right_corner_slides_down_and_left() {
    assert_eq!(
        successors(3, &[1, 2, 0, 3, 4, 5, 6, 7, 8]),
        vec![vec![1, 2, 5, 3, 4, 0, 6, 7, 8], vec![1, 0, 2, 3, 4, 5, 6, 7, 8]]
    );
}

#[test]
fn blank_in_the_bottom_left_corner_slides_up_and_right() {
    assert_eq!(
        successors(3, &[1, 2, 3, 4, 5, 6, 0, 7, 8]),
        vec![vec![1, 2, 3, 0, 5, 6, 4, 7, 8], vec![1, 2, 3, 4, 5, 6, 7, 0, 8]]
    );
}

#[test]
fn blank_in_the_bottom_right_corner_slides_up_and_left() {
    assert_eq!(
        successors(3, &[1, 2, 3, 4, 5, 6, 7, 8, 0]),
        vec![vec![1, 2, 3, 4, 5, 0, 7, 8, 6], vec![1, 2, 3, 4, 5, 6, 7, 0, 8]]
    );
}

#[test]
fn blank_on_the_second_cell_may_slide_left() {
    assert_eq!(
        successors(3, &[1, 0, 2, 3, 4, 5, 6, 7, 8]),
        vec![
            vec![1, 4, 2, 3, 0, 5, 6, 7, 8],
            vec![0, 1, 2, 3, 4, 5, 6, 7, 8],
            vec![1, 2, 0, 3, 4, 5, 6, 7, 8],
        ]
    );
}

#[test]
fn blank_on_the_left_edge_does_not_wrap_to_the_row_above() {
    assert_eq!(
        successors(3, &[1, 2, 3, 0, 4, 5, 6, 7, 8]),
        vec![
            vec![0, 2, 3, 1, 4, 5, 6, 7, 8],
            vec![1, 2, 3, 6, 4, 5, 0, 7, 8],
            vec![1, 2, 3, 4, 0, 5, 6, 7, 8],
        ]
    );
}

#[test]
fn blank_on_the_right_edge_does_not_wrap_to_the_row_below() {
    assert_eq!(
        successors(3, &[1, 2, 3, 4, 5, 0, 6, 7, 8]),
        vec![
            vec![1, 2, 0, 4, 5, 3, 6, 7, 8],
            vec![1, 2, 3, 4, 5, 8, 6, 7, 0],
            vec![1, 2, 3, 4, 0, 5, 6, 7, 8],
        ]
    );
}

#[test]
fn blank_in_the_centre_slides_up_down_left_right_in_that_order() {
    assert_eq!(
        successors(3, &[1, 2, 3, 4, 0, 5, 6, 7, 8]),
        vec![
            vec![1, 0, 3, 4, 2, 5, 6, 7, 8],
            vec![1, 2, 3, 4, 7, 5, 6, 0, 8],
            vec![1, 2, 3, 0, 4, 5, 6, 7, 8],
            vec![1, 2, 3, 4, 5, 0, 6, 7, 8],
        ]
    );
}

#[test]
fn blank_of_the_smallest_board_cannot_move() {
    assert!(successors(1, &[0]).is_empty());
}

#[test]
fn corner_moves_of_a_board_of_side_two() {
    assert_eq!(successors(2, &[0, 1, 2, 3]), vec![vec![2, 1, 0, 3], vec![1, 0, 2, 3]]);
    assert_eq!(successors(2, &[1, 0, 2, 3]), vec![vec![1, 3, 2, 0], vec![0, 1, 2, 3]]);
    assert_eq!(successors(2, &[1, 2, 0, 3]), vec![vec![0, 2, 1, 3], vec![1, 2, 3, 0]]);
    assert_eq!(successors(2, &[1, 2, 3, 0]), vec![vec![1, 0, 3, 2], vec![1, 2, 0, 3]]);
}

#[test]
fn successors_keep_the_blank_on_the_board_and_in_its_row() {
    for n in 2..=5usize {
        for blank in 0..n * n {
            let mut board: Vec<i32> = (1..=(n * n) as i32).collect();
            board[blank] = 0;
            for next in successors(n, &board) {
                let to = next.iter().position(|&v| v == 0).unwrap();
                assert!(to < n * n);
                let (r0, c0) = (blank / n, blank % n);
                let (r1, c1) = (to / n, to % n);
                let rows = if r0 > r1 { r0 - r1 } else { r1 - r0 };
                let cols = if c0 > c1 { c0 - c1 } else { c1 - c0 };
                assert_eq!(rows + cols, 1);
                assert_eq!(next[blank], board[to]);
            }
        }
    }
}

#[test]
fn number_of_successors_by_place_of_the_blank() {
    let counts: Vec<usize> = (0..9)
        .map(|blank| {
            let mut board: Vec<i32> = (1..=9).collect();
            board[blank] = 0;
            successors(3, &board).len()
        })
        .collect();
    assert_eq!(counts, vec![2, 3, 2, 3, 4, 3, 2, 3, 2]);
}

#[test]
fn a_board_without_blank_has_no_successor() {
    assert!(successors(2, &[1, 2, 3, 3]).is_empty());
}

#[test]
fn only_the_first_blank_is_moved() {
    assert_eq!(successors(2, &[0, 1, 0, 3]), vec![vec![0, 1, 0, 3], vec![1, 0, 0, 3]]);
}

#[test]
fn successors_carry_depth_parent_and_scores() {
    let mut p = puzzle(3);
    let goal = p.get_last_pos(3);
    let parent = Elem {
        list: tiles(&[1, 2, 3, 8, 4, 0, 7, 6, 5]),
        glob_heuristic: 1,
        total_cost: 3,
        step: 2,
        id: 6,
        p_id: 4,
    };
    p.find_move(&goal, &parent, 3);
    let seen: Vec<(Vec<i32>, i32, i32, i32, i32, i32)> = p
        .open_l
        .iter()
        .map(|e| (values(&e.list), e.glob_heuristic, e.total_cost, e.step, e.id, e.p_id))
        .collect();
    assert_eq!(
        seen,
        vec![
            (vec![1, 2, 0, 8, 4, 3, 7, 6, 5], 2, 5, 3, 0, 6),
            (vec![1, 2, 3, 8, 4, 5, 7, 6, 0], 2, 5, 3, 0, 6),
            (vec![1, 2, 3, 8, 0, 4, 7, 6, 5], 0, 3, 3, 0, 6),
        ]
    );
}

#[test]
fn successors_keep_the_cells_written_on_the_tiles() {
    let mut p = puzzle(2);
    p.numbers = tiles(&[1, 2, 3, 0]);
    p.init_array_positions();
    let goal = p.get_last_pos(2);
    let parent = Elem {
        list: p.numbers.clone(),
        glob_heuristic: 0,
        total_cost: 0,
        step: 0,
        id: 0,
        p_id: 0,
    };
    p.find_move(&goal, &parent, 1);
    for e in &p.open_l {
        let cells: Vec<(i32, i32)> = e.list.iter().map(|t| (t.x_base, t.y_base)).collect();
        assert_eq!(cells, vec![(0, 0), (1, 0), (0, 1), (1, 1)]);
    }
}

#[test]
fn a_closed_successor_is_not_pushed() {
    let mut p = puzzle(3);
    let goal = p.get_last_pos(3);
    p.close_l.push(node(&[1, 0, 3, 4, 2, 5, 6, 7, 8], 0, 0));
    p.close_l.push(node(&[1, 2, 3, 4, 5, 0, 6, 7, 8], 0, 0));
    let parent = node(&[1, 2, 3, 4, 0, 5, 6, 7, 8], 0, 0);
    p.find_move(&goal, &parent, 1);
    let seen: Vec<Vec<i32>> = p.open_l.iter().map(|e| values(&e.list)).collect();
    assert_eq!(seen, vec![vec![1, 2, 3, 4, 7, 5, 6, 0, 8], vec![1, 2, 3, 0, 4, 5, 6, 7, 8]]);
    assert_eq!(p.close_l.len(), 2);
}

#[test]
fn move_elem_swaps_the_two_cells_and_pushes_the_board() {
    let mut p = puzzle(2);
    let goal = p.get_last_pos(2);
    let mut parent = node(&[1, 2, 3, 0], 0, 0);
    parent.id = 7;
    p.open_l.push(node(&[3, 2, 1, 0], 9, 9));
    p.move_elem(&goal, &parent, 3, 2, 4);
    assert_eq!(p.open_l.len(), 2);
    assert_eq!(values(&p.open_l[0].list), vec![3, 2, 1, 0]);
    let pushed = &p.open_l[1];
    assert_eq!(values(&pushed.list), vec![1, 2, 0, 3]);
    assert_eq!(
        (pushed.glob_heuristic, pushed.total_cost, pushed.step, pushed.id, pushed.p_id),
        (0, 4, 4, 0, 7)
    );
    assert_eq!(values(&parent.list), vec![1, 2, 3, 0]);
}

#[test]
fn move_elem_turns_a_closed_board_away() {
    let mut p = puzzle(2);
    let goal = p.get_last_pos(2);
    p.close_l.push(node(&[1, 2, 0, 3], 0, 0));
    let parent = node(&[1, 2, 3, 0], 0, 0);
    p.move_elem(&goal, &parent, 3, 2, 1);
    assert!(p.open_l.is_empty());
    p.move_elem(&goal, &parent, 3, 1, 1);
    assert_eq!(p.open_l.len(), 1);
    assert_eq!(values(&p.open_l[0].list), vec![1, 0, 3, 2]);
}

#[test]
fn duplicates_may_stand_on_the_frontier() {
    let mut p = puzzle(2);
    let goal = p.get_last_pos(2);
    let parent = node(&[1, 2, 3, 0], 0, 0);
    p.move_elem(&goal, &parent, 3, 2, 1);
    p.move_elem(&goal, &parent, 3, 2, 1);
    assert_eq!(p.open_l.len(), 2);
    assert_eq!(p.open_l[0], p.open_l[1]);
}

#[test]
fn precedes_orders_by_total_cost_then_heuristic() {
    let a = node(&[0], 5, 10);
    let b = node(&[0], 1, 11);
    let c = node(&[0], 4, 10);
    let d = node(&[0], 5, 10);
    assert!(a.precedes(&b));
    assert!(!b.precedes(&a));
    assert!(c.precedes(&a));
    assert!(!a.precedes(&c));
    assert!(!a.precedes(&d));
    assert!(!d.precedes(&a));
}

#[test]
fn precedes_looks_at_no_other_field() {
    let mut a = node(&[0], 5, 10);
    let mut b = node(&[1, 0], 5, 10);
    a.step = 1;
    b.step = 9;
    a.id = 8;
    b.p_id = 3;
    assert!(!a.precedes(&b));
    assert!(!b.precedes(&a));
}

#[test]
fn take_front_of_an_empty_frontier_is_none() {
    let mut open: Vec<Elem> = Vec::new();
    assert!(take_front(&mut open).is_none());
    assert!(open.is_empty());
}

#[test]
fn take_front_takes_the_lowest_total_cost() {
    let mut open = vec![node(&[1], 7, 9), node(&[2], 0, 8), node(&[3], 8, 8), node(&[4], 1, 12)];
    let first = take_front(&mut open).unwrap();
    assert_eq!(values(&first.list), vec![2]);
    let rest: Vec<Vec<i32>> = open.iter().map(|e| values(&e.list)).collect();
    assert_eq!(rest, vec![vec![1], vec![3], vec![4]]);
    assert_eq!(values(&take_front(&mut open).unwrap().list), vec![3]);
    assert_eq!(values(&take_front(&mut open).unwrap().list), vec![1]);
    assert_eq!(values(&take_front(&mut open).unwrap().list), vec![4]);
    assert!(take_front(&mut open).is_none());
}

#[test]
fn take_front_breaks_ties_by_the_lower_heuristic() {
    let mut open = vec![node(&[1], 5, 9), node(&[2], 3, 9), node(&[3], 4, 9)];
    assert_eq!(values(&take_front(&mut open).unwrap().list), vec![2]);
    assert_eq!(values(&take_front(&mut open).unwrap().list), vec![3]);
    assert_eq!(values(&take_front(&mut open).unwrap().list), vec![1]);
}

#[test]
fn take_front_takes_the_first_pushed_of_equals() {
    let mut open = vec![node(&[1], 5, 9), node(&[2], 3, 7), node(&[3], 3, 7), node(&[4], 3, 7)];
    assert_eq!(values(&take_front(&mut open).unwrap().list), vec![2]);
    assert_eq!(values(&take_front(&mut open).unwrap().list), vec![3]);
    assert_eq!(values(&take_front(&mut open).unwrap().list), vec![4]);
    assert_eq!(values(&take_front(&mut open).unwrap().list), vec![1]);
}
