use npuzzle::closed::ClosedList;
use npuzzle::config::Config;
use npuzzle::heuristic::MAX_LEN;
use npuzzle::puzzle::{Elem, Puzzle};
use npuzzle::tile::Number;

fn tiles(values: &[i32]) -> Vec<Number> {
    values.iter().map(|&value| Number { value, x_base: 0, y_base: 0, h: 0 }).collect()
}

fn node(board: &[i32], id: i32) -> Elem {
    Elem { list: tiles(board), glob_heuristic: 1, total_cost: 1, step: 0, id, p_id: 0 }
}

fn puzzle(len: usize, board: &[i32]) -> Puzzle {
    Puzzle {
        len,
        numbers: tiles(board),
        config: Config::new(),
        greedy: 1,
        open_l: Vec::new(),
        close_l: ClosedList::new(),
        final_list: Vec::new(),
    }
}

#[test]
fn new_closed_list_is_empty() {
    let list = ClosedList::new();
    assert_eq!(list.len(), 0);
    assert!(list.entries().is_empty());
    assert!(!list.contains(&tiles(&[])));
    assert!(!list.contains(&tiles(&[0])));
}

#[test]
fn closed_nodes_keep_their_order() {
    let mut list = ClosedList::new();
    list.push(node(&[1, 2, 3, 0], 0));
    list.push(node(&[1, 2, 0, 3], 1));
    list.push(node(&[0, 2, 1, 3], 2));
    assert_eq!(list.len(), 3);
    assert_eq!(*list.get(0), node(&[1, 2, 3, 0], 0));
    assert_eq!(*list.get(1), node(&[1, 2, 0, 3], 1));
    assert_eq!(*list.get(2), node(&[0, 2, 1, 3], 2));
    assert_eq!(
        *list.entries(),
        vec![node(&[1, 2, 3, 0], 0), node(&[1, 2, 0, 3], 1), node(&[0, 2, 1, 3], 2)]
    );
}

#[test]
fn closed_boards_are_found_by_their_values() {
    let mut list = ClosedList::new();
    list.push(node(&[1, 2, 3, 0], 0));
    list.push(node(&[1, 2, 0, 3], 1));
    let mut same = tiles(&[1, 2, 0, 3]);
    same[3].x_base = 4;
    same[0].h = 2;
    assert!(list.contains(&same));
    assert!(list.contains(&tiles(&[1, 2, 3, 0])));
    assert!(!list.contains(&tiles(&[0, 2, 1, 3])));
    assert!(!list.contains(&tiles(&[1, 2, 3])));
    assert!(!list.contains(&tiles(&[1, 2, 3, 0, 0])));
}

#[test]
fn values_that_read_alike_when_written_in_a_row_are_told_apart() {
    let mut list = ClosedList::new();
    list.push(node(&[1, 12, 0], 0));
    assert!(!list.contains(&tiles(&[11, 2, 0])));
    assert!(!list.contains(&tiles(&[112, 0])));
    list.push(node(&[11, 2, 0], 1));
    assert!(list.contains(&tiles(&[11, 2, 0])));
    assert!(list.contains(&tiles(&[1, 12, 0])));
}

#[test]
fn every_board_of_side_three_with_the_blank_last_is_told_apart() {
    // All 720 orders of the tiles 1 to 6 on the first six cells.
    let mut boards: Vec<Vec<i32>> = vec![vec![]];
    for _ in 0..6 {
        let mut longer = Vec::new();
        for b in &boards {
            for v in 1..=6 {
                if !b.contains(&v) {
                    let mut c = b.clone();
                    c.push(v);
                    longer.push(c);
                }
            }
        }
        boards = longer;
    }
    assert_eq!(boards.len(), 720);
    let mut list = ClosedList::new();
    for (i, b) in boards.iter().enumerate() {
        let mut board = b.clone();
        board.extend_from_slice(&[7, 8, 0]);
        assert!(!list.contains(&tiles(&board)));
        if i % 2 == 0 {
            list.push(node(&board, (i / 2) as i32));
        }
    }
    assert_eq!(list.len(), 360);
    for (i, b) in boards.iter().enumerate() {
        let mut board = b.clone();
        board.extend_from_slice(&[7, 8, 0]);
        assert_eq!(list.contains(&tiles(&board)), i % 2 == 0);
    }
}

#[test]
fn a_board_closed_twice_is_still_found() {
    let mut list = ClosedList::new();
    list.push(node(&[1, 0], 0));
    list.push(node(&[1, 0], 1));
    assert_eq!(list.len(), 2);
    assert!(list.contains(&tiles(&[1, 0])));
}

#[test]
fn negative_values_have_keys_of_their_own() {
    let mut list = ClosedList::new();
    list.push(node(&[-1, i32::MIN, i32::MAX], 0));
    assert!(list.contains(&tiles(&[-1, i32::MIN, i32::MAX])));
    assert!(!list.contains(&tiles(&[1, i32::MIN, i32::MAX])));
    assert!(!list.contains(&tiles(&[-1, i32::MAX, i32::MIN])));
}

#[test]
fn boards_are_valid_when_each_value_stands_once() {
    assert!(puzzle(1, &[0]).is_valid());
    assert!(puzzle(2, &[1, 2, 3, 0]).is_valid());
    assert!(puzzle(2, &[3, 0, 2, 1]).is_valid());
    assert!(puzzle(3, &[8, 7, 6, 5, 4, 3, 2, 1, 0]).is_valid());
}

#[test]
fn boards_with_a_wrong_number_of_cells_are_not_valid() {
    assert!(!puzzle(2, &[1, 2, 0]).is_valid());
    assert!(!puzzle(2, &[1, 2, 3, 0, 4]).is_valid());
    assert!(!puzzle(3, &[1, 2, 3, 0]).is_valid());
    assert!(!puzzle(1, &[]).is_valid());
}

#[test]
fn boards_with_a_value_twice_or_out_of_range_are_not_valid() {
    assert!(!puzzle(2, &[1, 1, 3, 0]).is_valid());
    assert!(!puzzle(2, &[1, 2, 3, 3]).is_valid());
    assert!(!puzzle(2, &[0, 0, 0, 0]).is_valid());
    assert!(!puzzle(2, &[1, 2, 3, 4]).is_valid());
    assert!(!puzzle(2, &[1, 2, -1, 0]).is_valid());
    assert!(!puzzle(1, &[1]).is_valid());
}

#[test]
fn sides_outside_the_limits_are_not_valid() {
    assert!(!puzzle(0, &[]).is_valid());
    assert!(!puzzle(MAX_LEN + 1, &[0]).is_valid());
}
