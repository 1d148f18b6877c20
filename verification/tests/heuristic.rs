use npuzzle::closed::ClosedList;
use npuzzle::config::Config;
use npuzzle::puzzle::{Elem, Puzzle};
use npuzzle::tile::Number;

fn tiles(values: &[i32]) -> Vec<Number> {
    values.iter().map(|&value| Number { value, x_base: 0, y_base: 0, h: 0 }).collect()
}

fn puzzle(len: usize, config: Config) -> Puzzle {
    Puzzle {
        len,
        numbers: Vec::new(),
        config,
        greedy: if config.greedy { 0 } else { 1 },
        open_l: Vec::new(),
        close_l: ClosedList::new(),
        final_list: Vec::new(),
    }
}

fn flags(hamming: bool, linear_conflict: bool, tiles_out: bool) -> Config {
    Config { greedy: false, hamming, linear_conflict, tiles_out }
}

fn score(len: usize, config: Config, values: &[i32], step: i32) -> Elem {
    let p = puzzle(len, config);
    let goal = p.get_last_pos(len as i32);
    let mut elem =
        Elem { list: tiles(values), glob_heuristic: -1, total_cost: -1, step, id: 3, p_id: 2 };
    p.get_heuristics(&goal, &mut elem);
    elem
}

fn h(len: usize, config: Config, values: &[i32]) -> i32 {
    score(len, config, values, 0).glob_heuristic
}

const ROWS: [i32; 9] = [1, 2, 3, 4, 5, 6, 7, 8, 0];
const SWAPPED: [i32; 9] = [2, 1, 3, 8, 0, 4, 7, 6, 5];
const ROTATED: [i32; 9] = [3, 1, 2, 8, 0, 4, 7, 6, 5];
const MIXED: [i32; 9] = [2, 0, 1, 8, 3, 4, 7, 6, 5];
const GOAL: [i32; 9] = [1, 2, 3, 8, 0, 4, 7, 6, 5];

#[test]
fn manhattan_distance_alone() {
    assert_eq!(h(3, flags(false, false, false), &ROWS), 8);
    assert_eq!(h(3, flags(false, false, false), &SWAPPED), 2);
    assert_eq!(h(3, flags(false, false, false), &ROTATED), 4);
    assert_eq!(h(3, flags(false, false, false), &MIXED), 5);
}

#[test]
fn tiles_out_of_row_and_column_adds_one_per_wrong_row_and_column() {
    assert_eq!(h(3, flags(false, false, true), &ROWS), 8 + 7);
    assert_eq!(h(3, flags(false, false, true), &SWAPPED), 2 + 2);
    assert_eq!(h(3, flags(false, false, true), &MIXED), 5 + 4);
}

#[test]
fn hamming_adds_one_per_misplaced_tile() {
    assert_eq!(h(3, flags(true, false, false), &ROWS), 8 + 4);
    assert_eq!(h(3, flags(true, false, false), &SWAPPED), 2 + 2);
    assert_eq!(h(3, flags(true, false, false), &MIXED), 5 + 3);
}

#[test]
fn hamming_off_adds_nothing_for_a_wrong_row() {
    // Tile 3 stands one row below its goal row.
    assert_eq!(h(3, flags(false, false, false), &MIXED), 5);
}

#[test]
fn linear_conflict_counts_the_row_mates_on_the_way() {
    assert_eq!(h(3, flags(false, true, false), &SWAPPED), 2 + 2);
    assert_eq!(h(3, flags(false, true, false), &ROTATED), 4 + 4);
    assert_eq!(h(3, flags(false, true, false), &ROWS), 8);
}

#[test]
fn linear_conflict_skips_the_blank_and_strangers_to_the_row() {
    assert_eq!(h(3, flags(false, true, false), &MIXED), 5 + 1);
}

#[test]
fn linear_conflict_counts_the_tile_at_index_zero() {
    // Tile 1 walks left to column 0, where tile 2 stands on cell 0.
    let p = puzzle(3, flags(false, true, false));
    let goal = p.get_last_pos(3);
    assert_eq!(p.get_linear_conflict(&goal, &tiles(&SWAPPED), 1), 1);
    assert_eq!(p.get_linear_conflict(&goal, &tiles(&SWAPPED), 0), 1);
}

#[test]
fn linear_conflict_of_single_tiles() {
    let p = puzzle(3, flags(false, true, false));
    let goal = p.get_last_pos(3);
    let board = tiles(&ROTATED);
    assert_eq!(p.get_linear_conflict(&goal, &board, 0), 2);
    assert_eq!(p.get_linear_conflict(&goal, &board, 1), 1);
    assert_eq!(p.get_linear_conflict(&goal, &board, 2), 1);
    assert_eq!(p.get_linear_conflict(&goal, &board, 3), 0);
    let mixed = tiles(&MIXED);
    assert_eq!(p.get_linear_conflict(&goal, &mixed, 0), 0);
    assert_eq!(p.get_linear_conflict(&goal, &mixed, 2), 1);
}

#[test]
fn options_add_up() {
    assert_eq!(h(3, flags(true, true, true), &SWAPPED), 2 + 2 + 2 + 2);
    assert_eq!(h(3, flags(true, true, true), &ROWS), 8 + 4 + 0 + 7);
    assert_eq!(h(3, flags(true, false, true), &MIXED), 5 + 3 + 4);
    assert_eq!(h(3, flags(true, true, true), &MIXED), 5 + 3 + 1 + 4);
}

#[test]
fn goal_board_scores_zero_under_every_option() {
    for bits in 0..8 {
        let config = flags(bits & 1 != 0, bits & 2 != 0, bits & 4 != 0);
        assert_eq!(h(3, config, &GOAL), 0);
        assert_eq!(h(2, config, &[1, 2, 0, 3]), 0);
        assert_eq!(h(1, config, &[0]), 0);
        assert_eq!(
            h(4, config, &[1, 2, 3, 4, 12, 13, 14, 5, 11, 0, 15, 6, 10, 9, 8, 7]),
            0
        );
    }
}

#[test]
fn row_major_order_is_not_the_goal() {
    assert!(h(3, flags(false, false, false), &ROWS) > 0);
    assert_eq!(
        h(4, flags(false, false, false), &[1, 2, 3, 4, 5, 6, 7, 8, 9, 10, 11, 12, 13, 14, 15, 0]),
        // the distances of the tiles 5 to 15 to their cells on the spiral
        3 + 3 + 3 + 3 + 2 + 2 + 2 + 4 + 3 + 3 + 1
    );
}

#[test]
fn more_options_never_lower_the_heuristic() {
    let boards: [[i32; 9]; 5] = [ROWS, SWAPPED, ROTATED, MIXED, [8, 7, 6, 5, 4, 3, 2, 1, 0]];
    for board in boards.iter() {
        for fewer in 0..8 {
            for more in 0..8 {
                if fewer & more != fewer {
                    continue;
                }
                let low = h(3, flags(fewer & 1 != 0, fewer & 2 != 0, fewer & 4 != 0), board);
                let high = h(3, flags(more & 1 != 0, more & 2 != 0, more & 4 != 0), board);
                assert!(low <= high);
            }
        }
    }
}

#[test]
fn total_cost_adds_the_depth_in_a_star_mode() {
    let node = score(3, flags(false, false, false), &ROWS, 5);
    assert_eq!(node.glob_heuristic, 8);
    assert_eq!(node.total_cost, 13);
}

#[test]
fn total_cost_is_the_heuristic_in_greedy_mode() {
    let config = Config { greedy: true, hamming: false, linear_conflict: false, tiles_out: false };
    let node = score(3, config, &ROWS, 5);
    assert_eq!(node.glob_heuristic, 8);
    assert_eq!(node.total_cost, 8);
}

#[test]
fn scoring_leaves_board_depth_and_ids_alone() {
    let node = score(3, flags(true, true, true), &MIXED, 4);
    let values: Vec<i32> = node.list.iter().map(|t| t.value).collect();
    assert_eq!(values, MIXED.to_vec());
    assert_eq!((node.step, node.id, node.p_id), (4, 3, 2));
}

#[test]
fn scoring_does_not_read_the_cells_written_on_the_tiles() {
    let p = puzzle(3, flags(true, true, true));
    let goal = p.get_last_pos(3);
    let mut list = tiles(&MIXED);
    for t in list.iter_mut() {
        t.x_base = 2;
        t.y_base = 0;
    }
    let mut elem = Elem { list, glob_heuristic: 0, total_cost: 0, step: 0, id: 0, p_id: 0 };
    p.get_heuristics(&goal, &mut elem);
    assert_eq!(elem.glob_heuristic, 13);
}
