use npuzzle::closed::ClosedList;
use npuzzle::config::Config;
use npuzzle::puzzle::{Elem, Puzzle};
use npuzzle::tile::Number;

fn node(value: i32, id: i32, p_id: i32, step: i32) -> Elem {
    Elem {
        list: vec![Number { value, x_base: 0, y_base: 0, h: 0 }],
        glob_heuristic: 10 - step,
        total_cost: 10,
        step,
        id,
        p_id,
    }
}

fn puzzle_with_closed(closed: Vec<Elem>) -> Puzzle {
    let mut close_l = ClosedList::new();
    for node in closed {
        close_l.push(node);
    }
    Puzzle {
        len: 1,
        numbers: Vec::new(),
        config: Config::new(),
        greedy: 1,
        open_l: Vec::new(),
        close_l,
        final_list: Vec::new(),
    }
}

fn lineage() -> Vec<Elem> {
    vec![
        node(100, 0, 0, 0),
        node(101, 1, 0, 1),
        node(102, 2, 0, 1),
        node(103, 3, 2, 2),
        node(104, 4, 1, 2),
        node(105, 5, 3, 3),
    ]
}

#[test]
fn path_runs_from_the_root_to_the_node() {
    let mut p = puzzle_with_closed(lineage());
    p.get_final_path(&5);
    let ids: Vec<i32> = p.final_list.iter().map(|e| e.id).collect();
    assert_eq!(ids, vec![0, 2, 3, 5]);
    assert_eq!(p.final_list[3], node(105, 5, 3, 3));
    assert_eq!(p.final_list[0], node(100, 0, 0, 0));
    assert_eq!(*p.close_l.entries(), lineage());
}

#[test]
fn path_to_the_root_is_the_root_alone() {
    let mut p = puzzle_with_closed(lineage());
    p.get_final_path(&0);
    assert_eq!(p.final_list, vec![node(100, 0, 0, 0)]);
}

#[test]
fn path_replaces_an_earlier_path() {
    let mut p = puzzle_with_closed(lineage());
    p.get_final_path(&5);
    p.get_final_path(&4);
    let ids: Vec<i32> = p.final_list.iter().map(|e| e.id).collect();
    assert_eq!(ids, vec![0, 1, 4]);
}

#[test]
fn path_has_one_node_more_than_the_depth() {
    let mut p = puzzle_with_closed(lineage());
    for id in 0..6 {
        p.get_final_path(&id);
        assert_eq!(p.final_list.len() as i32, p.close_l.get(id as usize).step + 1);
        assert!(p.final_list.len() <= p.close_l.len());
    }
}

#[test]
fn insert_in_final_takes_the_node_that_is_looked_for() {
    let p = puzzle_with_closed(Vec::new());
    let mut path = vec![node(105, 5, 3, 3)];
    let mut id = 5;
    let mut wanted = 3;
    assert!(p.insert_in_final(&node(103, 3, 2, 2), &mut path, &mut id, &mut wanted));
    assert_eq!(path, vec![node(105, 5, 3, 3), node(103, 3, 2, 2)]);
    assert_eq!(id, 3);
    assert_eq!(wanted, 2);
}

#[test]
fn insert_in_final_passes_over_any_other_node() {
    let p = puzzle_with_closed(Vec::new());
    let mut path = vec![node(105, 5, 3, 3)];
    let mut id = 5;
    let mut wanted = 3;
    assert!(!p.insert_in_final(&node(104, 4, 1, 2), &mut path, &mut id, &mut wanted));
    assert_eq!(path, vec![node(105, 5, 3, 3)]);
    assert_eq!(id, 5);
    assert_eq!(wanted, 3);
}
