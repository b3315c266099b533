use game_2048::board::{direction_from_keys, CellValueSave, MoveDirection, VictoryState, CELL_SIDE_NUM};
use game_2048::line::slide_line;
use game_2048::moves::{check_move_allowed, to_down, to_left, to_right, to_up};
use game_2048::rules::{check_result, have_empty};
use game_2048::spawn::{empty_positions, init_cell_value_save, initial_board, move_value, place_new_tile};

fn state(rows: [[u32; 4]; 4], score: u32) -> CellValueSave {
    CellValueSave { value_save: rows.iter().map(|r| r.to_vec()).collect(), score }
}

fn board(save: &CellValueSave) -> Vec<Vec<u32>> {
    save.value_save.clone()
}

fn rows(rows: [[u32; 4]; 4]) -> Vec<Vec<u32>> {
    rows.iter().map(|r| r.to_vec()).collect()
}

fn total(b: &Vec<Vec<u32>>) -> u64 {
    b.iter().take(4).map(|r| r.iter().take(4).map(|&v| v as u64).sum::<u64>()).sum()
}

#[test]
fn slide_line_merges_from_the_front() {
    assert_eq!(slide_line(&vec![2, 4, 2, 2]), (vec![2, 4, 4, 0], 4));
    assert_eq!(slide_line(&vec![2, 2, 2, 2]), (vec![4, 4, 0, 0], 8));
    assert_eq!(slide_line(&vec![0, 2, 0, 2]), (vec![4, 0, 0, 0], 4));
    assert_eq!(slide_line(&vec![4, 4, 8, 0]), (vec![8, 8, 0, 0], 8));
    assert_eq!(slide_line(&vec![0, 0, 0, 0]), (vec![0, 0, 0, 0], 0));
    assert_eq!(slide_line(&vec![2, 4, 8, 16]), (vec![2, 4, 8, 16], 0));
}

#[test]
fn to_right_slides_and_merges_rows() {
    let mut s = state([[2, 4, 2, 2], [2, 0, 2, 0], [2, 2, 2, 2], [0, 0, 0, 0]], 10);
    assert!(to_right(&mut s));
    assert_eq!(board(&s), rows([[0, 2, 4, 4], [0, 0, 0, 4], [0, 0, 4, 4], [0, 0, 0, 0]]));
    assert_eq!(s.score, 10 + 4 + 4 + 8);
}

#[test]
fn to_left_slides_and_merges_rows() {
    let mut s = state([[2, 4, 2, 2], [2, 0, 2, 0], [4, 4, 8, 0], [0, 0, 0, 2]], 0);
    assert!(to_left(&mut s));
    assert_eq!(board(&s), rows([[2, 4, 4, 0], [4, 0, 0, 0], [8, 8, 0, 0], [2, 0, 0, 0]]));
    assert_eq!(s.score, 4 + 4 + 8);
}

#[test]
fn to_up_slides_and_merges_columns() {
    let mut s = state([[2, 0, 4, 2], [2, 0, 0, 4], [4, 0, 4, 8], [4, 2, 0, 16]], 0);
    assert!(to_up(&mut s));
    assert_eq!(board(&s), rows([[4, 2, 8, 2], [8, 0, 0, 4], [0, 0, 0, 8], [0, 0, 0, 16]]));
    assert_eq!(s.score, 4 + 8 + 8);
}

#[test]
fn to_down_slides_and_merges_columns() {
    let mut s = state([[2, 0, 4, 2], [2, 0, 0, 4], [4, 0, 4, 8], [4, 2, 0, 16]], 0);
    assert!(to_down(&mut s));
    assert_eq!(board(&s), rows([[0, 0, 0, 2], [0, 0, 0, 4], [4, 0, 0, 8], [8, 2, 8, 16]]));
    assert_eq!(s.score, 4 + 8 + 8);
}

#[test]
fn a_move_that_changes_nothing_returns_false() {
    let start = [[2, 4, 0, 0], [8, 0, 0, 0], [2, 4, 8, 16], [0, 0, 0, 0]];
    let mut s = state(start, 7);
    assert!(!to_left(&mut s));
    assert_eq!(board(&s), rows(start));
    assert_eq!(s.score, 7);
    assert!(to_right(&mut s));
}

#[test]
fn a_tile_merges_at_most_once_per_move() {
    let mut s = state([[4, 4, 8, 0], [0, 0, 0, 0], [0, 0, 0, 0], [0, 0, 0, 0]], 0);
    assert!(to_left(&mut s));
    assert_eq!(s.value_save[0], vec![8, 8, 0, 0]);
    assert_eq!(s.score, 8);
}

#[test]
fn a_move_keeps_the_sum_of_the_tiles() {
    let start = [[2, 2, 4, 8], [16, 16, 2, 0], [0, 4, 4, 4], [2, 0, 2, 2]];
    for dir in 0..4 {
        let mut s = state(start, 0);
        match dir {
            0 => to_up(&mut s),
            1 => to_down(&mut s),
            2 => to_left(&mut s),
            _ => to_right(&mut s),
        };
        assert_eq!(total(&s.value_save), total(&rows(start)));
    }
}

#[test]
fn cells_outside_the_square_are_left_alone() {
    let mut s = CellValueSave {
        value_save: vec![
            vec![2, 2, 0, 0, 9],
            vec![0, 0, 0, 0, 9],
            vec![0, 0, 0, 0],
            vec![0, 0, 0, 4, 9, 9],
            vec![7],
        ],
        score: 0,
    };
    assert!(to_right(&mut s));
    assert_eq!(
        s.value_save,
        vec![vec![0, 0, 0, 4, 9], vec![0, 0, 0, 0, 9], vec![0, 0, 0, 0], vec![0, 0, 0, 4, 9, 9], vec![7]]
    );
    assert_eq!(s.score, 4);
}

#[test]
fn check_result_sees_a_winning_tile() {
    let mut s = state([[2, 4, 8, 16], [32, 64, 128, 256], [512, 1024, 2048, 2], [4, 8, 16, 32]], 0);
    assert_eq!(check_result(&mut s), VictoryState::VICTORY);
    let mut w = state([[2048, 0, 0, 0], [0, 0, 0, 0], [0, 0, 0, 0], [0, 0, 0, 0]], 0);
    assert_eq!(check_result(&mut w), VictoryState::VICTORY);
}

#[test]
fn check_result_goes_on_with_an_empty_cell() {
    let mut s = state([[2, 4, 8, 16], [32, 64, 128, 256], [512, 1024, 4, 2], [4, 8, 16, 0]], 0);
    assert_eq!(check_result(&mut s), VictoryState::NONE);
}

#[test]
fn check_result_goes_on_with_equal_neighbours() {
    let mut v = state([[2, 4, 8, 16], [2, 64, 128, 256], [512, 1024, 4, 2], [4, 8, 16, 32]], 0);
    assert_eq!(check_result(&mut v), VictoryState::NONE);
    let mut h = state([[2, 4, 8, 16], [32, 64, 64, 256], [512, 1024, 4, 2], [4, 8, 16, 32]], 0);
    assert_eq!(check_result(&mut h), VictoryState::NONE);
    assert_eq!(h.score, 0);
}

#[test]
fn check_result_sees_pairs_in_the_last_row_and_column() {
    let mut row = state([[2, 4, 8, 16], [32, 64, 128, 256], [512, 1024, 4, 2], [8, 8, 16, 32]], 0);
    assert_eq!(check_result(&mut row), VictoryState::NONE);
    let mut col = state([[2, 4, 8, 16], [32, 64, 128, 256], [512, 1024, 4, 2], [4, 8, 16, 2]], 0);
    assert_eq!(check_result(&mut col), VictoryState::NONE);
    let start = [[2, 4, 2, 4], [4, 2, 4, 2], [2, 4, 2, 4], [8, 8, 4, 2]];
    let mut s = state(start, 0);
    assert_eq!(check_result(&mut s), VictoryState::NONE);
    assert!(to_right(&mut s));
}

#[test]
fn a_lost_board_does_not_move() {
    let start = [[2, 4, 8, 16], [32, 64, 128, 256], [512, 1024, 4, 2], [4, 8, 16, 32]];
    let mut s = state(start, 0);
    assert_eq!(check_result(&mut s), VictoryState::DEFEAT);
    assert!(!to_up(&mut s));
    assert!(!to_down(&mut s));
    assert!(!to_left(&mut s));
    assert!(!to_right(&mut s));
    assert_eq!(board(&s), rows(start));
}

#[test]
fn have_empty_finds_empty_cells() {
    let mut full = rows([[2, 4, 8, 16], [32, 64, 128, 256], [512, 1024, 4, 2], [4, 8, 16, 32]]);
    assert!(!have_empty(&mut full));
    let mut one = rows([[2, 4, 8, 16], [32, 64, 128, 256], [512, 1024, 0, 2], [4, 8, 16, 32]]);
    assert!(have_empty(&mut one));
}

#[test]
fn initial_board_places_two_twos() {
    assert_eq!(initial_board(0, 0), rows([[2, 2, 0, 0], [0, 0, 0, 0], [0, 0, 0, 0], [0, 0, 0, 0]]));
    assert_eq!(initial_board(5, 5), rows([[0, 0, 0, 0], [0, 2, 2, 0], [0, 0, 0, 0], [0, 0, 0, 0]]));
    assert_eq!(initial_board(5, 4), rows([[0, 0, 0, 0], [2, 2, 0, 0], [0, 0, 0, 0], [0, 0, 0, 0]]));
    assert_eq!(initial_board(15, 14), rows([[0, 0, 0, 0], [0, 0, 0, 0], [0, 0, 0, 0], [0, 0, 2, 2]]));
}

#[test]
fn init_cell_value_save_deals_two_tiles() {
    for _ in 0..50 {
        let b = init_cell_value_save();
        assert_eq!(b.len(), CELL_SIDE_NUM);
        assert!(b.iter().all(|r| r.len() == CELL_SIDE_NUM));
        let twos = b.iter().flatten().filter(|&&v| v == 2).count();
        let zeros = b.iter().flatten().filter(|&&v| v == 0).count();
        assert_eq!(twos, 2);
        assert_eq!(zeros, 14);
    }
}

#[test]
fn empty_positions_lists_cells_row_by_row() {
    let b = rows([[2, 0, 4, 0], [2, 2, 2, 2], [0, 4, 4, 4], [4, 4, 4, 0]]);
    assert_eq!(empty_positions(&b), vec![(0, 1), (0, 3), (2, 0), (3, 3)]);
}

#[test]
fn place_new_tile_puts_a_two_or_a_four() {
    let mut b = rows([[2, 0, 4, 0], [2, 2, 2, 2], [0, 4, 4, 4], [4, 4, 4, 0]]);
    place_new_tile(&mut b, 0, 2);
    assert_eq!(b, rows([[2, 0, 4, 0], [2, 2, 2, 2], [4, 4, 4, 4], [4, 4, 4, 0]]));
    place_new_tile(&mut b, 7, 0);
    assert_eq!(b, rows([[2, 2, 4, 0], [2, 2, 2, 2], [4, 4, 4, 4], [4, 4, 4, 0]]));
}

#[test]
fn move_value_none_changes_nothing() {
    let start = [[2, 0, 0, 2], [0, 0, 0, 0], [0, 0, 0, 0], [0, 0, 0, 0]];
    let mut s = state(start, 3);
    move_value(MoveDirection::NONE, &mut s);
    assert_eq!(board(&s), rows(start));
    assert_eq!(s.score, 3);
}

#[test]
fn move_value_adds_one_tile_after_a_move() {
    for _ in 0..50 {
        let mut s = state([[2, 0, 0, 2], [0, 0, 0, 0], [0, 0, 4, 0], [0, 0, 0, 0]], 0);
        move_value(MoveDirection::LEFT, &mut s);
        assert_eq!(s.score, 4);
        let expected = rows([[4, 0, 0, 0], [0, 0, 0, 0], [4, 0, 0, 0], [0, 0, 0, 0]]);
        let mut diff = 0;
        for r in 0..4 {
            for c in 0..4 {
                if s.value_save[r][c] != expected[r][c] {
                    assert_eq!(expected[r][c], 0);
                    assert!(s.value_save[r][c] == 2 || s.value_save[r][c] == 4);
                    diff += 1;
                }
            }
        }
        assert_eq!(diff, 1);
    }
}

#[test]
fn move_value_adds_nothing_when_nothing_moved() {
    let start = [[2, 0, 0, 0], [4, 0, 0, 0], [0, 0, 0, 0], [0, 0, 0, 0]];
    let mut s = state(start, 0);
    move_value(MoveDirection::LEFT, &mut s);
    assert_eq!(board(&s), rows(start));
    assert_eq!(s.score, 0);
}

#[test]
fn direction_from_keys_prefers_left_right_down_up() {
    assert_eq!(direction_from_keys(false, false, false, false), MoveDirection::NONE);
    assert_eq!(direction_from_keys(true, false, false, false), MoveDirection::UP);
    assert_eq!(direction_from_keys(true, true, false, false), MoveDirection::DOWN);
    assert_eq!(direction_from_keys(true, true, true, false), MoveDirection::RIGHT);
    assert_eq!(direction_from_keys(true, true, true, true), MoveDirection::LEFT);
    assert_eq!(direction_from_keys(false, true, false, true), MoveDirection::LEFT);
}

#[test]
fn check_move_allowed_spots_overflow() {
    let big = 1u32 << 31;
    let s = state([[big, big, 0, 0], [0, 0, 0, 0], [0, 0, 0, 0], [0, 0, 0, 0]], 0);
    assert!(!check_move_allowed(&s, MoveDirection::LEFT));
    assert!(!check_move_allowed(&s, MoveDirection::RIGHT));
    assert!(check_move_allowed(&s, MoveDirection::UP));
    assert!(check_move_allowed(&s, MoveDirection::DOWN));
    let rich = state([[2, 2, 0, 0], [0, 0, 0, 0], [0, 0, 0, 0], [0, 0, 0, 0]], u32::MAX - 3);
    assert!(!check_move_allowed(&rich, MoveDirection::LEFT));
    assert!(check_move_allowed(&rich, MoveDirection::UP));
    let short = CellValueSave { value_save: vec![vec![0; 4], vec![0; 4], vec![0; 3], vec![0; 4]], score: 0 };
    assert!(!check_move_allowed(&short, MoveDirection::UP));
    let few = CellValueSave { value_save: vec![vec![0; 4], vec![0; 4], vec![0; 4]], score: 0 };
    assert!(!check_move_allowed(&few, MoveDirection::UP));
}

#[test]
fn pushing_right_is_pushing_left_in_the_mirror() {
    let start = [[2, 2, 4, 0], [0, 8, 8, 8], [4, 0, 4, 2], [2, 4, 8, 16]];
    let mut right = state(start, 0);
    to_right(&mut right);
    let mirrored: Vec<[u32; 4]> = start.iter().map(|r| [r[3], r[2], r[1], r[0]]).collect();
    let mut left = state([mirrored[0], mirrored[1], mirrored[2], mirrored[3]], 0);
    to_left(&mut left);
    let back: Vec<Vec<u32>> = left.value_save.iter().map(|r| r.iter().rev().cloned().collect()).collect();
    assert_eq!(back, right.value_save);
    assert_eq!(left.score, right.score);
}

#[test]
fn a_board_that_goes_on_has_a_move() {
    let start = [[2, 4, 8, 16], [32, 64, 128, 256], [512, 1024, 4, 2], [4, 8, 0, 32]];
    let mut s = state(start, 0);
    assert_eq!(check_result(&mut s), VictoryState::NONE);
    let mut moved = false;
    for dir in 0..4 {
        let mut t = state(start, 0);
        moved |= match dir {
            0 => to_up(&mut t),
            1 => to_down(&mut t),
            2 => to_left(&mut t),
            _ => to_right(&mut t),
        };
    }
    assert!(moved);
}

#[test]
fn place_new_tile_takes_any_roll() {
    let mut b = rows([[2, 0, 4, 4], [2, 2, 2, 2], [4, 4, 4, 4], [4, 4, 4, 4]]);
    place_new_tile(&mut b, 123, 0);
    assert_eq!(b[0], vec![2, 2, 4, 4]);
}

#[test]
fn a_second_move_after_settling_changes_nothing() {
    let mut s = state([[2, 2, 4, 8], [0, 4, 0, 4], [2, 0, 0, 0], [16, 8, 8, 16]], 0);
    assert!(to_left(&mut s));
    assert_eq!(board(&s), rows([[4, 4, 8, 0], [8, 0, 0, 0], [2, 0, 0, 0], [16, 16, 16, 0]]));
    let mut t = state([[4, 2, 8, 0], [8, 0, 0, 0], [2, 0, 0, 0], [16, 32, 16, 0]], 5);
    assert!(!to_left(&mut t));
    assert_eq!(t.score, 5);
}

#[test]
fn moves_keep_powers_of_two() {
    let start = [[2, 2, 4, 8], [0, 4, 4, 4], [1024, 1024, 0, 2], [16, 8, 8, 16]];
    for dir in [MoveDirection::UP, MoveDirection::DOWN, MoveDirection::LEFT, MoveDirection::RIGHT] {
        let mut s = state(start, 0);
        move_value(dir, &mut s);
        for r in 0..4 {
            for c in 0..4 {
                let v = s.value_save[r][c];
                assert!(v == 0 || (v >= 2 && v & (v - 1) == 0));
            }
        }
    }
}

#[test]
fn a_move_that_changes_the_board_leaves_an_empty_cell() {
    let start = [[2, 4, 8, 16], [32, 64, 128, 256], [512, 1024, 4, 2], [8, 8, 16, 32]];
    let mut s = state(start, 0);
    assert!(to_left(&mut s));
    assert!(have_empty(&mut s.value_save));
}
