use std::collections::HashSet;
use sudoku::board::Board;

fn puzzle() -> Vec<Vec<u32>> {
    vec![
        vec![2, 9, 7, 0, 0, 0, 0, 0, 0],
        vec![1, 0, 0, 6, 0, 0, 0, 0, 0],
        vec![5, 0, 0, 1, 0, 3, 0, 0, 0],
        vec![0, 7, 0, 0, 0, 0, 0, 5, 0],
        vec![0, 0, 8, 0, 0, 0, 1, 0, 0],
        vec![0, 0, 0, 4, 8, 0, 0, 3, 0],
        vec![0, 0, 5, 0, 0, 2, 0, 0, 7],
        vec![0, 0, 0, 0, 0, 9, 0, 0, 0],
        vec![0, 0, 0, 0, 1, 0, 9, 0, 2],
    ]
}

fn empty_rows(from: usize) -> Vec<Vec<u32>> {
    let mut rows = Vec::new();
    for _ in from..9 {
        rows.push(vec![0; 9]);
    }
    rows
}

#[test]
fn renders_initial_grid() {
    let board = Board::new_from_vec(puzzle());
    assert_eq!(
        board.to_str_unannotated(),
        "2 9 7|     |     \n1    |6    |     \n5    |1   3|     \n-----------------\n  7  |     |  5  \n    8|     |1    \n     |4 8  |  3  \n-----------------\n    5|    2|    7\n     |    9|     \n     |  1  |9   2\n"
    );
}

#[test]
fn new_board_has_no_annotations() {
    let mut board = Board::new_from_vec(puzzle());
    assert_eq!(board.get_annotations_for_cell(0, 3), HashSet::new());
    assert_eq!(board.get_annotations_for_cell(0, 0), HashSet::new());
}

#[test]
fn annotate_board_uses_row_column_and_box() {
    let mut board = Board::new_from_vec(puzzle());
    board.annotate_board();
    assert_eq!(board.get_annotations_for_cell(0, 3), HashSet::from([5, 8]));
    assert_eq!(board.get_annotations_for_cell(0, 4), HashSet::from([4, 5]));
    assert_eq!(board.get_annotations_for_cell(1, 1), HashSet::from([3, 4, 8]));
    // filled cells get no candidates
    assert_eq!(board.get_annotations_for_cell(0, 0), HashSet::new());
}

#[test]
fn commit_sets_cell_and_clears_peer_candidates() {
    let mut board = Board::new_from_vec(puzzle());
    board.annotate_board();
    assert!(board.get_annotations_for_cell(1, 1).contains(&3));
    board.update_and_propegate_cell(1, 1, 3);
    assert_eq!(board.get_annotations_for_cell(1, 1), HashSet::new());
    for k in 0..9 {
        assert!(!board.get_annotations_for_cell(1, k).contains(&3));
        assert!(!board.get_annotations_for_cell(k, 1).contains(&3));
    }
    for r in 0..3 {
        for c in 0..3 {
            assert!(!board.get_annotations_for_cell(r, c).contains(&3));
        }
    }
    // a cell outside every group of (1, 1) keeps its candidates
    assert_eq!(board.get_annotations_for_cell(0, 4), HashSet::from([4, 5]));
    assert!(board.to_str_unannotated().starts_with("2 9 7|     |     \n1 3  |6    |"));
    assert!(!board.has_conflict());
}

#[test]
fn solves_what_singles_allow() {
    let mut board = Board::new_from_vec(puzzle());
    assert!(!board.has_conflict());
    board.initial_solve();
    assert_eq!(
        board.to_str_unannotated(),
        "2 9 7|     |     \n1    |6    |     \n5    |1   3|     \n-----------------\n  7 9|2   1|  5  \n    8|9    |1    \n6    |4 8  |  3 9\n-----------------\n9   5|    2|    7\n     |    9|     \n     |  1  |9   2\n"
    );
    assert!(!board.has_conflict());
    let text = board.to_str_unannotated();
    let cells: Vec<char> = text
        .lines()
        .filter(|l| !l.starts_with('-'))
        .flat_map(|l| l.chars().step_by(2).collect::<Vec<char>>())
        .collect();
    assert_eq!(cells.len(), 81);
    for (k, ch) in cells.iter().enumerate() {
        if *ch == ' ' {
            assert!(board.get_annotations_for_cell(k / 9, k % 9).len() >= 2);
        } else {
            assert_eq!(board.get_annotations_for_cell(k / 9, k % 9), HashSet::new());
        }
    }
}

#[test]
fn solving_twice_gives_the_same_board() {
    let mut first = Board::new_from_vec(puzzle());
    let mut second = Board::new_from_vec(puzzle());
    first.initial_solve();
    second.initial_solve();
    assert_eq!(first.to_str_unannotated(), second.to_str_unannotated());
    for r in 0..9 {
        for c in 0..9 {
            assert_eq!(
                first.get_annotations_for_cell(r, c),
                second.get_annotations_for_cell(r, c)
            );
        }
    }
}

#[test]
fn naked_single_is_placed() {
    let mut rows = vec![vec![0, 1, 2, 3, 4, 6, 7, 8, 9]];
    rows.extend(empty_rows(1));
    let mut board = Board::new_from_vec(rows);
    board.annotate_board();
    assert_eq!(board.get_annotations_for_cell(0, 0), HashSet::from([5]));
    board.initial_solve();
    assert!(board.to_str_unannotated().starts_with("5 1 2|3 4 6|7 8 9\n"));
}

#[test]
fn hidden_single_is_placed() {
    let mut rows = empty_rows(0);
    rows[1][3] = 7;
    rows[2][6] = 7;
    rows[3][0] = 7;
    rows[4][1] = 7;
    let mut board = Board::new_from_vec(rows);
    board.annotate_board();
    let before = board.get_annotations_for_cell(0, 2);
    assert!(before.len() > 1);
    assert!(before.contains(&7));
    for c in 0..9 {
        if c != 2 {
            assert!(!board.get_annotations_for_cell(0, c).contains(&7));
        }
    }
    board.initial_solve();
    assert!(board.to_str_unannotated().starts_with("    7|     |     \n"));
}

#[test]
fn duplicate_in_row_is_a_conflict() {
    let mut rows = empty_rows(0);
    rows[0][0] = 4;
    rows[0][8] = 4;
    let board = Board::new_from_vec(rows);
    assert!(board.has_conflict());
}

#[test]
fn duplicate_in_box_is_a_conflict() {
    let mut rows = empty_rows(0);
    rows[3][3] = 6;
    rows[5][5] = 6;
    let board = Board::new_from_vec(rows);
    assert!(board.has_conflict());
    let mut rows = empty_rows(0);
    rows[3][3] = 6;
    rows[6][6] = 6;
    let board = Board::new_from_vec(rows);
    assert!(!board.has_conflict());
}

#[test]
fn empty_grid_stays_empty() {
    let mut board = Board::new_from_vec(empty_rows(0));
    board.initial_solve();
    for r in 0..9 {
        for c in 0..9 {
            assert_eq!(board.get_annotations_for_cell(r, c).len(), 9);
        }
    }
    assert_eq!(
        board.to_str_unannotated(),
        Board::new_from_vec(empty_rows(0)).to_str_unannotated()
    );
}
