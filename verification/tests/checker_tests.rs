use sudoku::checker::{check_grid, digits_in_range, is_val_correct};
use sudoku::grid::{empty_grid, Grid, Value};

const TEST: Grid = [
    [
        [
            [None, None, Some(Value::Definite(1))],
            [None, Some(Value::Definite(4)), Some(Value::Definite(9))],
            [Some(Value::Definite(8)), None, None],
        ],
        [
            [Some(Value::Definite(8)), Some(Value::Definite(4)), None],
            [Some(Value::Definite(5)), Some(Value::Definite(7)), None],
            [Some(Value::Definite(1)), None, None],
        ],
        [
            [Some(Value::Definite(6)), None, None],
            [Some(Value::Definite(8)), None, Some(Value::Definite(1))],
            [Some(Value::Definite(5)), None, None],
        ],
    ],
    [
        [
            [None, None, None],
            [
                Some(Value::Definite(2)),
                Some(Value::Definite(1)),
                Some(Value::Definite(8)),
            ],
            [Some(Value::Definite(4)), None, None],
        ],
        [
            [None, Some(Value::Definite(6)), Some(Value::Definite(1))],
            [
                Some(Value::Definite(4)),
                Some(Value::Definite(5)),
                Some(Value::Definite(7)),
            ],
            [None, None, None],
        ],
        [
            [Some(Value::Definite(2)), None, None],
            [
                Some(Value::Definite(3)),
                Some(Value::Definite(9)),
                Some(Value::Definite(6)),
            ],
            [Some(Value::Definite(1)), None, Some(Value::Definite(7))],
        ],
    ],
    [
        [
            [Some(Value::Definite(3)), None, None],
            [Some(Value::Definite(1)), None, None],
            [None, None, Some(Value::Definite(2))],
        ],
        [
            [None, Some(Value::Definite(1)), Some(Value::Definite(5))],
            [None, None, None],
            [Some(Value::Definite(7)), None, None],
        ],
        [
            [None, Some(Value::Definite(2)), Some(Value::Definite(8))],
            [None, Some(Value::Definite(6)), None],
            [Some(Value::Definite(4)), Some(Value::Definite(1)), None],
        ],
    ],
];

#[test]
fn incorrect_check() {
    let mut test = TEST.clone();
    test[0][0][1][2] = Some(Value::Definite(1));
    assert!(!check_grid(&test));
}

const SOLVED: Grid = [
    [
        [
            [Some(Value::Maybe(5)), Some(Value::Maybe(3)), Some(Value::Definite(1))],
            [Some(Value::Maybe(6)), Some(Value::Definite(4)), Some(Value::Definite(9))],
            [Some(Value::Definite(8)), Some(Value::Maybe(2)), Some(Value::Maybe(7))],
        ],
        [
            [Some(Value::Definite(8)), Some(Value::Definite(4)), Some(Value::Maybe(9))],
            [Some(Value::Definite(5)), Some(Value::Definite(7)), Some(Value::Maybe(2))],
            [Some(Value::Definite(1)), Some(Value::Maybe(3)), Some(Value::Maybe(6))],
        ],
        [
            [Some(Value::Definite(6)), Some(Value::Maybe(7)), Some(Value::Maybe(2))],
            [Some(Value::Definite(8)), Some(Value::Maybe(3)), Some(Value::Definite(1))],
            [Some(Value::Definite(5)), Some(Value::Maybe(4)), Some(Value::Maybe(9))],
        ],
    ],
    [
        [
            [Some(Value::Maybe(7)), Some(Value::Maybe(5)), Some(Value::Maybe(3))],
            [Some(Value::Definite(2)), Some(Value::Definite(1)), Some(Value::Definite(8))],
            [Some(Value::Definite(4)), Some(Value::Maybe(9)), Some(Value::Maybe(6))],
        ],
        [
            [Some(Value::Maybe(9)), Some(Value::Definite(6)), Some(Value::Definite(1))],
            [Some(Value::Definite(4)), Some(Value::Definite(5)), Some(Value::Definite(7))],
            [Some(Value::Maybe(3)), Some(Value::Maybe(2)), Some(Value::Maybe(8))],
        ],
        [
            [Some(Value::Definite(2)), Some(Value::Maybe(8)), Some(Value::Maybe(4))],
            [Some(Value::Definite(3)), Some(Value::Definite(9)), Some(Value::Definite(6))],
            [Some(Value::Definite(1)), Some(Value::Maybe(5)), Some(Value::Definite(7))],
        ],
    ],
    [
        [
            [Some(Value::Definite(3)), Some(Value::Maybe(7)), Some(Value::Maybe(4))],
            [Some(Value::Definite(1)), Some(Value::Maybe(8)), Some(Value::Maybe(5))],
            [Some(Value::Maybe(9)), Some(Value::Maybe(6)), Some(Value::Definite(2))],
        ],
        [
            [Some(Value::Maybe(6)), Some(Value::Definite(1)), Some(Value::Definite(5))],
            [Some(Value::Maybe(2)), Some(Value::Maybe(9)), Some(Value::Maybe(4))],
            [Some(Value::Definite(7)), Some(Value::Maybe(8)), Some(Value::Maybe(3))],
        ],
        [
            [Some(Value::Maybe(9)), Some(Value::Definite(2)), Some(Value::Definite(8))],
            [Some(Value::Maybe(7)), Some(Value::Definite(6)), Some(Value::Maybe(3))],
            [Some(Value::Definite(4)), Some(Value::Definite(1)), Some(Value::Maybe(5))],
        ],
    ],
];

#[test]
fn check_accepts_a_solution_whatever_the_tags() {
    assert!(check_grid(&SOLVED));
    let mut all_clues = SOLVED;
    for r in 0..3 {
        for c in 0..3 {
            for sr in 0..3 {
                for sc in 0..3 {
                    let d = SOLVED[r][c][sr][sc].unwrap().unwrap();
                    all_clues[r][c][sr][sc] = Some(Value::Definite(d));
                }
            }
        }
    }
    assert!(check_grid(&all_clues));
}

#[test]
fn check_rejects_a_grid_that_is_not_full() {
    assert!(!check_grid(&TEST));
    assert!(!check_grid(&empty_grid()));
    let mut g = SOLVED;
    g[2][2][2][2] = None;
    assert!(!check_grid(&g));
}

#[test]
fn check_rejects_a_digit_repeated_in_its_row() {
    // the first row of the board is 5 3 1 | 8 4 9 | 6 7 2
    let mut g = SOLVED;
    g[0][2][0][1] = Some(Value::Definite(5));
    assert!(!check_grid(&g));
}

#[test]
fn check_rejects_a_swap_that_only_breaks_columns() {
    let mut g = SOLVED;
    let a = g[0][0][0][0];
    g[0][0][0][0] = g[0][1][0][0];
    g[0][1][0][0] = a;
    assert!(!check_grid(&g));
}

#[test]
fn check_does_not_look_at_the_range_of_the_digits() {
    let mut g = SOLVED;
    for r in 0..3 {
        for c in 0..3 {
            for sr in 0..3 {
                for sc in 0..3 {
                    if g[r][c][sr][sc].unwrap().unwrap() == 9 {
                        g[r][c][sr][sc] = Some(Value::Definite(0));
                    }
                }
            }
        }
    }
    assert!(check_grid(&g));
    assert!(!digits_in_range(&g));
}

#[test]
fn digits_in_range_wants_one_to_nine() {
    assert!(digits_in_range(&SOLVED));
    assert!(digits_in_range(&TEST));
    assert!(digits_in_range(&empty_grid()));
    let mut g = TEST;
    g[1][1][1][1] = Some(Value::Maybe(10));
    assert!(!digits_in_range(&g));
    g[1][1][1][1] = Some(Value::Definite(0));
    assert!(!digits_in_range(&g));
    g[1][1][1][1] = Some(Value::Definite(9));
    assert!(digits_in_range(&g));
}

#[test]
fn is_val_correct_tests_box_row_and_column() {
    // first cell of the puzzle: 5 and 7 are the digits left
    assert!(is_val_correct(TEST, 5, 0, 0, 0, 0));
    assert!(is_val_correct(TEST, 7, 0, 0, 0, 0));
    assert!(!is_val_correct(TEST, 9, 0, 0, 0, 0)); // in the box
    assert!(!is_val_correct(TEST, 6, 0, 0, 0, 0)); // in the row
    assert!(!is_val_correct(TEST, 2, 0, 0, 0, 0)); // in the column
}

#[test]
fn every_unit_of_a_checked_grid_holds_one_to_nine() {
    assert!(check_grid(&SOLVED));
    for a in 0..3 {
        for b in 0..3 {
            let mut in_box = [0u8; 10];
            let mut in_row = [0u8; 10];
            let mut in_col = [0u8; 10];
            for x in 0..3 {
                for y in 0..3 {
                    in_box[SOLVED[a][b][x][y].unwrap().unwrap() as usize] += 1;
                    in_row[SOLVED[a][x][b][y].unwrap().unwrap() as usize] += 1;
                    in_col[SOLVED[x][a][y][b].unwrap().unwrap() as usize] += 1;
                }
            }
            for d in 1..10 {
                assert_eq!(in_box[d], 1);
                assert_eq!(in_row[d], 1);
                assert_eq!(in_col[d], 1);
            }
        }
    }
}
