use sudoku::checker::check_grid;
use sudoku::grid::{empty_grid, Grid, Value};
use sudoku::solver::{RecResult, SolveResult, Solver};

const TEST: Grid = [
    [
        [
            [None, None, Some(Value::Definite(1))],
            [None, Some(Value::Definite(4)), Some(Value::Definite(9))],
            [Some(Value::Definite(8)), None, None],
        ],
        [
            [Some(Value::Definite(8)), Some(Value::Definite(4)), None],
            [Some(Value::Definite(5)), Some(Value::Definite(7)), None],
            [Some(Value::Definite(1)), None, None],
        ],
        [
            [Some(Value::Definite(6)), None, None],
            [Some(Value::Definite(8)), None, Some(Value::Definite(1))],
            [Some(Value::Definite(5)), None, None],
        ],
    ],
    [
        [
            [None, None, None],
            [
                Some(Value::Definite(2)),
                Some(Value::Definite(1)),
                Some(Value::Definite(8)),
            ],
            [Some(Value::Definite(4)), None, None],
        ],
        [
            [None, Some(Value::Definite(6)), Some(Value::Definite(1))],
            [
                Some(Value::Definite(4)),
                Some(Value::Definite(5)),
                Some(Value::Definite(7)),
            ],
            [None, None, None],
        ],
        [
            [Some(Value::Definite(2)), None, None],
            [
                Some(Value::Definite(3)),
                Some(Value::Definite(9)),
                Some(Value::Definite(6)),
            ],
            [Some(Value::Definite(1)), None, Some(Value::Definite(7))],
        ],
    ],
    [
        [
            [Some(Value::Definite(3)), None, None],
            [Some(Value::Definite(1)), None, None],
            [None, None, Some(Value::Definite(2))],
        ],
        [
            [None, Some(Value::Definite(1)), Some(Value::Definite(5))],
            [None, None, None],
            [Some(Value::Definite(7)), None, None],
        ],
        [
            [None, Some(Value::Definite(2)), Some(Value::Definite(8))],
            [None, Some(Value::Definite(6)), None],
            [Some(Value::Definite(4)), Some(Value::Definite(1)), None],
        ],
    ],
];

const SOLVED: Grid = [
    [
        [
            [Some(Value::Maybe(5)), Some(Value::Maybe(3)), Some(Value::Definite(1))],
            [Some(Value::Maybe(6)), Some(Value::Definite(4)), Some(Value::Definite(9))],
            [Some(Value::Definite(8)), Some(Value::Maybe(2)), Some(Value::Maybe(7))],
        ],
        [
            [Some(Value::Definite(8)), Some(Value::Definite(4)), Some(Value::Maybe(9))],
            [Some(Value::Definite(5)), Some(Value::Definite(7)), Some(Value::Maybe(2))],
            [Some(Value::Definite(1)), Some(Value::Maybe(3)), Some(Value::Maybe(6))],
        ],
        [
            [Some(Value::Definite(6)), Some(Value::Maybe(7)), Some(Value::Maybe(2))],
            [Some(Value::Definite(8)), Some(Value::Maybe(3)), Some(Value::Definite(1))],
            [Some(Value::Definite(5)), Some(Value::Maybe(4)), Some(Value::Maybe(9))],
        ],
    ],
    [
        [
            [Some(Value::Maybe(7)), Some(Value::Maybe(5)), Some(Value::Maybe(3))],
            [Some(Value::Definite(2)), Some(Value::Definite(1)), Some(Value::Definite(8))],
            [Some(Value::Definite(4)), Some(Value::Maybe(9)), Some(Value::Maybe(6))],
        ],
        [
            [Some(Value::Maybe(9)), Some(Value::Definite(6)), Some(Value::Definite(1))],
            [Some(Value::Definite(4)), Some(Value::Definite(5)), Some(Value::Definite(7))],
            [Some(Value::Maybe(3)), Some(Value::Maybe(2)), Some(Value::Maybe(8))],
        ],
        [
            [Some(Value::Definite(2)), Some(Value::Maybe(8)), Some(Value::Maybe(4))],
            [Some(Value::Definite(3)), Some(Value::Definite(9)), Some(Value::Definite(6))],
            [Some(Value::Definite(1)), Some(Value::Maybe(5)), Some(Value::Definite(7))],
        ],
    ],
    [
        [
            [Some(Value::Definite(3)), Some(Value::Maybe(7)), Some(Value::Maybe(4))],
            [Some(Value::Definite(1)), Some(Value::Maybe(8)), Some(Value::Maybe(5))],
            [Some(Value::Maybe(9)), Some(Value::Maybe(6)), Some(Value::Definite(2))],
        ],
        [
            [Some(Value::Maybe(6)), Some(Value::Definite(1)), Some(Value::Definite(5))],
            [Some(Value::Maybe(2)), Some(Value::Maybe(9)), Some(Value::Maybe(4))],
            [Some(Value::Definite(7)), Some(Value::Maybe(8)), Some(Value::Maybe(3))],
        ],
        [
            [Some(Value::Maybe(9)), Some(Value::Definite(2)), Some(Value::Definite(8))],
            [Some(Value::Maybe(7)), Some(Value::Definite(6)), Some(Value::Maybe(3))],
            [Some(Value::Definite(4)), Some(Value::Definite(1)), Some(Value::Maybe(5))],
        ],
    ],
];

#[test]
fn test_grid_row_check() {
    let s = Solver::new(TEST);
    assert!(s.is_in_grid_row(&6));
}

#[test]
fn test_grid_col_check() {
    let s = Solver::new(TEST);
    assert!(s.is_in_grid_col(&8));
}

#[test]
fn test_is_correct() {
    let mut s = Solver::new(TEST);
    assert!(!s.is_correct(&1));
    s.next();
    s.next();
    s.next();
    assert!(!s.is_correct(&7));
}

#[test]
fn test_this_val() {
    let mut s = Solver::new(TEST);
    s.next();
    s.next();
    assert_eq!(s.this_val(), Some(Value::Definite(1)));
}

#[test]
fn test_solve() {
    let mut solve = Solver::new(TEST);
    solve.rec_solve();
    assert_eq!(&solve.get_solved().unwrap(), &SOLVED);
}

/// A puzzle whose first cell has no candidate: its row holds 1 to 8 and
/// its column holds 9.
fn dead_end() -> Grid {
    let mut g = empty_grid();
    g[0][0][0][1] = Some(Value::Definite(1));
    g[0][0][0][2] = Some(Value::Definite(2));
    g[0][1][0][0] = Some(Value::Definite(3));
    g[0][1][0][1] = Some(Value::Definite(4));
    g[0][1][0][2] = Some(Value::Definite(5));
    g[0][2][0][0] = Some(Value::Definite(6));
    g[0][2][0][1] = Some(Value::Definite(7));
    g[0][2][0][2] = Some(Value::Definite(8));
    g[1][0][0][0] = Some(Value::Definite(9));
    g
}

#[test]
fn solve_finds_the_solution_and_keeps_the_clues() {
    let mut solver = Solver::new(TEST);
    assert_eq!(solver.solve(), SolveResult::Solved);
    let solved = solver.get_solved().unwrap();
    assert_eq!(solved, SOLVED);
    assert!(check_grid(&solved));
    for r in 0..3 {
        for c in 0..3 {
            for sr in 0..3 {
                for sc in 0..3 {
                    if TEST[r][c][sr][sc].is_some() {
                        assert_eq!(solved[r][c][sr][sc], TEST[r][c][sr][sc]);
                    } else {
                        assert!(matches!(solved[r][c][sr][sc], Some(Value::Maybe(1..=9))));
                    }
                }
            }
        }
    }
}

#[test]
fn solve_leaves_the_cursor_on_the_first_cell() {
    let mut solver = Solver::new(TEST);
    solver.next();
    solver.next();
    assert_eq!(solver.solve(), SolveResult::Solved);
    assert_eq!(solver.position(), (0, 0, 0, 0));
    assert_eq!(solver.get_solved().unwrap(), SOLVED);
}

#[test]
fn solve_fills_a_single_empty_cell_with_the_missing_digit() {
    let mut puzzle = SOLVED;
    puzzle[1][2][0][1] = None;
    let mut solver = Solver::new(puzzle);
    assert_eq!(solver.solve(), SolveResult::Solved);
    let solved = solver.get_solved().unwrap();
    assert_eq!(solved[1][2][0][1], Some(Value::Maybe(8)));
    let mut expected = puzzle;
    expected[1][2][0][1] = Some(Value::Maybe(8));
    assert_eq!(solved, expected);
}

#[test]
fn a_single_empty_cell_has_one_candidate() {
    let mut puzzle = SOLVED;
    puzzle[1][2][0][1] = None;
    let mut solver = Solver::new(puzzle);
    // the cell is the 47th in search order
    for _ in 0..(27 + 18 + 1) {
        solver.next();
    }
    assert_eq!(solver.position(), (1, 2, 0, 1));
    assert_eq!(solver.this_val(), None);
    assert_eq!(solver.list_correct(), vec![8]);
    assert_eq!(solver.rec_solve(), RecResult::Done);
    assert_eq!(solver.position(), (1, 2, 0, 1));
    assert_eq!(solver.this_val(), Some(Value::Maybe(8)));
}

#[test]
fn solve_fails_on_a_cell_without_candidates() {
    let puzzle = dead_end();
    let mut solver = Solver::new(puzzle);
    assert!(solver.list_correct().is_empty());
    assert_eq!(solver.solve(), SolveResult::FailedSolve);
    assert_eq!(solver.get_solved(), None);
    let mut again = Solver::new(puzzle);
    assert_eq!(again.rec_solve(), RecResult::Back);
    assert_eq!(again.position(), (0, 0, 0, 0));
}

#[test]
fn solve_of_a_full_grid_hands_the_grid_back() {
    let mut solver = Solver::new(SOLVED);
    assert_eq!(solver.get_solved(), None);
    assert_eq!(solver.solve(), SolveResult::Solved);
    assert_eq!(solver.get_solved(), Some(SOLVED));
    let mut other = Solver::new(SOLVED);
    assert_eq!(other.rec_solve(), RecResult::Done);
    assert_eq!(other.get_solved(), Some(SOLVED));
}

#[test]
fn get_solved_gives_a_grid_exactly_after_a_find() {
    let mut solver = Solver::new(TEST);
    assert_eq!(solver.get_solved(), None);
    assert_eq!(solver.solve(), SolveResult::Solved);
    assert_eq!(solver.get_solved(), Some(SOLVED));
    assert_eq!(solver.hard_solve(), SolveResult::Solved);
    assert_eq!(solver.get_solved(), Some(SOLVED));

    let mut failing = Solver::new(dead_end());
    assert_eq!(failing.solve(), SolveResult::FailedSolve);
    assert_eq!(failing.get_solved(), None);
    assert_eq!(failing.hard_solve(), SolveResult::FailedSolve);
    assert_eq!(failing.get_solved(), None);

    let mut open = Solver::new(empty_grid());
    assert_eq!(open.solve(), SolveResult::Solved);
    assert!(open.get_solved().is_some());
    assert_eq!(open.hard_solve(), SolveResult::ManySolutions);
    assert_eq!(open.get_solved(), None);
}

#[test]
fn solve_takes_the_smallest_digit_first() {
    let mut solver = Solver::new(empty_grid());
    assert_eq!(solver.solve(), SolveResult::Solved);
    let solved = solver.get_solved().unwrap();
    assert!(check_grid(&solved));
    // the first box is filled in search order with 1 to 9
    let mut expected: u8 = 1;
    for sr in 0..3 {
        for sc in 0..3 {
            assert_eq!(solved[0][0][sr][sc], Some(Value::Maybe(expected)));
            expected += 1;
        }
    }
}

#[test]
fn hard_solve_proves_the_one_solution() {
    let mut solver = Solver::new(TEST);
    assert_eq!(solver.hard_solve(), SolveResult::Solved);
    assert_eq!(solver.get_solved().unwrap(), SOLVED);
    assert_eq!(solver.position(), (0, 0, 0, 0));
}

#[test]
fn hard_solve_gives_the_same_answer_when_asked_again() {
    let mut solver = Solver::new(TEST);
    assert_eq!(solver.hard_solve(), SolveResult::Solved);
    assert_eq!(solver.hard_solve(), SolveResult::Solved);
    assert_eq!(solver.get_solved().unwrap(), SOLVED);
    let mut other = Solver::new(TEST);
    assert_eq!(other.hard_solve(), SolveResult::Solved);
    assert_eq!(other.get_solved(), solver.get_solved());
}

#[test]
fn hard_solve_of_an_empty_grid_finds_many_solutions() {
    let mut solver = Solver::new(empty_grid());
    assert_eq!(solver.hard_solve(), SolveResult::ManySolutions);
    assert_eq!(solver.get_solved(), None);
}

#[test]
fn hard_solve_finds_the_second_solution_of_an_open_rectangle() {
    // rows 1 and 8 of the board hold 5 and 1 in columns 1 and 3, crosswise:
    // with these four cells empty the two digits can stand either way
    assert_eq!(SOLVED[0][0][0][0].unwrap().unwrap(), 5);
    assert_eq!(SOLVED[0][0][0][2].unwrap().unwrap(), 1);
    assert_eq!(SOLVED[2][0][1][0].unwrap().unwrap(), 1);
    assert_eq!(SOLVED[2][0][1][2].unwrap().unwrap(), 5);
    let mut puzzle = SOLVED;
    puzzle[0][0][0][0] = None;
    puzzle[0][0][0][2] = None;
    puzzle[2][0][1][0] = None;
    puzzle[2][0][1][2] = None;
    let mut solver = Solver::new(puzzle);
    assert_eq!(solver.hard_solve(), SolveResult::ManySolutions);
    assert_eq!(solver.get_solved(), None);
    // the fast search stops at the first of the two, the one with the smaller
    // digit in the first cell
    let mut fast = Solver::new(puzzle);
    assert_eq!(fast.solve(), SolveResult::Solved);
    let first = fast.get_solved().unwrap();
    assert_eq!(first[0][0][0][0], Some(Value::Maybe(1)));
    assert_eq!(first[0][0][0][2], Some(Value::Maybe(5)));
    assert_eq!(first[2][0][1][0], Some(Value::Maybe(5)));
    assert_eq!(first[2][0][1][2], Some(Value::Maybe(1)));
    assert!(check_grid(&first));
    // with one of the four given, one solution is left
    puzzle[0][0][0][0] = Some(Value::Definite(5));
    let mut solver = Solver::new(puzzle);
    assert_eq!(solver.hard_solve(), SolveResult::Solved);
    let only = solver.get_solved().unwrap();
    assert_eq!(only[0][0][0][2], Some(Value::Maybe(1)));
    assert_eq!(only[2][0][1][0], Some(Value::Maybe(1)));
    assert_eq!(only[2][0][1][2], Some(Value::Maybe(5)));
}

#[test]
fn hard_solve_fails_on_a_cell_without_candidates() {
    let mut solver = Solver::new(dead_end());
    assert_eq!(solver.hard_solve(), SolveResult::FailedSolve);
    assert_eq!(solver.get_solved(), None);
}

#[test]
fn hard_solve_of_a_full_grid_hands_the_grid_back() {
    let mut solver = Solver::new(SOLVED);
    assert_eq!(solver.hard_solve(), SolveResult::Solved);
    assert_eq!(solver.get_solved(), Some(SOLVED));
    assert_eq!(solver.position(), (0, 0, 0, 0));
}

#[test]
fn a_filled_cell_is_no_search_variable_whatever_its_tag() {
    let mut puzzle = SOLVED;
    puzzle[2][2][2][2] = None;
    puzzle[2][2][0][0] = None;
    let mut solver = Solver::new(puzzle);
    assert_eq!(solver.hard_solve(), SolveResult::Solved);
    assert_eq!(solver.get_solved().unwrap(), SOLVED);
}

#[test]
fn next_from_the_last_cell_wraps_and_back_undoes_it() {
    let mut solver = Solver::new(TEST);
    for _ in 0..80 {
        solver.next();
    }
    assert_eq!(solver.position(), (2, 2, 2, 2));
    for _ in 0..5 {
        solver.next();
        assert_eq!(solver.position(), (0, 0, 0, 0));
        solver.back();
        assert_eq!(solver.position(), (2, 2, 2, 2));
    }
}

#[test]
fn next_visits_the_cells_box_by_box() {
    let mut solver = Solver::new(TEST);
    let mut seen = Vec::new();
    for _ in 0..81 {
        seen.push(solver.position());
        solver.next();
    }
    assert_eq!(solver.position(), (0, 0, 0, 0));
    assert_eq!(seen[1], (0, 0, 0, 1));
    assert_eq!(seen[3], (0, 0, 1, 0));
    assert_eq!(seen[9], (0, 1, 0, 0));
    assert_eq!(seen[27], (1, 0, 0, 0));
    assert_eq!(seen[80], (2, 2, 2, 2));
    for (i, t) in seen.iter().enumerate() {
        assert_eq!(27 * t.0 + 9 * t.1 + 3 * t.2 + t.3, i);
    }
    for t in seen.iter().rev() {
        solver.back();
        assert_eq!(solver.position(), *t);
    }
}

#[test]
fn back_from_the_first_cell_wraps_to_the_last() {
    let mut solver = Solver::new(TEST);
    solver.back();
    assert_eq!(solver.position(), (2, 2, 2, 2));
    solver.next();
    assert_eq!(solver.position(), (0, 0, 0, 0));
}

#[test]
fn change_pos_to_writes_at_the_cursor_only() {
    let mut solver = Solver::new(TEST);
    solver.next();
    solver.change_pos_to(Some(Value::Maybe(7)));
    assert_eq!(solver.this_val(), Some(Value::Maybe(7)));
    let mut expected = TEST;
    expected[0][0][0][1] = Some(Value::Maybe(7));
    assert_eq!(solver.get_solved(), Some(expected));
    solver.change_pos_to(None);
    assert_eq!(solver.get_solved(), None);
}

#[test]
fn list_correct_gives_the_legal_digits_in_ascending_order() {
    let solver = Solver::new(TEST);
    // first cell: the box holds 1 4 9 8, the row 1 8 4 6, the column 8 2 4 3 1
    assert_eq!(solver.list_correct(), vec![5, 7]);
    assert!(solver.is_correct(&5));
    assert!(solver.is_correct(&7));
    assert!(!solver.is_correct(&6));
}
