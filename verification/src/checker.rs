use vstd::prelude::*;
use vstd::set_lib::{lemma_int_range, lemma_subset_equality, set_int_range};
use crate::completion::{cell_ok, clash, completion, digit_at, fills};
use crate::grid::{
    at, cell_at, col_has, full, holds, is_full, is_put, legal, lemma_legal_by_parts, peers, pos,
    rank, row_has, square_need, valid, Grid, Pos, Value,
};

verus! {

/// No filled cell of `g` has its digit repeated by another cell of its
/// box, its row or its column.
pub open spec fn consistent(g: Grid) -> bool {
    forall|p: Pos| valid(p) ==> #[trigger] cell_ok(g, p)
}

/// `g` is full and consistent.
pub open spec fn is_solution(g: Grid) -> bool {
    full(g) && consistent(g)
}

/// Every digit that `g` holds lies between 1 and 9.
pub open spec fn in_range(g: Grid) -> bool {
    forall|p: Pos| valid(p) && (#[trigger] at(g, p)).is_some() ==> 1 <= digit_at(g, p) <= 9
}

/// A box, a row or a column of the board.
pub enum Unit {
    Square { row: int, col: int },
    Row { row: int, s_row: int },
    Column { col: int, s_col: int },
}

/// The coordinates that name the unit lie in `0..3`.
pub open spec fn on_board(u: Unit) -> bool {
    match u {
        Unit::Square { row, col } => 0 <= row < 3 && 0 <= col < 3,
        Unit::Row { row, s_row } => 0 <= row < 3 && 0 <= s_row < 3,
        Unit::Column { col, s_col } => 0 <= col < 3 && 0 <= s_col < 3,
    }
}

/// Whether the cell at `p` belongs to the unit.
pub open spec fn member(u: Unit, p: Pos) -> bool {
    match u {
        Unit::Square { row, col } => p.row == row && p.col == col,
        Unit::Row { row, s_row } => p.row == row && p.s_row == s_row,
        Unit::Column { col, s_col } => p.col == col && p.s_col == s_col,
    }
}

/// The `k`-th of the nine cells of the unit.
pub open spec fn nth(u: Unit, k: int) -> Pos {
    match u {
        Unit::Square { row, col } => Pos { row, col, s_row: k / 3, s_col: k % 3 },
        Unit::Row { row, s_row } => Pos { row, col: k / 3, s_row, s_col: k % 3 },
        Unit::Column { col, s_col } => Pos { row: k / 3, col, s_row: k % 3, s_col },
    }
}

/// Exactly one cell of the unit holds `d`.
pub open spec fn occurs_once(g: Grid, u: Unit, d: u8) -> bool {
    &&& exists|p: Pos| valid(p) && member(u, p) && holds(#[trigger] at(g, p), d)
    &&& forall|p: Pos, q: Pos|
        valid(p) && valid(q) && member(u, p) && member(u, q) && holds(#[trigger] at(g, p), d)
            && holds(#[trigger] at(g, q), d) ==> p == q
}

/// The unit holds each digit from 1 to 9 exactly once.
pub open spec fn permutation(g: Grid, u: Unit) -> bool {
    forall|d: u8| 1 <= d <= 9 ==> #[trigger] occurs_once(g, u, d)
}

/// Nine different digits between 1 and 9 are all of them.
proof fn lemma_nine_of_nine(e: Seq<int>, d: int)
    requires
        e.len() == 9,
        forall|k: int| 0 <= k < 9 ==> 1 <= #[trigger] e[k] <= 9,
        forall|j: int, k: int| 0 <= j < k < 9 ==> e[j] != e[k],
        1 <= d <= 9,
    ensures
        exists|k: int| 0 <= k < 9 && e[k] == d,
{
    assert(e.no_duplicates());
    e.unique_seq_to_set();
    lemma_int_range(1, 10);
    let all = set_int_range(1, 10);
    assert(e.to_set().subset_of(all)) by {
        assert forall|x: int| e.to_set().contains(x) implies all.contains(x) by {
            let k = choose|k: int| 0 <= k < e.len() && e[k] == x;
            assert(1 <= e[k] <= 9);
        }
    }
    vstd::set_lib::lemma_set_subset_finite(all, e.to_set());
    lemma_subset_equality(e.to_set(), all);
    assert(all.contains(d));
    assert(e.to_set().contains(d));
    assert(e.contains(d));
}

/// Of a full grid whose digits lie between 1 and 9: it is a solution
/// exactly when each box, each row and each column holds every digit
/// from 1 to 9 exactly once.
pub proof fn lemma_solution_means_permutations(g: Grid)
    requires
        full(g),
        in_range(g),
    ensures
        is_solution(g) <==> forall|u: Unit| on_board(u) ==> #[trigger] permutation(g, u),
{
    if is_solution(g) {
        assert forall|u: Unit| on_board(u) implies #[trigger] permutation(g, u) by {
            assert forall|d: u8| 1 <= d <= 9 implies #[trigger] occurs_once(g, u, d) by {
                let e = Seq::new(9, |k: int| digit_at(g, nth(u, k)));
                assert forall|k: int| 0 <= k < 9 implies 1 <= #[trigger] e[k] <= 9 by {
                    let p = nth(u, k);
                    assert(valid(p));
                    assert(at(g, p).is_some());
                }
                assert forall|j: int, k: int| 0 <= j < k < 9 implies e[j] != e[k] by {
                    let p = nth(u, j);
                    let q = nth(u, k);
                    assert(valid(p) && valid(q) && p != q && peers(p, q));
                    assert(at(g, p).is_some() && at(g, q).is_some());
                    assert(cell_ok(g, p));
                    assert(!clash(g, p, q));
                }
                lemma_nine_of_nine(e, d as int);
                let k = choose|k: int| 0 <= k < 9 && e[k] == d as int;
                let p = nth(u, k);
                assert(valid(p) && member(u, p));
                assert(at(g, p).is_some());
                assert(holds(at(g, p), d));
                assert forall|p: Pos, q: Pos|
                    valid(p) && valid(q) && member(u, p) && member(u, q) && holds(
                        #[trigger] at(g, p),
                        d,
                    ) && holds(#[trigger] at(g, q), d) implies p == q by {
                    if p != q {
                        assert(peers(p, q));
                        assert(cell_ok(g, p));
                        assert(clash(g, p, q));
                    }
                }
            }
        }
    }
    if forall|u: Unit| on_board(u) ==> #[trigger] permutation(g, u) {
        assert forall|p: Pos| valid(p) implies #[trigger] cell_ok(g, p) by {
            assert forall|q: Pos| valid(q) && q != p && peers(p, q) implies !#[trigger] clash(
                g,
                p,
                q,
            ) by {
                if clash(g, p, q) {
                    let d = at(g, p)->Some_0.digit();
                    assert(1 <= digit_at(g, p) <= 9);
                    let u = if p.row == q.row && p.col == q.col {
                        Unit::Square { row: p.row, col: p.col }
                    } else if p.row == q.row && p.s_row == q.s_row {
                        Unit::Row { row: p.row, s_row: p.s_row }
                    } else {
                        Unit::Column { col: p.col, s_col: p.s_col }
                    };
                    assert(on_board(u) && member(u, p) && member(u, q));
                    assert(permutation(g, u));
                    assert(occurs_once(g, u, d));
                    assert(holds(at(g, p), d) && holds(at(g, q), d));
                }
            }
        }
    }
}

/// A completion of a puzzle whose clues do not repeat one another is a
/// solution, and it holds every clue of the puzzle unchanged.
pub proof fn lemma_completion_is_solution(h: Grid, g: Grid)
    requires
        completion(h, g),
        consistent(g),
    ensures
        is_solution(h),
        forall|p: Pos| valid(p) && at(g, p).is_some() ==> #[trigger] at(h, p) == at(g, p),
{
    assert forall|p: Pos| valid(p) implies #[trigger] cell_ok(h, p) by {
        assert(fills(h, g, p));
        if at(g, p).is_some() {
            assert forall|q: Pos| valid(q) && q != p && peers(p, q) implies !#[trigger] clash(
                h,
                p,
                q,
            ) by {
                assert(fills(h, g, q));
                if at(g, q).is_some() {
                    assert(cell_ok(g, p));
                    assert(!clash(g, p, q));
                } else {
                    assert(cell_ok(h, q));
                    assert(!clash(h, q, p));
                }
            }
        }
    }
    assert forall|p: Pos| valid(p) && at(g, p).is_some() implies #[trigger] at(h, p) == at(
        g,
        p,
    ) by {
        assert(fills(h, g, p));
    }
}

/// With the cell at `p` taken out, its digit may be written back exactly
/// when no other peer of `p` repeats it.
pub proof fn lemma_cleared_legal(cleared: Grid, g: Grid, p: Pos, v: Value)
    requires
        valid(p),
        at(g, p) == Some(v),
        is_put(cleared, g, p, None),
    ensures
        legal(cleared, p, v.digit()) <==> cell_ok(g, p),
{
    if legal(cleared, p, v.digit()) {
        assert forall|q: Pos| valid(q) && q != p && peers(p, q) implies !#[trigger] clash(
            g,
            p,
            q,
        ) by {
            assert(at(cleared, q) == at(g, q));
        }
    }
    if cell_ok(g, p) {
        assert forall|q: Pos| valid(q) && peers(p, q) implies !holds(
            #[trigger] at(cleared, q),
            v.digit(),
        ) by {
            if q != p {
                assert(!clash(g, p, q));
            }
        }
    }
}

/// Whether `grid` is a solution: full, and with every cell's digit legal
/// at its place once the cell itself is taken out.
pub fn check_grid(grid: &Grid) -> (b: bool)
    ensures
        b == is_solution(*grid),
{
    if !is_full(grid) {
        return false;
    }
    let mut k: usize = 0;
    while k < 81
        invariant
            k <= 81,
            full(*grid),
            forall|p: Pos|
                valid(p) && rank(p) < k ==> #[trigger] cell_ok(
                    *grid,
                    p,
                ),
        decreases 81 - k,
    {
        let (row, col, s_row, s_col) = cell_at(k);
        if let Some(val) = grid[row][col][s_row][s_col] {
            let mut check_grid = *grid;
            check_grid[row][col][s_row][s_col] = None;
            proof {
                let p = pos(row, col, s_row, s_col);
                assert(at(*grid, p) == Some(val));
                assert(is_put(check_grid, *grid, p, None)) by {
                    assert forall|q: Pos| valid(q) implies #[trigger] at(check_grid, q) == (if q
                        == p {
                        None
                    } else {
                        at(*grid, q)
                    }) by {}
                }
                lemma_cleared_legal(check_grid, *grid, p, val);
            }
            if !is_val_correct(check_grid, val.unwrap(), row, col, s_row, s_col) {
                return false;
            }
        } else {
            proof {
                assert(at(*grid, pos(row, col, s_row, s_col)).is_some());
            }
        }
        k += 1;
    }
    true
}

/// Whether `val` may be written at the given cell of `grid`.
pub fn is_val_correct(
    grid: Grid,
    val: u8,
    row: usize,
    col: usize,
    s_row: usize,
    s_col: usize,
) -> (b: bool)
    requires
        row < 3,
        col < 3,
        s_row < 3,
        s_col < 3,
    ensures
        b == legal(grid, pos(row, col, s_row, s_col), val),
{
    proof {
        lemma_legal_by_parts(grid, pos(row, col, s_row, s_col), val);
    }
    if !square_need(&grid[row][col], &val) {
        return false;
    }
    if row_has(&grid, row, s_row, &val) {
        return false;
    }
    if col_has(&grid, col, s_col, &val) {
        return false;
    }
    true
}

/// Whether every digit that `grid` holds lies between 1 and 9.
pub fn digits_in_range(grid: &Grid) -> (b: bool)
    ensures
        b == in_range(*grid),
{
    let mut k: usize = 0;
    while k < 81
        invariant
            k <= 81,
            forall|p: Pos|
                valid(p) && rank(p) < k && (#[trigger] at(
                    *grid,
                    p,
                )).is_some() ==> 1 <= digit_at(*grid, p) <= 9,
        decreases 81 - k,
    {
        let (row, col, s_row, s_col) = cell_at(k);
        if let Some(val) = grid[row][col][s_row][s_col] {
            let d = val.unwrap();
            if d < 1 || d > 9 {
                proof {
                    let p = pos(row, col, s_row, s_col);
                    assert(at(*grid, p).is_some() && !(1 <= digit_at(*grid, p) <= 9));
                }
                return false;
            }
        }
        k += 1;
    }
    true
}

} // verus!
