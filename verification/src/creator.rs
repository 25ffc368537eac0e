use rand::rngs::ThreadRng;
use rand::seq::SliceRandom;
use rand::Rng;
use vstd::prelude::*;
use crate::checker::{
    check_grid, consistent, digits_in_range, in_range, is_solution,
    lemma_solution_means_permutations, member, occurs_once, permutation, Unit,
};
use crate::completion::{
    ambiguous, cell_ok, clash, completion, digit_at, fills, lemma_full_completes_itself,
    lemma_three_cases, only_completion, solvable, unique,
};
use crate::grid::{
    at, cell_at, cell_of, col_has, full, holds, is_put, legal, lemma_legal_by_parts, lemma_put,
    lemma_same_is_equal, nth_cell, peers, pos, put, rank, row_has, same, square_need, valid,
    Grid, Pos, Value,
};
use crate::solver::{verdict, SolveResult, Solver};

verus! {

/// The random number generator of the `rand` crate that each thread
/// owns. Nothing is known of its state.
#[verifier::external_type_specification]
#[verifier::external_body]
pub struct ExThreadRng(ThreadRng);

/// `rand::thread_rng` hands out the generator of the calling thread,
/// which the operating system seeds on first use; the call panics where
/// the system gives no seed. Nothing is claimed of the generator.
pub assume_specification[ rand::thread_rng ]() -> (rng: ThreadRng);

/// `Rng::gen_range` on the half-open range from 0 to `n`: the value
/// drawn lies in that range, and nothing else is known of it. The range
/// must not be empty, else the call panics. As every draw from this
/// generator, the call also panics where the operating system fails to
/// seed the generator anew.
#[verifier::external_body]
fn random_below(rng: &mut ThreadRng, n: usize) -> (r: usize)
    requires
        n > 0,
    ensures
        r < n,
{
    rng.gen_range(0..n)
}

/// `SliceRandom::shuffle` reorders the items in place by swapping pairs
/// of them: the items are the same, each as often as before, and
/// nothing is known of their order. As every draw from this generator,
/// the call panics where the operating system fails to seed the
/// generator anew.
#[verifier::external_body]
fn shuffle(rng: &mut ThreadRng, v: &mut IndexVec)
    ensures
        final(v)@.to_multiset() == old(v)@.to_multiset(),
{
    v.shuffle(rng);
}

/// Addresses of cells, each as box-row, box-column, row in the box and
/// column in the box.
pub type IndexVec = Vec<(usize, usize, usize, usize)>;

/// The addresses of the empty cells of `grid`, in search order.
pub fn indexes_of_none(grid: &Grid) -> (out: IndexVec)
    ensures
        forall|i: int|
            0 <= i < out.len() ==> valid(cell_of(#[trigger] out[i])) && at(
                *grid,
                cell_of(out[i]),
            ).is_none(),
        forall|i: int, j: int|
            0 <= i < j < out.len() ==> rank(cell_of(out[i])) < rank(cell_of(out[j])),
        forall|p: Pos|
            valid(p) && (#[trigger] at(*grid, p)).is_none() ==> exists|i: int|
                0 <= i < out.len() && cell_of(out[i]) == p,
{
    let mut out: IndexVec = Vec::new();
    let mut k: usize = 0;
    while k < 81
        invariant
            k <= 81,
            forall|i: int|
                0 <= i < out.len() ==> valid(cell_of(#[trigger] out[i])) && at(
                    *grid,
                    cell_of(out[i]),
                ).is_none() && rank(cell_of(out[i])) < k,
            forall|i: int, j: int|
                0 <= i < j < out.len() ==> rank(cell_of(out[i])) < rank(cell_of(out[j])),
            forall|p: Pos|
                valid(p) && rank(p) < k && (#[trigger] at(
                    *grid,
                    p,
                )).is_none() ==> exists|i: int| 0 <= i < out.len() && cell_of(out[i]) == p,
        decreases 81 - k,
    {
        let (row, col, s_row, s_col) = cell_at(k);
        if grid[row][col][s_row][s_col].is_none() {
            let ghost prev = out@;
            out.push((row, col, s_row, s_col));
            proof {
                let here = pos(row, col, s_row, s_col);
                assert(cell_of(out@[prev.len() as int]) == here);
                assert forall|p: Pos|
                    valid(p) && rank(p) <= rank(here) && (#[trigger] at(
                        *grid,
                        p,
                    )).is_none() implies exists|i: int|
                    0 <= i < out.len() && cell_of(out[i]) == p by {
                    if rank(p) < rank(here) {
                        let i = choose|i: int| 0 <= i < prev.len() && cell_of(prev[i]) == p;
                        assert(cell_of(out[i]) == p);
                    } else {
                        assert(p == here);
                    }
                }
            }
        }
        k += 1;
    }
    out
}

/// Whether `val` may be written at the given cell of `grid`.
pub fn is_correct(
    val: u8,
    grid: &Grid,
    row: usize,
    col: usize,
    s_row: usize,
    s_col: usize,
) -> (b: bool)
    requires
        row < 3,
        col < 3,
        s_row < 3,
        s_col < 3,
    ensures
        b == legal(*grid, pos(row, col, s_row, s_col), val),
{
    proof {
        lemma_legal_by_parts(*grid, pos(row, col, s_row, s_col), val);
    }
    if !square_need(&grid[row][col], &val) {
        return false;
    }
    if row_has(grid, row, s_row, &val) {
        return false;
    }
    if col_has(grid, col, s_col, &val) {
        return false;
    }
    true
}

/// The addresses of all 81 cells, in search order.
pub open spec fn all_cells() -> Seq<(usize, usize, usize, usize)> {
    Seq::new(81, |k: int| nth_cell(k))
}

/// The addresses of all 81 cells, in search order.
pub fn all_positions() -> (out: IndexVec)
    ensures
        out@ == all_cells(),
        out.len() == 81,
        forall|i: int|
            0 <= i < 81 ==> valid(cell_of(#[trigger] out[i])) && rank(cell_of(out[i])) == i,
{
    let mut out: IndexVec = Vec::new();
    let mut k: usize = 0;
    while k < 81
        invariant
            k <= 81,
            out.len() == k,
            forall|i: int|
                0 <= i < out.len() ==> valid(cell_of(#[trigger] out[i])) && rank(cell_of(out[i]))
                    == i && out[i] == nth_cell(i),
        decreases 81 - k,
    {
        out.push(cell_at(k));
        k += 1;
    }
    assert(out@ =~= all_cells());
    out
}

/// The two grids hold the same digits, whatever the tags.
pub open spec fn same_digits(h: Grid, g: Grid) -> bool {
    forall|p: Pos| valid(p) ==> #[trigger] digit_at(h, p) == digit_at(g, p)
}

/// `h` is `g` with some cells emptied.
pub open spec fn carved_from(h: Grid, g: Grid) -> bool {
    forall|p: Pos| valid(p) ==> (#[trigger] at(h, p)).is_none() || at(h, p) == at(g, p)
}

/// No clue of `g` can be taken out without a second completion arising.
pub open spec fn irreducible(g: Grid) -> bool {
    forall|p: Pos| valid(p) && (#[trigger] at(g, p)).is_some() ==> ambiguous(put(g, p, None))
}

/// What a completion `h` of `g` becomes when the clue at `p` is taken
/// out of `g`: the cell at `p` now holds its digit as a guess.
pub open spec fn loosened(h: Grid, g: Grid, p: Pos) -> Grid {
    match at(g, p) {
        Some(v) => put(h, p, Some(Value::Maybe(v.digit()))),
        None => h,
    }
}

/// Emptying a cell breaks neither consistency nor the range of the digits.
pub proof fn lemma_clear_keeps_rules(g: Grid, p: Pos)
    requires
        valid(p),
    ensures
        consistent(g) ==> consistent(put(g, p, None)),
        in_range(g) ==> in_range(put(g, p, None)),
        carved_from(put(g, p, None), g),
{
    let k = put(g, p, None);
    lemma_put(g, p, None);
    if consistent(g) {
        assert forall|q: Pos| valid(q) implies #[trigger] cell_ok(k, q) by {
            assert(cell_ok(g, q));
            assert forall|x: Pos| valid(x) && x != q && peers(q, x) implies !#[trigger] clash(
                k,
                q,
                x,
            ) by {
                assert(!clash(g, q, x));
                assert(at(k, q) == (if q == p { None } else { at(g, q) }));
                assert(at(k, x) == (if x == p { None } else { at(g, x) }));
            }
        }
    }
    if in_range(g) {
        assert forall|q: Pos| valid(q) && (#[trigger] at(k, q)).is_some() implies 1 <= digit_at(
            k,
            q,
        ) <= 9 by {
            assert(at(g, q).is_some());
        }
    }
    assert forall|q: Pos| valid(q) implies (#[trigger] at(k, q)).is_none() || at(k, q) == at(
        g,
        q,
    ) by {}
}

/// Writing a legal digit between 1 and 9 into an empty cell breaks
/// neither consistency nor the range of the digits.
pub proof fn lemma_write_keeps_rules(g: Grid, p: Pos, v: Value)
    requires
        valid(p),
        legal(g, p, v.digit()),
    ensures
        consistent(g) ==> consistent(put(g, p, Some(v))),
        in_range(g) && 1 <= v.digit() <= 9 ==> in_range(put(g, p, Some(v))),
{
    let k = put(g, p, Some(v));
    lemma_put(g, p, Some(v));
    if consistent(g) {
        assert forall|q: Pos| valid(q) implies #[trigger] cell_ok(k, q) by {
            assert(cell_ok(g, q));
            assert forall|x: Pos| valid(x) && x != q && peers(q, x) implies !#[trigger] clash(
                k,
                q,
                x,
            ) by {
                assert(!clash(g, q, x));
                assert(at(k, q) == (if q == p { Some(v) } else { at(g, q) }));
                assert(at(k, x) == (if x == p { Some(v) } else { at(g, x) }));
                assert(peers(p, q) ==> !holds(at(g, q), v.digit()));
                assert(peers(p, x) ==> !holds(at(g, x), v.digit()));
            }
        }
    }
    if in_range(g) && 1 <= v.digit() <= 9 {
        assert forall|q: Pos| valid(q) && (#[trigger] at(k, q)).is_some() implies 1 <= digit_at(
            k,
            q,
        ) <= 9 by {
            if q != p {
                assert(at(g, q).is_some());
            }
        }
    }
}

/// A completion of `g` stays one, with its digits, when a clue is
/// taken out of `g`, if the clues of `g` are consistent and in range.
pub proof fn lemma_clue_cleared(h: Grid, g: Grid, p: Pos)
    requires
        valid(p),
        consistent(g),
        in_range(g),
        completion(h, g),
    ensures
        completion(loosened(h, g, p), put(g, p, None)),
        same_digits(loosened(h, g, p), h),
        forall|q: Pos| valid(q) && q != p ==> #[trigger] at(loosened(h, g, p), q) == at(h, q),
{
    let k = put(g, p, None);
    let l = loosened(h, g, p);
    lemma_put(g, p, None);
    assert(fills(h, g, p));
    match at(g, p) {
        Some(v) => {
            lemma_put(h, p, Some(Value::Maybe(v.digit())));
            assert(at(g, p).is_some());
            assert(1 <= digit_at(g, p) <= 9);
        },
        None => {},
    }
    assert forall|q: Pos| valid(q) implies #[trigger] digit_at(l, q) == digit_at(h, q) by {
        assert(fills(h, g, q));
    }
    assert forall|q: Pos| valid(q) implies (#[trigger] at(l, q)).is_some() by {
        assert(at(h, q).is_some());
    }
    assert forall|q: Pos| valid(q) implies #[trigger] fills(l, k, q) by {
        assert(fills(h, g, q));
        assert(at(k, q) == (if q == p { None } else { at(g, q) }));
        if at(k, q).is_none() {
            assert forall|x: Pos| valid(x) && x != q && peers(q, x) implies !#[trigger] clash(
                l,
                q,
                x,
            ) by {
                assert(fills(h, g, x));
                assert(digit_at(l, x) == digit_at(h, x));
                assert(digit_at(l, q) == digit_at(h, q));
                assert(at(h, x).is_some() && at(h, q).is_some());
                assert(at(l, x).is_some() && at(l, q).is_some());
                if at(g, q).is_none() {
                    assert(cell_ok(h, q));
                    assert(!clash(h, q, x));
                } else if at(g, x).is_none() {
                    assert(cell_ok(h, x));
                    assert(peers(x, q));
                    assert(!clash(h, x, q));
                } else {
                    assert(cell_ok(g, q));
                    assert(!clash(g, q, x));
                }
            }
        }
    }
}

/// A puzzle with two different completions keeps two different
/// completions when a clue is taken out of it.
pub proof fn lemma_clear_keeps_ambiguity(g: Grid, p: Pos)
    requires
        valid(p),
        consistent(g),
        in_range(g),
        ambiguous(g),
    ensures
        ambiguous(put(g, p, None)),
{
    let (h1, h2) = choose|h1: Grid, h2: Grid|
        #![trigger completion(h1, g), completion(h2, g)]
        completion(h1, g) && completion(h2, g) && h1 != h2;
    lemma_clue_cleared(h1, g, p);
    lemma_clue_cleared(h2, g, p);
    let l1 = loosened(h1, g, p);
    let l2 = loosened(h2, g, p);
    if l1 == l2 {
        assert forall|q: Pos| valid(q) implies at(h1, q) == #[trigger] at(h2, q) by {
            assert(fills(h1, g, q));
            assert(fills(h2, g, q));
            if q != p {
                assert(at(l1, q) == at(h1, q));
                assert(at(l2, q) == at(h2, q));
            }
        }
        lemma_same_is_equal(h1, h2);
    }
    assert(completion(l1, put(g, p, None)) && completion(l2, put(g, p, None)));
}

/// Emptying two cells gives the same grid in either order.
pub proof fn lemma_clear_commutes(g: Grid, p: Pos, q: Pos)
    requires
        valid(p),
        valid(q),
    ensures
        put(put(g, p, None), q, None) == put(put(g, q, None), p, None),
{
    lemma_put(g, p, None);
    lemma_put(g, q, None);
    lemma_put(put(g, p, None), q, None);
    lemma_put(put(g, q, None), p, None);
    let a = put(put(g, p, None), q, None);
    let b = put(put(g, q, None), p, None);
    assert forall|x: Pos| valid(x) implies at(a, x) == #[trigger] at(b, x) by {
        assert(at(put(g, p, None), x) == (if x == p { None } else { at(g, x) }));
        assert(at(put(g, q, None), x) == (if x == q { None } else { at(g, x) }));
    }
    lemma_same_is_equal(a, b);
}

/// Writes `num` as a clue into the cell that `cell` addresses, if it is
/// legal there.
pub fn attempt(grid: &Grid, cell: (usize, usize, usize, usize), num: u8) -> (out: Option<Grid>)
    requires
        valid(cell_of(cell)),
    ensures
        out.is_some() <==> legal(*grid, cell_of(cell), num),
        out matches Some(t) ==> t == put(*grid, cell_of(cell), Some(Value::Definite(num))) && (
        consistent(*grid) ==> consistent(t)) && (in_range(*grid) && 1 <= num <= 9 ==> in_range(t)),
{
    let (row, col, s_row, s_col) = cell;
    if is_correct(num, grid, row, col, s_row, s_col) {
        let mut grid_to_test = *grid;
        grid_to_test[row][col][s_row][s_col] = Some(Value::Definite(num));
        proof {
            let p = cell_of(cell);
            lemma_put(*grid, p, Some(Value::Definite(num)));
            assert(is_put(grid_to_test, *grid, p, Some(Value::Definite(num)))) by {
                assert forall|q: Pos| valid(q) implies #[trigger] at(grid_to_test, q) == (if q
                    == p {
                    Some(Value::Definite(num))
                } else {
                    at(*grid, q)
                }) by {}
            }
            lemma_write_keeps_rules(*grid, p, Value::Definite(num));
        }
        return Some(grid_to_test);
    }
    None
}

/// Picks an empty cell and a digit from 1 to 9 at random and writes the
/// digit into the cell as a clue, if it is legal there. There is nothing
/// to pick on a full grid.
pub fn random_attempt(grid: &Grid) -> (out: Option<Grid>)
    ensures
        full(*grid) ==> out.is_none(),
        out matches Some(t) ==> exists|p: Pos, d: u8|
            valid(p) && at(*grid, p).is_none() && 1 <= d <= 9 && #[trigger] legal(*grid, p, d) && t
                == put(*grid, p, Some(Value::Definite(d))),
        out matches Some(t) ==> (consistent(*grid) ==> consistent(t)) && (in_range(*grid)
            ==> in_range(t)),
        !full(*grid) && (forall|p: Pos, d: u8|
            valid(p) && at(*grid, p).is_none() && 1 <= d <= 9 ==> #[trigger] legal(*grid, p, d))
            ==> out.is_some(),
{
    let indexes = indexes_of_none(grid);
    if indexes.len() == 0 {
        proof {
            assert forall|p: Pos| valid(p) implies (#[trigger] at(*grid, p)).is_some() by {
                if at(*grid, p).is_none() {
                    let i = choose|i: int| 0 <= i < indexes.len() && cell_of(indexes[i]) == p;
                }
            }
        }
        return None;
    }
    proof {
        let p = cell_of(indexes[0]);
        assert(at(*grid, p).is_none());
    }
    let mut rng = rand::thread_rng();
    let random = random_below(&mut rng, indexes.len());
    let num: u8 = (random_below(&mut rng, 9) + 1) as u8;
    let out = attempt(grid, indexes[random], num);
    proof {
        if out.is_some() {
            assert(legal(*grid, cell_of(indexes[random as int]), num));
        }
    }
    out
}

/// The grid to go on with after a solver has tried the grid `tried`:
/// `tried` if it could be solved, and `grid` as it was if not.
pub fn settle(grid: Grid, tried: Grid, outcome: SolveResult) -> (out: Grid)
    requires
        outcome != SolveResult::ManySolutions,
    ensures
        out == (if outcome == SolveResult::Solved {
            tried
        } else {
            grid
        }),
{
    match outcome {
        SolveResult::Solved => tried,
        SolveResult::FailedSolve => grid,
        SolveResult::ManySolutions => vstd::pervasive::unreached(),
    }
}

/// In a solution, every digit from 1 to 9 but a cell's own stands in
/// another cell of its box.
pub proof fn lemma_other_digits_taken(g: Grid, p: Pos, d: u8)
    requires
        is_solution(g),
        in_range(g),
        valid(p),
        1 <= d <= 9,
        d != digit_at(g, p),
    ensures
        exists|q: Pos| valid(q) && q != p && peers(p, q) && holds(#[trigger] at(g, q), d),
{
    lemma_solution_means_permutations(g);
    let u = Unit::Square { row: p.row, col: p.col };
    assert(permutation(g, u));
    assert(occurs_once(g, u, d));
    let q = choose|q: Pos| valid(q) && member(u, q) && holds(#[trigger] at(g, q), d);
    assert(at(g, p).is_some());
    assert(q != p);
    assert(peers(p, q));
}

/// A solution with one cell emptied has exactly one completion: the
/// other cells of the box leave one digit for it.
pub proof fn lemma_one_cell_determined(g: Grid, p: Pos)
    requires
        is_solution(g),
        in_range(g),
        valid(p),
    ensures
        unique(put(g, p, None)),
{
    let w = put(g, p, None);
    lemma_put(g, p, None);
    lemma_full_completes_itself(g);
    lemma_clue_cleared(g, g, p);
    let l = loosened(g, g, p);
    assert(at(g, p).is_some());
    let v = at(g, p)->Some_0;
    lemma_put(g, p, Some(Value::Maybe(v.digit())));
    assert forall|h: Grid| #[trigger] completion(h, w) implies h == l by {
        assert forall|q: Pos| valid(q) implies at(h, q) == #[trigger] at(l, q) by {
            assert(fills(h, w, q));
            assert(at(w, q) == (if q == p { None } else { at(g, q) }));
            assert(at(g, q).is_some());
            if q == p {
                let d = at(h, p)->Some_0.digit();
                if d != v.digit() {
                    lemma_other_digits_taken(g, p, d);
                    let x = choose|x: Pos|
                        valid(x) && x != p && peers(p, x) && holds(#[trigger] at(g, x), d);
                    assert(fills(h, w, x));
                    assert(at(w, x) == at(g, x));
                    assert(at(g, x).is_some());
                    assert(clash(h, p, x));
                }
            }
        }
        lemma_same_is_equal(h, l);
    }
    assert(only_completion(l, w));
}

/// One step of carving: the puzzle without the clue at `p` if it still
/// has exactly one completion then, and the puzzle as it is if not.
pub open spec fn carve_step(g: Grid, p: Pos) -> Grid {
    if unique(put(g, p, None)) {
        put(g, p, None)
    } else {
        g
    }
}

/// What is left of `g` when the cells of `order` are carved one by one,
/// from the last of the list to the first.
pub open spec fn carved(g: Grid, order: Seq<(usize, usize, usize, usize)>) -> Grid
    decreases order.len(),
{
    if order.len() == 0 {
        g
    } else {
        carved(carve_step(g, cell_of(order.last())), order.drop_last())
    }
}

/// Takes the clue at `cell` out of the puzzle if the puzzle still has
/// exactly one completion without it. A clue whose removal would let a
/// second completion in stays where it is.
pub fn carve(grid: Grid, cell: (usize, usize, usize, usize)) -> (out: Grid)
    requires
        valid(cell_of(cell)),
        consistent(grid),
        in_range(grid),
        solvable(grid),
    ensures
        out == carve_step(grid, cell_of(cell)),
        unique(put(grid, cell_of(cell), None)) ==> out == put(grid, cell_of(cell), None),
        !unique(put(grid, cell_of(cell), None)) ==> out == grid && ambiguous(
            put(grid, cell_of(cell), None),
        ),
        ambiguous(put(grid, cell_of(cell), None)) ==> out == grid,
        verdict(put(grid, cell_of(cell), None)) == SolveResult::ManySolutions ==> out == grid,
        verdict(put(grid, cell_of(cell), None)) != SolveResult::FailedSolve,
{
    let ghost p = cell_of(cell);
    let mut working_grid = grid;
    working_grid[cell.0][cell.1][cell.2][cell.3] = None;
    proof {
        lemma_put(grid, p, None);
        assert(is_put(working_grid, grid, p, None)) by {
            assert forall|q: Pos| valid(q) implies #[trigger] at(working_grid, q) == (if q == p {
                None
            } else {
                at(grid, q)
            }) by {}
        }
        let s = choose|h: Grid| completion(h, grid);
        lemma_clue_cleared(s, grid, p);
        assert(completion(loosened(s, grid, p), working_grid));
        lemma_three_cases(working_grid);
    }
    let mut solver = Solver::new(working_grid);
    match solver.hard_solve() {
        SolveResult::Solved => working_grid,
        SolveResult::ManySolutions => grid,
        SolveResult::FailedSolve => vstd::pervasive::unreached(),
    }
}

/// Carving a list is carving its tail end first and its front after.
pub proof fn lemma_carved_in_two(
    g: Grid,
    front: Seq<(usize, usize, usize, usize)>,
    back: Seq<(usize, usize, usize, usize)>,
)
    ensures
        carved(g, front + back) == carved(carved(g, back), front),
    decreases back.len(),
{
    if back.len() == 0 {
        assert(front + back =~= front);
    } else {
        let all = front + back;
        assert(all.last() == back.last());
        assert(all.drop_last() =~= front + back.drop_last());
        lemma_carved_in_two(carve_step(g, cell_of(back.last())), front, back.drop_last());
    }
}

/// Carving keeps what a puzzle carved from a solution has: consistent
/// clues with digits in range, taken from the solution, and exactly one
/// completion.
pub proof fn lemma_carved_keeps_rules(
    g: Grid,
    solution: Grid,
    order: Seq<(usize, usize, usize, usize)>,
)
    requires
        forall|i: int| 0 <= i < order.len() ==> valid(cell_of(#[trigger] order[i])),
        consistent(g),
        in_range(g),
        unique(g),
        carved_from(g, solution),
    ensures
        consistent(carved(g, order)),
        in_range(carved(g, order)),
        unique(carved(g, order)),
        carved_from(carved(g, order), solution),
    decreases order.len(),
{
    if order.len() > 0 {
        let p = cell_of(order.last());
        let next = carve_step(g, p);
        lemma_clear_keeps_rules(g, p);
        assert forall|q: Pos| valid(q) implies (#[trigger] at(next, q)).is_none() || at(next, q)
            == at(solution, q) by {
            assert(at(g, q).is_none() || at(g, q) == at(solution, q));
            assert(at(put(g, p, None), q).is_none() || at(put(g, p, None), q) == at(g, q));
        }
        lemma_carved_keeps_rules(next, solution, order.drop_last());
    }
}

/// A clue that cannot go without a second completion coming in cannot
/// go later either, when more of the puzzle has been carved away: it
/// stands in what is left, and is as much needed there.
pub proof fn lemma_needed_clue_outlasts(
    g: Grid,
    p: Pos,
    order: Seq<(usize, usize, usize, usize)>,
)
    requires
        forall|i: int| 0 <= i < order.len() ==> valid(cell_of(#[trigger] order[i])),
        valid(p),
        consistent(g),
        in_range(g),
        ambiguous(put(g, p, None)),
    ensures
        at(carved(g, order), p) == at(g, p),
        ambiguous(put(carved(g, order), p, None)),
    decreases order.len(),
{
    if order.len() > 0 {
        let q = cell_of(order.last());
        let next = carve_step(g, q);
        lemma_clear_keeps_rules(g, q);
        lemma_put(g, q, None);
        if next != g {
            lemma_three_cases(put(g, p, None));
            assert(q != p);
            lemma_clear_keeps_rules(g, p);
            lemma_clear_keeps_ambiguity(put(g, p, None), q);
            lemma_clear_commutes(g, p, q);
        }
        lemma_needed_clue_outlasts(next, p, order.drop_last());
    }
}

/// Over a whole run of carving, whatever the order: where the search
/// for uniqueness answers `ManySolutions` on the puzzle without the clue
/// at a cell, at the moment at which that cell is taken, the clue stands
/// in the finished puzzle.
pub proof fn lemma_needed_clue_stays(
    solution: Grid,
    order: Seq<(usize, usize, usize, usize)>,
    i: int,
)
    requires
        is_solution(solution),
        in_range(solution),
        forall|j: int| 0 <= j < order.len() ==> valid(cell_of(#[trigger] order[j])),
        0 <= i < order.len(),
        verdict(put(carved(solution, order.skip(i + 1)), cell_of(order[i]), None))
            == SolveResult::ManySolutions,
    ensures
        at(carved(solution, order), cell_of(order[i])) == at(solution, cell_of(order[i])),
        at(carved(solution, order), cell_of(order[i])).is_some(),
{
    let p = cell_of(order[i]);
    let later = order.skip(i + 1);
    let upto = order.take(i + 1);
    let then = carved(solution, later);
    assert(order =~= upto + later);
    lemma_carved_in_two(solution, upto, later);
    lemma_full_completes_itself(solution);
    assert(only_completion(solution, solution));
    assert(carved_from(solution, solution));
    lemma_carved_keeps_rules(solution, solution, later);
    lemma_three_cases(put(then, p, None));
    lemma_put(then, p, None);
    if at(then, p).is_none() {
        assert(same(put(then, p, None), then));
        lemma_same_is_equal(put(then, p, None), then);
    }
    assert(at(then, p) == at(solution, p));
    assert(at(solution, p).is_some());
    assert(upto.last() == order[i]);
    assert(carve_step(then, p) == then);
    assert(carved(then, upto) == carved(then, upto.drop_last()));
    lemma_needed_clue_outlasts(then, p, upto.drop_last());
}

/// Carves the solution in the order given: takes the cells from the
/// last of the list to the first and empties each one whose digit the
/// rest of the grid still determines.
pub fn carve_in_order(solution: Grid, order: IndexVec) -> (out: Grid)
    requires
        is_solution(solution),
        in_range(solution),
        forall|i: int| 0 <= i < order.len() ==> valid(cell_of(#[trigger] order[i])),
    ensures
        out == carved(solution, order@),
        carved_from(out, solution),
        unique(out),
        verdict(out) == SolveResult::Solved,
        forall|h: Grid| #[trigger] completion(h, out) ==> same_digits(h, solution),
        order.len() > 0 ==> !full(out),
        forall|p: Pos, i: int|
            0 <= i < order.len() && cell_of(#[trigger] order[i]) == p && (#[trigger] at(
                out,
                p,
            )).is_some() ==> ambiguous(put(out, p, None)),
{
    let mut grid = solution;
    let mut positions = order;
    let ghost whole = positions@;
    proof {
        lemma_full_completes_itself(solution);
        assert(completion(solution, grid) && same_digits(solution, solution));
        assert(only_completion(solution, grid));
    }
    while positions.len() > 0
        invariant
            in_range(grid),
            consistent(grid),
            unique(grid),
            carved_from(grid, solution),
            is_solution(solution),
            in_range(solution),
            carved(grid, positions@) == carved(solution, whole),
            positions.len() <= whole.len(),
            positions.len() == whole.len() ==> grid == solution,
            positions.len() < whole.len() ==> !full(grid),
            exists|h: Grid| #[trigger] completion(h, grid) && same_digits(h, solution),
            forall|i: int| 0 <= i < positions.len() ==> valid(cell_of(#[trigger] positions[i])),
            forall|j: int| 0 <= j < whole.len() ==> valid(cell_of(#[trigger] whole[j])),
            forall|p: Pos, j: int|
                0 <= j < whole.len() && cell_of(#[trigger] whole[j]) == p ==> (exists|i: int|
                    0 <= i < positions.len() && cell_of(#[trigger] positions[i]) == p) || (
                #[trigger] at(grid, p)).is_none() || ambiguous(put(grid, p, None)),
        decreases positions.len(),
    {
        let ghost before = positions@;
        let ghost old_grid = grid;
        let val = positions.pop().unwrap();
        let ghost p = cell_of(val);
        proof {
            assert(val == before.last());
            assert(positions@ == before.drop_last());
            let u = choose|u: Grid| only_completion(u, grid);
            assert(completion(u, grid));
        }
        grid = carve(grid, val);
        proof {
            lemma_put(old_grid, p, None);
            if before.len() == whole.len() {
                lemma_one_cell_determined(solution, p);
                assert(at(grid, p).is_none());
            } else {
                let q = choose|q: Pos| valid(q) && (#[trigger] at(old_grid, q)).is_none();
                assert(at(grid, q).is_none());
            }
            assert forall|x: Pos| valid(x) && x != p && (exists|i: int|
                0 <= i < before.len() && cell_of(#[trigger] before[i]) == x) implies exists|i: int|
                0 <= i < positions.len() && cell_of(#[trigger] positions[i]) == x by {
                let i = choose|i: int| 0 <= i < before.len() && cell_of(#[trigger] before[i]) == x;
                assert(i < positions.len());
                assert(cell_of(positions[i]) == x);
            }
            if grid != old_grid {
                lemma_clear_keeps_rules(old_grid, p);
                let s = choose|h: Grid|
                    #[trigger] completion(h, old_grid) && same_digits(h, solution);
                lemma_clue_cleared(s, old_grid, p);
                let l = loosened(s, old_grid, p);
                assert(same_digits(l, solution)) by {
                    assert forall|q: Pos| valid(q) implies #[trigger] digit_at(l, q) == digit_at(
                        solution,
                        q,
                    ) by {
                        assert(digit_at(l, q) == digit_at(s, q));
                    }
                }
                assert(completion(l, grid) && same_digits(l, solution));
                assert forall|q: Pos| valid(q) implies (#[trigger] at(grid, q)).is_none() || at(
                    grid,
                    q,
                ) == at(solution, q) by {
                    assert(at(old_grid, q).is_none() || at(old_grid, q) == at(solution, q));
                }
                assert forall|x: Pos, j: int|
                    0 <= j < whole.len() && cell_of(#[trigger] whole[j]) == x implies (exists|
                    i: int,
                | 0 <= i < positions.len() && cell_of(#[trigger] positions[i]) == x) || (
                #[trigger] at(grid, x)).is_none() || ambiguous(put(grid, x, None)) by {
                    assert(valid(x));
                    if x != p && !(exists|i: int|
                        0 <= i < before.len() && cell_of(#[trigger] before[i]) == x) && at(
                        old_grid,
                        x,
                    ).is_some() {
                        lemma_clear_keeps_rules(old_grid, x);
                        lemma_clear_keeps_ambiguity(put(old_grid, x, None), p);
                        lemma_clear_commutes(old_grid, x, p);
                    }
                }
            }
        }
    }
    proof {
        let s = choose|h: Grid| #[trigger] completion(h, grid) && same_digits(h, solution);
        let u = choose|u: Grid| only_completion(u, grid);
        assert(s == u);
        assert forall|h: Grid| #[trigger] completion(h, grid) implies same_digits(h, solution) by {
            assert(h == u);
        }
    }
    grid
}

/// The list holds the addresses of the 81 cells, each once, in some order.
pub open spec fn is_order(o: Seq<(usize, usize, usize, usize)>) -> bool {
    o.to_multiset() == all_cells().to_multiset()
}

/// Makes a puzzle of a solution: draws an order of the 81 cells at
/// random and carves the solution in that order.
pub fn create_grid(solution: Grid) -> (out: Grid)
    requires
        is_solution(solution),
        in_range(solution),
    ensures
        exists|o: Seq<(usize, usize, usize, usize)>| is_order(o) && out == #[trigger] carved(
            solution,
            o,
        ),
        carved_from(out, solution),
        !full(out),
        unique(out),
        verdict(out) == SolveResult::Solved,
        forall|h: Grid| #[trigger] completion(h, out) ==> same_digits(h, solution),
        irreducible(out),
{
    let mut rng = rand::thread_rng();
    let mut positions = all_positions();
    let ghost ordered = positions@;
    shuffle(&mut rng, &mut positions);
    let ghost drawn = positions@;
    proof {
        broadcast use vstd::seq_lib::group_to_multiset_ensures;

        assert(drawn.len() == drawn.to_multiset().len());
        assert(ordered.len() == ordered.to_multiset().len());
        assert forall|i: int| 0 <= i < drawn.len() implies valid(cell_of(#[trigger] drawn[i])) by {
            let t = drawn[i];
            assert(drawn.contains(t));
            assert(drawn.to_multiset().count(t) > 0);
            assert(ordered.contains(t));
            let j = choose|j: int| 0 <= j < ordered.len() && ordered[j] == t;
            assert(valid(cell_of(ordered[j])));
        }
        assert forall|p: Pos| valid(p) implies exists|i: int|
            0 <= i < drawn.len() && cell_of(#[trigger] drawn[i]) == p by {
            let t = ordered[rank(p)];
            assert(valid(cell_of(t)) && rank(cell_of(t)) == rank(p));
            assert(cell_of(t) == p);
            assert(ordered.contains(t));
            assert(ordered.to_multiset().count(t) > 0);
            assert(drawn.contains(t));
            let i = choose|i: int| 0 <= i < drawn.len() && drawn[i] == t;
            assert(cell_of(drawn[i]) == p);
        }
        assert(is_order(drawn));
    }
    let out = carve_in_order(solution, positions);
    proof {
        assert forall|p: Pos| valid(p) && (#[trigger] at(out, p)).is_some() implies ambiguous(
            put(out, p, None),
        ) by {
            let i = choose|i: int| 0 <= i < drawn.len() && cell_of(#[trigger] drawn[i]) == p;
            assert(cell_of(drawn[i]) == p);
        }
    }
    out
}

/// Makes a puzzle of `grid` if `grid` is a solution with digits from 1
/// to 9, as `create_grid` does. Any other grid gives nothing.
pub fn try_create_grid(grid: Grid) -> (out: Option<Grid>)
    ensures
        out.is_some() <==> is_solution(grid) && in_range(grid),
        out matches Some(puzzle) ==> {
            &&& exists|o: Seq<(usize, usize, usize, usize)>|
                is_order(o) && puzzle == #[trigger] carved(grid, o)
            &&& carved_from(puzzle, grid)
            &&& !full(puzzle)
            &&& unique(puzzle)
            &&& verdict(puzzle) == SolveResult::Solved
            &&& forall|h: Grid| #[trigger] completion(h, puzzle) ==> same_digits(h, grid)
            &&& irreducible(puzzle)
        },
{
    if check_grid(&grid) && digits_in_range(&grid) {
        Some(create_grid(grid))
    } else {
        None
    }
}

} // verus!
