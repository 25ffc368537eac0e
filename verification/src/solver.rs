use vstd::prelude::*;
use crate::grid::{
    advance, at, col_has, full, grids_equal, in_grid_col, in_grid_row, is_full, is_put, legal,
    lemma_advance_retreat, lemma_legal_by_parts, lemma_put, lemma_same_is_equal, pos, put,
    retreat,
    row_has, same, square_need, valid, Grid, Pos, Value,
};
use crate::completion::{
    ambiguous, completion, digit_at, distance, fills, first_completion, lemma_first_kept,
    lemma_full_completes_itself, lemma_guess_kept, lemma_guess_legal, lemma_guess_made,
    lemma_move_on, only_completion, prefix_filled, same_but, solvable, unique,
};
use crate::{special_add, special_sub};

verus! {

/// A search over one puzzle: the puzzle as given, the board being worked
/// on, and the cursor, the cell that the search looks at.
pub struct Solver {
    grid: Grid,
    solved: Grid,
    row: usize,
    col: usize,
    s_row: usize,
    s_col: usize,
    // whether the last search ended on a full board
    completed: bool,
    // only used by the search that proves uniqueness
    working_clone: Option<Grid>,
    solution_found: bool,
}

/// How a search ended.
#[derive(PartialEq, Eq, Structural, Debug, Clone, Copy)]
pub enum SolveResult {
    Solved,
    FailedSolve,
    ManySolutions,
}

/// What the search for uniqueness answers on the puzzle `g`: `Solved`
/// where it has exactly one completion, `ManySolutions` where it has two
/// that differ, and `FailedSolve` where it has none.
pub open spec fn verdict(g: Grid) -> SolveResult {
    if unique(g) {
        SolveResult::Solved
    } else if ambiguous(g) {
        SolveResult::ManySolutions
    } else {
        SolveResult::FailedSolve
    }
}

/// What one level of the search reports to the level above.
#[derive(PartialEq, Eq, Structural, Debug, Clone, Copy)]
pub enum RecResult {
    Back,
    Done,
    Error,
}

impl Solver {
    #[verifier::type_invariant]
    spec fn on_board(self) -> bool {
        self.row < 3 && self.col < 3 && self.s_row < 3 && self.s_col < 3
    }

    /// The puzzle as it was given.
    pub closed spec fn puzzle(self) -> Grid {
        self.grid
    }

    /// The board as the search has left it.
    pub closed spec fn board(self) -> Grid {
        self.solved
    }

    /// The cell that the search looks at.
    pub closed spec fn cursor(self) -> Pos {
        pos(self.row, self.col, self.s_row, self.s_col)
    }

    /// Whether the last search ended with a find: the board is then the
    /// completion that it found.
    pub closed spec fn completed(self) -> bool {
        self.completed
    }

    /// The full board that the search for uniqueness has set aside, if any.
    pub closed spec fn kept(self) -> Option<Grid> {
        self.working_clone
    }

    /// Whether the search for uniqueness has met a full board.
    pub closed spec fn found(self) -> bool {
        self.solution_found
    }

    /// A search on `grid`, with the cursor on the first cell.
    pub fn new(grid: Grid) -> (s: Solver)
        ensures
            s.puzzle() == grid,
            s.board() == grid,
            s.cursor() == pos(0, 0, 0, 0),
            !s.found(),
            s.kept().is_none(),
            !s.completed(),
    {
        Solver {
            grid,
            solved: grid,
            row: 0,
            col: 0,
            s_row: 0,
            s_col: 0,
            completed: false,
            solution_found: false,
            working_clone: None,
        }
    }

    /// The board, if the last search ended with a find or the board is
    /// no longer the puzzle as given. After a search the board is the
    /// completion found, or the puzzle itself where none was kept, so
    /// that a grid comes back exactly with `Solved`.
    pub fn get_solved(&self) -> (out: Option<Grid>)
        ensures
            out == (if self.completed() || self.board() != self.puzzle() {
                Some(self.board())
            } else {
                None
            }),
    {
        if !self.completed && grids_equal(&self.solved, &self.grid) {
            return None;
        }
        Some(self.solved)
    }

    /// The cursor as four indices: box-row, box-column, row in the box
    /// and column in the box.
    pub fn position(&self) -> (t: (usize, usize, usize, usize))
        ensures
            pos(t.0, t.1, t.2, t.3) == self.cursor(),
            valid(self.cursor()),
    {
        proof {
            use_type_invariant(self);
        }
        (self.row, self.col, self.s_row, self.s_col)
    }

    /// The content of the cell at the cursor.
    pub fn this_val(&self) -> (v: Option<Value>)
        ensures
            valid(self.cursor()),
            v == at(self.board(), self.cursor()),
    {
        proof {
            use_type_invariant(self);
        }
        self.solved[self.row][self.col][self.s_row][self.s_col]
    }

    /// Writes `val` into the cell at the cursor.
    pub fn change_pos_to(&mut self, val: Option<Value>)
        ensures
            final(self).puzzle() == old(self).puzzle(),
            final(self).kept() == old(self).kept(),
            final(self).found() == old(self).found(),
            final(self).completed() == old(self).completed(),
            final(self).cursor() == old(self).cursor(),
            final(self).board() == put(old(self).board(), old(self).cursor(), val),
    {
        proof {
            use_type_invariant(&*self);
            lemma_put(self.solved, self.cursor(), val);
        }
        let ghost before = self.solved;
        self.solved[self.row][self.col][self.s_row][self.s_col] = val;
        proof {
            assert(is_put(self.solved, before, self.cursor(), val)) by {
                assert forall|q: Pos| valid(q) implies #[trigger] at(self.solved, q) == (if q
                    == self.cursor() {
                    val
                } else {
                    at(before, q)
                }) by {}
            }
        }
    }

    /// Moves the cursor to the next cell in search order.
    pub fn next(&mut self)
        ensures
            final(self).puzzle() == old(self).puzzle(),
            final(self).kept() == old(self).kept(),
            final(self).found() == old(self).found(),
            final(self).completed() == old(self).completed(),
            final(self).board() == old(self).board(),
            final(self).cursor() == advance(old(self).cursor()),
    {
        proof {
            use_type_invariant(&*self);
        }
        if let Err(()) = special_add(&mut self.s_col) {
            if let Err(()) = special_add(&mut self.s_row) {
                if let Err(()) = special_add(&mut self.col) {
                    let _ = special_add(&mut self.row);
                }
            }
        }
    }

    /// Moves the cursor to the cell before it in search order.
    pub fn back(&mut self)
        ensures
            final(self).puzzle() == old(self).puzzle(),
            final(self).kept() == old(self).kept(),
            final(self).found() == old(self).found(),
            final(self).completed() == old(self).completed(),
            final(self).board() == old(self).board(),
            final(self).cursor() == retreat(old(self).cursor()),
    {
        proof {
            use_type_invariant(&*self);
        }
        if let Err(()) = special_sub(&mut self.s_col) {
            if let Err(()) = special_sub(&mut self.s_row) {
                if let Err(()) = special_sub(&mut self.col) {
                    let _ = special_sub(&mut self.row);
                }
            }
        }
    }

    /// Whether `val` stands in the row of the board through the cursor.
    pub fn is_in_grid_row(&self, val: &u8) -> (b: bool)
        ensures
            b == in_grid_row(self.board(), self.cursor().row, self.cursor().s_row, *val),
    {
        proof {
            use_type_invariant(self);
        }
        row_has(&self.solved, self.row, self.s_row, val)
    }

    /// Whether `val` stands in the column of the board through the cursor.
    pub fn is_in_grid_col(&self, val: &u8) -> (b: bool)
        ensures
            b == in_grid_col(self.board(), self.cursor().col, self.cursor().s_col, *val),
    {
        proof {
            use_type_invariant(self);
        }
        col_has(&self.solved, self.col, self.s_col, val)
    }

    /// Whether `n` may be written at the cursor.
    pub fn is_correct(&self, n: &u8) -> (b: bool)
        ensures
            b == legal(self.board(), self.cursor(), *n),
    {
        proof {
            use_type_invariant(self);
            lemma_legal_by_parts(self.solved, self.cursor(), *n);
        }
        if !square_need(&self.solved[self.row][self.col], n) {
            return false;
        }
        if self.is_in_grid_row(n) {
            return false;
        }
        if self.is_in_grid_col(n) {
            return false;
        }
        true
    }

    /// The digits from 1 to 9 that may be written at the cursor, in
    /// ascending order.
    pub fn list_correct(&self) -> (out: Vec<u8>)
        ensures
            forall|i: int| 0 <= i < out.len() ==> 1 <= #[trigger] out[i] <= 9 && legal(
                self.board(),
                self.cursor(),
                out[i],
            ),
            forall|i: int, j: int| 0 <= i < j < out.len() ==> out[i] < out[j],
            forall|d: u8|
                1 <= d <= 9 && #[trigger] legal(self.board(), self.cursor(), d) ==> exists|k: int|
                    0 <= k < out.len() && out[k] == d,
    {
        let mut out: Vec<u8> = Vec::new();
        let mut num: u8 = 1;
        while num <= 9
            invariant
                1 <= num <= 10,
                forall|i: int| 0 <= i < out.len() ==> 1 <= #[trigger] out[i] < num && legal(
                    self.board(),
                    self.cursor(),
                    out[i],
                ),
                forall|i: int, j: int| 0 <= i < j < out.len() ==> out[i] < out[j],
                forall|d: u8|
                    1 <= d < num && #[trigger] legal(self.board(), self.cursor(), d)
                        ==> exists|k: int| 0 <= k < out.len() && out[k] == d,
            decreases 10 - num,
        {
            if self.is_correct(&num) {
                let ghost prev = out@;
                out.push(num);
                assert(out@[prev.len() as int] == num);
                assert forall|d: u8|
                    1 <= d < num + 1 && #[trigger] legal(
                        self.board(),
                        self.cursor(),
                        d,
                    ) implies exists|k: int| 0 <= k < out.len() && out[k] == d by {
                    if d < num {
                        let k = choose|k: int| 0 <= k < prev.len() && prev[k] == d;
                        assert(out@[k] == d);
                    }
                }
            }
            num += 1;
        }
        out
    }

    /// Searches on from the cursor, depth first, for a way to fill the
    /// empty cells of the board. A filled cell is passed over, whatever
    /// its tag; an empty one is tried with each legal digit in ascending
    /// order, as a guess. The search stops at the first full board, and
    /// where there is none it leaves the board as it found it.
    pub fn rec_solve(&mut self) -> (r: RecResult)
        requires
            prefix_filled(old(self).board(), old(self).cursor()),
        ensures
            final(self).puzzle() == old(self).puzzle(),
            final(self).kept() == old(self).kept(),
            final(self).found() == old(self).found(),
            final(self).completed() == (r == RecResult::Done),
            final(self).cursor() == old(self).cursor(),
            r != RecResult::Error,
            r == RecResult::Done <==> solvable(old(self).board()),
            r == RecResult::Done ==> first_completion(final(self).board(), old(self).board()),
            r == RecResult::Back ==> final(self).board() == old(self).board() && !solvable(
                old(self).board(),
            ),
        decreases distance(old(self).board(), old(self).cursor()),
    {
        proof {
            use_type_invariant(&*self);
        }
        let ghost b = self.board();
        let ghost c = self.cursor();
        if is_full(&self.solved) {
            proof {
                lemma_full_completes_itself(b);
            }
            self.completed = true;
            return RecResult::Done;
        }
        if self.this_val().is_some() {
            proof {
                lemma_move_on(b, c);
                lemma_advance_retreat(c);
            }
            self.next();
            let val = self.rec_solve();
            self.back();
            return val;
        }
        let cands = self.list_correct();
        let mut i: usize = 0;
        while i < cands.len()
            invariant
                valid(c),
                self.cursor() == c,
                self.puzzle() == old(self).puzzle(),
                self.kept() == old(self).kept(),
                self.found() == old(self).found(),
                b == old(self).board(),
                c == old(self).cursor(),
                !full(b),
                at(b, c).is_none(),
                prefix_filled(b, c),
                same_but(self.board(), b, c),
                0 <= i <= cands.len(),
                forall|k: int| 0 <= k < cands.len() ==> 1 <= #[trigger] cands[k] <= 9 && legal(
                    b,
                    c,
                    cands[k],
                ),
                forall|j: int, k: int| 0 <= j < k < cands.len() ==> cands[j] < cands[k],
                forall|d: u8|
                    1 <= d <= 9 && #[trigger] legal(b, c, d) ==> exists|k: int|
                        0 <= k < cands.len() && cands[k] == d,
                forall|h: Grid, k: int|
                    0 <= k < i && #[trigger] completion(h, b) ==> at(h, c) != Some(
                        Value::Maybe(#[trigger] cands[k]),
                    ),
            decreases cands.len() - i,
        {
            let num = cands[i];
            let ghost stale = self.board();
            self.change_pos_to(Some(Value::Maybe(num)));
            let ghost bk = self.board();
            proof {
                lemma_put(stale, c, Some(Value::Maybe(num)));
                assert(is_put(bk, b, c, Some(Value::Maybe(num)))) by {
                    assert forall|q: Pos| valid(q) implies #[trigger] at(bk, q) == (if q == c {
                        Some(Value::Maybe(num))
                    } else {
                        at(b, q)
                    }) by {}
                }
                assert(prefix_filled(bk, c));
                lemma_move_on(bk, c);
                lemma_advance_retreat(c);
            }
            self.next();
            match self.rec_solve() {
                RecResult::Back => {
                    self.back();
                    proof {
                        assert forall|h: Grid, k: int|
                            0 <= k < i + 1 && #[trigger] completion(h, b) implies at(h, c) != Some(
                            Value::Maybe(#[trigger] cands[k]),
                        ) by {
                            if k == i && at(h, c) == Some(Value::Maybe(num)) {
                                lemma_guess_made(h, bk, b, c, num);
                            }
                        }
                    }
                    i += 1;
                    continue ;
                },
                RecResult::Done => {
                    proof {
                        assert forall|h: Grid| #[trigger] completion(h, b) implies digit_at(h, c)
                            >= num by {
                            let d = lemma_guess_legal(h, b, c);
                            let k = choose|k: int| 0 <= k < cands.len() && cands[k] == d;
                            assert(at(h, c) == Some(Value::Maybe(cands[k])));
                            assert(k >= i);
                        }
                        lemma_first_kept(self.board(), bk, b, c, num);
                    }
                    self.back();
                    return RecResult::Done;
                },
                _ => {
                    return vstd::pervasive::unreached();
                },
            }
        }
        let ghost stale = self.board();
        self.change_pos_to(None);
        self.completed = false;
        proof {
            lemma_put(stale, c, None);
            assert(same(self.board(), b));
            lemma_same_is_equal(self.board(), b);
            assert forall|h: Grid| !completion(h, b) by {
                if completion(h, b) {
                    let d = lemma_guess_legal(h, b, c);
                    let k = choose|k: int| 0 <= k < cands.len() && cands[k] == d;
                    assert(at(h, c) != Some(Value::Maybe(cands[k])));
                }
            }
        }
        RecResult::Back
    }

    /// Searches on from the cursor as `rec_solve` does, but goes on after
    /// a find: it keeps the first full board, and reports `Error` as soon
    /// as it meets a second one.
    fn hard_rec_solve(&mut self) -> (r: RecResult)
        requires
            prefix_filled(old(self).solved, old(self).cursor()),
        ensures
            final(self).grid == old(self).grid,
            final(self).completed == old(self).completed,
            final(self).cursor() == old(self).cursor(),
            r != RecResult::Done,
            old(self).solution_found ==> final(self).solution_found && final(self).working_clone
                == old(self).working_clone,
            !final(self).solution_found ==> final(self).working_clone == old(self).working_clone,
            r == RecResult::Back ==> {
                &&& if full(old(self).solved) {
                    final(self).solved == put(
                        old(self).solved,
                        retreat(old(self).cursor()),
                        None,
                    )
                } else {
                    final(self).solved == old(self).solved
                }
                &&& old(self).solution_found || !final(self).solution_found ==> !solvable(
                    old(self).solved,
                )
                &&& !old(self).solution_found && final(self).solution_found ==> (
                final(self).working_clone matches Some(s) && only_completion(s, old(self).solved))
            },
            r == RecResult::Error ==> final(self).solution_found,
            r == RecResult::Error ==> (if old(self).solution_found {
                solvable(old(self).solved)
            } else {
                ambiguous(old(self).solved)
            }),
        decreases distance(old(self).solved, old(self).cursor()),
    {
        proof {
            use_type_invariant(&*self);
        }
        let ghost b = self.solved;
        let ghost c = self.cursor();
        let ghost found0 = self.solution_found;
        let ghost clone0 = self.working_clone;
        proof {
            lemma_advance_retreat(c);
        }
        if is_full(&self.solved) {
            proof {
                lemma_full_completes_itself(b);
            }
            if self.solution_found {
                return RecResult::Error;
            }
            self.working_clone = Some(self.solved);
            self.solution_found = true;
            self.back();
            self.change_pos_to(None);
            self.next();
            return RecResult::Back;
        }
        if self.this_val().is_some() {
            proof {
                lemma_move_on(b, c);
            }
            self.next();
            let val = self.hard_rec_solve();
            self.back();
            return val;
        }
        let cands = self.list_correct();
        let mut i: usize = 0;
        while i < cands.len()
            invariant
                valid(c),
                self.cursor() == c,
                self.grid == old(self).grid,
                self.completed == old(self).completed,
                b == old(self).solved,
                c == old(self).cursor(),
                found0 == old(self).solution_found,
                clone0 == old(self).working_clone,
                !full(b),
                at(b, c).is_none(),
                prefix_filled(b, c),
                same_but(self.solved, b, c),
                0 <= i <= cands.len(),
                forall|k: int| 0 <= k < cands.len() ==> 1 <= #[trigger] cands[k] <= 9 && legal(
                    b,
                    c,
                    cands[k],
                ),
                forall|j: int, k: int| 0 <= j < k < cands.len() ==> cands[j] < cands[k],
                forall|d: u8|
                    1 <= d <= 9 && #[trigger] legal(b, c, d) ==> exists|k: int|
                        0 <= k < cands.len() && cands[k] == d,
                found0 ==> self.solution_found,
                found0 || !self.solution_found ==> self.working_clone == clone0,
                !found0 && self.solution_found ==> (self.working_clone matches Some(s)
                    && completion(s, b) && exists|k: int|
                    0 <= k < i && at(s, c) == Some(Value::Maybe(#[trigger] cands[k]))),
                forall|h: Grid, k: int|
                    0 <= k < i && #[trigger] completion(h, b) && at(h, c) == Some(
                        Value::Maybe(#[trigger] cands[k]),
                    ) ==> !found0 && self.solution_found && self.working_clone == Some(h),
            decreases cands.len() - i,
        {
            let num = cands[i];
            let ghost stale = self.board();
            self.change_pos_to(Some(Value::Maybe(num)));
            let ghost bk = self.solved;
            let ghost found_mid = self.solution_found;
            let ghost clone_mid = self.working_clone;
            proof {
                lemma_put(stale, c, Some(Value::Maybe(num)));
                assert(is_put(bk, b, c, Some(Value::Maybe(num)))) by {
                    assert forall|q: Pos| valid(q) implies #[trigger] at(bk, q) == (if q == c {
                        Some(Value::Maybe(num))
                    } else {
                        at(b, q)
                    }) by {}
                }
                assert(prefix_filled(bk, c));
                lemma_move_on(bk, c);
            }
            self.next();
            match self.hard_rec_solve() {
                RecResult::Back => {
                    self.back();
                    proof {
                        lemma_put(bk, c, None);
                        assert(same_but(self.solved, b, c));
                        if !found_mid && self.solution_found {
                            let s = self.working_clone->Some_0;
                            lemma_guess_kept(s, bk, b, c, num);
                            assert(fills(s, bk, c));
                            assert(at(s, c) == Some(Value::Maybe(cands[i as int])));
                        }
                        assert forall|h: Grid, k: int|
                            0 <= k < i + 1 && #[trigger] completion(h, b) && at(h, c) == Some(
                                Value::Maybe(#[trigger] cands[k]),
                            ) implies !found0 && self.solution_found && self.working_clone == Some(
                            h,
                        ) by {
                            if k == i {
                                lemma_guess_made(h, bk, b, c, num);
                            }
                        }
                    }
                    i += 1;
                    continue ;
                },
                RecResult::Done => {
                    return vstd::pervasive::unreached();
                },
                RecResult::Error => {
                    proof {
                        if found_mid {
                            let h = choose|h: Grid| completion(h, bk);
                            lemma_guess_kept(h, bk, b, c, num);
                            assert(fills(h, bk, c));
                            if !found0 {
                                let s = clone_mid->Some_0;
                                let k = choose|k: int|
                                    0 <= k < i && at(s, c) == Some(
                                        Value::Maybe(#[trigger] cands[k]),
                                    );
                                assert(cands[k] < cands[i as int]);
                                assert(s != h);
                                assert(completion(s, b) && completion(h, b));
                            }
                        } else {
                            let (h1, h2) = choose|h1: Grid, h2: Grid|
                                #![trigger completion(h1, bk), completion(h2, bk)]
                                completion(h1, bk) && completion(h2, bk) && h1 != h2;
                            lemma_guess_kept(h1, bk, b, c, num);
                            lemma_guess_kept(h2, bk, b, c, num);
                            assert(completion(h1, b) && completion(h2, b));
                        }
                    }
                    self.back();
                    return RecResult::Error;
                },
            }
        }
        let ghost stale = self.solved;
        self.change_pos_to(None);
        proof {
            lemma_put(stale, c, None);
            assert(same(self.solved, b));
            lemma_same_is_equal(self.solved, b);
            assert forall|h: Grid| #[trigger] completion(h, b) implies !found0
                && self.solution_found && self.working_clone == Some(h) by {
                let d = lemma_guess_legal(h, b, c);
                let k = choose|k: int| 0 <= k < cands.len() && cands[k] == d;
                assert(at(h, c) == Some(Value::Maybe(cands[k])));
            }
        }
        RecResult::Back
    }

    /// Decides whether the puzzle has no completion, exactly one, or more
    /// than one, and keeps the completion when there is exactly one. Each
    /// call starts afresh from the first cell.
    pub fn hard_solve(&mut self) -> (r: SolveResult)
        ensures
            final(self).puzzle() == old(self).puzzle(),
            final(self).cursor() == pos(0, 0, 0, 0),
            r == verdict(old(self).puzzle()),
            r == SolveResult::Solved <==> unique(old(self).puzzle()),
            r == SolveResult::ManySolutions <==> ambiguous(old(self).puzzle()),
            r == SolveResult::FailedSolve <==> !solvable(old(self).puzzle()),
            r == SolveResult::Solved ==> only_completion(final(self).board(), old(self).puzzle()),
            r != SolveResult::Solved ==> final(self).board() == old(self).puzzle(),
            final(self).found() == solvable(old(self).puzzle()),
            final(self).kept().is_none(),
            final(self).completed() == (r == SolveResult::Solved),
    {
        proof {
            use_type_invariant(&*self);
        }
        self.solved = self.grid;
        self.row = 0;
        self.col = 0;
        self.s_row = 0;
        self.s_col = 0;
        self.solution_found = false;
        self.working_clone = None;
        let res = self.hard_rec_solve();
        proof {
            if full(self.grid) {
                lemma_full_completes_itself(self.grid);
            }
        }
        if res == RecResult::Back && self.solution_found {
            self.solved = self.working_clone.unwrap();
            self.working_clone = None;
            self.completed = true;
            return SolveResult::Solved;
        }
        self.working_clone = None;
        self.completed = false;
        if res == RecResult::Error {
            self.solved = self.grid;
            return SolveResult::ManySolutions;
        }
        SolveResult::FailedSolve
    }

    /// Looks for a way to fill the empty cells of the puzzle, from the
    /// first cell on, and stops at the first one that it finds. It does
    /// not tell whether there is another.
    pub fn solve(&mut self) -> (r: SolveResult)
        ensures
            final(self).puzzle() == old(self).puzzle(),
            final(self).cursor() == pos(0, 0, 0, 0),
            r != SolveResult::ManySolutions,
            r == SolveResult::Solved <==> solvable(old(self).puzzle()),
            r == SolveResult::Solved ==> first_completion(final(self).board(), old(self).puzzle()),
            r == SolveResult::FailedSolve ==> final(self).board() == old(self).puzzle(),
            final(self).found() == old(self).found(),
            final(self).completed() == (r == SolveResult::Solved),
            final(self).kept() == old(self).kept(),
    {
        proof {
            use_type_invariant(&*self);
        }
        self.solved = self.grid;
        self.row = 0;
        self.col = 0;
        self.s_row = 0;
        self.s_col = 0;
        match self.rec_solve() {
            RecResult::Back => SolveResult::FailedSolve,
            RecResult::Done => SolveResult::Solved,
            _ => vstd::pervasive::unreached(),
        }
    }
}

} // verus!
