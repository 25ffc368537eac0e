use vstd::array::spec_array_update;
use vstd::prelude::*;

verus! {

/// A digit placed in a cell, tagged by how it got there: `Maybe` for a
/// guess made during search, `Definite` for a clue.
#[derive(PartialEq, Eq, Structural, Debug, Copy, Clone)]
pub enum Value {
    Maybe(u8),
    Definite(u8),
}

/// One 3x3 box: three rows of three cells.
pub type Square = [[Option<Value>; 3]; 3];

/// The board: three rows of three boxes.
pub type Grid = [[Square; 3]; 3];

impl Value {
    /// The digit, whatever the tag.
    pub open spec fn digit(self) -> u8 {
        match self {
            Value::Maybe(v) => v,
            Value::Definite(v) => v,
        }
    }

    /// The digit, whatever the tag.
    pub fn unwrap(&self) -> (d: u8)
        ensures
            d == self.digit(),
    {
        match self {
            Value::Maybe(v) => *v,
            Value::Definite(v) => *v,
        }
    }
}

/// Whether a cell holds the digit `val`.
pub open spec fn holds(cell: Option<Value>, val: u8) -> bool {
    cell matches Some(v) && v.digit() == val
}

/// Whether `val` occurs in row `i` of the box `s`.
pub open spec fn in_row(s: Square, i: int, val: u8) -> bool {
    exists|j: int| 0 <= j < 3 && holds(#[trigger] s[i][j], val)
}

/// Whether `val` occurs in column `i` of the box `s`.
pub open spec fn in_col(s: Square, i: int, val: u8) -> bool {
    exists|j: int| 0 <= j < 3 && holds(#[trigger] s[j][i], val)
}

/// Whether `val` occurs anywhere in the box `s`.
pub open spec fn in_square(s: Square, val: u8) -> bool {
    exists|i: int, j: int| 0 <= i < 3 && 0 <= j < 3 && holds(#[trigger] s[i][j], val)
}

/// The address of a cell: the box by `row` and `col`, the cell within the
/// box by `s_row` and `s_col`.
pub struct Pos {
    pub row: int,
    pub col: int,
    pub s_row: int,
    pub s_col: int,
}

/// The address made of four machine indices.
pub open spec fn pos(row: usize, col: usize, s_row: usize, s_col: usize) -> Pos {
    Pos { row: row as int, col: col as int, s_row: s_row as int, s_col: s_col as int }
}

/// Every coordinate lies in `0..3`.
pub open spec fn valid(p: Pos) -> bool {
    0 <= p.row < 3 && 0 <= p.col < 3 && 0 <= p.s_row < 3 && 0 <= p.s_col < 3
}

/// The content of the cell at `p`.
pub open spec fn at(g: Grid, p: Pos) -> Option<Value> {
    g[p.row][p.col][p.s_row][p.s_col]
}

/// The place of `p` in the order in which a search visits the cells:
/// box by box, and row by row within a box.
pub open spec fn rank(p: Pos) -> int {
    27 * p.row + 9 * p.col + 3 * p.s_row + p.s_col
}

/// Two cells constrain each other when they share a box, a row of the
/// board or a column of the board. A cell is its own peer.
pub open spec fn peers(p: Pos, q: Pos) -> bool {
    ||| (p.row == q.row && p.col == q.col)
    ||| (p.row == q.row && p.s_row == q.s_row)
    ||| (p.col == q.col && p.s_col == q.s_col)
}

/// The cell that a tuple of four indices addresses.
pub open spec fn cell_of(t: (usize, usize, usize, usize)) -> Pos {
    pos(t.0, t.1, t.2, t.3)
}

/// Whether every one of the 81 cells of `g` is filled.
pub open spec fn full(g: Grid) -> bool {
    forall|p: Pos| valid(p) ==> (#[trigger] at(g, p)).is_some()
}

/// Whether `val` occurs in row `s_row` of some box of the box-row `row`.
pub open spec fn in_grid_row(g: Grid, row: int, s_row: int, val: u8) -> bool {
    exists|c: int| 0 <= c < 3 && in_row(#[trigger] g[row][c], s_row, val)
}

/// Whether `val` occurs in column `s_col` of some box of the box-column `col`.
pub open spec fn in_grid_col(g: Grid, col: int, s_col: int, val: u8) -> bool {
    exists|r: int| 0 <= r < 3 && in_col(#[trigger] g[r][col], s_col, val)
}

/// Whether `val` may be written at `p`: no peer of `p`, `p` itself
/// included, holds it.
pub open spec fn legal(g: Grid, p: Pos, val: u8) -> bool {
    forall|q: Pos| valid(q) && peers(p, q) ==> !holds(#[trigger] at(g, q), val)
}

/// Two grids with the same 81 cells.
pub open spec fn same(g: Grid, h: Grid) -> bool {
    forall|p: Pos| valid(p) ==> at(g, p) == #[trigger] at(h, p)
}

/// `h` is `g` with the cell at `p` replaced by `cell`.
pub open spec fn is_put(h: Grid, g: Grid, p: Pos, cell: Option<Value>) -> bool {
    forall|q: Pos| valid(q) ==> #[trigger] at(h, q) == (if q == p { cell } else { at(g, q) })
}

/// `g` with the cell at `p` replaced by `cell`.
pub open spec fn put(g: Grid, p: Pos, cell: Option<Value>) -> Grid {
    let line = g[p.row][p.col][p.s_row];
    let square = g[p.row][p.col];
    let band = g[p.row];
    spec_array_update(
        g,
        p.row,
        spec_array_update(
            band,
            p.col,
            spec_array_update(square, p.s_row, spec_array_update(line, p.s_col, cell)),
        ),
    )
}

/// `put` changes the cell at `p` and no other.
pub proof fn lemma_put(g: Grid, p: Pos, cell: Option<Value>)
    requires
        valid(p),
    ensures
        is_put(put(g, p, cell), g, p, cell),
        forall|h: Grid| is_put(h, g, p, cell) ==> h == put(g, p, cell),
{
    let k = put(g, p, cell);
    assert forall|q: Pos| valid(q) implies #[trigger] at(k, q) == (if q == p {
        cell
    } else {
        at(g, q)
    }) by {}
    assert forall|h: Grid| is_put(h, g, p, cell) implies h == k by {
        assert forall|q: Pos| valid(q) implies at(h, q) == #[trigger] at(k, q) by {}
        lemma_same_is_equal(h, k);
    }
}

/// Grids are determined by their cells.
pub proof fn lemma_same_is_equal(g: Grid, h: Grid)
    requires
        same(g, h),
    ensures
        g == h,
{
    assert forall|r: int| 0 <= r < 3 implies g[r] == h[r] by {
        assert forall|c: int| 0 <= c < 3 implies g[r][c] == h[r][c] by {
            assert forall|sr: int| 0 <= sr < 3 implies g[r][c][sr] == h[r][c][sr] by {
                assert forall|sc: int| 0 <= sc < 3 implies g[r][c][sr][sc] == h[r][c][sr][sc] by {
                    let p = Pos { row: r, col: c, s_row: sr, s_col: sc };
                    assert(at(g, p) == at(h, p));
                }
                assert(g[r][c][sr] =~= h[r][c][sr]);
            }
            assert(g[r][c] =~= h[r][c]);
        }
        assert(g[r] =~= h[r]);
    }
    assert(g =~= h);
}

/// Legality at a cell, taken apart into the three tests that the
/// executable code makes: on the box, on the row and on the column.
pub proof fn lemma_legal_by_parts(g: Grid, p: Pos, val: u8)
    requires
        valid(p),
    ensures
        legal(g, p, val) <==> (!in_square(g[p.row][p.col], val) && !in_grid_row(
            g,
            p.row,
            p.s_row,
            val,
        ) && !in_grid_col(g, p.col, p.s_col, val)),
{
    if legal(g, p, val) {
        if in_square(g[p.row][p.col], val) {
            let (i, j) = choose|i: int, j: int|
                0 <= i < 3 && 0 <= j < 3 && holds(#[trigger] g[p.row][p.col][i][j], val);
            let q = Pos { row: p.row, col: p.col, s_row: i, s_col: j };
            assert(holds(at(g, q), val));
        }
        if in_grid_row(g, p.row, p.s_row, val) {
            let c = choose|c: int| 0 <= c < 3 && in_row(#[trigger] g[p.row][c], p.s_row, val);
            let j = choose|j: int| 0 <= j < 3 && holds(#[trigger] g[p.row][c][p.s_row][j], val);
            let q = Pos { row: p.row, col: c, s_row: p.s_row, s_col: j };
            assert(holds(at(g, q), val));
        }
        if in_grid_col(g, p.col, p.s_col, val) {
            let r = choose|r: int| 0 <= r < 3 && in_col(#[trigger] g[r][p.col], p.s_col, val);
            let j = choose|j: int| 0 <= j < 3 && holds(#[trigger] g[r][p.col][j][p.s_col], val);
            let q = Pos { row: r, col: p.col, s_row: j, s_col: p.s_col };
            assert(holds(at(g, q), val));
        }
    } else {
        let q = choose|q: Pos| valid(q) && peers(p, q) && holds(#[trigger] at(g, q), val);
        if p.row == q.row && p.col == q.col {
            assert(holds(g[p.row][p.col][q.s_row][q.s_col], val));
        } else if p.row == q.row && p.s_row == q.s_row {
            assert(holds(g[p.row][q.col][p.s_row][q.s_col], val));
            assert(in_row(g[p.row][q.col], p.s_row, val));
        } else {
            assert(holds(g[q.row][p.col][q.s_row][p.s_col], val));
            assert(in_col(g[q.row][p.col], p.s_col, val));
        }
    }
}

fn cell_holds(cell: &Option<Value>, val: u8) -> (b: bool)
    ensures
        b == holds(*cell, val),
{
    match cell {
        Some(v) => v.unwrap() == val,
        None => false,
    }
}

/// Whether `val` stands in row `i` of the box.
pub fn is_in_row(s: &Square, i: usize, val: &u8) -> (b: bool)
    requires
        i < 3,
    ensures
        b == in_row(*s, i as int, *val),
{
    let mut j: usize = 0;
    while j < 3
        invariant
            i < 3,
            j <= 3,
            forall|k: int| 0 <= k < j ==> !holds(#[trigger] s[i as int][k], *val),
        decreases 3 - j,
    {
        if cell_holds(&s[i][j], *val) {
            return true;
        }
        j += 1;
    }
    false
}

/// Whether `val` stands in column `i` of the box.
pub fn is_in_col(s: &Square, i: usize, val: &u8) -> (b: bool)
    requires
        i < 3,
    ensures
        b == in_col(*s, i as int, *val),
{
    let mut j: usize = 0;
    while j < 3
        invariant
            i < 3,
            j <= 3,
            forall|k: int| 0 <= k < j ==> !holds(#[trigger] s[k][i as int], *val),
        decreases 3 - j,
    {
        if cell_holds(&s[j][i], *val) {
            return true;
        }
        j += 1;
    }
    false
}

/// Whether the box still needs `n`: no cell of it holds `n`.
pub fn square_need(s: &Square, n: &u8) -> (b: bool)
    ensures
        b == !in_square(*s, *n),
{
    let mut i: usize = 0;
    while i < 3
        invariant
            i <= 3,
            forall|a: int, k: int| 0 <= a < i && 0 <= k < 3 ==> !holds(#[trigger] s[a][k], *n),
        decreases 3 - i,
    {
        let mut j: usize = 0;
        while j < 3
            invariant
                i < 3,
                j <= 3,
                forall|a: int, k: int| 0 <= a < i && 0 <= k < 3 ==> !holds(#[trigger] s[a][k], *n),
                forall|k: int| 0 <= k < j ==> !holds(#[trigger] s[i as int][k], *n),
            decreases 3 - j,
        {
            if cell_holds(&s[i][j], *n) {
                return false;
            }
            j += 1;
        }
        i += 1;
    }
    true
}

/// Whether `val` already stands in row `s_row` of the box-row `row`.
pub fn row_has(g: &Grid, row: usize, s_row: usize, val: &u8) -> (b: bool)
    requires
        row < 3,
        s_row < 3,
    ensures
        b == in_grid_row(*g, row as int, s_row as int, *val),
{
    let mut c: usize = 0;
    while c < 3
        invariant
            row < 3,
            s_row < 3,
            c <= 3,
            forall|k: int| 0 <= k < c ==> !in_row(#[trigger] g[row as int][k], s_row as int, *val),
        decreases 3 - c,
    {
        if is_in_row(&g[row][c], s_row, val) {
            return true;
        }
        c += 1;
    }
    false
}

/// Whether `val` already stands in column `s_col` of the box-column `col`.
pub fn col_has(g: &Grid, col: usize, s_col: usize, val: &u8) -> (b: bool)
    requires
        col < 3,
        s_col < 3,
    ensures
        b == in_grid_col(*g, col as int, s_col as int, *val),
{
    let mut r: usize = 0;
    while r < 3
        invariant
            col < 3,
            s_col < 3,
            r <= 3,
            forall|k: int| 0 <= k < r ==> !in_col(#[trigger] g[k][col as int], s_col as int, *val),
        decreases 3 - r,
    {
        if is_in_col(&g[r][col], s_col, val) {
            return true;
        }
        r += 1;
    }
    false
}

/// The indices of the cell whose rank is `k`.
pub open spec fn nth_cell(k: int) -> (usize, usize, usize, usize) {
    ((k / 27) as usize, ((k / 9) % 3) as usize, ((k / 3) % 3) as usize, (k % 3) as usize)
}

/// The indices of the cell that a search visits as its `k`-th, counted
/// from 0.
pub fn cell_at(k: usize) -> (t: (usize, usize, usize, usize))
    requires
        k < 81,
    ensures
        valid(cell_of(t)),
        rank(cell_of(t)) == k,
        t == nth_cell(k as int),
{
    (k / 27, (k / 9) % 3, (k / 3) % 3, k % 3)
}

/// Whether no cell of `grid` is empty.
pub fn is_full(grid: &Grid) -> (b: bool)
    ensures
        b == full(*grid),
{
    let mut k: usize = 0;
    while k < 81
        invariant
            k <= 81,
            forall|p: Pos|
                valid(p) && rank(p) < k ==> (#[trigger] at(
                    *grid,
                    p,
                )).is_some(),
        decreases 81 - k,
    {
        let (row, col, s_row, s_col) = cell_at(k);
        if grid[row][col][s_row][s_col].is_none() {
            assert(at(*grid, pos(row, col, s_row, s_col)).is_none());
            return false;
        }
        k += 1;
    }
    true
}

/// The cell after `p` in search order; after the last cell comes the first.
pub open spec fn advance(p: Pos) -> Pos {
    if p.s_col < 2 {
        Pos { s_col: p.s_col + 1, ..p }
    } else if p.s_row < 2 {
        Pos { s_row: p.s_row + 1, s_col: 0, ..p }
    } else if p.col < 2 {
        Pos { col: p.col + 1, s_row: 0, s_col: 0, ..p }
    } else if p.row < 2 {
        Pos { row: p.row + 1, col: 0, s_row: 0, s_col: 0 }
    } else {
        Pos { row: 0, col: 0, s_row: 0, s_col: 0 }
    }
}

/// The cell before `p` in search order; before the first cell comes the last.
pub open spec fn retreat(p: Pos) -> Pos {
    if p.s_col > 0 {
        Pos { s_col: p.s_col - 1, ..p }
    } else if p.s_row > 0 {
        Pos { s_row: p.s_row - 1, s_col: 2, ..p }
    } else if p.col > 0 {
        Pos { col: p.col - 1, s_row: 2, s_col: 2, ..p }
    } else if p.row > 0 {
        Pos { row: p.row - 1, col: 2, s_row: 2, s_col: 2 }
    } else {
        Pos { row: 2, col: 2, s_row: 2, s_col: 2 }
    }
}

/// Stepping forward and stepping backward undo each other everywhere on
/// the board, the wrap between the last cell and the first included, and
/// a step forward moves one place on in search order.
pub proof fn lemma_advance_retreat(p: Pos)
    requires
        valid(p),
    ensures
        valid(advance(p)),
        valid(retreat(p)),
        retreat(advance(p)) == p,
        advance(retreat(p)) == p,
        rank(advance(p)) == (if rank(p) == 80 { 0 } else { rank(p) + 1 }),
{
}

/// Whether two grids are the same, cell by cell.
pub fn grids_equal(a: &Grid, b: &Grid) -> (e: bool)
    ensures
        e == (*a == *b),
{
    let mut k: usize = 0;
    while k < 81
        invariant
            k <= 81,
            forall|p: Pos|
                valid(p) && rank(p) < k ==> at(*a, p) == #[trigger] at(
                    *b,
                    p,
                ),
        decreases 81 - k,
    {
        let (row, col, s_row, s_col) = cell_at(k);
        let x = a[row][col][s_row][s_col];
        let y = b[row][col][s_row][s_col];
        let eq = match (x, y) {
            (None, None) => true,
            (Some(Value::Maybe(u)), Some(Value::Maybe(v))) => u == v,
            (Some(Value::Definite(u)), Some(Value::Definite(v))) => u == v,
            _ => false,
        };
        if !eq {
            assert(at(*a, pos(row, col, s_row, s_col)) != at(*b, pos(row, col, s_row, s_col)));
            return false;
        }
        k += 1;
    }
    proof {
        lemma_same_is_equal(*a, *b);
    }
    true
}

/// The grid with all 81 cells empty.
pub fn empty_grid() -> (g: Grid)
    ensures
        forall|p: Pos| valid(p) ==> (#[trigger] at(g, p)).is_none(),
{
    let line: [Option<Value>; 3] = [None, None, None];
    let square: Square = [line, line, line];
    let band: [Square; 3] = [square, square, square];
    [band, band, band]
}

} // verus!
