use vstd::prelude::*;
use crate::grid::{at, empty_grid, valid, Grid, Pos, Value};

verus! {

/// Why a puzzle could not be read.
#[derive(Debug, PartialEq, Eq, Structural, Clone, Copy)]
pub enum ParseError {
    PathNotFound,
    InvalidLayout,
    NotANumber,
    Zero,
}

impl ParseError {
    /// The error in words.
    pub fn to_string(&self) -> (out: String)
        ensures
            out@ == (match *self {
                ParseError::PathNotFound => "Path Not Found"@,
                ParseError::InvalidLayout => "Invalid sudoku layer"@,
                ParseError::NotANumber => "Came across not a number"@,
                ParseError::Zero => "Came across Zero"@,
            }),
    {
        match self {
            ParseError::PathNotFound => "Path Not Found".to_owned(),
            ParseError::InvalidLayout => "Invalid sudoku layer".to_owned(),
            ParseError::NotANumber => "Came across not a number".to_owned(),
            ParseError::Zero => "Came across Zero".to_owned(),
        }
    }
}

/// The line that the byte at `i` stands on: the number of line feeds before it.
pub open spec fn line_of(text: Seq<u8>, i: int) -> int
    decreases i,
{
    if i <= 0 {
        0
    } else if text[i - 1] == 0x0a {
        line_of(text, i - 1) + 1
    } else {
        line_of(text, i - 1)
    }
}

/// The column of the byte at `i`: the number of bytes between it and the
/// start of its line.
pub open spec fn column_of(text: Seq<u8>, i: int) -> int
    decreases i,
{
    if i <= 0 {
        0
    } else if text[i - 1] == 0x0a {
        0
    } else {
        column_of(text, i - 1) + 1
    }
}

/// The byte at `i` belongs to a line ending: a line feed, or a carriage
/// return that a line feed follows.
pub open spec fn ends_line(text: Seq<u8>, i: int) -> bool {
    text[i] == 0x0a || (text[i] == 0x0d && i + 1 < text.len() && text[i + 1] == 0x0a)
}

/// What is wrong with the byte at `i`, if anything: it stands on a
/// tenth line or later; or it is no line ending and no placeholder and
/// stands in a tenth column or later, or is no digit, or is the digit 0.
pub open spec fn fault_at(text: Seq<u8>, i: int) -> Option<ParseError> {
    let c = text[i];
    if line_of(text, i) >= 9 {
        Some(ParseError::InvalidLayout)
    } else if ends_line(text, i) || c == 0x5f {
        None
    } else if column_of(text, i) >= 9 {
        Some(ParseError::InvalidLayout)
    } else if !(0x30 <= c <= 0x39) {
        Some(ParseError::NotANumber)
    } else if c == 0x30 {
        Some(ParseError::Zero)
    } else {
        None
    }
}

/// The byte at `i` writes the clue `v` into the cell at `p`: it is a
/// digit from 1 to 9 and stands, among the first nine lines and columns,
/// on the line and in the column of `p`.
pub open spec fn writes(text: Seq<u8>, i: int, p: Pos, v: Value) -> bool {
    &&& 0 <= i < text.len()
    &&& line_of(text, i) == 3 * p.row + p.s_row
    &&& column_of(text, i) == 3 * p.col + p.s_col
    &&& !ends_line(text, i)
    &&& 0x31 <= text[i] <= 0x39
    &&& v == Value::Definite((text[i] - 0x30) as u8)
}

/// Reads a puzzle from text: one line for each row of the board, in a
/// line one byte for each cell, a digit from 1 to 9 for a clue and `_`
/// for an empty cell. Lines and cells that the text leaves out are empty.
pub fn parse(contents: &[u8]) -> (out: Result<Grid, ParseError>)
    ensures
        match out {
            Ok(g) => {
                &&& forall|i: int| 0 <= i < contents@.len() ==> fault_at(contents@, i).is_none()
                &&& forall|p: Pos|
                    valid(p) ==> match #[trigger] at(g, p) {
                        Some(v) => exists|i: int| writes(contents@, i, p, v),
                        None => forall|i: int, v: Value| !writes(contents@, i, p, v),
                    }
            },
            Err(e) => exists|i: int|
                0 <= i < contents@.len() && fault_at(contents@, i) == Some(e) && forall|j: int|
                    0 <= j < i ==> fault_at(contents@, j).is_none(),
        },
{
    let mut out_grid: Grid = empty_grid();
    let mut s_row: usize = 0;
    let mut row: usize = 0;
    let mut n: usize = 0;
    let mut i: usize = 0;
    let ghost text = contents@;
    while i < contents.len()
        invariant
            text == contents@,
            0 <= i <= text.len(),
            row <= 3,
            s_row < 3,
            row == 3 ==> s_row == 0,
            line_of(text, i as int) >= 9 <==> row == 3,
            row < 3 ==> line_of(text, i as int) == 3 * row + s_row,
            n == column_of(text, i as int),
            n <= i,
            forall|j: int| 0 <= j < i ==> fault_at(text, j).is_none(),
            forall|p: Pos|
                valid(p) ==> match #[trigger] at(out_grid, p) {
                    Some(v) => exists|j: int| 0 <= j < i && writes(text, j, p, v),
                    None => forall|j: int, v: Value| 0 <= j < i ==> !writes(text, j, p, v),
                },
        decreases text.len() - i,
    {
        if row == 3 {
            assert(fault_at(text, i as int) == Some(ParseError::InvalidLayout));
            return Err(ParseError::InvalidLayout);
        }
        let c = contents[i];
        let ghost before = out_grid;
        if c == 0x0a {
            s_row += 1;
            if s_row == 3 {
                s_row = 0;
                row += 1;
            }
            n = 0;
        } else if c == 0x0d && i + 1 < contents.len() && contents[i + 1] == 0x0a {
            n += 1;
        } else if c == 0x5f {
            n += 1;
        } else {
            if n >= 9 {
                assert(fault_at(text, i as int) == Some(ParseError::InvalidLayout));
                return Err(ParseError::InvalidLayout);
            }
            if c < 0x30 || c > 0x39 {
                assert(fault_at(text, i as int) == Some(ParseError::NotANumber));
                return Err(ParseError::NotANumber);
            }
            if c == 0x30 {
                assert(fault_at(text, i as int) == Some(ParseError::Zero));
                return Err(ParseError::Zero);
            }
            out_grid[row][n / 3][s_row][n % 3] = Some(Value::Definite(c - 0x30));
            n += 1;
        }
        proof {
            let here = Pos {
                row: row as int,
                col: (n - 1) / 3,
                s_row: s_row as int,
                s_col: (n - 1) % 3,
            };
            assert forall|p: Pos| valid(p) implies match #[trigger] at(out_grid, p) {
                Some(v) => exists|j: int| 0 <= j < i + 1 && writes(text, j, p, v),
                None => forall|j: int, v: Value| 0 <= j < i + 1 ==> !writes(text, j, p, v),
            } by {
                if out_grid != before && p == here {
                    assert(writes(text, i as int, p, Value::Definite((c - 0x30) as u8)));
                } else {
                    assert(at(out_grid, p) == at(before, p));
                    match at(before, p) {
                        Some(v) => {
                            let j = choose|j: int| 0 <= j < i && writes(text, j, p, v);
                            assert(writes(text, j, p, v));
                        },
                        None => {},
                    }
                }
            }
        }
        i += 1;
    }
    Ok(out_grid)
}

} // verus!
