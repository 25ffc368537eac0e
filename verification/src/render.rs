use vstd::prelude::*;
use crate::grid::{Grid, Square, Value};

verus! {

/// The decimal digits of `v`, as ASCII.
pub open spec fn decimal(v: u8) -> Seq<u8> {
    if v < 10 {
        seq![(0x30 + v) as u8]
    } else if v < 100 {
        seq![(0x30 + v / 10) as u8, (0x30 + v % 10) as u8]
    } else {
        seq![(0x30 + v / 100) as u8, (0x30 + (v / 10) % 10) as u8, (0x30 + v % 10) as u8]
    }
}

/// A cell as it is shown: `_` for an empty one, the digit of a guess as
/// it is, and the digit of a clue between the escape sequences that
/// turn bright green on and off.
pub open spec fn cell_text(cell: Option<Value>) -> Seq<u8> {
    match cell {
        None => seq![0x5fu8],
        Some(Value::Maybe(v)) => decimal(v),
        Some(Value::Definite(v)) => seq![0x1bu8, 0x5b, 0x39, 0x32, 0x6d] + decimal(v) + seq![
            0x1bu8,
            0x5b,
            0x30,
            0x6d,
        ],
    }
}

/// One row of a box, between two bars.
pub open spec fn row_text(row: [Option<Value>; 3]) -> Seq<u8> {
    seq![0x7cu8] + cell_text(row[0]) + cell_text(row[1]) + cell_text(row[2]) + seq![0x7cu8]
}

/// Row `i` of each of the three boxes of a band, and a line feed.
pub open spec fn line_text(band: [Square; 3], i: int) -> Seq<u8> {
    row_text(band[0][i]) + row_text(band[1][i]) + row_text(band[2][i]) + seq![0x0au8]
}

/// Fifteen hyphens and a line feed.
pub open spec fn rule_text() -> Seq<u8> {
    Seq::new(15, |i: int| 0x2du8) + seq![0x0au8]
}

/// A band of three boxes: its three lines between two rules.
pub open spec fn band_text(band: [Square; 3]) -> Seq<u8> {
    rule_text() + line_text(band, 0) + line_text(band, 1) + line_text(band, 2) + rule_text()
}

/// The whole board as it is shown: its three bands, one below the other.
pub open spec fn grid_text(g: Grid) -> Seq<u8> {
    band_text(g[0]) + band_text(g[1]) + band_text(g[2])
}

fn push_decimal(out: &mut Vec<u8>, v: u8)
    ensures
        final(out)@ == old(out)@ + decimal(v),
{
    if v >= 100 {
        out.push(0x30 + v / 100);
    }
    if v >= 10 {
        out.push(0x30 + (v / 10) % 10);
    }
    out.push(0x30 + v % 10);
    assert(out@ =~= old(out)@ + decimal(v));
}

fn push_cell(out: &mut Vec<u8>, cell: &Option<Value>)
    ensures
        final(out)@ == old(out)@ + cell_text(*cell),
{
    match cell {
        Some(Value::Maybe(val)) => {
            push_decimal(out, *val);
        },
        Some(Value::Definite(val)) => {
            out.push(0x1b);
            out.push(0x5b);
            out.push(0x39);
            out.push(0x32);
            out.push(0x6d);
            push_decimal(out, *val);
            out.push(0x1b);
            out.push(0x5b);
            out.push(0x30);
            out.push(0x6d);
        },
        None => {
            out.push(0x5f);
        },
    }
    assert(out@ =~= old(out)@ + cell_text(*cell));
}

/// Appends one row of a box to the text.
pub fn push_row(out: &mut Vec<u8>, row: &[Option<Value>; 3])
    ensures
        final(out)@ == old(out)@ + row_text(*row),
{
    out.push(0x7c);
    push_cell(out, &row[0]);
    push_cell(out, &row[1]);
    push_cell(out, &row[2]);
    out.push(0x7c);
    assert(out@ =~= old(out)@ + row_text(*row));
}

fn push_rule(out: &mut Vec<u8>)
    ensures
        final(out)@ == old(out)@ + rule_text(),
{
    let mut i: usize = 0;
    while i < 15
        invariant
            i <= 15,
            out@ == old(out)@ + Seq::new(i as nat, |k: int| 0x2du8),
        decreases 15 - i,
    {
        out.push(0x2d);
        i += 1;
        assert(out@ =~= old(out)@ + Seq::new(i as nat, |k: int| 0x2du8));
    }
    out.push(0x0a);
    assert(out@ =~= old(out)@ + rule_text());
}

fn push_line(out: &mut Vec<u8>, band: &[Square; 3], i: usize)
    requires
        i < 3,
    ensures
        final(out)@ == old(out)@ + line_text(*band, i as int),
{
    push_row(out, &band[0][i]);
    push_row(out, &band[1][i]);
    push_row(out, &band[2][i]);
    out.push(0x0a);
    assert(out@ =~= old(out)@ + line_text(*band, i as int));
}

fn push_band(out: &mut Vec<u8>, band: &[Square; 3])
    ensures
        final(out)@ == old(out)@ + band_text(*band),
{
    push_rule(out);
    let mut i: usize = 0;
    let ghost ruled = out@;
    while i < 3
        invariant
            i <= 3,
            ruled == old(out)@ + rule_text(),
            i == 0 ==> out@ == ruled,
            i == 1 ==> out@ == ruled + line_text(*band, 0),
            i == 2 ==> out@ == ruled + line_text(*band, 0) + line_text(*band, 1),
            i == 3 ==> out@ == ruled + line_text(*band, 0) + line_text(*band, 1) + line_text(
                *band,
                2,
            ),
        decreases 3 - i,
    {
        push_line(out, band, i);
        i += 1;
    }
    push_rule(out);
}

/// The board as text, ready to be written to a terminal.
pub fn render(g: &Grid) -> (out: Vec<u8>)
    ensures
        out@ == grid_text(*g),
{
    let mut out: Vec<u8> = Vec::new();
    let mut b: usize = 0;
    while b < 3
        invariant
            b <= 3,
            b == 0 ==> out@ == Seq::<u8>::empty(),
            b == 1 ==> out@ == band_text(g[0]),
            b == 2 ==> out@ == band_text(g[0]) + band_text(g[1]),
            b == 3 ==> out@ == grid_text(*g),
        decreases 3 - b,
    {
        push_band(&mut out, &g[b]);
        b += 1;
    }
    out
}

} // verus!
