//! The board as text: four lines, the cells of a line between bars, every
//! column as wide as the largest tile.

use crate::game::Game;
use crate::grid::flat;
use crate::score::seq_max;
use vstd::prelude::*;

verus! {

/// The number of decimal digits of `v`.
pub open spec fn digits(v: nat) -> nat
    decreases v,
{
    if v < 10 {
        1
    } else {
        1 + digits(v / 10)
    }
}

/// The width of `v` written in decimal: what a column needs to show it.
pub fn decimal_width(v: u32) -> (w: usize)
    ensures
        w == digits(v as nat),
        1 <= w <= 10,
{
    let mut w: usize = 1;
    let mut x: u32 = v;
    proof {
        reveal_with_fuel(digits, 11);
        assert(digits(v as nat) <= 10);
    }
    while x >= 10
        invariant
            w + digits(x as nat) == digits(v as nat) + 1,
            1 <= w,
            digits(v as nat) <= 10,
        decreases x,
    {
        x = x / 10;
        w = w + 1;
    }
    w
}

/// The decimal digits of `v` in ASCII, the most significant first.
pub open spec fn decimal(v: nat) -> Seq<u8>
    decreases v,
{
    if v < 10 {
        seq![(48 + v) as u8]
    } else {
        decimal(v / 10).push((48 + v % 10) as u8)
    }
}

/// What a cell shows: its value in decimal, nothing if it is empty.
pub open spec fn shown(v: u32) -> Seq<u8> {
    if v == 0 {
        Seq::empty()
    } else {
        decimal(v as nat)
    }
}

/// A cell of the dump: a bar, what the cell shows, and blanks up to `width`.
pub open spec fn cell_text(v: u32, width: nat) -> Seq<u8> {
    seq![124u8] + shown(v) + Seq::new((width - shown(v).len()) as nat, |i: int| 32u8)
}

/// The first `n` cells of a row.
pub open spec fn cells_text(r: Seq<u32>, n: nat, width: nat) -> Seq<u8>
    decreases n,
{
    if n == 0 {
        Seq::empty()
    } else {
        cells_text(r, (n - 1) as nat, width) + cell_text(r[n - 1], width)
    }
}

/// A row of the dump: its cells, a closing bar and a line feed.
pub open spec fn row_text(r: Seq<u32>, width: nat) -> Seq<u8> {
    cells_text(r, r.len(), width) + seq![124u8, 10u8]
}

/// The first `n` rows of the dump.
pub open spec fn rows_text(g: Seq<Seq<u32>>, n: nat, width: nat) -> Seq<u8>
    decreases n,
{
    if n == 0 {
        Seq::empty()
    } else {
        rows_text(g, (n - 1) as nat, width) + row_text(g[n - 1], width)
    }
}

/// The dump of a grid: its rows, then an empty line. The columns are as wide
/// as the largest tile is long.
pub open spec fn board_text(g: Seq<Seq<u32>>) -> Seq<u8> {
    rows_text(g, g.len(), digits(seq_max(flat(g)) as nat)) + seq![10u8]
}

/// A number has as many decimal digits as `digits` counts.
pub proof fn lemma_decimal_len(v: nat)
    ensures
        decimal(v).len() == digits(v),
    decreases v,
{
    if v >= 10 {
        lemma_decimal_len(v / 10);
    }
}

/// A larger number is not shorter.
pub proof fn lemma_digits_monotone(a: nat, b: nat)
    requires
        a <= b,
    ensures
        digits(a) <= digits(b),
    decreases b,
{
    if a >= 10 {
        lemma_digits_monotone(a / 10, b / 10);
    }
}

/// No value of a line is above its maximum.
pub proof fn lemma_max_bounds(s: Seq<u32>, k: int)
    requires
        0 <= k < s.len(),
    ensures
        s[k] <= seq_max(s),
    decreases s.len(),
{
    if k < s.len() - 1 {
        lemma_max_bounds(s.drop_last(), k);
    }
}

fn push_decimal(out: &mut Vec<u8>, v: u32)
    ensures
        final(out)@ == old(out)@ + decimal(v as nat),
    decreases v,
{
    if v >= 10 {
        push_decimal(out, v / 10);
    }
    let d: u8 = (v % 10) as u8;
    out.push(48 + d);
    assert(out@ =~= old(out)@ + decimal(v as nat));
}

fn push_cell(out: &mut Vec<u8>, v: u32, width: usize)
    requires
        v != 0 ==> digits(v as nat) <= width,
    ensures
        final(out)@ == old(out)@ + cell_text(v, width as nat),
{
    out.push(124);
    let mut k: usize = 0;
    if v != 0 {
        push_decimal(out, v);
        k = decimal_width(v);
    }
    let ghost used = k;
    let ghost head = out@;
    proof {
        lemma_decimal_len(v as nat);
        assert(head =~= old(out)@ + seq![124u8] + shown(v));
    }
    while k < width
        invariant
            used <= k <= width,
            out@ == head + Seq::new((k - used) as nat, |i: int| 32u8),
        decreases width - k,
    {
        out.push(32);
        k = k + 1;
        assert(out@ =~= head + Seq::new((k - used) as nat, |i: int| 32u8));
    }
    assert(out@ =~= old(out)@ + cell_text(v, width as nat));
}

impl Game {
    /// The board as ASCII text, ready to be printed.
    pub fn display(&self) -> (out: Vec<u8>)
        ensures
            out@ == board_text(self.grid()),
    {
        let ghost g = self.grid();
        let top: u32 = self.max_tile();
        let width: usize = decimal_width(top);
        let mut out: Vec<u8> = Vec::new();
        let mut i: usize = 0;
        while i < 4
            invariant
                i <= 4,
                g == self.grid(),
                top == seq_max(flat(g)),
                width == digits(top as nat),
                out@ == rows_text(g, i as nat, width as nat),
            decreases 4 - i,
        {
            let ghost done = out@;
            let mut j: usize = 0;
            while j < 4
                invariant
                    i < 4,
                    j <= 4,
                    g == self.grid(),
                    top == seq_max(flat(g)),
                    width == digits(top as nat),
                    out@ == done + cells_text(g[i as int], j as nat, width as nat),
                decreases 4 - j,
            {
                let v: u32 = self.board[i][j];
                let ghost before = out@;
                proof {
                    assert(flat(g)[4 * i + j] == v);
                    lemma_max_bounds(flat(g), 4 * i + j);
                    lemma_digits_monotone(v as nat, top as nat);
                }
                push_cell(&mut out, v, width);
                j = j + 1;
                assert(out@ =~= done + cells_text(g[i as int], j as nat, width as nat));
            }
            out.push(124);
            out.push(10);
            assert(g[i as int].len() == 4);
            i = i + 1;
            assert(out@ =~= rows_text(g, i as nat, width as nat));
        }
        out.push(10);
        out
    }
}

} // verus!
