//! The scoring heuristic: logarithms of the tiles, a bonus for the largest
//! tile and its corner, bonuses for large tiles found next to each other.

use crate::game::Action;
use crate::grid::{flat, grid_view, grid_within};
use crate::row::{floor_log2, is_tile, log2_floor, tiles_within, TILE_CAP};
use vstd::prelude::*;

verus! {

/// The sum of the binary logarithms of the cells, rounded down, 0 for an
/// empty cell.
pub open spec fn log_sum(s: Seq<u32>) -> nat
    decreases s.len(),
{
    if s.len() == 0 {
        0
    } else {
        log_sum(s.drop_last()) + log2_floor(s.last() as nat)
    }
}

/// The largest value of a line, 0 for none.
pub open spec fn seq_max(s: Seq<u32>) -> u32
    decreases s.len(),
{
    if s.len() == 0 {
        0
    } else if s.last() > seq_max(s.drop_last()) {
        s.last()
    } else {
        seq_max(s.drop_last())
    }
}

/// The indices at which a value exceeds every value before it: the maxima
/// in the order in which a scan meets them.
pub open spec fn risers(s: Seq<u32>) -> Seq<usize>
    decreases s.len(),
{
    if s.len() == 0 {
        Seq::empty()
    } else if s.last() > seq_max(s.drop_last()) {
        risers(s.drop_last()).push((s.len() - 1) as usize)
    } else {
        risers(s.drop_last())
    }
}

/// The indices of the cells that hold `v`, ascending.
pub open spec fn places_of(s: Seq<u32>, v: u32) -> Seq<usize>
    decreases s.len(),
{
    if s.len() == 0 {
        Seq::empty()
    } else if s.last() == v {
        places_of(s.drop_last(), v).push((s.len() - 1) as usize)
    } else {
        places_of(s.drop_last(), v)
    }
}

/// How often the cell `cur` counts as next to the cell `prev`, both given in
/// reading order: once by rows, once by columns. A cell in row x and column y
/// counts by rows when x > 0 and the other's row is x - 1, or is x + 1 with
/// the column equal; by columns likewise with rows and columns exchanged.
/// This is the heuristic's own notion and not the geometric one.
pub open spec fn near(cur: usize, prev: usize) -> nat {
    let (x, y, px, py) = (cur / 4, cur % 4, prev / 4, prev % 4);
    (if x > 0 && (x - 1 == px || (x + 1 == px && y == py)) {
        1nat
    } else {
        0nat
    }) + (if y > 0 && (y - 1 == py || (y + 1 == py && x == px)) {
        1nat
    } else {
        0nat
    })
}

/// The `near` counts of every entry of the list with the entry before it.
pub open spec fn chain_hits(l: Seq<usize>) -> nat
    decreases l.len(),
{
    if l.len() < 2 {
        0
    } else {
        chain_hits(l.drop_last()) + near(l[l.len() - 1], l[l.len() - 2])
    }
}

/// The last cell holds at least 128 and more than every other cell.
pub open spec fn cornered(s: Seq<u32>) -> bool {
    s[15] >= 128 && s[15] > seq_max(s.take(15))
}

/// The score of a grid, given the direction of the last move and the sum of
/// the tiles it merged.
///
/// With `top` the largest tile, and `lifted` ten times `top` when `cornered`
/// and `top` otherwise, the score is `lifted * 10`, plus the sum merged, plus
/// an inner part that counts twice after a move down or to the right. The
/// inner part is the logarithm sum, plus `top * 10` for every hit along the
/// risers, plus, when there is one riser and more than one cell holds half of
/// `top`, `(lifted / 2) * 10` for every hit along those cells.
pub open spec fn score_value(g: Seq<Seq<u32>>, last: Action, merged: nat) -> nat {
    let s = flat(g);
    let top = seq_max(s) as nat;
    let lifted = if cornered(s) {
        10 * top
    } else {
        top
    };
    let halves = places_of(s, (top / 2) as u32);
    let first = chain_hits(risers(s)) * (top * 10);
    let second = if risers(s).len() == 1 && halves.len() > 1 {
        chain_hits(halves) * ((lifted / 2) * 10)
    } else {
        0
    };
    let inner = log_sum(s) + first + second;
    let weighted = match last {
        Action::MergeDown | Action::MergeRight => 2 * inner,
        _ => inner,
    };
    lifted * 10 + weighted + merged
}

fn near_count(cur: usize, prev: usize) -> (n: u32)
    requires
        cur < 16,
        prev < 16,
    ensures
        n == near(cur, prev),
        n <= 2,
{
    let x: usize = cur / 4;
    let y: usize = cur % 4;
    let px: usize = prev / 4;
    let py: usize = prev % 4;
    let mut n: u32 = 0;
    if x > 0 && (x - 1 == px || (x + 1 == px && y == py)) {
        n = n + 1;
    }
    if y > 0 && (y - 1 == py || (y + 1 == py && x == px)) {
        n = n + 1;
    }
    n
}

fn count_hits(l: &Vec<usize>) -> (n: u32)
    requires
        l.len() <= 16,
        forall|k: int| 0 <= k < l@.len() ==> #[trigger] l@[k] < 16,
    ensures
        n == chain_hits(l@),
        n <= 30,
{
    let mut n: u32 = 0;
    let mut i: usize = 1;
    if l.len() < 2 {
        return 0;
    }
    assert(l@.take(1).len() == 1);
    while i < l.len()
        invariant
            1 <= i <= l.len() <= 16,
            forall|k: int| 0 <= k < l@.len() ==> #[trigger] l@[k] < 16,
            n == chain_hits(l@.take(i as int)),
            n <= 2 * (i - 1),
        decreases l.len() - i,
    {
        proof {
            assert(l@.take(i + 1).drop_last() == l@.take(i as int));
        }
        let h: u32 = near_count(l[i], l[i - 1]);
        n = n + h;
        i = i + 1;
    }
    assert(l@.take(l.len() as int) == l@);
    n
}

/// Computes the score of a board from the direction of the last move and the
/// sum of the tiles it merged.
pub fn score_of(b: &[[u32; 4]; 4], last: Action, merged: u32) -> (r: u32)
    requires
        grid_within(grid_view(*b), TILE_CAP as nat),
        merged <= 8 * TILE_CAP,
    ensures
        r == score_value(grid_view(*b), last, merged as nat),
{
    let ghost g = grid_view(*b);
    let ghost s = flat(g);
    let mut base: u32 = 0;
    let mut top: u32 = 0;
    let mut rising: Vec<usize> = Vec::new();
    let mut corner: bool = false;
    let mut p: usize = 0;
    while p < 16
        invariant
            p <= 16,
            g == grid_view(*b),
            s == flat(g),
            grid_within(g, TILE_CAP as nat),
            base == log_sum(s.take(p as int)),
            base <= 31 * p,
            top == seq_max(s.take(p as int)),
            top <= TILE_CAP,
            rising@ == risers(s.take(p as int)),
            rising.len() <= p,
            forall|k: int| 0 <= k < rising@.len() ==> #[trigger] rising@[k] < 16,
            p == 16 ==> corner == cornered(s),
        decreases 16 - p,
    {
        let v: u32 = b[p / 4][p % 4];
        proof {
            assert(s.take(p + 1).drop_last() == s.take(p as int));
            assert(s[p as int] == v);
            assert(tiles_within(g[p as int / 4], TILE_CAP as nat));
            assert(is_tile(g[p as int / 4][p as int % 4], TILE_CAP as nat));
        }
        if p == 15 {
            corner = v >= 128 && v > top;
        }
        if v > top {
            rising.push(p);
            top = v;
        }
        base = base + floor_log2(v);
        p = p + 1;
    }
    assert(s.take(16) == s);
    let half: u32 = top / 2;
    let mut halves: Vec<usize> = Vec::new();
    let mut q: usize = 0;
    while q < 16
        invariant
            q <= 16,
            g == grid_view(*b),
            s == flat(g),
            halves@ == places_of(s.take(q as int), half),
            halves.len() <= q,
            forall|k: int| 0 <= k < halves@.len() ==> #[trigger] halves@[k] < 16,
        decreases 16 - q,
    {
        proof {
            assert(s.take(q + 1).drop_last() == s.take(q as int));
            assert(s[q as int] == b[q as int / 4][q as int % 4]);
        }
        if b[q / 4][q % 4] == half {
            halves.push(q);
        }
        q = q + 1;
    }
    assert(s.take(16) == s);
    let lifted: u32 = if corner { 10 * top } else { top };
    let hits: u32 = count_hits(&rising);
    let step: u32 = top * 10;
    assert(hits * step <= 314572800) by (nonlinear_arith)
        requires
            hits <= 30,
            step <= 10485760,
    ;
    let first: u32 = hits * step;
    let mut second: u32 = 0;
    if rising.len() == 1 && halves.len() > 1 {
        let side: u32 = count_hits(&halves);
        let unit: u32 = (lifted / 2) * 10;
        assert(side * unit <= 1572864000) by (nonlinear_arith)
            requires
                side <= 30,
                unit <= 52428800,
        ;
        second = side * unit;
    }
    let inner: u32 = base + first + second;
    let weighted: u32 = match last {
        Action::MergeDown | Action::MergeRight => 2 * inner,
        _ => inner,
    };
    lifted * 10 + weighted + merged
}

} // verus!
