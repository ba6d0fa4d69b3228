//! The 4x4 grid as a sequence of four rows: turning it, sliding it in a
//! direction, counting and filling its empty cells.

use crate::game::Action;
use crate::row::{
    power_of_two, is_pow2, is_tile, row_gain, seq_sum, slide_row, slide_row_left, tiles_within,
    zeros_in, TILE_CAP,
};
use vstd::prelude::*;

verus! {

/// The rows of a board, top row first.
pub open spec fn grid_view(b: [[u32; 4]; 4]) -> Seq<Seq<u32>> {
    Seq::new(4, |i: int| b[i]@)
}

/// Four rows of four cells.
pub open spec fn is_grid(g: Seq<Seq<u32>>) -> bool {
    g.len() == 4 && forall|i: int| 0 <= i < 4 ==> (#[trigger] g[i]).len() == 4
}

/// Every cell is empty or a tile of at most `cap`.
pub open spec fn grid_within(g: Seq<Seq<u32>>, cap: nat) -> bool {
    forall|i: int| 0 <= i < g.len() ==> tiles_within(#[trigger] g[i], cap)
}

/// A line read from its other end.
pub open spec fn flip(s: Seq<u32>) -> Seq<u32> {
    Seq::new(s.len(), |j: int| s[s.len() - 1 - j])
}

/// Every row read from its other end.
pub open spec fn reversed(g: Seq<Seq<u32>>) -> Seq<Seq<u32>> {
    Seq::new(g.len(), |i: int| flip(g[i]))
}

/// Rows and columns exchanged.
pub open spec fn transposed(g: Seq<Seq<u32>>) -> Seq<Seq<u32>> {
    Seq::new(4, |i: int| Seq::new(4, |j: int| g[j][i]))
}

/// Every row slid towards its start.
pub open spec fn slid_left(g: Seq<Seq<u32>>) -> Seq<Seq<u32>> {
    Seq::new(g.len(), |i: int| slide_row(g[i]))
}

/// The sum of the tiles that sliding every row towards its start merges.
pub open spec fn gain_left(g: Seq<Seq<u32>>) -> nat {
    row_gain(g[0]) + row_gain(g[1]) + row_gain(g[2]) + row_gain(g[3])
}

/// The grid turned so that the leading edge of `dir` is the start of each row.
pub open spec fn oriented(g: Seq<Seq<u32>>, dir: Action) -> Seq<Seq<u32>> {
    match dir {
        Action::MergeLeft => g,
        Action::MergeRight => reversed(g),
        Action::MergeUp => transposed(g),
        Action::MergeDown => reversed(transposed(g)),
    }
}

/// Undoes `oriented`.
pub open spec fn restored(g: Seq<Seq<u32>>, dir: Action) -> Seq<Seq<u32>> {
    match dir {
        Action::MergeLeft => g,
        Action::MergeRight => reversed(g),
        Action::MergeUp => transposed(g),
        Action::MergeDown => transposed(reversed(g)),
    }
}

/// The grid after sliding and merging in direction `dir`, before any spawn.
pub open spec fn slid(g: Seq<Seq<u32>>, dir: Action) -> Seq<Seq<u32>> {
    restored(slid_left(oriented(g, dir)), dir)
}

/// The sum of the tiles that a move in direction `dir` merges.
pub open spec fn gain(g: Seq<Seq<u32>>, dir: Action) -> nat {
    gain_left(oriented(g, dir))
}

/// The grid without a tile.
pub open spec fn empty_grid() -> Seq<Seq<u32>> {
    Seq::new(4, |i: int| Seq::new(4, |j: int| 0u32))
}

/// No direction changes the grid.
pub open spec fn stuck(g: Seq<Seq<u32>>) -> bool {
    slid(g, Action::MergeUp) == g && slid(g, Action::MergeDown) == g && slid(g, Action::MergeRight)
        == g && slid(g, Action::MergeLeft) == g
}

/// The game is over: no cell is empty and no direction changes the grid.
pub open spec fn terminal(g: Seq<Seq<u32>>) -> bool {
    empty_cells(g) == 0 && stuck(g)
}

/// `dir` alone if a move in that direction changes the grid, else nothing.
pub open spec fn if_valid(g: Seq<Seq<u32>>, dir: Action) -> Seq<Action> {
    if slid(g, dir) != g {
        seq![dir]
    } else {
        Seq::empty()
    }
}

/// The directions that change the grid, in the order up, down, right, left.
pub open spec fn valid_moves(g: Seq<Seq<u32>>) -> Seq<Action> {
    if_valid(g, Action::MergeUp) + if_valid(g, Action::MergeDown) + if_valid(g, Action::MergeRight)
        + if_valid(g, Action::MergeLeft)
}

/// The sum of all tiles.
pub open spec fn grid_sum(g: Seq<Seq<u32>>) -> nat {
    seq_sum(g[0]) + seq_sum(g[1]) + seq_sum(g[2]) + seq_sum(g[3])
}

/// The cells in reading order: row by row, each from its start.
pub open spec fn flat(g: Seq<Seq<u32>>) -> Seq<u32> {
    Seq::new(16, |p: int| g[p / 4][p % 4])
}

/// The number of empty cells.
pub open spec fn empty_cells(g: Seq<Seq<u32>>) -> nat {
    zeros_in(flat(g))
}

/// The index, from `p` on, of the empty cell of `s` that `k` empty cells
/// precede; the length of `s` if there is none.
pub open spec fn nth_zero(s: Seq<u32>, k: nat, p: int) -> int
    decreases s.len() - p,
{
    if p >= s.len() {
        s.len() as int
    } else if s[p] == 0 {
        if k == 0 {
            p
        } else {
            nth_zero(s, (k - 1) as nat, p + 1)
        }
    } else {
        nth_zero(s, k, p + 1)
    }
}

/// The grid with cell `p`, counted in reading order, set to `v`.
pub open spec fn put(g: Seq<Seq<u32>>, p: int, v: u32) -> Seq<Seq<u32>> {
    g.update(p / 4, g[p / 4].update(p % 4, v))
}

/// The value of a new tile.
pub open spec fn new_tile(four: bool) -> u32 {
    if four {
        4
    } else {
        2
    }
}

/// The reading-order index of the cell that a spawn with draw `slot` fills:
/// the empty cell that `slot` modulo the number of empty cells precede.
pub open spec fn spawn_cell(g: Seq<Seq<u32>>, slot: nat) -> int {
    nth_zero(flat(g), slot % empty_cells(g), 0)
}

/// The grid after a spawn: unchanged when it is full, else one empty cell
/// holds a new tile, 4 if `four` and 2 otherwise.
pub open spec fn spawned(g: Seq<Seq<u32>>, slot: nat, four: bool) -> Seq<Seq<u32>> {
    if empty_cells(g) == 0 {
        g
    } else {
        put(g, spawn_cell(g, slot), new_tile(four))
    }
}

fn flip_row(r: &[u32; 4]) -> (out: [u32; 4])
    ensures
        out@ == flip(r@),
{
    let out: [u32; 4] = [r[3], r[2], r[1], r[0]];
    assert(out@ =~= flip(r@));
    out
}

/// Reverses every row.
pub fn reverse(b: &[[u32; 4]; 4]) -> (out: [[u32; 4]; 4])
    ensures
        grid_view(out) == reversed(grid_view(*b)),
{
    let out: [[u32; 4]; 4] = [
        flip_row(&b[0]),
        flip_row(&b[1]),
        flip_row(&b[2]),
        flip_row(&b[3]),
    ];
    assert(grid_view(out) =~= reversed(grid_view(*b)));
    out
}

/// Exchanges rows and columns.
pub fn transpose(b: &[[u32; 4]; 4]) -> (out: [[u32; 4]; 4])
    ensures
        grid_view(out) == transposed(grid_view(*b)),
{
    let out: [[u32; 4]; 4] = [
        [b[0][0], b[1][0], b[2][0], b[3][0]],
        [b[0][1], b[1][1], b[2][1], b[3][1]],
        [b[0][2], b[1][2], b[2][2], b[3][2]],
        [b[0][3], b[1][3], b[2][3], b[3][3]],
    ];
    assert(grid_view(out) =~~= transposed(grid_view(*b)));
    out
}

/// Turning a grid keeps the bound on its tiles.
pub proof fn lemma_turn_within(g: Seq<Seq<u32>>, cap: nat)
    requires
        is_grid(g),
        grid_within(g, cap),
    ensures
        grid_within(reversed(g), cap),
        grid_within(transposed(g), cap),
        is_grid(reversed(g)),
        is_grid(transposed(g)),
{
    assert forall|i: int| 0 <= i < 4 implies tiles_within(#[trigger] reversed(g)[i], cap) by {
        assert forall|j: int| 0 <= j < 4 implies is_tile(#[trigger] reversed(g)[i][j], cap) by {
            assert(tiles_within(g[i], cap));
            assert(is_tile(g[i][3 - j], cap));
        }
    }
    assert forall|i: int| 0 <= i < 4 implies tiles_within(#[trigger] transposed(g)[i], cap) by {
        assert forall|j: int| 0 <= j < 4 implies is_tile(#[trigger] transposed(g)[i][j], cap) by {
            assert(tiles_within(g[j], cap));
            assert(is_tile(g[j][i], cap));
        }
    }
}

/// Slides every row towards its start. Returns the new board and the sum of
/// the tiles that the merges made.
pub fn slide_left(b: &[[u32; 4]; 4]) -> (out: ([[u32; 4]; 4], u32))
    requires
        grid_within(grid_view(*b), TILE_CAP as nat),
    ensures
        grid_view(out.0) == slid_left(grid_view(*b)),
        out.1 == gain_left(grid_view(*b)),
        grid_within(grid_view(out.0), 2 * TILE_CAP as nat),
        grid_within(grid_view(*b), (TILE_CAP / 2) as nat) ==> grid_within(
            grid_view(out.0),
            TILE_CAP as nat,
        ) && out.1 <= 8 * TILE_CAP,
{
    let ghost g = grid_view(*b);
    assert(tiles_within(g[0], TILE_CAP as nat) && tiles_within(g[1], TILE_CAP as nat)
        && tiles_within(g[2], TILE_CAP as nat) && tiles_within(g[3], TILE_CAP as nat));
    let (r0, g0) = slide_row_left(&b[0]);
    let (r1, g1) = slide_row_left(&b[1]);
    let (r2, g2) = slide_row_left(&b[2]);
    let (r3, g3) = slide_row_left(&b[3]);
    let out: [[u32; 4]; 4] = [r0, r1, r2, r3];
    assert(grid_view(out) =~= slid_left(g));
    proof {
        if grid_within(g, (TILE_CAP / 2) as nat) {
            assert(tiles_within(g[0], (TILE_CAP / 2) as nat) && tiles_within(
                g[1],
                (TILE_CAP / 2) as nat,
            ) && tiles_within(g[2], (TILE_CAP / 2) as nat) && tiles_within(
                g[3],
                (TILE_CAP / 2) as nat,
            ));
        }
    }
    (out, g0 + g1 + g2 + g3)
}

/// Slides and merges the board in direction `dir`, without spawning. Returns
/// the new board and the sum of the tiles that the merges made.
pub fn slide(b: &[[u32; 4]; 4], dir: Action) -> (out: ([[u32; 4]; 4], u32))
    requires
        grid_within(grid_view(*b), TILE_CAP as nat),
    ensures
        grid_view(out.0) == slid(grid_view(*b), dir),
        out.1 == gain(grid_view(*b), dir),
        grid_within(grid_view(out.0), 2 * TILE_CAP as nat),
        grid_within(grid_view(*b), (TILE_CAP / 2) as nat) ==> grid_within(
            grid_view(out.0),
            TILE_CAP as nat,
        ) && out.1 <= 8 * TILE_CAP,
{
    let ghost g = grid_view(*b);
    proof {
        lemma_turn_within(g, TILE_CAP as nat);
        lemma_turn_within(transposed(g), TILE_CAP as nat);
        if grid_within(g, (TILE_CAP / 2) as nat) {
            lemma_turn_within(g, (TILE_CAP / 2) as nat);
            lemma_turn_within(transposed(g), (TILE_CAP / 2) as nat);
        }
    }
    let turned: [[u32; 4]; 4] = match dir {
        Action::MergeLeft => *b,
        Action::MergeRight => reverse(b),
        Action::MergeUp => transpose(b),
        Action::MergeDown => {
            let t = transpose(b);
            reverse(&t)
        },
    };
    let (moved, merged) = slide_left(&turned);
    let ghost m = grid_view(moved);
    proof {
        assert(is_grid(m)) by {
            assert forall|i: int| 0 <= i < 4 implies (#[trigger] m[i]).len() == 4 by {}
        }
        lemma_turn_within(m, 2 * TILE_CAP as nat);
        lemma_turn_within(reversed(m), 2 * TILE_CAP as nat);
        if grid_within(m, TILE_CAP as nat) {
            lemma_turn_within(m, TILE_CAP as nat);
            lemma_turn_within(reversed(m), TILE_CAP as nat);
        }
    }
    let back: [[u32; 4]; 4] = match dir {
        Action::MergeLeft => moved,
        Action::MergeRight => reverse(&moved),
        Action::MergeUp => transpose(&moved),
        Action::MergeDown => {
            let r = reverse(&moved);
            transpose(&r)
        },
    };
    (back, merged)
}

fn same_row(a: &[u32; 4], b: &[u32; 4]) -> (r: bool)
    ensures
        r == (a@ == b@),
{
    let r = a[0] == b[0] && a[1] == b[1] && a[2] == b[2] && a[3] == b[3];
    proof {
        if r {
            assert(a@ =~= b@);
        }
    }
    r
}

/// Whether two boards hold the same cells.
pub fn same_grid(a: &[[u32; 4]; 4], b: &[[u32; 4]; 4]) -> (r: bool)
    ensures
        r == (grid_view(*a) == grid_view(*b)),
{
    let r = same_row(&a[0], &b[0]) && same_row(&a[1], &b[1]) && same_row(&a[2], &b[2]) && same_row(
        &a[3],
        &b[3],
    );
    proof {
        let (ga, gb) = (grid_view(*a), grid_view(*b));
        assert(ga[0] == a[0]@ && ga[1] == a[1]@ && ga[2] == a[2]@ && ga[3] == a[3]@);
        assert(gb[0] == b[0]@ && gb[1] == b[1]@ && gb[2] == b[2]@ && gb[3] == b[3]@);
        if r {
            assert(ga =~= gb);
        }
    }
    r
}

/// Whether every cell of the board is empty or a power of two from 2 to `cap`.
pub fn cells_within(b: &[[u32; 4]; 4], cap: u32) -> (r: bool)
    ensures
        r == grid_within(grid_view(*b), cap as nat),
{
    let ghost g = grid_view(*b);
    let mut p: usize = 0;
    while p < 16
        invariant
            p <= 16,
            g == grid_view(*b),
            forall|q: int| 0 <= q < p ==> is_tile(#[trigger] g[q / 4][q % 4], cap as nat),
        decreases 16 - p,
    {
        let v: u32 = b[p / 4][p % 4];
        let fits: bool = v == 0 || (2 <= v && v <= cap && power_of_two(v));
        if !fits {
            proof {
                assert(g[p as int / 4][p as int % 4] == v);
                if grid_within(g, cap as nat) {
                    assert(tiles_within(g[p as int / 4], cap as nat));
                    assert(is_tile(g[p as int / 4][p as int % 4], cap as nat));
                }
            }
            return false;
        }
        p = p + 1;
    }
    proof {
        assert forall|i: int| 0 <= i < g.len() implies tiles_within(
            #[trigger] g[i],
            cap as nat,
        ) by {
            assert forall|j: int| 0 <= j < g[i].len() implies is_tile(
                #[trigger] g[i][j],
                cap as nat,
            ) by {
                let q = 4 * i + j;
                assert(is_tile(g[q / 4][q % 4], cap as nat));
            }
        }
    }
    true
}

/// The number of empty cells of the board.
pub fn count_empty(b: &[[u32; 4]; 4]) -> (n: u8)
    ensures
        n == empty_cells(grid_view(*b)),
        n <= 16,
{
    let ghost s = flat(grid_view(*b));
    let mut n: u8 = 0;
    let mut p: usize = 0;
    while p < 16
        invariant
            p <= 16,
            n <= p,
            s == flat(grid_view(*b)),
            n == zeros_in(s.take(p as int)),
        decreases 16 - p,
    {
        proof {
            assert(s.take(p + 1).drop_last() == s.take(p as int));
            assert(s[p as int] == b[p as int / 4][p as int % 4]);
        }
        if b[p / 4][p % 4] == 0 {
            n = n + 1;
        }
        p = p + 1;
    }
    assert(s.take(16) == s);
    n
}

/// From `p` on, a line with more than `k` empty cells has its `k`-th.
pub proof fn lemma_nth_zero(s: Seq<u32>, k: nat, p: int)
    requires
        0 <= p <= s.len(),
        k + zeros_in(s.take(p)) < zeros_in(s),
    ensures
        p <= nth_zero(s, k, p) < s.len(),
        s[nth_zero(s, k, p)] == 0,
    decreases s.len() - p,
{
    if p >= s.len() {
        assert(s.take(p) == s);
    } else {
        assert(s.take(p + 1).drop_last() == s.take(p));
        if s[p] == 0 {
            if k > 0 {
                lemma_nth_zero(s, (k - 1) as nat, p + 1);
            }
        } else {
            lemma_nth_zero(s, k, p + 1);
        }
    }
}

/// Filling one empty cell of a line leaves one empty cell fewer.
pub proof fn lemma_zeros_update(s: Seq<u32>, p: int, v: u32)
    requires
        0 <= p < s.len(),
        s[p] == 0,
        v != 0,
    ensures
        zeros_in(s.update(p, v)) + 1 == zeros_in(s),
    decreases s.len(),
{
    if p == s.len() - 1 {
        assert(s.update(p, v).drop_last() == s.drop_last());
    } else {
        assert(s.update(p, v).drop_last() == s.drop_last().update(p, v));
        lemma_zeros_update(s.drop_last(), p, v);
    }
}

/// Setting one cell changes that cell of the reading order and no other.
pub proof fn lemma_flat_put(g: Seq<Seq<u32>>, p: int, v: u32)
    requires
        is_grid(g),
        0 <= p < 16,
    ensures
        flat(put(g, p, v)) == flat(g).update(p, v),
        is_grid(put(g, p, v)),
{
    let h = put(g, p, v);
    assert forall|i: int| 0 <= i < 4 implies (#[trigger] h[i]).len() == 4 by {
        assert(g[i].len() == 4);
    }
    assert forall|q: int| 0 <= q < 16 implies flat(h)[q] == flat(g).update(p, v)[q] by {
        assert(g[q / 4].len() == 4);
    }
    assert(flat(h) =~= flat(g).update(p, v));
}

/// A spawn into a grid with an empty cell fills exactly one empty cell.
pub proof fn lemma_spawn_fills(g: Seq<Seq<u32>>, slot: nat, four: bool)
    requires
        is_grid(g),
        empty_cells(g) > 0,
    ensures
        is_grid(spawned(g, slot, four)),
        0 <= spawn_cell(g, slot) < 16,
        flat(g)[spawn_cell(g, slot)] == 0,
        flat(spawned(g, slot, four)) == flat(g).update(spawn_cell(g, slot), new_tile(four)),
        empty_cells(spawned(g, slot, four)) + 1 == empty_cells(g),
{
    let s = flat(g);
    let k = slot % empty_cells(g);
    let p = spawn_cell(g, slot);
    assert(s.take(0).len() == 0);
    lemma_nth_zero(s, k, 0);
    lemma_flat_put(g, p, new_tile(four));
    lemma_zeros_update(s, p, new_tile(four));
}

/// A spawn keeps the shape of the grid and every bound of at least 4 on its
/// tiles.
pub proof fn lemma_spawned(g: Seq<Seq<u32>>, slot: nat, four: bool, cap: nat)
    requires
        is_grid(g),
        grid_within(g, cap),
        cap >= 4,
    ensures
        is_grid(spawned(g, slot, four)),
        grid_within(spawned(g, slot, four), cap),
{
    if empty_cells(g) > 0 {
        lemma_spawn_fills(g, slot, four);
        let p = spawn_cell(g, slot);
        let v = new_tile(four);
        let h = put(g, p, v);
        reveal_with_fuel(is_pow2, 4);
        assert(is_tile(v, cap));
        assert forall|i: int| 0 <= i < h.len() implies tiles_within(#[trigger] h[i], cap) by {
            assert(tiles_within(g[i], cap));
            assert forall|j: int| 0 <= j < h[i].len() implies is_tile(#[trigger] h[i][j], cap) by {
                if !(i == p / 4 && j == p % 4) {
                    assert(is_tile(g[i][j], cap));
                }
            }
        }
    }
}

/// Puts a new tile into the empty cell that `slot` selects: the empty cells
/// are counted in reading order, and `slot` is taken modulo their number. The
/// tile is 4 if `four`, else 2. A full board is returned as it is.
pub fn place_tile(b: &[[u32; 4]; 4], slot: u32, four: bool) -> (out: [[u32; 4]; 4])
    ensures
        grid_view(out) == spawned(grid_view(*b), slot as nat, four),
{
    let n: u8 = count_empty(b);
    if n == 0 {
        return *b;
    }
    let v: u32 = if four { 4 } else { 2 };
    let mut k: u32 = slot % (n as u32);
    let ghost g = grid_view(*b);
    let ghost s = flat(g);
    let ghost k0 = k as nat;
    let mut p: usize = 0;
    assert(s.take(0).len() == 0);
    assert(k0 == (slot as nat) % empty_cells(g));
    while p < 16
        invariant
            p <= 16,
            g == grid_view(*b),
            s == flat(g),
            v == new_tile(four),
            empty_cells(g) != 0,
            k0 == (slot as nat) % empty_cells(g),
            nth_zero(s, k0, 0) == nth_zero(s, k as nat, p as int),
            k + zeros_in(s.take(p as int)) < zeros_in(s),
        decreases 16 - p,
    {
        let i: usize = p / 4;
        let j: usize = p % 4;
        proof {
            assert(s.take(p + 1).drop_last() == s.take(p as int));
            assert(s[p as int] == b[i as int][j as int]);
        }
        if b[i][j] == 0 {
            if k == 0 {
                let mut out: [[u32; 4]; 4] = *b;
                let mut line: [u32; 4] = out[i];
                line[j] = v;
                out[i] = line;
                assert(nth_zero(s, 0, p as int) == p);
                assert(spawn_cell(g, slot as nat) == p);
                assert(grid_view(out) =~= put(g, p as int, v));
                return out;
            }
            k = k - 1;
        }
        p = p + 1;
    }
    proof {
        assert(s.take(16) == s);
    }
    *b
}

} // verus!
