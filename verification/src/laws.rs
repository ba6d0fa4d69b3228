//! What holds of every move: the sum of the tiles is kept, a changed board has
//! room for the spawn, and the terminal test agrees with the valid moves.

use crate::game::{lemma_board_is_grid, steps_to, Action, Draw, Game, GameState};
use crate::grid::{
    empty_cells, flat, gain, grid_sum, grid_view, grid_within, if_valid, is_grid,
    lemma_spawn_fills, lemma_turn_within, oriented, restored, reversed, slid, slid_left, terminal,
    transposed, valid_moves,
};
use crate::row::{
    all_at_most, compact, is_tile, lemma_has_zero, lemma_slide_row_changed, lemma_slide_row_sum,
    lemma_slide_row_tiles, lemma_slide_row_unchanged, merge_gain, merge_pairs, row_gain, seq_sum, slide_row,
    tiles_within, TILE_CAP,
};
use vstd::prelude::*;

verus! {

proof fn lemma_sum4(s: Seq<u32>)
    requires
        s.len() == 4,
    ensures
        seq_sum(s) == s[0] + s[1] + s[2] + s[3],
{
    let a = s.drop_last();
    let b = a.drop_last();
    let c = b.drop_last();
    assert(seq_sum(c.drop_last()) == 0);
    assert(seq_sum(c) == c.last());
    assert(seq_sum(b) == seq_sum(c) + b.last());
    assert(seq_sum(a) == seq_sum(b) + a.last());
}

proof fn lemma_turned(g: Seq<Seq<u32>>)
    requires
        is_grid(g),
    ensures
        is_grid(reversed(g)),
        is_grid(transposed(g)),
        grid_sum(reversed(g)) == grid_sum(g),
        grid_sum(transposed(g)) == grid_sum(g),
        reversed(reversed(g)) == g,
        transposed(transposed(g)) == g,
{
    let r = reversed(g);
    let t = transposed(g);
    assert forall|i: int| 0 <= i < 4 implies (#[trigger] r[i]).len() == 4 by {
        assert(g[i].len() == 4);
    }
    assert forall|i: int| 0 <= i < 4 implies (#[trigger] t[i]).len() == 4 by {}
    assert(g[0].len() == 4 && g[1].len() == 4 && g[2].len() == 4 && g[3].len() == 4);
    lemma_sum4(g[0]);
    lemma_sum4(g[1]);
    lemma_sum4(g[2]);
    lemma_sum4(g[3]);
    lemma_sum4(r[0]);
    lemma_sum4(r[1]);
    lemma_sum4(r[2]);
    lemma_sum4(r[3]);
    lemma_sum4(t[0]);
    lemma_sum4(t[1]);
    lemma_sum4(t[2]);
    lemma_sum4(t[3]);
    assert forall|i: int| 0 <= i < 4 implies #[trigger] reversed(r)[i] =~= g[i] by {
        assert(r[i].len() == 4);
    }
    assert(reversed(r) =~= g);
    assert forall|i: int| 0 <= i < 4 implies #[trigger] transposed(t)[i] =~= g[i] by {
        assert(g[i].len() == 4);
    }
    assert(transposed(t) =~= g);
}

proof fn lemma_oriented(g: Seq<Seq<u32>>, dir: Action)
    requires
        is_grid(g),
    ensures
        is_grid(oriented(g, dir)),
        grid_sum(oriented(g, dir)) == grid_sum(g),
        restored(oriented(g, dir), dir) == g,
        oriented(restored(g, dir), dir) == g,
{
    lemma_turned(g);
    lemma_turned(transposed(g));
    lemma_turned(reversed(g));
}

proof fn lemma_restored(g: Seq<Seq<u32>>, dir: Action)
    requires
        is_grid(g),
    ensures
        is_grid(restored(g, dir)),
        grid_sum(restored(g, dir)) == grid_sum(g),
{
    lemma_turned(g);
    lemma_turned(reversed(g));
}

proof fn lemma_slid_left_shape(g: Seq<Seq<u32>>)
    requires
        is_grid(g),
    ensures
        is_grid(slid_left(g)),
{
    assert forall|i: int| 0 <= i < 4 implies (#[trigger] slid_left(g)[i]).len() == 4 by {
        assert(g[i].len() == 4);
        if slide_row(g[i]) != g[i] {
            lemma_slide_row_changed(g[i]);
        }
    }
}

/// A tile made by a merge does not merge again in the same move: a row of
/// four equal tiles becomes two tiles of twice the value, not one of four
/// times the value.
pub proof fn law_merge_does_not_chain(v: u32)
    requires
        0 < v <= 0x7fff_ffff,
    ensures
        slide_row(seq![v, v, v, v]) == seq![(2 * v) as u32, (2 * v) as u32, 0u32, 0u32],
        row_gain(seq![v, v, v, v]) == 4 * v,
{
    let s = seq![v, v, v, v];
    reveal_with_fuel(compact, 6);
    reveal_with_fuel(merge_pairs, 4);
    reveal_with_fuel(merge_gain, 4);
    assert(s.drop_last() =~= seq![v, v, v]);
    assert(s.drop_last().drop_last() =~= seq![v, v]);
    assert(s.drop_last().drop_last().drop_last() =~= seq![v]);
    assert(s.drop_last().drop_last().drop_last().drop_last() =~= Seq::<u32>::empty());
    assert(compact(s) =~= s);
    assert(s.skip(2) =~= seq![v, v]);
    assert(s.skip(2).skip(2) =~= Seq::<u32>::empty());
    assert(merge_pairs(s) =~= seq![(2 * v) as u32, (2 * v) as u32]);
    assert(slide_row(s) =~= seq![(2 * v) as u32, (2 * v) as u32, 0u32, 0u32]);
}

/// A move in any direction keeps the sum of the tiles: a merge puts the sum
/// of two tiles in place of both, and nothing else changes a value.
pub proof fn law_move_keeps_sum(g: Seq<Seq<u32>>, dir: Action)
    requires
        is_grid(g),
        grid_within(g, TILE_CAP as nat),
    ensures
        grid_sum(slid(g, dir)) == grid_sum(g),
{
    let o = oriented(g, dir);
    lemma_oriented(g, dir);
    lemma_turn_within(g, TILE_CAP as nat);
    lemma_turn_within(transposed(g), TILE_CAP as nat);
    assert(grid_within(o, TILE_CAP as nat));
    assert forall|i: int| 0 <= i < 4 implies all_at_most(#[trigger] o[i], 0x7fff_ffff) by {
        assert(tiles_within(o[i], TILE_CAP as nat));
        assert forall|j: int| 0 <= j < o[i].len() implies #[trigger] o[i][j] <= 0x7fff_ffff by {
            assert(is_tile(o[i][j], TILE_CAP as nat));
        }
    }
    lemma_slide_row_sum(o[0]);
    lemma_slide_row_sum(o[1]);
    lemma_slide_row_sum(o[2]);
    lemma_slide_row_sum(o[3]);
    lemma_slid_left_shape(o);
    lemma_restored(slid_left(o), dir);
}

/// A move keeps the grid a grid of tiles: every cell stays empty or a power
/// of two, and no tile is above twice the largest bound on the tiles before.
pub proof fn law_move_keeps_tiles(g: Seq<Seq<u32>>, dir: Action, cap: nat)
    requires
        is_grid(g),
        grid_within(g, cap),
        cap <= 0x7fff_ffff,
    ensures
        is_grid(slid(g, dir)),
        grid_within(slid(g, dir), 2 * cap),
{
    let o = oriented(g, dir);
    let l = slid_left(o);
    lemma_oriented(g, dir);
    lemma_turn_within(g, cap);
    lemma_turn_within(transposed(g), cap);
    lemma_slid_left_shape(o);
    assert forall|i: int| 0 <= i < l.len() implies tiles_within(#[trigger] l[i], 2 * cap) by {
        assert(tiles_within(o[i], cap));
        lemma_slide_row_tiles(o[i], cap);
    }
    lemma_restored(l, dir);
    lemma_turned(l);
    lemma_turn_within(l, 2 * cap);
    lemma_turn_within(reversed(l), 2 * cap);
}

/// A move that changes the grid leaves an empty cell.
pub proof fn law_changed_has_room(g: Seq<Seq<u32>>, dir: Action)
    requires
        is_grid(g),
        slid(g, dir) != g,
    ensures
        empty_cells(slid(g, dir)) > 0,
{
    let o = oriented(g, dir);
    let l = slid_left(o);
    let m = slid(g, dir);
    lemma_oriented(g, dir);
    lemma_slid_left_shape(o);
    lemma_restored(l, dir);
    lemma_turned(l);
    let i: int = if slide_row(o[0]) != o[0] {
        0
    } else if slide_row(o[1]) != o[1] {
        1
    } else if slide_row(o[2]) != o[2] {
        2
    } else {
        3
    };
    if slide_row(o[i]) != o[i] {
        assert(o[i].len() == 4);
        lemma_slide_row_changed(o[i]);
        assert(l[i][3] == 0);
        assert(l[i].len() == 4);
        let p: int = match dir {
            Action::MergeLeft => 4 * i + 3,
            Action::MergeRight => 4 * i,
            Action::MergeUp => 12 + i,
            Action::MergeDown => i,
        };
        assert(flat(m)[p] == 0);
        lemma_has_zero(flat(m), p);
    } else {
        assert(l =~= o);
        assert(false);
    }
}

/// A move that leaves the grid as it was has merged nothing.
pub proof fn law_unchanged_gains_nothing(g: Seq<Seq<u32>>, dir: Action)
    requires
        is_grid(g),
        slid(g, dir) == g,
    ensures
        gain(g, dir) == 0,
{
    let o = oriented(g, dir);
    let l = slid_left(o);
    lemma_oriented(g, dir);
    lemma_slid_left_shape(o);
    lemma_oriented(l, dir);
    assert(l == o);
    assert(l[0] == o[0] && l[1] == o[1] && l[2] == o[2] && l[3] == o[3]);
    lemma_slide_row_unchanged(o[0]);
    lemma_slide_row_unchanged(o[1]);
    lemma_slide_row_unchanged(o[2]);
    lemma_slide_row_unchanged(o[3]);
}

/// After a move with the result `Moved`, the board has exactly one empty cell
/// fewer than the grid had after sliding and merging: one tile was spawned.
pub proof fn law_single_spawn(
    pre: Game,
    a: Action,
    spawn: Draw,
    restart: Draw,
    post: Game,
    res: GameState,
)
    requires
        steps_to(pre, a, spawn, restart, post, res),
        res == GameState::Moved,
    ensures
        empty_cells(post.grid()) + 1 == empty_cells(slid(pre.grid(), a)),
{
    let g = pre.grid();
    lemma_board_is_grid(pre.board);
    law_changed_has_room(g, a);
    lemma_oriented(g, a);
    lemma_slid_left_shape(oriented(g, a));
    lemma_restored(slid_left(oriented(g, a)), a);
    lemma_spawn_fills(slid(g, a), spawn.slot as nat, spawn.four);
}

/// A direction is among the valid moves exactly if a move in it changes the
/// grid.
pub proof fn law_valid_moves_exact(g: Seq<Seq<u32>>, dir: Action)
    ensures
        valid_moves(g).contains(dir) <==> slid(g, dir) != g,
{
    let u = if_valid(g, Action::MergeUp);
    let d = if_valid(g, Action::MergeDown);
    let r = if_valid(g, Action::MergeRight);
    let l = if_valid(g, Action::MergeLeft);
    let v = valid_moves(g);
    if slid(g, dir) != g {
        let k: int = match dir {
            Action::MergeUp => 0,
            Action::MergeDown => u.len() as int,
            Action::MergeRight => (u.len() + d.len()) as int,
            Action::MergeLeft => (u.len() + d.len() + r.len()) as int,
        };
        assert(v[k] == dir);
    }
    if v.contains(dir) {
        let k = choose|k: int| 0 <= k < v.len() && v[k] == dir;
        assert(v[k] == dir);
    }
}

/// A move in a direction that is not among the valid moves, on a grid that is
/// not terminal, is answered with `InvalidMove` and leaves the board as it
/// was.
pub proof fn law_invalid_move_keeps_board(
    pre: Game,
    a: Action,
    spawn: Draw,
    restart: Draw,
    post: Game,
    res: GameState,
)
    requires
        steps_to(pre, a, spawn, restart, post, res),
        !valid_moves(pre.grid()).contains(a),
        !terminal(pre.grid()),
    ensures
        res == GameState::InvalidMove,
        post.grid() == pre.grid(),
        post.merged_last == 0,
{
    law_valid_moves_exact(pre.grid(), a);
}

/// The draws decide the move: with the same state, direction and draws, the
/// result, the grid and every figure of the state after it are the same.
pub proof fn law_draws_decide_the_move(
    pre: Game,
    a: Action,
    spawn: Draw,
    restart: Draw,
    post1: Game,
    res1: GameState,
    post2: Game,
    res2: GameState,
)
    requires
        steps_to(pre, a, spawn, restart, post1, res1),
        steps_to(pre, a, spawn, restart, post2, res2),
    ensures
        res1 == res2,
        post1.grid() == post2.grid(),
        post1.score == post2.score,
        post1.prev_score == post2.prev_score,
        post1.merged_last == post2.merged_last,
        post1.last_action == post2.last_action,
        grid_view(post1.prev_board) == grid_view(post2.prev_board),
{
}

/// A grid is terminal exactly if it has no empty cell and no valid move.
pub proof fn law_terminal_means_no_move(g: Seq<Seq<u32>>)
    ensures
        terminal(g) <==> (empty_cells(g) == 0 && valid_moves(g).len() == 0),
{
}

/// The score reads the board, the last direction and the last merge sum, and
/// nothing else: two states that agree on these have the same score, whatever
/// scores they record.
pub proof fn law_score_is_pure(x: Game, y: Game)
    requires
        x.board == y.board,
        x.last_action == y.last_action,
        x.merged_last == y.merged_last,
    ensures
        x.score_now() == y.score_now(),
{
}

} // verus!
