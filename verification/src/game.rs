//! The engine: its state, the moves, the spawn, the terminal test and the score.

use crate::grid::{
    cells_within, count_empty, empty_cells, empty_grid, flat, gain, grid_view, grid_within,
    is_grid, lemma_spawn_fills, lemma_spawned, place_tile, same_grid, slid, slide, spawned,
    terminal, valid_moves,
};
use crate::laws::{law_single_spawn, law_unchanged_gains_nothing};
use crate::row::{lemma_zeros_blank, TILE_CAP};
use crate::score::{score_of, score_value, seq_max};
use vstd::prelude::*;

verus! {

/// The direction of a move.
#[derive(PartialEq, Eq, Hash, Clone, Copy, Debug, Structural)]
pub enum Action {
    MergeLeft,
    MergeRight,
    MergeUp,
    MergeDown,
}

/// What an attempted move came to.
#[derive(PartialEq, Eq, Hash, Clone, Copy, Debug, Structural)]
pub enum GameState {
    Gameover,
    InvalidMove,
    Moved,
}

/// The two random choices of one spawn: which empty cell, counted in reading
/// order and taken modulo their number, and whether the tile is a 4.
#[derive(PartialEq, Eq, Hash, Clone, Copy, Debug, Structural)]
pub struct Draw {
    pub slot: u32,
    pub four: bool,
}

/// One game: the board, a board kept for `undo`, and the figures of the last
/// move.
#[derive(PartialEq, Eq, Hash, Clone, Copy, Debug)]
pub struct Game {
    pub board: [[u32; 4]; 4],
    pub prev_board: [[u32; 4]; 4],
    pub score: u32,
    pub prev_score: u32,
    pub merged_last: u32,
    pub last_action: Action,
}

/// A uniformly drawn number below `bound`, from `rand::Rng::gen_range` on
/// `rand::thread_rng()` with the range `0..bound`. The range must not be
/// empty, and the number lies in it; nothing else is claimed of it.
#[verifier::external_body]
fn random_below(bound: u32) -> (r: u32)
    requires
        bound > 0,
    ensures
        r < bound,
{
    rand::Rng::gen_range(&mut rand::thread_rng(), 0..bound)
}

/// Draws the choices of a spawn into `b`: the slot uniformly among its empty
/// cells, a 4 with one chance in ten.
fn draw_for(b: &[[u32; 4]; 4]) -> (d: Draw)
    ensures
        d.slot < 16,
        empty_cells(grid_view(*b)) > 0 ==> d.slot < empty_cells(grid_view(*b)),
{
    let n: u8 = count_empty(b);
    let slot_roll: u32 = if n > 0 {
        random_below(n as u32)
    } else {
        0
    };
    let tenth_roll: u32 = random_below(10);
    Draw::from_rolls(slot_roll, tenth_roll)
}

/// The draw that two rolls make: the slot is the first roll, and the tile is
/// a 4 exactly where the second roll, one of ten values, is 0.
pub open spec fn draw_of(slot_roll: u32, tenth_roll: u32) -> Draw {
    Draw { slot: slot_roll, four: tenth_roll == 0 }
}

impl Draw {
    /// The draw that two rolls make: see `draw_of`.
    pub fn from_rolls(slot_roll: u32, tenth_roll: u32) -> (d: Draw)
        ensures
            d == draw_of(slot_roll, tenth_roll),
    {
        Draw { slot: slot_roll, four: tenth_roll == 0 }
    }
}

/// The direction that a key stands for: w, a, s, d for up, left, down, right.
pub fn key_action(key: char) -> (a: Option<Action>)
    ensures
        a == match key {
            'w' => Some(Action::MergeUp),
            'a' => Some(Action::MergeLeft),
            's' => Some(Action::MergeDown),
            'd' => Some(Action::MergeRight),
            _ => None::<Action>,
        },
{
    match key {
        'w' => Some(Action::MergeUp),
        'a' => Some(Action::MergeLeft),
        's' => Some(Action::MergeDown),
        'd' => Some(Action::MergeRight),
        _ => None,
    }
}

/// Every board is four rows of four cells.
pub proof fn lemma_board_is_grid(b: [[u32; 4]; 4])
    ensures
        is_grid(grid_view(b)),
{
    assert forall|i: int| 0 <= i < 4 implies (#[trigger] grid_view(b)[i]).len() == 4 by {
        assert(b[i]@.len() == 4);
    }
}

/// A fresh grid has one tile and fifteen empty cells.
pub proof fn lemma_fresh_grid(d: Draw)
    ensures
        empty_cells(spawned(empty_grid(), d.slot as nat, d.four)) == 15,
{
    let e = empty_grid();
    let s = flat(e);
    assert(is_grid(e));
    assert(s =~= Seq::new(16, |i: int| 0u32));
    lemma_zeros_blank(16);
    lemma_spawn_fills(e, d.slot as nat, d.four);
}

/// What `action_with` does to a game `pre` on a move `a`, given the draws of
/// the spawn and of a restart: the game `post` it leaves and the result `res`.
///
/// A move that changes nothing ends the game if the grid is terminal, and is
/// invalid otherwise. A move that changes the grid is followed by a spawn and
/// ends the game if the grid is terminal then. A game that ends is replaced at
/// once by a fresh one.
pub open spec fn steps_to(
    pre: Game,
    a: Action,
    spawn: Draw,
    restart: Draw,
    post: Game,
    res: GameState,
) -> bool {
    let g0 = pre.grid();
    let moved = slid(g0, a);
    let placed = spawned(moved, spawn.slot as nat, spawn.four);
    if moved == g0 {
        if terminal(g0) {
            res == GameState::Gameover && post.is_fresh_with(restart)
        } else {
            &&& res == GameState::InvalidMove
            &&& post.grid() == g0
            &&& post.prev_board == pre.prev_board
            &&& post.score == pre.score
            &&& post.prev_score == pre.score_now()
            &&& post.merged_last == 0
            &&& post.last_action == a
        }
    } else {
        if terminal(placed) {
            res == GameState::Gameover && post.is_fresh_with(restart)
        } else {
            &&& res == GameState::Moved
            &&& post.grid() == placed
            &&& post.prev_board == pre.prev_board
            &&& post.score == score_value(placed, a, gain(g0, a))
            &&& post.prev_score == pre.score_now()
            &&& post.merged_last == gain(g0, a)
            &&& post.last_action == a
        }
    }
}

/// Of the valid moves, down and right come first: both if both are valid, one
/// of them if it is, and all valid moves if neither is.
pub open spec fn preferred(v: Seq<Action>) -> Seq<Action> {
    if v.contains(Action::MergeDown) && v.contains(Action::MergeRight) {
        seq![Action::MergeDown, Action::MergeRight]
    } else if v.contains(Action::MergeDown) {
        seq![Action::MergeDown]
    } else if v.contains(Action::MergeRight) {
        seq![Action::MergeRight]
    } else {
        v
    }
}

fn has_action(v: &Vec<Action>, a: Action) -> (r: bool)
    ensures
        r == v@.contains(a),
{
    let mut i: usize = 0;
    while i < v.len()
        invariant
            i <= v.len(),
            forall|k: int| 0 <= k < i ==> v@[k] != a,
        decreases v.len() - i,
    {
        if v[i] == a {
            return true;
        }
        i = i + 1;
    }
    false
}

impl Game {
    /// The rows of the board.
    pub open spec fn grid(&self) -> Seq<Seq<u32>> {
        grid_view(self.board)
    }

    /// Every cell is empty or a power of two from 2 to `TILE_CAP`, and the
    /// recorded merge sum is one that a move can make.
    pub open spec fn wf(&self) -> bool {
        grid_within(self.grid(), TILE_CAP as nat) && self.merged_last <= 8 * TILE_CAP
    }

    /// No tile is above half of `TILE_CAP`, so that a merge stays within it.
    pub open spec fn has_headroom(&self) -> bool {
        grid_within(self.grid(), (TILE_CAP / 2) as nat)
    }

    /// The score of the state as it stands. It reads the board, the last
    /// direction and the last merge sum, and neither recorded score.
    pub open spec fn score_now(&self) -> nat {
        score_value(self.grid(), self.last_action, self.merged_last as nat)
    }

    /// A game just begun: one tile, spawned with the draw `d`, on an empty
    /// grid; the counters 0, the last direction down.
    pub open spec fn is_fresh_with(&self, d: Draw) -> bool {
        &&& self.grid() == spawned(empty_grid(), d.slot as nat, d.four)
        &&& grid_view(self.prev_board) == empty_grid()
        &&& self.score == 0
        &&& self.prev_score == 0
        &&& self.merged_last == 0
        &&& self.last_action == Action::MergeDown
    }

    /// Whether the state is well formed.
    pub fn is_valid(&self) -> (r: bool)
        ensures
            r == self.wf(),
    {
        cells_within(&self.board, TILE_CAP) && self.merged_last <= 8 * TILE_CAP
    }

    /// Whether a move may be attempted: the state is well formed and no tile
    /// is above half of `TILE_CAP`.
    pub fn can_move(&self) -> (r: bool)
        ensures
            r == (self.wf() && self.has_headroom()),
    {
        self.is_valid() && cells_within(&self.board, TILE_CAP / 2)
    }

    /// The largest tile of the board, 0 if it is empty.
    pub fn max_tile(&self) -> (m: u32)
        ensures
            m == seq_max(flat(self.grid())),
    {
        let ghost s = flat(self.grid());
        let mut m: u32 = 0;
        let mut p: usize = 0;
        while p < 16
            invariant
                p <= 16,
                s == flat(self.grid()),
                m == seq_max(s.take(p as int)),
            decreases 16 - p,
        {
            proof {
                assert(s.take(p + 1).drop_last() == s.take(p as int));
                assert(s[p as int] == self.board[p as int / 4][p as int % 4]);
            }
            if self.board[p / 4][p % 4] > m {
                m = self.board[p / 4][p % 4];
            }
            p = p + 1;
        }
        assert(s.take(16) == s);
        m
    }

    /// A fresh game whose first tile is spawned with the draw `d`.
    pub fn new_with(d: Draw) -> (game: Game)
        ensures
            game.is_fresh_with(d),
            game.wf(),
            game.has_headroom(),
    {
        let blank: [[u32; 4]; 4] = [[0, 0, 0, 0], [0, 0, 0, 0], [0, 0, 0, 0], [0, 0, 0, 0]];
        proof {
            assert(grid_view(blank) =~~= empty_grid());
            lemma_board_is_grid(blank);
            assert(grid_within(empty_grid(), (TILE_CAP / 2) as nat));
            lemma_spawned(empty_grid(), d.slot as nat, d.four, (TILE_CAP / 2) as nat);
            lemma_spawned(empty_grid(), d.slot as nat, d.four, TILE_CAP as nat);
        }
        Game {
            board: place_tile(&blank, d.slot, d.four),
            prev_board: blank,
            score: 0,
            prev_score: 0,
            merged_last: 0,
            last_action: Action::MergeDown,
        }
    }

    /// A fresh game with one tile at a random place.
    pub fn new() -> (game: Game)
        ensures
            exists|d: Draw| d.slot < 16 && #[trigger] game.is_fresh_with(d),
            game.wf(),
            game.has_headroom(),
    {
        let blank: [[u32; 4]; 4] = [[0, 0, 0, 0], [0, 0, 0, 0], [0, 0, 0, 0], [0, 0, 0, 0]];
        let d: Draw = draw_for(&blank);
        Game::new_with(d)
    }

    /// Puts the kept board back. Nothing else changes; the engine itself
    /// never fills the kept board.
    pub fn undo(&mut self)
        ensures
            final(self).board == old(self).prev_board,
            final(self).prev_board == old(self).prev_board,
            final(self).score == old(self).score,
            final(self).prev_score == old(self).prev_score,
            final(self).merged_last == old(self).merged_last,
            final(self).last_action == old(self).last_action,
    {
        self.board = self.prev_board;
    }

    /// Replaces the game by a fresh one whose tile is spawned with the draw `d`.
    pub fn reset_with(&mut self, d: Draw)
        ensures
            final(self).is_fresh_with(d),
            final(self).wf(),
            final(self).has_headroom(),
    {
        *self = Game::new_with(d);
    }

    /// Replaces the game by a fresh one with one tile at a random place.
    pub fn reset(&mut self)
        ensures
            exists|d: Draw| d.slot < 16 && #[trigger] final(self).is_fresh_with(d),
            final(self).wf(),
            final(self).has_headroom(),
    {
        *self = Game::new();
    }

    /// Attempts a move in direction `action`. The spawn that follows a move
    /// uses the draw `spawn`; a game that ends restarts with the draw `restart`.
    pub fn action_with(&mut self, action: &Action, spawn: Draw, restart: Draw) -> (res: GameState)
        requires
            old(self).wf(),
            old(self).has_headroom(),
        ensures
            steps_to(*old(self), *action, spawn, restart, *final(self), res),
            final(self).wf(),
    {
        let before: [[u32; 4]; 4] = self.board;
        self.prev_score = self.calc_score();
        self.last_action = *action;
        let (moved, merged) = slide(&self.board, *action);
        self.board = moved;
        self.merged_last = merged;
        if same_grid(&self.board, &before) {
            proof {
                lemma_board_is_grid(before);
                law_unchanged_gains_nothing(grid_view(before), *action);
            }
            if self.is_gameover() {
                self.reset_with(restart);
                GameState::Gameover
            } else {
                GameState::InvalidMove
            }
        } else {
            proof {
                lemma_board_is_grid(moved);
                lemma_spawned(grid_view(moved), spawn.slot as nat, spawn.four, TILE_CAP as nat);
            }
            self.board = place_tile(&self.board, spawn.slot, spawn.four);
            self.score = self.calc_score();
            if self.is_gameover() {
                self.reset_with(restart);
                GameState::Gameover
            } else {
                GameState::Moved
            }
        }
    }

    /// Attempts a move in direction `action`, with random draws: the spawn
    /// after a move picks uniformly among the empty cells and makes a 4 with
    /// one chance in ten. The outcome is that of `action_with` for some draws.
    pub fn action(&mut self, action: &Action) -> (res: GameState)
        requires
            old(self).wf(),
            old(self).has_headroom(),
        ensures
            exists|spawn: Draw, restart: Draw|
                spawn.slot < 16 && restart.slot < 16 && #[trigger] steps_to(
                    *old(self),
                    *action,
                    spawn,
                    restart,
                    *final(self),
                    res,
                ),
            final(self).wf(),
            res == GameState::InvalidMove <==> slid(old(self).grid(), *action) == old(self).grid()
                && !terminal(old(self).grid()),
            res == GameState::InvalidMove ==> final(self).grid() == old(self).grid(),
            res == GameState::Moved ==> empty_cells(final(self).grid()) + 1 == empty_cells(
                slid(old(self).grid(), *action),
            ) && final(self).merged_last == gain(old(self).grid(), *action),
            res == GameState::Gameover ==> empty_cells(final(self).grid()) == 15
                && final(self).score == 0,
    {
        let ghost pre = *self;
        let (moved, _merged) = slide(&self.board, *action);
        let blank: [[u32; 4]; 4] = [[0, 0, 0, 0], [0, 0, 0, 0], [0, 0, 0, 0], [0, 0, 0, 0]];
        let spawn: Draw = draw_for(&moved);
        let restart: Draw = draw_for(&blank);
        let res = self.action_with(action, spawn, restart);
        proof {
            if res == GameState::Moved {
                law_single_spawn(pre, *action, spawn, restart, *self, res);
            }
            if res == GameState::Gameover {
                lemma_fresh_grid(restart);
            }
        }
        res
    }

    /// The score of the state as it stands.
    pub fn calc_score(&self) -> (r: u32)
        requires
            self.wf(),
        ensures
            r == self.score_now(),
    {
        score_of(&self.board, self.last_action, self.merged_last)
    }

    /// The score recorded by the last move that changed the board.
    pub fn get_score(&self) -> (r: u32)
        ensures
            r == self.score,
    {
        self.score
    }

    /// The number of empty cells.
    pub fn remaining_empty(&self) -> (n: u8)
        ensures
            n == empty_cells(self.grid()),
            n <= 16,
    {
        count_empty(&self.board)
    }

    /// Whether the game is over: no empty cell, and no direction that changes
    /// the board. The state is not touched.
    pub fn is_gameover(&self) -> (r: bool)
        requires
            grid_within(self.grid(), TILE_CAP as nat),
        ensures
            r == terminal(self.grid()),
    {
        if count_empty(&self.board) != 0 {
            return false;
        }
        let (up, _u) = slide(&self.board, Action::MergeUp);
        if !same_grid(&up, &self.board) {
            return false;
        }
        let (down, _d) = slide(&self.board, Action::MergeDown);
        if !same_grid(&down, &self.board) {
            return false;
        }
        let (right, _r) = slide(&self.board, Action::MergeRight);
        if !same_grid(&right, &self.board) {
            return false;
        }
        let (left, _l) = slide(&self.board, Action::MergeLeft);
        same_grid(&left, &self.board)
    }

    /// The directions that change the board, in the order up, down, right,
    /// left.
    pub fn get_valid_actions(&self) -> (valid: Vec<Action>)
        requires
            grid_within(self.grid(), TILE_CAP as nat),
        ensures
            valid@ == valid_moves(self.grid()),
    {
        let mut valid: Vec<Action> = Vec::new();
        let (up, _u) = slide(&self.board, Action::MergeUp);
        if !same_grid(&up, &self.board) {
            valid.push(Action::MergeUp);
        }
        let (down, _d) = slide(&self.board, Action::MergeDown);
        if !same_grid(&down, &self.board) {
            valid.push(Action::MergeDown);
        }
        let (right, _r) = slide(&self.board, Action::MergeRight);
        if !same_grid(&right, &self.board) {
            valid.push(Action::MergeRight);
        }
        let (left, _l) = slide(&self.board, Action::MergeLeft);
        if !same_grid(&left, &self.board) {
            valid.push(Action::MergeLeft);
        }
        assert(valid@ =~= valid_moves(self.grid()));
        valid
    }

    /// The reward of the state for a learner: the score negated when the game
    /// is over, else the score less the score before the last move.
    pub fn reward(&self) -> (r: i64)
        requires
            self.wf(),
        ensures
            r == if terminal(self.grid()) {
                -(self.score_now() as int)
            } else {
                self.score_now() - self.prev_score
            },
    {
        let score: u32 = self.calc_score();
        if self.is_gameover() {
            -(score as i64)
        } else {
            score as i64 - self.prev_score as i64
        }
    }

    /// The moves offered to a learner: the valid ones, narrowed to down and
    /// right where either is valid.
    pub fn actions(&self) -> (offered: Vec<Action>)
        requires
            grid_within(self.grid(), TILE_CAP as nat),
        ensures
            offered@ == preferred(valid_moves(self.grid())),
    {
        let valid: Vec<Action> = self.get_valid_actions();
        let down: bool = has_action(&valid, Action::MergeDown);
        let right: bool = has_action(&valid, Action::MergeRight);
        if down || right {
            let mut offered: Vec<Action> = Vec::new();
            if down {
                offered.push(Action::MergeDown);
            }
            if right {
                offered.push(Action::MergeRight);
            }
            assert(offered@ =~= preferred(valid@));
            offered
        } else {
            valid
        }
    }
}

} // verus!
