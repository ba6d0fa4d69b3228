//! The book-keeping of training and test runs: when a run ends, and which
//! scores are worth showing.

use vstd::prelude::*;

verus! {

/// What a test run has seen so far.
#[derive(Clone, Copy, Debug)]
pub struct Progress {
    pub high_score: u32,
    pub games_played: u32,
    pub steps: u64,
}

/// What to show after a move.
#[derive(PartialEq, Eq, Clone, Copy, Debug, Structural)]
pub enum Notice {
    /// Nothing.
    Silent,
    /// The score and the board: every tenth step.
    Score,
    /// The score as a new high score, and the board.
    HighScore,
}

impl Progress {
    /// Nothing seen yet.
    pub fn new() -> (p: Progress)
        ensures
            p.high_score == 0,
            p.games_played == 0,
            p.steps == 0,
    {
        Progress { high_score: 0, games_played: 0, steps: 0 }
    }

    /// Counts one step of the run.
    pub fn step(&mut self)
        requires
            old(self).steps < u64::MAX,
        ensures
            final(self).steps == old(self).steps + 1,
            final(self).high_score == old(self).high_score,
            final(self).games_played == old(self).games_played,
    {
        self.steps = self.steps + 1;
    }

    /// Takes note of the score after a move. A score that is not below the
    /// high score becomes the high score and is shown as one; any other is
    /// shown on every tenth step.
    pub fn note_score(&mut self, score: u32) -> (r: Notice)
        ensures
            final(self).high_score == if score >= old(self).high_score {
                score
            } else {
                old(self).high_score
            },
            final(self).games_played == old(self).games_played,
            final(self).steps == old(self).steps,
            r == if score >= old(self).high_score {
                Notice::HighScore
            } else if old(self).steps % 10 == 0 {
                Notice::Score
            } else {
                Notice::Silent
            },
    {
        if score >= self.high_score {
            self.high_score = score;
            Notice::HighScore
        } else if self.steps % 10 == 0 {
            Notice::Score
        } else {
            Notice::Silent
        }
    }

    /// Counts a finished game and says whether more than `num_games` are
    /// played by now.
    pub fn game_over(&mut self, num_games: u32) -> (done: bool)
        requires
            old(self).games_played < u32::MAX,
        ensures
            final(self).games_played == old(self).games_played + 1,
            final(self).high_score == old(self).high_score,
            final(self).steps == old(self).steps,
            done == (final(self).games_played > num_games),
    {
        self.games_played = self.games_played + 1;
        self.games_played > num_games
    }
}

/// Counts lost games up to a target.
#[derive(Clone, Copy, Debug)]
pub struct NumGames {
    pub curr_game: u32,
    pub target_games: u32,
}

impl NumGames {
    /// A counter at 0 that asks to stop after `target_games` lost games.
    pub fn new(target_games: u32) -> (n: NumGames)
        ensures
            n.curr_game == 0,
            n.target_games == target_games,
    {
        NumGames { curr_game: 0, target_games }
    }

    /// Takes note of one step, `lost` where its reward was negative, and
    /// says whether the target is reached just now.
    pub fn should_stop(&mut self, lost: bool) -> (stop: bool)
        requires
            lost ==> old(self).curr_game < u32::MAX,
        ensures
            final(self).target_games == old(self).target_games,
            final(self).curr_game == old(self).curr_game + if lost { 1int } else { 0int },
            stop == (final(self).curr_game == final(self).target_games),
    {
        if lost {
            self.curr_game = self.curr_game + 1;
        }
        self.curr_game == self.target_games
    }
}

} // verus!
