use oxydized2048::game::{key_action, Action, Draw, Game, GameState};
use oxydized2048::text::decimal_width;
use oxydized2048::grid::{count_empty, slide};
use oxydized2048::row::TILE_CAP;
use oxydized2048::score::score_of;
use oxydized2048::training::{Notice, NumGames, Progress};

const EMPTY: [[u32; 4]; 4] = [[0; 4]; 4];
const FULL: [[u32; 4]; 4] = [[2, 4, 2, 4], [4, 2, 4, 2], [2, 4, 2, 4], [4, 2, 4, 2]];
const DIRS: [Action; 4] =
    [Action::MergeLeft, Action::MergeRight, Action::MergeUp, Action::MergeDown];

fn game_on(board: [[u32; 4]; 4]) -> Game {
    Game {
        board,
        prev_board: EMPTY,
        score: 0,
        prev_score: 0,
        merged_last: 0,
        last_action: Action::MergeDown,
    }
}

fn tiles(b: &[[u32; 4]; 4]) -> Vec<u32> {
    b.iter().flat_map(|r| r.iter().copied()).filter(|v| *v != 0).collect()
}

fn is_fresh(g: &Game) -> bool {
    let t = tiles(&g.board);
    t.len() == 1
        && (t[0] == 2 || t[0] == 4)
        && g.prev_board == EMPTY
        && g.score == 0
        && g.prev_score == 0
        && g.merged_last == 0
        && g.last_action == Action::MergeDown
}

#[test]
fn new_game_has_one_tile() {
    for _ in 0..200 {
        let g = Game::new();
        assert!(is_fresh(&g));
        assert_eq!(g.remaining_empty(), 15);
        assert_eq!(g.get_score(), 0);
        assert!(g.is_valid());
        assert!(g.can_move());
    }
}

#[test]
fn new_with_places_the_drawn_tile() {
    let g = Game::new_with(Draw { slot: 5, four: false });
    assert_eq!(g.board, [[0; 4], [0, 2, 0, 0], [0; 4], [0; 4]]);
    let g = Game::new_with(Draw { slot: 15, four: true });
    assert_eq!(g.board, [[0; 4], [0; 4], [0; 4], [0, 0, 0, 4]]);
    let g = Game::new_with(Draw { slot: 16, four: true });
    assert_eq!(g.board, [[4, 0, 0, 0], [0; 4], [0; 4], [0; 4]]);
    assert!(is_fresh(&g));
}

#[test]
fn random_spawns_reach_every_cell_and_both_values() {
    let mut seen = [[false; 4]; 4];
    let mut twos = 0;
    let mut fours = 0;
    for _ in 0..6000 {
        let g = Game::new();
        for i in 0..4 {
            for j in 0..4 {
                if g.board[i][j] != 0 {
                    seen[i][j] = true;
                    if g.board[i][j] == 2 {
                        twos += 1;
                    } else {
                        assert_eq!(g.board[i][j], 4);
                        fours += 1;
                    }
                }
            }
        }
    }
    assert!(seen.iter().all(|r| r.iter().all(|c| *c)));
    assert!(twos > fours);
    assert!(fours > 0);
}

#[test]
fn end_to_end_left_merges_and_spawns() {
    let mut g = game_on([[2, 2, 0, 0], [0; 4], [0; 4], [0; 4]]);
    let res = g.action(&Action::MergeLeft);
    assert_eq!(res, GameState::Moved);
    assert_eq!(g.board[0][0], 4);
    assert_eq!(g.merged_last, 4);
    assert_eq!(g.last_action, Action::MergeLeft);
    let mut t = tiles(&g.board);
    assert_eq!(t.len(), 2);
    t.sort();
    assert!(t == vec![2, 4] || t == vec![4, 4]);
}

#[test]
fn end_to_end_left_with_given_draws() {
    let mut g = game_on([[2, 2, 0, 0], [0; 4], [0; 4], [0; 4]]);
    let before = g.calc_score();
    let res = g.action_with(
        &Action::MergeLeft,
        Draw { slot: 2, four: false },
        Draw { slot: 0, four: false },
    );
    assert_eq!(res, GameState::Moved);
    assert_eq!(g.board, [[4, 0, 0, 2], [0; 4], [0; 4], [0; 4]]);
    assert_eq!(g.merged_last, 4);
    assert_eq!(g.prev_score, before);
    assert_eq!(g.prev_board, EMPTY);
    assert_eq!(g.last_action, Action::MergeLeft);
    assert_eq!(g.score, g.calc_score());
    assert_eq!(g.score, 40 + 3 + 4);
    assert_eq!(g.get_score(), g.score);
}

#[test]
fn full_board_without_moves_ends_the_game() {
    for d in DIRS.iter() {
        let mut g = game_on(FULL);
        g.score = 77;
        assert!(g.is_gameover());
        let res = g.action(d);
        assert_eq!(res, GameState::Gameover);
        assert!(is_fresh(&g));
        assert_eq!(g.get_score(), 0);
        assert!(!g.is_gameover());
    }
}

#[test]
fn game_over_restarts_with_the_given_draw() {
    let mut g = game_on(FULL);
    let res = g.action_with(
        &Action::MergeUp,
        Draw { slot: 0, four: false },
        Draw { slot: 6, four: true },
    );
    assert_eq!(res, GameState::Gameover);
    assert_eq!(g.board, [[0; 4], [0, 0, 4, 0], [0; 4], [0; 4]]);
    assert!(is_fresh(&g));
}

#[test]
fn move_that_fills_the_last_cell_can_end_the_game() {
    let start = [[2, 2, 8, 16], [8, 16, 32, 4], [4, 8, 16, 2], [8, 16, 32, 4]];
    let mut g = game_on(start);
    let res = g.action_with(
        &Action::MergeLeft,
        Draw { slot: 0, four: false },
        Draw { slot: 3, four: false },
    );
    assert_eq!(res, GameState::Gameover);
    assert_eq!(g.board, [[0, 0, 0, 2], [0; 4], [0; 4], [0; 4]]);
    assert!(is_fresh(&g));
    let mut g = game_on(start);
    let res = g.action_with(
        &Action::MergeLeft,
        Draw { slot: 0, four: true },
        Draw { slot: 3, four: false },
    );
    assert_eq!(res, GameState::Moved);
    assert_eq!(g.board, [[4, 8, 16, 4], [8, 16, 32, 4], [4, 8, 16, 2], [8, 16, 32, 4]]);
}

#[test]
fn direction_that_is_not_valid_is_refused() {
    let board = [[2, 0, 0, 0], [4, 0, 0, 0], [0; 4], [0; 4]];
    let mut g = game_on(board);
    g.score = 9;
    g.merged_last = 16;
    let valid = g.get_valid_actions();
    assert!(!valid.contains(&Action::MergeLeft));
    let before = g.calc_score();
    let res = g.action(&Action::MergeLeft);
    assert_eq!(res, GameState::InvalidMove);
    assert_eq!(g.board, board);
    assert_eq!(g.score, 9);
    assert_eq!(g.prev_score, before);
    assert_eq!(g.merged_last, 0);
    assert_eq!(g.last_action, Action::MergeLeft);
}

#[test]
fn every_direction_outside_the_valid_ones_is_invalid() {
    let boards = [
        [[2, 0, 0, 0], [4, 0, 0, 0], [0; 4], [0; 4]],
        [[2, 4, 8, 16], [0; 4], [0; 4], [0; 4]],
        [[0; 4], [0; 4], [0; 4], [0, 0, 0, 2]],
        [[2, 4, 2, 4], [4, 2, 4, 2], [2, 4, 2, 4], [4, 2, 4, 0]],
    ];
    for b in boards.iter() {
        let valid = game_on(*b).get_valid_actions();
        for d in DIRS.iter() {
            let mut g = game_on(*b);
            let res = g.action(d);
            if valid.contains(d) {
                assert_ne!(res, GameState::InvalidMove);
            } else {
                assert_eq!(res, GameState::InvalidMove);
                assert_eq!(g.board, *b);
            }
        }
    }
}

#[test]
fn a_move_spawns_exactly_one_tile() {
    let boards = [
        [[2, 2, 4, 4], [8, 0, 8, 0], [16, 16, 16, 16], [2, 4, 8, 16]],
        [[0, 0, 0, 2], [2, 0, 0, 2], [4, 4, 4, 0], [1024, 1024, 2048, 2048]],
    ];
    for b in boards.iter() {
        for d in DIRS.iter() {
            for _ in 0..20 {
                let mut g = game_on(*b);
                let (moved, merged) = slide(b, *d);
                let res = g.action(d);
                if res == GameState::Moved {
                    assert_eq!(count_empty(&g.board) + 1, count_empty(&moved));
                    assert_eq!(g.merged_last, merged);
                    let mut changed = 0;
                    for i in 0..4 {
                        for j in 0..4 {
                            if g.board[i][j] != moved[i][j] {
                                changed += 1;
                                assert_eq!(moved[i][j], 0);
                                assert!(g.board[i][j] == 2 || g.board[i][j] == 4);
                            }
                        }
                    }
                    assert_eq!(changed, 1);
                }
            }
        }
    }
}

#[test]
fn terminal_means_full_and_no_valid_move() {
    let boards = [
        FULL,
        [[2, 4, 2, 4], [4, 2, 4, 2], [2, 4, 2, 4], [4, 2, 4, 4]],
        [[2, 4, 2, 4], [4, 2, 4, 2], [2, 4, 2, 4], [4, 2, 4, 0]],
        EMPTY,
        [[2, 2, 2, 2]; 4],
    ];
    for b in boards.iter() {
        let g = game_on(*b);
        let expected = g.remaining_empty() == 0 && g.get_valid_actions().is_empty();
        assert_eq!(g.is_gameover(), expected);
    }
    assert!(game_on(FULL).is_gameover());
    assert!(!game_on(boards[1]).is_gameover());
    assert!(!game_on(boards[2]).is_gameover());
    assert!(!game_on(EMPTY).is_gameover());
}

#[test]
fn terminal_test_leaves_the_state() {
    let g = game_on([[2, 2, 4, 4], [8, 0, 8, 0], [16, 16, 16, 16], [2, 4, 8, 16]]);
    let copy = g;
    let _ = g.is_gameover();
    let _ = g.get_valid_actions();
    assert_eq!(g, copy);
}

#[test]
fn valid_actions_come_up_down_right_left() {
    let g = game_on([[0; 4], [0, 2, 0, 0], [0; 4], [0; 4]]);
    assert_eq!(
        g.get_valid_actions(),
        vec![Action::MergeUp, Action::MergeDown, Action::MergeRight, Action::MergeLeft]
    );
    let g = game_on([[2, 0, 0, 0], [0; 4], [0; 4], [0; 4]]);
    assert_eq!(g.get_valid_actions(), vec![Action::MergeDown, Action::MergeRight]);
    let g = game_on([[0; 4], [0; 4], [0; 4], [0, 0, 0, 2]]);
    assert_eq!(g.get_valid_actions(), vec![Action::MergeUp, Action::MergeLeft]);
    assert!(game_on(FULL).get_valid_actions().is_empty());
    assert!(game_on(EMPTY).get_valid_actions().is_empty());
}

#[test]
fn offered_actions_prefer_down_and_right() {
    let g = game_on([[0; 4], [0, 2, 0, 0], [0; 4], [0; 4]]);
    assert_eq!(g.actions(), vec![Action::MergeDown, Action::MergeRight]);
    let g = game_on([[0; 4], [0; 4], [0; 4], [2, 0, 0, 0]]);
    assert_eq!(g.actions(), vec![Action::MergeRight]);
    let g = game_on([[0, 0, 0, 2], [0; 4], [0; 4], [0; 4]]);
    assert_eq!(g.actions(), vec![Action::MergeDown]);
    let g = game_on([[0; 4], [0; 4], [0; 4], [0, 0, 0, 2]]);
    assert_eq!(g.actions(), vec![Action::MergeUp, Action::MergeLeft]);
}

#[test]
fn score_twice_is_the_same() {
    let mut g = game_on([[2, 2, 4, 4], [8, 0, 8, 0], [16, 16, 16, 16], [2, 4, 8, 256]]);
    g.merged_last = 12;
    let first = g.calc_score();
    assert_eq!(g.calc_score(), first);
    let mut h = g;
    h.score = 1234;
    h.prev_score = 99;
    h.prev_board = FULL;
    assert_eq!(h.calc_score(), first);
}

#[test]
fn score_of_single_tiles() {
    let b = [[2, 0, 0, 0], [0; 4], [0; 4], [0; 4]];
    assert_eq!(score_of(&b, Action::MergeLeft, 0), 21);
    assert_eq!(score_of(&b, Action::MergeUp, 0), 21);
    assert_eq!(score_of(&b, Action::MergeDown, 0), 22);
    assert_eq!(score_of(&b, Action::MergeRight, 0), 22);
    assert_eq!(score_of(&b, Action::MergeRight, 8), 30);
    assert_eq!(score_of(&EMPTY, Action::MergeDown, 0), 0);
}

#[test]
fn score_corner_bonus_needs_128_in_the_last_cell() {
    let b = [[0; 4], [0; 4], [0; 4], [0, 0, 0, 128]];
    assert_eq!(score_of(&b, Action::MergeLeft, 0), 12800 + 7);
    assert_eq!(score_of(&b, Action::MergeDown, 0), 12800 + 14);
    let b = [[0; 4], [0; 4], [0; 4], [0, 0, 0, 64]];
    assert_eq!(score_of(&b, Action::MergeLeft, 0), 640 + 6);
    let b = [[0; 4], [0; 4], [0; 4], [0, 0, 128, 0]];
    assert_eq!(score_of(&b, Action::MergeLeft, 0), 1280 + 7);
    let b = [[128, 0, 0, 0], [0; 4], [0; 4], [0, 0, 0, 128]];
    assert_eq!(score_of(&b, Action::MergeLeft, 0), 1280 + 14);
}

#[test]
fn score_counts_rising_neighbours() {
    let b = [[2, 4, 0, 0], [0; 4], [0; 4], [0; 4]];
    assert_eq!(score_of(&b, Action::MergeLeft, 0), 40 + 3 + 40);
    assert_eq!(score_of(&b, Action::MergeDown, 0), 40 + 2 * (3 + 40));
    let b = [[2, 0, 0, 0], [0, 0, 0, 4], [0; 4], [0; 4]];
    assert_eq!(score_of(&b, Action::MergeLeft, 0), 40 + 3 + 40);
    let b = [[2, 0, 4, 0], [0; 4], [0; 4], [0; 4]];
    assert_eq!(score_of(&b, Action::MergeLeft, 0), 40 + 3);
    let b = [[2, 0, 0, 0], [4, 0, 0, 0], [0; 4], [0; 4]];
    assert_eq!(score_of(&b, Action::MergeLeft, 0), 40 + 3 + 40);
    let b = [[0; 4], [0, 2, 0, 0], [0, 4, 0, 0], [0, 8, 0, 0]];
    assert_eq!(score_of(&b, Action::MergeLeft, 0), 80 + 6 + 2 * 80);
    let b = [[0; 4], [0, 2, 4, 0], [0; 4], [0; 4]];
    assert_eq!(score_of(&b, Action::MergeLeft, 0), 40 + 3 + 40);
}

#[test]
fn score_counts_neighbours_of_half_the_maximum() {
    let b = [[4, 2, 2, 0], [0; 4], [0; 4], [0; 4]];
    assert_eq!(score_of(&b, Action::MergeLeft, 0), 40 + 4 + 20);
    assert_eq!(score_of(&b, Action::MergeLeft, 4), 40 + 4 + 20 + 4);
    assert_eq!(score_of(&b, Action::MergeRight, 4), 40 + 2 * (4 + 20) + 4);
    let b = [[4, 2, 0, 0], [0; 4], [0; 4], [0; 4]];
    assert_eq!(score_of(&b, Action::MergeLeft, 0), 40 + 3);
    let b = [[2, 2, 4, 0], [0; 4], [0; 4], [0; 4]];
    assert_eq!(score_of(&b, Action::MergeLeft, 0), 40 + 4);
    let b = [[4, 0, 0, 0], [2, 0, 0, 0], [2, 0, 0, 0], [0; 4]];
    assert_eq!(score_of(&b, Action::MergeLeft, 0), 40 + 4 + 20);
}

#[test]
fn score_fits_at_the_cap() {
    let mut g = game_on([[TILE_CAP; 4]; 4]);
    g.merged_last = 8 * TILE_CAP;
    assert!(g.is_valid());
    assert!(!g.can_move());
    assert_eq!(g.calc_score(), 10 * TILE_CAP + 2 * 16 * 20 + 8 * TILE_CAP);
    assert_eq!(g.max_tile(), TILE_CAP);
}

#[test]
fn validity_of_states() {
    assert!(game_on(FULL).can_move());
    assert!(game_on([[TILE_CAP / 2; 4]; 4]).can_move());
    assert!(!game_on([[TILE_CAP, 0, 0, 0], [0; 4], [0; 4], [0; 4]]).can_move());
    assert!(!game_on([[2 * TILE_CAP, 0, 0, 0], [0; 4], [0; 4], [0; 4]]).is_valid());
    assert!(!game_on([[6, 0, 0, 0], [0; 4], [0; 4], [0; 4]]).is_valid());
    let mut g = game_on(FULL);
    g.merged_last = 8 * TILE_CAP + 1;
    assert!(!g.is_valid());
}

#[test]
fn reward_is_the_score_gained_or_the_score_lost() {
    let mut g = game_on([[2, 4, 0, 0], [0; 4], [0; 4], [0; 4]]);
    g.last_action = Action::MergeLeft;
    g.prev_score = 100;
    assert_eq!(g.reward(), 83 - 100);
    g.prev_score = 3;
    assert_eq!(g.reward(), 80);
    let g = game_on(FULL);
    assert_eq!(g.reward(), -(g.calc_score() as i64));
    assert!(g.reward() < 0);
}

#[test]
fn undo_puts_the_kept_board_back() {
    let mut g = game_on([[2, 4, 0, 0], [0; 4], [0; 4], [0; 4]]);
    g.prev_board = FULL;
    g.score = 5;
    g.undo();
    assert_eq!(g.board, FULL);
    assert_eq!(g.prev_board, FULL);
    assert_eq!(g.score, 5);
}

#[test]
fn reset_starts_again() {
    let mut g = game_on(FULL);
    g.score = 5;
    g.prev_score = 6;
    g.merged_last = 8;
    g.last_action = Action::MergeUp;
    g.reset();
    assert!(is_fresh(&g));
    g.reset_with(Draw { slot: 1, four: false });
    assert_eq!(g.board, [[0, 2, 0, 0], [0; 4], [0; 4], [0; 4]]);
}

#[test]
fn largest_tile_and_column_width() {
    assert_eq!(game_on(EMPTY).max_tile(), 0);
    let g = game_on([[2, 2, 4, 4], [8, 0, 8, 0], [16, 16, 16, 16], [2, 4, 8, 16]]);
    assert_eq!(g.max_tile(), 16);
    assert_eq!(decimal_width(0), 1);
    assert_eq!(decimal_width(9), 1);
    assert_eq!(decimal_width(10), 2);
    assert_eq!(decimal_width(2048), 4);
    assert_eq!(decimal_width(u32::MAX), 10);
}

#[test]
fn keys_stand_for_directions() {
    assert_eq!(key_action('w'), Some(Action::MergeUp));
    assert_eq!(key_action('a'), Some(Action::MergeLeft));
    assert_eq!(key_action('s'), Some(Action::MergeDown));
    assert_eq!(key_action('d'), Some(Action::MergeRight));
    assert_eq!(key_action('W'), None);
    assert_eq!(key_action(' '), None);
}

#[test]
fn lost_games_are_counted_up_to_the_target() {
    let mut n = NumGames::new(2);
    assert_eq!(n.curr_game, 0);
    assert_eq!(n.target_games, 2);
    assert!(!n.should_stop(false));
    assert!(!n.should_stop(true));
    assert!(!n.should_stop(false));
    assert!(n.should_stop(true));
    assert!(n.should_stop(false));
    assert!(!n.should_stop(true));
    assert_eq!(n.curr_game, 3);
    let mut z = NumGames::new(0);
    assert!(z.should_stop(false));
}

#[test]
fn run_progress_tracks_high_score_and_games() {
    let mut p = Progress::new();
    p.step();
    assert_eq!(p.steps, 1);
    assert_eq!(p.note_score(0), Notice::HighScore);
    assert_eq!(p.note_score(50), Notice::HighScore);
    assert_eq!(p.high_score, 50);
    assert_eq!(p.note_score(49), Notice::Silent);
    assert_eq!(p.note_score(50), Notice::HighScore);
    for _ in 0..9 {
        p.step();
    }
    assert_eq!(p.steps, 10);
    assert_eq!(p.note_score(10), Notice::Score);
    assert_eq!(p.high_score, 50);
    assert!(!p.game_over(1));
    assert!(p.game_over(1));
    assert_eq!(p.games_played, 2);
}

#[test]
fn unchanged_move_records_no_merge() {
    let mut g = game_on([[2, 4, 2, 4], [0; 4], [0; 4], [0; 4]]);
    g.merged_last = 64;
    assert_eq!(g.action(&Action::MergeUp), GameState::InvalidMove);
    assert_eq!(g.merged_last, 0);
    assert_eq!(slide(&g.board, Action::MergeLeft).1, 0);
}

#[test]
fn board_as_text() {
    let g = game_on([[2, 0, 0, 0], [0, 16, 0, 0], [0; 4], [0, 0, 0, 4]]);
    let text = String::from_utf8(g.display()).unwrap();
    assert_eq!(text, "|2 |  |  |  |\n|  |16|  |  |\n|  |  |  |  |\n|  |  |  |4 |\n\n");
    let text = String::from_utf8(game_on(EMPTY).display()).unwrap();
    assert_eq!(text, "| | | | |\n| | | | |\n| | | | |\n| | | | |\n\n");
    let g = game_on([[1024, 2, 0, 0], [0; 4], [0; 4], [0, 0, 0, 128]]);
    let text = String::from_utf8(g.display()).unwrap();
    let lines: Vec<&str> = text.lines().collect();
    assert_eq!(lines[0], "|1024|2   |    |    |");
    assert_eq!(lines[1], "|    |    |    |    |");
    assert_eq!(lines[2], "|    |    |    |    |");
    assert_eq!(lines[3], "|    |    |    |128 |");
    assert_eq!(lines[4], "");
    assert_eq!(lines.len(), 5);
}

#[test]
fn rolls_make_a_draw() {
    assert_eq!(Draw::from_rolls(3, 0), Draw { slot: 3, four: true });
    for roll in 1..10u32 {
        assert_eq!(Draw::from_rolls(7, roll), Draw { slot: 7, four: false });
    }
    assert_eq!(Draw::from_rolls(0, 0), Draw { slot: 0, four: true });
}
