//! Tests of the evaluation and of the alpha-beta move selection.

use reversi::board::Board;
use reversi::color::Color;
use reversi::cpu::{alpha_beta, eval, select, Setting, WIN_SCORE};
use reversi::game::{PlayerType, Setting as GameSetting};

fn weights() -> Setting {
    Setting::new(5, 50, 20, 10, 1, 7)
}

#[test]
fn setting_new_stores_the_six_weights() {
    let cs = Setting::new(1, 2, 3, 4, 5, 6);
    assert_eq!(cs.puttable, 1);
    assert_eq!(cs.corner, 2);
    assert_eq!(cs.aroundcorner, 3);
    assert_eq!(cs.wall, 4);
    assert_eq!(cs.all, 5);
    assert_eq!(cs.emptynum, 6);
}

#[test]
fn opening_position_evaluates_to_zero() {
    // Both sides have four legal moves, no discs on corners, danger cells or
    // walls, so every positional term vanishes.
    let board = Board::new((8, 8));
    assert_eq!(eval(&board, &Color::Black, &weights()), 0);
    assert_eq!(eval(&board, &Color::White, &weights()), 0);
}

#[test]
fn endgame_evaluation_counts_discs() {
    // With the phase threshold above the number of empty cells the score is
    // mobility and positional terms plus (own - opponent) * all.
    let mut board = Board::new((8, 8));
    assert!(board.put((2, 3), &Color::Black));
    // Black 4, White 1; mobility is 3 for each side; nothing on the edge.
    let cs = Setting::new(0, 50, 20, 10, 7, 100);
    assert_eq!(eval(&board, &Color::Black, &cs), (4 - 1) * 7);
    assert_eq!(eval(&board, &Color::White, &cs), (1 - 4) * 7);
}

#[test]
fn alpha_beta_scores_a_decided_branch_as_a_win() {
    // No White disc: neither side can move, Black holds more discs.
    let board = Board {
        colors: vec![Some(Color::Black), None, Some(Color::Black)],
        size: (3, 1),
    };
    let cs = weights();
    let v = alpha_beta(&board, &Color::Black, Color::Black, (-WIN_SCORE, WIN_SCORE), 3, &cs);
    assert_eq!(v, WIN_SCORE);
    let v = alpha_beta(&board, &Color::White, Color::White, (-WIN_SCORE, WIN_SCORE), 3, &cs);
    assert_eq!(v, -WIN_SCORE);
}

#[test]
fn select_returns_none_without_a_legal_move() {
    let board = Board {
        colors: vec![Some(Color::Black), None, Some(Color::Black)],
        size: (3, 1),
    };
    assert_eq!(select(&Color::White, &board, 3, &weights()), None);
    assert_eq!(select(&Color::Black, &board, 3, &weights()), None);
}

#[test]
fn select_at_depth_zero_maximizes_the_direct_evaluation() {
    // Brute force: apply every candidate and evaluate the resulting board
    // directly; `select` at depth 0 must return the first candidate of
    // maximal value.
    let board = Board::new((8, 8));
    let cs = weights();
    let player = Color::Black;
    let mut best: Option<(usize, usize)> = None;
    let mut best_v = -WIN_SCORE;
    for cdn in board.putable_cdns(&player) {
        let mut child = board.clone();
        assert!(child.put(cdn, &player));
        let v = eval(&child, &player, &cs);
        if v > best_v {
            best = Some(cdn);
            best_v = v;
        }
    }
    assert_eq!(select(&player, &board, 0, &cs), best);
}

#[test]
fn select_prefers_the_larger_capture() {
    // Black to move on a single row; the move at (3, 0) flips two White
    // discs, the earlier-enumerated move at (2, 0) flips only one. With
    // disc counting as the only term the later candidate must win.
    let board = Board {
        colors: vec![
            Some(Color::Black),
            Some(Color::White),
            None,
            None,
            Some(Color::White),
            Some(Color::White),
            Some(Color::Black),
        ],
        size: (7, 1),
    };
    let cs = Setting::new(0, 0, 0, 0, 1, 100);
    assert_eq!(select(&Color::Black, &board, 0, &cs), Some((3, 0)));
}

#[test]
fn select_keeps_the_first_of_equal_candidates() {
    // On the opening board every Black move flips exactly one disc and all
    // positional terms are symmetric, so all four candidates tie; the
    // first-enumerated coordinate is retained.
    let board = Board::new((8, 8));
    let cs = Setting::new(0, 0, 0, 0, 1, 100);
    assert_eq!(select(&Color::Black, &board, 0, &cs), Some((2, 3)));
}

#[test]
fn select_returns_a_legal_move() {
    let board = Board::new((8, 8));
    let cs = weights();
    for player in [Color::Black, Color::White] {
        for depth in [0usize, 1, 2, 3] {
            let chosen = select(&player, &board, depth, &cs).unwrap();
            assert!(board.putable_cdns(&player).contains(&chosen));
        }
    }
}

#[test]
fn select_is_deterministic() {
    let board = Board::new((8, 8));
    let cs = weights();
    let first = select(&Color::Black, &board, 3, &cs);
    for _ in 0..5 {
        assert_eq!(select(&Color::Black, &board, 3, &cs), first);
    }
}

#[test]
fn search_plays_a_whole_game_against_itself() {
    // Drive the verified engine through a complete game on a small board and
    // check the totality invariant after every move.
    let mut board = Board::new((4, 4));
    let cs = Setting::new(5, 50, 20, 10, 1, 4);
    let mut player = Color::Black;
    let mut safety = 0;
    while !board.finished(&player) {
        if let Some(cdn) = select(&player, &board, 2, &cs) {
            assert!(board.put(cdn, &player));
        }
        let total = board.count_color(Color::Black) + board.count_color(Color::White)
            + board.count_empty();
        assert_eq!(total, 16);
        player = player.rev();
        safety += 1;
        assert!(safety < 100);
    }
    // The finished game has a definite outcome: a winner or an exact tie.
    let black = board.count_color(Color::Black);
    let white = board.count_color(Color::White);
    match board.winner() {
        Some(Color::Black) => assert!(black > white),
        Some(Color::White) => assert!(white > black),
        None => assert_eq!(black, white),
    }
}

#[test]
fn game_setting_dispatches_by_color() {
    let setting = GameSetting {
        black: PlayerType::Human,
        white: PlayerType::Computer(weights()),
        boardsize: (8, 8),
    };
    assert!(matches!(setting.player_type(&Color::Black), PlayerType::Human));
    assert!(matches!(setting.player_type(&Color::White), PlayerType::Computer(_)));
    assert_eq!(setting.boardsize, (8, 8));
}

/// Plain minimax without pruning, as an independent reference.
fn minimax(board: &Board, root: Color, turn: Color, depth: usize, cs: &Setting) -> i128 {
    let moves = board.putable_cdns(&turn);
    if moves.is_empty() && board.putable_cdns(&turn.rev()).is_empty() {
        return match board.winner() {
            Some(w) => {
                if w == root {
                    WIN_SCORE
                } else {
                    -WIN_SCORE
                }
            }
            None => 0,
        };
    }
    if moves.is_empty() || depth == 0 {
        return eval(board, &root, cs);
    }
    let mut best: Option<i128> = None;
    for cdn in moves {
        let mut child = board.clone();
        assert!(child.put(cdn, &turn));
        let v = minimax(&child, root, turn.rev(), depth - 1, cs);
        best = Some(match best {
            None => v,
            Some(b) => {
                if turn == root {
                    b.max(v)
                } else {
                    b.min(v)
                }
            }
        });
    }
    best.unwrap()
}

#[test]
fn alpha_beta_on_the_full_window_equals_plain_minimax() {
    let cs = weights();
    let board = Board::new((6, 6));
    for depth in [0usize, 1, 2, 3] {
        let expected = minimax(&board, Color::Black, Color::Black, depth, &cs);
        let got = alpha_beta(
            &board,
            &Color::Black,
            Color::Black,
            (-WIN_SCORE, WIN_SCORE),
            depth,
            &cs,
        );
        assert_eq!(got, expected);
    }
    // Also from a mid-game position, for the minimizing side.
    let mut board = Board::new((6, 6));
    let first = select(&Color::Black, &board, 2, &cs).unwrap();
    assert!(board.put(first, &Color::Black));
    for depth in [1usize, 2, 3] {
        let expected = minimax(&board, Color::Black, Color::White, depth, &cs);
        let got = alpha_beta(
            &board,
            &Color::Black,
            Color::White,
            (-WIN_SCORE, WIN_SCORE),
            depth,
            &cs,
        );
        assert_eq!(got, expected);
    }
}
