//! Tests of the board: the opening position, legality, captures, counting,
//! termination and the winner.

use reversi::board::Board;
use reversi::color::Color;

fn standard_board() -> Board {
    Board::new((8, 8))
}

fn cell(board: &Board, x: usize, y: usize) -> Option<Color> {
    board.color_at((x, y))
}

#[test]
fn opening_has_four_center_discs() {
    let board = standard_board();
    assert_eq!(cell(&board, 3, 3), Some(Color::White));
    assert_eq!(cell(&board, 4, 4), Some(Color::White));
    assert_eq!(cell(&board, 3, 4), Some(Color::Black));
    assert_eq!(cell(&board, 4, 3), Some(Color::Black));
    assert_eq!(cell(&board, 0, 0), None);
    assert_eq!(cell(&board, 5, 5), None);
}

#[test]
fn opening_counts() {
    let board = standard_board();
    assert_eq!(board.count_color(Color::Black), 2);
    assert_eq!(board.count_color(Color::White), 2);
    assert_eq!(board.count_empty(), 60);
}

#[test]
fn opening_black_has_four_legal_moves_adjacent_to_center() {
    let board = standard_board();
    let moves = board.putable_cdns(&Color::Black);
    assert_eq!(moves.len(), 4);
    assert!(moves.contains(&(2, 3)));
    assert!(moves.contains(&(3, 2)));
    assert!(moves.contains(&(4, 5)));
    assert!(moves.contains(&(5, 4)));
}

#[test]
fn legal_moves_are_empty_cells() {
    let board = standard_board();
    for player in [Color::Black, Color::White] {
        for cdn in board.putable_cdns(&player) {
            assert_eq!(board.color_at(cdn), None);
        }
    }
}

#[test]
fn capture_of_single_disc() {
    // Black's move at (2, 3) sandwiches exactly the White disc at (3, 3).
    let mut board = standard_board();
    let flips = board.rev_cdns((2, 3), &Color::Black);
    assert_eq!(flips, vec![(3, 3)]);
    assert!(board.put((2, 3), &Color::Black));
    assert_eq!(cell(&board, 2, 3), Some(Color::Black));
    assert_eq!(cell(&board, 3, 3), Some(Color::Black));
    assert_eq!(board.count_color(Color::Black), 4);
    assert_eq!(board.count_color(Color::White), 1);
}

#[test]
fn put_changes_counts_by_captures() {
    let mut board = standard_board();
    let captured = board.rev_cdns((3, 2), &Color::Black).len();
    let black_before = board.count_color(Color::Black);
    let white_before = board.count_color(Color::White);
    let empty_before = board.count_empty();
    assert!(board.put((3, 2), &Color::Black));
    assert_eq!(board.count_color(Color::Black), black_before + 1 + captured);
    assert_eq!(board.count_color(Color::White), white_before - captured);
    assert_eq!(board.count_empty(), empty_before - 1);
    let total = board.count_color(Color::Black) + board.count_color(Color::White)
        + board.count_empty();
    assert_eq!(total, 64);
}

#[test]
fn put_on_illegal_coordinate_is_rejected_and_changes_nothing() {
    let mut board = standard_board();
    let before: Vec<Option<Color>> = board.colors.clone();
    // An empty cell that captures nothing.
    assert!(!board.put((0, 0), &Color::Black));
    assert_eq!(board.colors, before);
    // An occupied cell.
    assert!(!board.put((3, 3), &Color::Black));
    assert_eq!(board.colors, before);
    // An out-of-range coordinate.
    assert!(!board.put((8, 0), &Color::Black));
    assert!(!board.put((0, 99), &Color::White));
    assert_eq!(board.colors, before);
}

#[test]
fn rev_cdns_is_empty_on_occupied_or_out_of_range() {
    let board = standard_board();
    assert!(board.rev_cdns((3, 3), &Color::Black).is_empty());
    assert!(board.rev_cdns((99, 99), &Color::Black).is_empty());
}

#[test]
fn rev_flips_one_disc_in_place() {
    let mut board = standard_board();
    board.rev((3, 3));
    assert_eq!(cell(&board, 3, 3), Some(Color::Black));
    board.rev((3, 3));
    assert_eq!(cell(&board, 3, 3), Some(Color::White));
    // Flipping an empty or out-of-range cell is a no-op.
    board.rev((0, 0));
    assert_eq!(cell(&board, 0, 0), None);
    board.rev((42, 42));
    assert_eq!(board.count_empty(), 60);
}

#[test]
fn exist_nextto_detects_opposing_neighbors() {
    let board = standard_board();
    // (2, 3) touches the White disc at (3, 3): an opposing neighbor of Black.
    assert!(board.exist_nextto((2, 3), &Color::Black));
    // (0, 0) touches nothing.
    assert!(!board.exist_nextto((0, 0), &Color::Black));
    // (2, 3) also touches the Black disc at (3, 4), diagonally, so White
    // sees an opposing neighbor there as well.
    assert!(board.exist_nextto((2, 3), &Color::White));
}

#[test]
fn two_by_two_board_is_full_and_tied() {
    let board = Board::new((2, 2));
    assert_eq!(board.count_empty(), 0);
    assert_eq!(board.count_color(Color::Black), 2);
    assert_eq!(board.count_color(Color::White), 2);
    assert!(board.finished(&Color::Black));
    assert!(board.finished(&Color::White));
    assert_eq!(board.winner(), None);
}

#[test]
fn not_finished_while_moves_remain() {
    let board = standard_board();
    assert!(!board.finished(&Color::Black));
    assert!(!board.finished(&Color::White));
}

#[test]
fn captures_in_a_single_row() {
    let board = Board {
        colors: vec![
            Some(Color::Black),
            Some(Color::White),
            None,
            None,
            Some(Color::White),
            Some(Color::Black),
        ],
        size: (6, 1),
    };
    // Black brackets the White at index 1 from (2, 0), and the one at
    // index 4 from (3, 0).
    let moves = board.putable_cdns(&Color::Black);
    assert_eq!(moves, vec![(2, 0), (3, 0)]);
    assert_eq!(board.rev_cdns((2, 0), &Color::Black), vec![(1, 0)]);
    // White has no move: neither Black run ends in a White disc.
    assert!(!board.putable(&Color::White));
    // One side can still move, and empty cells remain, so the game goes on.
    assert!(!board.finished(&Color::Black));
}

#[test]
fn finished_when_neither_side_can_move() {
    // Two Black discs with a gap: no White disc exists, so neither side can
    // capture anything although an empty cell remains.
    let board = Board {
        colors: vec![Some(Color::Black), None, Some(Color::Black)],
        size: (3, 1),
    };
    assert!(!board.putable(&Color::Black));
    assert!(!board.putable(&Color::White));
    assert!(board.count_empty() > 0);
    assert!(board.finished(&Color::Black));
    assert!(board.finished(&Color::White));
    assert_eq!(board.winner(), Some(Color::Black));
}

#[test]
fn winner_is_side_with_strictly_more_discs() {
    let mut board = standard_board();
    assert_eq!(board.winner(), None);
    assert!(board.put((2, 3), &Color::Black));
    assert_eq!(board.winner(), Some(Color::Black));
}

#[test]
fn color_rev_is_an_involution() {
    assert_eq!(Color::Black.rev(), Color::White);
    assert_eq!(Color::White.rev(), Color::Black);
    assert_eq!(Color::Black.rev().rev(), Color::Black);
}

#[test]
fn color_symbols() {
    assert_eq!(Color::Black.sym(), "*");
    assert_eq!(Color::White.sym(), "o");
    assert_eq!(Color::sym_empty(), "-");
}

#[test]
fn capture_unites_several_directions() {
    // A 5 by 5 position where Black's move at the center captures one White
    // disc leftward, one upward and one along the falling diagonal, all in a
    // single move. Cell (x, y) lives at index x * height + y.
    let w = 5usize;
    let h = 5usize;
    let mut cells: Vec<Option<Color>> = vec![None; w * h];
    let mut set = |c: &mut Vec<Option<Color>>, x: usize, y: usize, col: Color| {
        c[x * h + y] = Some(col);
    };
    set(&mut cells, 0, 2, Color::Black);
    set(&mut cells, 1, 2, Color::White);
    set(&mut cells, 2, 0, Color::Black);
    set(&mut cells, 2, 1, Color::White);
    set(&mut cells, 3, 3, Color::White);
    set(&mut cells, 4, 4, Color::Black);
    let mut board = Board { colors: cells, size: (w, h) };

    let mut flips = board.rev_cdns((2, 2), &Color::Black);
    flips.sort();
    assert_eq!(flips, vec![(1, 2), (2, 1), (3, 3)]);

    assert!(board.put((2, 2), &Color::Black));
    assert_eq!(board.count_color(Color::Black), 3 + 3 + 1);
    assert_eq!(board.count_color(Color::White), 0);
}
