use connect_four::{Board, BoardMoveIterator, Search};
use connect_four::Piece;

fn play(board: &mut Board, columns: &[usize]) {
    for &c in columns {
        assert!(board.drop(c).is_some());
    }
}

fn cells(board: &Board) -> Vec<Piece> {
    let mut v = Vec::new();
    for y in 0..board.height() {
        for x in 0..board.width() {
            v.push(board.cell(x, y));
        }
    }
    v
}

#[test]
fn new_board_is_empty_seven_by_six() {
    let board = Board::new();
    assert_eq!(board.width(), 7);
    assert_eq!(board.height(), 6);
    assert_eq!(board.next_move(), Piece::Yellow);
    assert_eq!(board.winner(), None);
    for x in 0..7 {
        assert_eq!(board.drop_zone(x), 6);
    }
    assert!(cells(&board).iter().all(|p| *p == Piece::Empty));
    assert!(!board.game_over());
    assert_eq!(board.score(), 0);
}

#[test]
fn drops_stack_and_alternate() {
    let mut board = Board::new();
    assert_eq!(board.drop(3), Some(5));
    assert_eq!(board.next_move(), Piece::Red);
    assert_eq!(board.drop(3), Some(4));
    assert_eq!(board.drop(3), Some(3));
    assert_eq!(board.drop(2), Some(5));
    assert_eq!(board.cell(3, 5), Piece::Yellow);
    assert_eq!(board.cell(3, 4), Piece::Red);
    assert_eq!(board.cell(3, 3), Piece::Yellow);
    assert_eq!(board.cell(2, 5), Piece::Red);
    assert_eq!(board.drop_zone(3), 3);
    assert_eq!(board.drop_zone(2), 5);
}

#[test]
fn drop_into_full_column_is_rejected() {
    let mut board = Board::new();
    for row in (0..6).rev() {
        assert_eq!(board.drop(3), Some(row));
    }
    let before = board.clone();
    let cells_before = cells(&board);
    assert_eq!(board.drop(3), None);
    assert!(board == before);
    assert_eq!(cells(&board), cells_before);
    assert_eq!(board.next_move(), before.next_move());
    assert_eq!(board.drop_zone(3), 0);
}

#[test]
fn three_in_a_row_leaves_a_threat() {
    let mut board = Board::new();
    // Yellow on the bottom of columns 0, 1, 2; Red stacks on top of them.
    play(&mut board, &[0, 0, 1, 1, 2]);
    assert!(board.has_threat(3, 5, Piece::Yellow));
    assert!(!board.has_threat(3, 5, Piece::Red));
    assert_eq!(board.winner(), None);
    // A threat on the bottom row weighs nothing.
    assert_eq!(board.score(), 0);
}

#[test]
fn completing_a_threat_wins() {
    let mut board = Board::new();
    play(&mut board, &[0, 0, 1, 1, 2, 6]);
    assert!(board.has_threat(3, 5, Piece::Yellow));
    assert_eq!(board.drop(3), Some(5));
    assert_eq!(board.winner(), Some(Piece::Yellow));
    assert!(board.game_over());
    assert_eq!(board.score(), i32::MIN);
    assert!(!board.has_threat(3, 5, Piece::Yellow));
}

#[test]
fn red_win_scores_the_maximum() {
    let mut board = Board::new();
    play(&mut board, &[6, 0, 6, 1, 5, 2, 5]);
    assert!(board.has_threat(3, 5, Piece::Red));
    assert_eq!(board.drop(3), Some(5));
    assert_eq!(board.winner(), Some(Piece::Red));
    assert_eq!(board.score(), i32::MAX);
}

#[test]
fn winner_never_changes() {
    let mut board = Board::new();
    play(&mut board, &[0, 0, 1, 1, 2, 6, 3]);
    assert_eq!(board.winner(), Some(Piece::Yellow));
    // Red fills its own threat afterwards; the first winner stays.
    play(&mut board, &[2, 6, 3]);
    assert_eq!(board.winner(), Some(Piece::Yellow));
}

#[test]
fn vertical_threat_is_weighted_by_row() {
    let mut board = Board::new();
    play(&mut board, &[0, 1, 0, 1, 0]);
    assert!(board.has_threat(0, 2, Piece::Yellow));
    assert_eq!(board.score(), -4);
    play(&mut board, &[1]);
    assert!(board.has_threat(1, 2, Piece::Red));
    assert_eq!(board.score(), 0);
}

#[test]
fn gap_in_the_middle_is_a_threat() {
    let mut board = Board::new();
    // Yellow at columns 0, 1 and 3 of the bottom row; the gap is column 2.
    play(&mut board, &[0, 6, 1, 6, 3]);
    assert!(board.has_threat(2, 5, Piece::Yellow));
    assert!(!board.has_threat(4, 5, Piece::Yellow));
}

#[test]
fn both_sides_threaten_one_column() {
    let mut board = Board::new_with_size(4, 2);
    // Bottom row: Yellow at 0, 1, 2; top row: Red at 0, 1, 2.
    play(&mut board, &[0, 0, 1, 1, 2, 2]);
    assert!(board.has_threat(3, 1, Piece::Yellow));
    assert!(board.has_threat(3, 0, Piece::Red));
    assert!(!board.has_threat(3, 0, Piece::Yellow));
}

#[test]
fn threats_only_on_empty_cells_after_drops() {
    let mut board = Board::new();
    play(&mut board, &[3, 2, 4, 5, 2, 3, 1, 4, 4, 5, 5, 6]);
    for x in 0..7 {
        for y in 0..6 {
            for c in [Piece::Red, Piece::Yellow] {
                if board.has_threat(x, y, c) {
                    assert_eq!(board.cell(x, y), Piece::Empty);
                }
            }
        }
    }
}

#[test]
fn full_board_without_winner_is_over() {
    let mut board = Board::new_with_size(3, 3);
    play(&mut board, &[0, 1, 2, 0, 1, 2, 0, 1, 2]);
    for x in 0..3 {
        assert_eq!(board.drop_zone(x), 0);
    }
    assert_eq!(board.winner(), None);
    assert!(board.game_over());
    assert!(board.moves().is_empty());
    let mut it = BoardMoveIterator::new(&board);
    assert!(it.next().is_none());
}

#[test]
fn moves_skip_full_columns() {
    let mut board = Board::new_with_size(3, 1);
    play(&mut board, &[1]);
    let moves = board.moves();
    assert_eq!(moves.len(), 2);
    assert_eq!(moves[0].cell(0, 0), Piece::Red);
    assert_eq!(moves[1].cell(2, 0), Piece::Red);
    let mut it = BoardMoveIterator::new(&board);
    let first = it.next().unwrap();
    assert_eq!(first.cell(0, 0), Piece::Red);
    assert_eq!(first.next_move(), Piece::Yellow);
    let second = it.next().unwrap();
    assert_eq!(second.cell(2, 0), Piece::Red);
    assert!(it.next().is_none());
}

#[test]
fn set_writes_and_rescans() {
    let mut board = Board::new_with_size(4, 1);
    board.set(0, 0, Piece::Red);
    board.set(1, 0, Piece::Red);
    assert!(!board.has_threat(2, 0, Piece::Red));
    board.set(3, 0, Piece::Red);
    assert!(board.has_threat(2, 0, Piece::Red));
    board.set(2, 0, Piece::Red);
    assert_eq!(board.winner(), Some(Piece::Red));
}

#[test]
fn equality_ignores_derived_state() {
    let mut a = Board::new();
    let mut b = Board::new();
    play(&mut a, &[0, 1]);
    play(&mut b, &[0, 1]);
    assert!(a == b);
    play(&mut b, &[2]);
    assert!(a != b);
}

#[test]
fn opponent_swaps_colors() {
    assert_eq!(Piece::Red.opponent(), Piece::Yellow);
    assert_eq!(Piece::Yellow.opponent(), Piece::Red);
    assert_eq!(Piece::Empty.opponent(), Piece::Empty);
}
