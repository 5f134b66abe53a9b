use connect_four::{best_moves, choose_move, minimax, minimax_exhaustive, Board, Piece, Search};

fn play(board: &mut Board, columns: &[usize]) {
    for &c in columns {
        assert!(board.drop(c).is_some());
    }
}

fn positions() -> Vec<Board> {
    let lines: Vec<Vec<usize>> = vec![
        vec![],
        vec![3, 3, 2],
        vec![0, 1, 0, 1, 0],
        vec![3, 2, 4, 5, 2, 3, 1],
        vec![0, 0, 1, 1, 2, 6],
        vec![3, 3, 3, 3, 2, 4, 2, 4, 5],
    ];
    lines
        .into_iter()
        .map(|l| {
            let mut b = Board::new();
            play(&mut b, &l);
            b
        })
        .collect()
}

#[test]
fn pruning_agrees_with_exhaustive_search() {
    for board in positions() {
        for depth in 0..4 {
            for maximizing in [true, false] {
                assert_eq!(
                    minimax(&board, depth, None, None, maximizing),
                    minimax_exhaustive(&board, depth, maximizing)
                );
            }
        }
    }
}

#[test]
fn depth_zero_is_the_score() {
    for board in positions() {
        assert_eq!(minimax(&board, 0, None, None, true), board.score());
    }
}

#[test]
fn search_sees_an_immediate_win() {
    let mut board = Board::new();
    play(&mut board, &[6, 0, 6, 1, 5, 2, 5]);
    assert_eq!(board.next_move(), Piece::Red);
    assert_eq!(minimax(&board, 1, None, None, true), i32::MAX);
    let best = best_moves(&board, 0);
    assert_eq!(best.len(), 1);
    assert_eq!(best[0].winner(), Some(Piece::Red));
    let chosen = choose_move(&board, 2).unwrap();
    assert_eq!(chosen.winner(), Some(Piece::Red));
    assert_eq!(chosen.cell(3, 5), Piece::Red);
}

#[test]
fn ties_are_all_kept() {
    let board = Board::new();
    let best = best_moves(&board, 0);
    assert_eq!(best.len(), 7);
    for _ in 0..20 {
        let chosen = choose_move(&board, 0).unwrap();
        assert!(best.iter().any(|b| *b == chosen));
    }
}

#[test]
fn no_move_on_a_full_board() {
    let mut board = Board::new_with_size(2, 2);
    play(&mut board, &[0, 1, 0, 1]);
    assert!(best_moves(&board, 3).is_empty());
    assert!(choose_move(&board, 3).is_none());
    assert_eq!(minimax(&board, 3, None, None, true), board.score());
}

#[test]
fn yellow_blocks_or_wins() {
    let mut board = Board::new();
    // Yellow threatens (3, 5); it is Yellow's turn after Red plays 6.
    play(&mut board, &[0, 0, 1, 1, 2, 6]);
    assert_eq!(board.next_move(), Piece::Yellow);
    let chosen = choose_move(&board, 1).unwrap();
    assert_eq!(chosen.winner(), Some(Piece::Yellow));
}
