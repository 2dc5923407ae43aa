use rustclaw::chess::{Color, Piece, Position};
use rustclaw::features::{active_features, diff_features, halfkp_index, orient_square, INPUT_SIZE};

#[test]
fn test_feature_count() {
    let board = Position::startpos();
    let feats_w = active_features(&board, Color::White);
    let feats_b = active_features(&board, Color::Black);
    assert_eq!(feats_w.len(), 30);
    assert!(feats_w.iter().all(|&x| x < INPUT_SIZE));
    assert!(feats_b.iter().all(|&x| x < INPUT_SIZE));
}

#[test]
fn halfkp_index_formula() {
    // piece_sq + (piece_type * 2 + color + king_sq * 10) * 64
    assert_eq!(halfkp_index(4, 12, Piece::Pawn, Color::White), 12 + (0 + 4 * 10) * 64);
    assert_eq!(halfkp_index(60, 59, Piece::Queen, Color::Black), 59 + (4 * 2 + 1 + 60 * 10) * 64);
    assert_eq!(halfkp_index(63, 63, Piece::Queen, Color::Black), 40959);
    assert_eq!(halfkp_index(0, 0, Piece::Pawn, Color::White), 0);
}

#[test]
fn orient_square_flips_rank_for_black() {
    assert_eq!(orient_square(12, Color::White), 12);
    assert_eq!(orient_square(12, Color::Black), 52);
    assert_eq!(orient_square(0, Color::Black), 56);
    assert_eq!(orient_square(63, Color::Black), 7);
}

#[test]
fn start_position_features_are_sorted_and_distinct() {
    let board = Position::startpos();
    for perspective in [Color::White, Color::Black] {
        let f = active_features(&board, perspective);
        let mut sorted = f.clone();
        sorted.sort();
        sorted.dedup();
        assert_eq!(sorted.len(), f.len());
    }
    // The white king stands on e1 (square 4); the first white pawn on a2 (square 8).
    let w = active_features(&board, Color::White);
    assert_eq!(w[0], halfkp_index(4, 8, Piece::Pawn, Color::White));
    // Seen from black, the black king on e8 is oriented to e1 and black pieces are "ours".
    let b = active_features(&board, Color::Black);
    assert!(b.contains(&halfkp_index(4, 8, Piece::Pawn, Color::White)));
    assert!(b.contains(&halfkp_index(4, 48, Piece::Pawn, Color::Black)));
}

#[test]
fn diff_features_after_a_pawn_move() {
    let old = Position::startpos();
    let new = Position::from_fen("rnbqkbnr/pppppppp/8/8/4P3/8/PPPP1PPP/RNBQKBNR b KQkq - 0 1").unwrap();
    let (added, removed) = diff_features(&old, &new, Color::White);
    assert_eq!(added, vec![halfkp_index(4, 28, Piece::Pawn, Color::White)]);
    assert_eq!(removed, vec![halfkp_index(4, 12, Piece::Pawn, Color::White)]);
    let (a2, r2) = diff_features(&old, &old, Color::Black);
    assert!(a2.is_empty() && r2.is_empty());
}
