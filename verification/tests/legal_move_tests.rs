use mick::move_list::MoveCounter;
use mick::position::Position;

#[test]
fn king_moves() {
    // In the corner
    let position = Position::from_fen("7k/8/8/8/8/8/8/K7 w - - 0 1");
    let mut moves = MoveCounter::new();
    position.legal_moves(&mut moves);
    assert_eq!(moves.moves, 3);

    // At the edge of the board
    let position = Position::from_fen("7k/8/8/8/8/8/8/1K6 w - - 0 1");
    let mut moves = MoveCounter::new();
    position.legal_moves(&mut moves);
    assert_eq!(moves.moves, 5);

    // Else
    let position = Position::from_fen("7k/8/8/8/8/8/1K6/8 w - - 0 1");
    let mut moves = MoveCounter::new();
    position.legal_moves(&mut moves);
    assert_eq!(moves.moves, 8);

    // Castling
    let position = Position::from_fen("6k1/8/8/8/8/8/8/R3K2R w KQ - 0 1");
    let mut moves = MoveCounter::new();
    position.legal_moves(&mut moves);
    assert_eq!(moves.moves, 5 + 19 + 2);
}

#[test]
fn not_moving_king_in_check() {
    // Attacks by queens
    let position = Position::from_fen("7k/8/8/8/8/3q4/1K6/8 w - - 0 1");
    let mut moves = MoveCounter::new();
    position.legal_moves(&mut moves);
    assert_eq!(moves.moves, 3);

    // Attacks by rooks
    let position = Position::from_fen("7k/8/8/8/8/3r4/1K6/8 w - - 0 1");
    let mut moves = MoveCounter::new();
    position.legal_moves(&mut moves);
    assert_eq!(moves.moves, 5);

    // Attacks by bishops
    let position = Position::from_fen("7k/8/8/8/2b5/8/1K6/8 w - - 0 1");
    let mut moves = MoveCounter::new();
    position.legal_moves(&mut moves);
    assert_eq!(moves.moves, 6);

    // Attacks by knights
    let position = Position::from_fen("7k/8/8/8/3n4/8/1K6/8 w - - 0 1");
    let mut moves = MoveCounter::new();
    position.legal_moves(&mut moves);
    assert_eq!(moves.moves, 6);

    // Attacks by pawns
    let position = Position::from_fen("7k/8/8/8/p7/8/1K6/8 w - - 0 1");
    let mut moves = MoveCounter::new();
    position.legal_moves(&mut moves);
    assert_eq!(moves.moves, 7);
}

#[test]
fn queen_moves() {
    // In the corner
    let position = Position::from_fen("6k1/8/8/8/8/8/7K/Q7 w - - 0 1");
    let mut moves = MoveCounter::new();
    position.legal_moves(&mut moves);
    assert_eq!(moves.moves, 21 + 5);

    // At the edge of the board
    let position = Position::from_fen("6k1/8/8/8/8/8/7K/1Q6 w - - 0 1");
    let mut moves = MoveCounter::new();
    position.legal_moves(&mut moves);
    assert_eq!(moves.moves, 21 + 5);

    // In the center of the board
    let position = Position::from_fen("6k1/8/8/7K/3Q4/8/8/8 w - - 0 1");
    let mut moves = MoveCounter::new();
    position.legal_moves(&mut moves);
    assert_eq!(moves.moves, 27 + 5);
}

#[test]
fn rook_moves() {
    // In the corner
    let position = Position::from_fen("6k1/8/8/8/8/8/7K/R7 w - - 0 1");
    let mut moves = MoveCounter::new();
    position.legal_moves(&mut moves);
    assert_eq!(moves.moves, 14 + 5);

    // At the edge of the board
    let position = Position::from_fen("6k1/8/8/8/8/8/7K/1R6 w - - 0 1");
    let mut moves = MoveCounter::new();
    position.legal_moves(&mut moves);
    assert_eq!(moves.moves, 14 + 5);

    // Else
    let position = Position::from_fen("6k1/8/8/7K/3R4/8/8/8 w - - 0 1");
    let mut moves = MoveCounter::new();
    position.legal_moves(&mut moves);
    assert_eq!(moves.moves, 14 + 5);
}

#[test]
fn bishop_moves() {
    // In the corner
    let position = Position::from_fen("6k1/8/8/8/8/8/7K/B7 w - - 0 1");
    let mut moves = MoveCounter::new();
    position.legal_moves(&mut moves);
    assert_eq!(moves.moves, 7 + 5);

    // At the edge of the board
    let position = Position::from_fen("6k1/8/8/8/8/8/7K/1B6 w - - 0 1");
    let mut moves = MoveCounter::new();
    position.legal_moves(&mut moves);
    assert_eq!(moves.moves, 7 + 5);

    // Else
    let position = Position::from_fen("6k1/8/8/7K/3B4/8/8/8 w - - 0 1");
    let mut moves = MoveCounter::new();
    position.legal_moves(&mut moves);
    assert_eq!(moves.moves, 13 + 5);
}

#[test]
fn knight_moves() {
    // In the corner
    let position = Position::from_fen("k6K/8/8/8/8/8/8/N7 w - - 0 1");
    let mut moves = MoveCounter::new();
    position.legal_moves(&mut moves);
    assert_eq!(moves.moves, 2 + 3);

    // One square from a corner
    let position = Position::from_fen("k6K/8/8/8/8/8/8/1N6 w - - 0 1");
    let mut moves = MoveCounter::new();
    position.legal_moves(&mut moves);
    assert_eq!(moves.moves, 3 + 3);

    // Two squares from a corner
    let position = Position::from_fen("k6K/8/8/8/8/8/1N6/8 w - - 0 1");
    let mut moves = MoveCounter::new();
    position.legal_moves(&mut moves);
    assert_eq!(moves.moves, 4 + 3);

    // Three squares from a corner
    let position = Position::from_fen("k6K/8/8/8/8/1N6/8/8 w - - 0 1");
    let mut moves = MoveCounter::new();
    position.legal_moves(&mut moves);
    assert_eq!(moves.moves, 6 + 3);

    // In the center
    let position = Position::from_fen("k6K/8/8/8/3N4/8/8/8 w - - 0 1");
    let mut moves = MoveCounter::new();
    position.legal_moves(&mut moves);
    assert_eq!(moves.moves, 8 + 3);
}

#[test]
fn pawn_moves() {
    // Single push
    let position = Position::from_fen("k6K/8/8/8/8/1P6/8/8 w - - 0 1");
    let mut moves = MoveCounter::new();
    position.legal_moves(&mut moves);
    assert_eq!(moves.moves, 1 + 3);

    // Single push with captures
    let position = Position::from_fen("8/8/8/8/p1p5/1P6/8/k6K w - - 0 1");
    let mut moves = MoveCounter::new();
    position.legal_moves(&mut moves);
    assert_eq!(moves.moves, 3 + 3);

    // Double push
    let position = Position::from_fen("8/8/8/8/8/8/1P6/k6K w - - 0 1");
    let mut moves = MoveCounter::new();
    position.legal_moves(&mut moves);
    assert_eq!(moves.moves, 2 + 3);

    // Double push with captures
    let position = Position::from_fen("8/8/8/8/8/p1p5/1P6/k6K w - - 0 1");
    let mut moves = MoveCounter::new();
    position.legal_moves(&mut moves);
    assert_eq!(moves.moves, 4 + 3);

    // Promotion
    let position = Position::from_fen("8/1P6/8/8/8/8/8/k6K w - - 0 1");
    let mut moves = MoveCounter::new();
    position.legal_moves(&mut moves);
    assert_eq!(moves.moves, 4 + 3);

    // Promotion with captures
    let position = Position::from_fen("p1p5/1P6/8/8/8/8/8/k6K w - - 0 1");
    let mut moves = MoveCounter::new();
    position.legal_moves(&mut moves);
    assert_eq!(moves.moves, 12 + 3);

    // En-passant capture
    let position = Position::from_fen("8/8/8/pP6/8/8/8/k6K w - a6 0 1");
    let mut moves = MoveCounter::new();
    position.legal_moves(&mut moves);
    assert_eq!(moves.moves, 2 + 3);
}

#[test]
fn double_check() {
    let position = Position::from_fen("k3q3/8/b7/8/8/7R/3PK3/5N2 w - - 0 1");
    let mut moves = MoveCounter::new();
    position.legal_moves(&mut moves);
    assert_eq!(moves.moves, 3);
}

#[test]
fn single_check() {
    // Moving the king
    let position = Position::from_fen("q6k/8/8/8/8/8/8/K7 w - - 0 1");
    let mut moves = MoveCounter::new();
    position.legal_moves(&mut moves);
    assert_eq!(moves.moves, 2);

    // Capturing the checker
    let position = Position::from_fen("qR5k/8/8/8/8/8/8/K7 w - - 0 1");
    let mut moves = MoveCounter::new();
    position.legal_moves(&mut moves);
    assert_eq!(moves.moves, 2 + 1);

    // Blocking the check
    let position = Position::from_fen("q6k/1R6/8/8/8/8/8/K7 w - - 0 1");
    let mut moves = MoveCounter::new();
    position.legal_moves(&mut moves);
    assert_eq!(moves.moves, 2 + 1);
}

#[test]
fn pinned_straight_sliders() {
    // Pinned by diagonal slider
    let position = Position::from_fen("7q/8/8/8/8/2R5/8/K6k w - - 0 1");
    let mut moves = MoveCounter::new();
    position.legal_moves(&mut moves);
    assert_eq!(moves.moves, 3 + 0);

    // Pinned by straight slider
    let position = Position::from_fen("q7/8/8/8/8/R7/8/K6k w - - 0 1");
    let mut moves = MoveCounter::new();
    position.legal_moves(&mut moves);
    assert_eq!(moves.moves, 3 + 6);
}

#[test]
fn pinned_diagonal_sliders() {
    let position = Position::from_fen("7q/8/8/8/8/2B5/8/K6k w - - 0 1");
    let mut moves = MoveCounter::new();
    position.legal_moves(&mut moves);
    assert_eq!(moves.moves, 3 + 6);

    // Diagonal slider pinned by straight slider
    let position = Position::from_fen("q7/8/8/8/8/B7/8/K6k w - - 0 1");
    let mut moves = MoveCounter::new();
    position.legal_moves(&mut moves);
    assert_eq!(moves.moves, 3 + 0);
}

#[test]
fn pinned_knights() {
    let position = Position::from_fen("q7/8/8/8/8/N7/8/K6k w - - 0 1");
    let mut moves = MoveCounter::new();
    position.legal_moves(&mut moves);
    assert_eq!(moves.moves, 3 + 0);
}

#[test]
fn pinned_pawns() {
    // Pinned in the direction of movement
    let position = Position::from_fen("q7/8/8/8/8/P7/8/K6k w - - 0 1");
    let mut moves = MoveCounter::new();
    position.legal_moves(&mut moves);
    assert_eq!(moves.moves, 3 + 1);

    // With double-push pinned in the direction of movement
    let position = Position::from_fen("q7/8/8/8/8/8/P7/K6k w - - 0 1");
    let mut moves = MoveCounter::new();
    position.legal_moves(&mut moves);
    assert_eq!(moves.moves, 2 + 2);

    // Pinned not in the direction of movement
    let position = Position::from_fen("7q/8/8/8/1p6/2P5/8/K6k w - - 0 1");
    let mut moves = MoveCounter::new();
    position.legal_moves(&mut moves);
    assert_eq!(moves.moves, 3 + 0);

    // Pinned not in the direction of movement that can capture the attacker
    let position = Position::from_fen("8/8/8/8/1p1q4/2P5/8/K6k w - - 0 1");
    let mut moves = MoveCounter::new();
    position.legal_moves(&mut moves);
    assert_eq!(moves.moves, 3 + 1);
}

#[test]
fn en_passant_discovered_check() {
    let position = Position::from_fen("7k/8/8/K2Pp2q/8/8/8/8 w - e6 0 1");
    let mut moves = MoveCounter::new();
    position.legal_moves(&mut moves);
    assert_eq!(moves.moves, 5 + 1);
}

#[test]
fn en_passant_when_in_check() {
    // Capturing the checker not possible
    let position = Position::from_fen("8/K6q/8/3Pp3/8/8/8/7k w - e6 0 1");
    let mut moves = MoveCounter::new();
    position.legal_moves(&mut moves);
    assert_eq!(moves.moves, 4 + 0);

    // Capturing the checker possible
    let position = Position::from_fen("8/8/8/3Pp3/5K2/8/8/7k w - e6 0 1");
    let mut moves = MoveCounter::new();
    position.legal_moves(&mut moves);
    assert_eq!(moves.moves, 8 + 1);
}
