use mick::board::Board;
use mick::castle::{Castle, CastlingRights};
use mick::moves::Move;
use mick::piece::{Piece, PieceKind};
use mick::position::Position;
use mick::side::Side;
use mick::square::Square;

const EMPTY: Board = Board(0);
const KING_SIDE: Castle = Castle(0);
const QUEEN_SIDE: Castle = Castle(1);
const NO_RIGHTS: CastlingRights = CastlingRights(0);
const WHITE_KING_SIDE: CastlingRights = CastlingRights(0b0001);
const WHITE_QUEEN_SIDE: CastlingRights = CastlingRights(0b0010);
const QUEEN: PieceKind = PieceKind(1);
const WHITE_KING: Piece = Piece(0);
const WHITE_QUEEN: Piece = Piece(2);
const WHITE_ROOK: Piece = Piece(4);
const WHITE_BISHOP: Piece = Piece(6);
const WHITE_KNIGHT: Piece = Piece(8);
const WHITE_PAWN: Piece = Piece(10);
const BLACK_PAWN: Piece = Piece(11);
const NULL_PIECE: Piece = Piece(12);
const WHITE: Side = Side(0);
const BLACK: Side = Side(1);

#[test]
fn king_push() {
    let p1 = Position::from_fen("8/8/8/8/8/8/8/K7 w - - 0 1");
    let mut p2 = p1.clone();
    let p2_state = p2.state().clone();
    let p2_hash = p2.hash();
    let m = Move::new_push(Square(0), Square(8));

    let capture = p2.make(m);
    assert_eq!(p2.at(Square(0)), NULL_PIECE);
    assert_eq!(p2.at(Square(8)), WHITE_KING);
    assert_eq!(p2.piece(WHITE_KING), Board(0x0000_0000_0000_0100));
    assert_eq!(p2.side(WHITE), Board(0x0000_0000_0000_0100));
    assert_eq!(p2.state().side_to_move, BLACK);
    assert_eq!(p2.state().castling_rights, NO_RIGHTS);
    assert_eq!(p2.state().en_passant_target, None);
    assert_eq!(p2.state().halfmove_clock, 1);
    assert_eq!(p2.state().fullmove_number, 1);

    p2.unmake(m, capture, &p2_state, p2_hash);
    assert_eq!(p1, p2);
}

#[test]
fn king_capture() {
    let p1 = Position::from_fen("8/8/8/8/8/8/p7/K7 w - - 0 1");
    let mut p2 = p1.clone();
    let p2_state = p2.state().clone();
    let p2_hash = p2.hash();
    let m = Move::new_capture(Square(0), Square(8));

    let capture = p2.make(m);
    assert_eq!(p2.at(Square(0)), NULL_PIECE);
    assert_eq!(p2.at(Square(8)), WHITE_KING);
    assert_eq!(p2.piece(WHITE_KING), Board(0x0000_0000_0000_0100));
    assert_eq!(p2.side(WHITE), Board(0x0000_0000_0000_0100));
    assert_eq!(p2.piece(BLACK_PAWN), EMPTY);
    assert_eq!(p2.side(BLACK), EMPTY);
    assert_eq!(p2.state().side_to_move, BLACK);
    assert_eq!(p2.state().castling_rights, NO_RIGHTS);
    assert_eq!(p2.state().en_passant_target, None);
    assert_eq!(p2.state().halfmove_clock, 0);
    assert_eq!(p2.state().fullmove_number, 1);

    p2.unmake(m, capture, &p2_state, p2_hash);
    assert_eq!(p1, p2);
}

#[test]
fn castle_kingside() {
    let p1 = Position::from_fen("8/8/8/8/8/8/8/R3K2R w KQ - 0 1");
    let mut p2 = p1.clone();
    let p2_state = p2.state().clone();
    let p2_hash = p2.hash();
    let m = Move::new_castle(Square(4), Square(6), KING_SIDE);

    let capture = p2.make(m);
    assert_eq!(p2.at(Square(4)), NULL_PIECE);
    assert_eq!(p2.at(Square(7)), NULL_PIECE);
    assert_eq!(p2.at(Square(6)), WHITE_KING);
    assert_eq!(p2.at(Square(5)), WHITE_ROOK);
    assert_eq!(p2.piece(WHITE_KING), Board(0x0000_0000_0000_0040));
    assert_eq!(p2.piece(WHITE_ROOK), Board(0x0000_0000_0000_0021));
    assert_eq!(p2.side(WHITE), Board(0x0000_0000_0000_0061));
    assert_eq!(p2.state().side_to_move, BLACK);
    assert_eq!(p2.state().castling_rights, NO_RIGHTS);
    assert_eq!(p2.state().en_passant_target, None);
    assert_eq!(p2.state().halfmove_clock, 1);
    assert_eq!(p2.state().fullmove_number, 1);

    p2.unmake(m, capture, &p2_state, p2_hash);
    assert_eq!(p1, p2);
}

#[test]
fn castle_queenside() {
    let p1 = Position::from_fen("8/8/8/8/8/8/8/R3K2R w KQ - 0 1");
    let mut p2 = p1.clone();
    let p2_state = p2.state().clone();
    let p2_hash = p2.hash();
    let m = Move::new_castle(Square(4), Square(2), QUEEN_SIDE);

    let capture = p2.make(m);
    assert_eq!(p2.at(Square(4)), NULL_PIECE);
    assert_eq!(p2.at(Square(0)), NULL_PIECE);
    assert_eq!(p2.at(Square(2)), WHITE_KING);
    assert_eq!(p2.at(Square(3)), WHITE_ROOK);
    assert_eq!(p2.piece(WHITE_KING), Board(0x0000_0000_0000_0004));
    assert_eq!(p2.piece(WHITE_ROOK), Board(0x0000_0000_0000_0088));
    assert_eq!(p2.side(WHITE), Board(0x0000_0000_0000_008C));
    assert_eq!(p2.state().side_to_move, BLACK);
    assert_eq!(p2.state().castling_rights, NO_RIGHTS);
    assert_eq!(p2.state().en_passant_target, None);
    assert_eq!(p2.state().halfmove_clock, 1);
    assert_eq!(p2.state().fullmove_number, 1);

    p2.unmake(m, capture, &p2_state, p2_hash);
    assert_eq!(p1, p2);
}

#[test]
fn queen_push() {
    let p1 = Position::from_fen("8/8/8/8/8/8/Q7/K7 w - - 0 1");
    let mut p2 = p1.clone();
    let p2_state = p2.state().clone();
    let p2_hash = p2.hash();
    let m = Move::new_push(Square(8), Square(62));

    let capture = p2.make(m);
    assert_eq!(p2.at(Square(8)), NULL_PIECE);
    assert_eq!(p2.at(Square(62)), WHITE_QUEEN);
    assert_eq!(p2.piece(WHITE_QUEEN), Board(0x4000_0000_0000_0000));
    assert_eq!(p2.side(WHITE), Board(0x4000_0000_0000_0001));
    assert_eq!(p2.state().side_to_move, BLACK);
    assert_eq!(p2.state().castling_rights, NO_RIGHTS);
    assert_eq!(p2.state().en_passant_target, None);
    assert_eq!(p2.state().halfmove_clock, 1);
    assert_eq!(p2.state().fullmove_number, 1);

    p2.unmake(m, capture, &p2_state, p2_hash);
    assert_eq!(p1, p2);
}

#[test]
fn queen_capture() {
    let p1 = Position::from_fen("6p1/8/8/8/8/8/Q7/K7 w - - 0 1");
    let mut p2 = p1.clone();
    let p2_state = p2.state().clone();
    let p2_hash = p2.hash();
    let m = Move::new_capture(Square(8), Square(62));

    let capture = p2.make(m);
    assert_eq!(p2.at(Square(8)), NULL_PIECE);
    assert_eq!(p2.at(Square(62)), WHITE_QUEEN);
    assert_eq!(p2.piece(WHITE_QUEEN), Board(0x4000_0000_0000_0000));
    assert_eq!(p2.side(WHITE), Board(0x4000_0000_0000_0001));
    assert_eq!(p2.piece(BLACK_PAWN), EMPTY);
    assert_eq!(p2.side(BLACK), EMPTY);
    assert_eq!(p2.state().side_to_move, BLACK);
    assert_eq!(p2.state().castling_rights, NO_RIGHTS);
    assert_eq!(p2.state().en_passant_target, None);
    assert_eq!(p2.state().halfmove_clock, 0);
    assert_eq!(p2.state().fullmove_number, 1);

    p2.unmake(m, capture, &p2_state, p2_hash);
    assert_eq!(p1, p2);
}

#[test]
fn rook_push() {
    let p1 = Position::from_fen("8/8/8/8/8/8/R7/K7 w - - 0 1");
    let mut p2 = p1.clone();
    let p2_state = p2.state().clone();
    let p2_hash = p2.hash();
    let m = Move::new_push(Square(8), Square(56));

    let capture = p2.make(m);
    assert_eq!(p2.at(Square(8)), NULL_PIECE);
    assert_eq!(p2.at(Square(56)), WHITE_ROOK);
    assert_eq!(p2.piece(WHITE_ROOK), Board(0x0100_0000_0000_0000));
    assert_eq!(p2.side(WHITE), Board(0x0100_0000_0000_0001));
    assert_eq!(p2.state().side_to_move, BLACK);
    assert_eq!(p2.state().castling_rights, NO_RIGHTS);
    assert_eq!(p2.state().en_passant_target, None);
    assert_eq!(p2.state().halfmove_clock, 1);
    assert_eq!(p2.state().fullmove_number, 1);

    p2.unmake(m, capture, &p2_state, p2_hash);
    assert_eq!(p1, p2);
}

#[test]
fn rook_capture() {
    let p1 = Position::from_fen("p7/8/8/8/8/8/R7/K7 w - - 0 1");
    let mut p2 = p1.clone();
    let p2_state = p2.state().clone();
    let p2_hash = p2.hash();
    let m = Move::new_capture(Square(8), Square(56));

    let capture = p2.make(m);
    assert_eq!(p2.at(Square(8)), NULL_PIECE);
    assert_eq!(p2.at(Square(56)), WHITE_ROOK);
    assert_eq!(p2.piece(WHITE_ROOK), Board(0x0100_0000_0000_0000));
    assert_eq!(p2.side(WHITE), Board(0x0100_0000_0000_0001));
    assert_eq!(p2.piece(BLACK_PAWN), EMPTY);
    assert_eq!(p2.side(BLACK), EMPTY);
    assert_eq!(p2.state().side_to_move, BLACK);
    assert_eq!(p2.state().castling_rights, NO_RIGHTS);
    assert_eq!(p2.state().en_passant_target, None);
    assert_eq!(p2.state().halfmove_clock, 0);
    assert_eq!(p2.state().fullmove_number, 1);

    p2.unmake(m, capture, &p2_state, p2_hash);
    assert_eq!(p1, p2);
}

#[test]
fn bishop_push() {
    let p1 = Position::from_fen("8/8/8/8/8/8/B7/K7 w - - 0 1");
    let mut p2 = p1.clone();
    let p2_state = p2.state().clone();
    let p2_hash = p2.hash();
    let m = Move::new_push(Square(8), Square(62));

    let capture = p2.make(m);
    assert_eq!(p2.at(Square(8)), NULL_PIECE);
    assert_eq!(p2.at(Square(62)), WHITE_BISHOP);
    assert_eq!(p2.piece(WHITE_BISHOP), Board(0x4000_0000_0000_0000));
    assert_eq!(p2.side(WHITE), Board(0x4000_0000_0000_0001));
    assert_eq!(p2.state().side_to_move, BLACK);
    assert_eq!(p2.state().castling_rights, NO_RIGHTS);
    assert_eq!(p2.state().en_passant_target, None);
    assert_eq!(p2.state().halfmove_clock, 1);
    assert_eq!(p2.state().fullmove_number, 1);

    p2.unmake(m, capture, &p2_state, p2_hash);
    assert_eq!(p1, p2);
}

#[test]
fn bishop_capture() {
    let p1 = Position::from_fen("6p1/8/8/8/8/8/B7/K7 w - - 0 1");
    let mut p2 = p1.clone();
    let p2_state = p2.state().clone();
    let p2_hash = p2.hash();
    let m = Move::new_capture(Square(8), Square(62));

    let capture = p2.make(m);
    assert_eq!(p2.at(Square(8)), NULL_PIECE);
    assert_eq!(p2.at(Square(62)), WHITE_BISHOP);
    assert_eq!(p2.piece(WHITE_BISHOP), Board(0x4000_0000_0000_0000));
    assert_eq!(p2.side(WHITE), Board(0x4000_0000_0000_0001));
    assert_eq!(p2.piece(BLACK_PAWN), EMPTY);
    assert_eq!(p2.side(BLACK), EMPTY);
    assert_eq!(p2.state().side_to_move, BLACK);
    assert_eq!(p2.state().castling_rights, NO_RIGHTS);
    assert_eq!(p2.state().en_passant_target, None);
    assert_eq!(p2.state().halfmove_clock, 0);
    assert_eq!(p2.state().fullmove_number, 1);

    p2.unmake(m, capture, &p2_state, p2_hash);
    assert_eq!(p1, p2);
}

#[test]
fn knight_push() {
    let p1 = Position::from_fen("8/8/8/8/8/8/N7/K7 w - - 0 1");
    let mut p2 = p1.clone();
    let p2_state = p2.state().clone();
    let p2_hash = p2.hash();
    let m = Move::new_push(Square(8), Square(25));

    let capture = p2.make(m);
    assert_eq!(p2.at(Square(8)), NULL_PIECE);
    assert_eq!(p2.at(Square(25)), WHITE_KNIGHT);
    assert_eq!(p2.piece(WHITE_KNIGHT), Board(0x0000_0000_0200_0000));
    assert_eq!(p2.side(WHITE), Board(0x0000_0000_0200_0001));
    assert_eq!(p2.state().side_to_move, BLACK);
    assert_eq!(p2.state().castling_rights, NO_RIGHTS);
    assert_eq!(p2.state().en_passant_target, None);
    assert_eq!(p2.state().halfmove_clock, 1);
    assert_eq!(p2.state().fullmove_number, 1);

    p2.unmake(m, capture, &p2_state, p2_hash);
    assert_eq!(p1, p2);
}

#[test]
fn knight_capture() {
    let p1 = Position::from_fen("8/8/8/8/1p6/8/N7/K7 w - - 0 1");
    let mut p2 = p1.clone();
    let p2_state = p2.state().clone();
    let p2_hash = p2.hash();
    let m = Move::new_capture(Square(8), Square(25));

    let capture = p2.make(m);
    assert_eq!(p2.at(Square(8)), NULL_PIECE);
    assert_eq!(p2.at(Square(25)), WHITE_KNIGHT);
    assert_eq!(p2.piece(WHITE_KNIGHT), Board(0x0000_0000_0200_0000));
    assert_eq!(p2.side(WHITE), Board(0x0000_0000_0200_0001));
    assert_eq!(p2.piece(BLACK_PAWN), EMPTY);
    assert_eq!(p2.side(BLACK), EMPTY);
    assert_eq!(p2.state().side_to_move, BLACK);
    assert_eq!(p2.state().castling_rights, NO_RIGHTS);
    assert_eq!(p2.state().en_passant_target, None);
    assert_eq!(p2.state().halfmove_clock, 0);
    assert_eq!(p2.state().fullmove_number, 1);

    p2.unmake(m, capture, &p2_state, p2_hash);
    assert_eq!(p1, p2);
}

#[test]
fn pawn_single_push() {
    let p1 = Position::from_fen("8/8/8/8/8/8/P7/K7 w - - 0 1");
    let mut p2 = p1.clone();
    let p2_state = p2.state().clone();
    let p2_hash = p2.hash();
    let m = Move::new_push(Square(8), Square(16));

    let capture = p2.make(m);
    assert_eq!(p2.at(Square(8)), NULL_PIECE);
    assert_eq!(p2.at(Square(16)), WHITE_PAWN);
    assert_eq!(p2.piece(WHITE_PAWN), Board(0x0000_0000_0001_0000));
    assert_eq!(p2.side(WHITE), Board(0x0000_0000_0001_0001));
    assert_eq!(p2.state().side_to_move, BLACK);
    assert_eq!(p2.state().castling_rights, NO_RIGHTS);
    assert_eq!(p2.state().en_passant_target, None);
    assert_eq!(p2.state().halfmove_clock, 0);
    assert_eq!(p2.state().fullmove_number, 1);

    p2.unmake(m, capture, &p2_state, p2_hash);
    assert_eq!(p1, p2);
}

#[test]
fn pawn_double_push() {
    let p1 = Position::from_fen("8/8/8/8/8/8/P7/K7 w - - 0 1");
    let mut p2 = p1.clone();
    let p2_state = p2.state().clone();
    let p2_hash = p2.hash();
    let m = Move::new_push_double_pawn(Square(8), Square(24));

    let capture = p2.make(m);
    assert_eq!(p2.at(Square(8)), NULL_PIECE);
    assert_eq!(p2.at(Square(24)), WHITE_PAWN);
    assert_eq!(p2.piece(WHITE_PAWN), Board(0x0000_0000_0100_0000));
    assert_eq!(p2.side(WHITE), Board(0x0000_0000_0100_0001));
    assert_eq!(p2.state().side_to_move, BLACK);
    assert_eq!(p2.state().castling_rights, NO_RIGHTS);
    assert_eq!(p2.state().en_passant_target, Some(Square(16)));
    assert_eq!(p2.state().halfmove_clock, 0);
    assert_eq!(p2.state().fullmove_number, 1);

    p2.unmake(m, capture, &p2_state, p2_hash);
    assert_eq!(p1, p2);
}

#[test]
fn pawn_push_promotion() {
    let p1 = Position::from_fen("8/P7/8/8/8/8/8/K7 w - - 0 1");
    let mut p2 = p1.clone();
    let p2_state = p2.state().clone();
    let p2_hash = p2.hash();
    let m = Move::new_push_promotion(Square(48), Square(56), QUEEN);

    let capture = p2.make(m);
    assert_eq!(p2.at(Square(48)), NULL_PIECE);
    assert_eq!(p2.at(Square(56)), WHITE_QUEEN);
    assert_eq!(p2.piece(WHITE_PAWN), EMPTY);
    assert_eq!(p2.piece(WHITE_QUEEN), Board(0x0100_0000_0000_0000));
    assert_eq!(p2.side(WHITE), Board(0x0100_0000_0000_0001));
    assert_eq!(p2.state().side_to_move, BLACK);
    assert_eq!(p2.state().castling_rights, NO_RIGHTS);
    assert_eq!(p2.state().en_passant_target, None);
    assert_eq!(p2.state().halfmove_clock, 0);
    assert_eq!(p2.state().fullmove_number, 1);

    p2.unmake(m, capture, &p2_state, p2_hash);
    assert_eq!(p1, p2);
}

#[test]
fn pawn_capture() {
    let p1 = Position::from_fen("8/8/8/8/8/1p6/P7/K7 w - - 0 1");
    let mut p2 = p1.clone();
    let p2_state = p2.state().clone();
    let p2_hash = p2.hash();
    let m = Move::new_capture(Square(8), Square(17));

    let capture = p2.make(m);
    assert_eq!(p2.at(Square(8)), NULL_PIECE);
    assert_eq!(p2.at(Square(17)), WHITE_PAWN);
    assert_eq!(p2.piece(WHITE_PAWN), Board(0x0000_0000_0002_0000));
    assert_eq!(p2.side(WHITE), Board(0x0000_0000_0002_0001));
    assert_eq!(p2.piece(BLACK_PAWN), EMPTY);
    assert_eq!(p2.side(BLACK), EMPTY);
    assert_eq!(p2.state().side_to_move, BLACK);
    assert_eq!(p2.state().castling_rights, NO_RIGHTS);
    assert_eq!(p2.state().en_passant_target, None);
    assert_eq!(p2.state().halfmove_clock, 0);
    assert_eq!(p2.state().fullmove_number, 1);

    p2.unmake(m, capture, &p2_state, p2_hash);
    assert_eq!(p1, p2);
}

#[test]
fn pawn_capture_promotion() {
    let p1 = Position::from_fen("1p6/P7/8/8/8/8/8/K7 w - - 0 1");
    let mut p2 = p1.clone();
    let p2_state = p2.state().clone();
    let p2_hash = p2.hash();
    let m = Move::new_capture_promotion(Square(48), Square(57), QUEEN);

    let capture = p2.make(m);
    assert_eq!(p2.at(Square(48)), NULL_PIECE);
    assert_eq!(p2.at(Square(57)), WHITE_QUEEN);
    assert_eq!(p2.piece(WHITE_PAWN), EMPTY);
    assert_eq!(p2.piece(WHITE_QUEEN), Board(0x0200_0000_0000_0000));
    assert_eq!(p2.side(WHITE), Board(0x0200_0000_0000_0001));
    assert_eq!(p2.state().side_to_move, BLACK);
    assert_eq!(p2.state().castling_rights, NO_RIGHTS);
    assert_eq!(p2.state().en_passant_target, None);
    assert_eq!(p2.state().halfmove_clock, 0);
    assert_eq!(p2.state().fullmove_number, 1);

    p2.unmake(m, capture, &p2_state, p2_hash);
    assert_eq!(p1, p2);
}

#[test]
fn pawn_capture_promotion_to_rook_and_knight() {
    let p1 = Position::from_fen("1p6/P7/8/8/8/8/8/K7 w - - 0 1");
    for (kind, piece) in [(PieceKind(2), WHITE_ROOK), (PieceKind(4), WHITE_KNIGHT)] {
        let m = Move::new_capture_promotion(Square(48), Square(57), kind);
        assert!(m.is_capture());
        assert!(!m.is_en_passant_capture());
        assert!(p1.can_play(m));
        let mut p2 = p1.clone();
        let p2_state = p2.state().clone();
        let p2_hash = p2.hash();
        let capture = p2.make(m);
        assert_eq!(capture, Some((Piece(11), Square(57))));
        assert_eq!(p2.at(Square(48)), NULL_PIECE);
        assert_eq!(p2.at(Square(57)), piece);
        p2.unmake(m, capture, &p2_state, p2_hash);
        assert_eq!(p1, p2);
    }
    assert!(Move::new_capture_en_passant(Square(32), Square(41)).is_en_passant_capture());
}

#[test]
fn pawn_capture_en_passant() {
    let p1 = Position::from_fen("8/8/8/Pp6/8/8/8/K7 w - b6 0 1");
    let mut p2 = p1.clone();
    let p2_state = p2.state().clone();
    let p2_hash = p2.hash();
    let m = Move::new_capture_en_passant(Square(32), Square(41));

    let capture = p2.make(m);
    assert_eq!(p2.at(Square(32)), NULL_PIECE);
    assert_eq!(p2.at(Square(40)), NULL_PIECE);
    assert_eq!(p2.at(Square(41)), WHITE_PAWN);
    assert_eq!(p2.piece(WHITE_PAWN), Board(0x0000_0200_0000_0000));
    assert_eq!(p2.side(WHITE), Board(0x0000_0200_0000_0001));
    assert_eq!(p2.piece(BLACK_PAWN), EMPTY);
    assert_eq!(p2.side(BLACK), EMPTY);
    assert_eq!(p2.state().side_to_move, BLACK);
    assert_eq!(p2.state().castling_rights, NO_RIGHTS);
    assert_eq!(p2.state().en_passant_target, None);
    assert_eq!(p2.state().halfmove_clock, 0);
    assert_eq!(p2.state().fullmove_number, 1);

    p2.unmake(m, capture, &p2_state, p2_hash);
    assert_eq!(p1, p2);
}

#[test]
fn removing_castling_right() {
    // When the king moves
    let p1 = Position::from_fen("8/8/8/8/8/8/8/R3K2R w KQ - 0 1");
    let mut p2 = p1.clone();
    let p2_state = p2.state().clone();
    let p2_hash = p2.hash();
    let m = Move::new_push(Square(4), Square(5));

    let capture = p2.make(m);
    assert_eq!(p2.state().castling_rights, NO_RIGHTS);

    p2.unmake(m, capture, &p2_state, p2_hash);
    assert_eq!(p1, p2);

    // When the kingside rook moves
    let p1 = Position::from_fen("8/8/8/8/8/8/8/R3K2R w KQ - 0 1");
    let mut p2 = p1.clone();
    let p2_state = p2.state().clone();
    let p2_hash = p2.hash();
    let m = Move::new_push(Square(7), Square(6));

    let capture = p2.make(m);
    assert_eq!(p2.state().castling_rights, WHITE_QUEEN_SIDE);

    p2.unmake(m, capture, &p2_state, p2_hash);
    assert_eq!(p1, p2);

    // When the queenside rook moves
    let p1 = Position::from_fen("8/8/8/8/8/8/8/R3K2R w KQ - 0 1");
    let mut p2 = p1.clone();
    let p2_state = p2.state().clone();
    let p2_hash = p2.hash();
    let m = Move::new_push(Square(0), Square(1));

    let capture = p2.make(m);
    assert_eq!(p2.state().castling_rights, WHITE_KING_SIDE);

    p2.unmake(m, capture, &p2_state, p2_hash);
    assert_eq!(p1, p2);
}

#[test]
fn black_to_move() {
    // When the king moves
    let p1 = Position::from_fen("8/8/8/8/8/8/8/k7 b - - 0 1");
    let mut p2 = p1.clone();
    let p2_state = p2.state().clone();
    let p2_hash = p2.hash();
    let m = Move::new_push(Square(0), Square(1));

    let capture = p2.make(m);
    assert_eq!(p2.state().side_to_move, WHITE);
    assert_eq!(p2.state().halfmove_clock, 1);
    assert_eq!(p2.state().fullmove_number, 2);

    p2.unmake(m, capture, &p2_state, p2_hash);
    assert_eq!(p1, p2);
}
