use mick::castle::CastlingRights;
use mick::piece::Piece;
use mick::side::Side;
use mick::square::Square;

const NO_RIGHTS: CastlingRights = CastlingRights(0);
const ALL_RIGHTS: CastlingRights = CastlingRights(0b1111);
const WHITE_KING_SIDE: CastlingRights = CastlingRights(0b0001);
const WHITE_QUEEN_SIDE: CastlingRights = CastlingRights(0b0010);
const BLACK_KING_SIDE: CastlingRights = CastlingRights(0b0100);
const BLACK_QUEEN_SIDE: CastlingRights = CastlingRights(0b1000);
const WHITE: Side = Side(0);
const BLACK: Side = Side(1);

#[test]
fn castle_from_valid() {
    assert_eq!(CastlingRights::try_from_str("-"), Ok(NO_RIGHTS));
    assert_eq!(CastlingRights::try_from_str("K"), Ok(WHITE_KING_SIDE));
    assert_eq!(CastlingRights::try_from_str("Q"), Ok(WHITE_QUEEN_SIDE));
    assert_eq!(CastlingRights::try_from_str("k"), Ok(BLACK_KING_SIDE));
    assert_eq!(CastlingRights::try_from_str("q"), Ok(BLACK_QUEEN_SIDE));
    assert_eq!(CastlingRights::try_from_str("KkQq"), Ok(ALL_RIGHTS));
}

#[test]
fn castle_from_invalid() {
    assert_eq!(
        CastlingRights::try_from_str("a"),
        Err(String::from("Invalid castling rights: a"))
    );
}

#[test]
fn castling_rights_from_valid() {
    assert_eq!(CastlingRights::from_str("-"), NO_RIGHTS);
    assert_eq!(CastlingRights::from_str("K"), WHITE_KING_SIDE);
    assert_eq!(CastlingRights::from_str("Q"), WHITE_QUEEN_SIDE);
    assert_eq!(CastlingRights::from_str("k"), BLACK_KING_SIDE);
    assert_eq!(CastlingRights::from_str("q"), BLACK_QUEEN_SIDE);
    assert_eq!(CastlingRights::from_str("KkQq"), ALL_RIGHTS);
}

#[test]
fn castling_rights_toggle_and_text() {
    // each letter toggles its right
    assert_eq!(CastlingRights::from_str("KK"), NO_RIGHTS);
    assert_eq!(ALL_RIGHTS.to_text(), "KQkq");
    assert_eq!(CastlingRights(0b0101).to_text(), "Kk");
    assert_eq!(NO_RIGHTS.to_text(), "-");
    let mut rights = ALL_RIGHTS;
    rights.clear(WHITE_KING_SIDE);
    assert_eq!(rights, CastlingRights(0b1110));
    let mut rights = ALL_RIGHTS;
    rights.clear_side(WHITE);
    assert_eq!(rights, CastlingRights(0b1100));
}

#[test]
fn piece_try_from_valid() {
    assert_eq!(Piece::try_from_char('K'), Ok(Piece(0)));
    assert_eq!(Piece::try_from_char('k'), Ok(Piece(1)));
    assert_eq!(Piece::try_from_char('Q'), Ok(Piece(2)));
    assert_eq!(Piece::try_from_char('q'), Ok(Piece(3)));
    assert_eq!(Piece::try_from_char('R'), Ok(Piece(4)));
    assert_eq!(Piece::try_from_char('r'), Ok(Piece(5)));
    assert_eq!(Piece::try_from_char('B'), Ok(Piece(6)));
    assert_eq!(Piece::try_from_char('b'), Ok(Piece(7)));
    assert_eq!(Piece::try_from_char('N'), Ok(Piece(8)));
    assert_eq!(Piece::try_from_char('n'), Ok(Piece(9)));
    assert_eq!(Piece::try_from_char('P'), Ok(Piece(10)));
    assert_eq!(Piece::try_from_char('p'), Ok(Piece(11)));
}

#[test]
fn piece_try_from_invalid() {
    assert_eq!(
        Piece::try_from_char('-'),
        Err(String::from("Invalid piece: -"))
    );
    assert_eq!(
        Piece::try_from_char('1'),
        Err(String::from("Invalid piece: 1"))
    );
}

#[test]
fn side_from_valid() {
    assert_eq!(Side::try_from_str("w"), Ok(WHITE));
    assert_eq!(Side::try_from_str("b"), Ok(BLACK));
}

#[test]
fn side_from_invalid() {
    assert_eq!(
        Side::try_from_str("-"),
        Err(String::from("Invalid side: -"))
    );
}

#[test]
fn not() {
    assert_eq!(!WHITE, BLACK);
    assert_eq!(!BLACK, WHITE);
    assert_eq!(!!WHITE, WHITE);
    assert_eq!(!!BLACK, BLACK);
}

#[test]
fn mod_try_from_valid() {
    assert_eq!(Square::try_from_str("a1"), Ok(Some(Square(0))));
    assert_eq!(Square::try_from_str("b1"), Ok(Some(Square(1))));
    assert_eq!(Square::try_from_str("h1"), Ok(Some(Square(7))));
    assert_eq!(Square::try_from_str("d4"), Ok(Some(Square(27))));
    assert_eq!(Square::try_from_str("a8"), Ok(Some(Square(56))));
    assert_eq!(Square::try_from_str("h8"), Ok(Some(Square(63))));
    assert_eq!(Square::try_from_str("-"), Ok(None));
}

#[test]
fn mod_try_from_invalid() {
    assert_eq!(
        Square::try_from_str(""),
        Err(String::from("Invalid square: "))
    );
    assert_eq!(
        Square::try_from_str("a9"),
        Err(String::from("Invalid rank: a9"))
    );
    assert_eq!(
        Square::try_from_str("i1"),
        Err(String::from("Invalid file: i1"))
    );
}

#[test]
fn square_names_and_parts() {
    assert_eq!(Square(27).name(), "d4");
    assert_eq!(Square(63).name(), "h8");
    assert_eq!(Square(27).rank_index(), 3);
    assert_eq!(Square(27).file_index(), 3);
    assert_eq!(Square::from(3, 3), Square(27));
    assert_eq!(Square(9).along_row_with_col(Square(20)), Square(12));
    assert_eq!(Square(1).rotate_right(8), Square(57));
}

#[test]
fn piece_letters_and_kinds() {
    assert_eq!(Piece(4).to_char(), 'R');
    assert_eq!(Piece(12).to_char(), ' ');
    assert_eq!(Piece(9).kind().0, 4);
    assert_eq!(Piece(9).side(), BLACK);
    assert!(Piece(2).is_slider());
    assert!(!Piece(8).is_slider());
    assert_eq!(Piece(1).to_symbol(), Some('♚'));
    assert_eq!(Piece(12).to_symbol(), None);
    assert_eq!(
        mick::piece::PieceKind::try_from_char('x'),
        Err(String::from("Invalid piece kind: x"))
    );
}
