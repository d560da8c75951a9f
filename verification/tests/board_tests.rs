use mick::board::Board;
use mick::square::Square;

fn squares_of(b: Board) -> Vec<u8> {
    let mut it = b.iter();
    let mut out = Vec::new();
    while let Some((_, s)) = it.next() {
        out.push(s.0);
    }
    out
}

#[test]
fn board_flips_board() {
    let mut board1 = Board(0x0101_0202_0404_0808);
    let board2 = Board(0x8080_4040_2020_1010);
    let board3 = Board(0x0101_0202_0404_0808);

    board1.flip_board(&board2);
    assert_eq!(board1, Board(0x8181_4242_2424_1818));

    board1.flip_board(&board2);
    assert_eq!(board1, Board(0x0101_0202_0404_0808));

    board1.flip_board(&board3);
    assert_eq!(board1, Board::empty_board());
}

#[test]
fn board_flips_square() {
    let mut board = Board::empty_board();
    let a1 = Square(0);

    board.flip_square(&a1);
    assert_eq!(board, Board(0x0000_0000_0000_0001));

    board.flip_square(&a1);
    assert_eq!(board, Board::empty_board());
}

#[test]
fn board_iterates_over_empty() {
    assert!(Board::empty_board().iter().next().is_none());
}

#[test]
fn board_iterates_over_all() {
    let mut iter = Board::all_squares().iter();
    for i in 0..64 {
        assert_eq!(iter.next().map(|(_, s)| s), Some(Square(i)));
    }
    assert!(iter.next().is_none());
}

#[test]
fn board_iterates_over_some() {
    let mut iter = Board(0x0001_0002_0004_0008).iter();
    assert_eq!(iter.next().map(|(_, s)| s), Some(Square(3)));
    assert_eq!(iter.next().map(|(_, s)| s), Some(Square(18)));
    assert_eq!(iter.next().map(|(_, s)| s), Some(Square(33)));
    assert_eq!(iter.next().map(|(_, s)| s), Some(Square(48)));
    assert!(iter.next().is_none());
}

#[test]
fn mod_flips_board() {
    let mut board1 = Board(0x0101_0202_0404_0808);
    let board2 = Board(0x8080_4040_2020_1010);
    let board3 = Board(0x0101_0202_0404_0808);

    board1.flip_board(&board2);
    assert_eq!(board1, Board(0x8181_4242_2424_1818));

    board1.flip_board(&board2);
    assert_eq!(board1, Board(0x0101_0202_0404_0808));

    board1.flip_board(&board3);
    assert_eq!(board1, Board::empty_board());
}

#[test]
fn mod_flips_square() {
    let mut board = Board::empty_board();
    let a1 = Square(0);

    board.flip_square(&a1);
    assert_eq!(board, Board(0x0000_0000_0000_0001));

    board.flip_square(&a1);
    assert_eq!(board, Board::empty_board());
}

#[test]
fn mod_iterates_over_empty() {
    assert_eq!(Board::empty_board().iter().next(), None);
}

#[test]
fn mod_iterates_over_all() {
    let mut iter = Board::all_squares().iter();
    for i in 0..64 {
        assert_eq!(iter.next(), Some((Board(1 << i), Square(i))));
    }
    assert_eq!(iter.next(), None);
}

#[test]
fn mod_iterates_over_some() {
    let mut iter = Board(0x0001_0002_0004_0008).iter();
    assert_eq!(iter.next(), Some((Board(1 << 3), Square(3))));
    assert_eq!(iter.next(), Some((Board(1 << 18), Square(18))));
    assert_eq!(iter.next(), Some((Board(1 << 33), Square(33))));
    assert_eq!(iter.next(), Some((Board(1 << 48), Square(48))));
    assert_eq!(iter.next(), None);
}

#[test]
fn rotate_left() {
    let b = Board(0x0000_0000_0000_0001);
    assert_eq!(b.rotate_left(1), Board(0x0000_0000_0000_0002));
    assert_eq!(b.rotate_left(8), Board(0x0000_0000_0000_0100));
    assert_eq!(b.rotate_left(56), Board(0x0100_0000_0000_0000));
}

#[test]
fn board_count_and_square() {
    assert_eq!(Board(0x0001_0002_0004_0008).occupied(), 4);
    assert_eq!(Board(0x0000_0000_0000_0100).to_square(), Square(8));
    assert_eq!(squares_of(Board(0x8000_0000_0000_0001)), vec![0, 63]);
}

#[test]
fn ray_attacks_stop_at_blockers() {
    // a rook on d4 with blockers on d6 and b4
    let rook = Board::new(Square(27));
    let occupied = Board((1u64 << 43) | (1u64 << 25) | (1u64 << 27));
    let attacks = rook.straight_attacks(occupied);
    assert_eq!(squares_of(attacks), vec![3, 11, 19, 25, 26, 28, 29, 30, 31, 35, 43]);
    // a bishop on c1 on an empty board
    let bishop = Board::new(Square(2));
    assert_eq!(squares_of(bishop.diagonal_attacks(Board(1u64 << 2))), vec![9, 11, 16, 20, 29, 38, 47]);
}

#[test]
fn leaper_attacks() {
    assert_eq!(squares_of(Board::new(Square(0)).knight_attacks()), vec![10, 17]);
    assert_eq!(squares_of(Board::new(Square(0)).king_attacks()), vec![1, 8, 9]);
    assert_eq!(squares_of(Square(27).between(Square(63))), vec![36, 45, 54]);
}

#[test]
fn board_text_marks_squares() {
    let text = Board(0x0000_0000_0000_0001).to_text();
    let lines: Vec<&str> = text.split('\n').collect();
    assert_eq!(lines[0], "    A   B   C   D   E   F   G   H");
    assert_eq!(lines[1], "  ┌───┬───┬───┬───┬───┬───┬───┬───┐");
    assert_eq!(lines[2], "8 │   │   │   │   │   │   │   │   │");
    assert_eq!(lines[16], "1 │ X │   │   │   │   │   │   │   │");
    assert_eq!(lines[17], "  └───┴───┴───┴───┴───┴───┴───┴───┘");
}

#[test]
fn grid_marks_hovered_and_selected() {
    let cells = [' '; 64];
    let text = mick::utils::grid_to_string(&cells, Some(Square(0)), Some(Square(9)));
    let lines: Vec<&str> = text.split('\n').collect();
    assert_eq!(lines[14], "2 │   │< >│   │   │   │   │   │   │");
    assert_eq!(lines[15], "  ┢━━━╅───┼───┼───┼───┼───┼───┼───┤");
    assert_eq!(lines[16], "1 ┃   ┃   │   │   │   │   │   │   │");
    assert_eq!(lines[17], "  ┗━━━┹───┴───┴───┴───┴───┴───┴───┘");
}
