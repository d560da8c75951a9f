use mick::board::Board;
use mick::castle::CastlingRights;
use mick::evaluate::{DrawReason, Evaluation};
use mick::move_list::MoveCounter;
use mick::moves::Move;
use mick::piece::{Piece, PieceKind};
use mick::position::{Position, STARTING_POSITION_FEN};
use mick::search::{perft, perft_admits, perft_inner};
use mick::side::Side;
use mick::square::Square;

const ALL_RIGHTS: CastlingRights = CastlingRights(0b1111);
const WHITE: Side = Side(0);
const BLACK: Side = Side(1);
const NULL_PIECE: Piece = Piece(12);

#[test]
fn parses_fen_starting_position() {
    let p = Position::from_fen(STARTING_POSITION_FEN);
    let pieces = [
        Piece(4), Piece(8), Piece(6), Piece(2), Piece(0), Piece(6), Piece(8), Piece(4),
        Piece(10), Piece(10), Piece(10), Piece(10), Piece(10), Piece(10), Piece(10), Piece(10),
    ];
    for i in 0..16u8 {
        assert_eq!(p.at(Square(i)), pieces[i as usize]);
        assert_eq!(p.at(Square(56 + (i % 8) - 8 * (i / 8))), Piece(pieces[i as usize].0 + 1));
    }
    for i in 16..48u8 {
        assert_eq!(p.at(Square(i)), NULL_PIECE);
    }
    let boards = [
        Board(0x0000_0000_0000_0010),
        Board(0x1000_0000_0000_0000),
        Board(0x0000_0000_0000_0008),
        Board(0x0800_0000_0000_0000),
        Board(0x0000_0000_0000_0081),
        Board(0x8100_0000_0000_0000),
        Board(0x0000_0000_0000_0024),
        Board(0x2400_0000_0000_0000),
        Board(0x0000_0000_0000_0042),
        Board(0x4200_0000_0000_0000),
        Board(0x0000_0000_0000_FF00),
        Board(0x00FF_0000_0000_0000),
    ];
    for i in 0..12u8 {
        assert_eq!(p.piece(Piece(i)), boards[i as usize]);
    }
    assert_eq!(p.side(WHITE), Board(0x0000_0000_0000_FFFF));
    assert_eq!(p.side(BLACK), Board(0xFFFF_0000_0000_0000));
    assert_eq!(p.state().side_to_move, WHITE);
    assert_eq!(p.state().castling_rights, ALL_RIGHTS);
    assert_eq!(p.state().en_passant_target, None);
    assert_eq!(p.state().halfmove_clock, 0);
    assert_eq!(p.state().fullmove_number, 1);
    assert_eq!(p.state().prev_hashes, None);
    assert_eq!(p.hash(), 1307476362392126559);
}

#[test]
fn fen_round_trip() {
    for fen in [
        STARTING_POSITION_FEN,
        "8/8/8/Pp6/8/8/8/K7 w - b6 0 1",
        "r3k2r/8/8/8/8/8/8/R3K2R b Kq - 12 40",
    ] {
        assert_eq!(Position::from_fen(fen).to_fen(), fen);
    }
}

#[test]
fn fen_defaults_and_errors() {
    let p = Position::from_fen("8/8/8/8/8/8/8/K6k");
    assert_eq!(p.to_fen(), "8/8/8/8/8/8/8/K6k w KQkq - 0 1");
    assert_eq!(Position::from_fen("8/8/8/8/8/8/8/K6k b - - - -").to_fen(), "8/8/8/8/8/8/8/K6k b - - 0 1");
    assert_eq!(Position::from_fen("8/8/8/8/8/8/8/K6k w - - +7 9").to_fen(), "8/8/8/8/8/8/8/K6k w - - 7 9");
    assert_eq!(
        Position::try_from_fen("8p/8/8/8/8/8/8/K6k w - - 0 1"),
        Err(String::from("Too many pieces on row 8"))
    );
    assert_eq!(
        Position::try_from_fen("9p/8/8/8/8/8/8/K6k w - - 0 1"),
        Err(String::from("Invalid piece: 9"))
    );
    assert_eq!(
        Position::try_from_fen("8/8/8/8/8/8/8/K6x w - - 0 1"),
        Err(String::from("Invalid piece: x"))
    );
    assert_eq!(Position::try_from_fen("8/8/8/8/8/8/8/K6k x"), Err(String::from("Invalid side: x")));
    assert_eq!(
        Position::try_from_fen("8/8/8/8/8/8/8/K6k w KX"),
        Err(String::from("Invalid castling rights: X"))
    );
    assert_eq!(Position::try_from_fen("8/8/8/8/8/8/8/K6k w - z9"), Err(String::from("Invalid file: z9")));
    assert_eq!(
        Position::try_from_fen("8/8/8/8/8/8/8/K6k w - - x"),
        Err(String::from("invalid digit found in string"))
    );
    assert_eq!(
        Position::try_from_fen("8/8/8/8/8/8/8/K6k w - - 0 99999999999"),
        Err(String::from("number too large to fit in target type"))
    );
    assert_eq!(
        Position::try_from_fen("8/8/8/8/8/8/8/K6k w - - 0 "),
        Err(String::from("cannot parse integer from empty string"))
    );
}

#[test]
fn evaluates_positions() {
    let judge = |fen: &str| {
        let p = Position::from_fen(fen);
        let (moves, check) = p.legal_moves_vec();
        p.evaluate(moves.len(), check)
    };
    assert_eq!(judge(STARTING_POSITION_FEN), Evaluation::Ongoing(0));
    // the side to move is mated: the evaluation names it
    assert_eq!(
        judge("rnb1kbnr/pppp1ppp/8/4p3/6Pq/5P2/PPPPP2P/RNBQKBNR w KQkq - 1 3"),
        Evaluation::Win(WHITE)
    );
    assert_eq!(judge("7k/5Q2/6K1/8/8/8/8/8 b - - 0 1"), Evaluation::Draw(DrawReason::Stalemate));
    assert_eq!(judge("7k/8/8/8/8/8/8/K7 w - - 0 1"), Evaluation::Draw(DrawReason::InsufficientMaterial));
    assert_eq!(judge("7k/8/8/8/8/8/8/KB6 w - - 0 1"), Evaluation::Draw(DrawReason::InsufficientMaterial));
    assert_eq!(judge("7k/8/8/8/8/8/8/KN6 w - - 0 1"), Evaluation::Draw(DrawReason::InsufficientMaterial));
    assert_eq!(judge("6bk/8/8/8/8/8/8/KB6 w - - 0 1"), Evaluation::Draw(DrawReason::InsufficientMaterial));
    assert_eq!(judge("5b1k/8/8/8/8/8/8/KB6 w - - 0 1"), Evaluation::Ongoing(0));
    assert_eq!(judge("7k/8/8/8/8/8/8/KR6 w - - 50 80"), Evaluation::Draw(DrawReason::FiftyMoveRule));
    assert_eq!(judge("7k/p7/8/8/8/8/8/KR6 w - - 0 1"), Evaluation::Ongoing(400));
}

#[test]
fn evaluation_scores() {
    assert_eq!(Evaluation::Win(WHITE).to_score(), i32::MAX);
    assert_eq!(Evaluation::Win(BLACK).to_score(), -i32::MAX);
    assert_eq!(Evaluation::Draw(DrawReason::Stalemate).to_score(), 0);
    assert_eq!(Evaluation::Ongoing(-300).to_score(), -300);
    assert!(Evaluation::Draw(DrawReason::FiftyMoveRule).is_terminal());
    assert!(!Evaluation::Ongoing(5).is_terminal());
    assert_eq!(DrawReason::ThreefoldRepetition.to_text(), "Repetition of moves");
}

#[test]
fn repetition_is_a_draw() {
    let mut p = Position::from_fen("7k/8/8/8/8/8/8/KR6 w - - 0 1");
    p.state_mut().track_hashes();
    assert_eq!(p.state().prev_hashes, Some(vec![]));
    let hash = p.hash();
    p.state_mut().prev_hashes = Some(vec![hash, 1, hash, 2]);
    let (moves, check) = p.legal_moves_vec();
    assert_eq!(p.evaluate(moves.len(), check), Evaluation::Draw(DrawReason::ThreefoldRepetition));
    p.state_mut().prev_hashes = Some(vec![hash, 1, 2, 3]);
    assert_eq!(p.evaluate(moves.len(), check), Evaluation::Ongoing(500));
}

#[test]
fn p() {
    let expected = [20u64, 400, 8902, 197281, 4865609];
    for (i, count) in expected.iter().enumerate() {
        let mut position = Position::from_fen(STARTING_POSITION_FEN);
        assert_eq!(perft(&mut position, i + 1).0, *count);
    }
}

#[test]
fn checks_what_counting_and_searching_need() {
    let mut p = Position::from_fen(STARTING_POSITION_FEN);
    assert!(!perft_admits(&mut p, 0));
    assert!(perft_admits(&mut p, 1));
    assert!(perft_admits(&mut p, 3));
    assert_eq!(p, Position::from_fen(STARTING_POSITION_FEN));
    let mut no_king = Position::from_fen("8/8/8/8/8/8/8/K7 w - - 0 1");
    assert!(!perft_admits(&mut no_king, 1));
    assert_eq!(no_king.try_alphabeta(1, i32::MIN, i32::MAX), None);
    let expected = p.alphabeta(2, i32::MIN, i32::MAX);
    assert_eq!(p.try_alphabeta(2, i32::MIN, i32::MAX), Some(expected));
}

#[test]
fn counts_positions_ahead() {
    let mut p = Position::from_fen(STARTING_POSITION_FEN);
    assert_eq!(perft_inner(&mut p, 1), 20);
    assert_eq!(perft_inner(&mut p, 2), 400);
    assert_eq!(perft_inner(&mut p, 3), 8902);
    let (total, lines) = perft(&mut p, 2);
    assert_eq!(total, 400);
    assert_eq!(lines.len(), 20);
    assert!(lines.iter().all(|(_, count)| *count == 20));
    assert_eq!(perft(&mut p, 0), (1, vec![]));
    let (total, lines) = perft(&mut p, 1);
    assert_eq!(total, 20);
    assert_eq!(lines.len(), 20);
    assert!(lines.iter().all(|(_, count)| *count == 1));
    assert_eq!(p, Position::from_fen(STARTING_POSITION_FEN));
}

#[test]
fn counts_positions_ahead_deeper() {
    let mut p = Position::from_fen(STARTING_POSITION_FEN);
    assert_eq!(perft(&mut p, 4).0, 197281);
    let mut kiwipete =
        Position::from_fen("r3k2r/p1ppqpb1/bn2pnp1/3PN3/1p2P3/2N2Q1p/PPPBBPPP/R3K2R w KQkq - 0 1");
    assert_eq!(perft_inner(&mut kiwipete, 1), 48);
    assert_eq!(perft_inner(&mut kiwipete, 2), 2039);
}

#[test]
fn counter_tallies_kinds_of_moves() {
    let kiwipete =
        Position::from_fen("r3k2r/p1ppqpb1/bn2pnp1/3PN3/1p2P3/2N2Q1p/PPPBBPPP/R3K2R w KQkq - 0 1");
    let mut counter = MoveCounter::new();
    kiwipete.legal_moves(&mut counter);
    assert_eq!(
        (counter.moves, counter.captures, counter.castles, counter.promotions, counter.ep_captures),
        (48, 8, 2, 0, 0)
    );

    let p = Position::from_fen("r3k3/1P6/8/3pP3/8/8/8/4K3 w - d6 0 1");
    let mut counter = MoveCounter::new();
    p.legal_moves(&mut counter);
    assert_eq!(
        (counter.moves, counter.captures, counter.castles, counter.promotions, counter.ep_captures),
        (15, 5, 0, 8, 1)
    );
}

#[test]
fn generated_moves_can_be_made() {
    let fens = [
        STARTING_POSITION_FEN,
        "r3k2r/p1ppqpb1/bn2pnp1/3PN3/1p2P3/2N2Q1p/PPPBBPPP/R3K2R w KQkq - 0 1",
        "r3k2r/p1ppqpb1/bn2pnp1/3PN3/Pp2P3/2N2Q1p/1PPBBPPP/R3K2R b KQkq a3 0 1",
        "r3k3/1P6/8/3pP3/8/8/8/4K3 w - d6 0 1",
        "8/2p5/3p4/KP5r/1R3p1k/8/4P1P1/8 w - - 0 1",
    ];
    for fen in fens {
        let p = Position::from_fen(fen);
        let (moves, _) = p.legal_moves_vec();
        for m in moves.iter() {
            assert!(p.can_play(*m), "{} in {}", m.to_text(), fen);
        }
    }
}

#[test]
fn generated_moves_keep_both_kings_and_take_the_other_side() {
    let fens = [
        STARTING_POSITION_FEN,
        "r3k2r/p1ppqpb1/bn2pnp1/3PN3/1p2P3/2N2Q1p/PPPBBPPP/R3K2R w KQkq - 0 1",
        "r3k2r/p1ppqpb1/bn2pnp1/3PN3/Pp2P3/2N2Q1p/1PPBBPPP/R3K2R b KQkq a3 0 1",
        "r3k3/1P6/8/3pP3/8/8/8/4K3 w - d6 0 1",
    ];
    for fen in fens {
        let p = Position::from_fen(fen);
        let side = p.state().side_to_move;
        let (moves, _) = p.legal_moves_vec();
        for m in moves.iter() {
            if m.is_capture() && !m.is_en_passant_capture() {
                let taken = p.at(m.to());
                assert!(taken.0 < 12 && taken.0 % 2 != side.0, "{} in {}", m.to_text(), fen);
            }
            let mut q = p.clone();
            q.make(*m);
            assert!(q.has_both_kings(), "{} in {}", m.to_text(), fen);
        }
    }
}

#[test]
fn searches_best_line() {
    let mut p = Position::from_fen(STARTING_POSITION_FEN);
    let (score, line, nodes) = p.alphabeta(1, i32::MIN, i32::MAX);
    assert_eq!(score, 0);
    assert_eq!(line, vec![Move(1, 16)]);
    assert_eq!(nodes, 21);
    // a free rook is taken
    let mut q = Position::from_fen("7k/8/8/8/8/8/r7/K7 w - - 0 1");
    let (score, line, _) = q.alphabeta(2, i32::MIN, i32::MAX);
    assert_eq!(line.last(), Some(&Move::new_capture(Square(0), Square(8))));
    assert_eq!(score, 0);
    assert_eq!(q, Position::from_fen("7k/8/8/8/8/8/r7/K7 w - - 0 1"));
}

#[test]
fn position_text_lists_properties() {
    let p = Position::from_fen(STARTING_POSITION_FEN);
    let text = p.to_text();
    let lines: Vec<&str> = text.split('\n').collect();
    assert_eq!(lines[2], "8 │ r │ n │ b │ q │ k │ b │ n │ r │     side to move: w");
    assert_eq!(lines[4], "7 │ p │ p │ p │ p │ p │ p │ p │ p │  castling rights: KQkq");
    assert_eq!(lines[8], "5 │   │   │   │   │   │   │   │   │  half-move clock: 0");
    assert_eq!(lines[10], "4 │   │   │   │   │   │   │   │   │ full-move number: 1");
    assert_eq!(
        lines[12],
        "3 │   │   │   │   │   │   │   │   │              FEN: rnbqkbnr/pppppppp/8/8/8/8/PPPPPPPP/RNBQKBNR w KQkq - 0 1"
    );
    assert_eq!(lines[14], "2 │ P │ P │ P │ P │ P │ P │ P │ P │             hash: 122516D3049A445F");
    assert_eq!(lines[16], "1 │ R │ N │ B │ Q │ K │ B │ N │ R │");
}

#[test]
fn move_list_text() {
    let p = Position::from_fen("7k/8/8/8/8/8/8/K7 w - - 0 1");
    let (moves, _) = p.legal_moves_vec();
    assert_eq!(moves.to_text(), "a1b1, a1a2, a1b2");
    assert_eq!(Move::new_castle(Square(4), Square(2), mick::castle::Castle(1)).to_text(), "O-O-O");
    assert_eq!(Move::new_capture_en_passant(Square(32), Square(41)).to_text(), "a5xb6e.p.");
}

#[test]
fn playable_moves_and_kings() {
    let p = Position::from_fen(STARTING_POSITION_FEN);
    assert!(p.can_play(Move::new_push(Square(12), Square(28))));
    assert!(!p.can_play(Move::new_push(Square(28), Square(36))));
    assert!(p.can_play(Move::new_push(Square(52), Square(44))));
    let q = Position::from_fen("k7/8/8/8/8/8/p7/7K w - - 0 1");
    assert!(!q.can_play(Move::new_push_promotion(Square(8), Square(0), PieceKind(1))));
    assert!(p.has_both_kings());
    assert!(!Position::from_fen("8/8/8/8/8/8/8/K7 w - - 0 1").has_both_kings());
}
