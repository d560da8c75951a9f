use mick::engine::{parse_command, position_for, Command};
use mick::moves::Move;
use mick::play::{starting_position, Arrow, Game, Phase, Selection};
use mick::position::{Position, STARTING_POSITION_FEN};
use mick::side::Side;
use mick::square::Square;

fn new_game(fen: &str) -> Game {
    let position = Position::from_fen(fen);
    let legal_moves = position.legal_moves_vec().0;
    Game { side: Side(0), position, legal_moves, square: Some(Square(0)), phase: Phase::Waiting(None) }
}

#[test]
fn reads_engine_commands() {
    assert!(matches!(parse_command("uci\n"), Command::Uci));
    assert!(matches!(parse_command("  isready "), Command::IsReady));
    assert!(matches!(parse_command("ucinewgame"), Command::UciNewGame));
    assert!(matches!(parse_command("quit"), Command::Quit));
    assert!(matches!(parse_command("stop"), Command::Stop));
    assert!(matches!(parse_command("d"), Command::Show));
    assert!(matches!(parse_command(""), Command::Nothing));
    assert!(matches!(parse_command("hello world"), Command::Nothing));
    match parse_command("position startpos moves e2e4 e7e5") {
        Command::Position(None, moves) => assert_eq!(moves, vec!["moves", "e2e4", "e7e5"]),
        other => panic!("unexpected {:?}", other),
    }
    match parse_command("position 8/8/8/8/8/8/8/K6k w - - 0 1 moves a1a2") {
        Command::Position(Some(fen), moves) => {
            assert_eq!(fen, "8/8/8/8/8/8/8/K6kw--01");
            assert_eq!(moves, vec!["a1a2"]);
        },
        other => panic!("unexpected {:?}", other),
    }
    match parse_command("position") {
        Command::Position(Some(fen), moves) => {
            assert_eq!(fen, "");
            assert!(moves.is_empty());
        },
        other => panic!("unexpected {:?}", other),
    }
    assert!(matches!(parse_command("go depth 4"), Command::Go(4)));
    assert!(matches!(parse_command("go depth 3 depth 5"), Command::Go(5)));
    assert!(matches!(parse_command("go depth x"), Command::Go(0)));
    assert!(matches!(parse_command("go depth 300"), Command::Go(0)));
    assert!(matches!(parse_command("go wtime 100 depth 3"), Command::Go(0)));
    assert!(matches!(parse_command("go\tdepth\u{3000}2"), Command::Go(2)));
}

#[test]
fn cursor_stays_on_board() {
    let mut game = new_game(STARTING_POSITION_FEN);
    assert!(!game.move_cursor(Arrow::Down));
    assert!(!game.move_cursor(Arrow::Left));
    assert!(game.move_cursor(Arrow::Up));
    assert!(game.move_cursor(Arrow::Right));
    assert_eq!(game.square, Some(Square(9)));
    game.phase = Phase::Terminal;
    assert!(!game.move_cursor(Arrow::Up));
    assert_eq!(game.square, Some(Square(9)));
}

#[test]
fn selects_and_plays_a_move() {
    let mut game = new_game(STARTING_POSITION_FEN);
    game.square = Some(Square(12));
    assert!(matches!(game.select_square(), Selection::Redraw));
    assert_eq!(game.phase, Phase::Waiting(Some(Square(12))));
    game.square = Some(Square(12));
    assert!(matches!(game.select_square(), Selection::Redraw));
    assert_eq!(game.phase, Phase::Waiting(None));
    assert!(matches!(game.select_square(), Selection::Redraw));
    game.square = Some(Square(28));
    match game.select_square() {
        Selection::Play(m) => {
            assert_eq!(m, Move(12, 28 | 0x40));
            let (evaluation, replies) = game.make(m);
            assert!(!evaluation.is_terminal());
            assert_eq!(replies.len(), 20);
            assert_eq!(game.phase, Phase::Thinking);
            let reply = replies.get(0);
            let answer = game.receive(reply);
            assert!(!answer.is_terminal());
            assert_eq!(game.phase, Phase::Waiting(None));
            assert_eq!(game.legal_moves.len(), game.position.legal_moves_vec().0.len());
        },
        other => panic!("unexpected {:?}", other),
    }
}

#[test]
fn offers_promotions() {
    let mut game = new_game("7k/1P6/8/8/8/8/8/K7 w - - 0 1");
    game.square = Some(Square(49));
    assert!(matches!(game.select_square(), Selection::Redraw));
    game.square = Some(Square(57));
    match game.select_square() {
        Selection::Promote(ms) => assert_eq!(ms.len(), 4),
        other => panic!("unexpected {:?}", other),
    }
}

#[test]
fn ignores_selection_out_of_turn() {
    let mut game = new_game("7k/8/8/8/8/8/8/K7 b - - 0 1");
    assert!(matches!(game.select_square(), Selection::Ignored));
    assert_eq!(game.phase, Phase::Waiting(None));
}

#[test]
fn game_board_shows_selection() {
    let mut game = new_game(STARTING_POSITION_FEN);
    game.square = Some(Square(12));
    game.select_square();
    let text = game.board_text(&vec![]);
    let lines: Vec<&str> = text.split('\n').collect();
    assert_eq!(lines[14], "2 │ ♙ │ ♙ │ ♙ │ ♙ ┃<♙>┃ ♙ │ ♙ │ ♙ │");
}

#[test]
fn new_game_starts_from_the_starting_position() {
    let game = Game::new(Side(1));
    assert_eq!(game.side, Side(1));
    assert_eq!(game.position, Position::from_fen(STARTING_POSITION_FEN));
    assert_eq!(game.legal_moves.len(), 20);
    assert_eq!(game.square, Some(Square(0)));
    assert_eq!(game.phase, Phase::Waiting(None));
    assert_eq!(starting_position(), Position::from_fen(STARTING_POSITION_FEN));
}

#[test]
fn position_command_sets_up_a_position() {
    let mut start = Position::from_fen(STARTING_POSITION_FEN);
    start.state_mut().track_hashes();
    assert_eq!(position_for(&None), start);
    assert_eq!(position_for(&Some(String::from("not a fen"))), start);
    let fen = "8/8/8/8/8/8/8/K6k w - - 0 1";
    let mut p = Position::from_fen(fen);
    p.state_mut().track_hashes();
    assert_eq!(position_for(&Some(String::from(fen))), p);
}

#[test]
fn messages_stand_beside_the_ranks() {
    let game = Game::new(Side(0));
    let text = game.board_text(&vec![(String::from("   Checkmate"), String::new())]);
    let line = text.lines().nth(2).unwrap();
    assert!(line.starts_with("8 "));
    assert!(line.ends_with("│    Checkmate"));
}
