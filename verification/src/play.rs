//! The decisions of a game played on the terminal against a program that
//! answers with random moves: moving the hovered square, selecting a piece
//! and a target, making a move and judging the result. Reading keys,
//! drawing and waiting for the answer are left to the caller.
use vstd::prelude::*;
use crate::evaluate::Evaluation;
use crate::legal_moves::has_kings;
use crate::move_list::{MoveVec, FindMoveResult, matching};
use crate::moves::Move;
use crate::position::{Position, model, next_model};
use crate::search::{rep, moves_of, eval_of, playable, lemma_rep};
use crate::side::Side;
use crate::square::Square;
use crate::utils::{grid_text, grid_to_string_with_props};
use crate::piece::{piece_symbol, NULL_PIECE, Piece};
use crate::position::{State, StateView};
use crate::castle::CastlingRights;
use crate::legal_moves::legal_move_seq;

verus! {

/// Where the game stands for the player: waiting for a move (a square of
/// it perhaps selected), waiting for the answer, or over.
#[derive(Clone, Copy, Debug, PartialEq, Eq, Structural)]
pub enum Phase {
    Waiting(Option<Square>),
    Thinking,
    Terminal,
}

/// The direction of an arrow key.
#[derive(Clone, Copy, Debug, PartialEq, Eq, Structural)]
pub enum Arrow {
    Up,
    Down,
    Left,
    Right,
}

/// What pressing the select key asks for: nothing, a new drawing, making a
/// move, or choosing one of the four promotions of a move.
#[derive(Clone, Copy, Debug)]
pub enum Selection {
    Ignored,
    Redraw,
    Play(Move),
    Promote([Move; 4]),
}

/// A game: the side of the player, the position, the legal moves of the
/// player, the hovered square and the phase.
pub struct Game {
    pub side: Side,
    pub position: Position,
    pub legal_moves: MoveVec,
    pub square: Option<Square>,
    pub phase: Phase,
}

/// Whether a step towards `arrow` from `s` stays on the board.
pub open spec fn can_step(arrow: Arrow, s: Square) -> bool {
    match arrow {
        Arrow::Up => s.0 / 8 < 7,
        Arrow::Down => s.0 / 8 > 0,
        Arrow::Left => s.0 % 8 > 0,
        Arrow::Right => s.0 % 8 < 7,
    }
}

/// The square one step towards `arrow` from `s`.
pub open spec fn step(arrow: Arrow, s: Square) -> Square {
    match arrow {
        Arrow::Up => Square((s.0 + 8) as u8),
        Arrow::Down => Square((s.0 - 8) as u8),
        Arrow::Left => Square((s.0 - 1) as u8),
        Arrow::Right => Square((s.0 + 1) as u8),
    }
}

/// The cells of the grid `g` drawn by the symbols of their pieces.
pub open spec fn symbol_cells(g: Seq<crate::piece::Piece>) -> Seq<char> {
    Seq::new(64, |i: int| if g[i].0 < 12 { piece_symbol(g[i].0 as int) } else { ' ' })
}

/// The square selected in `phase`, if any.
pub open spec fn selected_of(phase: Phase) -> Option<Square> {
    match phase {
        Phase::Waiting(from) => from,
        _ => None,
    }
}

/// The piece on the hovered square `s` of `g` is the player's target: no
/// piece, or a piece of the opponent of `side`.
pub open spec fn is_target(g: Game, s: Square) -> bool {
    let piece = g.position.grid()[s.0 as int];
    piece.0 == 12 || piece.0 % 2 != g.side.0
}

/// The hovered square of `g` moves one step towards `arrow`: the game is
/// not over and the step stays on the board.
pub open spec fn cursor_moves(g: Game, arrow: Arrow) -> bool {
    g.phase != Phase::Terminal && match g.square {
        Some(s) => can_step(arrow, s),
        None => false,
    }
}

/// Looking up the move between the selected and the hovered square of `g`,
/// when selecting would do so, finds no move, one move or four promotions.
pub open spec fn findable(g: Game) -> bool {
    match (g.phase, g.square) {
        (Phase::Waiting(Some(from)), Some(s)) => (from != s && is_target(g, s)) ==> (matching(
            g.legal_moves.view(),
            from.0,
            s.0,
        ).len() <= 1 || matching(g.legal_moves.view(), from.0, s.0).len() == 4),
        _ => true,
    }
}

/// The phase and request after pressing the select key in `g`: nothing when
/// the player is not to move or no square is hovered; a hovered square that
/// is selected is unselected; a target square with a selected square makes
/// the move between them, or asks for the promotion; a square of the
/// player's own piece (or any square when none is selected and the square
/// reads as the player's side) is selected.
pub open spec fn select_spec(g: Game) -> (Phase, Selection) {
    if g.position.state_spec().side_to_move != g.side {
        (g.phase, Selection::Ignored)
    } else {
        match g.square {
            None => (g.phase, Selection::Ignored),
            Some(s) => {
                let piece = g.position.grid()[s.0 as int];
                match g.phase {
                    Phase::Waiting(Some(from)) => {
                        if from == s {
                            (Phase::Waiting(None), Selection::Redraw)
                        } else if is_target(g, s) {
                            let ms = matching(g.legal_moves.view(), from.0, s.0);
                            if ms.len() == 1 {
                                (g.phase, Selection::Play(ms[0]))
                            } else if ms.len() == 4 {
                                (g.phase, Selection::Promote([ms[0], ms[1], ms[2], ms[3]]))
                            } else {
                                (g.phase, Selection::Redraw)
                            }
                        } else {
                            (Phase::Waiting(Some(s)), Selection::Redraw)
                        }
                    },
                    _ => if piece.0 % 2 == g.side.0 {
                        (Phase::Waiting(Some(s)), Selection::Redraw)
                    } else {
                        (g.phase, Selection::Redraw)
                    },
                }
            },
        }
    }
}

/// When it is the player's turn and a square is selected, pressing select
/// on another square holding a piece of the player selects that square
/// instead.
pub proof fn law_select_own_piece_reselects(g: Game, from: Square, s: Square)
    requires
        g.position.state_spec().side_to_move == g.side,
        g.phase == Phase::Waiting(Some(from)),
        g.square == Some(s),
        from != s,
        g.position.grid()[s.0 as int].0 < 12,
        g.position.grid()[s.0 as int].0 % 2 == g.side.0,
    ensures
        select_spec(g).0 == Phase::Waiting(Some(s)),
        select_spec(g).1 is Redraw,
{
}

/// When it is the player's turn and nothing is selected, pressing select on
/// a square holding a piece of the player selects it; pressing select on the
/// selected square clears the selection.
pub proof fn law_select_and_unselect(g: Game, s: Square)
    requires
        g.position.state_spec().side_to_move == g.side,
        g.square == Some(s),
    ensures
        g.phase == Phase::Waiting(None) && g.position.grid()[s.0 as int].0 < 12 && g.position.grid()[s.0 as int].0
            % 2 == g.side.0 ==> select_spec(g).0 == Phase::Waiting(Some(s)),
        g.phase == Phase::Waiting(Some(s)) ==> select_spec(g).0 == Phase::Waiting(None),
{
}

proof fn lemma_matching(ms: Seq<Move>, from: u8, to: u8)
    ensures
        forall|i: int|
            0 <= i < matching(ms, from, to).len() ==> (#[trigger] matching(ms, from, to)[i]).0 & 63 == from
                && matching(ms, from, to)[i].1 & 63 == to && ms.contains(matching(ms, from, to)[i]),
    decreases ms.len(),
{
    if ms.len() > 0 {
        lemma_matching(ms.drop_last(), from, to);
        let rest = matching(ms.drop_last(), from, to);
        assert forall|i: int| 0 <= i < rest.len() implies ms.contains(#[trigger] rest[i]) by {
            let j = choose|j: int| 0 <= j < ms.drop_last().len() && ms.drop_last()[j] == rest[i];
            assert(ms[j] == rest[i]);
        }
        assert(ms[ms.len() - 1] == ms.last());
    }
}

/// When it is the player's turn and a square is selected, pressing select
/// on an empty square or a piece of the opponent keeps the selection, and
/// a move it plays is a legal move from the selected square to that square
/// (as are the four moves it offers to promote).
pub proof fn law_select_target_plays_a_matching_move(g: Game, from: Square, s: Square)
    requires
        g.position.state_spec().side_to_move == g.side,
        g.phase == Phase::Waiting(Some(from)),
        g.square == Some(s),
        from != s,
        is_target(g, s),
    ensures
        select_spec(g).0 == g.phase,
        select_spec(g).1 matches Selection::Play(m) ==> g.legal_moves.view().contains(m) && m.0 & 63 == from.0 && m.1
            & 63 == s.0,
        select_spec(g).1 matches Selection::Promote(ps) ==> forall|i: int|
            0 <= i < 4 ==> g.legal_moves.view().contains(#[trigger] ps[i]) && ps[i].0 & 63 == from.0 && ps[i].1 & 63 == s.0,
        select_spec(g).1 is Redraw ==> matching(g.legal_moves.view(), from.0, s.0).len() != 1,
{
    let ms = matching(g.legal_moves.view(), from.0, s.0);
    lemma_matching(g.legal_moves.view(), from.0, s.0);
    if ms.len() == 4 {
        let ps = [ms[0], ms[1], ms[2], ms[3]];
        assert forall|i: int| 0 <= i < 4 implies g.legal_moves.view().contains(#[trigger] ps[i]) && ps[i].0 & 63
            == from.0 && ps[i].1 & 63 == s.0 by {
            if i == 0 {
                assert(ps[i] == ms[0]);
            } else if i == 1 {
                assert(ps[i] == ms[1]);
            } else if i == 2 {
                assert(ps[i] == ms[2]);
            } else {
                assert(ps[i] == ms[3]);
            }
        }
    }
    if ms.len() == 1 {
        assert(ms[0] == ms[0]);
    }
}

/// The pieces at the start of a game, from a1 to h8.
pub open spec fn start_grid() -> Seq<Piece> {
    Seq::new(
        64,
        |i: int|
            if i < 8 {
                Piece(seq![4u8, 8, 6, 2, 0, 6, 8, 4][i])
            } else if i < 16 {
                Piece(10)
            } else if i < 48 {
                Piece(12)
            } else if i < 56 {
                Piece(11)
            } else {
                Piece(seq![5u8, 9, 7, 3, 1, 7, 9, 5][i - 56])
            },
    )
}

/// The state at the start of a game: white to move, all castling rights,
/// no en-passant target, clocks at zero and one, no earlier hashes.
pub open spec fn start_state() -> StateView {
    StateView {
        side_to_move: Side(0),
        castling_rights: CastlingRights(15),
        en_passant_target: None,
        halfmove_clock: 0,
        fullmove_number: 1,
        prev_hashes: None,
    }
}

/// The starting position, with both kings on the board.
pub fn starting_position() -> (r: Position)
    ensures
        r.wf(),
        r.grid() == start_grid(),
        r.state_spec()@ == start_state(),
        has_kings(r),
{
    let w: [Piece; 8] = [Piece(4), Piece(8), Piece(6), Piece(2), Piece(0), Piece(6), Piece(8), Piece(4)];
    let b: [Piece; 8] = [Piece(5), Piece(9), Piece(7), Piece(3), Piece(1), Piece(7), Piece(9), Piece(5)];
    let mut pieces = [Piece(12); 64];
    let mut i: usize = 0;
    while i < 64
        invariant
            i <= 64,
            w@ == seq![Piece(4), Piece(8), Piece(6), Piece(2), Piece(0), Piece(6), Piece(8), Piece(4)],
            b@ == seq![Piece(5), Piece(9), Piece(7), Piece(3), Piece(1), Piece(7), Piece(9), Piece(5)],
            forall|j: int| 0 <= j < i ==> #[trigger] pieces@[j] == start_grid()[j],
            forall|j: int| 0 <= j < 64 ==> #[trigger] pieces@[j].0 <= 12,
        decreases 64 - i,
    {
        let p = if i < 8 {
            w[i]
        } else if i < 16 {
            Piece(10)
        } else if i < 48 {
            Piece(12)
        } else if i < 56 {
            Piece(11)
        } else {
            b[i - 56]
        };
        pieces[i] = p;
        i = i + 1;
    }
    let state = State {
        side_to_move: Side(0),
        castling_rights: CastlingRights(15),
        en_passant_target: None,
        halfmove_clock: 0,
        fullmove_number: 1,
        prev_hashes: None,
    };
    let position = Position::new(pieces, state);
    proof {
        assert(pieces@ =~= start_grid());
        crate::position::lemma_board_bits(&position);
        assert(crate::bits::bit(position.piece_board(0).0, 4));
        assert(crate::bits::bit(position.piece_board(1).0, 60));
        assert(position.piece_board(0).0 != 0) by {
            crate::bits::lemma_bit_and(0, 0, 4);
        }
        assert(position.piece_board(1).0 != 0) by {
            crate::bits::lemma_bit_and(0, 0, 60);
        }
    }
    position
}

impl Game {
    /// A new game from the starting position, the player on `side`, the
    /// hovered square a1 and nothing selected.
    pub fn new(side: Side) -> (r: Game)
        requires
            side.valid(),
        ensures
            r.wf(),
            r.side == side,
            r.position.grid() == start_grid(),
            r.position.state_spec()@ == start_state(),
            r.legal_moves.view() == legal_move_seq(r.position),
            r.square == Some(Square(0)),
            r.phase == Phase::Waiting(None),
    {
        let position = starting_position();
        let legal_moves = position.legal_moves_vec().0;
        Game { side, position, legal_moves, square: Some(Square(0)), phase: Phase::Waiting(None) }
    }

    /// The player's side is white or black, the position is well formed
    /// and the hovered square is on the board.
    pub open spec fn wf(&self) -> bool {
        &&& self.side.valid()
        &&& self.position.wf()
        &&& (self.square matches Some(s) ==> s.0 < 64)
        &&& (self.phase matches Phase::Waiting(Some(s)) ==> s.0 < 64)
    }

    /// Moves the hovered square one step towards `arrow` unless the game is
    /// over or the step would leave the board; returns whether it moved.
    pub fn move_cursor(&mut self, arrow: Arrow) -> (r: bool)
        requires
            old(self).wf(),
        ensures
            final(self).wf(),
            r == cursor_moves(*old(self), arrow),
            final(self).square == (if r { Some(step(arrow, old(self).square->0)) } else { old(self).square }),
            final(self).side == old(self).side,
            final(self).position == old(self).position,
            final(self).legal_moves == old(self).legal_moves,
            final(self).phase == old(self).phase,
    {
        if self.phase == Phase::Terminal {
            return false;
        }
        if let Some(s) = self.square {
            let moved = match arrow {
                Arrow::Up => if s.rank_index() < 7 { Some(Square(s.0 + 8)) } else { None },
                Arrow::Down => if s.rank_index() > 0 { Some(Square(s.0 - 8)) } else { None },
                Arrow::Left => if s.file_index() > 0 { Some(Square(s.0 - 1)) } else { None },
                Arrow::Right => if s.file_index() < 7 { Some(Square(s.0 + 1)) } else { None },
            };
            if let Some(t) = moved {
                self.square = Some(t);
                return true;
            }
        }
        false
    }

    /// Handles the select key (see `select_spec`).
    pub fn select_square(&mut self) -> (r: Selection)
        requires
            old(self).wf(),
            findable(*old(self)),
        ensures
            final(self).wf(),
            (final(self).phase, r) == select_spec(*old(self)),
            final(self).side == old(self).side,
            final(self).position == old(self).position,
            final(self).legal_moves == old(self).legal_moves,
            final(self).square == old(self).square,
    {
        if self.position.state().side_to_move != self.side {
            return Selection::Ignored;
        }
        match self.square {
            None => Selection::Ignored,
            Some(s) => {
                let piece = self.position.at(s);
                let own = piece.side().0 == self.side.0;
                match self.phase {
                    Phase::Waiting(Some(from)) => {
                        if from == s {
                            self.phase = Phase::Waiting(None);
                            Selection::Redraw
                        } else if piece.0 == NULL_PIECE || !own {
                            match self.legal_moves.find(from, s) {
                                FindMoveResult::Nothing => Selection::Redraw,
                                FindMoveResult::Move(m) => Selection::Play(m),
                                FindMoveResult::Promotions(ms) => Selection::Promote(ms),
                            }
                        } else {
                            self.phase = Phase::Waiting(Some(s));
                            Selection::Redraw
                        }
                    },
                    _ => {
                        if own {
                            self.phase = Phase::Waiting(Some(s));
                        }
                        Selection::Redraw
                    },
                }
            },
        }
    }

    /// Makes the player's move `m`: the game is over when the evaluation of
    /// the new position is final, otherwise the program is thinking. Returns
    /// the evaluation and the legal moves of the program.
    pub fn make(&mut self, m: Move) -> (r: (Evaluation, MoveVec))
        requires
            old(self).wf(),
            playable(model(old(self).position), m),
            has_kings(rep(next_model(model(old(self).position), m))),
        ensures
            final(self).wf(),
            model(final(self).position) == next_model(model(old(self).position), m),
            r.0 == eval_of(next_model(model(old(self).position), m)),
            r.1.view() == moves_of(next_model(model(old(self).position), m)),
            final(self).phase == (if r.0 is Ongoing { Phase::Thinking } else { Phase::Terminal }),
            final(self).side == old(self).side,
            final(self).square == old(self).square,
            final(self).legal_moves == old(self).legal_moves,
    {
        let (evaluation, legal_moves) = self.play_move(m);
        if evaluation.is_terminal() {
            self.phase = Phase::Terminal;
        } else {
            self.phase = Phase::Thinking;
        }
        (evaluation, legal_moves)
    }

    /// Makes the program's move `m`: the game is over when the evaluation of
    /// the new position is final, otherwise the player waits to move with
    /// the new legal moves. Returns the evaluation.
    pub fn receive(&mut self, m: Move) -> (r: Evaluation)
        requires
            old(self).wf(),
            playable(model(old(self).position), m),
            has_kings(rep(next_model(model(old(self).position), m))),
        ensures
            final(self).wf(),
            model(final(self).position) == next_model(model(old(self).position), m),
            r == eval_of(next_model(model(old(self).position), m)),
            r is Ongoing ==> final(self).phase == Phase::Waiting(None) && final(self).legal_moves.view() == moves_of(
                next_model(model(old(self).position), m),
            ),
            !(r is Ongoing) ==> final(self).phase == Phase::Terminal && final(self).legal_moves == old(
                self,
            ).legal_moves,
            final(self).side == old(self).side,
            final(self).square == old(self).square,
    {
        let (evaluation, legal_moves) = self.play_move(m);
        if evaluation.is_terminal() {
            self.phase = Phase::Terminal;
        } else {
            self.phase = Phase::Waiting(None);
            self.legal_moves = legal_moves;
        }
        evaluation
    }

    /// Makes `m` and judges the new position; returns the evaluation and the
    /// legal moves there.
    fn play_move(&mut self, m: Move) -> (r: (Evaluation, MoveVec))
        requires
            old(self).wf(),
            playable(model(old(self).position), m),
            has_kings(rep(next_model(model(old(self).position), m))),
        ensures
            final(self).wf(),
            model(final(self).position) == next_model(model(old(self).position), m),
            r.0 == eval_of(next_model(model(old(self).position), m)),
            r.1.view() == moves_of(next_model(model(old(self).position), m)),
            final(self).side == old(self).side,
            final(self).square == old(self).square,
            final(self).legal_moves == old(self).legal_moves,
            final(self).phase == old(self).phase,
    {
        self.position.make(m);
        proof {
            lemma_rep(self.position);
        }
        let (legal_moves, is_in_check) = self.position.legal_moves_vec();
        let evaluation = self.position.evaluate(legal_moves.len(), is_in_check);
        (evaluation, legal_moves)
    }

    /// The board drawn with the pieces' symbols, the hovered square and the
    /// selected square, and `props` beside the ranks.
    pub fn board_text(&self, props: &Vec<(String, String)>) -> (r: String)
        requires
            self.wf(),
        ensures
            r@ == grid_text(
                symbol_cells(self.position.grid()),
                self.square,
                selected_of(self.phase),
                props@.map_values(|p: (String, String)| (p.0@, p.1@)),
            ),
    {
        proof {
            crate::position::lemma_grid_codes(&self.position);
        }
        let mut cells = [' '; 64];
        let mut i: usize = 0;
        while i < 64
            invariant
                i <= 64,
                self.position.grid().len() == 64,
                forall|j: int| 0 <= j < i ==> cells@[j] == symbol_cells(self.position.grid())[j],
            decreases 64 - i,
        {
            let symbol = self.position.at(Square(i as u8)).to_symbol();
            cells[i] = match symbol {
                Some(c) => c,
                None => ' ',
            };
            i = i + 1;
        }
        assert(cells@ =~= symbol_cells(self.position.grid()));
        let from = match self.phase {
            Phase::Waiting(from) => from,
            _ => None,
        };
        grid_to_string_with_props(&cells, self.square, from, props)
    }
}

} // verus!
