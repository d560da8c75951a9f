//! A chess position: the piece on every square, the squares of every piece and
//! of every side as bitboards, the rest of the game state, and a hash.
use vstd::prelude::*;
use crate::bits::{bit, lemma_bit_and, lemma_bit_single_u8, lemma_bits_ext};
use crate::board::Board;
use crate::castle::{Castle, CastlingRights};
use crate::hash::{Zobrist, default_zobrist};
use crate::moves::Move;
use crate::piece::{PieceKind, PAWN};
use crate::piece::Piece;
use crate::side::Side;
use crate::square::{Square, single};

verus! {

pub const STARTING_POSITION_FEN: &'static str = "rnbqkbnr/pppppppp/8/8/8/8/PPPPPPPP/RNBQKBNR w KQkq - 0 1";

/// Everything about a position besides where the pieces stand.
#[derive(Clone, Debug, PartialEq)]
pub struct State {
    pub side_to_move: Side,
    pub castling_rights: CastlingRights,
    pub en_passant_target: Option<Square>,
    pub halfmove_clock: u32,
    pub fullmove_number: u32,
    /// In the order of moves played, meaning the last number in the list is the hash of the position one move prior
    pub prev_hashes: Option<Vec<u64>>,
}

/// The content of a state, the list of earlier hashes as a sequence.
pub struct StateView {
    pub side_to_move: Side,
    pub castling_rights: CastlingRights,
    pub en_passant_target: Option<Square>,
    pub halfmove_clock: u32,
    pub fullmove_number: u32,
    pub prev_hashes: Option<Seq<u64>>,
}

impl View for State {
    type V = StateView;

    open spec fn view(&self) -> StateView {
        StateView {
            side_to_move: self.side_to_move,
            castling_rights: self.castling_rights,
            en_passant_target: self.en_passant_target,
            halfmove_clock: self.halfmove_clock,
            fullmove_number: self.fullmove_number,
            prev_hashes: match self.prev_hashes {
                Some(v) => Some(v@),
                None => None,
            },
        }
    }
}

impl State {
    /// A state is sound when its side is white or black, its castling rights
    /// are four bits and its en-passant target is a square of the board.
    pub open spec fn sound(&self) -> bool {
        &&& self.side_to_move.valid()
        &&& self.castling_rights.0 < 16
        &&& (self.en_passant_target matches Some(sq) ==> sq.0 < 64)
    }

    /// Starts recording the hashes of earlier positions.
    pub fn track_hashes(&mut self)
        ensures
            old(self).prev_hashes is None ==> final(self)@.prev_hashes == Some(Seq::<u64>::empty()),
            old(self).prev_hashes is Some ==> final(self)@ == old(self)@,
            final(self)@.side_to_move == old(self)@.side_to_move,
            final(self)@.castling_rights == old(self)@.castling_rights,
            final(self)@.en_passant_target == old(self)@.en_passant_target,
            final(self)@.halfmove_clock == old(self)@.halfmove_clock,
            final(self)@.fullmove_number == old(self)@.fullmove_number,
    {
        if self.prev_hashes.is_none() {
            self.prev_hashes = Some(Vec::with_capacity(50));
        }
    }

    /// A copy of this state.
    pub fn copy(&self) -> (r: State)
        ensures
            r@ == self@,
    {
        let prev_hashes = match &self.prev_hashes {
            Some(v) => {
                let mut w: Vec<u64> = Vec::new();
                let mut i: usize = 0;
                while i < v.len()
                    invariant
                        i <= v.len(),
                        w@ == v@.subrange(0, i as int),
                    decreases v.len() - i,
                {
                    w.push(v[i]);
                    i = i + 1;
                    assert(w@ =~= v@.subrange(0, i as int));
                }
                assert(w@ =~= v@);
                Some(w)
            },
            None => None,
        };
        State {
            side_to_move: self.side_to_move,
            castling_rights: self.castling_rights,
            en_passant_target: self.en_passant_target,
            halfmove_clock: self.halfmove_clock,
            fullmove_number: self.fullmove_number,
            prev_hashes,
        }
    }
}

/// A position.
#[derive(Clone, Debug, PartialEq)]
pub struct Position {
    pieces: [Piece; 64],
    piece_boards: [Board; 12],
    side_boards: [Board; 2],
    state: State,
    hash: u64,
}

/// The grid `g` holds piece codes of at most 12 and the boards `pb` of the
/// pieces and `sb` of the sides hold exactly the squares of their pieces.
pub open spec fn boards_agree(g: Seq<Piece>, pb: Seq<Board>, sb: Seq<Board>) -> bool {
    &&& g.len() == 64
    &&& forall|i: int| 0 <= i < 64 ==> #[trigger] g[i].0 <= 12
    &&& forall|p: int, i: int|
        0 <= p < 12 && 0 <= i < 64 ==> (#[trigger] pb[p].contains(i) <==> g[i].0 == p)
    &&& forall|s: int, i: int|
        0 <= s < 2 && 0 <= i < 64 ==> (#[trigger] sb[s].contains(i) <==> (g[i].0 < 12 && g[i].0 % 2 == s))
}

impl Position {
    /// The piece on every square, `12` for none.
    pub closed spec fn grid(&self) -> Seq<Piece> {
        self.pieces@
    }

    /// The bitboard of each of the twelve pieces.
    pub closed spec fn piece_board(&self, p: int) -> Board {
        self.piece_boards@[p]
    }

    /// The bitboard of each side.
    pub closed spec fn side_board(&self, s: int) -> Board {
        self.side_boards@[s]
    }

    /// The state of the game.
    pub closed spec fn state_spec(&self) -> State {
        self.state
    }

    /// The hash held by this position.
    pub closed spec fn hash_spec(&self) -> u64 {
        self.hash
    }

    /// Every square holds a piece code of at most 12 (12 for none), the piece
    /// and side bitboards hold exactly the squares of their pieces, and the
    /// state is sound.
    pub open spec fn wf(&self) -> bool {
        &&& self.consistent()
        &&& self.state_spec().sound()
    }

    /// The grid holds piece codes of at most 12 and the bitboards hold
    /// exactly the squares of their pieces.
    pub closed spec fn consistent(&self) -> bool {
        boards_agree(self.pieces@, self.piece_boards@, self.side_boards@)
    }

    /// The piece on `sq`.
    pub fn at(&self, sq: Square) -> (r: Piece)
        requires
            sq.0 < 64,
        ensures
            r == self.grid()[sq.0 as int],
    {
        self.pieces[sq.0 as usize]
    }

    /// The squares no piece stands on.
    pub fn empty(&self) -> (r: Board)
        ensures
            r.0 == !(self.side_board(0).0 | self.side_board(1).0),
    {
        Board(!self.occupied().0)
    }

    /// The hash of this position.
    pub fn hash(&self) -> (r: u64)
        ensures
            r == self.hash_spec(),
    {
        self.hash
    }

    /// The position with the given pieces and state; its bitboards are those
    /// of the pieces and its hash is that of the default keys. It is
    /// well-formed when the state is sound.
    pub fn new(pieces: [Piece; 64], state: State) -> (r: Position)
        requires
            forall|i: int| 0 <= i < 64 ==> pieces[i].0 <= 12,
            state.castling_rights.0 < 16,
        ensures
            r.consistent(),
            state.sound() ==> r.wf(),
            r.grid() == pieces@,
            r.state_spec() == state,
            r.hash_spec() == default_zobrist().position_spec(
                pieces@,
                state.castling_rights.0,
                state.en_passant_target,
            ),
    {
        let mut piece_boards = [
            Board(0), Board(0), Board(0), Board(0), Board(0), Board(0), Board(0), Board(0), Board(0),
            Board(0), Board(0), Board(0),
        ];
        let mut side_boards = [Board(0), Board(0)];
        proof {
            assert forall|i: int| !bit(0, i) by {
                lemma_bit_and(0, 0, i);
            }
        }
        let mut k: usize = 0;
        while k < 64
            invariant
                k <= 64,
                forall|i: int| 0 <= i < 64 ==> pieces[i].0 <= 12,
                forall|p: int, i: int|
                    0 <= p < 12 && 0 <= i < 64 ==> (#[trigger] piece_boards@[p].contains(i) <==> (i < k && pieces@[i].0 == p)),
                forall|s: int, i: int|
                    0 <= s < 2 && 0 <= i < 64 ==> (#[trigger] side_boards@[s].contains(i) <==> (i < k && pieces@[i].0 < 12
                        && pieces@[i].0 % 2 == s)),
            decreases 64 - k,
        {
            let pc = pieces[k];
            if pc.is_some() {
                let mask = Board::new(Square(k as u8));
                let sd = pc.side();
                let ghost old_pb = piece_boards@;
                let ghost old_sb = side_boards@;
                side_boards[sd.0 as usize] = side_boards[sd.0 as usize] | mask;
                piece_boards[pc.0 as usize] = piece_boards[pc.0 as usize] | mask;
                proof {
                    assert(piece_boards@ == old_pb.update(pc.0 as int, Board(old_pb[pc.0 as int].0 | mask.0)));
                    assert(side_boards@ == old_sb.update(sd.0 as int, Board(old_sb[sd.0 as int].0 | mask.0)));
                    assert(pieces@[k as int] == pc);
                    assert forall|p: int, i: int| 0 <= p < 12 && 0 <= i < 64 implies (#[trigger] piece_boards@[p].contains(i) <==> (i < k + 1 && pieces@[i].0 == p)) by {
                        lemma_bit_single_u8(k as u8, i);
                        assert(old_pb[p].contains(i) <==> (i < k && pieces@[i].0 == p));
                        if p == pc.0 {
                            lemma_bit_and(old_pb[p].0, mask.0, i);
                        }
                    }
                    assert forall|s: int, i: int| 0 <= s < 2 && 0 <= i < 64 implies (#[trigger] side_boards@[s].contains(i) <==> (i < k + 1 && pieces@[i].0 < 12
                        && pieces@[i].0 % 2 == s)) by {
                        lemma_bit_single_u8(k as u8, i);
                        assert(old_sb[s].contains(i) <==> (i < k && pieces@[i].0 < 12 && pieces@[i].0 % 2 == s));
                        if s == sd.0 {
                            lemma_bit_and(old_sb[s].0, mask.0, i);
                        }
                    }
                }
            }
            k = k + 1;
        }
        let hash = Zobrist::default_keys().position(&pieces, &state);
        Position { pieces, piece_boards, side_boards, state, hash }
    }

    /// The squares some piece stands on.
    pub fn occupied(&self) -> (r: Board)
        ensures
            r.0 == self.side_board(0).0 | self.side_board(1).0,
    {
        Board(self.side_boards[0].0 | self.side_boards[1].0)
    }

    /// The squares of the piece `pc`.
    pub fn piece(&self, pc: Piece) -> (r: Board)
        requires
            pc.0 < 12,
        ensures
            r == self.piece_board(pc.0 as int),
    {
        self.piece_boards[pc.0 as usize]
    }

    /// The squares of the pieces of `side`.
    pub fn side(&self, side: Side) -> (r: Board)
        ensures
            r == self.side_board((side.0 & 1) as int),
    {
        proof {
            let s = side.0;
            assert(s & 1 < 2) by (bit_vector);
        }
        self.side_boards[(side.0 & 1) as usize]
    }

    /// The state of the game, to change; the pieces, bitboards and hash stay.
    pub fn state_mut(&mut self) -> (r: &mut State)
        ensures
            *r == old(self).state_spec(),
            final(self).state_spec() == *final(r),
            final(self).grid() == old(self).grid(),
            forall|p: int| #[trigger] final(self).piece_board(p) == old(self).piece_board(p),
            forall|s: int| #[trigger] final(self).side_board(s) == old(self).side_board(s),
            final(self).hash_spec() == old(self).hash_spec(),
            final(self).consistent() == old(self).consistent(),
    {
        &mut self.state
    }

    /// The state of the game.
    pub fn state(&self) -> (r: &State)
        ensures
            *r == self.state_spec(),
    {
        &self.state
    }
}

/// The squares of a castle by `side`: king from, king to, rook from, rook to.
pub open spec fn castle_squares_spec(side: u8, castle: u8) -> (u8, u8, u8, u8) {
    if castle == 0 {
        if side == 0 { (4u8, 6u8, 7u8, 5u8) } else { (60u8, 62u8, 63u8, 61u8) }
    } else {
        if side == 0 { (4u8, 2u8, 0u8, 3u8) } else { (60u8, 58u8, 56u8, 59u8) }
    }
}

/// The squares of a castle by `side`: king from, king to, rook from, rook to.
pub fn castle_squares(side: Side, castle: Castle) -> (r: (Square, Square, Square, Square))
    requires
        side.valid(),
        castle.0 <= 1,
    ensures
        ({
            let (a, b, c, d) = castle_squares_spec(side.0, castle.0);
            r == (Square(a), Square(b), Square(c), Square(d))
        }),
{
    if castle.0 == 0 {
        if side.0 == 0 {
            (Square(4), Square(6), Square(7), Square(5))
        } else {
            (Square(60), Square(62), Square(63), Square(61))
        }
    } else {
        if side.0 == 0 {
            (Square(4), Square(2), Square(0), Square(3))
        } else {
            (Square(60), Square(58), Square(56), Square(59))
        }
    }
}

/// The square whose piece a capture takes: for an en-passant capture the
/// square on the rank moved from and the file moved to, otherwise the square
/// moved to.
pub open spec fn capture_square_spec(m: Move) -> u8 {
    if m.is_en_passant_spec() {
        ((m.0 & 63) & 56) | ((m.1 & 63) & 7)
    } else {
        m.1 & 63
    }
}

/// The castling rights lost when a piece moves from or to one of the
/// squares of a king or rook that can castle.
pub open spec fn rights_touched(from: u8, to: u8) -> u8 {
    (if from == 4 || from == 7 || to == 4 || to == 7 { 1u8 } else { 0u8 })
        | (if from == 0 || from == 4 || to == 0 || to == 4 { 2u8 } else { 0u8 })
        | (if from == 60 || from == 63 || to == 60 || to == 63 { 4u8 } else { 0u8 })
        | (if from == 56 || from == 60 || to == 56 || to == 60 { 8u8 } else { 0u8 })
}

/// The empty square.
pub open spec fn nothing() -> Piece {
    Piece(12)
}

/// The grid after `m` is made by `side`.
pub open spec fn make_grid(g: Seq<Piece>, m: Move, side: u8) -> Seq<Piece> {
    match m.castle_spec() {
        Some(c) => {
            let (kf, kt, rf, rt) = castle_squares_spec(side, c.0);
            let g1 = g.update(kf as int, nothing()).update(kt as int, g[kf as int]);
            g1.update(rf as int, nothing()).update(rt as int, g1[rf as int])
        },
        None => {
            let from = (m.0 & 63) as int;
            let to = (m.1 & 63) as int;
            let g1 = if m.is_capture_spec() {
                g.update(capture_square_spec(m) as int, nothing())
            } else {
                g
            };
            let g2 = g1.update(from, nothing()).update(to, g1[from]);
            match m.promote_spec() {
                Some(k) => g2.update(to, Piece((2 * k.0 + side) as u8)),
                None => g2,
            }
        },
    }
}

/// The piece taken by `m`, and where.
pub open spec fn make_captured(g: Seq<Piece>, m: Move) -> Option<(Piece, Square)> {
    if m.castle_spec() is None && m.is_capture_spec() {
        Some((g[capture_square_spec(m) as int], Square(capture_square_spec(m))))
    } else {
        None
    }
}

/// The castling rights after `m` is made by `side`.
pub open spec fn make_rights(rights: u8, m: Move, side: u8) -> u8 {
    match m.castle_spec() {
        Some(_) => rights & !(3u8 << side),
        None => rights & !rights_touched(m.0 & 63, m.1 & 63),
    }
}

/// The en-passant target after `m`: the square passed over by a pawn's
/// double push.
pub open spec fn make_ep(g: Seq<Piece>, m: Move) -> Option<Square> {
    if m.castle_spec() is None && g[(m.0 & 63) as int].0 / 2 == PAWN && m.is_double_push_spec() {
        Some(Square((((m.1 & 63) + (m.0 & 63)) / 2) as u8))
    } else {
        None
    }
}

/// The half-move clock after `m`: reset by a capture or a pawn move.
pub open spec fn make_halfmove(g: Seq<Piece>, m: Move, clock: u32) -> u32 {
    if m.castle_spec() is None && (m.is_capture_spec() || g[(m.0 & 63) as int].0 / 2 == PAWN) {
        0
    } else {
        (clock + 1) as u32
    }
}

/// The piece standing on the square moved to after `m`.
pub open spec fn arriving_piece(g: Seq<Piece>, m: Move, side: u8) -> Piece {
    match m.promote_spec() {
        Some(k) => Piece((2 * k.0 + side) as u8),
        None => g[(m.0 & 63) as int],
    }
}

/// The keys that `m` adds to the hash for its pieces.
pub open spec fn make_piece_key(z: Zobrist, g: Seq<Piece>, m: Move, side: u8) -> u64 {
    match m.castle_spec() {
        Some(c) => 0 ^ z.castles[c.0 as int][side as int],
        None => {
            let from = m.0 & 63;
            let to = m.1 & 63;
            let cap = capture_square_spec(m);
            (if m.is_capture_spec() { 0 ^ z.piece_square_spec(g[cap as int].0, cap) } else { 0 })
                ^ (z.piece_square_spec(g[from as int].0, from) ^ z.piece_square_spec(
                arriving_piece(g, m, side).0,
                to,
            ))
        },
    }
}

/// The grid after `m` is taken back, `side` having made it and `capture`
/// being what it took.
pub open spec fn unmake_grid(g: Seq<Piece>, m: Move, capture: Option<(Piece, Square)>, side: u8) -> Seq<Piece> {
    match m.castle_spec() {
        Some(c) => {
            let (kf, kt, rf, rt) = castle_squares_spec(side, c.0);
            let g1 = g.update(kt as int, nothing()).update(kf as int, g[kt as int]);
            g1.update(rt as int, nothing()).update(rf as int, g1[rt as int])
        },
        None => {
            let from = (m.0 & 63) as int;
            let to = (m.1 & 63) as int;
            let g1 = if m.promote_spec() is Some {
                g.update(to, Piece((2 * PAWN + side) as u8))
            } else {
                g
            };
            let g2 = g1.update(to, nothing()).update(from, g1[to]);
            match capture {
                Some((p, sq)) => g2.update(sq.0 as int, p),
                None => g2,
            }
        },
    }
}

/// `m` can be made by `side` on `g`: the pieces it moves stand on their
/// squares, the squares they go to are free (or hold the piece taken), a
/// capture takes a piece, and a promotion promotes a piece of `side` (the
/// bitboards of its side are not changed by a promotion).
pub open spec fn can_make_on(g: Seq<Piece>, m: Move, side: u8) -> bool {
    match m.castle_spec() {
        Some(c) => {
            let (kf, kt, rf, rt) = castle_squares_spec(side, c.0);
            &&& g[kf as int].0 < 12
            &&& g[kt as int].0 == 12
            &&& g[rf as int].0 < 12
            &&& g[rt as int].0 == 12
        },
        None => {
            let from = (m.0 & 63) as int;
            let to = (m.1 & 63) as int;
            let cap = capture_square_spec(m) as int;
            &&& from != to
            &&& g[from].0 < 12
            &&& (m.promote_spec() is Some ==> g[from].0 % 2 == side)
            &&& m.is_capture_spec() ==> g[cap].0 < 12 && cap != from
            &&& (m.is_capture_spec() && cap == to) || g[to].0 == 12
        },
    }
}

/// `m`, made by `side`, can be taken back from `g` with `capture` as what it took.
pub open spec fn can_unmake_on(g: Seq<Piece>, m: Move, capture: Option<(Piece, Square)>, side: u8) -> bool {
    match m.castle_spec() {
        Some(c) => {
            let (kf, kt, rf, rt) = castle_squares_spec(side, c.0);
            &&& g[kt as int].0 < 12
            &&& g[kf as int].0 == 12
            &&& g[rt as int].0 < 12
            &&& g[rf as int].0 == 12
        },
        None => {
            let from = (m.0 & 63) as int;
            let to = (m.1 & 63) as int;
            &&& from != to
            &&& g[to].0 < 12
            &&& (m.promote_spec() is Some ==> g[to].0 % 2 == side)
            &&& g[from].0 == 12
            &&& match capture {
                Some((p, sq)) => p.0 < 12 && sq.0 < 64 && sq.0 != from && (sq.0 == to || g[sq.0 as int].0 == 12),
                None => true,
            }
        },
    }
}

impl Position {
    /// `m` can be made here: it fits the pieces (see `can_make_on`) and the
    /// move counters have room to grow.
    pub open spec fn can_make(&self, m: Move) -> bool {
        let st = self.state_spec();
        &&& can_make_on(self.grid(), m, st.side_to_move.0)
        &&& st.halfmove_clock < u32::MAX
        &&& (st.side_to_move.0 == 1 ==> st.fullmove_number < u32::MAX)
    }

    fn update_grid(&mut self, square: Square, piece: Piece)
        requires
            square.0 < 64,
        ensures
            final(self).grid() == old(self).grid().update(square.0 as int, piece),
            final(self).piece_boards == old(self).piece_boards,
            final(self).side_boards == old(self).side_boards,
            final(self).state == old(self).state,
            final(self).hash == old(self).hash,
    {
        self.pieces[square.0 as usize] = piece;
    }

    /// Moves the piece on `from` to the empty square `to`; returns the set of
    /// the two squares.
    fn move_piece(&mut self, from: Square, to: Square) -> (r: Board)
        requires
            old(self).consistent(),
            from.0 < 64,
            to.0 < 64,
            from.0 != to.0,
            old(self).grid()[from.0 as int].0 < 12,
            old(self).grid()[to.0 as int].0 == 12,
        ensures
            final(self).consistent(),
            final(self).grid() == old(self).grid().update(from.0 as int, nothing()).update(
                to.0 as int,
                old(self).grid()[from.0 as int],
            ),
            final(self).state == old(self).state,
            final(self).hash == old(self).hash,
            r.0 == single(from.0) | single(to.0),
    {
        let piece = self.at(from);
        let mask = Board(Board::new(from).0 | Board::new(to).0);
        let ghost g = self.grid();
        self.update_grid(from, Piece(12));
        self.update_grid(to, piece);
        let ghost pb = self.piece_boards@;
        let ghost sb = self.side_boards@;
        let p = piece.0 as usize;
        let sd = piece.side().0 as usize;
        self.piece_boards[p] = Board(self.piece_boards[p].0 ^ mask.0);
        self.side_boards[sd] = Board(self.side_boards[sd].0 ^ mask.0);
        proof {
            lemma_bit_single_u8(from.0, 0);
            lemma_bit_single_u8(to.0, 0);
            assert forall|q: int, i: int| 0 <= q < 12 && 0 <= i < 64 implies (#[trigger] self.piece_boards@[q].contains(i) <==> self.pieces@[i].0 == q) by {
                assert(old(self).piece_boards@[q].contains(i) <==> g[i].0 == q);
                if q == p {
                    lemma_bit_and(pb[q].0, mask.0, i);
                    lemma_bit_and(single(from.0), single(to.0), i);
                    lemma_bit_single_u8(from.0, i);
                    lemma_bit_single_u8(to.0, i);
                }
            }
            assert forall|s: int, i: int| 0 <= s < 2 && 0 <= i < 64 implies (#[trigger] self.side_boards@[s].contains(i) <==> (self.pieces@[i].0 < 12
                && self.pieces@[i].0 % 2 == s)) by {
                assert(old(self).side_boards@[s].contains(i) <==> (g[i].0 < 12 && g[i].0 % 2 == s));
                if s == sd {
                    lemma_bit_and(sb[s].0, mask.0, i);
                    lemma_bit_and(single(from.0), single(to.0), i);
                    lemma_bit_single_u8(from.0, i);
                    lemma_bit_single_u8(to.0, i);
                }
            }
        }
        mask
    }

    /// Replaces the piece on `square` by `new_piece` of the same side.
    fn promote_piece(&mut self, square: Square, new_piece: Piece)
        requires
            old(self).consistent(),
            square.0 < 64,
            old(self).grid()[square.0 as int].0 < 12,
            new_piece.0 < 12,
            old(self).grid()[square.0 as int].0 % 2 == new_piece.0 % 2,
        ensures
            final(self).consistent(),
            final(self).grid() == old(self).grid().update(square.0 as int, new_piece),
            final(self).state == old(self).state,
            final(self).hash == old(self).hash,
    {
        let old_piece = self.at(square);
        let mask = Board::new(square);
        let ghost g = self.grid();
        self.update_grid(square, new_piece);
        let ghost pb = self.piece_boards@;
        let o = old_piece.0 as usize;
        let n = new_piece.0 as usize;
        self.piece_boards[o] = Board(self.piece_boards[o].0 ^ mask.0);
        let ghost pb1 = self.piece_boards@;
        self.piece_boards[n] = Board(self.piece_boards[n].0 | mask.0);
        proof {
            assert forall|q: int, i: int| 0 <= q < 12 && 0 <= i < 64 implies (#[trigger] self.piece_boards@[q].contains(i) <==> self.pieces@[i].0 == q) by {
                assert(old(self).piece_boards@[q].contains(i) <==> g[i].0 == q);
                lemma_bit_single_u8(square.0, i);
                lemma_bit_and(pb[q].0, mask.0, i);
                lemma_bit_and(pb1[q].0, mask.0, i);
            }
            assert forall|s: int, i: int| 0 <= s < 2 && 0 <= i < 64 implies (#[trigger] self.side_boards@[s].contains(i) <==> (self.pieces@[i].0 < 12
                && self.pieces@[i].0 % 2 == s)) by {
                assert(old(self).side_boards@[s].contains(i) <==> (g[i].0 < 12 && g[i].0 % 2 == s));
            }
        }
    }

    /// Puts `piece` on the empty square `square`.
    fn put(&mut self, piece: Piece, square: Square)
        requires
            old(self).consistent(),
            square.0 < 64,
            piece.0 < 12,
            old(self).grid()[square.0 as int].0 == 12,
        ensures
            final(self).consistent(),
            final(self).grid() == old(self).grid().update(square.0 as int, piece),
            final(self).state == old(self).state,
            final(self).hash == old(self).hash,
    {
        let mask = Board::new(square);
        let ghost g = self.grid();
        self.update_grid(square, piece);
        let ghost pb = self.piece_boards@;
        let ghost sb = self.side_boards@;
        let p = piece.0 as usize;
        let sd = piece.side().0 as usize;
        self.piece_boards[p] = Board(self.piece_boards[p].0 ^ mask.0);
        self.side_boards[sd] = Board(self.side_boards[sd].0 ^ mask.0);
        proof {
            assert forall|q: int, i: int| 0 <= q < 12 && 0 <= i < 64 implies (#[trigger] self.piece_boards@[q].contains(i) <==> self.pieces@[i].0 == q) by {
                assert(old(self).piece_boards@[q].contains(i) <==> g[i].0 == q);
                lemma_bit_single_u8(square.0, i);
                lemma_bit_and(pb[q].0, mask.0, i);
            }
            assert forall|s: int, i: int| 0 <= s < 2 && 0 <= i < 64 implies (#[trigger] self.side_boards@[s].contains(i) <==> (self.pieces@[i].0 < 12
                && self.pieces@[i].0 % 2 == s)) by {
                assert(old(self).side_boards@[s].contains(i) <==> (g[i].0 < 12 && g[i].0 % 2 == s));
                lemma_bit_single_u8(square.0, i);
                lemma_bit_and(sb[s].0, mask.0, i);
            }
        }
    }

    /// Takes the piece off `square`.
    fn remove(&mut self, square: Square)
        requires
            old(self).consistent(),
            square.0 < 64,
            old(self).grid()[square.0 as int].0 < 12,
        ensures
            final(self).consistent(),
            final(self).grid() == old(self).grid().update(square.0 as int, nothing()),
            final(self).state == old(self).state,
            final(self).hash == old(self).hash,
    {
        let piece = self.at(square);
        let mask = Board::new(square);
        let ghost g = self.grid();
        self.update_grid(square, Piece(12));
        let ghost pb = self.piece_boards@;
        let ghost sb = self.side_boards@;
        let p = piece.0 as usize;
        let sd = piece.side().0 as usize;
        self.piece_boards[p] = Board(self.piece_boards[p].0 ^ mask.0);
        self.side_boards[sd] = Board(self.side_boards[sd].0 ^ mask.0);
        proof {
            assert forall|q: int, i: int| 0 <= q < 12 && 0 <= i < 64 implies (#[trigger] self.piece_boards@[q].contains(i) <==> self.pieces@[i].0 == q) by {
                assert(old(self).piece_boards@[q].contains(i) <==> g[i].0 == q);
                lemma_bit_single_u8(square.0, i);
                lemma_bit_and(pb[q].0, mask.0, i);
            }
            assert forall|s: int, i: int| 0 <= s < 2 && 0 <= i < 64 implies (#[trigger] self.side_boards@[s].contains(i) <==> (self.pieces@[i].0 < 12
                && self.pieces@[i].0 % 2 == s)) by {
                assert(old(self).side_boards@[s].contains(i) <==> (g[i].0 < 12 && g[i].0 % 2 == s));
                lemma_bit_single_u8(square.0, i);
                lemma_bit_and(sb[s].0, mask.0, i);
            }
        }
    }
}

/// What a position is made of: its grid, its state and its hash.
pub open spec fn model(p: Position) -> (Seq<Piece>, StateView, u64) {
    (p.grid(), p.state_spec()@, p.hash_spec())
}

/// The model after the side to move of the model `mdl` makes `m` (see
/// `Position::make`).
pub open spec fn next_model(mdl: (Seq<Piece>, StateView, u64), m: Move) -> (Seq<Piece>, StateView, u64) {
    let (g, st, h) = mdl;
    let side = st.side_to_move.0;
    let rights = make_rights(st.castling_rights.0, m, side);
    let ep = make_ep(g, m);
    (
        make_grid(g, m, side),
        StateView {
            side_to_move: st.side_to_move.other(),
            castling_rights: CastlingRights(rights),
            en_passant_target: ep,
            halfmove_clock: make_halfmove(g, m, st.halfmove_clock),
            fullmove_number: if side == 1 { (st.fullmove_number + 1) as u32 } else { st.fullmove_number },
            prev_hashes: st.prev_hashes,
        },
        h ^ (make_piece_key(default_zobrist(), g, m, side) ^ default_zobrist().state_spec(
            st.castling_rights.0,
            st.en_passant_target,
            rights,
            ep,
        )),
    )
}

impl Position {
    /// Makes the move `m` for the side to move: moves its pieces, takes the
    /// piece it captures, updates the state and the hash; returns the piece
    /// taken and its square.
    pub fn make(&mut self, m: Move) -> (r: Option<(Piece, Square)>)
        requires
            old(self).wf(),
            old(self).can_make(m),
        ensures
            final(self).wf(),
            ({
                let st = old(self).state_spec();
                let side = st.side_to_move.0;
                let g = old(self).grid();
                let nst = final(self).state_spec();
                &&& final(self).grid() == make_grid(g, m, side)
                &&& r == make_captured(g, m)
                &&& nst.side_to_move == st.side_to_move.other()
                &&& nst.castling_rights.0 == make_rights(st.castling_rights.0, m, side)
                &&& nst.en_passant_target == make_ep(g, m)
                &&& nst.halfmove_clock == make_halfmove(g, m, st.halfmove_clock)
                &&& nst.fullmove_number == (if side == 1 { st.fullmove_number + 1 } else { st.fullmove_number as int })
                &&& nst@.prev_hashes == st@.prev_hashes
                &&& final(self).hash_spec() == old(self).hash_spec() ^ (make_piece_key(default_zobrist(), g, m, side)
                    ^ default_zobrist().state_spec(
                    st.castling_rights.0,
                    st.en_passant_target,
                    nst.castling_rights.0,
                    nst.en_passant_target,
                ))
            }),
            model(*final(self)) == next_model(model(*old(self)), m),
    {
        let side_to_move = self.state.side_to_move;
        let ghost g = self.grid();
        let ghost st = self.state;
        let old_rights = self.state.castling_rights;
        let old_ep = self.state.en_passant_target;
        let mut move_resets_half_move_clock = false;
        if side_to_move.0 == 1 {
            self.state.fullmove_number = self.state.fullmove_number + 1;
        }
        self.state.side_to_move = Side(1 - side_to_move.0);
        self.state.en_passant_target = None;
        let mut captured: Option<(Piece, Square)> = None;
        let mut xor_key: u64 = 0;
        let z = Zobrist::default_keys();
        if let Some(castle) = m.castle() {
            let mut rights = self.state.castling_rights;
            rights.clear_side(side_to_move);
            self.state.castling_rights = rights;
            let (king_from, king_to, rook_from, rook_to) = castle_squares(side_to_move, castle);
            self.move_piece(king_from, king_to);
            self.move_piece(rook_from, rook_to);
            xor_key = xor_key ^ z.castle(castle, side_to_move);
        } else {
            let from = m.from();
            let to = m.to();
            if m.is_capture() {
                move_resets_half_move_clock = true;
                let capture_sq = if m.is_en_passant_capture() {
                    from.along_row_with_col(to)
                } else {
                    to
                };
                proof {
                    let a = m.0;
                    let b = m.1;
                    assert(((a & 63) & 56) | ((b & 63) & 7) < 64) by (bit_vector);
                }
                let captured_piece = self.at(capture_sq);
                self.remove(capture_sq);
                captured = Some((captured_piece, capture_sq));
                xor_key = xor_key ^ z.capture(captured_piece, capture_sq);
            }
            let mover = self.at(from);
            let move_mask = self.move_piece(from, to);
            let mut updated_mover = mover;
            if mover.kind().0 == PAWN {
                move_resets_half_move_clock = true;
                if m.is_double_pawn_push() {
                    self.state.en_passant_target = Some(Square((to.0 + from.0) >> 1));
                    proof {
                        let a = to.0;
                        let b = from.0;
                        assert(a < 64 && b < 64 ==> ((a + b) as u8) >> 1 == (a + b) / 2 && (a + b) / 2 < 64) by (bit_vector);
                    }
                }
            }
            if let Some(kind) = m.promote_to() {
                updated_mover = kind.to_piece(side_to_move);
                self.promote_piece(to, updated_mover);
            }
            xor_key = xor_key ^ z.push(mover, from, updated_mover, to);
            let touched = castle_rights_touched(move_mask);
            let mut rights = self.state.castling_rights;
            rights.clear(CastlingRights(touched));
            self.state.castling_rights = rights;
            proof {
                let mm = move_mask.0;
                assert(mm == single(from.0) | single(to.0));
                lemma_rights_touched(from.0, to.0);
            }
        }
        if move_resets_half_move_clock {
            self.state.halfmove_clock = 0;
        } else {
            self.state.halfmove_clock = self.state.halfmove_clock + 1;
        }
        proof {
            let r = self.state.castling_rights.0;
            let o = st.castling_rights.0;
            assert(o < 16 ==> r < 16) by {
                let s = side_to_move.0;
                let t = rights_touched(m.0 & 63, m.1 & 63);
                assert(o < 16 ==> o & !(3u8 << s) < 16 && o & !t < 16) by (bit_vector);
            }
        }
        xor_key = xor_key ^ z.state(&st_fields(old_rights, old_ep), &st_fields(self.state.castling_rights, self.state.en_passant_target));
        self.hash = self.hash ^ xor_key;
        captured
    }
}

/// The castling rights whose king or rook squares `mask` touches.
fn castle_rights_touched(mask: Board) -> (r: u8)
    ensures
        r == (if mask.0 & 0x0000_0000_0000_0090 != 0 { 1u8 } else { 0u8 })
            | (if mask.0 & 0x0000_0000_0000_0011 != 0 { 2u8 } else { 0u8 })
            | (if mask.0 & 0x9000_0000_0000_0000 != 0 { 4u8 } else { 0u8 })
            | (if mask.0 & 0x1100_0000_0000_0000 != 0 { 8u8 } else { 0u8 }),
{
    let a: u8 = if mask.0 & 0x0000_0000_0000_0090 != 0 { 1 } else { 0 };
    let b: u8 = if mask.0 & 0x0000_0000_0000_0011 != 0 { 2 } else { 0 };
    let c: u8 = if mask.0 & 0x9000_0000_0000_0000 != 0 { 4 } else { 0 };
    let d: u8 = if mask.0 & 0x1100_0000_0000_0000 != 0 { 8 } else { 0 };
    a | b | c | d
}

proof fn lemma_rights_touched(from: u8, to: u8)
    requires
        from < 64,
        to < 64,
    ensures
        ({
            let mask = single(from) | single(to);
            rights_touched(from, to) == (if mask & 0x0000_0000_0000_0090 != 0 { 1u8 } else { 0u8 })
                | (if mask & 0x0000_0000_0000_0011 != 0 { 2u8 } else { 0u8 })
                | (if mask & 0x9000_0000_0000_0000 != 0 { 4u8 } else { 0u8 })
                | (if mask & 0x1100_0000_0000_0000 != 0 { 8u8 } else { 0u8 })
        }),
{
    assert(from < 64 && to < 64 ==> ((((1u64 << from) | (1u64 << to)) & 0x90 != 0 <==> (from == 4 || from == 7 || to
        == 4 || to == 7)) && (((1u64 << from) | (1u64 << to)) & 0x11 != 0 <==> (from == 0 || from == 4 || to == 0 || to
        == 4)) && (((1u64 << from) | (1u64 << to)) & 0x9000_0000_0000_0000 != 0 <==> (from == 60 || from == 63 || to
        == 60 || to == 63)) && (((1u64 << from) | (1u64 << to)) & 0x1100_0000_0000_0000 != 0 <==> (from == 56 || from
        == 60 || to == 56 || to == 60)))) by (bit_vector);
}

/// A state holding the given castling rights and en-passant target, for
/// hashing.
fn st_fields(castling_rights: CastlingRights, en_passant_target: Option<Square>) -> (r: State)
    ensures
        r.castling_rights == castling_rights,
        r.en_passant_target == en_passant_target,
{
    State {
        side_to_move: Side(0),
        castling_rights,
        en_passant_target,
        halfmove_clock: 0,
        fullmove_number: 0,
        prev_hashes: None,
    }
}

impl Position {
    /// Takes back the move `mv` made from a position whose state was
    /// `prior_state` and hash `prior_hash`, putting back `capture`, the
    /// piece it took.
    pub fn unmake(
        &mut self,
        mv: Move,
        capture: Option<(Piece, Square)>,
        prior_state: &State,
        prior_hash: u64,
    )
        requires
            old(self).consistent(),
            prior_state.sound(),
            can_unmake_on(old(self).grid(), mv, capture, prior_state.side_to_move.0),
        ensures
            final(self).wf(),
            final(self).grid() == unmake_grid(old(self).grid(), mv, capture, prior_state.side_to_move.0),
            final(self).state_spec()@ == prior_state@,
            final(self).hash_spec() == prior_hash,
    {
        self.state = prior_state.copy();
        self.hash = prior_hash;
        if let Some(castle) = mv.castle() {
            let (king_to, king_from, rook_to, rook_from) = castle_squares(prior_state.side_to_move, castle);
            self.move_piece(king_from, king_to);
            self.move_piece(rook_from, rook_to);
            return;
        }
        if mv.promote_to().is_some() {
            let mover = PieceKind(PAWN).to_piece(prior_state.side_to_move);
            self.promote_piece(mv.to(), mover);
        }
        self.move_piece(mv.to(), mv.from());
        if let Some((captured_piece, capture_sq)) = capture {
            self.put(captured_piece, capture_sq);
        }
    }
}

/// Square `sq` is a home square of castling right `i` (white king-side,
/// white queen-side, black king-side, black queen-side): the square of its
/// king or of its rook before either has moved.
pub open spec fn right_home(i: int, sq: u8) -> bool {
    if i == 0 {
        sq == 4 || sq == 7
    } else if i == 1 {
        sq == 0 || sq == 4
    } else if i == 2 {
        sq == 60 || sq == 63
    } else {
        sq == 56 || sq == 60
    }
}

proof fn lemma_clear_bits(rights: u8, a: bool, b: bool, c: bool, d: bool)
    by (bit_vector)
    ensures
        ({
            let t = (if a { 1u8 } else { 0u8 }) | (if b { 2u8 } else { 0u8 }) | (if c { 4u8 } else { 0u8 }) | (if d {
                8u8
            } else {
                0u8
            });
            &&& (((rights & !t) >> 0u8) & 1 == 1 <==> ((rights >> 0u8) & 1 == 1 && !a))
            &&& (((rights & !t) >> 1u8) & 1 == 1 <==> ((rights >> 1u8) & 1 == 1 && !b))
            &&& (((rights & !t) >> 2u8) & 1 == 1 <==> ((rights >> 2u8) & 1 == 1 && !c))
            &&& (((rights & !t) >> 3u8) & 1 == 1 <==> ((rights >> 3u8) & 1 == 1 && !d))
        }),
        3u8 << 0u8 == 3u8,
        3u8 << 1u8 == 6u8,
        (1u8 | 2u8) | 0u8 | 0u8 == 3u8,
        (0u8 | 2u8) | 4u8 | 0u8 == 6u8,
{
}

/// A move other than a castle keeps a castling right exactly when it was
/// held and neither the square moved from nor the square moved to is one of
/// the right's home squares: moving a king or rook from home, or taking a
/// rook on its home square, loses the right.
pub proof fn law_moving_clears_touched_rights(mdl: (Seq<Piece>, StateView, u64), m: Move, i: int)
    requires
        m.castle_spec() is None,
        0 <= i < 4,
    ensures
        ({
            let from = m.0 & 63;
            let to = m.1 & 63;
            let old = mdl.1.castling_rights.0;
            let r = next_model(mdl, m).1.castling_rights.0;
            ((r >> (i as u8)) & 1 == 1) == ((old >> (i as u8)) & 1 == 1 && !right_home(i, from) && !right_home(i, to))
        }),
{
    let from = m.0 & 63;
    let to = m.1 & 63;
    let old = mdl.1.castling_rights.0;
    lemma_clear_bits(
        old,
        from == 4 || from == 7 || to == 4 || to == 7,
        from == 0 || from == 4 || to == 0 || to == 4,
        from == 60 || from == 63 || to == 60 || to == 63,
        from == 56 || from == 60 || to == 56 || to == 60,
    );
    let r = next_model(mdl, m).1.castling_rights.0;
    assert(r == old & !rights_touched(from, to));
    if i == 0 {
        assert((i as u8) == 0u8);
    } else if i == 1 {
        assert((i as u8) == 1u8);
    } else if i == 2 {
        assert((i as u8) == 2u8);
    } else {
        assert((i as u8) == 3u8);
    }
}

/// A castle by white gives up both rights of white and keeps those of
/// black; a castle by black gives up black's king-side right and white's
/// queen-side right and keeps the other two (the rights are cleared from
/// bit `side` on).
pub proof fn law_castling_clears_rights(mdl: (Seq<Piece>, StateView, u64), m: Move, i: int)
    requires
        m.castle_spec() is Some,
        mdl.1.side_to_move.0 <= 1,
        0 <= i < 4,
    ensures
        ({
            let side = mdl.1.side_to_move.0 as int;
            let old = mdl.1.castling_rights.0;
            let r = next_model(mdl, m).1.castling_rights.0;
            ((r >> (i as u8)) & 1 == 1) == ((old >> (i as u8)) & 1 == 1 && i != side && i != side + 1)
        }),
{
    let side = mdl.1.side_to_move.0;
    let old = mdl.1.castling_rights.0;
    let r = next_model(mdl, m).1.castling_rights.0;
    if side == 0 {
        lemma_clear_bits(old, true, true, false, false);
        assert(r == old & !3u8);
    } else {
        lemma_clear_bits(old, false, true, true, false);
        assert(r == old & !6u8);
    }
    if i == 0 {
        assert((i as u8) == 0u8);
    } else if i == 1 {
        assert((i as u8) == 1u8);
    } else if i == 2 {
        assert((i as u8) == 2u8);
    } else {
        assert((i as u8) == 3u8);
    }
}

/// Taking back a move restores the grid it was made on: for a move that fits
/// the grid (see `can_make_on`) and whose promotion, if any, is made by a pawn
/// of the side moving, the grid after the move can be taken back with the
/// piece the move took, and taking it back gives the grid before the move.
pub proof fn law_unmake_grid(g: Seq<Piece>, m: Move, side: u8)
    requires
        g.len() == 64,
        forall|i: int| 0 <= i < 64 ==> #[trigger] g[i].0 <= 12,
        side <= 1,
        can_make_on(g, m, side),
        m.promote_spec() is Some ==> g[(m.0 & 63) as int] == Piece((2 * PAWN + side) as u8),
    ensures
        can_unmake_on(make_grid(g, m, side), m, make_captured(g, m), side),
        unmake_grid(make_grid(g, m, side), m, make_captured(g, m), side) == g,
{
    let g2 = make_grid(g, m, side);
    let g3 = unmake_grid(g2, m, make_captured(g, m), side);
    match m.castle_spec() {
        Some(c) => {
            let b = m.1;
            assert((b & 0x40) >> 6 <= 1) by (bit_vector);
            assert(c.0 <= 1);
            assert(g3 =~= g);
        },
        None => {
            let a = m.0;
            let b = m.1;
            assert((a & 63) < 64 && (b & 63) < 64 && ((a & 63) & 56) | ((b & 63) & 7) < 64 && (b & 0xC0) >> 6 <= 3)
                by (bit_vector);
            assert(g3 =~= g);
        },
    }
}

/// A consistent position has 64 squares, each holding a piece code of at
/// most 12.
pub proof fn lemma_grid_codes(p: &Position)
    requires
        p.consistent(),
    ensures
        p.grid().len() == 64,
        forall|i: int| 0 <= i < 64 ==> #[trigger] p.grid()[i].0 <= 12,
{
}

/// The bitboards of a consistent position hold exactly the squares of their
/// pieces and sides.
pub proof fn lemma_board_bits(p: &Position)
    requires
        p.consistent(),
    ensures
        p.grid().len() == 64,
        forall|i: int| 0 <= i < 64 ==> #[trigger] p.grid()[i].0 <= 12,
        forall|c: int, i: int|
            0 <= c < 12 ==> (#[trigger] bit(p.piece_board(c).0, i) <==> 0 <= i < 64 && p.grid()[i].0 == c),
        forall|s: int, i: int|
            0 <= s < 2 ==> (#[trigger] bit(p.side_board(s).0, i) <==> 0 <= i < 64 && p.grid()[i].0 < 12
                && p.grid()[i].0 % 2 == s),
{
    assert forall|c: int, i: int| 0 <= c < 12 implies (#[trigger] bit(p.piece_board(c).0, i) <==> 0 <= i < 64
        && p.grid()[i].0 == c) by {
        if 0 <= i < 64 {
            assert(p.piece_boards@[c].contains(i) <==> p.pieces@[i].0 == c);
        }
    }
    assert forall|s: int, i: int| 0 <= s < 2 implies (#[trigger] bit(p.side_board(s).0, i) <==> 0 <= i < 64
        && p.grid()[i].0 < 12 && p.grid()[i].0 % 2 == s) by {
        if 0 <= i < 64 {
            assert(p.side_boards@[s].contains(i) <==> (p.pieces@[i].0 < 12 && p.pieces@[i].0 % 2 == s));
        }
    }
}

/// Two consistent positions with the same pieces have the same bitboards.
pub proof fn law_boards_follow_grid(a: &Position, b: &Position)
    requires
        a.consistent(),
        b.consistent(),
        a.grid() == b.grid(),
    ensures
        forall|p: int| 0 <= p < 12 ==> #[trigger] a.piece_board(p) == b.piece_board(p),
        forall|s: int| 0 <= s < 2 ==> #[trigger] a.side_board(s) == b.side_board(s),
{
    assert forall|p: int| 0 <= p < 12 implies #[trigger] a.piece_board(p) == b.piece_board(p) by {
        assert forall|i: int| 0 <= i < 64 implies bit(a.piece_boards@[p].0, i) == bit(b.piece_boards@[p].0, i) by {
            assert(a.piece_boards@[p].contains(i) <==> a.pieces@[i].0 == p);
            assert(b.piece_boards@[p].contains(i) <==> b.pieces@[i].0 == p);
        }
        lemma_bits_ext(a.piece_boards@[p].0, b.piece_boards@[p].0);
    }
    assert forall|s: int| 0 <= s < 2 implies #[trigger] a.side_board(s) == b.side_board(s) by {
        assert forall|i: int| 0 <= i < 64 implies bit(a.side_boards@[s].0, i) == bit(b.side_boards@[s].0, i) by {
            assert(a.side_boards@[s].contains(i) <==> (a.pieces@[i].0 < 12 && a.pieces@[i].0 % 2 == s));
            assert(b.side_boards@[s].contains(i) <==> (b.pieces@[i].0 < 12 && b.pieces@[i].0 % 2 == s));
        }
        lemma_bits_ext(a.side_boards@[s].0, b.side_boards@[s].0);
    }
}

/// Unmaking a move that was made gives back the position: when `made` is what
/// `make(m)` turned `before` into, returning `captured`, and `after` is what
/// `unmake(m, captured, before's state, before's hash)` turned `made` into,
/// then `after` holds the pieces, bitboards, state and hash of `before`.
pub proof fn law_unmake_undoes_make(
    before: &Position,
    m: Move,
    made: &Position,
    captured: Option<(Piece, Square)>,
    after: &Position,
)
    requires
        before.wf(),
        before.can_make(m),
        m.promote_spec() is Some ==> before.grid()[(m.0 & 63) as int] == Piece(
            (2 * PAWN + before.state_spec().side_to_move.0) as u8,
        ),
        made.wf(),
        made.grid() == make_grid(before.grid(), m, before.state_spec().side_to_move.0),
        captured == make_captured(before.grid(), m),
        after.wf(),
        after.grid() == unmake_grid(made.grid(), m, captured, before.state_spec().side_to_move.0),
        after.state_spec()@ == before.state_spec()@,
        after.hash_spec() == before.hash_spec(),
    ensures
        after.grid() == before.grid(),
        forall|p: int| 0 <= p < 12 ==> #[trigger] after.piece_board(p) == before.piece_board(p),
        forall|s: int| 0 <= s < 2 ==> #[trigger] after.side_board(s) == before.side_board(s),
        after.state_spec()@ == before.state_spec()@,
        after.hash_spec() == before.hash_spec(),
{
    law_unmake_grid(before.grid(), m, before.state_spec().side_to_move.0);
    law_boards_follow_grid(after, before);
}

} // verus!
