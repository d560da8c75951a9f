//! Lists that the move generator adds moves to: one that keeps the moves and
//! one that only counts them.
use vstd::prelude::*;
use crate::bits::popcount;
use crate::board::{Board, END_RANKS};
use crate::castle::Castle;
use crate::moves::Move;
use crate::square::Square;
use crate::squares::{squares, lemma_squares, lemma_lowest};
use vstd::std_specs::bits::u64_trailing_zeros;
use vstd::std_specs::iter::IteratorSpec;

verus! {

broadcast use vstd::std_specs::vec::group_vec_axioms;

/// The square a pawn came from when a shift by `shift` took it to `to`.
pub open spec fn source(to: u8, shift: u8) -> u8 {
    ((to + 64 - shift) % 64) as u8
}

/// Moves from `from` to each square of `tos`, in order, the first byte tagged
/// with `ff` and the second with `ft`.
pub open spec fn moves_to(from: u8, tos: Seq<u8>, ff: u8, ft: u8) -> Seq<Move>
    decreases tos.len(),
{
    if tos.len() == 0 {
        Seq::empty()
    } else {
        moves_to(from, tos.drop_last(), ff, ft).push(Move(from | ff, tos.last() | ft))
    }
}

/// Pawn moves to each square of `tos`, each coming from `shift` squares back.
pub open spec fn pawn_moves(shift: u8, tos: Seq<u8>, ff: u8, ft: u8) -> Seq<Move>
    decreases tos.len(),
{
    if tos.len() == 0 {
        Seq::empty()
    } else {
        let to = tos.last();
        pawn_moves(shift, tos.drop_last(), ff, ft).push(Move(source(to, shift) | ff, to | ft))
    }
}

/// The four promotions (queen, rook, bishop, knight) of a pawn arriving on `to`.
pub open spec fn promotions(from: u8, to: u8, ff: u8) -> Seq<Move> {
    seq![Move(from | ff, to), Move(from | ff, to | 0x40), Move(from | ff, to | 0x80), Move(from | ff, to | 0xC0)]
}

/// The promotions of pawns arriving on each square of `tos`.
pub open spec fn promotion_moves(shift: u8, tos: Seq<u8>, ff: u8) -> Seq<Move>
    decreases tos.len(),
{
    if tos.len() == 0 {
        Seq::empty()
    } else {
        let to = tos.last();
        promotion_moves(shift, tos.drop_last(), ff) + promotions(source(to, shift), to, ff)
    }
}

/// Pushes from `from` to the squares of `targets`.
pub open spec fn push_seq(from: u8, targets: u64) -> Seq<Move> {
    moves_to(from, squares(targets), 0, 0)
}

/// Captures from `from` on the squares of `targets`.
pub open spec fn capture_seq(from: u8, targets: u64) -> Seq<Move> {
    moves_to(from, squares(targets), 0x40, 0)
}

/// Pawn advances by `shift` to the squares of `targets`: promotions on the
/// first and last ranks, then the others.
pub open spec fn pawn_push_seq(shift: u8, targets: u64) -> Seq<Move> {
    promotion_moves(shift, squares(targets & END_RANKS), 0x80) + pawn_moves(
        shift,
        squares(targets & !END_RANKS),
        0,
        0,
    )
}

/// Double pawn pushes by `shift` to the squares of `targets`.
pub open spec fn double_push_seq(shift: u8, targets: u64) -> Seq<Move> {
    pawn_moves(shift, squares(targets), 0, 0x40)
}

/// Pawn captures by `shift` on the squares of `targets`: capturing
/// promotions on the first and last ranks, then the others.
pub open spec fn pawn_capture_seq(shift: u8, targets: u64) -> Seq<Move> {
    promotion_moves(shift, squares(targets & END_RANKS), 0xC0) + pawn_moves(
        shift,
        squares(targets & !END_RANKS),
        0x40,
        0,
    )
}

/// The castle `castle`, the king going from `from` to `to`.
pub open spec fn castle_seq(from: u8, to: u8, castle: u8) -> Seq<Move> {
    seq![Move(from, to | 0x80 | (castle << 6))]
}

/// An en-passant capture from `from` to `to`.
pub open spec fn ep_seq(from: u8, to: u8) -> Seq<Move> {
    seq![Move(from | 0x40, to | 0x40)]
}

/// Something that the move generator hands its moves to.
pub trait MoveAdder {
    /// The moves handed over so far.
    spec fn recorded(&self) -> Seq<Move>;

    /// What the list keeps true between calls.
    spec fn inv(&self) -> bool;

    /// How many more moves the list can take.
    spec fn room(&self) -> nat;

    /// Adds pushes from `from` to the squares of `targets`.
    fn add_pushes(&mut self, from: Square, targets: Board)
        requires
            old(self).inv(),
            from.0 < 64,
            old(self).room() >= push_seq(from.0, targets.0).len(),
        ensures
            final(self).inv(),
            final(self).recorded() == old(self).recorded() + push_seq(from.0, targets.0),
            final(self).room() + final(self).recorded().len() == old(self).room() + old(self).recorded().len(),
    ;

    /// Adds captures from `from` on the squares of `targets`.
    fn add_captures(&mut self, from: Square, targets: Board)
        requires
            old(self).inv(),
            from.0 < 64,
            old(self).room() >= capture_seq(from.0, targets.0).len(),
        ensures
            final(self).inv(),
            final(self).recorded() == old(self).recorded() + capture_seq(from.0, targets.0),
            final(self).room() + final(self).recorded().len() == old(self).room() + old(self).recorded().len(),
    ;

    /// Adds the castle `castle`, the king going from `from` to `to`.
    fn add_castle(&mut self, from: Square, to: Square, castle: Castle)
        requires
            old(self).inv(),
            from.0 < 64,
            to.0 < 64,
            castle.0 <= 1,
            old(self).room() >= 1,
        ensures
            final(self).inv(),
            final(self).recorded() == old(self).recorded() + castle_seq(from.0, to.0, castle.0),
            final(self).room() + final(self).recorded().len() == old(self).room() + old(self).recorded().len(),
    ;

    /// Adds pawn advances by `shift` to the squares of `targets`.
    fn add_pawn_pushes(&mut self, shift: u8, targets: Board)
        requires
            old(self).inv(),
            shift <= 64,
            old(self).room() >= pawn_push_seq(shift, targets.0).len(),
        ensures
            final(self).inv(),
            final(self).recorded() == old(self).recorded() + pawn_push_seq(shift, targets.0),
            final(self).room() + final(self).recorded().len() == old(self).room() + old(self).recorded().len(),
    ;

    /// Adds double pawn pushes by `shift` to the squares of `targets`.
    fn add_double_pawn_pushes(&mut self, shift: u8, targets: Board)
        requires
            old(self).inv(),
            shift <= 64,
            old(self).room() >= double_push_seq(shift, targets.0).len(),
        ensures
            final(self).inv(),
            final(self).recorded() == old(self).recorded() + double_push_seq(shift, targets.0),
            final(self).room() + final(self).recorded().len() == old(self).room() + old(self).recorded().len(),
    ;

    /// Adds pawn captures by `shift` on the squares of `targets`.
    fn add_pawn_captures(&mut self, shift: u8, targets: Board)
        requires
            old(self).inv(),
            shift <= 64,
            old(self).room() >= pawn_capture_seq(shift, targets.0).len(),
        ensures
            final(self).inv(),
            final(self).recorded() == old(self).recorded() + pawn_capture_seq(shift, targets.0),
            final(self).room() + final(self).recorded().len() == old(self).room() + old(self).recorded().len(),
    ;

    /// Adds the en-passant capture from `from` to `to`.
    fn add_pawn_ep_capture(&mut self, from: Square, to: Square)
        requires
            old(self).inv(),
            from.0 < 64,
            to.0 < 64,
            old(self).room() >= 1,
        ensures
            final(self).inv(),
            final(self).recorded() == old(self).recorded() + ep_seq(from.0, to.0),
            final(self).room() + final(self).recorded().len() == old(self).room() + old(self).recorded().len(),
    ;
}

/// The number of moves `moves_to` and `pawn_moves` give.
pub proof fn lemma_moves_len(from: u8, shift: u8, tos: Seq<u8>, ff: u8, ft: u8)
    ensures
        moves_to(from, tos, ff, ft).len() == tos.len(),
        pawn_moves(shift, tos, ff, ft).len() == tos.len(),
        promotion_moves(shift, tos, ff).len() == 4 * tos.len(),
    decreases tos.len(),
{
    if tos.len() > 0 {
        lemma_moves_len(from, shift, tos.drop_last(), ff, ft);
    }
}

/// One more square at the end of the list adds its moves at the end.
proof fn lemma_moves_push(from: u8, shift: u8, tos: Seq<u8>, to: u8, ff: u8, ft: u8)
    ensures
        moves_to(from, tos.push(to), ff, ft) == moves_to(from, tos, ff, ft).push(Move(from | ff, to | ft)),
        pawn_moves(shift, tos.push(to), ff, ft) == pawn_moves(shift, tos, ff, ft).push(
            Move(source(to, shift) | ff, to | ft),
        ),
        promotion_moves(shift, tos.push(to), ff) == promotion_moves(shift, tos, ff) + promotions(
            source(to, shift),
            to,
            ff,
        ),
{
    assert(tos.push(to).drop_last() =~= tos);
}

/// A list that keeps every move it is given.
#[derive(Debug)]
pub struct MoveVec {
    moves: Vec<Move>,
}

/// What looking up a move by its squares finds.
pub enum FindMoveResult {
    Move(Move),
    Promotions([Move; 4]),
    Nothing,
}

/// The moves of `s` from `from` to `to`, in order.
pub open spec fn matching(s: Seq<Move>, from: u8, to: u8) -> Seq<Move>
    decreases s.len(),
{
    if s.len() == 0 {
        Seq::empty()
    } else {
        let m = s.last();
        let rest = matching(s.drop_last(), from, to);
        if m.0 & 63 == from && m.1 & 63 == to {
            rest.push(m)
        } else {
            rest
        }
    }
}

/// The moves of `s` from `from`, in order.
pub open spec fn moves_from(s: Seq<Move>, from: u8) -> Seq<Move>
    decreases s.len(),
{
    if s.len() == 0 {
        Seq::empty()
    } else {
        let m = s.last();
        let rest = moves_from(s.drop_last(), from);
        if m.0 & 63 == from {
            rest.push(m)
        } else {
            rest
        }
    }
}

impl MoveVec {
    /// The moves of this list.
    pub closed spec fn view(&self) -> Seq<Move> {
        self.moves@
    }

    /// The move from `from` to `to`, or the four promotions from `from` to
    /// `to`, or none.
    pub fn find(&self, from: Square, to: Square) -> (r: FindMoveResult)
        requires
            matching(self.view(), from.0, to.0).len() == 0 || matching(self.view(), from.0, to.0).len() == 1
                || matching(self.view(), from.0, to.0).len() == 4,
        ensures
            ({
                let ms = matching(self.view(), from.0, to.0);
                &&& ms.len() == 0 ==> r is Nothing
                &&& ms.len() == 1 ==> r == FindMoveResult::Move(ms[0])
                &&& ms.len() == 4 ==> r == FindMoveResult::Promotions([ms[0], ms[1], ms[2], ms[3]])
            }),
    {
        let mut m: Vec<Move> = Vec::new();
        let mut i: usize = 0;
        while i < self.moves.len()
            invariant
                i <= self.moves.len(),
                m@ == matching(self.moves@.subrange(0, i as int), from.0, to.0),
            decreases self.moves.len() - i,
        {
            let mv = self.moves[i];
            proof {
                assert(self.moves@.subrange(0, i + 1).drop_last() =~= self.moves@.subrange(0, i as int));
            }
            if mv.from().0 == from.0 && mv.to().0 == to.0 {
                m.push(mv);
            }
            i = i + 1;
        }
        assert(self.moves@.subrange(0, i as int) =~= self.moves@);
        if m.len() == 0 {
            FindMoveResult::Nothing
        } else if m.len() == 1 {
            FindMoveResult::Move(m[0])
        } else {
            FindMoveResult::Promotions([m[0], m[1], m[2], m[3]])
        }
    }

    /// The moves from `s`.
    pub fn from(&self, s: Square) -> (r: Vec<Move>)
        ensures
            r@ == moves_from(self.view(), s.0),
    {
        let mut m: Vec<Move> = Vec::new();
        let mut i: usize = 0;
        while i < self.moves.len()
            invariant
                i <= self.moves.len(),
                m@ == moves_from(self.moves@.subrange(0, i as int), s.0),
            decreases self.moves.len() - i,
        {
            let mv = self.moves[i];
            proof {
                assert(self.moves@.subrange(0, i + 1).drop_last() =~= self.moves@.subrange(0, i as int));
            }
            if mv.from().0 == s.0 {
                m.push(mv);
            }
            i = i + 1;
        }
        assert(self.moves@.subrange(0, i as int) =~= self.moves@);
        m
    }

    /// The moves of this list, in the order they were added.
    pub fn iter(&self) -> (r: std::slice::Iter<'_, Move>)
        ensures
            r.remaining() == self.view().as_ref(),
    {
        let slice = self.moves.as_slice();
        let r = slice.iter();
        proof {
            vstd::std_specs::slice::axiom_spec_slice_iter(slice);
        }
        r
    }

    /// The move at position `i`.
    pub fn get(&self, i: usize) -> (r: Move)
        requires
            i < self.view().len(),
        ensures
            r == self.view()[i as int],
    {
        self.moves[i]
    }

    /// The number of moves.
    pub fn len(&self) -> (r: usize)
        ensures
            r == self.view().len(),
    {
        self.moves.len()
    }

    /// An empty list.
    pub fn new() -> (r: Self)
        ensures
            r.view() == Seq::<Move>::empty(),
    {
        MoveVec { moves: Vec::with_capacity(60) }
    }

    /// Adds a move from `from` to each square of `targets`, tagged with `ff`
    /// and `ft`.
    fn insert_moves(&mut self, from: Square, targets: Board, ff: u8, ft: u8)
        requires
            from.0 < 64,
            old(self).moves@.len() + popcount(targets.0) <= usize::MAX,
        ensures
            final(self).moves@ == old(self).moves@ + moves_to(from.0, squares(targets.0), ff, ft),
    {
        let mut it = targets.0;
        let ghost mut done: Seq<u8> = Seq::empty();
        proof {
            lemma_squares(targets.0);
            lemma_moves_len(from.0, 0, squares(targets.0), ff, ft);
        }
        while it != 0
            invariant
                from.0 < 64,
                done + squares(it) == squares(targets.0),
                self.moves@ == old(self).moves@ + moves_to(from.0, done, ff, ft),
                old(self).moves@.len() + squares(targets.0).len() <= usize::MAX,
            decreases it,
        {
            proof {
                lemma_lowest(it);
                crate::squares::lemma_clear_lowest_smaller(it, u64_trailing_zeros(it) as u64);
                lemma_moves_len(from.0, 0, done, ff, ft);
                lemma_moves_push(from.0, 0, done, u64_trailing_zeros(it) as u8, ff, ft);
            }
            let t = it.trailing_zeros();
            let to = Square(t as u8);
            self.moves.push(Move(from.0 | ff, to.0 | ft));
            it = it ^ (1u64 << t);
            proof {
                assert(done.push(t as u8) + squares(it) =~= done + (seq![t as u8] + squares(it)));
                done = done.push(t as u8);
            }
        }
        assert(done =~= squares(targets.0));
    }

    /// Adds a pawn move to each square of `targets`, coming from `shift`
    /// squares back, tagged with `ff` and `ft`.
    fn insert_moves_by_shift(&mut self, shift: u8, targets: Board, ff: u8, ft: u8)
        requires
            shift <= 64,
            old(self).moves@.len() + popcount(targets.0) <= usize::MAX,
        ensures
            final(self).moves@ == old(self).moves@ + pawn_moves(shift, squares(targets.0), ff, ft),
    {
        let mut it = targets.0;
        let ghost mut done: Seq<u8> = Seq::empty();
        proof {
            lemma_squares(targets.0);
            lemma_moves_len(0, shift, squares(targets.0), ff, ft);
        }
        while it != 0
            invariant
                shift <= 64,
                done + squares(it) == squares(targets.0),
                self.moves@ == old(self).moves@ + pawn_moves(shift, done, ff, ft),
                old(self).moves@.len() + squares(targets.0).len() <= usize::MAX,
            decreases it,
        {
            proof {
                lemma_lowest(it);
                crate::squares::lemma_clear_lowest_smaller(it, u64_trailing_zeros(it) as u64);
                lemma_moves_len(0, shift, done, ff, ft);
                lemma_moves_push(0, shift, done, u64_trailing_zeros(it) as u8, ff, ft);
            }
            let t = it.trailing_zeros();
            let to = Square(t as u8);
            let from = to.rotate_right(shift);
            self.moves.push(Move(from.0 | ff, to.0 | ft));
            it = it ^ (1u64 << t);
            proof {
                assert(done.push(t as u8) + squares(it) =~= done + (seq![t as u8] + squares(it)));
                done = done.push(t as u8);
            }
        }
        assert(done =~= squares(targets.0));
    }

    /// Adds the four promotions of a pawn arriving on each square of
    /// `targets`, coming from `shift` squares back, tagged with `ff`.
    fn insert_promos_by_shift(&mut self, shift: u8, targets: Board, ff: u8)
        requires
            shift <= 64,
            old(self).moves@.len() + 4 * popcount(targets.0) <= usize::MAX,
        ensures
            final(self).moves@ == old(self).moves@ + promotion_moves(shift, squares(targets.0), ff),
    {
        let mut it = targets.0;
        let ghost mut done: Seq<u8> = Seq::empty();
        proof {
            lemma_squares(targets.0);
            lemma_moves_len(0, shift, squares(targets.0), ff, 0);
        }
        while it != 0
            invariant
                shift <= 64,
                done + squares(it) == squares(targets.0),
                self.moves@ == old(self).moves@ + promotion_moves(shift, done, ff),
                old(self).moves@.len() + 4 * squares(targets.0).len() <= usize::MAX,
            decreases it,
        {
            proof {
                lemma_lowest(it);
                crate::squares::lemma_clear_lowest_smaller(it, u64_trailing_zeros(it) as u64);
                lemma_moves_len(0, shift, done, ff, 0);
                lemma_moves_push(0, shift, done, u64_trailing_zeros(it) as u8, ff, 0);
            }
            let t = it.trailing_zeros();
            let to = Square(t as u8);
            let from = to.rotate_right(shift);
            self.moves.push(Move(from.0 | ff, to.0));
            self.moves.push(Move(from.0 | ff, to.0 | 0x40));
            self.moves.push(Move(from.0 | ff, to.0 | 0x80));
            self.moves.push(Move(from.0 | ff, to.0 | 0xC0));
            it = it ^ (1u64 << t);
            proof {
                assert(done.push(t as u8) + squares(it) =~= done + (seq![t as u8] + squares(it)));
                done = done.push(t as u8);
            }
        }
        assert(done =~= squares(targets.0));
    }
}

impl MoveAdder for MoveVec {
    open spec fn recorded(&self) -> Seq<Move> {
        self.view()
    }

    open spec fn inv(&self) -> bool {
        true
    }

    open spec fn room(&self) -> nat {
        (usize::MAX - self.view().len()) as nat
    }

    fn add_pushes(&mut self, from: Square, targets: Board) {
        assert(self.moves.len() == self.moves@.len());
        proof {
            lemma_squares(targets.0);
            lemma_moves_len(from.0, 0, squares(targets.0), 0, 0);
        }
        self.insert_moves(from, targets, 0, 0);
    }

    fn add_captures(&mut self, from: Square, targets: Board) {
        assert(self.moves.len() == self.moves@.len());
        proof {
            lemma_squares(targets.0);
            lemma_moves_len(from.0, 0, squares(targets.0), 0x40, 0);
        }
        self.insert_moves(from, targets, 0x40, 0);
    }

    fn add_castle(&mut self, from: Square, to: Square, castle: Castle) {
        assert(self.moves.len() == self.moves@.len());
        self.moves.push(Move::new_castle(from, to, castle));
        assert(self.moves@ =~= old(self).moves@ + castle_seq(from.0, to.0, castle.0));
    }

    fn add_pawn_ep_capture(&mut self, from: Square, to: Square) {
        assert(self.moves.len() == self.moves@.len());
        self.moves.push(Move::new_capture_en_passant(from, to));
        assert(self.moves@ =~= old(self).moves@ + ep_seq(from.0, to.0));
    }

    fn add_pawn_pushes(&mut self, shift: u8, targets: Board) {
        assert(self.moves.len() == self.moves@.len());
        proof {
            lemma_squares(targets.0 & END_RANKS);
            lemma_squares(targets.0 & !END_RANKS);
            lemma_moves_len(0, shift, squares(targets.0 & END_RANKS), 0x80, 0);
            lemma_moves_len(0, shift, squares(targets.0 & !END_RANKS), 0, 0);
        }
        self.insert_promos_by_shift(shift, Board(targets.0 & END_RANKS), 0x80);
        self.insert_moves_by_shift(shift, Board(targets.0 & !END_RANKS), 0, 0);
        assert(self.moves@ =~= old(self).moves@ + pawn_push_seq(shift, targets.0));
    }

    fn add_double_pawn_pushes(&mut self, shift: u8, targets: Board) {
        assert(self.moves.len() == self.moves@.len());
        proof {
            lemma_squares(targets.0);
            lemma_moves_len(0, shift, squares(targets.0), 0, 0x40);
        }
        self.insert_moves_by_shift(shift, targets, 0, 0x40);
    }

    fn add_pawn_captures(&mut self, shift: u8, targets: Board) {
        assert(self.moves.len() == self.moves@.len());
        proof {
            lemma_squares(targets.0 & END_RANKS);
            lemma_squares(targets.0 & !END_RANKS);
            lemma_moves_len(0, shift, squares(targets.0 & END_RANKS), 0xC0, 0);
            lemma_moves_len(0, shift, squares(targets.0 & !END_RANKS), 0x40, 0);
        }
        self.insert_promos_by_shift(shift, Board(targets.0 & END_RANKS), 0xC0);
        self.insert_moves_by_shift(shift, Board(targets.0 & !END_RANKS), 0x40, 0);
        assert(self.moves@ =~= old(self).moves@ + pawn_capture_seq(shift, targets.0));
    }
}

/// What a counter tallies beside the moves themselves.
pub enum Tally {
    Capture,
    Castle,
    Promotion,
    EnPassant,
}

/// Whether `m` is tallied under `t`: a capture has the capture bit in its
/// first byte, a castle and a promotion are what `castle_spec` and
/// `promote_spec` read, and an en-passant capture is what
/// `is_en_passant_spec` reads.
pub open spec fn tallied(m: Move, t: Tally) -> bool {
    match t {
        Tally::Capture => m.is_capture_spec(),
        Tally::Castle => m.castle_spec() is Some,
        Tally::Promotion => m.promote_spec() is Some,
        Tally::EnPassant => m.is_en_passant_spec(),
    }
}

/// How many moves of `s` are tallied under `t`.
pub open spec fn tally(s: Seq<Move>, t: Tally) -> nat
    decreases s.len(),
{
    if s.len() == 0 {
        0
    } else {
        tally(s.drop_last(), t) + if tallied(s.last(), t) { 1nat } else { 0nat }
    }
}

/// The tally of two lists one after the other is the sum of theirs.
pub proof fn lemma_tally_add(a: Seq<Move>, b: Seq<Move>, t: Tally)
    ensures
        tally(a + b, t) == tally(a, t) + tally(b, t),
    decreases b.len(),
{
    if b.len() > 0 {
        assert((a + b).drop_last() =~= a + b.drop_last());
        lemma_tally_add(a, b.drop_last(), t);
    } else {
        assert(a + b =~= a);
    }
}

/// The same, for every tally at once.
pub proof fn lemma_tally_add_all(a: Seq<Move>, b: Seq<Move>)
    ensures
        forall|t: Tally| #[trigger] tally(a + b, t) == tally(a, t) + tally(b, t),
{
    assert forall|t: Tally| #[trigger] tally(a + b, t) == tally(a, t) + tally(b, t) by {
        lemma_tally_add(a, b, t);
    }
}

/// A list of one move tallies that move alone.
pub proof fn lemma_tally_one(m: Move, t: Tally)
    ensures
        tally(seq![m], t) == if tallied(m, t) { 1nat } else { 0nat },
{
    assert(seq![m].drop_last() =~= Seq::<Move>::empty());
    assert(seq![m].last() == m);
    assert(tally(Seq::<Move>::empty(), t) == 0);
    reveal_with_fuel(tally, 2);
}

/// The flag bits of a square number tagged with each of the four flag pairs.
pub proof fn lemma_flag_bits()
    by (bit_vector)
    ensures
        forall|x: u8| #![trigger x | 0u8] x < 64 ==> (x | 0) & 0x40 == 0 && (x | 0) & 0x80 == 0 && (x | 0) & 0xC0 == 0
            && x | 0 == x && (x | 0) & 63 == x,
        forall|x: u8| #![trigger x | 0x40u8] x < 64 ==> (x | 0x40) & 0x40 == 0x40 && (x | 0x40) & 0x80 == 0
            && (x | 0x40) & 0xC0 == 0x40 && (x | 0x40) & 63 == x,
        forall|x: u8| #![trigger x | 0x80u8] x < 64 ==> (x | 0x80) & 0x40 == 0 && (x | 0x80) & 0x80 == 0x80
            && (x | 0x80) & 0xC0 == 0x80 && (x | 0x80) & 63 == x,
        forall|x: u8| #![trigger x | 0xC0u8] x < 64 ==> (x | 0xC0) & 0x40 == 0x40 && (x | 0xC0) & 0x80 == 0x80
            && (x | 0xC0) & 0xC0 == 0xC0 && (x | 0xC0) & 63 == x,
        forall|x: u8| #![trigger x & 0xC0u8] x < 64 ==> x & 0x40 == 0 && x & 0x80 == 0 && x & 0xC0 == 0 && x & 63 == x,
        forall|y: u8, w: u8| #![trigger (y | 0x80u8) | w] ((y | 0x80) | w) & 0x80 == 0x80,
{
}

/// Moves of `moves_to` and `pawn_moves` whose flags decide a tally one way
/// add all of them or none.
proof fn lemma_tally_moves(from: u8, shift: u8, tos: Seq<u8>, ff: u8, ft: u8, t: Tally, flag: bool)
    requires
        from < 64,
        forall|k: int| 0 <= k < tos.len() ==> #[trigger] tos[k] < 64,
        forall|x: u8, y: u8| x < 64 && y < 64 ==> #[trigger] tallied(Move(x | ff, y | ft), t) == flag,
    ensures
        tally(moves_to(from, tos, ff, ft), t) == if flag { tos.len() } else { 0 },
        tally(pawn_moves(shift, tos, ff, ft), t) == if flag { tos.len() } else { 0 },
    decreases tos.len(),
{
    if tos.len() > 0 {
        let to = tos.last();
        assert(tos[tos.len() - 1] < 64);
        assert(source(to, shift) < 64);
        assert(tallied(Move(from | ff, to | ft), t) == flag);
        assert(tallied(Move(source(to, shift) | ff, to | ft), t) == flag);
        lemma_tally_moves(from, shift, tos.drop_last(), ff, ft, t, flag);
        let a = moves_to(from, tos.drop_last(), ff, ft);
        let b = pawn_moves(shift, tos.drop_last(), ff, ft);
        assert(a.push(Move(from | ff, to | ft)).drop_last() =~= a);
        assert(b.push(Move(source(to, shift) | ff, to | ft)).drop_last() =~= b);
    }
}

/// Promotions whose first byte decides a tally one way add all of them or none.
proof fn lemma_tally_promotions(shift: u8, tos: Seq<u8>, ff: u8, t: Tally, flag: bool)
    requires
        forall|x: u8, y: u8| x < 64 ==> #[trigger] tallied(Move(x | ff, y), t) == flag,
    ensures
        tally(promotion_moves(shift, tos, ff), t) == if flag { 4 * tos.len() } else { 0 },
    decreases tos.len(),
{
    if tos.len() > 0 {
        let to = tos.last();
        let s = source(to, shift);
        assert(s < 64);
        let p = promotions(s, to, ff);
        assert(tallied(p[0], t) == flag);
        assert(tallied(p[1], t) == flag);
        assert(tallied(p[2], t) == flag);
        assert(tallied(p[3], t) == flag);
        lemma_tally_add(promotion_moves(shift, tos.drop_last(), ff), p, t);
        lemma_tally_promotions(shift, tos.drop_last(), ff, t, flag);
        lemma_tally_one(p[0], t);
        lemma_tally_one(p[1], t);
        lemma_tally_one(p[2], t);
        lemma_tally_one(p[3], t);
        assert(p =~= seq![p[0]] + seq![p[1]] + seq![p[2]] + seq![p[3]]);
        lemma_tally_add(seq![p[0]], seq![p[1]], t);
        lemma_tally_add(seq![p[0]] + seq![p[1]], seq![p[2]], t);
        lemma_tally_add(seq![p[0]] + seq![p[1]] + seq![p[2]], seq![p[3]], t);
    }
}

/// A list that only counts what it is given: all moves, captures, castles,
/// promotions and en-passant captures.
#[derive(Clone, Copy)]
pub struct MoveCounter {
    pub moves: u64,
    pub captures: u64,
    pub castles: u64,
    pub promotions: u32,
    pub ep_captures: u32,
    /// The moves counted, kept for the proofs.
    pub log: Ghost<Seq<Move>>,
}

impl MoveCounter {
    /// A counter at zero.
    pub fn new() -> (r: MoveCounter)
        ensures
            r.moves == 0,
            r.captures == 0,
            r.castles == 0,
            r.promotions == 0,
            r.ep_captures == 0,
            r.log@ == Seq::<Move>::empty(),
    {
        MoveCounter {
            moves: 0,
            captures: 0,
            castles: 0,
            promotions: 0,
            ep_captures: 0,
            log: Ghost(Seq::empty()),
        }
    }
}

impl MoveAdder for MoveCounter {
    open spec fn recorded(&self) -> Seq<Move> {
        self.log@
    }

    open spec fn inv(&self) -> bool {
        &&& self.moves == self.log@.len()
        &&& self.captures == tally(self.log@, Tally::Capture)
        &&& self.castles == tally(self.log@, Tally::Castle)
        &&& self.promotions == tally(self.log@, Tally::Promotion)
        &&& self.ep_captures == tally(self.log@, Tally::EnPassant)
        &&& self.moves <= u32::MAX
        &&& self.captures <= self.moves
        &&& self.castles <= self.moves
        &&& self.promotions <= self.moves
        &&& self.ep_captures <= self.moves
    }

    open spec fn room(&self) -> nat {
        (u32::MAX - self.moves) as nat
    }

    fn add_pushes(&mut self, _from: Square, targets: Board) {
        proof {
            lemma_squares(targets.0);
            lemma_moves_len(_from.0, 0, squares(targets.0), 0, 0);
            lemma_flag_bits();
            lemma_tally_moves(_from.0, 0, squares(targets.0), 0, 0, Tally::Capture, false);
            lemma_tally_moves(_from.0, 0, squares(targets.0), 0, 0, Tally::Castle, false);
            lemma_tally_moves(_from.0, 0, squares(targets.0), 0, 0, Tally::Promotion, false);
            lemma_tally_moves(_from.0, 0, squares(targets.0), 0, 0, Tally::EnPassant, false);
            lemma_tally_add_all(self.log@, push_seq(_from.0, targets.0));
        }
        self.moves = self.moves + targets.occupied() as u64;
        self.log = Ghost(self.log@ + push_seq(_from.0, targets.0));
    }

    fn add_captures(&mut self, _from: Square, targets: Board) {
        proof {
            lemma_squares(targets.0);
            lemma_moves_len(_from.0, 0, squares(targets.0), 0x40, 0);
            lemma_flag_bits();
            lemma_tally_moves(_from.0, 0, squares(targets.0), 0x40, 0, Tally::Capture, true);
            lemma_tally_moves(_from.0, 0, squares(targets.0), 0x40, 0, Tally::Castle, false);
            lemma_tally_moves(_from.0, 0, squares(targets.0), 0x40, 0, Tally::Promotion, false);
            lemma_tally_moves(_from.0, 0, squares(targets.0), 0x40, 0, Tally::EnPassant, false);
            lemma_tally_add_all(self.log@, capture_seq(_from.0, targets.0));
        }
        let count = targets.occupied() as u64;
        self.moves = self.moves + count;
        self.captures = self.captures + count;
        self.log = Ghost(self.log@ + capture_seq(_from.0, targets.0));
    }

    fn add_castle(&mut self, _from: Square, _to: Square, _castle: Castle) {
        proof {
            let m = Move(_from.0, _to.0 | 0x80 | (_castle.0 << 6));
            lemma_flag_bits();
            assert(_from.0 & 0xC0 == 0);
            assert(m.1 & 0x80 == 0x80);
            lemma_tally_one(m, Tally::Capture);
            lemma_tally_one(m, Tally::Castle);
            lemma_tally_one(m, Tally::Promotion);
            lemma_tally_one(m, Tally::EnPassant);
            lemma_tally_add_all(self.log@, castle_seq(_from.0, _to.0, _castle.0));
        }
        self.moves = self.moves + 1;
        self.castles = self.castles + 1;
        self.log = Ghost(self.log@ + castle_seq(_from.0, _to.0, _castle.0));
    }

    fn add_pawn_ep_capture(&mut self, _from: Square, _to: Square) {
        proof {
            let m = Move(_from.0 | 0x40, _to.0 | 0x40);
            lemma_flag_bits();
            assert(m.0 & 0xC0 == 0x40);
            assert(m.1 & 0xC0 == 0x40);
            lemma_tally_one(m, Tally::Capture);
            lemma_tally_one(m, Tally::Castle);
            lemma_tally_one(m, Tally::Promotion);
            lemma_tally_one(m, Tally::EnPassant);
            lemma_tally_add_all(self.log@, ep_seq(_from.0, _to.0));
        }
        self.moves = self.moves + 1;
        self.captures = self.captures + 1;
        self.ep_captures = self.ep_captures + 1;
        self.log = Ghost(self.log@ + ep_seq(_from.0, _to.0));
    }

    fn add_pawn_pushes(&mut self, shift: u8, targets: Board) {
        proof {
            lemma_squares(targets.0 & END_RANKS);
            lemma_squares(targets.0 & !END_RANKS);
            lemma_moves_len(0, shift, squares(targets.0 & END_RANKS), 0x80, 0);
            lemma_moves_len(0, shift, squares(targets.0 & !END_RANKS), 0, 0);
            lemma_flag_bits();
            let ends = squares(targets.0 & END_RANKS);
            let rest = squares(targets.0 & !END_RANKS);
            lemma_tally_promotions(shift, ends, 0x80, Tally::Capture, false);
            lemma_tally_promotions(shift, ends, 0x80, Tally::Castle, false);
            lemma_tally_promotions(shift, ends, 0x80, Tally::Promotion, true);
            lemma_tally_promotions(shift, ends, 0x80, Tally::EnPassant, false);
            lemma_tally_moves(0, shift, rest, 0, 0, Tally::Capture, false);
            lemma_tally_moves(0, shift, rest, 0, 0, Tally::Castle, false);
            lemma_tally_moves(0, shift, rest, 0, 0, Tally::Promotion, false);
            lemma_tally_moves(0, shift, rest, 0, 0, Tally::EnPassant, false);
            lemma_tally_add_all(promotion_moves(shift, ends, 0x80), pawn_moves(shift, rest, 0, 0));
            lemma_tally_add_all(self.log@, pawn_push_seq(shift, targets.0));
        }
        // non-promotions
        self.moves = self.moves + Board(targets.0 & !END_RANKS).occupied() as u64;
        let promo_count = Board(targets.0 & END_RANKS).occupied() as u32 * 4;
        self.moves = self.moves + promo_count as u64;
        self.promotions = self.promotions + promo_count;
        self.log = Ghost(self.log@ + pawn_push_seq(shift, targets.0));
    }

    fn add_double_pawn_pushes(&mut self, shift: u8, targets: Board) {
        proof {
            lemma_squares(targets.0);
            lemma_moves_len(0, shift, squares(targets.0), 0, 0x40);
            lemma_flag_bits();
            lemma_tally_moves(0, shift, squares(targets.0), 0, 0x40, Tally::Capture, false);
            lemma_tally_moves(0, shift, squares(targets.0), 0, 0x40, Tally::Castle, false);
            lemma_tally_moves(0, shift, squares(targets.0), 0, 0x40, Tally::Promotion, false);
            lemma_tally_moves(0, shift, squares(targets.0), 0, 0x40, Tally::EnPassant, false);
            lemma_tally_add_all(self.log@, double_push_seq(shift, targets.0));
        }
        self.moves = self.moves + targets.occupied() as u64;
        self.log = Ghost(self.log@ + double_push_seq(shift, targets.0));
    }

    fn add_pawn_captures(&mut self, shift: u8, targets: Board) {
        proof {
            lemma_squares(targets.0 & END_RANKS);
            lemma_squares(targets.0 & !END_RANKS);
            lemma_moves_len(0, shift, squares(targets.0 & END_RANKS), 0xC0, 0);
            lemma_moves_len(0, shift, squares(targets.0 & !END_RANKS), 0x40, 0);
            lemma_flag_bits();
            let ends = squares(targets.0 & END_RANKS);
            let rest = squares(targets.0 & !END_RANKS);
            lemma_tally_promotions(shift, ends, 0xC0, Tally::Capture, true);
            lemma_tally_promotions(shift, ends, 0xC0, Tally::Castle, false);
            lemma_tally_promotions(shift, ends, 0xC0, Tally::Promotion, true);
            lemma_tally_promotions(shift, ends, 0xC0, Tally::EnPassant, false);
            lemma_tally_moves(0, shift, rest, 0x40, 0, Tally::Capture, true);
            lemma_tally_moves(0, shift, rest, 0x40, 0, Tally::Castle, false);
            lemma_tally_moves(0, shift, rest, 0x40, 0, Tally::Promotion, false);
            lemma_tally_moves(0, shift, rest, 0x40, 0, Tally::EnPassant, false);
            lemma_tally_add_all(promotion_moves(shift, ends, 0xC0), pawn_moves(shift, rest, 0x40, 0));
            lemma_tally_add_all(self.log@, pawn_capture_seq(shift, targets.0));
        }
        // non-promotions
        let non_promo_count = Board(targets.0 & !END_RANKS).occupied() as u32;
        let promo_count = Board(targets.0 & END_RANKS).occupied() as u32 * 4;
        self.promotions = self.promotions + promo_count;
        let total = (promo_count + non_promo_count) as u64;
        self.moves = self.moves + total;
        self.captures = self.captures + total;
        self.log = Ghost(self.log@ + pawn_capture_seq(shift, targets.0));
    }
}

} // verus!
