//! Legal move generation.
//!
//! The generator finds the pieces giving check to the king of the side to
//! move and the pieces pinned against it, the squares the opponent attacks
//! (the king taken off the board), and from these the squares each piece may
//! capture on and move to; it hands the moves to a `MoveAdder` in a fixed
//! order: sliders, knights, pawn pushes, pawn captures, pinned pawns,
//! castles, king moves; in double check only king moves.
use vstd::prelude::*;
use vstd::std_specs::bits::{u64_trailing_zeros, axiom_u64_trailing_zeros};
use crate::bits::{bit, popcount, rotl, lemma_bit_and};
use crate::board::{
    Board, king_spec, knight_spec, straight_spec, diagonal_spec, NOT_FILE_A, NOT_FILE_H, RANK_4,
    RANK_5, FILE_A,
};
use crate::castle::Castle;
use crate::move_list::{
    MoveAdder, MoveVec, push_seq, capture_seq, pawn_push_seq, double_push_seq, pawn_capture_seq,
    castle_seq, ep_seq, source,
};
use crate::moves::Move;
use crate::piece::{Piece, KING, QUEEN, ROOK, BISHOP, KNIGHT, PAWN};
use crate::position::Position;
use crate::side::Side;
use crate::square::{Square, single, between_spec, line_spec};
use crate::squares::{squares, lemma_squares, lemma_lowest, lemma_clear_lowest_smaller};

verus! {

/// The bitboard of piece code `p` in `pos`.
pub open spec fn pbits(pos: Position, p: int) -> u64 {
    pos.piece_board(p).0
}

/// The side to move.
pub open spec fn stm(pos: Position) -> u8 {
    pos.state_spec().side_to_move.0
}

/// The opponent of the side to move.
pub open spec fn opp(pos: Position) -> u8 {
    (1 - stm(pos)) as u8
}

/// The occupied squares.
pub open spec fn occ(pos: Position) -> u64 {
    pos.side_board(0).0 | pos.side_board(1).0
}

/// The shift of a pawn capture of `side` towards the a-file (`dir` 0) or the
/// h-file (`dir` 1).
pub open spec fn pawn_shift(side: u8, dir: int) -> u8 {
    if side == 0 {
        if dir == 0 { 7 } else { 9 }
    } else {
        if dir == 0 { 55 } else { 57 }
    }
}

/// The squares a pawn capture towards `dir` can land on without wrapping.
pub open spec fn pawn_mask(dir: int) -> u64 {
    if dir == 0 { NOT_FILE_H } else { NOT_FILE_A }
}

/// The square of the king of the side to move.
pub open spec fn king_square(pos: Position) -> u8 {
    u64_trailing_zeros(pbits(pos, 2 * KING + stm(pos))) as u8
}

/// The opponent's queens and rooks.
pub open spec fn straight_attackers(pos: Position) -> u64 {
    pbits(pos, 2 * QUEEN + opp(pos)) | pbits(pos, 2 * ROOK + opp(pos))
}

/// The opponent's queens and bishops.
pub open spec fn diagonal_attackers(pos: Position) -> u64 {
    pbits(pos, 2 * QUEEN + opp(pos)) | pbits(pos, 2 * BISHOP + opp(pos))
}

/// The opponent's sliders that would attack the king on an empty board.
pub open spec fn potential_attackers(pos: Position) -> u64 {
    let k = king_square(pos);
    occ(pos) & ((diagonal_spec(single(k), 0) & diagonal_attackers(pos)) | (straight_spec(single(k), 0)
        & straight_attackers(pos)))
}

/// Scanning the sliders `sqs` aimed at the king on `king`: those with nothing
/// between them and the king give check (first), those with exactly one piece
/// between pin it (the pinned pieces second, the pinners third).
pub open spec fn pin_scan(king: u8, occupied: u64, sqs: Seq<u8>) -> (u64, u64, u64)
    decreases sqs.len(),
{
    if sqs.len() == 0 {
        (0, 0, 0)
    } else {
        let (c, p, q) = pin_scan(king, occupied, sqs.drop_last());
        let sq = sqs.last();
        let between = between_spec(king, sq) & occupied;
        if between == 0 {
            (c | single(sq), p, q)
        } else if popcount(between) == 1 {
            (c, p | between, q | single(sq))
        } else {
            (c, p, q)
        }
    }
}

/// The pieces giving check to the king of the side to move.
pub open spec fn checkers(pos: Position) -> u64 {
    let k = king_square(pos);
    let kings = pbits(pos, 2 * KING + stm(pos));
    let pawns = pbits(pos, 2 * PAWN + opp(pos));
    ((knight_spec(single(k)) & pbits(pos, 2 * KNIGHT + opp(pos))) | (rotl(kings, pawn_shift(stm(pos), 0) as u64)
        & pawn_mask(0) & pawns) | (rotl(kings, pawn_shift(stm(pos), 1) as u64) & pawn_mask(1) & pawns))
        | pin_scan(k, occ(pos), squares(potential_attackers(pos))).0
}

/// The pieces pinned against the king of the side to move.
pub open spec fn pinned(pos: Position) -> u64 {
    pin_scan(king_square(pos), occ(pos), squares(potential_attackers(pos))).1
}

/// The pieces pinning a piece against the king of the side to move.
pub open spec fn pinners(pos: Position) -> u64 {
    pin_scan(king_square(pos), occ(pos), squares(potential_attackers(pos))).2
}

/// The squares the opponent attacks, the king of the side to move taken off
/// the board.
pub open spec fn attacked(pos: Position) -> u64 {
    let without_king = occ(pos) & !pbits(pos, 2 * KING + stm(pos));
    let opp_king = u64_trailing_zeros(pbits(pos, 2 * KING + opp(pos))) as u8;
    let pawns = pbits(pos, 2 * PAWN + opp(pos));
    (((king_spec(single(opp_king)) | straight_spec(straight_attackers(pos), without_king)) | diagonal_spec(
        diagonal_attackers(pos),
        without_king,
    )) | knight_spec(pbits(pos, 2 * KNIGHT + opp(pos)))) | (rotl(pawns, pawn_shift(opp(pos), 0) as u64)
        & pawn_mask(0)) | (rotl(pawns, pawn_shift(opp(pos), 1) as u64) & pawn_mask(1))
}

/// The targets of a piece of kind `kind` on `from`: rook-like (0), rook-like
/// along the line to `king` (1), bishop-like (2), bishop-like along the line
/// to `king` (3), knight (4).
pub open spec fn group_targets(kind: u8, from: u8, occupied: u64, king: u8) -> u64 {
    if kind == 0 {
        straight_spec(single(from), occupied)
    } else if kind == 1 {
        straight_spec(single(from), occupied) & line_spec(from, king)
    } else if kind == 2 {
        diagonal_spec(single(from), occupied)
    } else if kind == 3 {
        diagonal_spec(single(from), occupied) & line_spec(from, king)
    } else {
        knight_spec(single(from))
    }
}

/// For each square of `sqs`, the captures onto `capture_mask` and then the
/// pushes onto `push_mask` of a piece of kind `kind` standing there.
pub open spec fn group_seq(
    sqs: Seq<u8>,
    kind: u8,
    occupied: u64,
    king: u8,
    capture_mask: u64,
    push_mask: u64,
) -> Seq<Move>
    decreases sqs.len(),
{
    if sqs.len() == 0 {
        Seq::empty()
    } else {
        let from = sqs.last();
        let t = group_targets(kind, from, occupied, king);
        group_seq(sqs.drop_last(), kind, occupied, king, capture_mask, push_mask) + capture_seq(
            from,
            t & capture_mask,
        ) + push_seq(from, t & push_mask)
    }
}

/// The moves of the sliders of the side to move.
pub open spec fn slider_seq(pos: Position, capture_mask: u64, push_mask: u64, pinned: u64, king: u8) -> Seq<Move> {
    let o = occ(pos);
    let s = stm(pos);
    let straight = pbits(pos, 2 * QUEEN + s) | pbits(pos, 2 * ROOK + s);
    let diagonal = pbits(pos, 2 * QUEEN + s) | pbits(pos, 2 * BISHOP + s);
    group_seq(squares(straight & !pinned), 0, o, king, capture_mask, push_mask) + group_seq(
        squares(straight & pinned),
        1,
        o,
        king,
        capture_mask,
        push_mask,
    ) + group_seq(squares(diagonal & !pinned), 2, o, king, capture_mask, push_mask) + group_seq(
        squares(diagonal & pinned),
        3,
        o,
        king,
        capture_mask,
        push_mask,
    )
}

/// The moves of the knights of the side to move standing on `from_mask`.
pub open spec fn knight_seq(pos: Position, capture_mask: u64, push_mask: u64, from_mask: u64) -> Seq<Move> {
    group_seq(squares(pbits(pos, 2 * KNIGHT + stm(pos)) & from_mask), 4, 0, 0, capture_mask, push_mask)
}

/// The moves of the king of the side to move.
pub open spec fn king_seq(pos: Position, capture_mask: u64, push_mask: u64) -> Seq<Move> {
    let from = king_square(pos);
    capture_seq(from, king_spec(single(from)) & capture_mask) + push_seq(from, king_spec(single(from)) & push_mask)
}

/// The shift of a pawn push of `side`.
pub open spec fn push_shift(side: u8) -> u8 {
    if side == 0 { 8 } else { 56 }
}

/// The rank a double push of `side` lands on.
pub open spec fn double_rank(side: u8) -> u64 {
    if side == 0 { RANK_4 } else { RANK_5 }
}

/// The pushes of the pawns of the side to move standing on `from_mask`.
pub open spec fn pawn_pushes_seq(pos: Position, to_mask: u64, from_mask: u64) -> Seq<Move> {
    let s = stm(pos);
    let movers = pbits(pos, 2 * PAWN + s) & from_mask;
    let shift = push_shift(s);
    let empty = !occ(pos);
    let singles = rotl(movers, shift as u64) & empty;
    let doubles = rotl(singles, shift as u64) & (double_rank(s) & empty & to_mask);
    if movers == 0 {
        Seq::empty()
    } else {
        pawn_push_seq(shift, singles & to_mask) + double_push_seq(((shift * 2) % 64) as u8, doubles & to_mask)
    }
}

/// The square taken by an en-passant capture from `from` to `to`.
pub open spec fn ep_victim(from: u8, to: u8) -> u8 {
    (from & 56) | (to & 7)
}

/// Whether taking en passant from `from` with the pawn on `victim` would
/// open a rank or file between the king of `side` and an enemy rook or queen.
pub open spec fn ep_discovers_check(pos: Position, from: u8, victim: u8, side: u8) -> bool {
    let o = occ(pos) ^ single(from) ^ single(victim);
    let attacker = (1 - side) as u8;
    let straight = pbits(pos, 2 * QUEEN + attacker) | pbits(pos, 2 * ROOK + attacker);
    let king = u64_trailing_zeros(pbits(pos, 2 * KING + side)) as u8;
    straight_spec(single(king), o) & straight != 0
}

/// The en-passant capture towards `dir` by the pawns `movers`, if one lands
/// on the target `ep` and reaches `push_mask` or takes a piece of
/// `capture_mask`, checked for a discovered check when `check` holds.
pub open spec fn ep_capture_seq(
    pos: Position,
    movers: u64,
    dir: int,
    ep: u8,
    capture_mask: u64,
    push_mask: u64,
    restrict: u64,
    check: bool,
) -> Seq<Move> {
    let s = stm(pos);
    let shift = pawn_shift(s, dir);
    let targets = rotl(movers, shift as u64) & pawn_mask(dir) & single(ep) & restrict;
    let from = source(ep, shift);
    let victim = ep_victim(from, ep);
    if targets != 0 && ((single(ep) & push_mask) | (single(victim) & capture_mask)) != 0 && !(check
        && ep_discovers_check(pos, from, victim, s)) {
        ep_seq(from, ep)
    } else {
        Seq::empty()
    }
}

/// The captures of the pawns of the side to move standing on `from_mask`.
pub open spec fn pawn_captures_seq(pos: Position, capture_mask: u64, push_mask: u64, from_mask: u64) -> Seq<Move> {
    let s = stm(pos);
    let movers = pbits(pos, 2 * PAWN + s) & from_mask;
    if movers == 0 {
        Seq::empty()
    } else {
        (if capture_mask != 0 {
            pawn_capture_seq(pawn_shift(s, 0), rotl(movers, pawn_shift(s, 0) as u64) & pawn_mask(0) & capture_mask)
                + pawn_capture_seq(
                pawn_shift(s, 1),
                rotl(movers, pawn_shift(s, 1) as u64) & pawn_mask(1) & capture_mask,
            )
        } else {
            Seq::empty()
        }) + match pos.state_spec().en_passant_target {
            Some(ep) => ep_capture_seq(pos, movers, 0, ep.0, capture_mask, push_mask, !0u64, true)
                + ep_capture_seq(pos, movers, 1, ep.0, capture_mask, push_mask, !0u64, true),
            None => Seq::empty(),
        }
    }
}

/// For each pinned pawn on `sqs`, its push and double push.
pub open spec fn pin_push_seq(sqs: Seq<u8>, shift: u8, push_mask: u64, double_mask: u64) -> Seq<Move>
    decreases sqs.len(),
{
    if sqs.len() == 0 {
        Seq::empty()
    } else {
        let singles = rotl(single(sqs.last()), shift as u64) & push_mask;
        let doubles = rotl(singles, shift as u64) & double_mask;
        pin_push_seq(sqs.drop_last(), shift, push_mask, double_mask) + pawn_push_seq(shift, singles)
            + double_push_seq(((shift * 2) % 64) as u8, doubles)
    }
}

/// The moves of the pawns of the side to move pinned against its king: along
/// the king's file, or capturing along the king's diagonals.
pub open spec fn pin_ray_seq(pos: Position, capture_mask: u64, push_mask: u64, king: u8, pinned: u64) -> Seq<Move> {
    let s = stm(pos);
    let movers = pbits(pos, 2 * PAWN + s) & pinned;
    let shift = push_shift(s);
    let can_push = movers & (FILE_A << (king & 7));
    let diags = diagonal_spec(single(king), 0);
    let can_capture = movers & diags;
    if movers == 0 {
        Seq::empty()
    } else {
        pin_push_seq(squares(can_push), shift, push_mask, push_mask & double_rank(s)) + pawn_capture_seq(
            pawn_shift(s, 0),
            rotl(can_capture, pawn_shift(s, 0) as u64) & pawn_mask(0) & capture_mask & diags,
        ) + pawn_capture_seq(
            pawn_shift(s, 1),
            rotl(can_capture, pawn_shift(s, 1) as u64) & pawn_mask(1) & capture_mask & diags,
        ) + match pos.state_spec().en_passant_target {
            Some(ep) => ep_capture_seq(pos, can_capture, 0, ep.0, capture_mask, diags, diags, false)
                + ep_capture_seq(pos, can_capture, 1, ep.0, capture_mask, diags, diags, false),
            None => Seq::empty(),
        }
    }
}

/// The squares that must be empty for a castle.
pub open spec fn castle_blockers(side: u8, castle: u8) -> u64 {
    if side == 0 {
        if castle == 0 { 0x60 } else { 0x0E }
    } else {
        if castle == 0 { 0x6000_0000_0000_0000 } else { 0x0E00_0000_0000_0000 }
    }
}

/// The squares that must not be attacked for a castle.
pub open spec fn castle_safe(side: u8, castle: u8) -> u64 {
    if side == 0 {
        if castle == 0 { 0x70 } else { 0x1C }
    } else {
        if castle == 0 { 0x7000_0000_0000_0000 } else { 0x1C00_0000_0000_0000 }
    }
}

/// The castle `castle` of the side to move, if its right is held, the
/// squares between king and rook are empty and the king's path is not
/// attacked.
pub open spec fn one_castle_seq(pos: Position, attacked: u64, castle: u8) -> Seq<Move> {
    let s = stm(pos);
    let rights = pos.state_spec().castling_rights.0;
    let from: u8 = if s == 0 { 4 } else { 60 };
    let to: u8 = if castle == 0 { (from + 2) as u8 } else { (from - 2) as u8 };
    if (rights >> (2 * s + castle) as u8) & 1 == 1 && occ(pos) & castle_blockers(s, castle) == 0 && attacked
        & castle_safe(s, castle) == 0 {
        castle_seq(from, to, castle)
    } else {
        Seq::empty()
    }
}

/// The moves of every piece but the king, given the squares they may
/// capture on and move to, the pinned pieces, the king's square and the
/// pinners.
#[verifier::opaque]
pub open spec fn piece_seq(pos: Position, capture_mask: u64, push_mask: u64, pinned: u64, king: u8, pinners: u64) -> Seq<Move> {
    slider_seq(pos, capture_mask, push_mask, pinned, king) + knight_seq(pos, capture_mask, push_mask, !pinned)
        + pawn_pushes_seq(pos, push_mask, !pinned) + pawn_captures_seq(pos, capture_mask, push_mask, !pinned)
        + pin_ray_seq(pos, capture_mask & pinners, push_mask, king, pinned)
}

/// The squares a piece other than the king may capture on.
pub open spec fn capture_targets(pos: Position) -> u64 {
    if popcount(checkers(pos)) == 0 { pos.side_board(opp(pos) as int).0 } else { checkers(pos) }
}

/// The squares a piece other than the king may move to: any empty square out
/// of check, the squares between king and checker in check by one slider,
/// none else.
pub open spec fn push_targets(pos: Position) -> u64 {
    let ch = checkers(pos);
    let checker = u64_trailing_zeros(ch) as u8;
    if popcount(ch) == 0 {
        !occ(pos)
    } else if 2 <= pos.grid()[checker as int].0 <= 7 {
        between_spec(king_square(pos), checker)
    } else {
        0
    }
}

/// The castles of the side to move.
pub open spec fn castles_seq(pos: Position) -> Seq<Move> {
    one_castle_seq(pos, attacked(pos), 0) + one_castle_seq(pos, attacked(pos), 1)
}

/// The moves of the king of the side to move onto squares the opponent does
/// not attack.
pub open spec fn safe_king_seq(pos: Position) -> Seq<Move> {
    let at = attacked(pos);
    king_seq(pos, pos.side_board(opp(pos) as int).0 & !at, !occ(pos) & !at)
}

/// The moves the generator hands over for `pos`, in order.
pub open spec fn legal_move_seq(pos: Position) -> Seq<Move> {
    let count = popcount(checkers(pos));
    if count >= 2 {
        safe_king_seq(pos)
    } else {
        piece_seq(pos, capture_targets(pos), push_targets(pos), pinned(pos), king_square(pos), pinners(pos))
            + (if count == 0 { castles_seq(pos) } else { Seq::empty() }) + safe_king_seq(pos)
    }
}

/// Whether the king of the side to move is in check.
pub open spec fn in_check(pos: Position) -> bool {
    checkers(pos) != 0
}

/// Both kings are on the board.
pub open spec fn has_kings(pos: Position) -> bool {
    pbits(pos, 2 * KING + stm(pos)) != 0 && pbits(pos, 2 * KING + opp(pos)) != 0
}

proof fn lemma_group_concat(
    a: Seq<u8>,
    b: Seq<u8>,
    kind: u8,
    occupied: u64,
    king: u8,
    capture_mask: u64,
    push_mask: u64,
)
    ensures
        group_seq(a + b, kind, occupied, king, capture_mask, push_mask) == group_seq(
            a,
            kind,
            occupied,
            king,
            capture_mask,
            push_mask,
        ) + group_seq(b, kind, occupied, king, capture_mask, push_mask),
    decreases b.len(),
{
    if b.len() == 0 {
        assert(a + b =~= a);
    } else {
        assert((a + b).drop_last() =~= a + b.drop_last());
        lemma_group_concat(a, b.drop_last(), kind, occupied, king, capture_mask, push_mask);
    }
}

proof fn lemma_pin_push_concat(a: Seq<u8>, b: Seq<u8>, shift: u8, push_mask: u64, double_mask: u64)
    ensures
        pin_push_seq(a + b, shift, push_mask, double_mask) == pin_push_seq(a, shift, push_mask, double_mask)
            + pin_push_seq(b, shift, push_mask, double_mask),
    decreases b.len(),
{
    if b.len() == 0 {
        assert(a + b =~= a);
    } else {
        assert((a + b).drop_last() =~= a + b.drop_last());
        lemma_pin_push_concat(a, b.drop_last(), shift, push_mask, double_mask);
    }
}

proof fn lemma_pin_scan_push(king: u8, occupied: u64, sqs: Seq<u8>, sq: u8)
    ensures
        pin_scan(king, occupied, sqs.push(sq)) == ({
            let (c, p, q) = pin_scan(king, occupied, sqs);
            let between = between_spec(king, sq) & occupied;
            if between == 0 {
                (c | single(sq), p, q)
            } else if popcount(between) == 1 {
                (c, p | between, q | single(sq))
            } else {
                (c, p, q)
            }
        }),
{
    assert(sqs.push(sq).drop_last() =~= sqs);
}

/// A set is empty exactly when it has no square.
pub proof fn lemma_popcount_zero_iff(x: u64)
    ensures
        (popcount(x) == 0) == (x == 0),
{
    lemma_squares(x);
    if x != 0 {
        lemma_lowest(x);
    }
}

/// The pawn-capture shift and landing mask of `side` towards `dir`.
fn pawn_capture(side: Side, dir: u8) -> (r: (u8, Board))
    requires
        side.valid(),
        dir <= 1,
    ensures
        r.0 == pawn_shift(side.0, dir as int),
        r.1.0 == pawn_mask(dir as int),
{
    let mask = if dir == 0 { Board(NOT_FILE_H) } else { Board(NOT_FILE_A) };
    if side.0 == 0 {
        (if dir == 0 { 7 } else { 9 }, mask)
    } else {
        (if dir == 0 { 55 } else { 57 }, mask)
    }
}

impl Position {
    /// Hands the moves of the pieces of kind `kind` (see `group_targets`)
    /// standing on `movers` to `list`.
    fn add_group<L: MoveAdder>(
        &self,
        movers: Board,
        kind: u8,
        occupied: Board,
        king_sq: Square,
        capture_mask: Board,
        push_mask: Board,
        list: &mut L,
    )
        requires
            old(list).inv(),
            king_sq.0 < 64,
            old(list).room() >= group_seq(squares(movers.0), kind, occupied.0, king_sq.0, capture_mask.0, push_mask.0).len(),
        ensures
            final(list).inv(),
            final(list).recorded() == old(list).recorded() + group_seq(
                squares(movers.0),
                kind,
                occupied.0,
                king_sq.0,
                capture_mask.0,
                push_mask.0,
            ),
            final(list).room() + final(list).recorded().len() == old(list).room() + old(list).recorded().len(),
    {
        let mut it = movers.0;
        let ghost mut done: Seq<u8> = Seq::empty();
        proof {
            lemma_squares(movers.0);
            lemma_group_concat(done, squares(it), kind, occupied.0, king_sq.0, capture_mask.0, push_mask.0);
            assert(done + squares(it) =~= squares(movers.0));
        }
        while it != 0
            invariant
                king_sq.0 < 64,
                done + squares(it) == squares(movers.0),
                list.inv(),
                list.recorded() == old(list).recorded() + group_seq(done, kind, occupied.0, king_sq.0, capture_mask.0, push_mask.0),
                list.room() + list.recorded().len() == old(list).room() + old(list).recorded().len(),
                list.room() >= group_seq(squares(it), kind, occupied.0, king_sq.0, capture_mask.0, push_mask.0).len(),
            decreases it,
        {
            proof {
                lemma_lowest(it);
                lemma_clear_lowest_smaller(it, u64_trailing_zeros(it) as u64);
                lemma_squares(it);
            }
            let t = it.trailing_zeros();
            let from = Square(t as u8);
            let ghost rest = it ^ (1u64 << t);
            proof {
                lemma_group_concat(seq![t as u8], squares(rest), kind, occupied.0, king_sq.0, capture_mask.0, push_mask.0);
                assert(seq![t as u8] =~= Seq::<u8>::empty().push(t as u8));
                assert(Seq::<u8>::empty().push(t as u8).drop_last() =~= Seq::<u8>::empty());
                assert(done.push(t as u8).drop_last() =~= done);
            }
            let targets = if kind == 0 {
                from.straight_attacks(occupied)
            } else if kind == 1 {
                Board(from.straight_attacks(occupied).0 & from.lines_along(king_sq).0)
            } else if kind == 2 {
                from.diagonal_attacks(occupied)
            } else if kind == 3 {
                Board(from.diagonal_attacks(occupied).0 & from.lines_along(king_sq).0)
            } else {
                from.knight_moves()
            };
            list.add_captures(from, Board(targets.0 & capture_mask.0));
            list.add_pushes(from, Board(targets.0 & push_mask.0));
            it = it ^ (1u64 << t);
            proof {
                assert(done.push(t as u8) + squares(it) =~= done + (seq![t as u8] + squares(it)));
                done = done.push(t as u8);
            }
        }
        assert(done =~= squares(movers.0));
    }
}

impl Position {
    /// Hands the moves of the queens, rooks and bishops of the side to move
    /// to `list`; pinned sliders only move along the line to their king.
    fn slider_moves<L: MoveAdder>(
        &self,
        capture_mask: Board,
        push_mask: Board,
        pinned_mask: Board,
        king_sq: Square,
        list: &mut L,
    )
        requires
            self.wf(),
            old(list).inv(),
            king_sq.0 < 64,
            old(list).room() >= slider_seq(*self, capture_mask.0, push_mask.0, pinned_mask.0, king_sq.0).len(),
        ensures
            final(list).inv(),
            final(list).recorded() == old(list).recorded() + slider_seq(*self, capture_mask.0, push_mask.0, pinned_mask.0, king_sq.0),
            final(list).room() + final(list).recorded().len() == old(list).room() + old(list).recorded().len(),
    {
        let side_to_move = self.state().side_to_move;
        let occupied = self.occupied();
        let queens = self.piece(piece_of(QUEEN, side_to_move));
        let rooks = self.piece(piece_of(ROOK, side_to_move));
        let bishops = self.piece(piece_of(BISHOP, side_to_move));
        let diagonal_attackers = Board(queens.0 | bishops.0);
        let straight_attackers = Board(queens.0 | rooks.0);
        self.add_group(Board(straight_attackers.0 & !pinned_mask.0), 0, occupied, king_sq, capture_mask, push_mask, list);
        self.add_group(Board(straight_attackers.0 & pinned_mask.0), 1, occupied, king_sq, capture_mask, push_mask, list);
        self.add_group(Board(diagonal_attackers.0 & !pinned_mask.0), 2, occupied, king_sq, capture_mask, push_mask, list);
        self.add_group(Board(diagonal_attackers.0 & pinned_mask.0), 3, occupied, king_sq, capture_mask, push_mask, list);
        assert(list.recorded() =~= old(list).recorded() + slider_seq(*self, capture_mask.0, push_mask.0, pinned_mask.0, king_sq.0));
    }

    /// Hands the moves of the knights of the side to move standing on
    /// `from_mask` to `list`.
    fn knight_moves<L: MoveAdder>(&self, capture_mask: Board, push_mask: Board, from_mask: Board, list: &mut L)
        requires
            self.wf(),
            old(list).inv(),
            old(list).room() >= knight_seq(*self, capture_mask.0, push_mask.0, from_mask.0).len(),
        ensures
            final(list).inv(),
            final(list).recorded() == old(list).recorded() + knight_seq(*self, capture_mask.0, push_mask.0, from_mask.0),
            final(list).room() + final(list).recorded().len() == old(list).room() + old(list).recorded().len(),
    {
        let side_to_move = self.state().side_to_move;
        let movers = Board(self.piece(piece_of(KNIGHT, side_to_move)).0 & from_mask.0);
        self.add_group(movers, 4, Board(0), Square(0), capture_mask, push_mask, list);
    }

    /// Hands the moves of the king of the side to move to `list`.
    fn king_moves<L: MoveAdder>(&self, capture_mask: Board, push_mask: Board, list: &mut L)
        requires
            self.wf(),
            pbits(*self, 2 * KING + stm(*self)) != 0,
            old(list).inv(),
            old(list).room() >= king_seq(*self, capture_mask.0, push_mask.0).len(),
        ensures
            final(list).inv(),
            final(list).recorded() == old(list).recorded() + king_seq(*self, capture_mask.0, push_mask.0),
            final(list).room() + final(list).recorded().len() == old(list).room() + old(list).recorded().len(),
    {
        let side_to_move = self.state().side_to_move;
        let movers = self.piece(piece_of(KING, side_to_move));
        let from = movers.to_square();
        let capture_targets = Board(from.king_moves().0 & capture_mask.0);
        let push_targets = Board(from.king_moves().0 & push_mask.0);
        list.add_captures(from, capture_targets);
        list.add_pushes(from, push_targets);
    }

    /// Whether taking en passant from the square of `from` with the pawn on
    /// the square of `to` leaves the king of `side` attacked along a rank or
    /// file.
    fn en_passant_move_discovers_check(&self, from: Board, to: Board, side: Side) -> (r: bool)
        requires
            self.wf(),
            side.valid(),
            pbits(*self, 2 * KING + side.0) != 0,
        ensures
            r == ({
                let o = occ(*self) ^ from.0 ^ to.0;
                let attacker = (1 - side.0) as u8;
                let straight = pbits(*self, 2 * QUEEN + attacker) | pbits(*self, 2 * ROOK + attacker);
                let king = u64_trailing_zeros(pbits(*self, 2 * KING + side.0)) as u8;
                straight_spec(single(king), o) & straight != 0
            }),
    {
        let occupied = Board(self.occupied().0 ^ from.0 ^ to.0);
        let attacker = Side(1 - side.0);
        let queens = self.piece(piece_of(QUEEN, attacker));
        let rooks = self.piece(piece_of(ROOK, attacker));
        let straight_attackers = Board(queens.0 | rooks.0);
        let king_sq = self.piece(piece_of(KING, side)).to_square();
        king_sq.straight_attacks(occupied).0 & straight_attackers.0 != 0
    }

    /// Hands the castles of the side to move to `list`: those whose right is
    /// held, whose squares between king and rook are empty, and whose king
    /// path is not in `attacked`.
    fn castles<L: MoveAdder>(&self, attacked: Board, list: &mut L)
        requires
            self.wf(),
            old(list).inv(),
            old(list).room() >= (one_castle_seq(*self, attacked.0, 0) + one_castle_seq(*self, attacked.0, 1)).len(),
        ensures
            final(list).inv(),
            final(list).recorded() == old(list).recorded() + one_castle_seq(*self, attacked.0, 0) + one_castle_seq(*self, attacked.0, 1),
            final(list).room() + final(list).recorded().len() == old(list).room() + old(list).recorded().len(),
    {
        let side_to_move = self.state().side_to_move;
        let rights = self.state().castling_rights;
        let occupied_squares = self.occupied();
        let mut c: u8 = 0;
        while c < 2
            invariant
                c <= 2,
                self.wf(),
                side_to_move == self.state_spec().side_to_move,
                rights == self.state_spec().castling_rights,
                occupied_squares.0 == occ(*self),
                list.inv(),
                list.recorded() == old(list).recorded() + (if c >= 1 { one_castle_seq(*self, attacked.0, 0) } else { Seq::empty() })
                    + (if c >= 2 { one_castle_seq(*self, attacked.0, 1) } else { Seq::empty() }),
                list.room() + list.recorded().len() == old(list).room() + old(list).recorded().len(),
                old(list).room() >= (one_castle_seq(*self, attacked.0, 0) + one_castle_seq(*self, attacked.0, 1)).len(),
            decreases 2 - c,
        {
            let castle = Castle(c);
            if rights.has(castle, side_to_move) {
                let blockers = castle_blocking(side_to_move, c);
                let king_safe = castle_king_safe(side_to_move, c);
                let from = if side_to_move.0 == 0 { Square(4) } else { Square(60) };
                let to = if c == 0 { Square(from.0 + 2) } else { Square(from.0 - 2) };
                if !((occupied_squares.0 & blockers.0) != 0 || (attacked.0 & king_safe.0) != 0) {
                    list.add_castle(from, to, castle);
                }
            }
            c = c + 1;
        }
        assert(list.recorded() =~= old(list).recorded() + one_castle_seq(*self, attacked.0, 0) + one_castle_seq(*self, attacked.0, 1));
    }
}

/// The piece of kind `kind` of `side`.
fn piece_of(kind: u8, side: Side) -> (r: Piece)
    requires
        kind < 6,
        side.valid(),
    ensures
        r.0 == 2 * kind + side.0,
        r.0 < 12,
{
    crate::piece::PieceKind(kind).to_piece(side)
}

/// The squares that must be empty for the castle `castle` of `side`.
fn castle_blocking(side: Side, castle: u8) -> (r: Board)
    ensures
        r.0 == castle_blockers(side.0, castle),
{
    if side.0 == 0 {
        if castle == 0 { Board(0x60) } else { Board(0x0E) }
    } else {
        if castle == 0 { Board(0x6000_0000_0000_0000) } else { Board(0x0E00_0000_0000_0000) }
    }
}

/// The squares that must not be attacked for the castle `castle` of `side`.
fn castle_king_safe(side: Side, castle: u8) -> (r: Board)
    ensures
        r.0 == castle_safe(side.0, castle),
{
    if side.0 == 0 {
        if castle == 0 { Board(0x70) } else { Board(0x1C) }
    } else {
        if castle == 0 { Board(0x7000_0000_0000_0000) } else { Board(0x1C00_0000_0000_0000) }
    }
}

/// The rank a double push of `side` lands on.
fn double_push_rank(side: Side) -> (r: Board)
    ensures
        r.0 == double_rank(side.0),
{
    if side.0 == 0 { Board(RANK_4) } else { Board(RANK_5) }
}

impl Position {
    /// Hands the pushes and double pushes of the pawns of the side to move
    /// standing on `from_mask` and landing on `to_mask` to `list`.
    fn pawn_pushes<L: MoveAdder>(&self, to_mask: Board, from_mask: Board, list: &mut L)
        requires
            self.wf(),
            old(list).inv(),
            old(list).room() >= pawn_pushes_seq(*self, to_mask.0, from_mask.0).len(),
        ensures
            final(list).inv(),
            final(list).recorded() == old(list).recorded() + pawn_pushes_seq(*self, to_mask.0, from_mask.0),
            final(list).room() + final(list).recorded().len() == old(list).room() + old(list).recorded().len(),
    {
        let side_to_move = self.state().side_to_move;
        let movers = Board(self.piece(piece_of(PAWN, side_to_move)).0 & from_mask.0);
        if movers.0 == 0 {
            assert(list.recorded() =~= old(list).recorded() + pawn_pushes_seq(*self, to_mask.0, from_mask.0));
            return;
        }
        let shift: u8 = if side_to_move.0 == 0 { 8 } else { 56 };
        let empty_squares = self.empty();
        let single_pushes = Board(movers.rotate_left(shift as u32).0 & empty_squares.0);
        list.add_pawn_pushes(shift, Board(single_pushes.0 & to_mask.0));
        let double_push_mask = Board(double_push_rank(side_to_move).0 & empty_squares.0 & to_mask.0);
        let double_pushes = Board(single_pushes.rotate_left(shift as u32).0 & double_push_mask.0);
        let double_push_shift: u8 = (shift * 2) % 64;
        list.add_double_pawn_pushes(double_push_shift, Board(double_pushes.0 & to_mask.0));
    }

    /// Hands the en-passant capture towards `dir` of the pawns `movers` to
    /// `list`, when there is one (see `ep_capture_seq`).
    fn ep_capture<L: MoveAdder>(
        &self,
        movers: Board,
        dir: u8,
        ep: Square,
        capture_mask: Board,
        push_mask: Board,
        restrict: Board,
        check: bool,
        list: &mut L,
    )
        requires
            self.wf(),
            has_kings(*self),
            dir <= 1,
            ep.0 < 64,
            old(list).inv(),
            old(list).room() >= ep_capture_seq(*self, movers.0, dir as int, ep.0, capture_mask.0, push_mask.0, restrict.0, check).len(),
        ensures
            final(list).inv(),
            final(list).recorded() == old(list).recorded() + ep_capture_seq(*self, movers.0, dir as int, ep.0, capture_mask.0, push_mask.0, restrict.0, check),
            final(list).room() + final(list).recorded().len() == old(list).room() + old(list).recorded().len(),
    {
        let side_to_move = self.state().side_to_move;
        let (shift, file_mask) = pawn_capture(side_to_move, dir);
        let ep_bb = Board::new(ep);
        let targets = Board(movers.rotate_left(shift as u32).0 & file_mask.0 & ep_bb.0 & restrict.0);
        if targets.0 != 0 {
            let from = ep.rotate_right(shift);
            let capture_sq = from.along_row_with_col(ep);
            proof {
                let a = from.0;
                let b = ep.0;
                assert(a < 64 && b < 64 ==> (a & 56) | (b & 7) < 64) by (bit_vector);
            }
            let capture_sq_bb = Board::new(capture_sq);
            if ((ep_bb.0 & push_mask.0) | (capture_sq_bb.0 & capture_mask.0)) != 0 {
                if !(check && self.en_passant_move_discovers_check(Board::new(from), capture_sq_bb, side_to_move)) {
                    list.add_pawn_ep_capture(from, ep);
                    return;
                }
            }
        }
        assert(list.recorded() =~= old(list).recorded() + ep_capture_seq(*self, movers.0, dir as int, ep.0, capture_mask.0, push_mask.0, restrict.0, check));
    }

    /// Hands the captures of the pawns of the side to move standing on
    /// `from_mask` to `list`: onto `capture_mask`, and en passant when the
    /// pawn lands on `push_mask` or takes a piece of `capture_mask` without
    /// uncovering a check along a rank or file.
    fn pawn_captures<L: MoveAdder>(&self, capture_mask: Board, push_mask: Board, from_mask: Board, list: &mut L)
        requires
            self.wf(),
            has_kings(*self),
            old(list).inv(),
            old(list).room() >= pawn_captures_seq(*self, capture_mask.0, push_mask.0, from_mask.0).len(),
        ensures
            final(list).inv(),
            final(list).recorded() == old(list).recorded() + pawn_captures_seq(*self, capture_mask.0, push_mask.0, from_mask.0),
            final(list).room() + final(list).recorded().len() == old(list).room() + old(list).recorded().len(),
    {
        let side_to_move = self.state().side_to_move;
        let movers = Board(self.piece(piece_of(PAWN, side_to_move)).0 & from_mask.0);
        if movers.0 == 0 {
            assert(list.recorded() =~= old(list).recorded() + pawn_captures_seq(*self, capture_mask.0, push_mask.0, from_mask.0));
            return;
        }
        if capture_mask.0 != 0 {
            let (shift0, file_mask0) = pawn_capture(side_to_move, 0);
            list.add_pawn_captures(shift0, Board(movers.rotate_left(shift0 as u32).0 & file_mask0.0 & capture_mask.0));
            let (shift1, file_mask1) = pawn_capture(side_to_move, 1);
            list.add_pawn_captures(shift1, Board(movers.rotate_left(shift1 as u32).0 & file_mask1.0 & capture_mask.0));
        }
        let ghost mid = list.recorded();
        if let Some(ep) = self.state().en_passant_target {
            self.ep_capture(movers, 0, ep, capture_mask, push_mask, Board(!0u64), true, list);
            self.ep_capture(movers, 1, ep, capture_mask, push_mask, Board(!0u64), true, list);
        }
        assert(list.recorded() =~= old(list).recorded() + pawn_captures_seq(*self, capture_mask.0, push_mask.0, from_mask.0));
    }

    /// Hands the moves of the pawns of `side_to_move` pinned against its king
    /// on `king_sq` to `list`: pushes along the king's file and captures
    /// along the king's diagonals.
    #[verifier::rlimit(40)]
    fn pawn_pin_ray_moves<L: MoveAdder>(
        &self,
        capture_mask: Board,
        push_mask: Board,
        king_sq: Square,
        pinned: Board,
        side_to_move: Side,
        list: &mut L,
    )
        requires
            self.wf(),
            has_kings(*self),
            side_to_move == self.state_spec().side_to_move,
            king_sq.0 < 64,
            old(list).inv(),
            old(list).room() >= pin_ray_seq(*self, capture_mask.0, push_mask.0, king_sq.0, pinned.0).len(),
        ensures
            final(list).inv(),
            final(list).recorded() == old(list).recorded() + pin_ray_seq(*self, capture_mask.0, push_mask.0, king_sq.0, pinned.0),
            final(list).room() + final(list).recorded().len() == old(list).room() + old(list).recorded().len(),
    {
        let movers = Board(self.piece(piece_of(PAWN, side_to_move)).0 & pinned.0);
        if movers.0 == 0 {
            assert(list.recorded() =~= old(list).recorded() + pin_ray_seq(*self, capture_mask.0, push_mask.0, king_sq.0, pinned.0));
            return;
        }
        let push_shift: u8 = if side_to_move.0 == 0 { 8 } else { 56 };
        let double_push_mask = Board(push_mask.0 & double_push_rank(side_to_move).0);
        let can_push = Board(movers.0 & king_sq.file_mask().0);
        let king_diags = king_sq.diagonal_rays();
        let can_capture = Board(movers.0 & king_diags.0);
        let (shift0, file_mask0) = pawn_capture(side_to_move, 0);
        let (shift1, file_mask1) = pawn_capture(side_to_move, 1);
        let captures0 = Board(can_capture.rotate_left(shift0 as u32).0 & file_mask0.0 & capture_mask.0 & king_diags.0);
        let captures1 = Board(can_capture.rotate_left(shift1 as u32).0 & file_mask1.0 & capture_mask.0 & king_diags.0);
        let ghost s1 = pin_push_seq(squares(can_push.0), push_shift, push_mask.0, double_push_mask.0);
        let ghost s2 = pawn_capture_seq(shift0, captures0.0);
        let ghost s3 = pawn_capture_seq(shift1, captures1.0);
        let ghost s4 = match self.state_spec().en_passant_target {
            Some(ep) => ep_capture_seq(*self, can_capture.0, 0, ep.0, capture_mask.0, king_diags.0, king_diags.0, false)
                + ep_capture_seq(*self, can_capture.0, 1, ep.0, capture_mask.0, king_diags.0, king_diags.0, false),
            None => Seq::empty(),
        };
        assert(pin_ray_seq(*self, capture_mask.0, push_mask.0, king_sq.0, pinned.0) == s1 + s2 + s3 + s4);
        Self::pinned_pawn_pushes(can_push, push_shift, push_mask, double_push_mask, list);
        list.add_pawn_captures(shift0, captures0);
        list.add_pawn_captures(shift1, captures1);
        if let Some(ep) = self.state().en_passant_target {
            self.ep_capture(can_capture, 0, ep, capture_mask, king_diags, king_diags, false, list);
            self.ep_capture(can_capture, 1, ep, capture_mask, king_diags, king_diags, false, list);
        }
        assert(list.recorded() =~= old(list).recorded() + (s1 + s2 + s3 + s4));
    }

    /// Hands the pushes and double pushes of the pinned pawns `can_push` to
    /// `list` (see `pin_push_seq`).
    #[verifier::rlimit(30)]
    fn pinned_pawn_pushes<L: MoveAdder>(can_push: Board, push_shift: u8, push_mask: Board, double_push_mask: Board, list: &mut L)
        requires
            push_shift == 8 || push_shift == 56,
            old(list).inv(),
            old(list).room() >= pin_push_seq(squares(can_push.0), push_shift, push_mask.0, double_push_mask.0).len(),
        ensures
            final(list).inv(),
            final(list).recorded() == old(list).recorded() + pin_push_seq(squares(can_push.0), push_shift, push_mask.0, double_push_mask.0),
            final(list).room() + final(list).recorded().len() == old(list).room() + old(list).recorded().len(),
    {
        let ghost dm = double_push_mask.0;
        let mut it = can_push.0;
        let ghost mut done: Seq<u8> = Seq::empty();
        proof {
            lemma_pin_push_concat(done, squares(it), push_shift, push_mask.0, dm);
            assert(done + squares(it) =~= squares(can_push.0));
        }
        while it != 0
            invariant
                push_shift == 8 || push_shift == 56,
                double_push_mask.0 == dm,
                done + squares(it) == squares(can_push.0),
                list.inv(),
                list.recorded() == old(list).recorded() + pin_push_seq(done, push_shift, push_mask.0, dm),
                list.room() + list.recorded().len() == old(list).room() + old(list).recorded().len(),
                list.room() >= pin_push_seq(squares(it), push_shift, push_mask.0, dm).len(),
            decreases it,
        {
            proof {
                lemma_lowest(it);
                lemma_clear_lowest_smaller(it, u64_trailing_zeros(it) as u64);
            }
            let t = it.trailing_zeros();
            let ghost rest = it ^ (1u64 << t);
            proof {
                lemma_pin_push_concat(seq![t as u8], squares(rest), push_shift, push_mask.0, dm);
                assert(seq![t as u8] =~= Seq::<u8>::empty().push(t as u8));
                assert(Seq::<u8>::empty().push(t as u8).drop_last() =~= Seq::<u8>::empty());
                assert(done.push(t as u8).drop_last() =~= done);
            }
            let pawn = Board::new(Square(t as u8));
            let single_pushes = Board(pawn.rotate_left(push_shift as u32).0 & push_mask.0);
            list.add_pawn_pushes(push_shift, single_pushes);
            let double_pushes = Board(single_pushes.rotate_left(push_shift as u32).0 & double_push_mask.0);
            let double_push_shift: u8 = (push_shift * 2) % 64;
            list.add_double_pawn_pushes(double_push_shift, double_pushes);
            it = it ^ (1u64 << t);
            proof {
                assert(done.push(t as u8) + squares(it) =~= done + (seq![t as u8] + squares(it)));
                done = done.push(t as u8);
            }
        }
        assert(done =~= squares(can_push.0));
    }
}

impl Position {
    /// Scans the sliders on `potential` aimed at the king on `king_sq`; see
    /// `pin_scan`.
    fn scan_pins(&self, king_sq: Square, occupied: Board, potential: Board) -> (r: (Board, Board, Board))
        requires
            king_sq.0 < 64,
        ensures
            (r.0.0, r.1.0, r.2.0) == pin_scan(king_sq.0, occupied.0, squares(potential.0)),
    {
        let mut checkers = Board(0);
        let mut pinned = Board(0);
        let mut pinners = Board(0);
        let mut it = potential.0;
        let ghost mut done: Seq<u8> = Seq::empty();
        while it != 0
            invariant
                king_sq.0 < 64,
                done + squares(it) == squares(potential.0),
                (checkers.0, pinned.0, pinners.0) == pin_scan(king_sq.0, occupied.0, done),
            decreases it,
        {
            proof {
                lemma_lowest(it);
                lemma_clear_lowest_smaller(it, u64_trailing_zeros(it) as u64);
                lemma_pin_scan_push(king_sq.0, occupied.0, done, u64_trailing_zeros(it) as u8);
            }
            let t = it.trailing_zeros();
            let sq = Square(t as u8);
            let bb = Board::new(sq);
            let potentially_pinned = Board(king_sq.between(sq).0 & occupied.0);
            if potentially_pinned.0 == 0 {
                checkers = Board(checkers.0 | bb.0);
            } else if potentially_pinned.occupied() == 1 {
                pinned = Board(pinned.0 | potentially_pinned.0);
                pinners = Board(pinners.0 | bb.0);
            }
            it = it ^ (1u64 << t);
            proof {
                assert(done.push(t as u8) + squares(it) =~= done + (seq![t as u8] + squares(it)));
                done = done.push(t as u8);
            }
        }
        assert(done =~= squares(potential.0));
        (checkers, pinned, pinners)
    }

    /// The pieces giving check to the king of the side to move, the pieces
    /// pinned against it and the pieces pinning them.
    fn king_threats(&self) -> (r: (Board, Board, Board))
        requires
            self.wf(),
            has_kings(*self),
        ensures
            r.0.0 == checkers(*self),
            r.1.0 == pinned(*self),
            r.2.0 == pinners(*self),
    {
        let side_to_move = self.state().side_to_move;
        let kings = self.piece(piece_of(KING, side_to_move));
        let attacker = Side(1 - side_to_move.0);
        let occupied = self.occupied();
        let king_sq = kings.to_square();
        let opponent_queens = self.piece(piece_of(QUEEN, attacker));
        let opponent_rooks = self.piece(piece_of(ROOK, attacker));
        let opponent_bishops = self.piece(piece_of(BISHOP, attacker));
        let opponent_knights = self.piece(piece_of(KNIGHT, attacker));
        let opponent_pawns = self.piece(piece_of(PAWN, attacker));
        let straight_attackers = Board(opponent_queens.0 | opponent_rooks.0);
        let diagonal_attackers = Board(opponent_queens.0 | opponent_bishops.0);

        // Pawns and knights can only be checkers, not pinners
        let (s0, m0) = pawn_capture(side_to_move, 0);
        let (s1, m1) = pawn_capture(side_to_move, 1);
        let jumping_checkers = Board(((king_sq.knight_moves().0 & opponent_knights.0)
            | (kings.rotate_left(s0 as u32).0 & m0.0 & opponent_pawns.0))
            | (kings.rotate_left(s1 as u32).0 & m1.0 & opponent_pawns.0));

        // Sliding pieces can be checkers or pinners depending on occupancy of intermediate squares
        let potential_king_attackers = Board(occupied.0 & ((king_sq.diagonal_rays().0 & diagonal_attackers.0)
            | (king_sq.straight_rays().0 & straight_attackers.0)));
        let (sliding_checkers, pinned, pinners) = self.scan_pins(king_sq, occupied, potential_king_attackers);
        (Board(jumping_checkers.0 | sliding_checkers.0), pinned, pinners)
    }

    /// The squares the opponent attacks, the king of the side to move taken
    /// off the board.
    fn attacked_squares(&self) -> (r: Board)
        requires
            self.wf(),
            has_kings(*self),
        ensures
            r.0 == attacked(*self),
    {
        let side_to_move = self.state().side_to_move;
        let kings = self.piece(piece_of(KING, side_to_move));
        let attacker = Side(1 - side_to_move.0);
        let occupied = self.occupied();
        let opponent_kings = self.piece(piece_of(KING, attacker));
        let opponent_queens = self.piece(piece_of(QUEEN, attacker));
        let opponent_rooks = self.piece(piece_of(ROOK, attacker));
        let opponent_bishops = self.piece(piece_of(BISHOP, attacker));
        let opponent_knights = self.piece(piece_of(KNIGHT, attacker));
        let opponent_pawns = self.piece(piece_of(PAWN, attacker));
        let straight_attackers = Board(opponent_queens.0 | opponent_rooks.0);
        let diagonal_attackers = Board(opponent_queens.0 | opponent_bishops.0);
        let occupied_without_king = Board(occupied.0 & !kings.0);
        let (a0, am0) = pawn_capture(attacker, 0);
        let (a1, am1) = pawn_capture(attacker, 1);
        Board(((((opponent_kings.to_square().king_moves().0
            | straight_attackers.straight_attacks(occupied_without_king).0)
            | diagonal_attackers.diagonal_attacks(occupied_without_king).0)
            | opponent_knights.knight_attacks().0)
            | (opponent_pawns.rotate_left(a0 as u32).0 & am0.0))
            | (opponent_pawns.rotate_left(a1 as u32).0 & am1.0))
    }

    /// Hands the moves of every piece but the king to `list` (see
    /// `piece_seq`).
    #[verifier::rlimit(80)]
    fn piece_moves<L: MoveAdder>(
        &self,
        capture_mask: Board,
        push_mask: Board,
        pinned: Board,
        king_sq: Square,
        pinners: Board,
        list: &mut L,
    )
        requires
            self.wf(),
            has_kings(*self),
            king_sq.0 < 64,
            old(list).inv(),
            old(list).room() >= piece_seq(*self, capture_mask.0, push_mask.0, pinned.0, king_sq.0, pinners.0).len(),
        ensures
            final(list).inv(),
            final(list).recorded() == old(list).recorded() + piece_seq(*self, capture_mask.0, push_mask.0, pinned.0, king_sq.0, pinners.0),
            final(list).room() + final(list).recorded().len() == old(list).room() + old(list).recorded().len(),
    {
        let side_to_move = self.state().side_to_move;
        let ghost s1 = slider_seq(*self, capture_mask.0, push_mask.0, pinned.0, king_sq.0);
        let ghost s2 = knight_seq(*self, capture_mask.0, push_mask.0, !pinned.0);
        let ghost s3 = pawn_pushes_seq(*self, push_mask.0, !pinned.0);
        let ghost s4 = pawn_captures_seq(*self, capture_mask.0, push_mask.0, !pinned.0);
        let ghost s5 = pin_ray_seq(*self, capture_mask.0 & pinners.0, push_mask.0, king_sq.0, pinned.0);
        proof {
            reveal(piece_seq);
            assert(piece_seq(*self, capture_mask.0, push_mask.0, pinned.0, king_sq.0, pinners.0) == s1 + s2 + s3 + s4 + s5);
        }
        self.slider_moves(capture_mask, push_mask, pinned, king_sq, list);
        self.knight_moves(capture_mask, push_mask, Board(!pinned.0), list);
        self.pawn_pushes(push_mask, Board(!pinned.0), list);
        self.pawn_captures(capture_mask, push_mask, Board(!pinned.0), list);
        self.pawn_pin_ray_moves(Board(capture_mask.0 & pinners.0), push_mask, king_sq, pinned, side_to_move, list);
        assert(list.recorded() =~= old(list).recorded() + (s1 + s2 + s3 + s4 + s5));
    }

    /// Hands the legal moves of the side to move to `list` (see
    /// `legal_move_seq`); returns whether the side to move is in check.
    pub fn legal_moves<L: MoveAdder>(&self, list: &mut L) -> (r: bool)
        requires
            self.wf(),
            has_kings(*self),
            old(list).inv(),
            old(list).room() >= legal_move_seq(*self).len(),
        ensures
            final(list).inv(),
            final(list).recorded() == old(list).recorded() + legal_move_seq(*self),
            final(list).room() + final(list).recorded().len() == old(list).room() + old(list).recorded().len(),
            r == in_check(*self),
    {
        let side_to_move = self.state().side_to_move;
        let kings = self.piece(piece_of(KING, side_to_move));
        let attacker = Side(1 - side_to_move.0);
        let king_sq = kings.to_square();
        let (checkers, pinned, pinners) = self.king_threats();
        let attacked = self.attacked_squares();
        let king_attacks_count = checkers.occupied();
        proof {
            let a = attacker.0;
            assert(a <= 1 ==> a & 1 == a) by (bit_vector);
            lemma_popcount_zero_iff(checkers.0);
        }
        let enemy = self.side(attacker);
        let empty_squares = self.empty();
        let king_capture_mask = Board(enemy.0 & !attacked.0);
        let king_push_mask = Board(empty_squares.0 & !attacked.0);
        if king_attacks_count >= 2 {
            // several attackers: only the king can move
            self.king_moves(king_capture_mask, king_push_mask, list);
            return true;
        }
        let mut capture_mask = enemy;
        let mut push_mask = empty_squares;
        if king_attacks_count == 1 {
            // a single attacker may be taken, and a slider blocked
            capture_mask = checkers;
            let checker_sq = checkers.to_square();
            let checker = self.at(checker_sq);
            if checker.is_slider() {
                push_mask = king_sq.between(checker_sq);
            } else {
                push_mask = Board(0);
            }
        }
        assert(capture_mask.0 == capture_targets(*self));
        assert(push_mask.0 == push_targets(*self));
        let ghost p = piece_seq(*self, capture_mask.0, push_mask.0, pinned.0, king_sq.0, pinners.0);
        let ghost c = if king_attacks_count == 0 { castles_seq(*self) } else { Seq::empty() };
        assert(legal_move_seq(*self) == p + c + safe_king_seq(*self));
        self.piece_moves(capture_mask, push_mask, pinned, king_sq, pinners, list);
        if king_attacks_count == 0 {
            self.castles(attacked, list);
        }
        self.king_moves(king_capture_mask, king_push_mask, list);
        assert(list.recorded() =~= old(list).recorded() + (p + c + safe_king_seq(*self)));
        king_attacks_count > 0
    }

    /// The legal moves of the side to move, and whether it is in check.
    pub fn legal_moves_vec(&self) -> (r: (MoveVec, bool))
        requires
            self.wf(),
            has_kings(*self),
        ensures
            r.0.view() == legal_move_seq(*self),
            r.1 == in_check(*self),
    {
        let mut list = MoveVec::new();
        proof {
            lemma_legal_moves_bounded(*self);
        }
        let is_in_check = self.legal_moves(&mut list);
        assert(list.view() =~= legal_move_seq(*self));
        (list, is_in_check)
    }
}

proof fn lemma_popcount_le(x: u64, n: nat)
    ensures
        crate::bits::popcount_below(x, n) <= n,
    decreases n,
{
    if n > 0 {
        lemma_popcount_le(x, (n - 1) as nat);
    }
}

/// A set has at most 64 squares.
proof fn lemma_squares_le(x: u64)
    ensures
        squares(x).len() <= 64,
{
    lemma_squares(x);
    lemma_popcount_le(x, 64);
}

proof fn lemma_target_seqs(from: u8, shift: u8, t: u64)
    ensures
        push_seq(from, t).len() <= 64,
        capture_seq(from, t).len() <= 64,
        pawn_push_seq(shift, t).len() <= 320,
        double_push_seq(shift, t).len() <= 64,
        pawn_capture_seq(shift, t).len() <= 320,
{
    lemma_squares_le(t);
    lemma_squares_le(t & crate::board::END_RANKS);
    lemma_squares_le(t & !crate::board::END_RANKS);
    crate::move_list::lemma_moves_len(from, shift, squares(t), 0, 0);
    crate::move_list::lemma_moves_len(from, shift, squares(t), 0x40, 0);
    crate::move_list::lemma_moves_len(from, shift, squares(t), 0, 0x40);
    crate::move_list::lemma_moves_len(from, shift, squares(t & crate::board::END_RANKS), 0x80, 0);
    crate::move_list::lemma_moves_len(from, shift, squares(t & crate::board::END_RANKS), 0xC0, 0);
    crate::move_list::lemma_moves_len(from, shift, squares(t & !crate::board::END_RANKS), 0, 0);
    crate::move_list::lemma_moves_len(from, shift, squares(t & !crate::board::END_RANKS), 0x40, 0);
}

proof fn lemma_group_len(sqs: Seq<u8>, kind: u8, occupied: u64, king: u8, capture_mask: u64, push_mask: u64)
    ensures
        group_seq(sqs, kind, occupied, king, capture_mask, push_mask).len() <= 128 * sqs.len(),
    decreases sqs.len(),
{
    if sqs.len() > 0 {
        lemma_group_len(sqs.drop_last(), kind, occupied, king, capture_mask, push_mask);
        let t = group_targets(kind, sqs.last(), occupied, king);
        lemma_target_seqs(sqs.last(), 0, t & capture_mask);
        lemma_target_seqs(sqs.last(), 0, t & push_mask);
    }
}

proof fn lemma_pin_push_len(sqs: Seq<u8>, shift: u8, push_mask: u64, double_mask: u64)
    ensures
        pin_push_seq(sqs, shift, push_mask, double_mask).len() <= 384 * sqs.len(),
    decreases sqs.len(),
{
    if sqs.len() > 0 {
        lemma_pin_push_len(sqs.drop_last(), shift, push_mask, double_mask);
        let singles = rotl(single(sqs.last()), shift as u64) & push_mask;
        let doubles = rotl(singles, shift as u64) & double_mask;
        lemma_target_seqs(0, shift, singles);
        lemma_target_seqs(0, ((shift * 2) % 64) as u8, doubles);
    }
}

proof fn lemma_slider_len(pos: Position, capture_mask: u64, push_mask: u64, pinned: u64, king: u8)
    ensures
        slider_seq(pos, capture_mask, push_mask, pinned, king).len() <= 4 * 8192,
{
    let o = occ(pos);
    let s = stm(pos);
    let straight = pbits(pos, 2 * QUEEN + s) | pbits(pos, 2 * ROOK + s);
    let diagonal = pbits(pos, 2 * QUEEN + s) | pbits(pos, 2 * BISHOP + s);
    lemma_squares_le(straight & !pinned);
    lemma_squares_le(straight & pinned);
    lemma_squares_le(diagonal & !pinned);
    lemma_squares_le(diagonal & pinned);
    lemma_group_len(squares(straight & !pinned), 0, o, king, capture_mask, push_mask);
    lemma_group_len(squares(straight & pinned), 1, o, king, capture_mask, push_mask);
    lemma_group_len(squares(diagonal & !pinned), 2, o, king, capture_mask, push_mask);
    lemma_group_len(squares(diagonal & pinned), 3, o, king, capture_mask, push_mask);
}

proof fn lemma_knight_len(pos: Position, capture_mask: u64, push_mask: u64, from_mask: u64)
    ensures
        knight_seq(pos, capture_mask, push_mask, from_mask).len() <= 8192,
{
    let knights = pbits(pos, 2 * KNIGHT + stm(pos)) & from_mask;
    lemma_squares_le(knights);
    lemma_group_len(squares(knights), 4, 0, 0, capture_mask, push_mask);
}

proof fn lemma_pawn_pushes_len(pos: Position, to_mask: u64, from_mask: u64)
    ensures
        pawn_pushes_seq(pos, to_mask, from_mask).len() <= 384,
{
    let s = stm(pos);
    let movers = pbits(pos, 2 * PAWN + s) & from_mask;
    let shift = push_shift(s);
    let empty = !occ(pos);
    let singles = rotl(movers, shift as u64) & empty;
    let doubles = rotl(singles, shift as u64) & (double_rank(s) & empty & to_mask);
    lemma_target_seqs(0, shift, singles & to_mask);
    lemma_target_seqs(0, ((shift * 2) % 64) as u8, doubles & to_mask);
}

proof fn lemma_pawn_captures_len(pos: Position, capture_mask: u64, push_mask: u64, from_mask: u64)
    ensures
        pawn_captures_seq(pos, capture_mask, push_mask, from_mask).len() <= 642,
{
    let s = stm(pos);
    let movers = pbits(pos, 2 * PAWN + s) & from_mask;
    lemma_target_seqs(0, pawn_shift(s, 0), rotl(movers, pawn_shift(s, 0) as u64) & pawn_mask(0) & capture_mask);
    lemma_target_seqs(0, pawn_shift(s, 1), rotl(movers, pawn_shift(s, 1) as u64) & pawn_mask(1) & capture_mask);
}

proof fn lemma_pin_ray_len(pos: Position, capture_mask: u64, push_mask: u64, king: u8, pinned: u64)
    ensures
        pin_ray_seq(pos, capture_mask, push_mask, king, pinned).len() <= 384 * 64 + 642,
{
    let s = stm(pos);
    let movers = pbits(pos, 2 * PAWN + s) & pinned;
    let shift = push_shift(s);
    let can_push = movers & (FILE_A << (king & 7));
    let diags = diagonal_spec(single(king), 0);
    let can_capture = movers & diags;
    lemma_squares_le(can_push);
    lemma_pin_push_len(squares(can_push), shift, push_mask, push_mask & double_rank(s));
    lemma_target_seqs(0, pawn_shift(s, 0), rotl(can_capture, pawn_shift(s, 0) as u64) & pawn_mask(0) & capture_mask & diags);
    lemma_target_seqs(0, pawn_shift(s, 1), rotl(can_capture, pawn_shift(s, 1) as u64) & pawn_mask(1) & capture_mask & diags);
}

/// The generator hands over at most 100000 moves.
pub proof fn lemma_legal_moves_bounded(pos: Position)
    ensures
        legal_move_seq(pos).len() <= 100_000,
{
    let k = king_square(pos);
    let at = attacked(pos);
    let cm = capture_targets(pos);
    let pm = push_targets(pos);
    let pn = pinned(pos);
    lemma_target_seqs(k, 0, king_spec(single(k)) & (pos.side_board(opp(pos) as int).0 & !at));
    lemma_target_seqs(k, 0, king_spec(single(k)) & (!occ(pos) & !at));
    lemma_piece_seq_len(pos, cm, pm, pn, k, pinners(pos));
}

proof fn lemma_piece_seq_len(pos: Position, cm: u64, pm: u64, pn: u64, k: u8, pinners: u64)
    ensures
        piece_seq(pos, cm, pm, pn, k, pinners).len() <= 70_000,
{
    reveal(piece_seq);
    lemma_slider_len(pos, cm, pm, pn, k);
    lemma_knight_len(pos, cm, pm, !pn);
    lemma_pawn_pushes_len(pos, pm, !pn);
    lemma_pawn_captures_len(pos, cm, pm, !pn);
    lemma_pin_ray_len(pos, cm & pinners, pm, k, pn);
}

} // verus!
