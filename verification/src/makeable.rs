//! What the move generator hands over can be made on the position it came
//! from: each move lifts a piece of the side to move and puts it on an empty
//! square or on a piece it takes.
use vstd::prelude::*;
use vstd::std_specs::bits::u64_trailing_zeros;
use crate::bits::{bit, popcount, rotl, lemma_bit_and, lemma_bit_single_u8};
use crate::board::{
    END_RANKS, FILE_A, NOT_FILE_A, NOT_FILE_H, king_spec, knight_spec, straight_spec, diagonal_spec,
};
use crate::legal_moves::{
    attacked, capture_targets, castle_blockers, castles_seq, checkers, diagonal_attackers,
    double_rank, ep_capture_seq, ep_victim, group_seq, group_targets, has_kings, king_seq,
    king_square, knight_seq, legal_move_seq, occ, one_castle_seq, opp, pawn_captures_seq,
    pawn_mask, pawn_pushes_seq, pawn_shift, pbits, piece_seq, pin_push_seq, pin_ray_seq, pin_scan,
    pinned, pinners, potential_attackers, push_shift, push_targets, safe_king_seq, slider_seq,
    stm, straight_attackers, lemma_popcount_zero_iff,
};
use crate::move_list::{
    capture_seq, castle_seq, double_push_seq, ep_seq, moves_to, pawn_capture_seq, pawn_moves,
    pawn_push_seq, promotion_moves, promotions, push_seq, source, lemma_flag_bits,
};
use crate::moves::Move;
use crate::piece::{Piece, BISHOP, KING, KNIGHT, PAWN, QUEEN, ROOK};
use crate::position::{
    Position, can_make_on, capture_square_spec, castle_squares_spec, lemma_board_bits, make_grid,
};
use crate::square::{single, between_spec, line_spec};
use crate::squares::{squares, lemma_lowest, lemma_squares};

verus! {

/// The squares a piece of code `c` standing on `s` attacks, the squares of
/// `o` being occupied: along ranks and files for a rook, along diagonals for
/// a bishop, both for a queen, the leaps of a knight and of a king, and the
/// two forward diagonal squares of a pawn.
pub open spec fn piece_attacks(c: u8, s: u8, o: u64) -> u64 {
    let kind = c / 2;
    let side = c % 2;
    if kind == KING {
        king_spec(single(s))
    } else if kind == QUEEN {
        straight_spec(single(s), o) | diagonal_spec(single(s), o)
    } else if kind == ROOK {
        straight_spec(single(s), o)
    } else if kind == BISHOP {
        diagonal_spec(single(s), o)
    } else if kind == KNIGHT {
        knight_spec(single(s))
    } else {
        (rotl(single(s), pawn_shift(side, 0) as u64) & pawn_mask(0)) | (rotl(single(s), pawn_shift(side, 1) as u64)
            & pawn_mask(1))
    }
}

/// Square `t` is attacked by a piece of `side` on the grid `g`, the squares
/// of `o` being occupied.
pub open spec fn attacked_by(g: Seq<Piece>, o: u64, side: u8, t: int) -> bool {
    exists|s: int|
        0 <= s < 64 && g[s].0 < 12 && g[s].0 % 2 == side && #[trigger] bit(piece_attacks(g[s].0, s as u8, o), t)
}

/// The pawn standing `shift` back from `to` attacks `to`.
pub open spec fn pawn_hits(g: Seq<Piece>, o: u64, shift: u8, to: u8) -> bool {
    bit(piece_attacks(g[source(to, shift) as int].0, source(to, shift), o), to as int)
}

/// A pawn of `side` attacks the square `i` it would capture on towards
/// `dir`.
proof fn lemma_pawn_hits(g: Seq<Piece>, o: u64, side: u8, dir: int, i: int)
    requires
        side <= 1,
        dir == 0 || dir == 1,
        0 <= i < 64,
        bit(pawn_mask(dir), i),
        g[source(i as u8, pawn_shift(side, dir)) as int] == Piece((2 * PAWN + side) as u8),
    ensures
        pawn_hits(g, o, pawn_shift(side, dir), i as u8),
{
    let sh = pawn_shift(side, dir);
    let from = source(i as u8, sh);
    assert(from < 64);
    lemma_rotl_bit(single(from), sh, i);
    lemma_bit_single_u8(from, source(i as u8, sh) as int);
    let a = rotl(single(from), pawn_shift(side, 0) as u64) & pawn_mask(0);
    let b = rotl(single(from), pawn_shift(side, 1) as u64) & pawn_mask(1);
    lemma_bit_and(a, b, i);
    lemma_bit_and(rotl(single(from), pawn_shift(side, 0) as u64), pawn_mask(0), i);
    lemma_bit_and(rotl(single(from), pawn_shift(side, 1) as u64), pawn_mask(1), i);
    assert((2 * PAWN + side) as u8 / 2 == PAWN && (2 * PAWN + side) as u8 % 2 == side);
}

/// Every square of `a` is a square of `b`.
pub open spec fn covers(a: u64, b: u64) -> bool {
    forall|i: int| #[trigger] bit(a, i) ==> bit(b, i)
}

/// `m` can be made by `side` on `g` and moves a piece of `side`; a promotion
/// and a double push move a pawn of `side`, and a castle moves its king and
/// rook, the king standing on, crossing and reaching no square of `at`; a capture takes a piece of the other side that the moving piece
/// attacks (the squares of `o`
/// being occupied), or a pawn of the other side en passant.
pub open spec fn makeable(g: Seq<Piece>, o: u64, at: u64, m: Move, side: u8) -> bool {
    &&& can_make_on(g, m, side)
    &&& (m.castle_spec() is None ==> g[(m.0 & 63) as int].0 % 2 == side)
    &&& (m.promote_spec() is Some ==> g[(m.0 & 63) as int] == Piece((2 * PAWN + side) as u8))
    &&& (m.is_double_push_spec() ==> g[(m.0 & 63) as int] == Piece((2 * PAWN + side) as u8))
    &&& (m.castle_spec() matches Some(c) ==> g[castle_squares_spec(side, c.0).0 as int] == Piece(
        (2 * KING + side) as u8,
    ) && g[castle_squares_spec(side, c.0).2 as int] == Piece((2 * ROOK + side) as u8))
    &&& (m.castle_spec() matches Some(c) ==> {
        let (kf, kt, rf, rt) = castle_squares_spec(side, c.0);
        !bit(at, kf as int) && !bit(at, kt as int) && !bit(at, rt as int)
    })
    &&& (m.castle_spec() is None && m.is_capture_spec() ==> g[capture_square_spec(m) as int].0 % 2 != side)
    &&& (m.castle_spec() is None && g[(m.0 & 63) as int] == Piece((2 * KING + side) as u8) ==> !bit(
        at,
        (m.1 & 63) as int,
    ))
    &&& (m.is_capture_spec() && !m.is_en_passant_spec() ==> bit(
        piece_attacks(g[(m.0 & 63) as int].0, m.0 & 63, o),
        (m.1 & 63) as int,
    ))
    &&& (m.is_en_passant_spec() ==> g[capture_square_spec(m) as int] == Piece((2 * PAWN + 1 - side) as u8))
}

/// Every move of `s` can be made by `side` on `g`.
pub open spec fn all_makeable(g: Seq<Piece>, o: u64, at: u64, s: Seq<Move>, side: u8) -> bool {
    forall|i: int| 0 <= i < s.len() ==> makeable(g, o, at, #[trigger] s[i], side)
}

/// Two lists whose moves can be made give such a list one after the other.
proof fn lemma_all_add(g: Seq<Piece>, o: u64, at: u64, a: Seq<Move>, b: Seq<Move>, side: u8)
    requires
        all_makeable(g, o, at, a, side),
        all_makeable(g, o, at, b, side),
    ensures
        all_makeable(g, o, at, a + b, side),
{
    assert forall|i: int| 0 <= i < (a + b).len() implies makeable(g, o, at, #[trigger] (a + b)[i], side) by {
        if i < a.len() {
            assert((a + b)[i] == a[i]);
        } else {
            assert((a + b)[i] == b[i - a.len()]);
        }
    }
}

/// One more move that can be made keeps a list whose moves can be made.
proof fn lemma_all_push(g: Seq<Piece>, o: u64, at: u64, a: Seq<Move>, m: Move, side: u8)
    requires
        all_makeable(g, o, at, a, side),
        makeable(g, o, at, m, side),
    ensures
        all_makeable(g, o, at, a.push(m), side),
{
    assert forall|i: int| 0 <= i < a.push(m).len() implies makeable(g, o, at, #[trigger] a.push(m)[i], side) by {
        if i < a.len() {
            assert(a.push(m)[i] == a[i]);
        }
    }
}

/// What a target square must hold: nothing for a push, a piece of the other
/// side for a capture.
pub open spec fn target_ok(g: Seq<Piece>, to: int, side: u8, capture: bool) -> bool {
    if capture {
        g[to].0 < 12 && g[to].0 % 2 != side
    } else {
        g[to].0 == 12
    }
}

/// Moves of a piece of `side` on `from` to squares of `tos` holding what
/// `target_ok` asks can be made, pushes (`ff` 0) and captures (`ff` 0x40).
proof fn lemma_moves_to_ok(g: Seq<Piece>, o: u64, at: u64, side: u8, from: u8, tos: Seq<u8>, ff: u8)
    requires
        g.len() == 64,
        side <= 1,
        from < 64,
        g[from as int].0 < 12,
        g[from as int].0 % 2 == side,
        ff == 0 || ff == 0x40,
        forall|k: int| 0 <= k < tos.len() ==> #[trigger] tos[k] < 64 && target_ok(g, tos[k] as int, side, ff == 0x40)
            && (ff == 0x40 ==> bit(piece_attacks(g[from as int].0, from, o), tos[k] as int)),
        g[from as int] == Piece((2 * KING + side) as u8) ==> forall|k: int| 0 <= k < tos.len() ==> !bit(at, #[trigger] tos[k] as int),
    ensures
        all_makeable(g, o, at, moves_to(from, tos, ff, 0), side),
    decreases tos.len(),
{
    if tos.len() > 0 {
        let to = tos.last();
        assert(tos[tos.len() - 1] < 64);
        assert(target_ok(g, tos[tos.len() - 1] as int, side, ff == 0x40));
        assert(ff == 0x40 ==> bit(piece_attacks(g[from as int].0, from, o), tos[tos.len() - 1] as int));
        assert(g[from as int] == Piece((2 * KING + side) as u8) ==> !bit(at, tos[tos.len() - 1] as int));
        lemma_moves_to_ok(g, o, at, side, from, tos.drop_last(), ff);
        lemma_flag_bits();
        let m = Move(from | ff, to | 0);
        assert(m.0 & 63 == from && m.1 & 63 == to);
        assert(m.1 & 0x80 == 0 && m.1 & 0x40 == 0);
        assert(m.0 & 0x80 == 0);
        assert(makeable(g, o, at, m, side));
        lemma_all_push(g, o, at, moves_to(from, tos.drop_last(), ff, 0), m, side);
    }
}

/// Pawn moves of `side` by `shift` onto the squares of `tos` can be made when
/// a pawn of `side` stands where each comes from and each target holds what
/// `target_ok` asks: pushes (`ff`, `ft` both 0), double pushes (`ft` 0x40)
/// and captures (`ff` 0x40).
proof fn lemma_pawn_moves_ok(g: Seq<Piece>, o: u64, at: u64, side: u8, shift: u8, tos: Seq<u8>, ff: u8, ft: u8)
    requires
        g.len() == 64,
        side <= 1,
        (ff == 0 && (ft == 0 || ft == 0x40)) || (ff == 0x40 && ft == 0),
        forall|k: int|
            0 <= k < tos.len() ==> #[trigger] tos[k] < 64 && g[source(tos[k], shift) as int] == Piece(
                (2 * PAWN + side) as u8,
            ) && target_ok(g, tos[k] as int, side, ff == 0x40) && (ff == 0x40 ==> pawn_hits(g, o, shift, tos[k])),
    ensures
        all_makeable(g, o, at, pawn_moves(shift, tos, ff, ft), side),
    decreases tos.len(),
{
    if tos.len() > 0 {
        let to = tos.last();
        assert(tos[tos.len() - 1] < 64);
        assert(ff == 0x40 ==> pawn_hits(g, o, shift, tos[tos.len() - 1]));
        assert(target_ok(g, tos[tos.len() - 1] as int, side, ff == 0x40));
        let from = source(to, shift);
        assert(from < 64);
        assert(g[from as int] == Piece((2 * PAWN + side) as u8));
        lemma_pawn_moves_ok(g, o, at, side, shift, tos.drop_last(), ff, ft);
        lemma_flag_bits();
        let m = Move(from | ff, to | ft);
        assert(m.0 & 63 == from && m.1 & 63 == to);
        assert(m.1 & 0x80 == 0 && m.0 & 0x80 == 0);
        assert(ff == 0x40 ==> m.1 & 0x40 == 0);
        assert(makeable(g, o, at, m, side));
        lemma_all_push(g, o, at, pawn_moves(shift, tos.drop_last(), ff, ft), m, side);
    }
}

/// Promotions of pawns of `side` by `shift` onto the squares of `tos`, by a
/// push (`ff` 0x80) or a capture (`ff` 0xC0), can be made.
proof fn lemma_promotions_ok(g: Seq<Piece>, o: u64, at: u64, side: u8, shift: u8, tos: Seq<u8>, ff: u8)
    requires
        g.len() == 64,
        side <= 1,
        ff == 0x80 || ff == 0xC0,
        forall|k: int|
            0 <= k < tos.len() ==> #[trigger] tos[k] < 64 && g[source(tos[k], shift) as int] == Piece(
                (2 * PAWN + side) as u8,
            ) && target_ok(g, tos[k] as int, side, ff == 0xC0) && (ff == 0xC0 ==> pawn_hits(g, o, shift, tos[k])),
    ensures
        all_makeable(g, o, at, promotion_moves(shift, tos, ff), side),
    decreases tos.len(),
{
    if tos.len() > 0 {
        let to = tos.last();
        assert(tos[tos.len() - 1] < 64);
        assert(ff == 0xC0 ==> pawn_hits(g, o, shift, tos[tos.len() - 1]));
        assert(target_ok(g, tos[tos.len() - 1] as int, side, ff == 0xC0));
        let from = source(to, shift);
        assert(from < 64);
        assert(g[from as int] == Piece((2 * PAWN + side) as u8));
        lemma_promotions_ok(g, o, at, side, shift, tos.drop_last(), ff);
        lemma_flag_bits();
        let p = promotions(from, to, ff);
        assert((from | ff) & 63 == from && (from | ff) & 0xC0 != 0 && (from | ff) & 0x80 == 0x80);
        assert(ff == 0x80 ==> (from | ff) & 0x40 == 0);
        assert(ff == 0xC0 ==> (from | ff) & 0x40 == 0x40);
        assert(to & 0xC0 == 0);
        assert(to & 63 == to && to & 0x40 == 0);
        assert((to | 0x40) & 63 == to && (to | 0x40) & 0x40 == 0x40);
        assert((to | 0x80) & 63 == to && (to | 0x80) & 0x40 == 0);
        assert((to | 0xC0) & 63 == to && (to | 0xC0) & 0x40 == 0x40);
        assert(all_makeable(g, o, at, p, side)) by {
            assert forall|i: int| 0 <= i < p.len() implies makeable(g, o, at, #[trigger] p[i], side) by {
                assert(p[i].0 == from | ff);
                if i == 0 {
                    assert(p[i] == Move(from | ff, to));
                } else if i == 1 {
                    assert(p[i] == Move(from | ff, to | 0x40));
                } else if i == 2 {
                    assert(p[i] == Move(from | ff, to | 0x80));
                } else {
                    assert(p[i] == Move(from | ff, to | 0xC0));
                }
            }
        }
        lemma_all_add(g, o, at, promotion_moves(shift, tos.drop_last(), ff), p, side);
    }
}

/// Rotating left by `n` moves bit `source(i, n)` to bit `i`.
pub proof fn lemma_rotl_bit(x: u64, n: u8, i: int)
    requires
        n < 64,
        0 <= i < 64,
    ensures
        bit(rotl(x, n as u64), i) == bit(x, source(i as u8, n) as int),
{
    let j = i as u64;
    let k = n as u64;
    if k > 0 {
        assert((((x << k) | (x >> ((64 - k) as u64))) >> j) & 1 == 1 <==> (x >> (((j + 64 - k) % 64) as u64)) & 1 == 1)
            by (bit_vector)
            requires
                0 < k < 64,
                j < 64,
        ;
    }
    assert(source(i as u8, n) as int == (i + 64 - n) % 64);
}

/// The files that the pawn-capture masks leave out.
proof fn lemma_file_masks(i: int)
    requires
        0 <= i < 64,
    ensures
        bit(NOT_FILE_H, i) == (i % 8 != 7),
        bit(NOT_FILE_A, i) == (i % 8 != 0),
{
    let j = i as u64;
    assert(((0x7F7F_7F7F_7F7F_7F7Fu64 >> j) & 1 == 1 <==> j % 8 != 7) && ((0xFEFE_FEFE_FEFE_FEFEu64 >> j) & 1 == 1
        <==> j % 8 != 0)) by (bit_vector)
        requires
            j < 64,
    ;
}

/// The square on the rank of `a` and the file of `b`.
proof fn lemma_rank_file(a: u8, b: u8)
    requires
        a < 64,
        b < 64,
    ensures
        (a & 56) | (b & 7) == 8 * (a / 8) + b % 8,
{
    assert((a & 56) | (b & 7) == 8 * (a / 8) + b % 8) by (bit_vector)
        requires
            a < 64,
            b < 64,
    ;
}

/// The checkers that `pin_scan` finds are among the scanned squares, with
/// nothing between them and the king.
proof fn lemma_pin_scan_checkers(king: u8, occupied: u64, sqs: Seq<u8>, allowed: u64)
    requires
        forall|k: int| 0 <= k < sqs.len() ==> #[trigger] sqs[k] < 64 && bit(allowed, sqs[k] as int),
    ensures
        forall|i: int| #[trigger] bit(pin_scan(king, occupied, sqs).0, i) ==> bit(allowed, i) && between_spec(
            king,
            i as u8,
        ) & occupied == 0,
    decreases sqs.len(),
{
    if sqs.len() > 0 {
        lemma_pin_scan_checkers(king, occupied, sqs.drop_last(), allowed);
        let sq = sqs.last();
        assert(sqs[sqs.len() - 1] < 64 && bit(allowed, sqs[sqs.len() - 1] as int));
        let c = pin_scan(king, occupied, sqs.drop_last()).0;
        lemma_bit_single_u8(sq, 0);
        assert forall|i: int| #[trigger] bit(pin_scan(king, occupied, sqs).0, i) implies bit(allowed, i)
            && between_spec(king, i as u8) & occupied == 0 by {
            lemma_bit_and(c, single(sq), i);
            if between_spec(king, sq) & occupied == 0 {
                assert(pin_scan(king, occupied, sqs).0 == c | single(sq));
                if bit(single(sq), i) {
                    assert(i == sq);
                }
            } else {
                assert(pin_scan(king, occupied, sqs).0 == c);
            }
        }
    } else {
        assert forall|i: int| #[trigger] bit(pin_scan(king, occupied, sqs).0, i) implies bit(allowed, i)
            && between_spec(king, i as u8) & occupied == 0 by {
            lemma_bit_and(0, 0, i);
        }
    }
}

/// The bitboards of a well-formed position, read through its grid.
proof fn lemma_position_bits(pos: Position)
    requires
        pos.wf(),
    ensures
        pos.grid().len() == 64,
        stm(pos) <= 1,
        opp(pos) == 1 - stm(pos),
        forall|c: int, i: int| 0 <= c < 12 ==> (#[trigger] bit(pbits(pos, c), i) <==> 0 <= i < 64 && pos.grid()[i].0 == c),
        forall|s: int, i: int|
            0 <= s < 2 ==> (#[trigger] bit(pos.side_board(s).0, i) <==> 0 <= i < 64 && pos.grid()[i].0 < 12
                && pos.grid()[i].0 % 2 == s),
        forall|i: int| #[trigger] bit(occ(pos), i) <==> 0 <= i < 64 && pos.grid()[i].0 < 12,
        forall|i: int| 0 <= i < 64 ==> #[trigger] pos.grid()[i].0 <= 12,
{
    lemma_board_bits(&pos);
    assert forall|i: int| #[trigger] bit(occ(pos), i) <==> 0 <= i < 64 && pos.grid()[i].0 < 12 by {
        lemma_bit_and(pos.side_board(0).0, pos.side_board(1).0, i);
        assert(bit(pos.side_board(0).0, i) <==> 0 <= i < 64 && pos.grid()[i].0 < 12 && pos.grid()[i].0 % 2 == 0);
        assert(bit(pos.side_board(1).0, i) <==> 0 <= i < 64 && pos.grid()[i].0 < 12 && pos.grid()[i].0 % 2 == 1);
    }
}

/// The pieces giving check belong to the opponent, and nothing stands
/// between the king and a checking queen, rook or bishop.
proof fn lemma_checkers(pos: Position)
    requires
        pos.wf(),
    ensures
        forall|i: int| #[trigger] bit(checkers(pos), i) ==> 0 <= i < 64 && pos.grid()[i].0 < 12
            && pos.grid()[i].0 % 2 == opp(pos) && (2 <= pos.grid()[i].0 <= 7 ==> between_spec(
            king_square(pos),
            i as u8,
        ) & occ(pos) == 0),
{
    lemma_position_bits(pos);
    let k = king_square(pos);
    let kings = pbits(pos, 2 * KING + stm(pos));
    let pawns = pbits(pos, 2 * PAWN + opp(pos));
    let a = knight_spec(single(k)) & pbits(pos, 2 * KNIGHT + opp(pos));
    let b = rotl(kings, pawn_shift(stm(pos), 0) as u64) & pawn_mask(0) & pawns;
    let c = rotl(kings, pawn_shift(stm(pos), 1) as u64) & pawn_mask(1) & pawns;
    let pa = potential_attackers(pos);
    let sqs = squares(pa);
    lemma_squares(pa);
    lemma_pin_scan_checkers(k, occ(pos), sqs, pa);
    let d = pin_scan(k, occ(pos), sqs).0;
    assert(checkers(pos) == ((a | b) | c) | d);
    assert forall|i: int| #[trigger] bit(checkers(pos), i) implies 0 <= i < 64 && pos.grid()[i].0 < 12
        && pos.grid()[i].0 % 2 == opp(pos) && (2 <= pos.grid()[i].0 <= 7 ==> between_spec(k, i as u8) & occ(pos)
        == 0) by {
        lemma_bit_and((a | b) | c, d, i);
        lemma_bit_and(a | b, c, i);
        lemma_bit_and(a, b, i);
        lemma_bit_and(knight_spec(single(k)), pbits(pos, 2 * KNIGHT + opp(pos)), i);
        lemma_bit_and(rotl(kings, pawn_shift(stm(pos), 0) as u64) & pawn_mask(0), pawns, i);
        lemma_bit_and(rotl(kings, pawn_shift(stm(pos), 1) as u64) & pawn_mask(1), pawns, i);
        if bit(d, i) {
            let dg = diagonal_spec(single(k), 0) & diagonal_attackers(pos);
            let st = straight_spec(single(k), 0) & straight_attackers(pos);
            lemma_bit_and(occ(pos), dg | st, i);
            lemma_bit_and(dg, st, i);
            lemma_bit_and(diagonal_spec(single(k), 0), diagonal_attackers(pos), i);
            lemma_bit_and(straight_spec(single(k), 0), straight_attackers(pos), i);
            lemma_bit_and(pbits(pos, 2 * QUEEN + opp(pos)), pbits(pos, 2 * BISHOP + opp(pos)), i);
            lemma_bit_and(pbits(pos, 2 * QUEEN + opp(pos)), pbits(pos, 2 * ROOK + opp(pos)), i);
        }
    }
}

/// A piece other than the king captures only pieces of the opponent.
proof fn lemma_capture_targets(pos: Position)
    requires
        pos.wf(),
    ensures
        forall|i: int| #[trigger] bit(capture_targets(pos), i) ==> 0 <= i < 64 && target_ok(
            pos.grid(),
            i,
            stm(pos),
            true,
        ),
{
    lemma_position_bits(pos);
    lemma_checkers(pos);
}

/// A piece other than the king moves only onto empty squares, when the king
/// is in check at most once.
proof fn lemma_push_targets(pos: Position)
    requires
        pos.wf(),
    ensures
        forall|i: int| #[trigger] bit(push_targets(pos), i) ==> 0 <= i < 64 && target_ok(
            pos.grid(),
            i,
            stm(pos),
            false,
        ),
{
    lemma_position_bits(pos);
    lemma_checkers(pos);
    let ch = checkers(pos);
    let checker = u64_trailing_zeros(ch) as u8;
    lemma_popcount_zero_iff(ch);
    assert forall|i: int| #[trigger] bit(push_targets(pos), i) implies 0 <= i < 64 && target_ok(
        pos.grid(),
        i,
        stm(pos),
        false,
    ) by {
        if popcount(ch) == 0 {
            lemma_bit_and(occ(pos), occ(pos), i);
        } else if 2 <= pos.grid()[checker as int].0 <= 7 {
            lemma_lowest(ch);
            assert(bit(ch, checker as int));
            let bt = between_spec(king_square(pos), checker);
            lemma_bit_and(bt, occ(pos), i);
            lemma_bit_and(0, 0, i);
        } else {
            lemma_bit_and(0, 0, i);
        }
    }
}

/// Moves of a piece of `side` on `from` to the squares of `t` that `mask`
/// admits can be made, when every square of `mask` holds what `target_ok`
/// asks.
proof fn lemma_masked_ok(g: Seq<Piece>, o: u64, at: u64, side: u8, from: u8, t: u64, mask: u64, capture: bool)
    requires
        g.len() == 64,
        side <= 1,
        from < 64,
        g[from as int].0 < 12,
        g[from as int].0 % 2 == side,
        forall|i: int| #[trigger] bit(mask, i) ==> 0 <= i < 64 && target_ok(g, i, side, capture),
        capture ==> covers(t, piece_attacks(g[from as int].0, from, o)),
        g[from as int] == Piece((2 * KING + side) as u8) ==> forall|i: int| #[trigger] bit(mask, i) ==> !bit(at, i),
    ensures
        all_makeable(g, o, at, moves_to(from, squares(t & mask), if capture { 0x40u8 } else { 0u8 }, 0), side),
{
    let sq = squares(t & mask);
    lemma_squares(t & mask);
    assert forall|k: int| 0 <= k < sq.len() implies #[trigger] sq[k] < 64 && target_ok(g, sq[k] as int, side, capture)
        && (capture ==> bit(piece_attacks(g[from as int].0, from, o), sq[k] as int)) by {
        lemma_bit_and(t, mask, sq[k] as int);
    }
    assert(g[from as int] == Piece((2 * KING + side) as u8) ==> forall|k: int| 0 <= k < sq.len() ==> !bit(at, #[trigger] sq[k] as int)) by {
        if g[from as int] == Piece((2 * KING + side) as u8) {
            assert forall|k: int| 0 <= k < sq.len() implies !bit(at, #[trigger] sq[k] as int) by {
                lemma_bit_and(t, mask, sq[k] as int);
            }
        }
    }
    lemma_moves_to_ok(g, o, at, side, from, sq, if capture { 0x40u8 } else { 0u8 });
}

/// The moves of the pieces on `sqs`, all of `side`, onto squares of `cm`
/// holding pieces of the other side and of `pm` holding nothing, can be made.
proof fn lemma_group_ok(
    g: Seq<Piece>,
    o: u64, at: u64,
    side: u8,
    sqs: Seq<u8>,
    kind: u8,
    og: u64,
    king: u8,
    cm: u64,
    pm: u64,
)
    requires
        g.len() == 64,
        side <= 1,
        forall|k: int| 0 <= k < sqs.len() ==> #[trigger] sqs[k] < 64 && g[sqs[k] as int].0 < 12 && g[sqs[k] as int].0 % 2 == side,
        forall|i: int| #[trigger] bit(cm, i) ==> 0 <= i < 64 && target_ok(g, i, side, true),
        forall|i: int| #[trigger] bit(pm, i) ==> 0 <= i < 64 && target_ok(g, i, side, false),
        forall|k: int|
            0 <= k < sqs.len() ==> covers(
                group_targets(kind, #[trigger] sqs[k], og, king),
                piece_attacks(g[sqs[k] as int].0, sqs[k], o),
            ),
        forall|k: int| 0 <= k < sqs.len() ==> g[#[trigger] sqs[k] as int].0 / 2 != KING,
    ensures
        all_makeable(g, o, at, group_seq(sqs, kind, og, king, cm, pm), side),
    decreases sqs.len(),
{
    if sqs.len() > 0 {
        let from = sqs.last();
        assert(sqs[sqs.len() - 1] < 64);
        let t = group_targets(kind, from, og, king);
        assert(covers(group_targets(kind, sqs[sqs.len() - 1], og, king), piece_attacks(g[sqs[sqs.len() - 1] as int].0, sqs[sqs.len() - 1], o)));
        lemma_group_ok(g, o, at, side, sqs.drop_last(), kind, og, king, cm, pm);
        lemma_masked_ok(g, o, at, side, from, t, cm, true);
        lemma_masked_ok(g, o, at, side, from, t, pm, false);
        lemma_all_add(g, o, at, group_seq(sqs.drop_last(), kind, og, king, cm, pm), capture_seq(from, t & cm), side);
        lemma_all_add(
            g, o, at,
            group_seq(sqs.drop_last(), kind, og, king, cm, pm) + capture_seq(from, t & cm),
            push_seq(from, t & pm),
            side,
        );
    }
}

/// The squares of `b` hold pieces of the side to move when `b` lies within
/// that side's board.
proof fn lemma_own_squares(pos: Position, b: u64)
    requires
        pos.wf(),
        forall|i: int| #[trigger] bit(b, i) ==> bit(pos.side_board(stm(pos) as int).0, i),
    ensures
        forall|k: int| 0 <= k < squares(b).len() ==> #[trigger] squares(b)[k] < 64 && pos.grid()[squares(b)[k] as int].0 < 12
            && pos.grid()[squares(b)[k] as int].0 % 2 == stm(pos),
{
    lemma_position_bits(pos);
    lemma_squares(b);
    assert forall|k: int| 0 <= k < squares(b).len() implies #[trigger] squares(b)[k] < 64 && pos.grid()[squares(b)[k] as int].0 < 12
        && pos.grid()[squares(b)[k] as int].0 % 2 == stm(pos) by {
        assert(bit(b, squares(b)[k] as int));
    }
}

/// The squares a queen, rook or bishop of a group reaches are squares it
/// attacks.
proof fn lemma_slider_covers(g: Seq<Piece>, o: u64, s: u8, sq: u8, kind: u8, king: u8)
    requires
        s <= 1,
        kind <= 3,
        kind <= 1 ==> g[sq as int].0 == 2 * QUEEN + s || g[sq as int].0 == 2 * ROOK + s,
        kind >= 2 ==> g[sq as int].0 == 2 * QUEEN + s || g[sq as int].0 == 2 * BISHOP + s,
    ensures
        covers(group_targets(kind, sq, o, king), piece_attacks(g[sq as int].0, sq, o)),
{
    let st = straight_spec(single(sq), o);
    let dg = diagonal_spec(single(sq), o);
    let c = g[sq as int].0;
    assert(c / 2 == QUEEN || c / 2 == ROOK || c / 2 == BISHOP);
    assert(kind <= 1 ==> c / 2 != BISHOP);
    assert(kind >= 2 ==> c / 2 != ROOK);
    assert forall|i: int| #[trigger] bit(group_targets(kind, sq, o, king), i) implies bit(piece_attacks(c, sq, o), i) by {
        lemma_bit_and(st, dg, i);
        lemma_bit_and(st, line_spec(sq, king), i);
        lemma_bit_and(dg, line_spec(sq, king), i);
    }
}

/// The moves of the queens, rooks and bishops of the side to move onto
/// squares of `cm` holding pieces of the opponent and of `pm` holding
/// nothing can be made.
proof fn lemma_slider_ok(pos: Position, cm: u64, pm: u64, pinned: u64, king: u8)
    requires
        pos.wf(),
        forall|i: int| #[trigger] bit(cm, i) ==> 0 <= i < 64 && target_ok(pos.grid(), i, stm(pos), true),
        forall|i: int| #[trigger] bit(pm, i) ==> 0 <= i < 64 && target_ok(pos.grid(), i, stm(pos), false),
    ensures
        all_makeable(pos.grid(), occ(pos), attacked(pos), slider_seq(pos, cm, pm, pinned, king), stm(pos)),
{
    lemma_position_bits(pos);
    let g = pos.grid();
    let o = occ(pos);
    let at = attacked(pos);
    let o = occ(pos);
    let at = attacked(pos);
    let s = stm(pos);
    let straight = pbits(pos, 2 * QUEEN + s) | pbits(pos, 2 * ROOK + s);
    let diagonal = pbits(pos, 2 * QUEEN + s) | pbits(pos, 2 * BISHOP + s);
    assert forall|i: int| #[trigger] bit(straight & !pinned, i) implies bit(pos.side_board(s as int).0, i) by {
        lemma_bit_and(straight, !pinned, i);
        lemma_bit_and(pbits(pos, 2 * QUEEN + s), pbits(pos, 2 * ROOK + s), i);
    }
    assert forall|i: int| #[trigger] bit(straight & pinned, i) implies bit(pos.side_board(s as int).0, i) by {
        lemma_bit_and(straight, pinned, i);
        lemma_bit_and(pbits(pos, 2 * QUEEN + s), pbits(pos, 2 * ROOK + s), i);
    }
    assert forall|i: int| #[trigger] bit(diagonal & !pinned, i) implies bit(pos.side_board(s as int).0, i) by {
        lemma_bit_and(diagonal, !pinned, i);
        lemma_bit_and(pbits(pos, 2 * QUEEN + s), pbits(pos, 2 * BISHOP + s), i);
    }
    assert forall|i: int| #[trigger] bit(diagonal & pinned, i) implies bit(pos.side_board(s as int).0, i) by {
        lemma_bit_and(diagonal, pinned, i);
        lemma_bit_and(pbits(pos, 2 * QUEEN + s), pbits(pos, 2 * BISHOP + s), i);
    }
    lemma_own_squares(pos, straight & !pinned);
    lemma_own_squares(pos, straight & pinned);
    lemma_own_squares(pos, diagonal & !pinned);
    lemma_own_squares(pos, diagonal & pinned);
    let a = group_seq(squares(straight & !pinned), 0, o, king, cm, pm);
    let b = group_seq(squares(straight & pinned), 1, o, king, cm, pm);
    let c = group_seq(squares(diagonal & !pinned), 2, o, king, cm, pm);
    let d = group_seq(squares(diagonal & pinned), 3, o, king, cm, pm);
    lemma_squares(straight & !pinned);
    assert forall|k: int| 0 <= k < squares(straight & !pinned).len() implies covers(
        group_targets(0, #[trigger] squares(straight & !pinned)[k], o, king),
        piece_attacks(g[squares(straight & !pinned)[k] as int].0, squares(straight & !pinned)[k], o),
    ) by {
        let sq = squares(straight & !pinned)[k];
        lemma_bit_and(straight, !pinned, sq as int);
        lemma_bit_and(pbits(pos, 2 * QUEEN + s), pbits(pos, 2 * ROOK + s), sq as int);
        lemma_slider_covers(g, o, s, sq, 0, king);
    }
    assert forall|k: int| 0 <= k < squares(straight & !pinned).len() implies g[#[trigger] squares(straight & !pinned)[k] as int].0 / 2 != KING by {
        let sq = squares(straight & !pinned)[k];
        lemma_bit_and(straight, !pinned, sq as int);
        lemma_bit_and(pbits(pos, 2 * QUEEN + s), pbits(pos, 2 * ROOK + s), sq as int);
    }
    lemma_group_ok(g, o, at, s, squares(straight & !pinned), 0, o, king, cm, pm);
    lemma_squares(straight & pinned);
    assert forall|k: int| 0 <= k < squares(straight & pinned).len() implies covers(
        group_targets(1, #[trigger] squares(straight & pinned)[k], o, king),
        piece_attacks(g[squares(straight & pinned)[k] as int].0, squares(straight & pinned)[k], o),
    ) by {
        let sq = squares(straight & pinned)[k];
        lemma_bit_and(straight, pinned, sq as int);
        lemma_bit_and(pbits(pos, 2 * QUEEN + s), pbits(pos, 2 * ROOK + s), sq as int);
        lemma_slider_covers(g, o, s, sq, 1, king);
    }
    assert forall|k: int| 0 <= k < squares(straight & pinned).len() implies g[#[trigger] squares(straight & pinned)[k] as int].0 / 2 != KING by {
        let sq = squares(straight & pinned)[k];
        lemma_bit_and(straight, pinned, sq as int);
        lemma_bit_and(pbits(pos, 2 * QUEEN + s), pbits(pos, 2 * ROOK + s), sq as int);
    }
    lemma_group_ok(g, o, at, s, squares(straight & pinned), 1, o, king, cm, pm);
    lemma_squares(diagonal & !pinned);
    assert forall|k: int| 0 <= k < squares(diagonal & !pinned).len() implies covers(
        group_targets(2, #[trigger] squares(diagonal & !pinned)[k], o, king),
        piece_attacks(g[squares(diagonal & !pinned)[k] as int].0, squares(diagonal & !pinned)[k], o),
    ) by {
        let sq = squares(diagonal & !pinned)[k];
        lemma_bit_and(diagonal, !pinned, sq as int);
        lemma_bit_and(pbits(pos, 2 * QUEEN + s), pbits(pos, 2 * BISHOP + s), sq as int);
        lemma_slider_covers(g, o, s, sq, 2, king);
    }
    assert forall|k: int| 0 <= k < squares(diagonal & !pinned).len() implies g[#[trigger] squares(diagonal & !pinned)[k] as int].0 / 2 != KING by {
        let sq = squares(diagonal & !pinned)[k];
        lemma_bit_and(diagonal, !pinned, sq as int);
        lemma_bit_and(pbits(pos, 2 * QUEEN + s), pbits(pos, 2 * BISHOP + s), sq as int);
    }
    lemma_group_ok(g, o, at, s, squares(diagonal & !pinned), 2, o, king, cm, pm);
    lemma_squares(diagonal & pinned);
    assert forall|k: int| 0 <= k < squares(diagonal & pinned).len() implies covers(
        group_targets(3, #[trigger] squares(diagonal & pinned)[k], o, king),
        piece_attacks(g[squares(diagonal & pinned)[k] as int].0, squares(diagonal & pinned)[k], o),
    ) by {
        let sq = squares(diagonal & pinned)[k];
        lemma_bit_and(diagonal, pinned, sq as int);
        lemma_bit_and(pbits(pos, 2 * QUEEN + s), pbits(pos, 2 * BISHOP + s), sq as int);
        lemma_slider_covers(g, o, s, sq, 3, king);
    }
    assert forall|k: int| 0 <= k < squares(diagonal & pinned).len() implies g[#[trigger] squares(diagonal & pinned)[k] as int].0 / 2 != KING by {
        let sq = squares(diagonal & pinned)[k];
        lemma_bit_and(diagonal, pinned, sq as int);
        lemma_bit_and(pbits(pos, 2 * QUEEN + s), pbits(pos, 2 * BISHOP + s), sq as int);
    }
    lemma_group_ok(g, o, at, s, squares(diagonal & pinned), 3, o, king, cm, pm);
    lemma_all_add(g, o, at, a, b, s);
    lemma_all_add(g, o, at, a + b, c, s);
    lemma_all_add(g, o, at, a + b + c, d, s);
}

/// The moves of the knights of the side to move on `from_mask` onto squares
/// of `cm` holding pieces of the opponent and of `pm` holding nothing can be
/// made.
proof fn lemma_knight_ok(pos: Position, cm: u64, pm: u64, from_mask: u64)
    requires
        pos.wf(),
        forall|i: int| #[trigger] bit(cm, i) ==> 0 <= i < 64 && target_ok(pos.grid(), i, stm(pos), true),
        forall|i: int| #[trigger] bit(pm, i) ==> 0 <= i < 64 && target_ok(pos.grid(), i, stm(pos), false),
    ensures
        all_makeable(pos.grid(), occ(pos), attacked(pos), knight_seq(pos, cm, pm, from_mask), stm(pos)),
{
    lemma_position_bits(pos);
    let s = stm(pos);
    let b = pbits(pos, 2 * KNIGHT + s) & from_mask;
    assert forall|i: int| #[trigger] bit(b, i) implies bit(pos.side_board(s as int).0, i) by {
        lemma_bit_and(pbits(pos, 2 * KNIGHT + s), from_mask, i);
    }
    lemma_own_squares(pos, b);
    lemma_squares(b);
    assert forall|k: int| 0 <= k < squares(b).len() implies covers(
        group_targets(4, #[trigger] squares(b)[k], 0, 0),
        piece_attacks(pos.grid()[squares(b)[k] as int].0, squares(b)[k], occ(pos)),
    ) by {
        let sq = squares(b)[k];
        lemma_bit_and(pbits(pos, 2 * KNIGHT + s), from_mask, sq as int);
        assert(pos.grid()[sq as int].0 / 2 == KNIGHT);
    }
    assert forall|k: int| 0 <= k < squares(b).len() implies pos.grid()[#[trigger] squares(b)[k] as int].0 / 2 != KING by {
        lemma_bit_and(pbits(pos, 2 * KNIGHT + s), from_mask, squares(b)[k] as int);
    }
    lemma_group_ok(pos.grid(), occ(pos), attacked(pos), s, squares(b), 4, 0, 0, cm, pm);
}

/// The king of the side to move stands on `king_square`.
proof fn lemma_king_square(pos: Position)
    requires
        pos.wf(),
        has_kings(pos),
    ensures
        king_square(pos) < 64,
        pos.grid()[king_square(pos) as int].0 == 2 * KING + stm(pos),
{
    lemma_position_bits(pos);
    lemma_lowest(pbits(pos, 2 * KING + stm(pos)));
}

/// The moves of the king of the side to move onto squares of `cm` holding
/// pieces of the opponent and of `pm` holding nothing can be made.
proof fn lemma_king_ok(pos: Position, cm: u64, pm: u64)
    requires
        pos.wf(),
        has_kings(pos),
        forall|i: int| #[trigger] bit(cm, i) ==> 0 <= i < 64 && target_ok(pos.grid(), i, stm(pos), true),
        forall|i: int| #[trigger] bit(pm, i) ==> 0 <= i < 64 && target_ok(pos.grid(), i, stm(pos), false),
        forall|i: int| #[trigger] bit(cm, i) ==> !bit(attacked(pos), i),
        forall|i: int| #[trigger] bit(pm, i) ==> !bit(attacked(pos), i),
    ensures
        all_makeable(pos.grid(), occ(pos), attacked(pos), king_seq(pos, cm, pm), stm(pos)),
{
    lemma_position_bits(pos);
    lemma_king_square(pos);
    let from = king_square(pos);
    let t = king_spec(single(from));
    lemma_masked_ok(pos.grid(), occ(pos), attacked(pos), stm(pos), from, t, cm, true);
    lemma_masked_ok(pos.grid(), occ(pos), attacked(pos), stm(pos), from, t, pm, false);
    lemma_all_add(pos.grid(), occ(pos), attacked(pos), capture_seq(from, t & cm), push_seq(from, t & pm), stm(pos));
}

/// The king's moves onto squares the opponent does not attack can be made.
proof fn lemma_safe_king_ok(pos: Position)
    requires
        pos.wf(),
        has_kings(pos),
    ensures
        all_makeable(pos.grid(), occ(pos), attacked(pos), safe_king_seq(pos), stm(pos)),
{
    lemma_position_bits(pos);
    let at = attacked(pos);
    let cm = pos.side_board(opp(pos) as int).0 & !at;
    let pm = !occ(pos) & !at;
    assert forall|i: int| #[trigger] bit(cm, i) implies 0 <= i < 64 && target_ok(pos.grid(), i, stm(pos), true) by {
        lemma_bit_and(pos.side_board(opp(pos) as int).0, !at, i);
    }
    assert forall|i: int| #[trigger] bit(pm, i) implies 0 <= i < 64 && target_ok(pos.grid(), i, stm(pos), false) by {
        lemma_bit_and(!occ(pos), !at, i);
        lemma_bit_and(occ(pos), occ(pos), i);
    }
    assert forall|i: int| #[trigger] bit(cm, i) implies !bit(attacked(pos), i) by {
        lemma_bit_and(pos.side_board(opp(pos) as int).0, !at, i);
        lemma_bit_and(at, at, i);
    }
    assert forall|i: int| #[trigger] bit(pm, i) implies !bit(attacked(pos), i) by {
        lemma_bit_and(!occ(pos), !at, i);
        lemma_bit_and(at, at, i);
    }
    lemma_king_ok(pos, cm, pm);
}

/// What each square `i` of a set of pawn targets must satisfy: a pawn of
/// `side` stands `shift` back from it and it holds what `target_ok` asks.
pub open spec fn pawn_target_ok(g: Seq<Piece>, o: u64, side: u8, shift: u8, i: int, capture: bool) -> bool {
    &&& 0 <= i < 64
    &&& g[source(i as u8, shift) as int] == Piece((2 * PAWN + side) as u8)
    &&& target_ok(g, i, side, capture)
    &&& (capture ==> pawn_hits(g, o, shift, i as u8))
}

/// The squares of `t & mask`, with `t` a set of pawn targets, each satisfy
/// `pawn_target_ok`.
proof fn lemma_pawn_squares(g: Seq<Piece>, o: u64, side: u8, shift: u8, t: u64, mask: u64, capture: bool)
    requires
        forall|i: int| #[trigger] bit(t, i) ==> pawn_target_ok(g, o, side, shift, i, capture),
    ensures
        forall|k: int|
            0 <= k < squares(t & mask).len() ==> #[trigger] squares(t & mask)[k] < 64 && g[source(
                squares(t & mask)[k],
                shift,
            ) as int] == Piece((2 * PAWN + side) as u8) && target_ok(g, squares(t & mask)[k] as int, side, capture)
                && (capture ==> pawn_hits(g, o, shift, squares(t & mask)[k])),
{
    lemma_squares(t & mask);
    assert forall|k: int| 0 <= k < squares(t & mask).len() implies #[trigger] squares(t & mask)[k] < 64 && g[source(
        squares(t & mask)[k],
        shift,
    ) as int] == Piece((2 * PAWN + side) as u8) && target_ok(g, squares(t & mask)[k] as int, side, capture)
        && (capture ==> pawn_hits(g, o, shift, squares(t & mask)[k])) by {
        let i = squares(t & mask)[k] as int;
        lemma_bit_and(t, mask, i);
        assert(bit(t, i));
        assert(i as u8 == squares(t & mask)[k]);
    }
}

/// Pawn advances or captures by `shift` onto the squares of `t` can be made
/// when each square satisfies
/// `pawn_target_ok`.
proof fn lemma_pawn_set_ok(g: Seq<Piece>, o: u64, at: u64, side: u8, shift: u8, t: u64, capture: bool)
    requires
        g.len() == 64,
        side <= 1,
        forall|i: int| #[trigger] bit(t, i) ==> pawn_target_ok(g, o, side, shift, i, capture),
    ensures
        !capture ==> all_makeable(g, o, at, pawn_push_seq(shift, t), side),
        capture ==> all_makeable(g, o, at, pawn_capture_seq(shift, t), side),
        !capture ==> all_makeable(g, o, at, double_push_seq(shift, t), side),
{
    lemma_pawn_squares(g, o, side, shift, t, END_RANKS, capture);
    lemma_pawn_squares(g, o, side, shift, t, !END_RANKS, capture);
    lemma_squares(t);
    assert forall|k: int| 0 <= k < squares(t).len() implies #[trigger] squares(t)[k] < 64 && g[source(
        squares(t)[k],
        shift,
    ) as int] == Piece((2 * PAWN + side) as u8) && target_ok(g, squares(t)[k] as int, side, capture) by {
        assert(bit(t, squares(t)[k] as int));
    }
    if capture {
        lemma_promotions_ok(g, o, at, side, shift, squares(t & END_RANKS), 0xC0);
        lemma_pawn_moves_ok(g, o, at, side, shift, squares(t & !END_RANKS), 0x40, 0);
        lemma_all_add(g, o, at, promotion_moves(shift, squares(t & END_RANKS), 0xC0), pawn_moves(shift, squares(t & !END_RANKS), 0x40, 0), side);
    } else {
        lemma_promotions_ok(g, o, at, side, shift, squares(t & END_RANKS), 0x80);
        lemma_pawn_moves_ok(g, o, at, side, shift, squares(t & !END_RANKS), 0, 0);
        lemma_all_add(g, o, at, promotion_moves(shift, squares(t & END_RANKS), 0x80), pawn_moves(shift, squares(t & !END_RANKS), 0, 0), side);
        lemma_pawn_moves_ok(g, o, at, side, shift, squares(t), 0, 0x40);
    }
}

/// The pushes of the pawns of the side to move on `from_mask` can be made.
#[verifier::rlimit(40)]
proof fn lemma_pawn_pushes_ok(pos: Position, to_mask: u64, from_mask: u64)
    requires
        pos.wf(),
    ensures
        all_makeable(pos.grid(), occ(pos), attacked(pos), pawn_pushes_seq(pos, to_mask, from_mask), stm(pos)),
{
    lemma_position_bits(pos);
    let g = pos.grid();
    let o = occ(pos);
    let at = attacked(pos);
    let s = stm(pos);
    let movers = pbits(pos, 2 * PAWN + s) & from_mask;
    let shift = push_shift(s);
    let empty = !occ(pos);
    let singles = rotl(movers, shift as u64) & empty;
    let doubles = rotl(singles, shift as u64) & (double_rank(s) & empty & to_mask);
    let shift2 = ((shift * 2) % 64) as u8;
    if movers != 0 {
        assert forall|i: int| #[trigger] bit(singles & to_mask, i) implies pawn_target_ok(g, o, s, shift, i, false) by {
            lemma_bit_and(singles, to_mask, i);
            lemma_bit_and(rotl(movers, shift as u64), empty, i);
            lemma_bit_and(occ(pos), occ(pos), i);
            lemma_rotl_bit(movers, shift, i);
            lemma_bit_and(pbits(pos, 2 * PAWN + s), from_mask, source(i as u8, shift) as int);
        }
        assert forall|i: int| #[trigger] bit(doubles & to_mask, i) implies pawn_target_ok(g, o, s, shift2, i, false) by {
            lemma_bit_and(doubles, to_mask, i);
            lemma_bit_and(rotl(singles, shift as u64), double_rank(s) & empty & to_mask, i);
            lemma_bit_and(double_rank(s) & empty, to_mask, i);
            lemma_bit_and(double_rank(s), empty, i);
            lemma_bit_and(occ(pos), occ(pos), i);
            lemma_rotl_bit(singles, shift, i);
            let j = source(i as u8, shift);
            lemma_bit_and(rotl(movers, shift as u64), empty, j as int);
            lemma_rotl_bit(movers, shift, j as int);
            assert(source(j, shift) == source(i as u8, shift2));
            lemma_bit_and(pbits(pos, 2 * PAWN + s), from_mask, source(j, shift) as int);
        }
        lemma_pawn_set_ok(g, o, at, s, shift, singles & to_mask, false);
        lemma_pawn_set_ok(g, o, at, s, shift2, doubles & to_mask, false);
        lemma_all_add(g, o, at, pawn_push_seq(shift, singles & to_mask), double_push_seq(shift2, doubles & to_mask), s);
    }
}

/// The en-passant target agrees with the pieces: it lies just behind a pawn
/// of the opponent that has passed it, on the third rank from that pawn's
/// side, and it is empty.
pub open spec fn ep_agrees(pos: Position) -> bool {
    match pos.state_spec().en_passant_target {
        Some(ep) => {
            let g = pos.grid();
    let o = occ(pos);
    let at = attacked(pos);
            if stm(pos) == 0 {
                40 <= ep.0 < 48 && g[ep.0 as int].0 == 12 && g[ep.0 - 8] == Piece((2 * PAWN + 1) as u8)
            } else {
                16 <= ep.0 < 24 && g[ep.0 as int].0 == 12 && g[ep.0 + 8] == Piece((2 * PAWN) as u8)
            }
        },
        None => true,
    }
}

/// An en-passant capture the generator finds can be made.
proof fn lemma_ep_ok(
    pos: Position,
    movers: u64,
    dir: int,
    ep: u8,
    cm: u64,
    pm: u64,
    restrict: u64,
    check: bool,
)
    requires
        pos.wf(),
        ep_agrees(pos),
        pos.state_spec().en_passant_target == Some(crate::square::Square(ep)),
        dir == 0 || dir == 1,
        forall|i: int| #[trigger] bit(movers, i) ==> pos.grid()[i] == Piece((2 * PAWN + stm(pos)) as u8),
    ensures
        all_makeable(pos.grid(), occ(pos), attacked(pos), ep_capture_seq(pos, movers, dir, ep, cm, pm, restrict, check), stm(pos)),
{
    lemma_position_bits(pos);
    let g = pos.grid();
    let o = occ(pos);
    let at = attacked(pos);
    let s = stm(pos);
    let shift = pawn_shift(s, dir);
    let targets = rotl(movers, shift as u64) & pawn_mask(dir) & single(ep) & restrict;
    let from = source(ep, shift);
    let victim = ep_victim(from, ep);
    if targets != 0 && ((single(ep) & pm) | (single(victim) & cm)) != 0 && !(check
        && crate::legal_moves::ep_discovers_check(pos, from, victim, s)) {
        lemma_lowest(targets);
        let t = u64_trailing_zeros(targets) as int;
        lemma_bit_and(rotl(movers, shift as u64) & pawn_mask(dir) & single(ep), restrict, t);
        lemma_bit_and(rotl(movers, shift as u64) & pawn_mask(dir), single(ep), t);
        lemma_bit_and(rotl(movers, shift as u64), pawn_mask(dir), t);
        lemma_bit_single_u8(ep, t);
        assert(t == ep);
        lemma_rotl_bit(movers, shift, ep as int);
        lemma_file_masks(ep as int);
        assert(g[from as int] == Piece((2 * PAWN + s) as u8));
        lemma_rank_file(from, ep);
        if s == 0 {
            if dir == 0 {
                assert(from == ep - 7);
            } else {
                assert(from == ep - 9);
            }
            assert(victim == ep - 8);
        } else {
            if dir == 0 {
                assert(from == ep + 9);
            } else {
                assert(from == ep + 7);
            }
            assert(victim == ep + 8);
        }
        lemma_flag_bits();
        let m = Move(from | 0x40, ep | 0x40);
        assert(m.0 & 63 == from && m.1 & 63 == ep);
        assert(m.0 & 0xC0 == 0x40 && m.0 & 0x80 == 0 && m.0 & 0x40 == 0x40 && m.1 & 0x40 == 0x40);
        assert(capture_square_spec(m) == victim);
        assert(makeable(g, o, at, m, s));
        assert(ep_seq(from, ep) =~= seq![m]);
    }
}

/// The captures of the pawns of the side to move on `from_mask` onto squares
/// of `cm`, all holding pieces of the opponent, can be made.
proof fn lemma_pawn_captures_ok(pos: Position, cm: u64, pm: u64, from_mask: u64)
    requires
        pos.wf(),
        ep_agrees(pos),
        forall|i: int| #[trigger] bit(cm, i) ==> 0 <= i < 64 && target_ok(pos.grid(), i, stm(pos), true),
    ensures
        all_makeable(pos.grid(), occ(pos), attacked(pos), pawn_captures_seq(pos, cm, pm, from_mask), stm(pos)),
{
    lemma_position_bits(pos);
    let g = pos.grid();
    let o = occ(pos);
    let at = attacked(pos);
    let s = stm(pos);
    let movers = pbits(pos, 2 * PAWN + s) & from_mask;
    if movers != 0 {
        assert forall|i: int| #[trigger] bit(movers, i) implies g[i] == Piece((2 * PAWN + s) as u8) by {
            lemma_bit_and(pbits(pos, 2 * PAWN + s), from_mask, i);
        }
        let sh0 = pawn_shift(s, 0);
        let sh1 = pawn_shift(s, 1);
        let t0 = rotl(movers, sh0 as u64) & pawn_mask(0) & cm;
        let t1 = rotl(movers, sh1 as u64) & pawn_mask(1) & cm;
        assert forall|i: int| #[trigger] bit(t0, i) implies pawn_target_ok(g, o, s, sh0, i, true) by {
            lemma_bit_and(rotl(movers, sh0 as u64) & pawn_mask(0), cm, i);
            lemma_bit_and(rotl(movers, sh0 as u64), pawn_mask(0), i);
            lemma_rotl_bit(movers, sh0, i);
            if 0 <= i < 64 {
                lemma_pawn_hits(g, o, s, 0, i);
            }
        }
        assert forall|i: int| #[trigger] bit(t1, i) implies pawn_target_ok(g, o, s, sh1, i, true) by {
            lemma_bit_and(rotl(movers, sh1 as u64) & pawn_mask(1), cm, i);
            lemma_bit_and(rotl(movers, sh1 as u64), pawn_mask(1), i);
            lemma_rotl_bit(movers, sh1, i);
            if 0 <= i < 64 {
                lemma_pawn_hits(g, o, s, 1, i);
            }
        }
        lemma_pawn_set_ok(g, o, at, s, sh0, t0, true);
        lemma_pawn_set_ok(g, o, at, s, sh1, t1, true);
        lemma_all_add(g, o, at, pawn_capture_seq(sh0, t0), pawn_capture_seq(sh1, t1), s);
        let a: Seq<Move> = if cm != 0 { pawn_capture_seq(sh0, t0) + pawn_capture_seq(sh1, t1) } else { Seq::empty() };
        match pos.state_spec().en_passant_target {
            Some(ep) => {
                lemma_ep_ok(pos, movers, 0, ep.0, cm, pm, !0u64, true);
                lemma_ep_ok(pos, movers, 1, ep.0, cm, pm, !0u64, true);
                let b = ep_capture_seq(pos, movers, 0, ep.0, cm, pm, !0u64, true) + ep_capture_seq(
                    pos,
                    movers,
                    1,
                    ep.0,
                    cm,
                    pm,
                    !0u64,
                    true,
                );
                lemma_all_add(g, o, at, ep_capture_seq(pos, movers, 0, ep.0, cm, pm, !0u64, true), ep_capture_seq(pos, movers, 1, ep.0, cm, pm, !0u64, true), s);
                lemma_all_add(g, o, at, a, b, s);
            },
            None => {
                lemma_all_add(g, o, at, a, Seq::empty(), s);
            },
        }
    }
}

/// The squares a pinned pawn on `sq` advances to, and those it advances two
/// squares to, have it `shift` or twice `shift` back.
proof fn lemma_pin_steps(g: Seq<Piece>, o: u64, side: u8, sq: u8, shift: u8, pm: u64, dm: u64)
    requires
        sq < 64,
        shift == 8 || shift == 56,
        g[sq as int] == Piece((2 * PAWN + side) as u8),
        forall|i: int| #[trigger] bit(pm, i) ==> 0 <= i < 64 && target_ok(g, i, side, false),
        forall|i: int| #[trigger] bit(dm, i) ==> 0 <= i < 64 && target_ok(g, i, side, false),
    ensures
        forall|i: int| #[trigger] bit(rotl(single(sq), shift as u64) & pm, i) ==> pawn_target_ok(g, o, side, shift, i, false),
        forall|i: int| #[trigger] bit(rotl(rotl(single(sq), shift as u64) & pm, shift as u64) & dm, i) ==> pawn_target_ok(
            g, o,
            side,
            ((shift * 2) % 64) as u8,
            i,
            false,
        ),
{
    let singles = rotl(single(sq), shift as u64) & pm;
    let shift2 = ((shift * 2) % 64) as u8;
    lemma_bit_single_u8(sq, 0);
    assert forall|i: int| #[trigger] bit(singles, i) implies pawn_target_ok(g, o, side, shift, i, false) by {
        lemma_bit_and(rotl(single(sq), shift as u64), pm, i);
        lemma_rotl_bit(single(sq), shift, i);
    }
    assert forall|i: int| #[trigger] bit(rotl(singles, shift as u64) & dm, i) implies pawn_target_ok(g, o, side, shift2, i, false) by {
        lemma_bit_and(rotl(singles, shift as u64), dm, i);
        lemma_rotl_bit(singles, shift, i);
        let j = source(i as u8, shift);
        lemma_bit_and(rotl(single(sq), shift as u64), pm, j as int);
        lemma_rotl_bit(single(sq), shift, j as int);
        lemma_double_source(i, shift);
    }
}

/// Two steps back by `shift` are one step back by twice `shift`.
proof fn lemma_double_source(i: int, shift: u8)
    requires
        0 <= i < 64,
        shift == 8 || shift == 56,
    ensures
        source(source(i as u8, shift), shift) == source(i as u8, ((shift * 2) % 64) as u8),
{
    if shift == 8 {
        assert(((shift * 2) % 64) as u8 == 16);
    } else {
        assert(((shift * 2) % 64) as u8 == 48);
    }
}

/// The pushes of the pinned pawns on `sqs`, all of the side to move, onto
/// empty squares of `pm` and `dm` can be made.
proof fn lemma_pin_push_ok(g: Seq<Piece>, o: u64, at: u64, side: u8, sqs: Seq<u8>, shift: u8, pm: u64, dm: u64)
    requires
        g.len() == 64,
        side <= 1,
        shift == 8 || shift == 56,
        forall|k: int| 0 <= k < sqs.len() ==> #[trigger] sqs[k] < 64 && g[sqs[k] as int] == Piece((2 * PAWN + side) as u8),
        forall|i: int| #[trigger] bit(pm, i) ==> 0 <= i < 64 && target_ok(g, i, side, false),
        forall|i: int| #[trigger] bit(dm, i) ==> 0 <= i < 64 && target_ok(g, i, side, false),
    ensures
        all_makeable(g, o, at, pin_push_seq(sqs, shift, pm, dm), side),
    decreases sqs.len(),
{
    if sqs.len() > 0 {
        let sq = sqs.last();
        assert(sqs[sqs.len() - 1] < 64);
        lemma_pin_push_ok(g, o, at, side, sqs.drop_last(), shift, pm, dm);
        let singles = rotl(single(sq), shift as u64) & pm;
        let doubles = rotl(singles, shift as u64) & dm;
        let shift2 = ((shift * 2) % 64) as u8;
        lemma_pin_steps(g, o, side, sq, shift, pm, dm);
        lemma_pawn_set_ok(g, o, at, side, shift, singles, false);
        lemma_pawn_set_ok(g, o, at, side, shift2, doubles, false);
        let prev = pin_push_seq(sqs.drop_last(), shift, pm, dm);
        lemma_all_add(g, o, at, prev, pawn_push_seq(shift, singles), side);
        lemma_all_add(g, o, at, prev + pawn_push_seq(shift, singles), double_push_seq(shift2, doubles), side);
    }
}

/// The moves of the pawns of the side to move pinned against its king can be
/// made.
proof fn lemma_pin_ray_ok(pos: Position, cm: u64, pm: u64, king: u8, pinned: u64)
    requires
        pos.wf(),
        ep_agrees(pos),
        forall|i: int| #[trigger] bit(cm, i) ==> 0 <= i < 64 && target_ok(pos.grid(), i, stm(pos), true),
        forall|i: int| #[trigger] bit(pm, i) ==> 0 <= i < 64 && target_ok(pos.grid(), i, stm(pos), false),
    ensures
        all_makeable(pos.grid(), occ(pos), attacked(pos), pin_ray_seq(pos, cm, pm, king, pinned), stm(pos)),
{
    lemma_position_bits(pos);
    let g = pos.grid();
    let o = occ(pos);
    let at = attacked(pos);
    let s = stm(pos);
    let movers = pbits(pos, 2 * PAWN + s) & pinned;
    let shift = push_shift(s);
    let can_push = movers & (FILE_A << (king & 7));
    let diags = diagonal_spec(single(king), 0);
    let can_capture = movers & diags;
    if movers != 0 {
        assert forall|i: int| #[trigger] bit(movers, i) implies g[i] == Piece((2 * PAWN + s) as u8) by {
            lemma_bit_and(pbits(pos, 2 * PAWN + s), pinned, i);
        }
        assert forall|i: int| #[trigger] bit(can_capture, i) implies g[i] == Piece((2 * PAWN + s) as u8) by {
            lemma_bit_and(movers, diags, i);
        }
        lemma_squares(can_push);
        assert forall|k: int| 0 <= k < squares(can_push).len() implies #[trigger] squares(can_push)[k] < 64
            && g[squares(can_push)[k] as int] == Piece((2 * PAWN + s) as u8) by {
            lemma_bit_and(movers, FILE_A << (king & 7), squares(can_push)[k] as int);
        }
        let dm = pm & double_rank(s);
        assert forall|i: int| #[trigger] bit(dm, i) implies 0 <= i < 64 && target_ok(g, i, s, false) by {
            lemma_bit_and(pm, double_rank(s), i);
        }
        lemma_pin_push_ok(g, o, at, s, squares(can_push), shift, pm, dm);
        let sh0 = pawn_shift(s, 0);
        let sh1 = pawn_shift(s, 1);
        let t0 = rotl(can_capture, sh0 as u64) & pawn_mask(0) & cm & diags;
        let t1 = rotl(can_capture, sh1 as u64) & pawn_mask(1) & cm & diags;
        assert forall|i: int| #[trigger] bit(t0, i) implies pawn_target_ok(g, o, s, sh0, i, true) by {
            lemma_bit_and(rotl(can_capture, sh0 as u64) & pawn_mask(0) & cm, diags, i);
            lemma_bit_and(rotl(can_capture, sh0 as u64) & pawn_mask(0), cm, i);
            lemma_bit_and(rotl(can_capture, sh0 as u64), pawn_mask(0), i);
            lemma_rotl_bit(can_capture, sh0, i);
            if 0 <= i < 64 {
                lemma_pawn_hits(g, o, s, 0, i);
            }
        }
        assert forall|i: int| #[trigger] bit(t1, i) implies pawn_target_ok(g, o, s, sh1, i, true) by {
            lemma_bit_and(rotl(can_capture, sh1 as u64) & pawn_mask(1) & cm, diags, i);
            lemma_bit_and(rotl(can_capture, sh1 as u64) & pawn_mask(1), cm, i);
            lemma_bit_and(rotl(can_capture, sh1 as u64), pawn_mask(1), i);
            lemma_rotl_bit(can_capture, sh1, i);
            if 0 <= i < 64 {
                lemma_pawn_hits(g, o, s, 1, i);
            }
        }
        lemma_pawn_set_ok(g, o, at, s, sh0, t0, true);
        lemma_pawn_set_ok(g, o, at, s, sh1, t1, true);
        let a = pin_push_seq(squares(can_push), shift, pm, dm);
        lemma_all_add(g, o, at, a, pawn_capture_seq(sh0, t0), s);
        lemma_all_add(g, o, at, a + pawn_capture_seq(sh0, t0), pawn_capture_seq(sh1, t1), s);
        let a3 = a + pawn_capture_seq(sh0, t0) + pawn_capture_seq(sh1, t1);
        match pos.state_spec().en_passant_target {
            Some(ep) => {
                lemma_ep_ok(pos, can_capture, 0, ep.0, cm, diags, diags, false);
                lemma_ep_ok(pos, can_capture, 1, ep.0, cm, diags, diags, false);
                let e0 = ep_capture_seq(pos, can_capture, 0, ep.0, cm, diags, diags, false);
                let e1 = ep_capture_seq(pos, can_capture, 1, ep.0, cm, diags, diags, false);
                lemma_all_add(g, o, at, e0, e1, s);
                lemma_all_add(g, o, at, a3, e0 + e1, s);
            },
            None => {
                lemma_all_add(g, o, at, a3, Seq::empty(), s);
            },
        }
    }
}

/// If the side to move holds the right to castle `c`, its king and rook
/// stand on their squares.
pub open spec fn right_agrees(pos: Position, c: u8) -> bool {
    (pos.state_spec().castling_rights.0 >> (2 * stm(pos) + c) as u8) & 1 == 1 ==> {
        let (kf, kt, rf, rt) = castle_squares_spec(stm(pos), c);
        &&& pos.grid()[kf as int] == Piece((2 * KING + stm(pos)) as u8)
        &&& pos.grid()[rf as int] == Piece((2 * ROOK + stm(pos)) as u8)
    }
}

/// Each castling right of the side to move that is held finds its king and
/// rook on their squares.
pub open spec fn rights_agree(pos: Position) -> bool {
    right_agrees(pos, 0) && right_agrees(pos, 1)
}

/// The squares a castle must find empty include those the king and rook go
/// to, and the squares it must find unattacked include those the king
/// stands on, crosses and goes to.
proof fn lemma_castle_blockers(side: u8, c: u8)
    requires
        side <= 1,
        c <= 1,
    ensures
        ({
            let (kf, kt, rf, rt) = castle_squares_spec(side, c);
            &&& bit(castle_blockers(side, c), kt as int) && bit(castle_blockers(side, c), rt as int)
            &&& bit(crate::legal_moves::castle_safe(side, c), kf as int)
            &&& bit(crate::legal_moves::castle_safe(side, c), kt as int)
            &&& bit(crate::legal_moves::castle_safe(side, c), rt as int)
        }),
{
    assert((0x60u64 >> 5u64) & 1 == 1 && (0x60u64 >> 6u64) & 1 == 1 && (0x0Eu64 >> 2u64) & 1 == 1 && (0x0Eu64
        >> 3u64) & 1 == 1 && (0x6000_0000_0000_0000u64 >> 61u64) & 1 == 1 && (0x6000_0000_0000_0000u64 >> 62u64) & 1
        == 1 && (0x0E00_0000_0000_0000u64 >> 58u64) & 1 == 1 && (0x0E00_0000_0000_0000u64 >> 59u64) & 1 == 1
        && (0x70u64 >> 4u64) & 1 == 1 && (0x70u64 >> 5u64) & 1 == 1 && (0x70u64 >> 6u64) & 1 == 1
        && (0x1Cu64 >> 2u64) & 1 == 1 && (0x1Cu64 >> 3u64) & 1 == 1 && (0x1Cu64 >> 4u64) & 1 == 1
        && (0x7000_0000_0000_0000u64 >> 60u64) & 1 == 1 && (0x7000_0000_0000_0000u64 >> 61u64) & 1 == 1
        && (0x7000_0000_0000_0000u64 >> 62u64) & 1 == 1 && (0x1C00_0000_0000_0000u64 >> 58u64) & 1 == 1
        && (0x1C00_0000_0000_0000u64 >> 59u64) & 1 == 1 && (0x1C00_0000_0000_0000u64 >> 60u64) & 1 == 1)
        by (bit_vector);
}

/// A castle the generator finds can be made.
proof fn lemma_castle_ok(pos: Position, at: u64, c: u8)
    requires
        pos.wf(),
        rights_agree(pos),
        c <= 1,
    ensures
        all_makeable(pos.grid(), occ(pos), at, one_castle_seq(pos, at, c), stm(pos)),
{
    lemma_position_bits(pos);
    let g = pos.grid();
    let o = occ(pos);
    let s = stm(pos);
    let rights = pos.state_spec().castling_rights.0;
    let from: u8 = if s == 0 { 4 } else { 60 };
    let to: u8 = if c == 0 { (from + 2) as u8 } else { (from - 2) as u8 };
    if (rights >> (2 * s + c) as u8) & 1 == 1 && occ(pos) & castle_blockers(s, c) == 0 && at
        & crate::legal_moves::castle_safe(s, c) == 0 {
        let (kf, kt, rf, rt) = castle_squares_spec(s, c);
        lemma_castle_blockers(s, c);
        lemma_bit_and(occ(pos), castle_blockers(s, c), kt as int);
        lemma_bit_and(occ(pos), castle_blockers(s, c), rt as int);
        lemma_bit_and(0, 0, kt as int);
        lemma_bit_and(0, 0, rt as int);
        let safe = crate::legal_moves::castle_safe(s, c);
        lemma_bit_and(at, safe, kf as int);
        lemma_bit_and(at, safe, kt as int);
        lemma_bit_and(at, safe, rt as int);
        lemma_bit_and(0, 0, kf as int);
        crate::moves::law_move_round_trip(from, to, 1, c);
        let m = Move(from, to | 0x80 | (c << 6));
        assert(m.castle_spec() == Some(crate::castle::Castle(c)));
        assert(makeable(g, o, at, m, s));
        assert(castle_seq(from, to, c) =~= seq![m]);
    }
}

/// Every move the generator hands over for `pos` can be made there: it lifts
/// a piece of the side to move
/// and puts it on an empty square or on a piece of the opponent that it
/// takes (the pawn passed, for an en-passant capture); a promotion and a
/// double push lift a pawn; a castle finds king and rook in place and the
/// squares they go to empty. This holds when the castling rights and the en-passant target
/// agree with the pieces.
pub proof fn law_generated_moves_can_be_made(pos: Position)
    requires
        pos.wf(),
        has_kings(pos),
        rights_agree(pos),
        ep_agrees(pos),
    ensures
        all_makeable(pos.grid(), occ(pos), attacked(pos), legal_move_seq(pos), stm(pos)),
{
    lemma_position_bits(pos);
    let g = pos.grid();
    let o = occ(pos);
    let at = attacked(pos);
    let s = stm(pos);
    lemma_safe_king_ok(pos);
    let count = popcount(checkers(pos));
    if count < 2 {
        let cm = capture_targets(pos);
        let pm = push_targets(pos);
        let pn = pinned(pos);
        let k = king_square(pos);
        let pr = pinners(pos);
        lemma_capture_targets(pos);
        lemma_push_targets(pos);
        assert forall|i: int| #[trigger] bit(cm & pr, i) implies 0 <= i < 64 && target_ok(g, i, s, true) by {
            lemma_bit_and(cm, pr, i);
        }
        lemma_slider_ok(pos, cm, pm, pn, k);
        lemma_knight_ok(pos, cm, pm, !pn);
        lemma_pawn_pushes_ok(pos, pm, !pn);
        lemma_pawn_captures_ok(pos, cm, pm, !pn);
        lemma_pin_ray_ok(pos, cm & pr, pm, k, pn);
        reveal(piece_seq);
        let a = crate::legal_moves::slider_seq(pos, cm, pm, pn, k);
        let b = knight_seq(pos, cm, pm, !pn);
        let c = pawn_pushes_seq(pos, pm, !pn);
        let d = pawn_captures_seq(pos, cm, pm, !pn);
        let e = pin_ray_seq(pos, cm & pr, pm, k, pn);
        lemma_all_add(g, o, at, a, b, s);
        lemma_all_add(g, o, at, a + b, c, s);
        lemma_all_add(g, o, at, a + b + c, d, s);
        lemma_all_add(g, o, at, a + b + c + d, e, s);
        assert(piece_seq(pos, cm, pm, pn, k, pr) == a + b + c + d + e);
        lemma_castle_ok(pos, attacked(pos), 0);
        lemma_castle_ok(pos, attacked(pos), 1);
        lemma_all_add(g, o, at, one_castle_seq(pos, attacked(pos), 0), one_castle_seq(pos, attacked(pos), 1), s);
        let cs: Seq<Move> = if count == 0 { castles_seq(pos) } else { Seq::empty() };
        lemma_all_add(g, o, at, piece_seq(pos, cm, pm, pn, k, pr), cs, s);
        lemma_all_add(g, o, at, piece_seq(pos, cm, pm, pn, k, pr) + cs, safe_king_seq(pos), s);
    }
}

/// Every capture the generator hands over for `pos` takes a piece that the
/// side to move attacks, or a pawn of the opponent en passant; so where the
/// opponent's king is not attacked, no generated move takes it. This holds
/// when the castling rights and the en-passant target agree with the pieces.
pub proof fn law_generated_captures_take_attacked_pieces(pos: Position)
    requires
        pos.wf(),
        has_kings(pos),
        rights_agree(pos),
        ep_agrees(pos),
    ensures
        forall|k: int|
            0 <= k < legal_move_seq(pos).len() && (#[trigger] legal_move_seq(pos)[k]).is_capture_spec() ==> {
                let m = legal_move_seq(pos)[k];
                let cap = capture_square_spec(m) as int;
                if m.is_en_passant_spec() {
                    pos.grid()[cap] == Piece((2 * PAWN + opp(pos)) as u8)
                } else {
                    attacked_by(pos.grid(), occ(pos), stm(pos), cap)
                }
            },
        forall|k: int|
            0 <= k < legal_move_seq(pos).len() && (#[trigger] legal_move_seq(pos)[k]).is_capture_spec()
                && pos.grid()[capture_square_spec(legal_move_seq(pos)[k]) as int] == Piece((2 * KING + opp(pos)) as u8)
                ==> attacked_by(pos.grid(), occ(pos), stm(pos), capture_square_spec(legal_move_seq(pos)[k]) as int),
{
    law_generated_moves_can_be_made(pos);
    lemma_position_bits(pos);
    let g = pos.grid();
    let o = occ(pos);
    let at = attacked(pos);
    let side = stm(pos);
    let ms = legal_move_seq(pos);
    assert forall|k: int| 0 <= k < ms.len() && (#[trigger] ms[k]).is_capture_spec() implies {
        let m = ms[k];
        let cap = capture_square_spec(m) as int;
        if m.is_en_passant_spec() {
            g[cap] == Piece((2 * PAWN + opp(pos)) as u8)
        } else {
            attacked_by(g, o, side, cap)
        }
    } by {
        let m = ms[k];
        assert(makeable(g, o, at, m, side));
        lemma_byte_bits(m.0, m.1);
        assert(m.castle_spec() is None);
        if !m.is_en_passant_spec() {
            let from = (m.0 & 63) as int;
            assert(bit(piece_attacks(g[from].0, m.0 & 63, o), capture_square_spec(m) as int));
            assert(from as u8 == m.0 & 63);
        }
    }
}

/// The squares a move names lie on the board, and a capture is no castle.
proof fn lemma_byte_bits(a: u8, b: u8)
    by (bit_vector)
    ensures
        a & 63 < 64,
        b & 63 < 64,
        ((a & 63) & 56) | ((b & 63) & 7) < 64,
        a & 0x40 == 0x40 ==> a & 0xC0 != 0,
{
}

/// Some square of `g` holds `p`.
pub open spec fn grid_has(g: Seq<Piece>, p: Piece) -> bool {
    exists|i: int| 0 <= i < 64 && #[trigger] g[i] == p
}

/// A move that can be made by `side`, and that does not take the king of
/// the other side, leaves both kings on the board.
proof fn lemma_kings_stay(g: Seq<Piece>, o: u64, at: u64, m: Move, side: u8, ks: int, ko: int)
    requires
        g.len() == 64,
        side <= 1,
        makeable(g, o, at, m, side),
        0 <= ks < 64,
        0 <= ko < 64,
        g[ks] == Piece((2 * KING + side) as u8),
        g[ko] == Piece((2 * KING + 1 - side) as u8),
        m.castle_spec() is None && m.is_capture_spec() ==> capture_square_spec(m) != ko,
    ensures
        grid_has(make_grid(g, m, side), Piece((2 * KING + side) as u8)),
        grid_has(make_grid(g, m, side), Piece((2 * KING + 1 - side) as u8)),
{
    let own = Piece((2 * KING + side) as u8);
    let other = Piece((2 * KING + 1 - side) as u8);
    let g2 = make_grid(g, m, side);
    match m.castle_spec() {
        Some(c) => {
            let (kf, kt, rf, rt) = castle_squares_spec(side, c.0);
            assert(g2[kt as int] == own);
            assert(g2[ko] == other);
        },
        None => {
            let from = (m.0 & 63) as int;
            let to = (m.1 & 63) as int;
            lemma_byte_bits(m.0, m.1);
            let cap = capture_square_spec(m) as int;
            let g1 = if m.is_capture_spec() { g.update(cap, Piece(12)) } else { g };
            let g3 = g1.update(from, Piece(12)).update(to, g1[from]);
            assert(g1.len() == 64 && g3.len() == 64);
            assert(g2 == match m.promote_spec() {
                Some(k) => g3.update(to, Piece((2 * k.0 + side) as u8)),
                None => g3,
            });
            assert(m.is_capture_spec() ==> cap != from);
            assert(m.is_capture_spec() ==> g[cap].0 % 2 != side);
            assert((m.is_capture_spec() && cap == to) || g[to].0 == 12);
            if ks == from {
                assert(m.promote_spec() is None);
                assert(g1[from] == own);
                assert(g3[to] == own);
                assert(g2[to] == own);
            } else {
                assert(ks != to);
                assert(g1[ks] == own);
                assert(g3[ks] == own);
                assert(g2[ks] == own);
            }
            assert(ko != to);
            assert(ko != from);
            assert(g1[ko] == other);
            assert(g3[ko] == other);
            assert(g2[ko] == other);
        },
    }
}

/// Where the opponent's king is not attacked, every move the generator hands
/// over for `pos` leaves both kings on the board. This holds when the
/// castling rights and the en-passant target agree with the pieces.
pub proof fn law_generated_moves_keep_kings(pos: Position)
    requires
        pos.wf(),
        has_kings(pos),
        rights_agree(pos),
        ep_agrees(pos),
        forall|i: int| pos.grid()[i] == Piece((2 * KING + opp(pos)) as u8) ==> !attacked_by(pos.grid(), occ(pos), stm(pos), i),
    ensures
        forall|k: int|
            0 <= k < legal_move_seq(pos).len() ==> grid_has(
                make_grid(pos.grid(), #[trigger] legal_move_seq(pos)[k], stm(pos)),
                Piece((2 * KING + stm(pos)) as u8),
            ) && grid_has(make_grid(pos.grid(), legal_move_seq(pos)[k], stm(pos)), Piece((2 * KING + opp(pos)) as u8)),
{
    law_generated_moves_can_be_made(pos);
    law_generated_captures_take_attacked_pieces(pos);
    lemma_position_bits(pos);
    lemma_king_square(pos);
    let g = pos.grid();
    let o = occ(pos);
    let at = attacked(pos);
    let side = stm(pos);
    let ms = legal_move_seq(pos);
    let ks = king_square(pos) as int;
    let kb = pbits(pos, 2 * KING + opp(pos));
    lemma_lowest(kb);
    let ko = u64_trailing_zeros(kb) as int;
    assert(g[ko] == Piece((2 * KING + opp(pos)) as u8));
    assert forall|k: int| 0 <= k < ms.len() implies grid_has(
        make_grid(g, #[trigger] ms[k], side),
        Piece((2 * KING + side) as u8),
    ) && grid_has(make_grid(g, ms[k], side), Piece((2 * KING + opp(pos)) as u8)) by {
        let m = ms[k];
        assert(makeable(g, o, at, m, side));
        if m.castle_spec() is None && m.is_capture_spec() && capture_square_spec(m) == ko {
            assert(!attacked_by(g, o, side, ko));
            assert(false);
        }
        lemma_kings_stay(g, o, at, m, side, ks, ko);
    }
}

/// A castle the generator hands over for `pos` takes the king only over
/// squares the opponent does not attack: the square it stands on, the square
/// it crosses and the square it reaches are all outside `attacked(pos)`.
pub proof fn law_generated_castles_avoid_attacked_squares(pos: Position)
    requires
        pos.wf(),
        has_kings(pos),
        rights_agree(pos),
        ep_agrees(pos),
    ensures
        forall|k: int|
            0 <= k < legal_move_seq(pos).len() && (#[trigger] legal_move_seq(pos)[k]).castle_spec() is Some ==> {
                let c = legal_move_seq(pos)[k].castle_spec()->0;
                let (kf, kt, rf, rt) = castle_squares_spec(stm(pos), c.0);
                !bit(attacked(pos), kf as int) && !bit(attacked(pos), rt as int) && !bit(attacked(pos), kt as int)
            },
{
    law_generated_moves_can_be_made(pos);
    assert forall|k: int|
        0 <= k < legal_move_seq(pos).len() && (#[trigger] legal_move_seq(pos)[k]).castle_spec() is Some implies {
            let c = legal_move_seq(pos)[k].castle_spec()->0;
            let (kf, kt, rf, rt) = castle_squares_spec(stm(pos), c.0);
            !bit(attacked(pos), kf as int) && !bit(attacked(pos), rt as int) && !bit(attacked(pos), kt as int)
        } by {
        assert(makeable(pos.grid(), occ(pos), attacked(pos), legal_move_seq(pos)[k], stm(pos)));
    }
}

proof fn lemma_ray_hit_mono(a: u64, b: u64, empty: u64, df: int, dr: int, f: int, r: int, n: nat)
    requires
        covers(a, b),
    ensures
        crate::rays::ray_hit(a, empty, df, dr, f, r, n) ==> crate::rays::ray_hit(b, empty, df, dr, f, r, n),
    decreases n,
{
    if n > 0 {
        lemma_ray_hit_mono(a, b, empty, df, dr, f - df, r - dr, (n - 1) as nat);
        assert(bit(a, crate::rays::square_at(f - df, r - dr)) ==> bit(b, crate::rays::square_at(f - df, r - dr)));
    }
}

/// Sliders on more squares attack more squares.
proof fn lemma_slider_mono(a: u64, b: u64, occupied: u64)
    requires
        covers(a, b),
    ensures
        covers(straight_spec(a, occupied), straight_spec(b, occupied)),
        covers(diagonal_spec(a, occupied), diagonal_spec(b, occupied)),
{
    let e = !occupied;
    assert forall|t: int| #[trigger] bit(straight_spec(a, occupied), t) implies bit(straight_spec(b, occupied), t) by {
        crate::bits::lemma_bit_and(0, 0, t);
        if 0 <= t < 64 {
            crate::rays::law_ray_attacks(a, e, t);
            crate::rays::law_ray_attacks(b, e, t);
            let f = crate::rays::file_of(t);
            let r = crate::rays::rank_of(t);
            lemma_ray_hit_mono(a, b, e, 1, 0, f, r, 8);
            lemma_ray_hit_mono(a, b, e, 0, 1, f, r, 8);
            lemma_ray_hit_mono(a, b, e, 0, -1, f, r, 8);
            lemma_ray_hit_mono(a, b, e, -1, 0, f, r, 8);
            lemma_bit_and(crate::board::east_spec(a, e) | crate::board::north_spec(a, e) | crate::board::south_spec(a, e), crate::board::west_spec(a, e), t);
            lemma_bit_and(crate::board::east_spec(a, e) | crate::board::north_spec(a, e), crate::board::south_spec(a, e), t);
            lemma_bit_and(crate::board::east_spec(a, e), crate::board::north_spec(a, e), t);
            lemma_bit_and(crate::board::east_spec(b, e) | crate::board::north_spec(b, e) | crate::board::south_spec(b, e), crate::board::west_spec(b, e), t);
            lemma_bit_and(crate::board::east_spec(b, e) | crate::board::north_spec(b, e), crate::board::south_spec(b, e), t);
            lemma_bit_and(crate::board::east_spec(b, e), crate::board::north_spec(b, e), t);
        }
    }
    assert forall|t: int| #[trigger] bit(diagonal_spec(a, occupied), t) implies bit(diagonal_spec(b, occupied), t) by {
        crate::bits::lemma_bit_and(0, 0, t);
        if 0 <= t < 64 {
            crate::rays::law_ray_attacks(a, e, t);
            crate::rays::law_ray_attacks(b, e, t);
            let f = crate::rays::file_of(t);
            let r = crate::rays::rank_of(t);
            lemma_ray_hit_mono(a, b, e, 1, 1, f, r, 8);
            lemma_ray_hit_mono(a, b, e, -1, 1, f, r, 8);
            lemma_ray_hit_mono(a, b, e, 1, -1, f, r, 8);
            lemma_ray_hit_mono(a, b, e, -1, -1, f, r, 8);
            lemma_bit_and(crate::board::north_east_spec(a, e) | crate::board::north_west_spec(a, e) | crate::board::south_east_spec(a, e), crate::board::south_west_spec(a, e), t);
            lemma_bit_and(crate::board::north_east_spec(a, e) | crate::board::north_west_spec(a, e), crate::board::south_east_spec(a, e), t);
            lemma_bit_and(crate::board::north_east_spec(a, e), crate::board::north_west_spec(a, e), t);
            lemma_bit_and(crate::board::north_east_spec(b, e) | crate::board::north_west_spec(b, e) | crate::board::south_east_spec(b, e), crate::board::south_west_spec(b, e), t);
            lemma_bit_and(crate::board::north_east_spec(b, e) | crate::board::north_west_spec(b, e), crate::board::south_east_spec(b, e), t);
            lemma_bit_and(crate::board::north_east_spec(b, e), crate::board::north_west_spec(b, e), t);
        }
    }
}

proof fn lemma_leaper_words(a: u64, b: u64)
    by (bit_vector)
    requires
        a & b == a,
    ensures
        king_spec(a) & king_spec(b) == king_spec(a),
        knight_spec(a) & knight_spec(b) == knight_spec(a),
{
}

/// Kings and knights on more squares attack more squares.
proof fn lemma_leaper_mono(a: u64, b: u64)
    requires
        covers(a, b),
    ensures
        covers(king_spec(a), king_spec(b)),
        covers(knight_spec(a), knight_spec(b)),
{
    assert forall|i: int| 0 <= i < 64 implies bit(a & b, i) == bit(a, i) by {
        lemma_bit_and(a, b, i);
    }
    crate::bits::lemma_bits_ext(a & b, a);
    lemma_leaper_words(a, b);
    assert forall|t: int| #[trigger] bit(king_spec(a), t) implies bit(king_spec(b), t) by {
        lemma_bit_and(king_spec(a), king_spec(b), t);
    }
    assert forall|t: int| #[trigger] bit(knight_spec(a), t) implies bit(knight_spec(b), t) by {
        lemma_bit_and(knight_spec(a), knight_spec(b), t);
    }
}

/// The opponent of the side to move has one king.
pub open spec fn one_opponent_king(pos: Position) -> bool {
    forall|i: int, j: int|
        0 <= i < 64 && 0 <= j < 64 && #[trigger] pos.grid()[i] == Piece((2 * KING + opp(pos)) as u8) && #[trigger] pos.grid()[j]
            == Piece((2 * KING + opp(pos)) as u8) ==> i == j
}

/// The squares occupied once the king of the side to move is taken off.
pub open spec fn occ_without_king(pos: Position) -> u64 {
    occ(pos) & !pbits(pos, 2 * KING + stm(pos))
}

proof fn lemma_single_covers(sq: u8, b: u64)
    requires
        sq < 64,
        bit(b, sq as int),
    ensures
        covers(single(sq), b),
{
    assert forall|i: int| #[trigger] bit(single(sq), i) implies bit(b, i) by {
        lemma_bit_single_u8(sq, i);
    }
}

/// Every square that a piece of the opponent attacks, the king of the side
/// to move taken off the board, is one of `attacked(pos)`: the squares the
/// generator keeps the king off hold all of the opponent's attacks.
pub proof fn law_attacked_holds_opponent_attacks(pos: Position, s: int, t: int)
    requires
        pos.wf(),
        has_kings(pos),
        one_opponent_king(pos),
        0 <= s < 64,
        pos.grid()[s].0 < 12,
        pos.grid()[s].0 % 2 == opp(pos),
        bit(piece_attacks(pos.grid()[s].0, s as u8, occ_without_king(pos)), t),
    ensures
        bit(attacked(pos), t),
{
    lemma_position_bits(pos);
    let g = pos.grid();
    let c = g[s].0;
    let sq = s as u8;
    let o = opp(pos);
    let wk = occ_without_king(pos);
    let kb = pbits(pos, 2 * KING + o);
    lemma_lowest(kb);
    let ok = u64_trailing_zeros(kb) as u8;
    let sa = straight_attackers(pos);
    let da = diagonal_attackers(pos);
    let knights = pbits(pos, 2 * KNIGHT + o);
    let pawns = pbits(pos, 2 * PAWN + o);
    let a1 = king_spec(single(ok));
    let a2 = straight_spec(sa, wk);
    let a3 = diagonal_spec(da, wk);
    let a4 = knight_spec(knights);
    let a5 = rotl(pawns, pawn_shift(o, 0) as u64) & pawn_mask(0);
    let a6 = rotl(pawns, pawn_shift(o, 1) as u64) & pawn_mask(1);
    assert(attacked(pos) == ((((a1 | a2) | a3) | a4) | a5) | a6);
    lemma_bit_and((((a1 | a2) | a3) | a4) | a5, a6, t);
    lemma_bit_and(((a1 | a2) | a3) | a4, a5, t);
    lemma_bit_and((a1 | a2) | a3, a4, t);
    lemma_bit_and(a1 | a2, a3, t);
    lemma_bit_and(a1, a2, t);
    lemma_bit_and(pbits(pos, 2 * QUEEN + o), pbits(pos, 2 * ROOK + o), s);
    lemma_bit_and(pbits(pos, 2 * QUEEN + o), pbits(pos, 2 * BISHOP + o), s);
    if c / 2 == KING {
        assert(g[ok as int] == Piece((2 * KING + o) as u8));
        assert(g[s] == Piece((2 * KING + o) as u8));
        assert(s == ok);
    } else if c / 2 == QUEEN {
        lemma_single_covers(sq, sa);
        lemma_single_covers(sq, da);
        lemma_slider_mono(single(sq), sa, wk);
        lemma_slider_mono(single(sq), da, wk);
        lemma_bit_and(straight_spec(single(sq), wk), diagonal_spec(single(sq), wk), t);
    } else if c / 2 == ROOK {
        lemma_single_covers(sq, sa);
        lemma_slider_mono(single(sq), sa, wk);
    } else if c / 2 == BISHOP {
        lemma_single_covers(sq, da);
        lemma_slider_mono(single(sq), da, wk);
    } else if c / 2 == KNIGHT {
        lemma_single_covers(sq, knights);
        lemma_leaper_mono(single(sq), knights);
    } else {
        assert(c == 2 * PAWN + o);
        let x0 = rotl(single(sq), pawn_shift(o, 0) as u64) & pawn_mask(0);
        let x1 = rotl(single(sq), pawn_shift(o, 1) as u64) & pawn_mask(1);
        lemma_bit_and(x0, x1, t);
        lemma_bit_and(rotl(single(sq), pawn_shift(o, 0) as u64), pawn_mask(0), t);
        lemma_bit_and(rotl(single(sq), pawn_shift(o, 1) as u64), pawn_mask(1), t);
        lemma_bit_and(rotl(pawns, pawn_shift(o, 0) as u64), pawn_mask(0), t);
        lemma_bit_and(rotl(pawns, pawn_shift(o, 1) as u64), pawn_mask(1), t);
        if 0 <= t < 64 {
            lemma_rotl_bit(single(sq), pawn_shift(o, 0), t);
            lemma_rotl_bit(single(sq), pawn_shift(o, 1), t);
            lemma_rotl_bit(pawns, pawn_shift(o, 0), t);
            lemma_rotl_bit(pawns, pawn_shift(o, 1), t);
            lemma_bit_single_u8(sq, source(t as u8, pawn_shift(o, 0)) as int);
            lemma_bit_single_u8(sq, source(t as u8, pawn_shift(o, 1)) as int);
        } else {
            lemma_bit_and(0, 0, t);
        }
    }
}

/// A castle the generator hands over for `pos` takes the king only over
/// squares no piece of the opponent attacks (the king taken off the board):
/// the square it stands on, the square it crosses and the square it
/// reaches. This holds when the castling rights and the en-passant target
/// agree with the pieces and the opponent has one king.
pub proof fn law_generated_castles_pass_unattacked(pos: Position)
    requires
        pos.wf(),
        has_kings(pos),
        rights_agree(pos),
        ep_agrees(pos),
        one_opponent_king(pos),
    ensures
        forall|k: int|
            0 <= k < legal_move_seq(pos).len() && (#[trigger] legal_move_seq(pos)[k]).castle_spec() is Some ==> {
                let c = legal_move_seq(pos)[k].castle_spec()->0;
                let (kf, kt, rf, rt) = castle_squares_spec(stm(pos), c.0);
                &&& !attacked_by(pos.grid(), occ_without_king(pos), opp(pos), kf as int)
                &&& !attacked_by(pos.grid(), occ_without_king(pos), opp(pos), rt as int)
                &&& !attacked_by(pos.grid(), occ_without_king(pos), opp(pos), kt as int)
            },
{
    law_generated_castles_avoid_attacked_squares(pos);
    lemma_position_bits(pos);
    let g = pos.grid();
    let wk = occ_without_king(pos);
    assert forall|t: int| #[trigger] attacked_by(g, wk, opp(pos), t) implies bit(attacked(pos), t) by {
        let s = choose|s: int|
            0 <= s < 64 && g[s].0 < 12 && g[s].0 % 2 == opp(pos) && #[trigger] bit(piece_attacks(g[s].0, s as u8, wk), t);
        law_attacked_holds_opponent_attacks(pos, s, t);
    }
}

/// A king move the generator hands over for `pos` goes to a square no piece
/// of the opponent attacks, the king taken off the board, so the king is not
/// left in check by it. This holds when the castling rights and the
/// en-passant target agree with the pieces and the opponent has one king.
pub proof fn law_generated_king_moves_reach_unattacked_squares(pos: Position)
    requires
        pos.wf(),
        has_kings(pos),
        rights_agree(pos),
        ep_agrees(pos),
        one_opponent_king(pos),
    ensures
        forall|k: int|
            0 <= k < legal_move_seq(pos).len() && (#[trigger] legal_move_seq(pos)[k]).castle_spec() is None
                && pos.grid()[(legal_move_seq(pos)[k].0 & 63) as int] == Piece((2 * KING + stm(pos)) as u8)
                ==> !attacked_by(pos.grid(), occ_without_king(pos), opp(pos), (legal_move_seq(pos)[k].1 & 63) as int),
{
    law_generated_moves_can_be_made(pos);
    lemma_position_bits(pos);
    let g = pos.grid();
    let wk = occ_without_king(pos);
    assert forall|t: int| #[trigger] attacked_by(g, wk, opp(pos), t) implies bit(attacked(pos), t) by {
        let s = choose|s: int|
            0 <= s < 64 && g[s].0 < 12 && g[s].0 % 2 == opp(pos) && #[trigger] bit(piece_attacks(g[s].0, s as u8, wk), t);
        law_attacked_holds_opponent_attacks(pos, s, t);
    }
    assert forall|k: int|
        0 <= k < legal_move_seq(pos).len() && (#[trigger] legal_move_seq(pos)[k]).castle_spec() is None
            && g[(legal_move_seq(pos)[k].0 & 63) as int] == Piece((2 * KING + stm(pos)) as u8) implies !attacked_by(
        g,
        wk,
        opp(pos),
        (legal_move_seq(pos)[k].1 & 63) as int,
    ) by {
        assert(makeable(g, occ(pos), attacked(pos), legal_move_seq(pos)[k], stm(pos)));
    }
}

} // verus!
