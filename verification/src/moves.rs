//! Moves, packed in two bytes.
//!
//! The low six bits of the first byte hold the square moved from, those of the
//! second byte the square moved to. The top two bits of each byte together
//! say what kind of move it is (first byte's pair, then second byte's):
//! `01 00` capture, `01 01` en-passant capture, `00 01` double pawn push,
//! `00 10` king-side castle, `00 11` queen-side castle, `10 kk` promotion to
//! kind `kk + 1` (queen, rook, bishop, knight), `11 kk` the same with a
//! capture, `00 00` any other move.
use vstd::prelude::*;
use crate::castle::Castle;
use crate::piece::PieceKind;
use crate::square::Square;
use crate::text::push_char;

verus! {

/// A move: `(from | flags << 6, to | flags << 6)`.
#[derive(Clone, Copy, Debug, PartialEq, Eq, Hash, Structural)]
pub struct Move(pub u8, pub u8);

/// The text of a move: the castle's notation, or the squares moved from and
/// to, with `x` between them for a capture, `=` and the kind's letter for a
/// promotion and `e.p.` after an en-passant capture.
pub open spec fn move_text(
    castle: Option<Castle>,
    from: Seq<char>,
    to: Seq<char>,
    capture: bool,
    promotion: Option<char>,
    en_passant: bool,
) -> Seq<char> {
    match castle {
        Some(c) => if c.0 == 1 { "O-O-O"@ } else { "O-O"@ },
        None => from + (if capture { seq!['x'] } else { Seq::empty() }) + to + (match promotion {
            Some(k) => seq!['=', k],
            None => Seq::empty(),
        }) + (if en_passant { "e.p."@ } else { Seq::empty() }),
    }
}

impl Move {
    /// The square moved from.
    pub fn from(self) -> (r: Square)
        ensures
            r.0 == self.0 & 63,
            r.0 < 64,
    {
        proof {
            let a = self.0;
            assert(a & 63 < 64) by (bit_vector);
        }
        Square(self.0 & 63)
    }

    /// The square moved to.
    pub fn to(self) -> (r: Square)
        ensures
            r.0 == self.1 & 63,
            r.0 < 64,
    {
        proof {
            let b = self.1;
            assert(b & 63 < 64) by (bit_vector);
        }
        Square(self.1 & 63)
    }

    /// The castle this move makes, if it is one.
    pub open spec fn castle_spec(self) -> Option<Castle> {
        if self.0 & 0xC0 == 0 && self.1 & 0x80 == 0x80 {
            Some(Castle((self.1 & 0x40) >> 6))
        } else {
            None
        }
    }

    /// The kind this move promotes to, if it is a promotion.
    pub open spec fn promote_spec(self) -> Option<PieceKind> {
        if self.0 & 0x80 == 0 {
            None
        } else {
            Some(PieceKind((((self.1 & 0xC0) >> 6) + 1) as u8))
        }
    }

    pub open spec fn is_capture_spec(self) -> bool {
        self.0 & 0x40 == 0x40
    }

    pub open spec fn is_double_push_spec(self) -> bool {
        self.0 & 0xC0 == 0 && self.1 & 0xC0 == 0x40
    }

    pub open spec fn is_en_passant_spec(self) -> bool {
        self.0 & 0xC0 == 0x40 && self.1 & 0xC0 == 0x40
    }

    /// The castle this move makes, if it is one.
    pub fn castle(self) -> (r: Option<Castle>)
        ensures
            r == self.castle_spec(),
            r matches Some(c) ==> c.0 <= 1,
    {
        if self.0 & 0xC0 == 0 && self.1 & 0x80 == 0x80 {
            proof {
                let b = self.1;
                assert((b & 0x40) >> 6 <= 1) by (bit_vector);
            }
            Some(Castle((self.1 & 0x40) >> 6))
        } else {
            None
        }
    }

    /// The kind this move promotes to, if it is a promotion.
    pub fn promote_to(self) -> (r: Option<PieceKind>)
        ensures
            r == self.promote_spec(),
            r matches Some(k) ==> 1 <= k.0 <= 4,
    {
        if self.0 & 0x80 == 0 {
            None
        } else {
            proof {
                let b = self.1;
                assert((b & 0xC0) >> 6 <= 3) by (bit_vector);
            }
            Some(PieceKind(((self.1 & 0xC0) >> 6) + 1))
        }
    }

    /// Whether a piece is captured.
    pub fn is_capture(self) -> (r: bool)
        ensures
            r == self.is_capture_spec(),
    {
        self.0 & 0x40 == 0x40
    }

    /// Whether a pawn advances two squares.
    pub fn is_double_pawn_push(self) -> (r: bool)
        ensures
            r == self.is_double_push_spec(),
    {
        self.0 & 0xC0 == 0 && self.1 & 0xC0 == 0x40
    }

    /// Whether a pawn is captured en passant.
    pub fn is_en_passant_capture(self) -> (r: bool)
        ensures
            r == self.is_en_passant_spec(),
    {
        self.0 & 0xC0 == 0x40 && self.1 & 0xC0 == 0x40
    }

    /// A capture from `from` to `to`.
    pub fn new_capture(from: Square, to: Square) -> (r: Move)
        requires
            from.0 < 64,
            to.0 < 64,
        ensures
            r == Move(from.0 | 0x40, to.0),
    {
        Move(from.0 | 0x40, to.0)
    }

    /// An en-passant capture from `from` to `to`.
    pub fn new_capture_en_passant(from: Square, to: Square) -> (r: Move)
        requires
            from.0 < 64,
            to.0 < 64,
        ensures
            r == Move(from.0 | 0x40, to.0 | 0x40),
    {
        Move(from.0 | 0x40, to.0 | 0x40)
    }

    /// A capture from `from` to `to` promoting to `promote_to`.
    pub fn new_capture_promotion(from: Square, to: Square, promote_to: PieceKind) -> (r: Move)
        requires
            from.0 < 64,
            to.0 < 64,
            1 <= promote_to.0 <= 4,
        ensures
            r == Move(from.0 | 0xC0, to.0 | (((promote_to.0 - 1) as u8) << 6)),
    {
        Move(from.0 | 0xC0, to.0 | ((promote_to.0 - 1) << 6))
    }

    /// The castle `castle`, the king moving from `from` to `to`.
    pub fn new_castle(from: Square, to: Square, castle: Castle) -> (r: Move)
        requires
            from.0 < 64,
            to.0 < 64,
            castle.0 <= 1,
        ensures
            r == Move(from.0, to.0 | 0x80 | (castle.0 << 6)),
    {
        Move(from.0, to.0 | 0x80 | (castle.0 << 6))
    }

    /// A move from `from` to `to` that captures nothing.
    pub fn new_push(from: Square, to: Square) -> (r: Move)
        requires
            from.0 < 64,
            to.0 < 64,
        ensures
            r == Move(from.0, to.0),
    {
        Move(from.0, to.0)
    }

    /// A pawn's two-square advance from `from` to `to`.
    pub fn new_push_double_pawn(from: Square, to: Square) -> (r: Move)
        requires
            from.0 < 64,
            to.0 < 64,
        ensures
            r == Move(from.0, to.0 | 0x40),
    {
        Move(from.0, to.0 | 0x40)
    }

    /// A pawn's advance from `from` to `to` promoting to `promote_to`.
    pub fn new_push_promotion(from: Square, to: Square, promote_to: PieceKind) -> (r: Move)
        requires
            from.0 < 64,
            to.0 < 64,
            1 <= promote_to.0 <= 4,
        ensures
            r == Move(from.0 | 0x80, to.0 | (((promote_to.0 - 1) as u8) << 6)),
    {
        Move(from.0 | 0x80, to.0 | ((promote_to.0 - 1) << 6))
    }

    /// The text of this move.
    pub fn to_text(self) -> (r: String)
        ensures
            r@ == move_text(
                self.castle_spec(),
                Square(self.0 & 63).name_spec(),
                Square(self.1 & 63).name_spec(),
                self.is_capture_spec(),
                match self.promote_spec() {
                    Some(k) => Some(crate::piece::piece_letter(2 * k.0)),
                    None => None,
                },
                self.is_en_passant_spec(),
            ),
    {
        if let Some(castle) = self.castle() {
            let r = castle.notation();
            proof {
                reveal_strlit("O-O-O");
                reveal_strlit("O-O");
            }
            return r;
        }
        let mut s = self.from().name();
        if self.is_capture() {
            push_char(&mut s, 'x');
        }
        let to = self.to().name();
        s.append(to.as_str());
        if let Some(kind) = self.promote_to() {
            push_char(&mut s, '=');
            push_char(&mut s, kind.to_char());
        }
        if self.is_en_passant_capture() {
            s.append("e.p.");
        }
        proof {
            reveal_strlit("e.p.");
        }
        assert(s@ =~= move_text(
                self.castle_spec(),
                Square(self.0 & 63).name_spec(),
                Square(self.1 & 63).name_spec(),
                self.is_capture_spec(),
                match self.promote_spec() {
                    Some(k) => Some(crate::piece::piece_letter(2 * k.0)),
                    None => None,
                },
                self.is_en_passant_spec(),
            ));
        s
    }
}

/// Decoding a move gives back what it was built from: its squares, and
/// whether it is a capture, an en-passant capture, a double pawn push, a
/// castle or a promotion, and to which kind.
pub proof fn law_move_round_trip(from: u8, to: u8, kind: u8, castle: u8)
    requires
        from < 64,
        to < 64,
        1 <= kind <= 4,
        castle <= 1,
    ensures
        ({
            let m = Move(from, to);
            &&& m.0 & 63 == from && m.1 & 63 == to
            &&& m.castle_spec() is None && m.promote_spec() is None && !m.is_capture_spec()
            &&& !m.is_double_push_spec() && !m.is_en_passant_spec()
        }),
        ({
            let m = Move(from | 0x40, to);
            &&& m.0 & 63 == from && m.1 & 63 == to
            &&& m.castle_spec() is None && m.promote_spec() is None && m.is_capture_spec()
            &&& !m.is_double_push_spec() && !m.is_en_passant_spec()
        }),
        ({
            let m = Move(from | 0x40, to | 0x40);
            &&& m.0 & 63 == from && m.1 & 63 == to
            &&& m.castle_spec() is None && m.promote_spec() is None && m.is_capture_spec()
            &&& !m.is_double_push_spec() && m.is_en_passant_spec()
        }),
        ({
            let m = Move(from, to | 0x40);
            &&& m.0 & 63 == from && m.1 & 63 == to
            &&& m.castle_spec() is None && m.promote_spec() is None && !m.is_capture_spec()
            &&& m.is_double_push_spec() && !m.is_en_passant_spec()
        }),
        ({
            let m = Move(from, to | 0x80 | (castle << 6));
            &&& m.0 & 63 == from && m.1 & 63 == to
            &&& m.castle_spec() == Some(Castle(castle)) && m.promote_spec() is None
            &&& !m.is_capture_spec() && !m.is_double_push_spec() && !m.is_en_passant_spec()
        }),
        ({
            let m = Move(from | 0x80, to | (((kind - 1) as u8) << 6));
            &&& m.0 & 63 == from && m.1 & 63 == to
            &&& m.castle_spec() is None && m.promote_spec() == Some(PieceKind(kind))
            &&& !m.is_capture_spec() && !m.is_double_push_spec() && !m.is_en_passant_spec()
        }),
        ({
            let m = Move(from | 0xC0, to | (((kind - 1) as u8) << 6));
            &&& m.0 & 63 == from && m.1 & 63 == to
            &&& m.castle_spec() is None && m.promote_spec() == Some(PieceKind(kind))
            &&& m.is_capture_spec() && !m.is_double_push_spec()
        }),
{
    let k: u8 = (kind - 1) as u8;
    assert(k <= 3);
    assert(from < 64 && to < 64 ==> (from & 63 == from && to & 63 == to && from & 0xC0 == 0 && to & 0xC0 == 0
        && (from | 0x40) & 63 == from && (from | 0x40) & 0xC0 == 0x40 && (to | 0x40) & 63 == to
        && (to | 0x40) & 0xC0 == 0x40 && (from | 0x80) & 63 == from && (from | 0x80) & 0xC0 == 0x80
        && (from | 0xC0) & 63 == from && (from | 0xC0) & 0xC0 == 0xC0)) by (bit_vector);
    assert(to < 64 && castle <= 1 ==> ((to | 0x80 | (castle << 6)) & 63 == to
        && (to | 0x80 | (castle << 6)) & 0x80 == 0x80
        && ((to | 0x80 | (castle << 6)) & 0x40) >> 6 == castle
        && (to | 0x80 | (castle << 6)) & 0xC0 != 0x40)) by (bit_vector);
    assert(to < 64 && k <= 3 ==> ((to | (k << 6)) & 63 == to
        && ((to | (k << 6)) & 0xC0) >> 6 == k)) by (bit_vector);
    assert((from < 64 ==> ((from | 0x40) & 0x80 == 0 && (from | 0x40) & 0x40 == 0x40
        && from & 0x80 == 0 && from & 0x40 == 0 && (from | 0x80) & 0x40 == 0
        && (from | 0xC0) & 0x40 == 0x40 && (from | 0x80) & 0x80 == 0x80 && (from | 0xC0) & 0x80 == 0x80)
        && (to < 64 ==> (to & 0x80 == 0 && to & 0x40 == 0 && (to | 0x40) & 0x80 == 0
        && (to | 0x40) & 0x40 == 0x40)))) by (bit_vector);
    assert((kind - 1) as u8 == k);
}

} // verus!
