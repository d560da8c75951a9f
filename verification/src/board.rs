//! Bitboards: a set of squares held as the 64 bits of a word, bit `i` standing
//! for square `i` (`a1` = 0, `b1` = 1, ..., `h8` = 63).
use vstd::prelude::*;
use crate::bits::{bit, popcount, rotl, count_ones, rotate_left};
use crate::side::Side;
use crate::square::Square;

verus! {

pub const FILE_A: u64 = 0x0101_0101_0101_0101;
pub const FILE_B: u64 = 0x0202_0202_0202_0202;
pub const FILE_G: u64 = 0x4040_4040_4040_4040;
pub const FILE_H: u64 = 0x8080_8080_8080_8080;
pub const NOT_FILE_A: u64 = 0xFEFE_FEFE_FEFE_FEFE;
pub const NOT_FILE_H: u64 = 0x7F7F_7F7F_7F7F_7F7F;
pub const NOT_FILE_AB: u64 = 0xFCFC_FCFC_FCFC_FCFC;
pub const NOT_FILE_GH: u64 = 0x3F3F_3F3F_3F3F_3F3F;
pub const RANK_1: u64 = 0x0000_0000_0000_00FF;
pub const RANK_4: u64 = 0x0000_0000_FF00_0000;
pub const RANK_5: u64 = 0x0000_00FF_0000_0000;
pub const RANK_8: u64 = 0xFF00_0000_0000_0000;
pub const END_RANKS: u64 = 0xFF00_0000_0000_00FF;
pub const ALL_SQUARES: u64 = 0xFFFF_FFFF_FFFF_FFFF;

/// A set of squares.
#[derive(Clone, Copy, Debug, PartialEq, Eq, Structural)]
pub struct Board(pub u64);

/// One step of a slide: the word shifted by `s` positions to the left (`left`)
/// or to the right.
pub open spec fn step(x: u64, left: bool, s: u64) -> u64 {
    if left { x << s } else { x >> s }
}

/// The squares of `gen` together with every square reached from them by up to
/// seven further steps, each step landing on a square of `prop`.
pub open spec fn slide(gen: u64, prop: u64, left: bool, s: u64) -> u64 {
    let f1 = step(gen, left, s) & prop;
    let f2 = step(f1, left, s) & prop;
    let f3 = step(f2, left, s) & prop;
    let f4 = step(f3, left, s) & prop;
    let f5 = step(f4, left, s) & prop;
    let f6 = step(f5, left, s) & prop;
    let f7 = step(f6, left, s) & prop;
    gen | f1 | f2 | f3 | f4 | f5 | f6 | f7
}

/// The squares attacked along one direction by the sliders of `gen`: one step
/// beyond every square of the slide through `empty`; `mask` removes the
/// squares that a step would reach by wrapping around the board's edge.
pub open spec fn ray_attacks(gen: u64, empty: u64, left: bool, s: u64, mask: u64) -> u64 {
    step(slide(gen, empty & mask, left, s), left, s) & mask
}

/// The three doubling steps by which the slide is computed.
pub open spec fn doubling_fill(gen: u64, prop: u64, left: bool, s: u64) -> u64 {
    let g1 = gen | (prop & step(gen, left, s));
    let p1 = prop & step(prop, left, s);
    let g2 = g1 | (p1 & step(g1, left, (2 * s) as u64));
    let p2 = p1 & step(p1, left, (2 * s) as u64);
    g2 | (p2 & step(g2, left, (4 * s) as u64))
}

pub open spec fn north_spec(gen: u64, empty: u64) -> u64 { ray_attacks(gen, empty, true, 8, ALL_SQUARES) }
pub open spec fn south_spec(gen: u64, empty: u64) -> u64 { ray_attacks(gen, empty, false, 8, ALL_SQUARES) }
pub open spec fn east_spec(gen: u64, empty: u64) -> u64 { ray_attacks(gen, empty, true, 1, NOT_FILE_A) }
pub open spec fn west_spec(gen: u64, empty: u64) -> u64 { ray_attacks(gen, empty, false, 1, NOT_FILE_H) }
pub open spec fn north_east_spec(gen: u64, empty: u64) -> u64 { ray_attacks(gen, empty, true, 9, NOT_FILE_A) }
pub open spec fn north_west_spec(gen: u64, empty: u64) -> u64 { ray_attacks(gen, empty, true, 7, NOT_FILE_H) }
pub open spec fn south_east_spec(gen: u64, empty: u64) -> u64 { ray_attacks(gen, empty, false, 7, NOT_FILE_A) }
pub open spec fn south_west_spec(gen: u64, empty: u64) -> u64 { ray_attacks(gen, empty, false, 9, NOT_FILE_H) }

/// The squares attacked along ranks and files by rook-like sliders on `gen`,
/// the squares of `occupied` stopping them.
pub open spec fn straight_spec(gen: u64, occupied: u64) -> u64 {
    let empty = !occupied;
    east_spec(gen, empty) | north_spec(gen, empty) | south_spec(gen, empty) | west_spec(gen, empty)
}

/// The squares attacked along diagonals by bishop-like sliders on `gen`.
pub open spec fn diagonal_spec(gen: u64, occupied: u64) -> u64 {
    let empty = !occupied;
    north_east_spec(gen, empty) | north_west_spec(gen, empty) | south_east_spec(gen, empty)
        | south_west_spec(gen, empty)
}

/// The squares a king on any square of `b` attacks.
pub open spec fn king_spec(b: u64) -> u64 {
    let side = ((b << 1) & NOT_FILE_A) | ((b >> 1) & NOT_FILE_H);
    side | (side << 8) | (side >> 8) | (b << 8) | (b >> 8)
}

/// The squares a knight on any square of `b` attacks.
pub open spec fn knight_spec(b: u64) -> u64 {
    let one = ((b << 1) & NOT_FILE_A) | ((b >> 1) & NOT_FILE_H);
    let two = ((b << 2) & NOT_FILE_AB) | ((b >> 2) & NOT_FILE_GH);
    (one << 16) | (one >> 16) | (two << 8) | (two >> 8)
}

/// The squares pawns of `side` on the squares of `b` attack.
pub open spec fn pawn_spec(b: u64, side: Side) -> u64 {
    let a = ((b << 1) & NOT_FILE_A) | ((b >> 1) & NOT_FILE_H);
    if side.0 == 0 { a << 8 } else { a >> 8 }
}

proof fn lemma_doubling_fill(gen: u64, prop: u64)
    by (bit_vector)
    ensures
        doubling_fill(gen, prop, true, 8) == slide(gen, prop, true, 8),
        doubling_fill(gen, prop, false, 8) == slide(gen, prop, false, 8),
        doubling_fill(gen, prop, true, 1) == slide(gen, prop, true, 1),
        doubling_fill(gen, prop, false, 1) == slide(gen, prop, false, 1),
        doubling_fill(gen, prop, true, 9) == slide(gen, prop, true, 9),
        doubling_fill(gen, prop, false, 9) == slide(gen, prop, false, 9),
        doubling_fill(gen, prop, true, 7) == slide(gen, prop, true, 7),
        doubling_fill(gen, prop, false, 7) == slide(gen, prop, false, 7),
{
}

impl Board {
    /// Square `i` belongs to this set.
    pub open spec fn contains(self, i: int) -> bool {
        bit(self.0, i)
    }

    /// The number of squares in this set.
    pub open spec fn count(self) -> nat {
        popcount(self.0)
    }

    pub fn empty_board() -> (r: Board)
        ensures
            r.0 == 0,
    {
        Board(0)
    }

    pub fn all_squares() -> (r: Board)
        ensures
            r.0 == ALL_SQUARES,
    {
        Board(ALL_SQUARES)
    }

    /// Toggles every square of `board` in this set.
    pub fn flip_board(&mut self, board: &Self)
        ensures
            final(self).0 == old(self).0 ^ board.0,
    {
        self.0 = self.0 ^ board.0;
    }

    /// Toggles one square in this set.
    pub fn flip_square(&mut self, square: &Square)
        requires
            square.0 < 64,
        ensures
            final(self).0 == old(self).0 ^ (1u64 << square.0),
    {
        self.0 = self.0 ^ (1u64 << square.0);
    }

    /// Whether `square` belongs to this set.
    pub fn has(&self, square: &Square) -> (r: bool)
        requires
            square.0 < 64,
        ensures
            r == self.contains(square.0 as int),
    {
        let r = (self.0 >> square.0) & 1 == 1;
        proof {
            let x = self.0;
            let s = square.0 as u64;
            assert((x & (1u64 << s) != 0) == ((x >> s) & 1 == 1)) by (bit_vector) requires s < 64;
        }
        self.0 & (1u64 << square.0) != 0
    }

    /// Whether this set holds any square.
    pub fn any(&self) -> (r: bool)
        ensures
            r == (self.0 != 0),
    {
        self.0 != 0
    }

    /// An iterator over the squares of this set, from `a1` upwards.
    pub fn iter(&self) -> (r: BoardIterator)
        ensures
            r.0 == self.0,
    {
        BoardIterator(self.0)
    }

    /// The set holding only `square`.
    pub fn new(square: Square) -> (r: Board)
        requires
            square.0 < 64,
        ensures
            r.0 == 1u64 << square.0,
    {
        Board(1u64 << square.0)
    }

    /// The number of squares in this set.
    pub fn occupied(&self) -> (r: u8)
        ensures
            r as nat == self.count(),
    {
        count_ones(self.0)
    }

    /// The set shifted cyclically by `n` squares towards `h8`.
    pub fn rotate_left(&self, n: u32) -> (r: Self)
        ensures
            r.0 == rotl(self.0, (n % 64) as u64),
    {
        Board(rotate_left(self.0, n))
    }

    /// The squares of the least square of this set (64 for the empty set).
    pub fn to_square(&self) -> (r: Square)
        ensures
            r.0 as u32 == self.0.trailing_zeros(),
            self.0 != 0 ==> r.0 < 64 && self.contains(r.0 as int),
            self.0 == 0 ==> r.0 == 64,
    {
        proof {
            vstd::std_specs::bits::axiom_u64_trailing_zeros(self.0);
        }
        let t = self.0.trailing_zeros();
        Square(t as u8)
    }

    /// The word that holds this set.
    pub fn to_u64(&self) -> (r: u64)
        ensures
            r == self.0,
    {
        self.0
    }

    /// The squares a king on any square of this set attacks.
    pub fn king_attacks(&self) -> (r: Self)
        ensures
            r.0 == king_spec(self.0),
    {
        let right = (self.0 << 1) & NOT_FILE_A;
        let left = (self.0 >> 1) & NOT_FILE_H;
        let side = right | left;
        Board(side | (side << 8) | (side >> 8) | (self.0 << 8) | (self.0 >> 8))
    }

    /// The squares pawns of `side_to_move` on the squares of this set attack.
    pub fn pawn_attacks(&self, side_to_move: &Side) -> (r: Self)
        ensures
            r.0 == pawn_spec(self.0, *side_to_move),
    {
        let attacks_right = (self.0 << 1) & NOT_FILE_A;
        let attacks_left = (self.0 >> 1) & NOT_FILE_H;
        let attacks = attacks_right | attacks_left;
        if side_to_move.0 == 0 {
            Board(attacks << 8)
        } else {
            Board(attacks >> 8)
        }
    }

    /// The squares a knight on any square of this set attacks.
    pub fn knight_attacks(self) -> (r: Board)
        ensures
            r.0 == knight_spec(self.0),
    {
        let attacks_right_one = (self.0 << 1) & NOT_FILE_A;
        let attacks_right_two = (self.0 << 2) & NOT_FILE_AB;
        let attacks_left_one = (self.0 >> 1) & NOT_FILE_H;
        let attacks_left_two = (self.0 >> 2) & NOT_FILE_GH;
        let attacks_one = attacks_right_one | attacks_left_one;
        let attacks_two = attacks_right_two | attacks_left_two;
        Board((attacks_one << 16) | (attacks_one >> 16) | (attacks_two << 8) | (attacks_two >> 8))
    }

    /// The squares attacked northwards by sliders on this set through `empty`.
    pub fn north_attacks(self, empty: Board) -> (r: Board)
        ensures
            r.0 == north_spec(self.0, empty.0),
    {
        let mut prop = empty.0;
        let mut gen = self.0;
        gen = gen | (prop & (gen << 8));
        prop = prop & (prop << 8);
        gen = gen | (prop & (gen << 16));
        prop = prop & (prop << 16);
        gen = gen | (prop & (gen << 32));
        proof {
            lemma_doubling_fill(self.0, empty.0 & ALL_SQUARES);
            let e = empty.0;
            assert(e & ALL_SQUARES == e && gen << 8 == (gen << 8) & ALL_SQUARES) by (bit_vector);
        }
        Board(gen << 8)
    }

    /// The squares attacked southwards by sliders on this set through `empty`.
    pub fn south_attacks(self, empty: Board) -> (r: Board)
        ensures
            r.0 == south_spec(self.0, empty.0),
    {
        let mut prop = empty.0;
        let mut gen = self.0;
        gen = gen | (prop & (gen >> 8));
        prop = prop & (prop >> 8);
        gen = gen | (prop & (gen >> 16));
        prop = prop & (prop >> 16);
        gen = gen | (prop & (gen >> 32));
        proof {
            lemma_doubling_fill(self.0, empty.0 & ALL_SQUARES);
            let e = empty.0;
            assert(e & ALL_SQUARES == e && gen >> 8 == (gen >> 8) & ALL_SQUARES) by (bit_vector);
        }
        Board(gen >> 8)
    }

    /// The squares attacked eastwards by sliders on this set through `empty`.
    pub fn east_attacks(self, empty: Board) -> (r: Board)
        ensures
            r.0 == east_spec(self.0, empty.0),
    {
        let mut prop = empty.0 & NOT_FILE_A;
        let mut gen = self.0;
        gen = gen | (prop & (gen << 1));
        prop = prop & (prop << 1);
        gen = gen | (prop & (gen << 2));
        prop = prop & (prop << 2);
        gen = gen | (prop & (gen << 4));
        proof {
            lemma_doubling_fill(self.0, empty.0 & NOT_FILE_A);
        }
        Board((gen << 1) & NOT_FILE_A)
    }

    /// The squares attacked westwards by sliders on this set through `empty`.
    pub fn west_attacks(self, empty: Board) -> (r: Board)
        ensures
            r.0 == west_spec(self.0, empty.0),
    {
        let mut prop = empty.0 & NOT_FILE_H;
        let mut gen = self.0;
        gen = gen | (prop & (gen >> 1));
        prop = prop & (prop >> 1);
        gen = gen | (prop & (gen >> 2));
        prop = prop & (prop >> 2);
        gen = gen | (prop & (gen >> 4));
        proof {
            lemma_doubling_fill(self.0, empty.0 & NOT_FILE_H);
        }
        Board((gen >> 1) & NOT_FILE_H)
    }

    /// The squares attacked towards `h8` by sliders on this set through `empty`.
    pub fn north_east_attacks(self, empty: Board) -> (r: Board)
        ensures
            r.0 == north_east_spec(self.0, empty.0),
    {
        let mut prop = empty.0 & NOT_FILE_A;
        let mut gen = self.0;
        gen = gen | (prop & (gen << 9));
        prop = prop & (prop << 9);
        gen = gen | (prop & (gen << 18));
        prop = prop & (prop << 18);
        gen = gen | (prop & (gen << 36));
        proof {
            lemma_doubling_fill(self.0, empty.0 & NOT_FILE_A);
        }
        Board((gen << 9) & NOT_FILE_A)
    }

    /// The squares attacked towards `a8` by sliders on this set through `empty`.
    pub fn north_west_attacks(self, empty: Board) -> (r: Board)
        ensures
            r.0 == north_west_spec(self.0, empty.0),
    {
        let mut prop = empty.0 & NOT_FILE_H;
        let mut gen = self.0;
        gen = gen | (prop & (gen << 7));
        prop = prop & (prop << 7);
        gen = gen | (prop & (gen << 14));
        prop = prop & (prop << 14);
        gen = gen | (prop & (gen << 28));
        proof {
            lemma_doubling_fill(self.0, empty.0 & NOT_FILE_H);
        }
        Board((gen << 7) & NOT_FILE_H)
    }

    /// The squares attacked towards `h1` by sliders on this set through `empty`.
    pub fn south_east_attacks(self, empty: Board) -> (r: Board)
        ensures
            r.0 == south_east_spec(self.0, empty.0),
    {
        let mut prop = empty.0 & NOT_FILE_A;
        let mut gen = self.0;
        gen = gen | (prop & (gen >> 7));
        prop = prop & (prop >> 7);
        gen = gen | (prop & (gen >> 14));
        prop = prop & (prop >> 14);
        gen = gen | (prop & (gen >> 28));
        proof {
            lemma_doubling_fill(self.0, empty.0 & NOT_FILE_A);
        }
        Board((gen >> 7) & NOT_FILE_A)
    }

    /// The squares attacked towards `a1` by sliders on this set through `empty`.
    pub fn south_west_attacks(self, empty: Board) -> (r: Board)
        ensures
            r.0 == south_west_spec(self.0, empty.0),
    {
        let mut prop = empty.0 & NOT_FILE_H;
        let mut gen = self.0;
        gen = gen | (prop & (gen >> 9));
        prop = prop & (prop >> 9);
        gen = gen | (prop & (gen >> 18));
        prop = prop & (prop >> 18);
        gen = gen | (prop & (gen >> 36));
        proof {
            lemma_doubling_fill(self.0, empty.0 & NOT_FILE_H);
        }
        Board((gen >> 9) & NOT_FILE_H)
    }

    /// The squares attacked along ranks and files by sliders on this set, the
    /// squares of `occupied` blocking them.
    pub fn straight_attacks(self, occupied: Board) -> (r: Board)
        ensures
            r.0 == straight_spec(self.0, occupied.0),
    {
        let empty = Board(!occupied.0);
        Board(self.east_attacks(empty).0 | self.north_attacks(empty).0 | self.south_attacks(empty).0
            | self.west_attacks(empty).0)
    }

    /// The squares attacked along diagonals by sliders on this set, the squares
    /// of `occupied` blocking them.
    pub fn diagonal_attacks(self, occupied: Board) -> (r: Board)
        ensures
            r.0 == diagonal_spec(self.0, occupied.0),
    {
        let empty = Board(!occupied.0);
        Board(self.north_east_attacks(empty).0 | self.north_west_attacks(empty).0
            | self.south_east_attacks(empty).0 | self.south_west_attacks(empty).0)
    }
}

/// The squares of a set, taken from `a1` upwards.
pub struct BoardIterator(pub u64);

impl BoardIterator {
    /// The least remaining square, removed from the iterator, as a one-square
    /// set and as a square.
    pub fn next(&mut self) -> (r: Option<(Board, Square)>)
        ensures
            old(self).0 == 0 ==> r is None && final(self).0 == 0,
            old(self).0 != 0 ==> ({
                let t = old(self).0.trailing_zeros();
                &&& t < 64
                &&& r == Some((Board(1u64 << t), Square(t as u8)))
                &&& bit(old(self).0, t as int)
                &&& final(self).0 == old(self).0 ^ (1u64 << t)
            }),
    {
        if self.0 == 0 {
            return None;
        }
        proof {
            vstd::std_specs::bits::axiom_u64_trailing_zeros(self.0);
        }
        let trailing = self.0.trailing_zeros() as u8;
        let board: u64 = 1u64 << trailing;
        self.0 = self.0 ^ board;
        Some((Board(board), Square(trailing)))
    }
}

impl core::ops::BitAnd for Board {
    type Output = Board;

    fn bitand(self, rhs: Self) -> (r: Board) {
        Board(self.0 & rhs.0)
    }
}

impl vstd::std_specs::ops::BitAndSpecImpl for Board {
    open spec fn obeys_bitand_spec() -> bool { true }

    open spec fn bitand_req(self, rhs: Board) -> bool { true }

    open spec fn bitand_spec(self, rhs: Board) -> Board { Board(self.0 & rhs.0) }
}

impl core::ops::BitOr for Board {
    type Output = Board;

    fn bitor(self, rhs: Self) -> (r: Board) {
        Board(self.0 | rhs.0)
    }
}

impl vstd::std_specs::ops::BitOrSpecImpl for Board {
    open spec fn obeys_bitor_spec() -> bool { true }

    open spec fn bitor_req(self, rhs: Board) -> bool { true }

    open spec fn bitor_spec(self, rhs: Board) -> Board { Board(self.0 | rhs.0) }
}

impl core::ops::BitXor for Board {
    type Output = Board;

    fn bitxor(self, rhs: Self) -> (r: Board) {
        Board(self.0 ^ rhs.0)
    }
}

impl vstd::std_specs::ops::BitXorSpecImpl for Board {
    open spec fn obeys_bitxor_spec() -> bool { true }

    open spec fn bitxor_req(self, rhs: Board) -> bool { true }

    open spec fn bitxor_spec(self, rhs: Board) -> Board { Board(self.0 ^ rhs.0) }
}

impl core::ops::Not for Board {
    type Output = Board;

    fn not(self) -> (r: Board) {
        Board(!self.0)
    }
}

impl vstd::std_specs::ops::NotSpecImpl for Board {
    open spec fn obeys_not_spec() -> bool { true }

    open spec fn not_req(self) -> bool { true }

    open spec fn not_spec(self) -> Board { Board(!self.0) }
}

impl core::ops::Shl<u8> for Board {
    type Output = Board;

    fn shl(self, amount: u8) -> (r: Board) {
        Board(self.0 << amount)
    }
}

impl vstd::std_specs::ops::ShlSpecImpl<u8> for Board {
    open spec fn obeys_shl_spec() -> bool { true }

    open spec fn shl_req(self, amount: u8) -> bool { amount < 64 }

    open spec fn shl_spec(self, amount: u8) -> Board { Board(self.0 << amount) }
}

impl core::ops::Shr<u8> for Board {
    type Output = Board;

    fn shr(self, amount: u8) -> (r: Board) {
        Board(self.0 >> amount)
    }
}

impl vstd::std_specs::ops::ShrSpecImpl<u8> for Board {
    open spec fn obeys_shr_spec() -> bool { true }

    open spec fn shr_req(self, amount: u8) -> bool { amount < 64 }

    open spec fn shr_spec(self, amount: u8) -> Board { Board(self.0 >> amount) }
}

/// Flipping the same squares twice gives the board back, and flipping a
/// board's own squares empties it (see `Board::flip_board`).
pub proof fn law_flip_twice(a: Board, b: Board)
    ensures
        (a.0 ^ b.0) ^ b.0 == a.0,
        a.0 ^ a.0 == 0,
{
    let x = a.0;
    let y = b.0;
    assert((x ^ y) ^ y == x && x ^ x == 0) by (bit_vector);
}

} // verus!
