//! Squares of the board, `a1` = 0 to `h8` = 63, rank by rank, and the
//! square-indexed attack sets of the pieces.
use vstd::prelude::*;
use crate::board::{
    Board, king_spec, knight_spec, straight_spec, diagonal_spec, FILE_A,
};
use crate::bits::{bit, lemma_bit_single};
use crate::text::{str_chars, message, push_char};

verus! {

/// A square; the squares of the board are `0..64`.
#[derive(Clone, Copy, Debug, PartialEq, Eq, Structural)]
pub struct Square(pub u8);

/// The one-square set of square `sq`.
pub open spec fn single(sq: u8) -> u64 {
    1u64 << sq
}

/// The squares strictly between `a` and `b` when they share a rank, file or
/// diagonal, found as the squares attacked from both ends when each end blocks
/// the other; the empty set otherwise.
pub open spec fn between_spec(a: u8, b: u8) -> u64 {
    if bit(straight_spec(single(a), 0), b as int) {
        straight_spec(single(a), single(b)) & straight_spec(single(b), single(a))
    } else if bit(diagonal_spec(single(a), 0), b as int) {
        diagonal_spec(single(a), single(b)) & diagonal_spec(single(b), single(a))
    } else {
        0
    }
}

/// The whole line through `a` and `b`, both included, when they share a rank,
/// file or diagonal; the empty set otherwise.
pub open spec fn line_spec(a: u8, b: u8) -> u64 {
    if bit(straight_spec(single(a), 0), b as int) {
        (straight_spec(single(a), 0) & straight_spec(single(b), 0)) | single(a) | single(b)
    } else if bit(diagonal_spec(single(a), 0), b as int) {
        (diagonal_spec(single(a), 0) & diagonal_spec(single(b), 0)) | single(a) | single(b)
    } else {
        0
    }
}

/// The name of file `f` (`0` = `a`).
pub open spec fn file_letter(f: int) -> char {
    ((f + 97) as u8) as char
}

/// The name of rank `r` (`0` = `1`).
pub open spec fn rank_digit(r: int) -> char {
    ((r + 49) as u8) as char
}

/// What `Square::try_from_str` gives for the text `s`.
pub open spec fn parse_square(s: Seq<char>) -> Result<Option<Square>, Seq<char>> {
    if s == seq!['-'] {
        Ok(None)
    } else if s.len() < 2 {
        Err("Invalid square: "@ + s)
    } else if !('a' <= s[0] && s[0] <= 'h') {
        Err("Invalid file: "@ + s)
    } else if !('1' <= s[1] && s[1] <= '8') {
        Err("Invalid rank: "@ + s)
    } else {
        Ok(Some(Square(((s[1] as u32 - 49) * 8 + (s[0] as u32 - 97)) as u8)))
    }
}

/// Text on which reading a square cannot go on: a single character that
/// takes more than one byte.
pub open spec fn unreadable_square(s: Seq<char>) -> bool {
    s.len() == 1 && s[0] as u32 >= 0x80
}

impl Square {
    /// The name of this square, such as `e3`.
    pub open spec fn name_spec(self) -> Seq<char> {
        seq![file_letter(self.col()), rank_digit(self.row())]
    }

    /// The file, `0..8`, of this square.
    pub open spec fn col(self) -> int {
        self.0 as int % 8
    }

    /// The rank, `0..8`, of this square.
    pub open spec fn row(self) -> int {
        self.0 as int / 8
    }

    /// The square on the rank of `self` and the file of `other`.
    pub fn along_row_with_col(self, other: Square) -> (r: Square)
        ensures
            r.0 == (self.0 & 56) | (other.0 & 7),
            self.0 < 64 && other.0 < 64 ==> r.0 == self.row() * 8 + other.col(),
    {
        proof {
            let a = self.0;
            let b = other.0;
            assert(a < 64 && b < 64 ==> (a & 56) | (b & 7) == (a / 8) * 8 + b % 8) by (bit_vector);
        }
        Square((self.0 & 56) | (other.0 & 7))
    }

    /// The squares strictly between this square and `other`, when they are on
    /// one line.
    pub fn between(self, other: Square) -> (r: Board)
        requires
            self.0 < 64,
            other.0 < 64,
        ensures
            r.0 == between_spec(self.0, other.0),
    {
        let a = Board::new(self);
        let b = Board::new(other);
        let zero = Board(0);
        if a.straight_attacks(zero).has(&other) {
            Board(a.straight_attacks(b).0 & b.straight_attacks(a).0)
        } else if a.diagonal_attacks(zero).has(&other) {
            Board(a.diagonal_attacks(b).0 & b.diagonal_attacks(a).0)
        } else {
            zero
        }
    }

    /// The squares on the diagonals through this square, itself excluded.
    pub fn diagonal_rays(self) -> (r: Board)
        requires
            self.0 < 64,
        ensures
            r.0 == diagonal_spec(single(self.0), 0),
    {
        Board::new(self).diagonal_attacks(Board(0))
    }

    /// The file of this square.
    pub fn file_index(self) -> (r: u8)
        ensures
            r == self.0 & 7,
            r == self.0 % 8,
    {
        proof {
            let a = self.0;
            assert(a & 7 == a % 8) by (bit_vector);
        }
        self.0 & 7
    }

    /// The squares of the file of this square.
    pub fn file_mask(self) -> (r: Board)
        ensures
            r.0 == FILE_A << (self.0 & 7),
    {
        proof {
            let a = self.0;
            assert(a & 7 < 8) by (bit_vector);
        }
        Board(FILE_A << (self.0 & 7))
    }

    /// The squares of the file of this square.
    pub fn file(self) -> (r: Board)
        ensures
            r.0 == FILE_A << (self.0 & 7),
    {
        self.file_mask()
    }

    /// The square on rank `rank` and file `file`.
    pub fn from(rank: u8, file: u8) -> (r: Square)
        requires
            rank * 8 + file < 256,
        ensures
            r.0 == rank * 8 + file,
    {
        Square(rank * 8 + file)
    }

    /// The squares a king on this square attacks.
    pub fn king_moves(self) -> (r: Board)
        requires
            self.0 < 64,
        ensures
            r.0 == king_spec(single(self.0)),
    {
        Board::new(self).king_attacks()
    }

    /// The squares a knight on this square attacks.
    pub fn knight_moves(self) -> (r: Board)
        requires
            self.0 < 64,
        ensures
            r.0 == knight_spec(single(self.0)),
    {
        Board::new(self).knight_attacks()
    }

    /// The whole line through this square and `other`, when they are on one line.
    pub fn lines_along(self, other: Square) -> (r: Board)
        requires
            self.0 < 64,
            other.0 < 64,
        ensures
            r.0 == line_spec(self.0, other.0),
    {
        let a = Board::new(self);
        let b = Board::new(other);
        let zero = Board(0);
        let sa = a.straight_attacks(zero);
        let da = a.diagonal_attacks(zero);
        if sa.has(&other) {
            Board((sa.0 & b.straight_attacks(zero).0) | a.0 | b.0)
        } else if da.has(&other) {
            Board((da.0 & b.diagonal_attacks(zero).0) | a.0 | b.0)
        } else {
            zero
        }
    }

    /// The rank of this square.
    pub fn rank_index(self) -> (r: u8)
        ensures
            r == self.0 >> 3,
            r == self.0 / 8,
    {
        proof {
            let a = self.0;
            assert(a >> 3 == a / 8) by (bit_vector);
        }
        self.0 >> 3
    }

    /// This square moved back cyclically by `amount` squares.
    pub fn rotate_right(self, amount: u8) -> (r: Square)
        requires
            amount <= 64,
            self.0 + (64 - amount) < 256,
        ensures
            r.0 == (self.0 + (64 - amount)) % 64,
    {
        let v: u8 = self.0 + (64 - amount);
        proof {
            assert(v & 63 == v % 64) by (bit_vector);
        }
        Square(v & 63)
    }

    /// The squares on the rank and the file of this square, itself excluded.
    pub fn straight_rays(self) -> (r: Board)
        requires
            self.0 < 64,
        ensures
            r.0 == straight_spec(single(self.0), 0),
    {
        Board::new(self).straight_attacks(Board(0))
    }

    /// The one-square set of this square.
    pub fn to_board(self) -> (r: Board)
        requires
            self.0 < 64,
        ensures
            r.0 == single(self.0),
    {
        Board::new(self)
    }

    /// The squares a rook on this square attacks, `occupied` blocking it.
    pub fn straight_attacks(self, occupied: Board) -> (r: Board)
        requires
            self.0 < 64,
        ensures
            r.0 == straight_spec(single(self.0), occupied.0),
    {
        Board::new(self).straight_attacks(occupied)
    }

    /// The squares a bishop on this square attacks, `occupied` blocking it.
    pub fn diagonal_attacks(self, occupied: Board) -> (r: Board)
        requires
            self.0 < 64,
        ensures
            r.0 == diagonal_spec(single(self.0), occupied.0),
    {
        Board::new(self).diagonal_attacks(occupied)
    }

    /// Reads a square in algebraic notation, such as `e3`; `-` stands for no square.
    pub fn try_from_str(s: &str) -> (r: Result<Option<Square>, String>)
        requires
            !unreadable_square(s@),
        ensures
            match (r, parse_square(s@)) {
                (Ok(a), Ok(b)) => a == b,
                (Err(e), Err(m)) => e@ == m,
                _ => false,
            },
    {
        let cs = str_chars(s);
        if cs.len() == 1 && cs[0] == '-' {
            assert(s@ =~= seq!['-']);
            return Ok(None);
        }
        assert(s@ != seq!['-'] ==> true);
        if cs.len() < 2 {
            proof {
                if s@ == seq!['-'] {
                    assert(cs@.len() == 1 && cs@[0] == '-');
                }
            }
            return Err(message("Invalid square: ", s));
        }
        let file_char = cs[0];
        let rank_char = cs[1];
        if !('a' <= file_char && file_char <= 'h') {
            return Err(message("Invalid file: ", s));
        }
        if !('1' <= rank_char && rank_char <= '8') {
            return Err(message("Invalid rank: ", s));
        }
        let file: u8 = (file_char as u32 - 97) as u8;
        let rank: u8 = (rank_char as u32 - 49) as u8;
        Ok(Some(Square::from(rank, file)))
    }

    /// The name of this square in algebraic notation, such as `e3`.
    pub fn name(self) -> (r: String)
        requires
            self.0 < 64,
        ensures
            r@ == self.name_spec(),
    {
        let f = self.0 % 8;
        let k = self.0 / 8;
        let mut r = String::new();
        push_char(&mut r, (f + 97) as char);
        push_char(&mut r, (k + 49) as char);
        r
    }
}

/// Reading the name of a square gives the square back.
pub proof fn law_square_name_round_trip(sq: Square)
    requires
        sq.0 < 64,
    ensures
        parse_square(sq.name_spec()) == Ok::<Option<Square>, Seq<char>>(Some(sq)),
{
    let n = sq.name_spec();
    let f = sq.col();
    let r = sq.row();
    assert(n[0] as u32 == f + 97);
    assert(n[1] as u32 == r + 49);
    assert(n != seq!['-']);
}

} // verus!
