//! Pieces: a kind (king, queen, rook, bishop, knight, pawn) and a side.
use vstd::prelude::*;
use crate::side::Side;
use crate::text::message_char;

verus! {

pub const KING: u8 = 0;
pub const QUEEN: u8 = 1;
pub const ROOK: u8 = 2;
pub const BISHOP: u8 = 3;
pub const KNIGHT: u8 = 4;
pub const PAWN: u8 = 5;

/// The code of the empty square in a grid of pieces.
pub const NULL_PIECE: u8 = 12;

/// A kind of piece, `0..6`: king, queen, rook, bishop, knight, pawn.
#[derive(Clone, Copy, Debug, PartialEq, Eq, Structural)]
pub struct PieceKind(pub u8);

/// A piece, `2 * kind + side` for the twelve pieces, `12` for no piece.
#[derive(Clone, Copy, Debug, PartialEq, Eq, Structural)]
pub struct Piece(pub u8);

/// The FEN letters of the pieces by code, a space for no piece.
pub open spec fn piece_letter(code: int) -> char {
    if code == 0 { 'K' } else if code == 1 { 'k' } else if code == 2 { 'Q' } else if code == 3 { 'q' }
    else if code == 4 { 'R' } else if code == 5 { 'r' } else if code == 6 { 'B' } else if code == 7 { 'b' }
    else if code == 8 { 'N' } else if code == 9 { 'n' } else if code == 10 { 'P' } else if code == 11 { 'p' }
    else { ' ' }
}

/// The chess symbols of the pieces by code.
pub open spec fn piece_symbol(code: int) -> char {
    if code == 0 { '♔' } else if code == 1 { '♚' } else if code == 2 { '♕' } else if code == 3 { '♛' }
    else if code == 4 { '♖' } else if code == 5 { '♜' } else if code == 6 { '♗' } else if code == 7 { '♝' }
    else if code == 8 { '♘' } else if code == 9 { '♞' } else if code == 10 { '♙' } else { '♟' }
}

/// The code of the piece whose FEN letter is `c`, if any.
pub open spec fn piece_of_letter(c: char) -> Option<u8> {
    if c == 'K' { Some(0u8) } else if c == 'k' { Some(1u8) } else if c == 'Q' { Some(2u8) }
    else if c == 'q' { Some(3u8) } else if c == 'R' { Some(4u8) } else if c == 'r' { Some(5u8) }
    else if c == 'B' { Some(6u8) } else if c == 'b' { Some(7u8) } else if c == 'N' { Some(8u8) }
    else if c == 'n' { Some(9u8) } else if c == 'P' { Some(10u8) } else if c == 'p' { Some(11u8) }
    else { None }
}

/// The kind named by the letter `c`, in either case.
pub open spec fn kind_of_letter(c: char) -> Option<u8> {
    match piece_of_letter(c) {
        Some(code) => Some(code / 2),
        None => None,
    }
}

impl PieceKind {
    /// The piece of this kind for `side`.
    pub fn to_piece(self, side: Side) -> (r: Piece)
        requires
            self.0 < 6,
            side.valid(),
        ensures
            r.0 == 2 * self.0 + side.0,
    {
        proof {
            let k = self.0;
            let s = side.0;
            assert(k < 6 && s <= 1 ==> (k << 1) | s == 2 * k + s) by (bit_vector);
        }
        Piece((self.0 << 1) | side.0)
    }

    /// Reads a kind from its letter, in either case.
    pub fn try_from_char(c: char) -> (r: Result<Self, String>)
        ensures
            match kind_of_letter(c) {
                Some(k) => r == Ok::<PieceKind, String>(PieceKind(k)),
                None => r matches Err(e) && e@ == "Invalid piece kind: "@.push(c),
            },
    {
        match c {
            'K' | 'k' => Ok(PieceKind(KING)),
            'Q' | 'q' => Ok(PieceKind(QUEEN)),
            'R' | 'r' => Ok(PieceKind(ROOK)),
            'B' | 'b' => Ok(PieceKind(BISHOP)),
            'N' | 'n' => Ok(PieceKind(KNIGHT)),
            'P' | 'p' => Ok(PieceKind(PAWN)),
            _ => Err(message_char("Invalid piece kind: ", c)),
        }
    }

    /// The upper-case letter of this kind.
    pub fn to_char(self) -> (r: char)
        requires
            self.0 < 6,
        ensures
            r == piece_letter(2 * self.0),
    {
        Piece(self.0 * 2).to_char()
    }
}

impl Piece {
    /// Queens, rooks and bishops slide.
    pub fn is_slider(&self) -> (r: bool)
        ensures
            r == (2 <= self.0 <= 7),
    {
        self.0 <= 7 && self.0 >= 2
    }

    /// Whether this is a piece rather than the empty square.
    pub fn is_some(&self) -> (r: bool)
        ensures
            r == (self.0 != NULL_PIECE),
    {
        self.0 != NULL_PIECE
    }

    /// The kind of this piece.
    pub fn kind(&self) -> (r: PieceKind)
        ensures
            r.0 == self.0 / 2,
    {
        proof {
            let p = self.0;
            assert(p >> 1 == p / 2) by (bit_vector);
        }
        PieceKind(self.0 >> 1)
    }

    /// The side of this piece.
    pub fn side(&self) -> (r: Side)
        ensures
            r.0 == self.0 % 2,
            r.valid(),
    {
        proof {
            let p = self.0;
            assert(p & 1 == p % 2) by (bit_vector);
        }
        Side(self.0 & 1)
    }

    /// The FEN letter of this piece, a space for no piece.
    pub fn to_char(&self) -> (r: char)
        requires
            self.0 < 13,
        ensures
            r == piece_letter(self.0 as int),
    {
        match self.0 {
            0 => 'K',
            1 => 'k',
            2 => 'Q',
            3 => 'q',
            4 => 'R',
            5 => 'r',
            6 => 'B',
            7 => 'b',
            8 => 'N',
            9 => 'n',
            10 => 'P',
            11 => 'p',
            _ => ' ',
        }
    }

    /// The chess symbol of this piece, none for no piece.
    pub fn to_symbol(&self) -> (r: Option<char>)
        ensures
            self.0 >= 12 ==> r is None,
            self.0 < 12 ==> r == Some(piece_symbol(self.0 as int)),
    {
        match self.0 {
            0 => Some('♔'),
            1 => Some('♚'),
            2 => Some('♕'),
            3 => Some('♛'),
            4 => Some('♖'),
            5 => Some('♜'),
            6 => Some('♗'),
            7 => Some('♝'),
            8 => Some('♘'),
            9 => Some('♞'),
            10 => Some('♙'),
            11 => Some('♟'),
            _ => None,
        }
    }

    /// Reads a piece from its FEN letter.
    pub fn try_from_char(c: char) -> (r: Result<Piece, String>)
        ensures
            match piece_of_letter(c) {
                Some(p) => r == Ok::<Piece, String>(Piece(p)),
                None => r matches Err(e) && e@ == "Invalid piece: "@.push(c),
            },
    {
        match c {
            'K' => Ok(Piece(0)),
            'k' => Ok(Piece(1)),
            'Q' => Ok(Piece(2)),
            'q' => Ok(Piece(3)),
            'R' => Ok(Piece(4)),
            'r' => Ok(Piece(5)),
            'B' => Ok(Piece(6)),
            'b' => Ok(Piece(7)),
            'N' => Ok(Piece(8)),
            'n' => Ok(Piece(9)),
            'P' => Ok(Piece(10)),
            'p' => Ok(Piece(11)),
            _ => Err(message_char("Invalid piece: ", c)),
        }
    }
}

/// Reading the FEN letter of a piece gives the piece back.
pub proof fn law_piece_letter_round_trip(p: Piece)
    requires
        p.0 < 12,
    ensures
        piece_of_letter(piece_letter(p.0 as int)) == Some(p.0),
{
}

} // verus!
