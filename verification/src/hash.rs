//! Zobrist keys: random words whose exclusive-or identifies a position.
use vstd::prelude::*;
use crate::bits::{rotl, rotate_left};
use crate::castle::Castle;
use crate::piece::Piece;
use crate::position::State;
use crate::side::Side;
use crate::square::Square;

verus! {

/// The default keys, drawn with seed 1.
pub const PIECE_KEYS: [u64; 12] = [
    16257666806172921645,
    12079090740189436754,
    11577349684372483860,
    8265070477432972399,
    17204147743807346879,
    10840387247671765879,
    11023604230088064055,
    15372782004648025408,
    17607845492419163657,
    4820222721347483354,
    9222096121752829227,
    10997107696558716930,
];

pub const CASTLING_RIGHTS_KEYS: [u64; 16] = [
    5901611952838449075,
    16928860654864062033,
    3006969943347880664,
    16761043879460025667,
    15332107909825879061,
    1522114280938701486,
    1327047711097840467,
    7301561155728042398,
    4479697827097181280,
    2468172810615015476,
    11492078287679521532,
    11685917599786030246,
    10403772991926020454,
    17478376828681188621,
    15580394547059712216,
    4575347809368850956,
];

pub const EN_PASSANT_FILE_KEYS: [u64; 8] = [
    3348961424409688254,
    2427135436213657123,
    2898060206792371384,
    14683683615540271254,
    952321900370658987,
    5796203641919266782,
    9554333785051357809,
    12082317543310182802,
];

pub const KING_SIDE_CASTLE_KEYS: [u64; 2] = [10993434298710260570, 16775444492128222288];

pub const QUEEN_SIDE_CASTLE_KEYS: [u64; 2] = [13399088802984349794, 13139464958289927509];

pub const SIDE_TO_MOVE_KEY: u64 = 5703255076737973876;

/// A set of Zobrist keys: one per piece (rotated by the square it stands on),
/// per set of castling rights, per en-passant file and per castle of each side,
/// and one for the side to move.
pub struct Zobrist {
    pub pieces: [u64; 12],
    pub castling_rights: [u64; 16],
    pub en_passant_file: [u64; 8],
    pub castles: [[u64; 2]; 2],
    pub side_to_move: u64,
}

/// The default keys.
pub open spec fn default_zobrist() -> Zobrist {
    Zobrist {
        pieces: PIECE_KEYS,
        castling_rights: CASTLING_RIGHTS_KEYS,
        en_passant_file: EN_PASSANT_FILE_KEYS,
        castles: [KING_SIDE_CASTLE_KEYS, QUEEN_SIDE_CASTLE_KEYS],
        side_to_move: SIDE_TO_MOVE_KEY,
    }
}

impl Zobrist {
    /// The key of `piece` (a real piece) standing on `square`.
    pub open spec fn piece_square_spec(&self, piece: u8, square: u8) -> u64 {
        rotl(self.pieces[piece as int], square as u64)
    }

    /// The key of an en-passant target: that of its file, none without one.
    pub open spec fn ep_spec(&self, ep: Option<Square>) -> u64 {
        match ep {
            Some(sq) => self.en_passant_file[(sq.0 % 8) as int],
            None => 0,
        }
    }

    /// The exclusive-or of the keys of the pieces on the first `n` squares of `grid`.
    pub open spec fn grid_spec(&self, grid: Seq<Piece>, n: nat) -> u64
        decreases n,
    {
        if n == 0 {
            0
        } else {
            let p = grid[n - 1];
            self.grid_spec(grid, (n - 1) as nat) ^ (if p.0 != 12 {
                self.piece_square_spec(p.0, (n - 1) as u8)
            } else {
                0
            })
        }
    }

    /// The hash of a whole position: its pieces, castling rights and
    /// en-passant file.
    pub open spec fn position_spec(&self, grid: Seq<Piece>, castling: u8, ep: Option<Square>) -> u64 {
        self.grid_spec(grid, 64) ^ self.castling_rights[castling as int] ^ self.ep_spec(ep)
    }

    /// The difference between the hashes of two states one move apart.
    pub open spec fn state_spec(&self, c1: u8, ep1: Option<Square>, c2: u8, ep2: Option<Square>) -> u64 {
        self.castling_rights[c1 as int] ^ self.castling_rights[c2 as int] ^ self.ep_spec(ep1)
            ^ self.ep_spec(ep2) ^ self.side_to_move
    }

    /// The default keys.
    pub fn default_keys() -> (r: Zobrist)
        ensures
            r == default_zobrist(),
    {
        Zobrist {
            pieces: PIECE_KEYS,
            castling_rights: CASTLING_RIGHTS_KEYS,
            en_passant_file: EN_PASSANT_FILE_KEYS,
            castles: [KING_SIDE_CASTLE_KEYS, QUEEN_SIDE_CASTLE_KEYS],
            side_to_move: SIDE_TO_MOVE_KEY,
        }
    }

    /// Generates the hash of the entire position.
    pub fn position(&self, grid: &[Piece; 64], state: &State) -> (r: u64)
        requires
            forall|i: int| 0 <= i < 64 ==> grid[i].0 <= 12,
            state.castling_rights.0 < 16,
        ensures
            r == self.position_spec(grid@, state.castling_rights.0, state.en_passant_target),
    {
        let mut hash: u64 = 0;
        let mut i: usize = 0;
        while i < 64
            invariant
                i <= 64,
                forall|j: int| 0 <= j < 64 ==> grid[j].0 <= 12,
                hash == self.grid_spec(grid@, i as nat),
            decreases 64 - i,
        {
            let pc = grid[i];
            if pc.is_some() {
                hash = hash ^ self.piece_square(pc, Square(i as u8));
            } else {
                proof {
                    let h = hash;
                    assert(h ^ 0 == h) by (bit_vector);
                }
            }
            i = i + 1;
        }
        hash = hash ^ self.castling_rights[state.castling_rights.0 as usize];
        hash = hash ^ self.ep_hash(state.en_passant_target);
        hash
    }

    /// Generates the difference between two states.
    pub fn state(&self, before: &State, after: &State) -> (r: u64)
        requires
            before.castling_rights.0 < 16,
            after.castling_rights.0 < 16,
        ensures
            r == self.state_spec(
                before.castling_rights.0,
                before.en_passant_target,
                after.castling_rights.0,
                after.en_passant_target,
            ),
    {
        self.castling_rights[before.castling_rights.0 as usize]
            ^ self.castling_rights[after.castling_rights.0 as usize]
            ^ self.ep_hash(before.en_passant_target) ^ self.ep_hash(after.en_passant_target)
            ^ self.side_to_move
    }

    /// The key of `castle` made by `side_to_move`.
    pub fn castle(&self, castle: Castle, side_to_move: Side) -> (r: u64)
        requires
            castle.0 <= 1,
            side_to_move.valid(),
        ensures
            r == self.castles[castle.0 as int][side_to_move.0 as int],
    {
        self.castles[castle.0 as usize][side_to_move.0 as usize]
    }

    /// The key of the piece `captured` taken on `capture_square`.
    pub fn capture(&self, captured: Piece, capture_square: Square) -> (r: u64)
        requires
            captured.0 < 12,
            capture_square.0 < 64,
        ensures
            r == self.piece_square_spec(captured.0, capture_square.0),
    {
        self.piece_square(captured, capture_square)
    }

    /// The key of `pc_from` leaving `from` and `pc_to` arriving on `to`.
    pub fn push(&self, pc_from: Piece, from: Square, pc_to: Piece, to: Square) -> (r: u64)
        requires
            pc_from.0 < 12,
            pc_to.0 < 12,
            from.0 < 64,
            to.0 < 64,
        ensures
            r == self.piece_square_spec(pc_from.0, from.0) ^ self.piece_square_spec(pc_to.0, to.0),
    {
        self.piece_square(pc_from, from) ^ self.piece_square(pc_to, to)
    }

    fn piece_square(&self, piece: Piece, square: Square) -> (r: u64)
        requires
            piece.0 < 12,
            square.0 < 64,
        ensures
            r == self.piece_square_spec(piece.0, square.0),
    {
        rotate_left(self.pieces[piece.0 as usize], square.0 as u32)
    }

    fn ep_hash(&self, ep_square: Option<Square>) -> (r: u64)
        ensures
            r == self.ep_spec(ep_square),
    {
        match ep_square {
            Some(square) => self.en_passant_file[square.file_index() as usize],
            None => 0,
        }
    }
}

} // verus!
