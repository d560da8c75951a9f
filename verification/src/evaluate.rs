//! Judging a position: won, drawn (and why), or a material score.
use vstd::prelude::*;
use crate::bits::popcount;
use crate::legal_moves::pbits;
use crate::piece::{Piece, QUEEN, ROOK, BISHOP, KNIGHT, PAWN};
use crate::position::Position;
use crate::side::Side;

verus! {

/// Why a game is drawn.
#[derive(Clone, Copy, Debug, PartialEq, Eq, Structural)]
pub enum DrawReason {
    FiftyMoveRule,
    InsufficientMaterial,
    Stalemate,
    ThreefoldRepetition,
}

/// The outcome of a position: a win, a draw, or a game going on with a
/// material score (positive when white is ahead).
#[derive(Clone, Copy, Debug, PartialEq, Eq, Structural)]
pub enum Evaluation {
    Win(Side),
    Draw(DrawReason),
    Ongoing(i32),
}

/// The squares the bishops of the dark squares cannot stand on.
pub const LIGHT_SQUARES: u64 = 0xAA55_AA55_AA55_AA55;

/// The number of pieces with code `2 * kind + side` in `pos`.
pub open spec fn count_of(pos: Position, kind: u8, side: u8) -> int {
    popcount(pbits(pos, 2 * kind + side)) as int
}

/// The material of `side`: 900 a queen, 500 a rook, 300 a bishop or a
/// knight, 100 a pawn.
pub open spec fn material(pos: Position, side: u8) -> int {
    count_of(pos, QUEEN, side) * 900 + count_of(pos, ROOK, side) * 500 + count_of(pos, BISHOP, side) * 300
        + count_of(pos, KNIGHT, side) * 300 + count_of(pos, PAWN, side) * 100
}

/// `side` has no pieces besides its king and bishops.
pub open spec fn only_bishops(pos: Position, side: u8) -> bool {
    count_of(pos, PAWN, side) == 0 && count_of(pos, KNIGHT, side) == 0 && count_of(pos, ROOK, side) == 0
        && count_of(pos, QUEEN, side) == 0
}

/// `side` has a lone knight besides its king.
pub open spec fn lone_knight(pos: Position, side: u8) -> bool {
    count_of(pos, PAWN, side) == 0 && count_of(pos, KNIGHT, side) == 1 && count_of(pos, BISHOP, side) == 0
        && count_of(pos, ROOK, side) == 0 && count_of(pos, QUEEN, side) == 0
}

/// Neither side can mate: king against king, king and bishop or king and
/// knight against king, or king and bishop against king and bishop with the
/// bishops on squares of one color.
pub open spec fn insufficient_material(pos: Position) -> bool {
    let w = material(pos, 0);
    let b = material(pos, 1);
    ||| w == 0 && b == 0
    ||| w == 0 && only_bishops(pos, 1) && count_of(pos, BISHOP, 1) == 1
    ||| b == 0 && only_bishops(pos, 0) && count_of(pos, BISHOP, 0) == 1
    ||| w == 0 && lone_knight(pos, 1)
    ||| b == 0 && lone_knight(pos, 0)
    ||| only_bishops(pos, 0) && only_bishops(pos, 1) && count_of(pos, BISHOP, 0) == 1 && count_of(pos, BISHOP, 1)
        == 1 && ((pbits(pos, 2 * BISHOP) & LIGHT_SQUARES == 0) == (pbits(pos, 2 * BISHOP + 1) & LIGHT_SQUARES
        == 0))
}

/// How many of the hashes `prev[i]`, `prev[i - 2]`, ... equal `h`.
pub open spec fn repeats(prev: Seq<u64>, h: u64, i: int) -> nat
    decreases i + 2,
{
    if i < 0 {
        0
    } else {
        (if prev[i] == h { 1nat } else { 0nat }) + repeats(prev, h, i - 2)
    }
}

/// The position has been seen twice before with the same side to move: at
/// least four earlier hashes are recorded and two of those an even number of
/// moves back equal the hash.
pub open spec fn repeated(pos: Position) -> bool {
    match pos.state_spec()@.prev_hashes {
        Some(prev) => prev.len() >= 4 && repeats(prev, pos.hash_spec(), prev.len() - 2) >= 2,
        None => false,
    }
}

/// The evaluation of `pos` whose side to move has `count` legal moves and
/// is in check when `in_check` holds. A side without moves that is in check
/// yields `Win` of the side to move.
pub open spec fn evaluation_spec(pos: Position, count: nat, in_check: bool) -> Evaluation {
    if count == 0 {
        if in_check {
            Evaluation::Win(pos.state_spec().side_to_move)
        } else {
            Evaluation::Draw(DrawReason::Stalemate)
        }
    } else if pos.state_spec().halfmove_clock >= 50 {
        Evaluation::Draw(DrawReason::FiftyMoveRule)
    } else if insufficient_material(pos) {
        Evaluation::Draw(DrawReason::InsufficientMaterial)
    } else if repeated(pos) {
        Evaluation::Draw(DrawReason::ThreefoldRepetition)
    } else {
        Evaluation::Ongoing((material(pos, 0) - material(pos, 1)) as i32)
    }
}

/// The score of an evaluation: the largest score for a win of white, its
/// negation for a win of black, 0 for a draw.
pub open spec fn score_spec(e: Evaluation) -> int {
    match e {
        Evaluation::Win(side) => (1 - 2 * side.0) * 0x7fff_ffff,
        Evaluation::Draw(_) => 0,
        Evaluation::Ongoing(score) => score as int,
    }
}

impl DrawReason {
    /// The words for this reason.
    pub fn to_text(&self) -> (r: String)
        ensures
            *self == DrawReason::FiftyMoveRule ==> r@ == "Fifty moves without pawn move or capture"@,
            *self == DrawReason::InsufficientMaterial ==> r@ == "Insufficient material"@,
            *self == DrawReason::Stalemate ==> r@ == "Stalemate"@,
            *self == DrawReason::ThreefoldRepetition ==> r@ == "Repetition of moves"@,
    {
        match self {
            DrawReason::FiftyMoveRule => String::from_str("Fifty moves without pawn move or capture"),
            DrawReason::InsufficientMaterial => String::from_str("Insufficient material"),
            DrawReason::Stalemate => String::from_str("Stalemate"),
            DrawReason::ThreefoldRepetition => String::from_str("Repetition of moves"),
        }
    }
}

impl Evaluation {
    /// Whether the game is over.
    pub fn is_terminal(&self) -> (r: bool)
        ensures
            r == !(*self is Ongoing),
    {
        match self {
            Evaluation::Ongoing(_) => false,
            _ => true,
        }
    }

    /// The score of this evaluation (see `score_spec`).
    pub fn to_score(&self) -> (r: i32)
        requires
            *self matches Evaluation::Win(side) ==> side.valid(),
        ensures
            r == score_spec(*self),
    {
        match self {
            Evaluation::Win(side) => (1 - 2 * side.0 as i32) * i32::MAX,
            Evaluation::Draw(_) => 0,
            Evaluation::Ongoing(score) => *score,
        }
    }
}

/// The count of the pieces `piece` of `pos`.
fn count_pieces(pos: &Position, kind: u8, side: u8) -> (r: u32)
    requires
        kind <= PAWN,
        side <= 1,
    ensures
        r == count_of(*pos, kind, side),
        r <= 255,
{
    pos.piece(Piece(2 * kind + side)).occupied() as u32
}

impl Position {
    /// Judges this position, whose side to move has `legal_move_count` legal
    /// moves and is in check when `is_in_check` holds (see
    /// `evaluation_spec`).
    pub fn evaluate(&self, legal_move_count: usize, is_in_check: bool) -> (r: Evaluation)
        requires
            self.wf(),
        ensures
            r == evaluation_spec(*self, legal_move_count as nat, is_in_check),
    {
        if legal_move_count == 0 {
            if is_in_check {
                return Evaluation::Win(self.state().side_to_move);
            }
            return Evaluation::Draw(DrawReason::Stalemate);
        }
        if self.state().halfmove_clock >= 50 {
            return Evaluation::Draw(DrawReason::FiftyMoveRule);
        }
        let white_queens = count_pieces(self, QUEEN, 0);
        let white_rooks = count_pieces(self, ROOK, 0);
        let white_bishop_board = self.piece(Piece(2 * BISHOP));
        let white_bishops = count_pieces(self, BISHOP, 0);
        let white_knights = count_pieces(self, KNIGHT, 0);
        let white_pawns = count_pieces(self, PAWN, 0);

        let black_queens = count_pieces(self, QUEEN, 1);
        let black_rooks = count_pieces(self, ROOK, 1);
        let black_bishop_board = self.piece(Piece(2 * BISHOP + 1));
        let black_bishops = count_pieces(self, BISHOP, 1);
        let black_knights = count_pieces(self, KNIGHT, 1);
        let black_pawns = count_pieces(self, PAWN, 1);

        let score_white = (white_queens * 900 + white_rooks * 500 + white_bishops * 300 + white_knights * 300
            + white_pawns * 100) as i32;
        let score_black = (black_queens * 900 + black_rooks * 500 + black_bishops * 300 + black_knights * 300
            + black_pawns * 100) as i32;
        assert(score_white == material(*self, 0));
        assert(score_black == material(*self, 1));

        // Insufficient material (king vs. king)
        if score_white == 0 && score_black == 0 {
            return Evaluation::Draw(DrawReason::InsufficientMaterial);
        }
        // Insufficient material (king vs. king & bishop)
        let black_has_only_bishops = black_pawns == 0 && black_knights == 0 && black_rooks == 0
            && black_queens == 0;
        if score_white == 0 && black_has_only_bishops && black_bishops == 1 {
            return Evaluation::Draw(DrawReason::InsufficientMaterial);
        }
        // Insufficient material (king & bishop vs. king)
        let white_has_only_bishops = white_pawns == 0 && white_knights == 0 && white_rooks == 0
            && white_queens == 0;
        if score_black == 0 && white_has_only_bishops && white_bishops == 1 {
            return Evaluation::Draw(DrawReason::InsufficientMaterial);
        }
        // Insufficient material (king vs. king & knight)
        if score_white == 0 && black_pawns == 0 && black_knights == 1 && black_bishops == 0 && black_rooks == 0
            && black_queens == 0 {
            return Evaluation::Draw(DrawReason::InsufficientMaterial);
        }
        // Insufficient material (king & knight vs. king)
        if score_black == 0 && white_pawns == 0 && white_knights == 1 && white_bishops == 0 && white_rooks == 0
            && white_queens == 0 {
            return Evaluation::Draw(DrawReason::InsufficientMaterial);
        }
        // Insufficient material (king & bishop vs. king & bishop on same colors)
        if white_has_only_bishops && black_has_only_bishops && white_bishops == 1 && black_bishops == 1 {
            let is_white_bishop_on_white_square = white_bishop_board.0 & LIGHT_SQUARES == 0;
            let is_black_bishop_on_white_square = black_bishop_board.0 & LIGHT_SQUARES == 0;
            if is_white_bishop_on_white_square == is_black_bishop_on_white_square {
                return Evaluation::Draw(DrawReason::InsufficientMaterial);
            }
        }
        assert(!insufficient_material(*self));

        // Threefold repetition
        let hash = self.hash();
        if let Some(prev_hashes) = &self.state().prev_hashes {
            let num_hashes = prev_hashes.len();
            if num_hashes >= 4 {
                let ghost total = repeats(prev_hashes@, hash, num_hashes - 2);
                assert(self.state_spec()@.prev_hashes == Some(prev_hashes@));
                let mut count: u32 = 0;
                let mut index = num_hashes - 2;
                loop
                    invariant_except_break
                        index < num_hashes,
                        count < 2,
                        count + repeats(prev_hashes@, hash, index as int) == total,
                    invariant
                        num_hashes == prev_hashes@.len(),
                        self.state_spec()@.prev_hashes == Some(prev_hashes@),
                        hash == self.hash_spec(),
                        num_hashes >= 4,
                        legal_move_count != 0,
                        self.state_spec().halfmove_clock < 50,
                        !insufficient_material(*self),
                        total == repeats(prev_hashes@, hash, num_hashes - 2),
                    ensures
                        total < 2,
                    decreases index,
                {
                    assert(repeats(prev_hashes@, hash, index as int) == (if prev_hashes@[index as int] == hash {
                        1nat
                    } else {
                        0nat
                    }) + repeats(prev_hashes@, hash, index - 2));
                    if prev_hashes[index] == hash {
                        count += 1;
                    }
                    if count >= 2 {
                        assert(self.state_spec()@.prev_hashes == Some(prev_hashes@));
                        assert(repeated(*self));
                        return Evaluation::Draw(DrawReason::ThreefoldRepetition);
                    }
                    if index < 2 {
                        assert(repeats(prev_hashes@, hash, index - 2) == 0);
                        break;
                    }
                    index -= 2;
                }
            }
        }
        assert(!repeated(*self));
        Evaluation::Ongoing(score_white - score_black)
    }
}

/// A position with a queen on the board is never drawn for want of
/// material: its side has material, and it has more than bishops or a lone
/// knight.
pub proof fn law_queen_is_sufficient_material(pos: Position, i: int, side: u8)
    requires
        pos.wf(),
        side <= 1,
        0 <= i < 64,
        pos.grid()[i] == Piece((2 * QUEEN + side) as u8),
    ensures
        material(pos, side) >= 900,
        !insufficient_material(pos),
        forall|count: nat, in_check: bool|
            #[trigger] evaluation_spec(pos, count, in_check) != Evaluation::Draw(DrawReason::InsufficientMaterial),
{
    crate::position::lemma_board_bits(&pos);
    let b = pbits(pos, 2 * QUEEN + side);
    assert(crate::bits::bit(b, i));
    crate::bits::lemma_bit_and(0, 0, i);
    crate::legal_moves::lemma_popcount_zero_iff(b);
    assert(count_of(pos, QUEEN, side) >= 1);
}

/// The worth of a piece of kind `kind`: a queen 900, a rook 500, a bishop
/// or a knight 300, a pawn 100, the king nothing.
pub open spec fn piece_worth(kind: int) -> int {
    if kind == QUEEN as int {
        900
    } else if kind == ROOK as int {
        500
    } else if kind == BISHOP as int || kind == KNIGHT as int {
        300
    } else if kind == PAWN as int {
        100
    } else {
        0
    }
}

/// The worth of the pieces of `side` on the first `n` squares of `g`.
pub open spec fn worth_on(g: Seq<Piece>, side: u8, n: nat) -> int
    decreases n,
{
    if n == 0 {
        0
    } else {
        worth_on(g, side, (n - 1) as nat) + if g[n - 1].0 < 12 && g[n - 1].0 % 2 == side {
            piece_worth(g[n - 1].0 as int / 2)
        } else {
            0
        }
    }
}

proof fn lemma_worth_on(pos: Position, side: u8, n: nat)
    requires
        pos.wf(),
        side <= 1,
        n <= 64,
    ensures
        worth_on(pos.grid(), side, n) == crate::bits::popcount_below(pbits(pos, 2 * QUEEN + side), n) * 900
            + crate::bits::popcount_below(pbits(pos, 2 * ROOK + side), n) * 500
            + crate::bits::popcount_below(pbits(pos, 2 * BISHOP + side), n) * 300
            + crate::bits::popcount_below(pbits(pos, 2 * KNIGHT + side), n) * 300
            + crate::bits::popcount_below(pbits(pos, 2 * PAWN + side), n) * 100,
    decreases n,
{
    if n > 0 {
        lemma_worth_on(pos, side, (n - 1) as nat);
        crate::position::lemma_board_bits(&pos);
        let j = n - 1;
        assert(crate::bits::bit(pbits(pos, 2 * QUEEN + side), j) <==> pos.grid()[j].0 == 2 * QUEEN + side);
        assert(crate::bits::bit(pbits(pos, 2 * ROOK + side), j) <==> pos.grid()[j].0 == 2 * ROOK + side);
        assert(crate::bits::bit(pbits(pos, 2 * BISHOP + side), j) <==> pos.grid()[j].0 == 2 * BISHOP + side);
        assert(crate::bits::bit(pbits(pos, 2 * KNIGHT + side), j) <==> pos.grid()[j].0 == 2 * KNIGHT + side);
        assert(crate::bits::bit(pbits(pos, 2 * PAWN + side), j) <==> pos.grid()[j].0 == 2 * PAWN + side);
        assert(pos.grid()[j].0 <= 12);
    }
}

/// The material of a side is the worth of its pieces on the board, square
/// by square: 900 for each queen, 500 for each rook, 300 for each bishop and
/// knight, 100 for each pawn.
pub proof fn law_material_is_worth_of_pieces(pos: Position, side: u8)
    requires
        pos.wf(),
        side <= 1,
    ensures
        material(pos, side) == worth_on(pos.grid(), side, 64),
{
    lemma_worth_on(pos, side, 64);
}

/// The score of a game going on is the worth of white's pieces on the board
/// less the worth of black's.
pub proof fn law_score_is_material_balance(pos: Position, count: nat, in_check: bool)
    requires
        pos.wf(),
    ensures
        evaluation_spec(pos, count, in_check) matches Evaluation::Ongoing(v) ==> v as int == worth_on(
            pos.grid(),
            0,
            64,
        ) - worth_on(pos.grid(), 1, 64),
{
    law_material_is_worth_of_pieces(pos, 0);
    law_material_is_worth_of_pieces(pos, 1);
    lemma_material_bounds(pos, 0);
    lemma_material_bounds(pos, 1);
}

proof fn lemma_material_bounds(pos: Position, side: u8)
    ensures
        0 <= material(pos, side) <= 64 * 2300,
{
    lemma_popcount_bound(pbits(pos, 2 * QUEEN + side), 64);
    lemma_popcount_bound(pbits(pos, 2 * ROOK + side), 64);
    lemma_popcount_bound(pbits(pos, 2 * BISHOP + side), 64);
    lemma_popcount_bound(pbits(pos, 2 * KNIGHT + side), 64);
    lemma_popcount_bound(pbits(pos, 2 * PAWN + side), 64);
}

proof fn lemma_popcount_bound(x: u64, n: nat)
    ensures
        crate::bits::popcount_below(x, n) <= n,
    decreases n,
{
    if n > 0 {
        lemma_popcount_bound(x, (n - 1) as nat);
    }
}

} // verus!
