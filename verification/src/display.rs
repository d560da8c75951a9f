//! Text forms of boards, move lists and positions.
use vstd::prelude::*;
use crate::board::Board;
use crate::castle::rights_text;
use crate::fen::{decimal, fen_text};
use crate::move_list::MoveVec;
use crate::moves::{Move, move_text};
use crate::piece::{Piece, piece_letter};
use crate::position::{Position, State};
use crate::square::Square;
use crate::text::push_char;
use crate::utils::{grid_text, grid_to_string, grid_to_string_with_props};
use crate::bits::bit;

verus! {

/// The upper-case hexadecimal digit of `d`, `0 <= d < 16`.
pub open spec fn hex_digit(d: int) -> char {
    if d < 10 { ((d + 48) as u8) as char } else { ((d + 55) as u8) as char }
}

/// The last `n` hexadecimal digits of `h`, the most significant first.
pub open spec fn hex(h: nat, n: nat) -> Seq<char>
    decreases n,
{
    if n == 0 {
        Seq::empty()
    } else {
        hex(h / 16, (n - 1) as nat).push(hex_digit((h % 16) as int))
    }
}

/// The texts of `moves` joined by `, `.
pub open spec fn moves_text(moves: Seq<Move>) -> Seq<char>
    decreases moves.len(),
{
    if moves.len() == 0 {
        Seq::empty()
    } else if moves.len() == 1 {
        the_move_text(moves[0])
    } else {
        moves_text(moves.drop_last()) + ", "@ + the_move_text(moves.last())
    }
}

/// The text of `m` (see `Move::to_text`).
pub open spec fn the_move_text(m: Move) -> Seq<char> {
    move_text(
        m.castle_spec(),
        Square(m.0 & 63).name_spec(),
        Square(m.1 & 63).name_spec(),
        m.is_capture_spec(),
        match m.promote_spec() {
            Some(k) => Some(piece_letter(2 * k.0)),
            None => None,
        },
        m.is_en_passant_spec(),
    )
}

/// The squares of `b` drawn as `X`.
pub open spec fn board_cells(b: u64) -> Seq<char> {
    Seq::new(64, |i: int| if bit(b, i) { 'X' } else { ' ' })
}

/// The pieces of the grid `g` drawn by their letters.
pub open spec fn piece_cells(g: Seq<Piece>) -> Seq<char> {
    Seq::new(64, |i: int| if g[i].0 != 12 { piece_letter(g[i].0 as int) } else { ' ' })
}

/// The properties shown beside a position.
pub open spec fn position_props(g: Seq<Piece>, st: State, hash: u64) -> Seq<(Seq<char>, Seq<char>)> {
    seq![
        ("    side to move"@, seq![st.side_to_move.letter()]),
        (" castling rights"@, rights_text(st.castling_rights.0)),
        ("      en-passant"@, match st.en_passant_target {
            Some(sq) => sq.name_spec(),
            None => "-"@,
        }),
        (" half-move clock"@, decimal(st.halfmove_clock as nat)),
        ("full-move number"@, decimal(st.fullmove_number as nat)),
        ("             FEN"@, fen_text(g, st)),
        ("            hash"@, hex(hash as nat, 16)),
    ]
}

/// Appends the last `n` hexadecimal digits of `h` to `s`.
fn push_hex(s: &mut String, h: u64, n: u8)
    ensures
        final(s)@ == old(s)@ + hex(h as nat, n as nat),
    decreases n,
{
    if n > 0 {
        push_hex(s, h / 16, n - 1);
        let d = (h % 16) as u8;
        push_char(s, if d < 10 { (d + 48) as char } else { (d + 55) as char });
        assert(final(s)@ =~= old(s)@ + hex(h as nat, n as nat));
    } else {
        assert(final(s)@ =~= old(s)@);
    }
}

impl Board {
    /// The board drawn with an `X` on each of its squares.
    pub fn to_text(&self) -> (r: String)
        ensures
            r@ == grid_text(board_cells(self.0), None, None, Seq::empty()),
    {
        let mut cells = [' '; 64];
        let mut i: usize = 0;
        while i < 64
            invariant
                i <= 64,
                forall|j: int| 0 <= j < i ==> cells@[j] == board_cells(self.0)[j],
            decreases 64 - i,
        {
            if self.has(&Square(i as u8)) {
                cells[i] = 'X';
            } else {
                cells[i] = ' ';
            }
            i = i + 1;
        }
        assert(cells@ =~= board_cells(self.0));
        grid_to_string(&cells, None, None)
    }
}

impl MoveVec {
    /// The moves of the list joined by `, `.
    pub fn to_text(&self) -> (r: String)
        ensures
            r@ == moves_text(self.view()),
    {
        let mut r = String::new();
        let mut i: usize = 0;
        while i < self.len()
            invariant
                i <= self.view().len(),
                r@ == moves_text(self.view().subrange(0, i as int)),
            decreases self.view().len() - i,
        {
            let m = self.get(i);
            if i > 0 {
                r.append(", ");
            }
            let t = m.to_text();
            r.append(t.as_str());
            let ghost s = self.view().subrange(0, i + 1);
            assert(s.drop_last() =~= self.view().subrange(0, i as int));
            i = i + 1;
        }
        assert(self.view().subrange(0, self.view().len() as int) =~= self.view());
        r
    }
}

impl Position {
    /// The position drawn with its properties: side to move, castling
    /// rights, en-passant target, clocks, FEN and hash.
    pub fn to_text(&self) -> (r: String)
        requires
            self.wf(),
        ensures
            r@ == grid_text(
                piece_cells(self.grid()),
                None,
                None,
                position_props(self.grid(), self.state_spec(), self.hash_spec()),
            ),
    {
        proof {
            crate::position::lemma_grid_codes(self);
        }
        let st = self.state();
        let mut props: Vec<(String, String)> = Vec::new();
        let mut side = String::new();
        push_char(&mut side, st.side_to_move.to_char());
        props.push((String::from_str("    side to move"), side));
        props.push((String::from_str(" castling rights"), st.castling_rights.to_text()));
        let ep = match st.en_passant_target {
            Some(sq) => sq.name(),
            None => String::from_str("-"),
        };
        props.push((String::from_str("      en-passant"), ep));
        let mut hmc = String::new();
        crate::fen::push_decimal(&mut hmc, st.halfmove_clock);
        props.push((String::from_str(" half-move clock"), hmc));
        let mut fmn = String::new();
        crate::fen::push_decimal(&mut fmn, st.fullmove_number);
        props.push((String::from_str("full-move number"), fmn));
        props.push((String::from_str("             FEN"), self.to_fen()));
        let mut hash = String::new();
        push_hex(&mut hash, self.hash(), 16);
        props.push((String::from_str("            hash"), hash));
        let mut cells = [' '; 64];
        let mut i: usize = 0;
        while i < 64
            invariant
                i <= 64,
                self.grid().len() == 64,
                forall|j: int| 0 <= j < 64 ==> #[trigger] self.grid()[j].0 <= 12,
                forall|j: int| 0 <= j < i ==> cells@[j] == piece_cells(self.grid())[j],
            decreases 64 - i,
        {
            let piece = self.at(Square(i as u8));
            cells[i] = if piece.is_some() { piece.to_char() } else { ' ' };
            i = i + 1;
        }
        assert(cells@ =~= piece_cells(self.grid()));
        assert(props@.map_values(|p: (String, String)| (p.0@, p.1@)) =~= position_props(
            self.grid(),
            self.state_spec(),
            self.hash_spec(),
        ));
        grid_to_string_with_props(&cells, None, None, &props)
    }
}

} // verus!
