//! Reading and writing positions in Forsyth-Edwards Notation (FEN).
use vstd::prelude::*;
use crate::castle::{CastlingRights, rights_union, rights_text};
use crate::hash::default_zobrist;
use crate::piece::{Piece, piece_of_letter, piece_letter, NULL_PIECE};
use crate::position::{Position, State, StateView};
use crate::side::Side;
use crate::square::{Square, parse_square, unreadable_square, rank_digit};
use crate::text::{str_chars, push_char};

verus! {

/// The pieces of `s` between the separators `sep`, in order; there is one
/// more piece than there are separators.
pub open spec fn split(s: Seq<char>, sep: char) -> Seq<Seq<char>>
    decreases s.len(),
{
    if s.len() == 0 {
        seq![Seq::empty()]
    } else {
        let f = split(s.drop_last(), sep);
        if s.last() == sep {
            f.push(Seq::empty())
        } else {
            f.update(f.len() - 1, f.last().push(s.last()))
        }
    }
}

/// The message of an empty number.
pub open spec fn empty_number() -> Seq<char> {
    "cannot parse integer from empty string"@
}

/// The message of a number with a character that is no digit.
pub open spec fn invalid_digit() -> Seq<char> {
    "invalid digit found in string"@
}

/// The message of a number above `u32::MAX`.
pub open spec fn too_large() -> Seq<char> {
    "number too large to fit in target type"@
}

/// `c` is one of `0` to `9`.
pub open spec fn is_digit(c: char) -> bool {
    '0' <= c && c <= '9'
}

/// Reading the decimal digits `d[0..n]` from the left: their value, or the
/// error at the first character that is no digit or makes the value exceed
/// `u32::MAX`.
pub open spec fn digits_scan(d: Seq<char>, n: nat) -> Result<int, Seq<char>>
    decreases n,
{
    if n == 0 {
        Ok(0)
    } else {
        match digits_scan(d, (n - 1) as nat) {
            Err(e) => Err(e),
            Ok(v) => {
                let c = d[n - 1];
                if !is_digit(c) {
                    Err(invalid_digit())
                } else if v * 10 + (c as int - '0' as int) > u32::MAX {
                    Err(too_large())
                } else {
                    Ok(v * 10 + (c as int - '0' as int))
                }
            },
        }
    }
}

/// Reading `s` as an unsigned 32-bit decimal with an optional leading `+`.
pub open spec fn parse_u32_spec(s: Seq<char>) -> Result<u32, Seq<char>> {
    if s.len() == 0 {
        Err(empty_number())
    } else if s == seq!['+'] || s == seq!['-'] {
        Err(invalid_digit())
    } else {
        let d = if s[0] == '+' { s.drop_first() } else { s };
        match digits_scan(d, d.len()) {
            Ok(v) => Ok(v as u32),
            Err(e) => Err(e),
        }
    }
}

/// Reading the first `n` characters of the row `cs` of a FEN into rank `row`
/// of `g`: the grid and the file reached, or the error. A digit skips that
/// many files; a piece letter on a file past the last is refused.
pub open spec fn row_scan(cs: Seq<char>, row: int, g: Seq<Piece>, n: nat) -> Result<(Seq<Piece>, int), Seq<char>>
    decreases n,
{
    if n == 0 {
        Ok((g, 0))
    } else {
        match row_scan(cs, row, g, (n - 1) as nat) {
            Err(e) => Err(e),
            Ok((g1, col)) => {
                let c = cs[n - 1];
                if '1' <= c && c <= '8' {
                    Ok((g1, col + (c as int - '1' as int) + 1))
                } else if col >= 8 {
                    Err("Too many pieces on row "@.push(rank_digit(row)))
                } else {
                    match piece_of_letter(c) {
                        Some(p) => Ok((g1.update(row * 8 + col, Piece(p)), col + 1)),
                        None => Err("Invalid piece: "@.push(c)),
                    }
                }
            },
        }
    }
}

/// The empty grid.
pub open spec fn empty_grid() -> Seq<Piece> {
    Seq::new(64, |i: int| Piece(12))
}

/// Reading the first `k` rows of `rows`, the first on rank 8.
pub open spec fn grid_scan(rows: Seq<Seq<char>>, k: nat) -> Result<Seq<Piece>, Seq<char>>
    decreases k,
{
    if k == 0 {
        Ok(empty_grid())
    } else {
        match grid_scan(rows, (k - 1) as nat) {
            Err(e) => Err(e),
            Ok(g) => match row_scan(rows[k - 1], 7 - (k - 1), g, rows[k - 1].len()) {
                Err(e) => Err(e),
                Ok((g2, _)) => Ok(g2),
            },
        }
    }
}

/// The grid of the placement field `s`: at most its first eight rows.
pub open spec fn placement(s: Seq<char>) -> Result<Seq<Piece>, Seq<char>> {
    let rows = split(s, '/');
    grid_scan(rows, if rows.len() < 8 { rows.len() } else { 8 })
}

/// Reading the side field: `w` or `b`.
pub open spec fn parse_side(s: Seq<char>) -> Result<Side, Seq<char>> {
    if s == seq!['w'] {
        Ok(Side(0))
    } else if s == seq!['b'] {
        Ok(Side(1))
    } else {
        Err("Invalid side: "@ + s)
    }
}

/// Reading the castling field: `-`, or letters among `KQkq`.
pub open spec fn parse_rights(s: Seq<char>) -> Result<u8, Seq<char>> {
    if s == seq!['-'] {
        Ok(0)
    } else {
        match rights_union(s, s.len()) {
            Ok(x) => Ok(x),
            Err(c) => Err("Invalid castling rights: "@.push(c)),
        }
    }
}

/// Reading a clock field: `-` keeps `default`.
pub open spec fn parse_clock(s: Seq<char>, default: u32) -> Result<u32, Seq<char>> {
    if s == seq!['-'] {
        Ok(default)
    } else {
        parse_u32_spec(s)
    }
}

/// The position a FEN describes, as its grid and state, or the error, read
/// field by field: placement, side to move (white when missing), castling
/// rights (all when missing), en-passant target, half-move clock (0 when
/// missing) and full-move number (1 when missing). The fields are separated
/// by single spaces; those after the sixth are ignored.
pub open spec fn parse_fen(s: Seq<char>) -> Result<(Seq<Piece>, StateView), Seq<char>> {
    let parts = split(s, ' ');
    let n = parts.len();
    match placement(parts[0]) {
        Err(e) => Err(e),
        Ok(g) => match (if n > 1 { parse_side(parts[1]) } else { Ok(Side(0)) }) {
            Err(e) => Err(e),
            Ok(side) => match (if n > 2 { parse_rights(parts[2]) } else { Ok(15u8) }) {
                Err(e) => Err(e),
                Ok(rights) => match (if n > 3 { parse_square(parts[3]) } else { Ok(None) }) {
                    Err(e) => Err(e),
                    Ok(ep) => match (if n > 4 { parse_clock(parts[4], 0) } else { Ok(0u32) }) {
                        Err(e) => Err(e),
                        Ok(hmc) => match (if n > 5 { parse_clock(parts[5], 1) } else { Ok(1u32) }) {
                            Err(e) => Err(e),
                            Ok(fmn) => Ok(
                                (
                                    g,
                                    StateView {
                                        side_to_move: side,
                                        castling_rights: CastlingRights(rights),
                                        en_passant_target: ep,
                                        halfmove_clock: hmc,
                                        fullmove_number: fmn,
                                        prev_hashes: None,
                                    },
                                ),
                            ),
                        },
                    },
                },
            },
        },
    }
}

/// A FEN on which reading cannot go on: the fields before the en-passant
/// target are read and that field is a single character that takes more
/// than one byte.
pub open spec fn fen_stuck(s: Seq<char>) -> bool {
    let parts = split(s, ' ');
    &&& parts.len() > 3
    &&& placement(parts[0]) is Ok
    &&& parse_side(parts[1]) is Ok
    &&& parse_rights(parts[2]) is Ok
    &&& unreadable_square(parts[3])
}

/// The decimal digits of `n`.
pub open spec fn decimal(n: nat) -> Seq<char>
    decreases n,
{
    if n < 10 {
        seq![((n + 48) as u8) as char]
    } else {
        decimal(n / 10).push((((n % 10) + 48) as u8) as char)
    }
}

/// The FEN of rank `rank` of `g` from file `file` on, `empty` empty squares
/// being pending before it.
pub open spec fn row_text(g: Seq<Piece>, rank: int, file: int, empty: nat) -> Seq<char>
    decreases 8 - file,
{
    if file >= 8 {
        if empty > 0 { decimal(empty) } else { Seq::empty() }
    } else {
        let p = g[rank * 8 + file];
        if p.0 != 12 {
            (if empty > 0 { decimal(empty) } else { Seq::empty() }) + seq![piece_letter(p.0 as int)] + row_text(
                g,
                rank,
                file + 1,
                0,
            )
        } else {
            row_text(g, rank, file + 1, empty + 1)
        }
    }
}

/// The FEN placement of the first `k` ranks of `g` from rank 8 down.
pub open spec fn board_text(g: Seq<Piece>, k: nat) -> Seq<char>
    decreases k,
{
    if k == 0 {
        Seq::empty()
    } else {
        board_text(g, (k - 1) as nat) + row_text(g, 8 - k, 0, 0) + (if k < 8 { seq!['/'] } else { Seq::empty() })
    }
}

/// The FEN of a position with grid `g` and state `st`.
pub open spec fn fen_text(g: Seq<Piece>, st: State) -> Seq<char> {
    board_text(g, 8) + seq![' ', st.side_to_move.letter(), ' '] + rights_text(st.castling_rights.0) + seq![' ']
        + match st.en_passant_target {
        Some(sq) => sq.name_spec(),
        None => seq!['-'],
    } + seq![' '] + decimal(st.halfmove_clock as nat) + seq![' '] + decimal(st.fullmove_number as nat)
}

proof fn lemma_split_len(s: Seq<char>, sep: char)
    ensures
        split(s, sep).len() >= 1,
    decreases s.len(),
{
    if s.len() > 0 {
        lemma_split_len(s.drop_last(), sep);
    }
}

proof fn lemma_union_small(s: Seq<char>, n: nat)
    requires
        n <= s.len(),
    ensures
        rights_union(s, n) matches Ok(x) ==> x < 16,
    decreases n,
{
    if n > 0 {
        lemma_union_small(s, (n - 1) as nat);
        if let Ok(r) = rights_union(s, (n - 1) as nat) {
            assert(r < 16 ==> (r | 1) < 16 && (r | 2) < 16 && (r | 4) < 16 && (r | 8) < 16) by (bit_vector);
        }
    }
}

/// The characters `cs[a..b]`.
fn sub_chars(cs: &Vec<char>, a: usize, b: usize) -> (r: Vec<char>)
    requires
        a <= b <= cs.len(),
    ensures
        r@ == cs@.subrange(a as int, b as int),
{
    let mut r: Vec<char> = Vec::new();
    let mut i = a;
    while i < b
        invariant
            a <= i <= b <= cs.len(),
            r@ == cs@.subrange(a as int, i as int),
        decreases b - i,
    {
        r.push(cs[i]);
        i = i + 1;
        assert(r@ =~= cs@.subrange(a as int, i as int));
    }
    r
}

/// Where the pieces of `cs` between the separators `sep` start and end.
fn split_ranges(cs: &Vec<char>, sep: char) -> (r: Vec<(usize, usize)>)
    ensures
        r.len() == split(cs@, sep).len(),
        forall|k: int|
            #![trigger r[k]]
            0 <= k < r.len() ==> r[k].0 <= r[k].1 <= cs.len() && cs@.subrange(r[k].0 as int, r[k].1 as int)
                == split(cs@, sep)[k],
{
    let mut r: Vec<(usize, usize)> = Vec::new();
    let mut start: usize = 0;
    let mut i: usize = 0;
    let ghost mut seen: Seq<char> = Seq::empty();
    assert(cs@.subrange(0, 0) =~= seen);
    assert(cs@.subrange(0, 0) =~= cs@.subrange(start as int, 0));
    while i < cs.len()
        invariant
            start <= i <= cs.len(),
            seen == cs@.subrange(0, i as int),
            r.len() + 1 == split(seen, sep).len(),
            forall|k: int|
                #![trigger r[k]]
                0 <= k < r.len() ==> r[k].0 <= r[k].1 <= i && cs@.subrange(r[k].0 as int, r[k].1 as int)
                    == split(seen, sep)[k],
            cs@.subrange(start as int, i as int) == split(seen, sep).last(),
        decreases cs.len() - i,
    {
        let ghost next = cs@.subrange(0, i + 1);
        let ghost f = split(seen, sep);
        let ghost old_r = r@;
        proof {
            assert(next.drop_last() =~= seen);
            assert(next.last() == cs@[i as int]);
            lemma_split_len(seen, sep);
        }
        if cs[i] == sep {
            r.push((start, i));
            start = i + 1;
            proof {
                assert(split(next, sep) == f.push(Seq::<char>::empty()));
                assert(cs@.subrange(start as int, i + 1) =~= Seq::<char>::empty());
                assert forall|k: int| #![trigger r[k]] 0 <= k < r.len() implies r[k].0 <= r[k].1 <= i + 1 && cs@.subrange(
                    r[k].0 as int,
                    r[k].1 as int,
                ) == split(next, sep)[k] by {
                    if k < old_r.len() {
                        assert(r[k] == old_r[k]);
                        assert(split(next, sep)[k] == f[k]);
                    } else {
                        assert(split(next, sep)[k] == f.last());
                    }
                }
            }
        } else {
            proof {
                assert(split(next, sep) == f.update(f.len() - 1, f.last().push(cs@[i as int])));
                assert(cs@.subrange(start as int, i + 1) =~= cs@.subrange(start as int, i as int).push(cs@[i as int]));
                assert forall|k: int| #![trigger r[k]] 0 <= k < r.len() implies r[k].0 <= r[k].1 <= i + 1 && cs@.subrange(
                    r[k].0 as int,
                    r[k].1 as int,
                ) == split(next, sep)[k] by {
                    assert(split(next, sep)[k] == f[k]);
                }
            }
        }
        i = i + 1;
        proof {
            seen = next;
        }
    }
    let ghost old_r = r@;
    assert(seen =~= cs@);
    r.push((start, i));
    assert forall|k: int| #![trigger r[k]] 0 <= k < r.len() implies r[k].0 <= r[k].1 <= cs.len() && cs@.subrange(
        r[k].0 as int,
        r[k].1 as int,
    ) == split(cs@, sep)[k] by {
        if k < old_r.len() {
            assert(r[k] == old_r[k]);
        }
    }
    r
}

/// Reads `d` as decimal digits (see `digits_scan`).
fn read_digits(d: &Vec<char>, a: usize) -> (r: Result<u32, String>)
    requires
        a <= d.len(),
    ensures
        match (r, digits_scan(d@.subrange(a as int, d.len() as int), (d.len() - a) as nat)) {
            (Ok(v), Ok(w)) => v == w,
            (Err(e), Err(m)) => e@ == m,
            _ => false,
        },
{
    let ghost ds = d@.subrange(a as int, d.len() as int);
    let mut v: u32 = 0;
    let mut i = a;
    while i < d.len()
        invariant
            a <= i <= d.len(),
            ds == d@.subrange(a as int, d.len() as int),
            digits_scan(ds, (i - a) as nat) == Ok::<int, Seq<char>>(v as int),
        decreases d.len() - i,
    {
        let c = d[i];
        assert(ds[(i + 1 - a) - 1] == c);
        if !('0' <= c && c <= '9') {
            proof {
                lemma_scan_stays_err(ds, (i + 1 - a) as nat, ds.len(), invalid_digit());
            }
            return Err(String::from_str("invalid digit found in string"));
        }
        let x = (c as u32 - 48) as u64;
        let w = v as u64 * 10 + x;
        if w > 0xffff_ffff {
            proof {
                lemma_scan_stays_err(ds, (i + 1 - a) as nat, ds.len(), too_large());
            }
            return Err(String::from_str("number too large to fit in target type"));
        }
        v = w as u32;
        i = i + 1;
    }
    Ok(v)
}

proof fn lemma_scan_stays_err(d: Seq<char>, n: nat, m: nat, e: Seq<char>)
    requires
        n <= m,
        digits_scan(d, n) == Err::<int, Seq<char>>(e),
    ensures
        digits_scan(d, m) == Err::<int, Seq<char>>(e),
    decreases m - n,
{
    if n < m {
        lemma_scan_stays_err(d, n, (m - 1) as nat, e);
    }
}

/// Reads `s` as an unsigned 32-bit decimal (see `parse_u32_spec`).
pub fn parse_u32(s: &Vec<char>) -> (r: Result<u32, String>)
    ensures
        match (r, parse_u32_spec(s@)) {
            (Ok(v), Ok(w)) => v == w,
            (Err(e), Err(m)) => e@ == m,
            _ => false,
        },
{
    if s.len() == 0 {
        return Err(String::from_str("cannot parse integer from empty string"));
    }
    if s.len() == 1 && (s[0] == '+' || s[0] == '-') {
        assert(s@ =~= seq!['+'] || s@ =~= seq!['-']);
        return Err(String::from_str("invalid digit found in string"));
    }
    assert(!(s@ == seq!['+'] || s@ == seq!['-'])) by {
        if s@ == seq!['+'] || s@ == seq!['-'] {
            assert(s@.len() == 1);
        }
    }
    if s[0] == '+' {
        assert(s@.drop_first() =~= s@.subrange(1, s@.len() as int));
        read_digits(s, 1)
    } else {
        assert(s@ =~= s@.subrange(0, s@.len() as int));
        read_digits(s, 0)
    }
}

/// Reads one row of a FEN into rank `row` of `grid` (see `row_scan`).
fn read_row(cs: &Vec<char>, row: usize, grid: &mut [Piece; 64]) -> (r: Result<(), String>)
    requires
        row < 8,
        forall|i: int| 0 <= i < 64 ==> #[trigger] old(grid)@[i].0 <= 12,
    ensures
        forall|i: int| 0 <= i < 64 ==> #[trigger] final(grid)@[i].0 <= 12,
        match (r, row_scan(cs@, row as int, old(grid)@, cs.len() as nat)) {
            (Ok(_), Ok((g, _))) => final(grid)@ == g,
            (Err(e), Err(m)) => e@ == m,
            _ => false,
        },
{
    let mut col: usize = 0;
    let mut i: usize = 0;
    while i < cs.len()
        invariant
            row < 8,
            i <= cs.len(),
            col <= 8,
            forall|k: int| 0 <= k < 64 ==> #[trigger] grid@[k].0 <= 12,
            row_scan(cs@, row as int, old(grid)@, i as nat) matches Ok((g, c)) && grid@ == g && col as int == (
            if c < 8 { c } else { 8 }),
        decreases cs.len() - i,
    {
        let c = cs[i];
        if '1' <= c && c <= '8' {
            let step = (c as u32 - 49) as usize + 1;
            col = if col + step > 8 { 8 } else { col + step };
        } else {
            if col >= 8 {
                proof {
                    lemma_row_stays_err(cs@, row as int, old(grid)@, (i + 1) as nat, cs.len() as nat);
                }
                let mut msg = String::from_str("Too many pieces on row ");
                push_char(&mut msg, ((row as u8) + 49) as char);
                return Err(msg);
            }
            match Piece::try_from_char(c) {
                Ok(p) => {
                    grid[row * 8 + col] = p;
                    col = col + 1;
                },
                Err(e) => {
                    proof {
                        lemma_row_stays_err(cs@, row as int, old(grid)@, (i + 1) as nat, cs.len() as nat);
                    }
                    return Err(e);
                },
            }
        }
        i = i + 1;
    }
    Ok(())
}

proof fn lemma_row_stays_err(cs: Seq<char>, row: int, g: Seq<Piece>, n: nat, m: nat)
    requires
        n <= m,
        row_scan(cs, row, g, n) is Err,
    ensures
        row_scan(cs, row, g, m) == row_scan(cs, row, g, n),
    decreases m - n,
{
    if n < m {
        lemma_row_stays_err(cs, row, g, n, (m - 1) as nat);
    }
}

proof fn lemma_grid_stays_err(rows: Seq<Seq<char>>, n: nat, m: nat)
    requires
        n <= m,
        grid_scan(rows, n) is Err,
    ensures
        grid_scan(rows, m) == grid_scan(rows, n),
    decreases m - n,
{
    if n < m {
        lemma_grid_stays_err(rows, n, (m - 1) as nat);
    }
}

/// Reads the placement field `cs` of a FEN (see `placement`).
fn read_placement(cs: &Vec<char>) -> (r: Result<[Piece; 64], String>)
    ensures
        match (r, placement(cs@)) {
            (Ok(g), Ok(h)) => g@ == h,
            (Err(e), Err(m)) => e@ == m,
            _ => false,
        },
        r matches Ok(g) ==> forall|i: int| 0 <= i < 64 ==> #[trigger] g@[i].0 <= 12,
{
    let ranges = split_ranges(cs, '/');
    let ghost rows = split(cs@, '/');
    proof {
        lemma_split_len(cs@, '/');
    }
    let n = if ranges.len() < 8 { ranges.len() } else { 8 };
    let mut grid = [Piece(NULL_PIECE); 64];
    assert(grid@ =~= empty_grid());
    let mut k: usize = 0;
    while k < n
        invariant
            n <= 8,
            n <= ranges.len(),
            ranges.len() == rows.len(),
            placement(cs@) == grid_scan(rows, n as nat),
            rows == split(cs@, '/'),
            forall|j: int|
                #![trigger ranges[j]]
                0 <= j < ranges.len() ==> ranges[j].0 <= ranges[j].1 <= cs.len() && cs@.subrange(
                    ranges[j].0 as int,
                    ranges[j].1 as int,
                ) == split(cs@, '/')[j],
            k <= n,
            forall|i: int| 0 <= i < 64 ==> #[trigger] grid@[i].0 <= 12,
            grid_scan(rows, k as nat) == Ok::<Seq<Piece>, Seq<char>>(grid@),
        decreases n - k,
    {
        let (a, b) = ranges[k];
        let row_chars = sub_chars(cs, a, b);
        assert(row_chars@ == rows[k as int]);
        let ghost g_before = grid@;
        match read_row(&row_chars, 7 - k, &mut grid) {
            Ok(_) => {},
            Err(e) => {
                proof {
                    assert(row_scan(rows[k as int], 7 - k, g_before, rows[k as int].len()) is Err);
                    assert(grid_scan(rows, (k + 1) as nat) is Err);
                    lemma_grid_stays_err(rows, (k + 1) as nat, n as nat);
                    assert(placement(cs@) == grid_scan(rows, n as nat));
                }
                return Err(e);
            },
        }
        k = k + 1;
    }
    Ok(grid)
}

/// Builds a string from the characters `cs`.
pub fn chars_to_string(cs: &Vec<char>) -> (r: String)
    ensures
        r@ == cs@,
{
    let mut r = String::new();
    let mut i: usize = 0;
    while i < cs.len()
        invariant
            i <= cs.len(),
            r@ == cs@.subrange(0, i as int),
        decreases cs.len() - i,
    {
        push_char(&mut r, cs[i]);
        i = i + 1;
        assert(r@ =~= cs@.subrange(0, i as int));
    }
    assert(cs@.subrange(0, cs.len() as int) =~= cs@);
    r
}

/// Reads a clock field (see `parse_clock`).
fn read_clock(cs: &Vec<char>, default: u32) -> (r: Result<u32, String>)
    ensures
        match (r, parse_clock(cs@, default)) {
            (Ok(v), Ok(w)) => v == w,
            (Err(e), Err(m)) => e@ == m,
            _ => false,
        },
{
    if cs.len() == 1 && cs[0] == '-' {
        assert(cs@ =~= seq!['-']);
        return Ok(default);
    }
    assert(cs@ != seq!['-']) by {
        if cs@ == seq!['-'] {
            assert(cs@.len() == 1);
        }
    }
    parse_u32(cs)
}

impl Position {
    /// Reads a position from a FEN (see `parse_fen`); its hash is that of the
    /// default keys.
    pub fn try_from_fen(fen: &str) -> (r: Result<Position, String>)
        requires
            !fen_stuck(fen@),
        ensures
            match (r, parse_fen(fen@)) {
                (Ok(p), Ok((g, st))) => {
                    &&& p.wf()
                    &&& p.grid() == g
                    &&& p.state_spec()@ == st
                    &&& p.hash_spec() == default_zobrist().position_spec(g, st.castling_rights.0, st.en_passant_target)
                },
                (Err(e), Err(m)) => e@ == m,
                _ => false,
            },
    {
        let cs = str_chars(fen);
        let parts = split_ranges(&cs, ' ');
        let ghost ps = split(fen@, ' ');
        proof {
            lemma_split_len(fen@, ' ');
        }
        let n = parts.len();
        let (a0, b0) = parts[0];
        let placement_chars = sub_chars(&cs, a0, b0);
        assert(placement_chars@ == ps[0]);
        let grid = match read_placement(&placement_chars) {
            Ok(g) => g,
            Err(e) => return Err(e),
        };
        let mut side_to_move = Side(0);
        if n > 1 {
            let (a, b) = parts[1];
            assert(fen@.subrange(a as int, b as int) == ps[1]);
            match Side::try_from_str(fen.substring_char(a, b)) {
                Ok(s) => side_to_move = s,
                Err(e) => return Err(e),
            }
        }
        let mut castling_rights = CastlingRights(15);
        if n > 2 {
            let (a, b) = parts[2];
            assert(fen@.subrange(a as int, b as int) == ps[2]);
            match CastlingRights::try_from_str(fen.substring_char(a, b)) {
                Ok(x) => castling_rights = x,
                Err(e) => return Err(e),
            }
            proof {
                lemma_union_small(ps[2], ps[2].len());
            }
        }
        let mut en_passant_target: Option<Square> = None;
        if n > 3 {
            let (a, b) = parts[3];
            assert(fen@.subrange(a as int, b as int) == ps[3]);
            match Square::try_from_str(fen.substring_char(a, b)) {
                Ok(x) => en_passant_target = x,
                Err(e) => return Err(e),
            }
        }
        let mut halfmove_clock: u32 = 0;
        if n > 4 {
            let (a, b) = parts[4];
            let field = sub_chars(&cs, a, b);
            assert(field@ == ps[4]);
            match read_clock(&field, 0) {
                Ok(x) => halfmove_clock = x,
                Err(e) => return Err(e),
            }
        }
        let mut fullmove_number: u32 = 1;
        if n > 5 {
            let (a, b) = parts[5];
            let field = sub_chars(&cs, a, b);
            assert(field@ == ps[5]);
            match read_clock(&field, 1) {
                Ok(x) => fullmove_number = x,
                Err(e) => return Err(e),
            }
        }
        let state = State {
            side_to_move,
            castling_rights,
            en_passant_target,
            halfmove_clock,
            fullmove_number,
            prev_hashes: None,
        };
        Ok(Position::new(grid, state))
    }

    /// Reads a position from a FEN that can be read (see `parse_fen`).
    pub fn from_fen(fen: &str) -> (r: Position)
        requires
            parse_fen(fen@) is Ok,
        ensures
            match parse_fen(fen@) {
                Ok((g, st)) => {
                    &&& r.wf()
                    &&& r.grid() == g
                    &&& r.state_spec()@ == st
                    &&& r.hash_spec() == default_zobrist().position_spec(g, st.castling_rights.0, st.en_passant_target)
                },
                Err(_) => false,
            },
    {
        let r = Position::try_from_fen(fen);
        proof {
            assert(!fen_stuck(fen@));
        }
        r.unwrap()
    }
}

/// Appends the decimal digits of `n` to `s`.
pub fn push_decimal(s: &mut String, n: u32)
    ensures
        final(s)@ == old(s)@ + decimal(n as nat),
    decreases n,
{
    if n >= 10 {
        push_decimal(s, n / 10);
    }
    push_char(s, ((n % 10) as u8 + 48) as char);
    proof {
        if n < 10 {
            assert(n % 10 == n);
        }
    }
    assert(final(s)@ =~= old(s)@ + decimal(n as nat)) by {
        if n >= 10 {
            assert(decimal(n as nat) == decimal((n / 10) as nat).push((((n % 10) + 48) as u8) as char));
        }
    }
}

impl Position {
    /// The FEN of this position (see `fen_text`).
    pub fn to_fen(&self) -> (r: String)
        requires
            self.wf(),
        ensures
            r@ == fen_text(self.grid(), self.state_spec()),
    {
        let ghost g = self.grid();
        proof {
            crate::position::lemma_grid_codes(self);
        }
        let mut fen = String::new();
        let mut rank_index: u8 = 0;
        while rank_index < 8
            invariant
                rank_index <= 8,
                g == self.grid(),
                g.len() == 64,
                forall|i: int| 0 <= i < 64 ==> #[trigger] g[i].0 <= 12,
                fen@ == board_text(g, rank_index as nat),
            decreases 8 - rank_index,
        {
            let rank: u8 = 7 - rank_index;
            let ghost before = fen@;
            let mut empty: u8 = 0;
            let mut file_index: u8 = 0;
            while file_index < 8
                invariant
                    rank_index < 8,
                    rank == 7 - rank_index,
                    file_index <= 8,
                    empty <= file_index,
                    g == self.grid(),
                    g.len() == 64,
                    forall|i: int| 0 <= i < 64 ==> #[trigger] g[i].0 <= 12,
                    fen@ + row_text(g, rank as int, file_index as int, empty as nat) == before + row_text(g, rank as int, 0, 0),
                decreases 8 - file_index,
            {
                let piece = self.at(Square::from(rank, file_index));
                if piece.is_some() {
                    if empty > 0 {
                        push_decimal(&mut fen, empty as u32);
                        empty = 0;
                    }
                    push_char(&mut fen, piece.to_char());
                } else {
                    empty += 1;
                }
                file_index += 1;
            }
            if empty > 0 {
                push_decimal(&mut fen, empty as u32);
            }
            if rank_index != 7 {
                push_char(&mut fen, '/');
            }
            rank_index += 1;
            assert(fen@ =~= board_text(g, rank_index as nat));
        }
        let st = self.state();
        push_char(&mut fen, ' ');
        push_char(&mut fen, st.side_to_move.to_char());
        push_char(&mut fen, ' ');
        let rights = st.castling_rights.to_text();
        fen.append(rights.as_str());
        push_char(&mut fen, ' ');
        match st.en_passant_target {
            Some(sq) => {
                let name = sq.name();
                fen.append(name.as_str());
            },
            None => push_char(&mut fen, '-'),
        }
        push_char(&mut fen, ' ');
        push_decimal(&mut fen, st.halfmove_clock);
        push_char(&mut fen, ' ');
        push_decimal(&mut fen, st.fullmove_number);
        assert(fen@ =~= fen_text(g, self.state_spec()));
        fen
    }
}

/// The fields `fs` joined with `sep` between them.
pub open spec fn join(fs: Seq<Seq<char>>, sep: char) -> Seq<char>
    decreases fs.len(),
{
    if fs.len() <= 1 {
        if fs.len() == 1 { fs[0] } else { Seq::empty() }
    } else {
        join(fs.drop_last(), sep) + seq![sep] + fs.last()
    }
}

/// Splitting at a separator splits the parts on either side of it.
proof fn lemma_split_concat(a: Seq<char>, b: Seq<char>, sep: char)
    ensures
        split(a + seq![sep] + b, sep) == split(a, sep) + split(b, sep),
    decreases b.len(),
{
    let x = a + seq![sep] + b;
    if b.len() == 0 {
        assert(x.drop_last() =~= a);
        assert(split(b, sep) =~= seq![Seq::<char>::empty()]);
        assert(split(x, sep) =~= split(a, sep) + split(b, sep));
    } else {
        let b1 = b.drop_last();
        lemma_split_concat(a, b1, sep);
        lemma_split_len(b1, sep);
        lemma_split_len(a, sep);
        assert(x.drop_last() =~= a + seq![sep] + b1);
        assert(x.last() == b.last());
        assert(split(x, sep) =~= split(a, sep) + split(b, sep));
    }
}

/// Text without the separator is a single part.
proof fn lemma_split_none(a: Seq<char>, sep: char)
    requires
        forall|i: int| 0 <= i < a.len() ==> a[i] != sep,
    ensures
        split(a, sep) == seq![a],
    decreases a.len(),
{
    if a.len() > 0 {
        lemma_split_none(a.drop_last(), sep);
        assert(a[a.len() - 1] != sep);
        assert(a.drop_last().push(a.last()) =~= a);
        assert(split(a, sep) =~= seq![a]);
    } else {
        assert(a =~= Seq::<char>::empty());
    }
}

/// Splitting fields joined with a separator they do not hold gives the fields
/// back.
proof fn lemma_split_join(fs: Seq<Seq<char>>, sep: char)
    requires
        fs.len() >= 1,
        forall|k: int, i: int| 0 <= k < fs.len() && 0 <= i < fs[k].len() ==> #[trigger] fs[k][i] != sep,
    ensures
        split(join(fs, sep), sep) == fs,
    decreases fs.len(),
{
    if fs.len() == 1 {
        lemma_split_none(fs[0], sep);
        assert(seq![fs[0]] =~= fs);
    } else {
        let init = fs.drop_last();
        assert forall|k: int, i: int| 0 <= k < init.len() && 0 <= i < init[k].len() implies #[trigger] init[k][i] != sep by {
            assert(init[k] == fs[k]);
        }
        lemma_split_join(init, sep);
        assert forall|i: int| 0 <= i < fs.last().len() implies fs.last()[i] != sep by {
            assert(fs[fs.len() - 1][i] != sep);
        }
        lemma_split_none(fs.last(), sep);
        lemma_split_concat(join(init, sep), fs.last(), sep);
        assert(init + seq![fs.last()] =~= fs);
    }
}

/// Reading the first `n` digits depends on those digits only.
proof fn lemma_digits_scan_prefix(s: Seq<char>, t: Seq<char>, n: nat)
    requires
        n <= s.len(),
        n <= t.len(),
        s.subrange(0, n as int) == t.subrange(0, n as int),
    ensures
        digits_scan(s, n) == digits_scan(t, n),
    decreases n,
{
    if n > 0 {
        assert(s[n - 1] == s.subrange(0, n as int)[n - 1]);
        assert(t[n - 1] == t.subrange(0, n as int)[n - 1]);
        assert(s.subrange(0, n - 1) == s.subrange(0, n as int).subrange(0, n - 1));
        assert(t.subrange(0, n - 1) == t.subrange(0, n as int).subrange(0, n - 1));
        lemma_digits_scan_prefix(s, t, (n - 1) as nat);
    }
}

/// The decimal digits of a number are digits, and reading them gives the
/// number.
proof fn lemma_decimal_digits(n: nat)
    requires
        n <= u32::MAX,
    ensures
        decimal(n).len() >= 1,
        forall|i: int| 0 <= i < decimal(n).len() ==> #[trigger] is_digit(decimal(n)[i]),
        digits_scan(decimal(n), decimal(n).len()) == Ok::<int, Seq<char>>(n as int),
    decreases n,
{
    if n < 10 {
        assert(decimal(n)[0] as int == n + 48);
        assert(digits_scan(decimal(n), 0) == Ok::<int, Seq<char>>(0));
        assert(decimal(n).len() == 1);
    } else {
        let d = decimal(n / 10);
        lemma_decimal_digits(n / 10);
        let s = decimal(n);
        assert(s == d.push((((n % 10) + 48) as u8) as char));
        assert(s.subrange(0, d.len() as int) =~= d.subrange(0, d.len() as int));
        lemma_digits_scan_prefix(s, d, d.len());
        assert(s[s.len() - 1] as int == n % 10 + 48);
        assert((n / 10) * 10 + n % 10 == n);
        assert(digits_scan(s, d.len()) == Ok::<int, Seq<char>>((n / 10) as int));
        assert(s.len() == d.len() + 1);
        assert(digits_scan(s, s.len()) == Ok::<int, Seq<char>>(n as int));
    }
}

/// Reading the decimal digits of a number gives the number.
pub proof fn law_decimal_round_trip(n: u32)
    ensures
        parse_u32_spec(decimal(n as nat)) == Ok::<u32, Seq<char>>(n),
        decimal(n as nat) != seq!['-'],
{
    lemma_decimal_digits(n as nat);
    let s = decimal(n as nat);
    assert(is_digit(s[0]));
    assert(s != seq!['+'] && s != seq!['-']) by {
        if s == seq!['+'] || s == seq!['-'] {
            assert(s[0] == '+' || s[0] == '-');
        }
    }
}

/// `h` with the first `f` files of rank `r` taken from `g`.
pub open spec fn rank_filled(h: Seq<Piece>, g: Seq<Piece>, r: int, f: int) -> Seq<Piece> {
    Seq::new(64, |i: int| if i / 8 == r && i % 8 < f { g[i] } else { h[i] })
}

/// `g` on its top `k` ranks, empty below.
pub open spec fn top_ranks(g: Seq<Piece>, k: int) -> Seq<Piece> {
    Seq::new(64, |i: int| if i / 8 >= 8 - k { g[i] } else { Piece(12) })
}

/// The FEN rows of `g`, rank 8 first.
pub open spec fn rows_of(g: Seq<Piece>) -> Seq<Seq<char>> {
    Seq::new(8, |j: int| row_text(g, 7 - j, 0, 0))
}

/// The grid holds 64 pieces of codes at most 12.
pub open spec fn grid_ok(g: Seq<Piece>) -> bool {
    g.len() == 64 && forall|i: int| 0 <= i < 64 ==> #[trigger] g[i].0 <= 12
}

/// A row of a FEN holds digits `1` to `8` and piece letters.
proof fn lemma_row_text_chars(g: Seq<Piece>, r: int, f: int, e: nat)
    requires
        grid_ok(g),
        0 <= r < 8,
        e <= f <= 8,
    ensures
        forall|i: int| 0 <= i < row_text(g, r, f, e).len() ==> {
            let c = #[trigger] row_text(g, r, f, e)[i];
            c != ' ' && c != '/'
        },
    decreases 8 - f,
{
    let t = row_text(g, r, f, e);
    if f < 8 {
        let pc = g[r * 8 + f];
        if pc.0 != 12 {
            lemma_row_text_chars(g, r, f + 1, 0);
            let d: Seq<char> = if e > 0 { decimal(e) } else { Seq::empty() };
            if e > 0 {
                lemma_decimal_digits(e);
            }
            let rest = row_text(g, r, f + 1, 0);
            assert(t == d + seq![piece_letter(pc.0 as int)] + rest);
            assert forall|i: int| 0 <= i < t.len() implies #[trigger] t[i] != ' ' && t[i] != '/' by {
                if i < d.len() {
                    assert(is_digit(d[i]));
                } else if i > d.len() {
                    assert(t[i] == rest[i - d.len() - 1]);
                }
            }
        } else {
            lemma_row_text_chars(g, r, f + 1, e + 1);
            assert(t == row_text(g, r, f + 1, e + 1));
        }
    } else if e > 0 {
        lemma_decimal_digits(e);
        assert forall|i: int| 0 <= i < t.len() implies #[trigger] t[i] != ' ' && t[i] != '/' by {
            assert(is_digit(t[i]));
        }
    }
}

/// Reading a row of a FEN written from rank `r` of `g` fills that rank:
/// having read `p`, which brought the files before `f - e` and left `e`
/// empty files pending, the rest of the row fills the rank to its end.
proof fn lemma_row_text_scan(g: Seq<Piece>, r: int, f: int, e: nat, p: Seq<char>, h: Seq<Piece>)
    requires
        grid_ok(g),
        h.len() == 64,
        0 <= r < 8,
        e <= f <= 8,
        forall|j: int| 0 <= j < 8 ==> #[trigger] h[r * 8 + j] == Piece(12),
        forall|j: int| f - e <= j < f ==> #[trigger] g[r * 8 + j].0 == 12,
        row_scan(p + row_text(g, r, f, e), r, h, p.len()) == Ok::<(Seq<Piece>, int), Seq<char>>(
            (rank_filled(h, g, r, f - e), f - e),
        ),
    ensures
        row_scan(p + row_text(g, r, f, e), r, h, (p + row_text(g, r, f, e)).len()) == Ok::<
            (Seq<Piece>, int),
            Seq<char>,
        >((rank_filled(h, g, r, 8), 8)),
    decreases 8 - f,
{
    let cs = p + row_text(g, r, f, e);
    assert(rank_filled(h, g, r, f - e) =~= rank_filled(h, g, r, f)) by {
        assert forall|i: int| 0 <= i < 64 implies rank_filled(h, g, r, f - e)[i] == rank_filled(h, g, r, f)[i] by {
            if i / 8 == r && f - e <= i % 8 < f {
                assert(i == r * 8 + i % 8);
                assert(g[r * 8 + i % 8].0 == 12);
                assert(h[r * 8 + i % 8] == Piece(12));
            }
        }
    }
    if f >= 8 {
        if e > 0 {
            assert(decimal(e) =~= seq![((e + 48) as u8) as char]);
            assert(cs[p.len() as int] == ((e + 48) as u8) as char);
            assert(cs.len() == p.len() + 1);
        } else {
            assert(cs =~= p);
        }
    } else {
        let pc = g[r * 8 + f];
        if pc.0 != 12 {
            let d: Seq<char> = if e > 0 { decimal(e) } else { Seq::empty() };
            let l = piece_letter(pc.0 as int);
            let p2 = p + d + seq![l];
            assert(cs =~= p2 + row_text(g, r, f + 1, 0));
            if e > 0 {
                assert(decimal(e) =~= seq![((e + 48) as u8) as char]);
                assert(cs[p.len() as int] == ((e + 48) as u8) as char);
            }
            assert(row_scan(cs, r, h, (p + d).len()) == Ok::<(Seq<Piece>, int), Seq<char>>(
                (rank_filled(h, g, r, f), f),
            ));
            assert(cs[(p + d).len() as int] == l);
            crate::piece::law_piece_letter_round_trip(pc);
            assert(rank_filled(h, g, r, f).update(r * 8 + f, Piece(pc.0)) =~= rank_filled(h, g, r, f + 1));
            assert(row_scan(cs, r, h, p2.len()) == Ok::<(Seq<Piece>, int), Seq<char>>(
                (rank_filled(h, g, r, f + 1), f + 1),
            ));
            lemma_row_text_scan(g, r, f + 1, 0, p2, h);
        } else {
            assert(row_text(g, r, f, e) == row_text(g, r, f + 1, e + 1));
            lemma_row_text_scan(g, r, f + 1, e + 1, p, h);
        }
    }
}

/// Reading the first `k` rows of the FEN of `g` gives its top `k` ranks.
proof fn lemma_grid_text_scan(g: Seq<Piece>, k: nat)
    requires
        grid_ok(g),
        k <= 8,
    ensures
        grid_scan(rows_of(g), k) == Ok::<Seq<Piece>, Seq<char>>(top_ranks(g, k as int)),
    decreases k,
{
    if k == 0 {
        assert(empty_grid() =~= top_ranks(g, 0));
    } else {
        lemma_grid_text_scan(g, (k - 1) as nat);
        let h = top_ranks(g, k - 1);
        let r = 8 - k;
        let rt = row_text(g, r, 0, 0);
        assert(rows_of(g)[k - 1] == rt);
        assert forall|j: int| 0 <= j < 8 implies #[trigger] h[r * 8 + j] == Piece(12) by {
            assert((r * 8 + j) / 8 == r);
        }
        assert(rank_filled(h, g, r, 0) =~= h);
        assert(Seq::<char>::empty() + rt =~= rt);
        lemma_row_text_scan(g, r, 0, 0, Seq::empty(), h);
        assert(rank_filled(h, g, r, 8) =~= top_ranks(g, k as int));
    }
}

/// The placement of `g` is its rows joined with `/`.
proof fn lemma_board_text_join(g: Seq<Piece>, k: nat)
    requires
        1 <= k <= 8,
    ensures
        board_text(g, k) == join(rows_of(g).subrange(0, k as int), '/') + (if k < 8 { seq!['/'] } else {
            Seq::empty()
        }),
    decreases k,
{
    let rows = rows_of(g);
    if k == 1 {
        assert(board_text(g, 0) =~= Seq::<char>::empty());
        assert(join(rows.subrange(0, 1), '/') == rows[0]);
        assert(board_text(g, 1) =~= rows[0] + seq!['/']);
    } else {
        lemma_board_text_join(g, (k - 1) as nat);
        assert(rows.subrange(0, k as int).drop_last() =~= rows.subrange(0, k - 1));
        assert(rows.subrange(0, k as int).last() == rows[k - 1]);
        assert(board_text(g, k) =~= join(rows.subrange(0, k as int), '/') + (if k < 8 { seq!['/'] } else {
            Seq::empty()
        }));
    }
}

/// Reading the placement of `g` gives `g` back; the placement holds no
/// space.
proof fn lemma_placement_round_trip(g: Seq<Piece>)
    requires
        grid_ok(g),
    ensures
        placement(board_text(g, 8)) == Ok::<Seq<Piece>, Seq<char>>(g),
        forall|i: int| 0 <= i < board_text(g, 8).len() ==> #[trigger] board_text(g, 8)[i] != ' ',
{
    let rows = rows_of(g);
    let board = board_text(g, 8);
    assert forall|k: int, i: int| 0 <= k < rows.len() && 0 <= i < rows[k].len() implies #[trigger] rows[k][i] != '/'
        && rows[k][i] != ' ' by {
        lemma_row_text_chars(g, 7 - k, 0, 0);
    }
    lemma_board_text_join(g, 8);
    assert(rows.subrange(0, 8) =~= rows);
    assert(board == join(rows, '/'));
    lemma_split_join(rows, '/');
    lemma_grid_text_scan(g, 8);
    assert(top_ranks(g, 8) =~= g);
    assert forall|i: int| 0 <= i < board.len() implies #[trigger] board[i] != ' ' by {
        lemma_join_chars(rows, '/', i);
    }
}

/// Reading the FEN of a position gives the position back: its grid and its
/// state, without the list of earlier hashes, which a FEN does not hold.
#[verifier::rlimit(40)]
pub proof fn law_fen_round_trip(g: Seq<Piece>, st: State)
    requires
        grid_ok(g),
        st.sound(),
    ensures
        parse_fen(fen_text(g, st)) == Ok::<(Seq<Piece>, StateView), Seq<char>>(
            (
                g,
                StateView {
                    side_to_move: st.side_to_move,
                    castling_rights: st.castling_rights,
                    en_passant_target: st.en_passant_target,
                    halfmove_clock: st.halfmove_clock,
                    fullmove_number: st.fullmove_number,
                    prev_hashes: None,
                },
            ),
        ),
{
    let board = board_text(g, 8);
    lemma_placement_round_trip(g);
    let side = seq![st.side_to_move.letter()];
    let rights = rights_text(st.castling_rights.0);
    let ep = match st.en_passant_target {
        Some(sq) => sq.name_spec(),
        None => seq!['-'],
    };
    let hmc = decimal(st.halfmove_clock as nat);
    let fmn = decimal(st.fullmove_number as nat);
    let fields = fen_fields(g, st);
    assert(fields == seq![board, side, rights, ep, hmc, fmn]);
    lemma_fen_fields(g, st);
    lemma_split_join(fields, ' ');
    assert(split(fen_text(g, st), ' ') == fields);
    crate::castle::law_rights_text_round_trip(st.castling_rights.0);
    law_decimal_round_trip(st.halfmove_clock);
    law_decimal_round_trip(st.fullmove_number);
    if let Some(sq) = st.en_passant_target {
        crate::square::law_square_name_round_trip(sq);
    }
    if st.side_to_move.0 == 0 {
        assert(side =~= seq!['w']);
    } else {
        assert(side =~= seq!['b']);
        assert(side != seq!['w']) by {
            if side == seq!['w'] {
                assert(side[0] == 'w');
            }
        }
    }
    assert(parse_side(side) == Ok::<Side, Seq<char>>(st.side_to_move));
}

/// The six fields of the FEN of a position, in order.
pub open spec fn fen_fields(g: Seq<Piece>, st: State) -> Seq<Seq<char>> {
    seq![
        board_text(g, 8),
        seq![st.side_to_move.letter()],
        rights_text(st.castling_rights.0),
        match st.en_passant_target {
            Some(sq) => sq.name_spec(),
            None => seq!['-'],
        },
        decimal(st.halfmove_clock as nat),
        decimal(st.fullmove_number as nat),
    ]
}

/// The FEN of a position is its six fields joined with spaces, none of which
/// holds a space.
proof fn lemma_fen_fields(g: Seq<Piece>, st: State)
    requires
        grid_ok(g),
        st.sound(),
        forall|i: int| 0 <= i < board_text(g, 8).len() ==> #[trigger] board_text(g, 8)[i] != ' ',
    ensures
        fen_text(g, st) == join(fen_fields(g, st), ' '),
        forall|k: int, i: int|
            0 <= k < fen_fields(g, st).len() && 0 <= i < fen_fields(g, st)[k].len() ==> #[trigger] fen_fields(
                g,
                st,
            )[k][i] != ' ',
{
    let fields = fen_fields(g, st);
    let board = board_text(g, 8);
    let hmc = decimal(st.halfmove_clock as nat);
    let fmn = decimal(st.fullmove_number as nat);
    reveal_with_fuel(join, 7);
    assert(fen_text(g, st) =~= join(fields, ' '));
    lemma_decimal_digits(st.halfmove_clock as nat);
    lemma_decimal_digits(st.fullmove_number as nat);
    assert forall|k: int, i: int| 0 <= k < fields.len() && 0 <= i < fields[k].len() implies #[trigger] fields[k][i]
        != ' ' by {
        if k == 0 {
            assert(board[i] != ' ');
        } else if k == 4 {
            assert(is_digit(hmc[i]));
        } else if k == 5 {
            assert(is_digit(fmn[i]));
        }
    }
}

/// A character of fields joined with a separator is the separator or a
/// character of a field.
proof fn lemma_join_chars(fs: Seq<Seq<char>>, sep: char, i: int)
    requires
        0 <= i < join(fs, sep).len(),
    ensures
        join(fs, sep)[i] == sep || exists|k: int, j: int| 0 <= k < fs.len() && 0 <= j < fs[k].len() && fs[k][j]
            == join(fs, sep)[i],
    decreases fs.len(),
{
    if fs.len() > 1 {
        let init = fs.drop_last();
        let a = join(init, sep);
        if i < a.len() {
            lemma_join_chars(init, sep, i);
            if join(fs, sep)[i] != sep {
                let (k, j) = choose|k: int, j: int| 0 <= k < init.len() && 0 <= j < init[k].len() && init[k][j] == join(
                    init,
                    sep,
                )[i];
                assert(fs[k] == init[k]);
            }
        } else if i > a.len() {
            assert(join(fs, sep)[i] == fs.last()[i - a.len() - 1]);
            assert(fs[fs.len() - 1] == fs.last());
        }
    } else {
        assert(join(fs, sep)[i] == fs[0][i]);
    }
}

} // verus!
