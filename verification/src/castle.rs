//! Castles and castling rights.
use vstd::prelude::*;
use crate::side::Side;
use crate::text::{str_chars, message_char, push_char};

verus! {

pub const KING_SIDE: u8 = 0;
pub const QUEEN_SIDE: u8 = 1;

/// A castle: `0` on the king side, `1` on the queen side.
#[derive(Clone, Copy, Debug, PartialEq, Eq, Structural)]
pub struct Castle(pub u8);

/// Castling rights, one bit each: white king side (1), white queen side (2),
/// black king side (4), black queen side (8).
#[derive(Clone, Copy, Debug, PartialEq, Eq, Structural)]
pub struct CastlingRights(pub u8);

/// The right that the FEN letter `c` grants, if any.
pub open spec fn right_of_letter(c: char) -> Option<u8> {
    if c == 'K' { Some(1u8) } else if c == 'Q' { Some(2u8) } else if c == 'k' { Some(4u8) }
    else if c == 'q' { Some(8u8) } else { None }
}

/// The rights granted by the first `n` letters of `s`, OR-ed together, or the
/// first letter that grants none.
pub open spec fn rights_union(s: Seq<char>, n: nat) -> Result<u8, char>
    decreases n,
{
    if n == 0 {
        Ok(0u8)
    } else {
        match rights_union(s, (n - 1) as nat) {
            Err(c) => Err(c),
            Ok(r) => match right_of_letter(s[n - 1]) {
                Some(b) => Ok(r | b),
                None => Err(s[n - 1]),
            },
        }
    }
}

/// The rights of the first `n` letters of `s`, each letter toggling its right.
pub open spec fn rights_toggled(s: Seq<char>, n: nat) -> u8
    decreases n,
{
    if n == 0 {
        0
    } else {
        match right_of_letter(s[n - 1]) {
            Some(b) => rights_toggled(s, (n - 1) as nat) ^ b,
            None => rights_toggled(s, (n - 1) as nat),
        }
    }
}

/// The FEN field of the rights `r`: the letters `K`, `Q`, `k`, `q` of the
/// rights held, in that order, or `-` for none.
pub open spec fn rights_text(r: u8) -> Seq<char> {
    if r & 15 == 0 {
        seq!['-']
    } else {
        (if r & 1 != 0 { seq!['K'] } else { Seq::empty() }) + (if r & 2 != 0 { seq!['Q'] } else {
            Seq::empty()
        }) + (if r & 4 != 0 { seq!['k'] } else { Seq::empty() }) + (if r & 8 != 0 { seq!['q'] } else {
            Seq::empty()
        })
    }
}

impl Castle {
    /// The notation of this castle: `O-O-O` on the queen side, `O-O` otherwise.
    pub fn notation(&self) -> (r: String)
        ensures
            self.0 == QUEEN_SIDE ==> r@ == "O-O-O"@,
            self.0 != QUEEN_SIDE ==> r@ == "O-O"@,
    {
        if self.0 == QUEEN_SIDE {
            String::from_str("O-O-O")
        } else {
            String::from_str("O-O")
        }
    }
}

impl CastlingRights {
    /// Removes the given rights.
    pub fn clear(&mut self, rights: CastlingRights)
        ensures
            final(self).0 == old(self).0 & !rights.0,
    {
        self.0 = self.0 & !rights.0;
    }

    /// Removes the rights `0b11 << side`.
    pub fn clear_side(&mut self, side: Side)
        requires
            side.valid(),
        ensures
            final(self).0 == old(self).0 & !(3u8 << side.0),
    {
        let rights: u8 = 3u8 << side.0;
        self.0 = self.0 & !rights;
    }

    /// Whether `side` may castle on the side of `castle`.
    pub fn has(self, castle: Castle, side: Side) -> (r: bool)
        requires
            castle.0 <= 1,
            side.valid(),
        ensures
            r == ((self.0 >> (2 * side.0 + castle.0) as u8) & 1 == 1),
    {
        let i: u8 = 2 * side.0 + castle.0;
        proof {
            let x = self.0;
            assert(i < 8 ==> ((x & (1u8 << i) != 0) == ((x >> i) & 1 == 1))) by (bit_vector);
        }
        self.0 & (1u8 << i) != 0
    }

    /// Reads the castling field of a FEN: `-`, or letters among `KQkq`, whose
    /// rights are joined; any other letter is refused.
    pub fn try_from_str(s: &str) -> (r: Result<CastlingRights, String>)
        ensures
            s@ == seq!['-'] ==> r == Ok::<CastlingRights, String>(CastlingRights(0)),
            s@ != seq!['-'] ==> match rights_union(s@, s@.len()) {
                Ok(x) => r == Ok::<CastlingRights, String>(CastlingRights(x)),
                Err(c) => r matches Err(e) && e@ == "Invalid castling rights: "@.push(c),
            },
    {
        let cs = str_chars(s);
        if cs.len() == 1 && cs[0] == '-' {
            assert(s@ =~= seq!['-']);
            return Ok(CastlingRights(0));
        }
        proof {
            if s@ == seq!['-'] {
                assert(cs@.len() == 1 && cs@[0] == '-');
            }
        }
        let mut rights: u8 = 0;
        let mut i: usize = 0;
        while i < cs.len()
            invariant
                cs@ == s@,
                i <= cs.len(),
                s@ != seq!['-'],
                rights_union(s@, i as nat) == Ok::<u8, char>(rights),
            decreases cs.len() - i,
        {
            let c = cs[i];
            if c == 'K' {
                rights = rights | 1;
            } else if c == 'Q' {
                rights = rights | 2;
            } else if c == 'k' {
                rights = rights | 4;
            } else if c == 'q' {
                rights = rights | 8;
            } else {
                proof {
                    assert(rights_union(s@, (i + 1) as nat) == Err::<u8, char>(c));
                    lemma_union_stays_err(s@, (i + 1) as nat, s@.len(), c);
                }
                return Err(message_char("Invalid castling rights: ", c));
            }
            i = i + 1;
        }
        Ok(CastlingRights(rights))
    }

    /// Reads castling rights from `-` or letters among `KQkq`, each letter
    /// toggling its right.
    pub fn from_str(s: &str) -> (r: Self)
        requires
            s@ == seq!['-'] || forall|i: int| 0 <= i < s@.len() ==> right_of_letter(s@[i]) is Some,
        ensures
            s@ == seq!['-'] ==> r.0 == 0,
            s@ != seq!['-'] ==> r.0 == rights_toggled(s@, s@.len()),
    {
        let cs = str_chars(s);
        if cs.len() == 1 && cs[0] == '-' {
            assert(s@ =~= seq!['-']);
            return CastlingRights(0);
        }
        proof {
            if s@ == seq!['-'] {
                assert(cs@.len() == 1 && cs@[0] == '-');
            }
        }
        let mut rights: u8 = 0;
        let mut i: usize = 0;
        while i < cs.len()
            invariant
                cs@ == s@,
                i <= cs.len(),
                s@ != seq!['-'],
                forall|j: int| 0 <= j < s@.len() ==> right_of_letter(s@[j]) is Some,
                rights == rights_toggled(s@, i as nat),
            decreases cs.len() - i,
        {
            let c = cs[i];
            assert(right_of_letter(s@[i as int]) is Some);
            if c == 'K' {
                rights = rights ^ 1;
            } else if c == 'Q' {
                rights = rights ^ 2;
            } else if c == 'k' {
                rights = rights ^ 4;
            } else {
                rights = rights ^ 8;
            }
            i = i + 1;
        }
        CastlingRights(rights)
    }

    /// The rights as a number `0..16`.
    pub fn to_usize(&self) -> (r: usize)
        ensures
            r == self.0,
    {
        self.0 as usize
    }

    /// The FEN field of these rights.
    pub fn to_text(&self) -> (r: String)
        ensures
            r@ == rights_text(self.0),
    {
        let x = self.0;
        if x & 15 == 0 {
            let r = String::from_str("-");
            proof {
                reveal_strlit("-");
            }
            assert(r@ =~= rights_text(x));
            return r;
        }
        let mut r = String::new();
        if x & 1 != 0 {
            push_char(&mut r, 'K');
        }
        if x & 2 != 0 {
            push_char(&mut r, 'Q');
        }
        if x & 4 != 0 {
            push_char(&mut r, 'k');
        }
        if x & 8 != 0 {
            push_char(&mut r, 'q');
        }
        assert(r@ =~= rights_text(x));
        r
    }
}

proof fn lemma_union_stays_err(s: Seq<char>, i: nat, n: nat, c: char)
    requires
        i <= n,
        rights_union(s, i) == Err::<u8, char>(c),
    ensures
        rights_union(s, n) == Err::<u8, char>(c),
    decreases n - i,
{
    if i < n {
        lemma_union_stays_err(s, i, (n - 1) as nat, c);
    }
}

/// The union of the rights of the first `n` letters depends on those letters
/// only.
proof fn lemma_rights_union_prefix(s: Seq<char>, t: Seq<char>, n: nat)
    requires
        n <= s.len(),
        n <= t.len(),
        s.subrange(0, n as int) == t.subrange(0, n as int),
    ensures
        rights_union(s, n) == rights_union(t, n),
    decreases n,
{
    if n > 0 {
        assert(s[n - 1] == s.subrange(0, n as int)[n - 1]);
        assert(t[n - 1] == t.subrange(0, n as int)[n - 1]);
        assert(s.subrange(0, n - 1) == s.subrange(0, n as int).subrange(0, n - 1));
        assert(t.subrange(0, n - 1) == t.subrange(0, n as int).subrange(0, n - 1));
        lemma_rights_union_prefix(s, t, (n - 1) as nat);
    }
}

/// The union of the rights of `x` followed by the letter of a right or
/// nothing.
proof fn lemma_rights_union_step(x: Seq<char>, held: bool, c: char, b: u8)
    requires
        right_of_letter(c) == Some(b),
        rights_union(x, x.len()) is Ok,
    ensures
        ({
            let y = x + (if held { seq![c] } else { Seq::empty() });
            rights_union(y, y.len()) == (if held {
                Ok::<u8, char>(rights_union(x, x.len())->Ok_0 | b)
            } else {
                rights_union(x, x.len())
            })
        }),
{
    let y = x + (if held { seq![c] } else { Seq::empty() });
    if held {
        assert(y.subrange(0, x.len() as int) =~= x.subrange(0, x.len() as int));
        lemma_rights_union_prefix(y, x, x.len());
        assert(y[y.len() - 1] == c);
    } else {
        assert(y =~= x);
    }
}

/// The bits of four rights, set one after the other, make up the rights.
proof fn lemma_rights_bits(r: u8)
    by (bit_vector)
    requires
        r < 16,
    ensures
        ({
            let u1 = if r & 1 != 0 { 0u8 | 1u8 } else { 0u8 };
            let u2 = if r & 2 != 0 { u1 | 2u8 } else { u1 };
            let u3 = if r & 4 != 0 { u2 | 4u8 } else { u2 };
            let u4 = if r & 8 != 0 { u3 | 8u8 } else { u3 };
            u4 == r && (r & 15 == 0 <==> r == 0)
        }),
{
}

/// Reading the FEN field of castling rights gives the rights back: `-` for
/// none, otherwise the union of the rights of its letters.
pub proof fn law_rights_text_round_trip(r: u8)
    requires
        r < 16,
    ensures
        rights_text(r) == seq!['-'] <==> r == 0,
        r != 0 ==> rights_union(rights_text(r), rights_text(r).len()) == Ok::<u8, char>(r),
{
    lemma_rights_bits(r);
    if r & 15 != 0 {
        let a: Seq<char> = Seq::empty() + (if r & 1 != 0 { seq!['K'] } else { Seq::empty() });
        let b = a + (if r & 2 != 0 { seq!['Q'] } else { Seq::empty() });
        let c = b + (if r & 4 != 0 { seq!['k'] } else { Seq::empty() });
        let d = c + (if r & 8 != 0 { seq!['q'] } else { Seq::empty() });
        lemma_rights_union_step(Seq::empty(), r & 1 != 0, 'K', 1);
        lemma_rights_union_step(a, r & 2 != 0, 'Q', 2);
        lemma_rights_union_step(b, r & 4 != 0, 'k', 4);
        lemma_rights_union_step(c, r & 8 != 0, 'q', 8);
        assert(d =~= rights_text(r));
        assert(rights_text(r) != seq!['-']) by {
            if rights_text(r) == seq!['-'] {
                assert(d[0] == '-');
            }
        }
    }
}

} // verus!
