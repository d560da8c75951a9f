//! The two sides of a game.
use vstd::prelude::*;
use crate::text::{str_chars, message};

verus! {

/// A side: `0` is white, `1` is black.
#[derive(Clone, Copy, Debug, PartialEq, Eq, Structural)]
pub struct Side(pub u8);


impl Side {
    /// A valid side is white or black.
    pub open spec fn valid(self) -> bool {
        self.0 <= 1
    }

    /// The opposite side.
    pub open spec fn other(self) -> Side {
        Side((1 - self.0) as u8)
    }

    /// The FEN letter of this side.
    pub open spec fn letter(self) -> char {
        if self.0 == 0 { 'w' } else { 'b' }
    }

    /// Parses the side-to-move field of a FEN: `w` or `b`.
    pub fn try_from_str(s: &str) -> (r: Result<Side, String>)
        ensures
            s@ == seq!['w'] ==> r == Ok::<Side, String>(Side(0)),
            s@ == seq!['b'] ==> r == Ok::<Side, String>(Side(1)),
            s@ != seq!['w'] && s@ != seq!['b'] ==> (r matches Err(e) && e@ == "Invalid side: "@ + s@),
    {
        let cs = str_chars(s);
        if cs.len() == 1 && cs[0] == 'w' {
            assert(s@ =~= seq!['w']);
            Ok(Side(0))
        } else if cs.len() == 1 && cs[0] == 'b' {
            assert(s@ =~= seq!['b']);
            Ok(Side(1))
        } else {
            assert(s@ != seq!['w'] && s@ != seq!['b']) by {
                if s@ == seq!['w'] || s@ == seq!['b'] {
                    assert(cs@.len() == 1);
                }
            }
            Err(message("Invalid side: ", s))
        }
    }

    /// The FEN letter of this side.
    pub fn to_char(self) -> (c: char)
        ensures
            c == self.letter(),
    {
        if self.0 == 0 { 'w' } else { 'b' }
    }
}

impl core::ops::Not for Side {
    type Output = Side;

    fn not(self) -> (r: Side) {
        Side(1 - self.0)
    }
}

impl vstd::std_specs::ops::NotSpecImpl for Side {
    open spec fn obeys_not_spec() -> bool {
        true
    }

    open spec fn not_req(self) -> bool {
        self.valid()
    }

    open spec fn not_spec(self) -> Side {
        self.other()
    }
}

/// The opposite of the opposite of white or black is the side itself, and
/// it differs from its opposite.
pub proof fn law_other_twice(s: Side)
    requires
        s.valid(),
    ensures
        s.other().other() == s,
        s.other() != s,
        s.other().valid(),
{
}

} // verus!
