//! The squares of a bitboard as an ascending list, and the loop that visits them.
use vstd::prelude::*;
use vstd::std_specs::bits::{u64_trailing_zeros, axiom_u64_trailing_zeros};
use crate::bits::{bit, popcount, popcount_below, lemma_bit_and, lemma_bit_single};

verus! {

/// The squares of `b`, in ascending order.
pub open spec fn squares(b: u64) -> Seq<u8>
    decreases b,
{
    if b == 0 {
        Seq::empty()
    } else {
        let t = u64_trailing_zeros(b);
        proof {
            axiom_u64_trailing_zeros(b);
            lemma_clear_lowest_smaller(b, t as u64);
        }
        seq![t as u8].add(squares(b ^ (1u64 << t)))
    }
}

pub proof fn lemma_clear_lowest_smaller(b: u64, t: u64)
    requires
        b != 0,
        t < 64,
        (b >> t) & 1 == 1,
    ensures
        b ^ (1u64 << t) < b,
{
    assert(b ^ (1u64 << t) < b) by (bit_vector)
        requires t < 64, (b >> t) & 1 == 1;
}

/// The least square of a non-empty set: its bit is set and no lower bit is.
pub proof fn lemma_lowest(b: u64)
    requires
        b != 0,
    ensures
        u64_trailing_zeros(b) < 64,
        bit(b, u64_trailing_zeros(b) as int),
        forall|j: int| 0 <= j < u64_trailing_zeros(b) ==> !bit(b, j),
        squares(b) == seq![u64_trailing_zeros(b) as u8].add(squares(b ^ (1u64 << u64_trailing_zeros(b)))),
{
    axiom_u64_trailing_zeros(b);
    let t = u64_trailing_zeros(b);
    assert forall|j: int| 0 <= j < t implies !bit(b, j) by {
        let k = j as u64;
        assert((b >> k) & 1u64 == 0u64);
    }
}

/// Clearing a set bit lowers the count by one.
proof fn lemma_popcount_clear(b: u64, t: u64, n: nat)
    requires
        t < 64,
        bit(b, t as int),
        n <= 64,
    ensures
        n > t ==> popcount_below(b ^ (1u64 << t), n) + 1 == popcount_below(b, n),
        n <= t ==> popcount_below(b ^ (1u64 << t), n) == popcount_below(b, n),
    decreases n,
{
    if n > 0 {
        lemma_popcount_clear(b, t, (n - 1) as nat);
        lemma_bit_and(b, 1u64 << t, n - 1);
        lemma_bit_single(t, n - 1);
    }
}

/// A set has as many squares as set bits, all of them squares of the board
/// holding a set bit, none repeated, ascending.
pub proof fn lemma_squares(b: u64)
    ensures
        squares(b).len() == popcount(b),
        forall|k: int| 0 <= k < squares(b).len() ==> #[trigger] squares(b)[k] < 64 && bit(b, squares(b)[k] as int),
        forall|i: int| 0 <= i < 64 && bit(b, i) ==> squares(b).contains(i as u8),
        forall|k: int, l: int| 0 <= k < l < squares(b).len() ==> squares(b)[k] < squares(b)[l],
    decreases b,
{
    if b == 0 {
        assert forall|i: int| !bit(b, i) by {
            lemma_bit_and(b, b, i);
        }
        lemma_popcount_zero(64);
    } else {
        lemma_lowest(b);
        let t = u64_trailing_zeros(b) as u64;
        let rest = b ^ (1u64 << t);
        lemma_clear_lowest_smaller(b, t);
        lemma_squares(rest);
        lemma_popcount_clear(b, t, 64);
        assert forall|i: int| 0 <= i < 64 implies bit(rest, i) == (bit(b, i) && i != t) by {
            lemma_bit_and(b, 1u64 << t, i);
            lemma_bit_single(t, i);
        }
        let s = squares(b);
        assert forall|k: int| 0 <= k < s.len() implies #[trigger] s[k] < 64 && bit(b, s[k] as int) by {
            if k > 0 {
                assert(s[k] == squares(rest)[k - 1]);
            }
        }
        assert forall|i: int| 0 <= i < 64 && bit(b, i) implies s.contains(i as u8) by {
            if i == t {
                assert(s[0] == i as u8);
            } else {
                assert(squares(rest).contains(i as u8));
                let k = choose|k: int| 0 <= k < squares(rest).len() && squares(rest)[k] == i as u8;
                assert(s[k + 1] == i as u8);
            }
        }
        assert forall|k: int, l: int| 0 <= k < l < s.len() implies s[k] < s[l] by {
            assert(s[l] == squares(rest)[l - 1]);
            assert(bit(rest, s[l] as int));
            if k > 0 {
                assert(s[k] == squares(rest)[k - 1]);
            } else {
                assert(s[l] as int != t as int);
                assert(bit(b, s[l] as int));
            }
        }
    }
}

proof fn lemma_popcount_zero(n: nat)
    requires
        n <= 64,
    ensures
        popcount_below(0, n) == 0,
    decreases n,
{
    if n > 0 {
        lemma_popcount_zero((n - 1) as nat);
        lemma_bit_and(0, 0, n - 1);
    }
}

} // verus!
