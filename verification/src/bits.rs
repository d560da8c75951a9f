//! Bit-level vocabulary shared by the bitboard code: the meaning of a set bit,
//! the number of set bits, rotation, and the lemmas that connect the bitwise
//! operators to these meanings.
use vstd::prelude::*;

verus! {

/// Bit `i` of `x` is set (false for any `i` outside `0..64`).
pub open spec fn bit(x: u64, i: int) -> bool {
    0 <= i < 64 && (x >> (i as u64)) & 1 == 1
}

/// The number of set bits of `x` among bits `0..n`.
pub open spec fn popcount_below(x: u64, n: nat) -> nat
    decreases n,
{
    if n == 0 {
        0
    } else {
        popcount_below(x, (n - 1) as nat) + if bit(x, n - 1) { 1nat } else { 0nat }
    }
}

/// The number of set bits of `x`.
pub open spec fn popcount(x: u64) -> nat {
    popcount_below(x, 64)
}

/// `x` rotated left by `n` positions, `0 <= n < 64`.
pub open spec fn rotl(x: u64, n: u64) -> u64 {
    if n == 0 {
        x
    } else {
        (x << n) | (x >> ((64 - n) as u64))
    }
}

pub proof fn lemma_bit_ops(x: u64, y: u64, i: u64)
    by (bit_vector)
    requires
        i < 64,
    ensures
        ((x & y) >> i) & 1 == 1 <==> ((x >> i) & 1 == 1 && (y >> i) & 1 == 1),
        ((x | y) >> i) & 1 == 1 <==> ((x >> i) & 1 == 1 || (y >> i) & 1 == 1),
        ((x ^ y) >> i) & 1 == 1 <==> ((x >> i) & 1 == 1) != ((y >> i) & 1 == 1),
        ((!x) >> i) & 1 == 1 <==> !((x >> i) & 1 == 1),
        ((1u64 << i) >> i) & 1 == 1,
        (0u64 >> i) & 1 != 1,
{
}

/// The bitwise operators act bit by bit.
pub proof fn lemma_bit_and(x: u64, y: u64, i: int)
    ensures
        bit(x & y, i) == (bit(x, i) && bit(y, i)),
        bit(x | y, i) == (bit(x, i) || bit(y, i)),
        bit(x ^ y, i) == (bit(x, i) != bit(y, i)),
        bit(!x, i) == (0 <= i < 64 && !bit(x, i)),
        !bit(0, i),
{
    if 0 <= i < 64 {
        lemma_bit_ops(x, y, i as u64);
    }
}

/// `1 << s` has exactly bit `s` set.
pub proof fn lemma_bit_single(s: u64, i: int)
    requires
        s < 64,
    ensures
        bit(1u64 << s, i) == (i == s),
{
    if 0 <= i < 64 {
        let j = i as u64;
        assert(((1u64 << s) >> j) & 1 == 1 <==> j == s) by (bit_vector)
            requires s < 64, j < 64;
    }
}

/// `1 << s` has exactly bit `s` set, for a small shift amount.
pub proof fn lemma_bit_single_u8(s: u8, i: int)
    requires
        s < 64,
    ensures
        bit(1u64 << s, i) == (i == s),
        forall|j: int| #![trigger bit(1u64 << s, j)] bit(1u64 << s, j) == (j == s),
{
    assert forall|j: int| #![trigger bit(1u64 << s, j)] bit(1u64 << s, j) == (j == s) by {
        if 0 <= j < 64 {
            let k = j as u64;
            assert(((1u64 << s) >> k) & 1 == 1 <==> k == s) by (bit_vector)
                requires s < 64, k < 64;
        }
    }
}

/// Two words with the same bits are equal.
pub proof fn lemma_bits_ext(x: u64, y: u64)
    requires
        forall|i: int| 0 <= i < 64 ==> bit(x, i) == bit(y, i),
    ensures
        x == y,
{
    if x != y {
        let d = x ^ y;
        assert(d != 0) by (bit_vector) requires d == x ^ y, x != y;
        vstd::std_specs::bits::axiom_u64_trailing_zeros(d);
        let t = d.trailing_zeros();
        assert(t < 64);
        lemma_bit_and(x, y, t as int);
        assert(bit(d, t as int));
    }
}

/// Counting the set bits of `x` one position at a time.
pub fn count_ones(x: u64) -> (r: u8)
    ensures
        r as nat == popcount(x),
{
    let mut i: u64 = 0;
    let mut count: u8 = 0;
    while i < 64
        invariant
            i <= 64,
            count as nat == popcount_below(x, i as nat),
            count <= i,
        decreases 64 - i,
    {
        let b = (x >> i) & 1;
        proof {
            assert(b == 1 || b == 0) by (bit_vector)
                requires b == (x >> i) & 1;
        }
        if b == 1 {
            count = count + 1;
        }
        i = i + 1;
    }
    count
}

/// Rotating the bits of `x` to the left by `n` positions.
pub fn rotate_left(x: u64, n: u32) -> (r: u64)
    ensures
        r == rotl(x, (n % 64) as u64),
{
    let k: u64 = (n % 64) as u64;
    if k == 0 {
        x
    } else {
        (x << k) | (x >> (64 - k))
    }
}

} // verus!
