//! What the sliding-attack words mean square by square: a target square is
//! attacked along a direction when, walking back from it, one meets a slider
//! after passing only empty squares, without leaving the board.
use vstd::prelude::*;
use crate::bits::{bit, lemma_bit_and};
use crate::board::{
    step, slide, ray_attacks, north_spec, south_spec, east_spec, west_spec, north_east_spec,
    north_west_spec, south_east_spec, south_west_spec, NOT_FILE_A, NOT_FILE_H, ALL_SQUARES,
};

verus! {

/// The file (`0` = a) of square `i`.
pub open spec fn file_of(i: int) -> int {
    i % 8
}

/// The rank (`0` = first rank) of square `i`.
pub open spec fn rank_of(i: int) -> int {
    i / 8
}

/// Whether file `f` and rank `r` name a square of the board.
pub open spec fn on_board(f: int, r: int) -> bool {
    0 <= f < 8 && 0 <= r < 8
}

/// The square on file `f` and rank `r`.
pub open spec fn square_at(f: int, r: int) -> int {
    r * 8 + f
}

/// The square on file `f`, rank `r` is attacked from `gen` along the direction
/// `(df, dr)` within `n` steps: the square one step back (at `(f - df, r - dr)`)
/// is on the board and either holds a slider of `gen`, or is empty and is
/// itself attacked within `n - 1` steps.
pub open spec fn ray_hit(gen: u64, empty: u64, df: int, dr: int, f: int, r: int, n: nat) -> bool
    decreases n,
{
    if n == 0 {
        false
    } else {
        let pf = f - df;
        let pr = r - dr;
        on_board(pf, pr) && (bit(gen, square_at(pf, pr)) || (bit(empty, square_at(pf, pr))
            && ray_hit(gen, empty, df, dr, pf, pr, (n - 1) as nat)))
    }
}

/// The squares reached from `gen` by exactly `k` steps through `prop`.
pub open spec fn fill(gen: u64, prop: u64, left: bool, s: u64, k: nat) -> u64
    decreases k,
{
    if k == 0 {
        gen
    } else {
        step(fill(gen, prop, left, s, (k - 1) as nat), left, s) & prop
    }
}

/// The squares reached from `gen` by at most `k` steps through `prop`.
pub open spec fn fill_union(gen: u64, prop: u64, left: bool, s: u64, k: nat) -> u64
    decreases k,
{
    if k == 0 {
        gen
    } else {
        fill_union(gen, prop, left, s, (k - 1) as nat) | fill(gen, prop, left, s, k)
    }
}

/// One masked step along `(df, dr)` moves each square to its neighbour in that
/// direction, dropping the squares that would leave the board.
pub open spec fn step_moves(left: bool, s: u64, mask: u64, df: int, dr: int) -> bool {
    forall|x: u64, t: int|
        0 <= t < 64 ==> #[trigger] bit(step(x, left, s) & mask, t) == (on_board(
            file_of(t) - df,
            rank_of(t) - dr,
        ) && bit(x, square_at(file_of(t) - df, rank_of(t) - dr)))
}

proof fn lemma_slide_is_union(gen: u64, prop: u64, left: bool, s: u64)
    ensures
        slide(gen, prop, left, s) == fill_union(gen, prop, left, s, 7),
{
    reveal_with_fuel(fill, 8);
    reveal_with_fuel(fill_union, 8);
}

proof fn lemma_union_member(
    gen: u64,
    empty: u64,
    left: bool,
    s: u64,
    mask: u64,
    df: int,
    dr: int,
    m: nat,
    y: int,
)
    requires
        step_moves(left, s, mask, df, dr),
        0 <= y < 64,
        m >= 1,
    ensures
        bit(fill_union(gen, empty & mask, left, s, m), y) == (bit(gen, y) || (bit(empty, y)
            && on_board(file_of(y) - df, rank_of(y) - dr) && bit(
            fill_union(gen, empty & mask, left, s, (m - 1) as nat),
            square_at(file_of(y) - df, rank_of(y) - dr),
        ))),
    decreases m,
{
    let prop = empty & mask;
    let p = square_at(file_of(y) - df, rank_of(y) - dr);
    let onb = on_board(file_of(y) - df, rank_of(y) - dr);
    let fm = fill(gen, prop, left, s, m);
    let fm1 = fill(gen, prop, left, s, (m - 1) as nat);
    // the newest layer
    lemma_bit_and(step(fm1, left, s), prop, y);
    lemma_bit_and(empty, mask, y);
    lemma_bit_and(step(fm1, left, s), mask, y);
    assert(bit(step(fm1, left, s) & mask, y) == (onb && bit(fm1, p)));
    assert(bit(fm, y) == (bit(empty, y) && onb && bit(fm1, p)));
    lemma_bit_and(fill_union(gen, prop, left, s, (m - 1) as nat), fm, y);
    if m == 1 {
        assert(fill_union(gen, prop, left, s, 0) == gen);
        assert(fm1 == gen);
    } else {
        lemma_union_member(gen, empty, left, s, mask, df, dr, (m - 1) as nat, y);
        let u2 = fill_union(gen, prop, left, s, (m - 2) as nat);
        let u1 = fill_union(gen, prop, left, s, (m - 1) as nat);
        assert(u1 == u2 | fm1);
        if onb {
            assert(0 <= p < 64);
            lemma_bit_and(u2, fm1, p);
        }
    }
}

proof fn lemma_hit_is_union(
    gen: u64,
    empty: u64,
    left: bool,
    s: u64,
    mask: u64,
    df: int,
    dr: int,
    n: nat,
    t: int,
)
    requires
        step_moves(left, s, mask, df, dr),
        0 <= t < 64,
        n >= 1,
        -1 <= df <= 1,
        -1 <= dr <= 1,
    ensures
        ray_hit(gen, empty, df, dr, file_of(t), rank_of(t), n) == (on_board(
            file_of(t) - df,
            rank_of(t) - dr,
        ) && bit(
            fill_union(gen, empty & mask, left, s, (n - 1) as nat),
            square_at(file_of(t) - df, rank_of(t) - dr),
        )),
    decreases n,
{
    let pf = file_of(t) - df;
    let pr = rank_of(t) - dr;
    let p = square_at(pf, pr);
    if on_board(pf, pr) {
        assert(file_of(p) == pf && rank_of(p) == pr);
        assert(0 <= p < 64);
        if n == 1 {
            assert(!ray_hit(gen, empty, df, dr, pf, pr, 0));
            assert(fill_union(gen, empty & mask, left, s, 0) == gen);
        } else {
            lemma_union_member(gen, empty, left, s, mask, df, dr, (n - 1) as nat, p);
            lemma_hit_is_union(gen, empty, left, s, mask, df, dr, (n - 1) as nat, p);
        }
    }
}

/// Bit `j` of a word shifted by one step in each of the eight directions.
proof fn lemma_step_bits(x: u64, j: u64)
    by (bit_vector)
    requires
        j < 64,
    ensures
        (((x << 8) & 0xFFFF_FFFF_FFFF_FFFFu64) >> j) & 1 == 1 <==> (j >= 8 && (x >> ((j - 8) as u64)) & 1 == 1),
        (((x >> 8) & 0xFFFF_FFFF_FFFF_FFFFu64) >> j) & 1 == 1 <==> (j < 56 && (x >> ((j + 8) as u64)) & 1 == 1),
        (((x << 1) & 0xFEFE_FEFE_FEFE_FEFEu64) >> j) & 1 == 1 <==> (j % 8 >= 1 && (x >> ((j - 1) as u64)) & 1 == 1),
        (((x >> 1) & 0x7F7F_7F7F_7F7F_7F7Fu64) >> j) & 1 == 1 <==> (j % 8 <= 6 && (x >> ((j + 1) as u64)) & 1 == 1),
        (((x << 9) & 0xFEFE_FEFE_FEFE_FEFEu64) >> j) & 1 == 1 <==> (j % 8 >= 1 && j >= 8 && (x >> ((j - 9) as u64)) & 1 == 1),
        (((x << 7) & 0x7F7F_7F7F_7F7F_7F7Fu64) >> j) & 1 == 1 <==> (j % 8 <= 6 && j >= 8 && (x >> ((j - 7) as u64)) & 1 == 1),
        (((x >> 7) & 0xFEFE_FEFE_FEFE_FEFEu64) >> j) & 1 == 1 <==> (j % 8 >= 1 && j < 56 && (x >> ((j + 7) as u64)) & 1 == 1),
        (((x >> 9) & 0x7F7F_7F7F_7F7F_7F7Fu64) >> j) & 1 == 1 <==> (j % 8 <= 6 && j < 56 && (x >> ((j + 9) as u64)) & 1 == 1),
{
}

proof fn lemma_ray_semantics(
    gen: u64,
    empty: u64,
    left: bool,
    s: u64,
    mask: u64,
    df: int,
    dr: int,
    t: int,
)
    requires
        step_moves(left, s, mask, df, dr),
        0 <= t < 64,
        -1 <= df <= 1,
        -1 <= dr <= 1,
    ensures
        bit(ray_attacks(gen, empty, left, s, mask), t) == ray_hit(
            gen,
            empty,
            df,
            dr,
            file_of(t),
            rank_of(t),
            8,
        ),
{
    lemma_slide_is_union(gen, empty & mask, left, s);
    lemma_hit_is_union(gen, empty, left, s, mask, df, dr, 8, t);
    assert(bit(step(slide(gen, empty & mask, left, s), left, s) & mask, t) == (on_board(
        file_of(t) - df,
        rank_of(t) - dr,
    ) && bit(slide(gen, empty & mask, left, s), square_at(file_of(t) - df, rank_of(t) - dr))));
}

proof fn lemma_steps()
    ensures
        step_moves(true, 8, ALL_SQUARES, 0, 1),
        step_moves(false, 8, ALL_SQUARES, 0, -1),
        step_moves(true, 1, NOT_FILE_A, 1, 0),
        step_moves(false, 1, NOT_FILE_H, -1, 0),
        step_moves(true, 9, NOT_FILE_A, 1, 1),
        step_moves(true, 7, NOT_FILE_H, -1, 1),
        step_moves(false, 7, NOT_FILE_A, 1, -1),
        step_moves(false, 9, NOT_FILE_H, -1, -1),
{
    assert forall|x: u64, t: int| 0 <= t < 64 implies #[trigger] bit(step(x, true, 8) & ALL_SQUARES, t) == (
    on_board(file_of(t), rank_of(t) - 1) && bit(x, square_at(file_of(t), rank_of(t) - 1))) by {
        let j = t as u64;
        lemma_step_bits(x, j);
    }
    assert forall|x: u64, t: int| 0 <= t < 64 implies #[trigger] bit(step(x, false, 8) & ALL_SQUARES, t) == (
    on_board(file_of(t), rank_of(t) + 1) && bit(x, square_at(file_of(t), rank_of(t) + 1))) by {
        let j = t as u64;
        lemma_step_bits(x, j);
    }
    assert forall|x: u64, t: int| 0 <= t < 64 implies #[trigger] bit(step(x, true, 1) & NOT_FILE_A, t) == (
    on_board(file_of(t) - 1, rank_of(t)) && bit(x, square_at(file_of(t) - 1, rank_of(t)))) by {
        let j = t as u64;
        lemma_step_bits(x, j);
    }
    assert forall|x: u64, t: int| 0 <= t < 64 implies #[trigger] bit(step(x, false, 1) & NOT_FILE_H, t) == (
    on_board(file_of(t) + 1, rank_of(t)) && bit(x, square_at(file_of(t) + 1, rank_of(t)))) by {
        let j = t as u64;
        lemma_step_bits(x, j);
    }
    assert forall|x: u64, t: int| 0 <= t < 64 implies #[trigger] bit(step(x, true, 9) & NOT_FILE_A, t) == (
    on_board(file_of(t) - 1, rank_of(t) - 1) && bit(x, square_at(file_of(t) - 1, rank_of(t) - 1))) by {
        let j = t as u64;
        lemma_step_bits(x, j);
    }
    assert forall|x: u64, t: int| 0 <= t < 64 implies #[trigger] bit(step(x, true, 7) & NOT_FILE_H, t) == (
    on_board(file_of(t) + 1, rank_of(t) - 1) && bit(x, square_at(file_of(t) + 1, rank_of(t) - 1))) by {
        let j = t as u64;
        lemma_step_bits(x, j);
    }
    assert forall|x: u64, t: int| 0 <= t < 64 implies #[trigger] bit(step(x, false, 7) & NOT_FILE_A, t) == (
    on_board(file_of(t) - 1, rank_of(t) + 1) && bit(x, square_at(file_of(t) - 1, rank_of(t) + 1))) by {
        let j = t as u64;
        lemma_step_bits(x, j);
    }
    assert forall|x: u64, t: int| 0 <= t < 64 implies #[trigger] bit(step(x, false, 9) & NOT_FILE_H, t) == (
    on_board(file_of(t) + 1, rank_of(t) + 1) && bit(x, square_at(file_of(t) + 1, rank_of(t) + 1))) by {
        let j = t as u64;
        lemma_step_bits(x, j);
    }
}

/// Each of the eight sliding-attack words holds exactly the squares that a
/// slider of `gen` reaches in its direction: walking back from the square one
/// meets a slider after passing only squares of `empty`.
pub proof fn law_ray_attacks(gen: u64, empty: u64, t: int)
    requires
        0 <= t < 64,
    ensures
        bit(north_spec(gen, empty), t) == ray_hit(gen, empty, 0, 1, file_of(t), rank_of(t), 8),
        bit(south_spec(gen, empty), t) == ray_hit(gen, empty, 0, -1, file_of(t), rank_of(t), 8),
        bit(east_spec(gen, empty), t) == ray_hit(gen, empty, 1, 0, file_of(t), rank_of(t), 8),
        bit(west_spec(gen, empty), t) == ray_hit(gen, empty, -1, 0, file_of(t), rank_of(t), 8),
        bit(north_east_spec(gen, empty), t) == ray_hit(gen, empty, 1, 1, file_of(t), rank_of(t), 8),
        bit(north_west_spec(gen, empty), t) == ray_hit(gen, empty, -1, 1, file_of(t), rank_of(t), 8),
        bit(south_east_spec(gen, empty), t) == ray_hit(gen, empty, 1, -1, file_of(t), rank_of(t), 8),
        bit(south_west_spec(gen, empty), t) == ray_hit(gen, empty, -1, -1, file_of(t), rank_of(t), 8),
{
    lemma_steps();
    lemma_ray_semantics(gen, empty, true, 8, ALL_SQUARES, 0, 1, t);
    lemma_ray_semantics(gen, empty, false, 8, ALL_SQUARES, 0, -1, t);
    lemma_ray_semantics(gen, empty, true, 1, NOT_FILE_A, 1, 0, t);
    lemma_ray_semantics(gen, empty, false, 1, NOT_FILE_H, -1, 0, t);
    lemma_ray_semantics(gen, empty, true, 9, NOT_FILE_A, 1, 1, t);
    lemma_ray_semantics(gen, empty, true, 7, NOT_FILE_H, -1, 1, t);
    lemma_ray_semantics(gen, empty, false, 7, NOT_FILE_A, 1, -1, t);
    lemma_ray_semantics(gen, empty, false, 9, NOT_FILE_H, -1, -1, t);
}

} // verus!
