//! Zobrist hashing of piece placements and the side to move.
use vstd::prelude::*;

use crate::board::{Color, BOARD_SQUARES};
use crate::position::bit;

verus! {

/// Key toggled by the side to move.
pub const SIDE_TO_MOVE_KEY: u64 = 0x9e37_79b9_7f4a_7c15;

/// Offset mixed into the keys of black pieces.
pub const BLACK_KEY_OFFSET: u64 = 0x94d0_49bb_1331_11eb;

/// Seed mixed into every piece key.
pub const PIECE_KEY_SEED: u64 = 0x243f_6a88_85a3_08d3;

/// The SplitMix64 finalizer.
#[verifier::opaque]
pub open spec fn spec_splitmix64(value: u64) -> u64 {
    let v1 = vstd::wrapping::u64_specs::wrapping_add(value, 0x9e37_79b9_7f4a_7c15u64);
    let v2 = vstd::wrapping::u64_specs::wrapping_mul(v1 ^ (v1 >> 30u64), 0xbf58_476d_1ce4_e5b9u64);
    let v3 = vstd::wrapping::u64_specs::wrapping_mul(v2 ^ (v2 >> 27u64), 0x94d0_49bb_1331_11ebu64);
    v3 ^ (v3 >> 31u64)
}

/// Key of a piece of `color` standing on square index `square`.
pub open spec fn spec_piece_key(color: Color, square: int) -> u64 {
    let offset: u64 = match color {
        Color::White => 0u64,
        Color::Black => BLACK_KEY_OFFSET,
    };
    spec_splitmix64(((square as u64) ^ offset) ^ PIECE_KEY_SEED)
}

/// Key contribution of square `i` for the given bitboards (white wins if both are set).
pub open spec fn square_contribution(white: u64, black: u64, i: int) -> u64 {
    if bit(white, i) {
        spec_piece_key(Color::White, i)
    } else if bit(black, i) {
        spec_piece_key(Color::Black, i)
    } else {
        0u64
    }
}

/// XOR of the contributions of squares `0..n`.
pub open spec fn placement_key(white: u64, black: u64, n: nat) -> u64
    decreases n,
{
    if n == 0 {
        0u64
    } else {
        placement_key(white, black, (n - 1) as nat) ^ square_contribution(
            white,
            black,
            n - 1,
        )
    }
}

/// Full Zobrist key of a placement and side to move.
pub open spec fn spec_zobrist_key(white: u64, black: u64, side_to_move: Color) -> u64 {
    let k = placement_key(white, black, 64);
    if side_to_move == Color::White {
        k ^ SIDE_TO_MOVE_KEY
    } else {
        k
    }
}

/// SplitMix64 finalizer used to derive piece keys.
pub fn splitmix64(value: u64) -> (r: u64)
    ensures
        r == spec_splitmix64(value),
{
    proof {
        reveal(spec_splitmix64);
    }
    let mut value = value;
    value = value.wrapping_add(0x9e37_79b9_7f4a_7c15);
    value = (value ^ (value >> 30)).wrapping_mul(0xbf58_476d_1ce4_e5b9);
    value = (value ^ (value >> 27)).wrapping_mul(0x94d0_49bb_1331_11eb);
    value ^ (value >> 31)
}

/// Key of a piece of `color` on square index `square`.
pub fn zobrist_piece(color: Color, square: usize) -> (r: u64)
    ensures
        r == spec_piece_key(color, square as int),
{
    let color_offset: u64 = match color {
        Color::White => 0,
        Color::Black => BLACK_KEY_OFFSET,
    };
    splitmix64(square as u64 ^ color_offset ^ PIECE_KEY_SEED)
}

/// Computes the Zobrist key of a placement from scratch.
pub fn compute_zobrist_key(white: u64, black: u64, side_to_move: Color) -> (r: u64)
    ensures
        r == spec_zobrist_key(white, black, side_to_move),
{
    let mut key: u64 = 0;
    let mut index: usize = 0;
    while index < BOARD_SQUARES
        invariant
            index <= 64,
            key == placement_key(white, black, index as nat),
        decreases 64 - index,
    {
        let mask: u64 = 1u64 << index;
        proof {
            crate::position::lemma_mask_bit(white, index as int);
            crate::position::lemma_mask_bit(black, index as int);
        }
        if white & mask != 0 {
            key = key ^ zobrist_piece(Color::White, index);
        } else if black & mask != 0 {
            key = key ^ zobrist_piece(Color::Black, index);
        } else {
            proof {
                assert(key ^ 0u64 == key) by (bit_vector);
            }
        }
        index += 1;
    }
    if side_to_move == Color::White {
        key = key ^ SIDE_TO_MOVE_KEY;
    }
    key
}

/// Multiplying by an odd constant modulo 2^64 is undone by multiplying by its
/// inverse.
proof fn lemma_mul_undone(v: u64, c: u64, ci: u64, q: int)
    requires
        (c as int) * (ci as int) == 1 + q * 0x1_0000_0000_0000_0000,
        q >= 0,
    ensures
        vstd::wrapping::u64_specs::wrapping_mul(vstd::wrapping::u64_specs::wrapping_mul(v, c), ci) == v,
{
    let m: int = 0x1_0000_0000_0000_0000;
    let a = vstd::wrapping::u64_specs::wrapping_mul(v, c);
    assert(a as int == (v as int * c as int) % m);
    vstd::arithmetic::div_mod::lemma_mul_mod_noop_left(v as int * c as int, ci as int, m);
    assert((v as int * c as int) * ci as int == v as int * (c as int * ci as int)) by (nonlinear_arith);
    assert(v as int * (1 + q * m) == m * (v as int * q) + v as int) by (nonlinear_arith);
    vstd::arithmetic::div_mod::lemma_mod_multiples_vanish(v as int * q, v as int, m);
    vstd::arithmetic::div_mod::lemma_small_mod(v as nat, m as nat);
}

/// The three xor-shifts of SplitMix64 are undone by xor-ing in the shifted
/// result once more and twice as far.
proof fn lemma_xorshifts_undone(v: u64)
    by (bit_vector)
    ensures
        (v ^ (v >> 30u64)) ^ ((v ^ (v >> 30u64)) >> 30u64) ^ ((v ^ (v >> 30u64)) >> 60u64) == v,
        (v ^ (v >> 27u64)) ^ ((v ^ (v >> 27u64)) >> 27u64) ^ ((v ^ (v >> 27u64)) >> 54u64) == v,
        (v ^ (v >> 31u64)) ^ ((v ^ (v >> 31u64)) >> 31u64) ^ ((v ^ (v >> 31u64)) >> 62u64) == v,
{
}

/// Undoes the xor-shift by `s` (for `2s < 64 <= 3s`).
pub open spec fn unshift(y: u64, s: u64) -> u64 {
    y ^ (y >> s) ^ (y >> ((2 * s) as u64))
}

/// The input that SplitMix64 maps to `y`.
pub open spec fn spec_unmix64(y: u64) -> u64 {
    let v3 = unshift(y, 31);
    let v2 = unshift(vstd::wrapping::u64_specs::wrapping_mul(v3, 0x319642b2d24d8ec3u64), 27);
    let v1 = unshift(vstd::wrapping::u64_specs::wrapping_mul(v2, 0x96de1b173f119089u64), 30);
    vstd::wrapping::u64_specs::wrapping_sub(v1, 0x9e37_79b9_7f4a_7c15u64)
}

/// SplitMix64 can be undone, so different inputs never share a key.
pub proof fn lemma_splitmix64_injective(x: u64, y: u64)
    ensures
        spec_unmix64(spec_splitmix64(x)) == x,
        x != y ==> spec_splitmix64(x) != spec_splitmix64(y),
{
    lemma_unmix(x);
    lemma_unmix(y);
}

proof fn lemma_unmix(x: u64)
    ensures
        spec_unmix64(spec_splitmix64(x)) == x,
{
    reveal(spec_splitmix64);
    let v1 = vstd::wrapping::u64_specs::wrapping_add(x, 0x9e37_79b9_7f4a_7c15u64);
    let w1 = v1 ^ (v1 >> 30u64);
    let v2 = vstd::wrapping::u64_specs::wrapping_mul(w1, 0xbf58_476d_1ce4_e5b9u64);
    let w2 = v2 ^ (v2 >> 27u64);
    let v3 = vstd::wrapping::u64_specs::wrapping_mul(w2, 0x94d0_49bb_1331_11ebu64);
    let w3 = v3 ^ (v3 >> 31u64);
    lemma_xorshifts_undone(v1);
    lemma_xorshifts_undone(v2);
    lemma_xorshifts_undone(v3);
    assert(unshift(w3, 31) == v3);
    lemma_mul_undone(w2, 0x94d0_49bb_1331_11ebu64, 0x319642b2d24d8ec3u64, 0x1cd336eda85f1453int);
    assert(unshift(w2, 27) == v2);
    lemma_mul_undone(w1, 0xbf58_476d_1ce4_e5b9u64, 0x96de1b173f119089u64, 0x70c3bca78f27f46cint);
    assert(unshift(w1, 30) == v1);
}

/// Piece keys depend on the color: on every square, a black piece and a
/// white piece contribute different keys, and no two squares share the key
/// of one color.
pub proof fn lemma_piece_keys_distinct(c: Color, i: int, d: Color, j: int)
    requires
        0 <= i < 64,
        0 <= j < 64,
        c != d || i != j,
    ensures
        spec_piece_key(c, i) != spec_piece_key(d, j),
{
    let oc: u64 = match c {
        Color::White => 0u64,
        Color::Black => BLACK_KEY_OFFSET,
    };
    let od: u64 = match d {
        Color::White => 0u64,
        Color::Black => BLACK_KEY_OFFSET,
    };
    let a = i as u64;
    let b = j as u64;
    assert(((a ^ oc) ^ PIECE_KEY_SEED) != ((b ^ od) ^ PIECE_KEY_SEED)) by (bit_vector)
        requires
            a < 64,
            b < 64,
            oc == 0 || oc == 0x94d0_49bb_1331_11ebu64,
            od == 0 || od == 0x94d0_49bb_1331_11ebu64,
            oc != od || a != b,
            PIECE_KEY_SEED == 0x243f_6a88_85a3_08d3u64,
    ;
    lemma_splitmix64_injective(((a ^ oc) ^ PIECE_KEY_SEED), ((b ^ od) ^ PIECE_KEY_SEED));
}

} // verus!
