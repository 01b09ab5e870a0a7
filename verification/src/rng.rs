//! The simulation's randomness: a pure function of seed, tick and position.
//!
//! There is no stream and no state. Each draw is a hash of `(seed, tick, x, y)`, so a
//! result never depends on how many cells were visited before it.

use vstd::prelude::*;

verus! {

/// Odd multipliers keep each coordinate contributing to the whole 64-bit state.
pub const TICK_KEY: u64 = 0x9e37_79b9_7f4a_7c15;

pub const X_KEY: u64 = 0xc2b2_ae3d_27d4_eb4f;

pub const Y_KEY: u64 = 0x1656_67b1_9e37_79f9;

pub const SALT_KEY: u64 = 0xd6e8_feb8_6659_fd93;

pub const MIX_A: u64 = 0xbf58_476d_1ce4_e5b9;

pub const MIX_B: u64 = 0x94d0_49bb_1331_11eb;

/// The splitmix64 finalizer.
pub open spec fn mix_spec(value: u64) -> u64 {
    let a = (value ^ (value >> 30u64)).wrapping_mul(MIX_A);
    let b = (a ^ (a >> 27u64)).wrapping_mul(MIX_B);
    b ^ (b >> 31u64)
}

/// The hash behind every draw: seed, then tick, x, y and (when non-zero) salt are
/// folded in through the finalizer, and the high 32 bits are kept.
pub open spec fn noise_salted_spec(seed: u64, tick: u64, x: i32, y: i32, salt: u32) -> u32 {
    let h1 = mix_spec(seed ^ tick.wrapping_mul(TICK_KEY));
    let h2 = mix_spec(h1 ^ ((x as u32) as u64).wrapping_mul(X_KEY));
    let h3 = mix_spec(h2 ^ ((y as u32) as u64).wrapping_mul(Y_KEY));
    let h4 = if salt != 0 { mix_spec(h3 ^ (salt as u64).wrapping_mul(SALT_KEY)) } else { h3 };
    (h4 >> 32u64) as u32
}

/// A value in `0..bound` scaled from one draw, or 0 when `bound` is 0.
pub open spec fn below_spec(seed: u64, tick: u64, x: i32, y: i32, salt: u32, bound: u32) -> u32 {
    ((noise_salted_spec(seed, tick, x, y, salt) as int * bound as int) / 0x1_0000_0000) as u32
}

fn mix(value: u64) -> (r: u64)
    ensures
        r == mix_spec(value),
{
    let a: u64 = (value ^ (value >> 30u64)).wrapping_mul(MIX_A);
    let b: u64 = (a ^ (a >> 27u64)).wrapping_mul(MIX_B);
    b ^ (b >> 31u64)
}

/// A random 32-bit value for one cell at one tick.
pub fn noise(seed: u64, tick: u64, x: i32, y: i32) -> (r: u32)
    ensures
        r == noise_salted_spec(seed, tick, x, y, 0),
{
    noise_salted(seed, tick, x, y, 0)
}

/// A second, independent draw for the same cell and tick, separated by `salt`.
pub fn noise_salted(seed: u64, tick: u64, x: i32, y: i32, salt: u32) -> (r: u32)
    ensures
        r == noise_salted_spec(seed, tick, x, y, salt),
{
    let mut hash: u64 = seed;
    hash = mix(hash ^ tick.wrapping_mul(TICK_KEY));
    hash = mix(hash ^ ((x as u32) as u64).wrapping_mul(X_KEY));
    hash = mix(hash ^ ((y as u32) as u64).wrapping_mul(Y_KEY));
    if salt != 0 {
        hash = mix(hash ^ (salt as u64).wrapping_mul(SALT_KEY));
    }
    (hash >> 32u64) as u32
}

/// True about half the time: the top bit of the draw.
pub fn coin_flip(seed: u64, tick: u64, x: i32, y: i32, salt: u32) -> (r: bool)
    ensures
        r == (noise_salted_spec(seed, tick, x, y, salt) >= 0x8000_0000),
{
    let draw: u32 = noise_salted(seed, tick, x, y, salt);
    let top: u32 = draw >> 31u32;
    assert(top == 1 <==> draw >= 0x8000_0000) by (bit_vector)
        requires
            top == draw >> 31u32,
    ;
    top == 1
}

/// A value in `0..bound`, without modulo bias and without a division. 0 when `bound`
/// is 0.
pub fn below(seed: u64, tick: u64, x: i32, y: i32, salt: u32, bound: u32) -> (r: u32)
    ensures
        r == below_spec(seed, tick, x, y, salt, bound),
        bound > 0 ==> r < bound,
        bound == 0 ==> r == 0,
{
    let draw: u64 = noise_salted(seed, tick, x, y, salt) as u64;
    let b: u64 = bound as u64;
    assert(draw * b < 0x1_0000_0000 * 0x1_0000_0000) by (nonlinear_arith)
        requires
            draw < 0x1_0000_0000,
            b < 0x1_0000_0000,
    ;
    let product: u64 = draw * b;
    let shifted: u64 = product >> 32u64;
    assert(shifted == product / 0x1_0000_0000) by (bit_vector)
        requires
            shifted == product >> 32u64,
    ;
    assert(product / 0x1_0000_0000 <= b && (b > 0 ==> product / 0x1_0000_0000 < b)) by (nonlinear_arith)
        requires
            product == draw * b,
            draw < 0x1_0000_0000,
    ;
    shifted as u32
}

} // verus!
