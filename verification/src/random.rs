//! Random numbers and characters from entropy that the caller gathers (the
//! time, stack contents, an address): the entropy is mixed with the
//! SplitMix64 finaliser and mapped onto the requested range.
use vstd::prelude::*;
use crate::text::{char_from_u32, is_scalar_value};

verus! {

/// 2^64.
pub open spec fn word() -> nat {
    0x1_0000_0000_0000_0000
}

/// `(x ^ (x >> s)) * k`, modulo 2^64: one round of the finaliser.
pub open spec fn mix_round(x: u64, s: u64, k: u64) -> u64 {
    (((x ^ (x >> s)) as nat * k as nat) % word()) as u64
}

/// The SplitMix64 finaliser applied to `x`, then xored with `salt`.
pub open spec fn scramble(x: u64, salt: u64) -> u64 {
    let a = mix_round(x, 30, 0xbf58476d1ce4e5b9);
    let b = mix_round(a, 27, 0x94d049bb133111eb);
    b ^ (b >> 31u64) ^ salt
}

/// The sum modulo 2^64.
pub open spec fn wrapped_sum(a: u64, b: u64) -> u64 {
    ((a + b) % (word() as int)) as u64
}

/// The code point that a scrambled word maps to: a number below
/// 0x110000 - 0x800, moved past the surrogates.
pub open spec fn code_point_of(raw: u64) -> u32 {
    let c = raw % 0x10F800;
    if c >= 0xD800 {
        (c + 0x800) as u32
    } else {
        c as u32
    }
}

fn scramble_exec(x: u64, salt: u64) -> (r: u64)
    ensures
        r == scramble(x, salt),
{
    let a = (x ^ (x >> 30u64)).wrapping_mul(0xbf58476d1ce4e5b9);
    let b = (a ^ (a >> 27u64)).wrapping_mul(0x94d049bb133111eb);
    b ^ (b >> 31u64) ^ salt
}

/// A number from `min` to `max` chosen by the entropy `nanos`, `seed` and
/// `salt`; `min` itself when `min >= max`.
pub fn random_int(min: u64, max: u64, nanos: u64, seed: u64, salt: u64) -> (r: u64)
    requires
        min >= max || max - min < u64::MAX,
    ensures
        min >= max ==> r == min,
        min < max ==> r == min + scramble(wrapped_sum(nanos, seed), salt) % ((max - min + 1) as u64),
        min < max ==> min <= r <= max,
{
    if min >= max {
        return min;
    }
    let x = nanos.wrapping_add(seed);
    let raw = scramble_exec(x, salt);
    let range = max - min + 1;
    min + raw % range
}

/// A character chosen by the entropy: any Unicode scalar value, never a
/// surrogate.
pub fn random_char(nanos: u64, seed: u64, salt: u64, stack: u64) -> (r: char)
    ensures
        r as u32 == code_point_of(scramble(wrapped_sum(wrapped_sum(nanos, seed), stack), salt)),
        is_scalar_value(r as u32),
{
    let x = nanos.wrapping_add(seed).wrapping_add(stack);
    let raw = scramble_exec(x, salt);
    let unicode_range: u64 = 0x110000 - 0x800;
    let mut code_point = (raw % unicode_range) as u32;
    if code_point >= 0xD800 {
        code_point += 0x800;
    }
    match char_from_u32(code_point) {
        Some(c) => c,
        None => {
            assert(false);
            '\0'
        },
    }
}

} // verus!
