//! Pseudo-random numbers.

use vstd::prelude::*;

verus! {

/// The state that follows `x` in the 32-bit xorshift sequence.
pub open spec fn xorshift(x: u32) -> u32 {
    let a = x ^ (x << 13);
    let b = a ^ (a >> 17);
    b ^ (b << 5)
}

/// A draw from 0 up to `range`, taken from the upper half of the state `x`.
pub open spec fn draw(x: u32, range: int) -> int {
    (x >> 16) as int % if range < 1 {
        1
    } else {
        range
    }
}

/// Steps the sequence and returns the new state.
pub fn rng_next(seed: &mut u32) -> (r: u32)
    ensures
        r == xorshift(*old(seed)),
        *final(seed) == r,
{
    let mut x: u32 = *seed;
    x = x ^ (x << 13);
    x = x ^ (x >> 17);
    x = x ^ (x << 5);
    *seed = x;
    x
}

/// A random integer from 0 up to but without `range`; 0 if `range` is below 1.
pub fn rng_below(seed: &mut u32, range: i32) -> (r: i32)
    ensures
        *final(seed) == xorshift(*old(seed)),
        r == draw(xorshift(*old(seed)), range as int),
        0 <= r,
        r < range || r == 0,
{
    let x: u32 = rng_next(seed);
    let m: i32 = if range < 1 {
        1
    } else {
        range
    };
    let upper: u32 = x >> 16;
    proof {
        assert(x >> 16 <= 0xffff) by (bit_vector);
    }
    (upper as i32) % m
}

/// A state other than 0 is never followed by 0, so the sequence does not get stuck.
pub proof fn law_state_stays_nonzero(x: u32)
    requires
        x != 0,
    ensures
        xorshift(x) != 0,
{
    let a = x ^ (x << 13);
    let b = a ^ (a >> 17);
    assert(x ^ (x << 13) != 0) by (bit_vector)
        requires
            x != 0,
    ;
    assert(a ^ (a >> 17) != 0) by (bit_vector)
        requires
            a != 0,
    ;
    assert(b ^ (b << 5) != 0) by (bit_vector)
        requires
            b != 0,
    ;
}

/// A draw is below its range.
pub proof fn law_draw_below_range(x: u32, range: int)
    requires
        range >= 1,
    ensures
        0 <= draw(x, range) < range,
{
}

} // verus!
