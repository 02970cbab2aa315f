//! The linear-congruential generator that drives the shuffle.

use vstd::prelude::*;

verus! {

/// The generator's multiplier.
pub const LCG_MULTIPLIER: u32 = 1103515245;

/// The generator's increment.
pub const LCG_INCREMENT: u32 = 12345;

/// The state that follows `state`: `state * 1103515245 + 12345` modulo 2^32.
pub open spec fn lcg_next(state: u32) -> u32 {
    ((state * LCG_MULTIPLIER + LCG_INCREMENT) % 0x1_0000_0000) as u32
}

/// The value drawn from a state: its low 31 bits.
pub open spec fn lcg_output(state: u32) -> u32 {
    (state % 0x8000_0000) as u32
}

/// The state after `n` steps from `seed`.
pub open spec fn lcg_state(seed: u32, n: nat) -> u32
    decreases n,
{
    if n == 0 {
        seed
    } else {
        lcg_next(lcg_state(seed, (n - 1) as nat))
    }
}

/// The `n`-th value drawn from a generator started at `seed`, counting from 0.
pub open spec fn lcg_draw(seed: u32, n: nat) -> u32 {
    lcg_output(lcg_state(seed, n + 1))
}

/// Advances the generator by one step and returns the low 31 bits of the new
/// state.
pub fn prng(state: &mut u32) -> (r: u32)
    ensures
        *final(state) == lcg_next(*old(state)),
        r == lcg_output(*final(state)),
        r == *final(state) & 0x7fff_ffff,
        r < 0x8000_0000,
{
    let prev: u32 = *state;
    let new_state: u32 = prev.wrapping_mul(LCG_MULTIPLIER).wrapping_add(LCG_INCREMENT);
    *state = new_state;
    let r: u32 = new_state & 0x7fff_ffff;
    assert(new_state & 0x7fff_ffff == new_state % 0x8000_0000) by (bit_vector);
    r
}

} // verus!
