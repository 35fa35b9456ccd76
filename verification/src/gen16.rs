//! Experimental 16-bit generators: a permuted linear congruential
//! generator and a lag-2 multiply-with-carry variant.

use vstd::prelude::*;
use vstd::arithmetic::div_mod::*;
use vstd::arithmetic::mul::*;
use crate::arith::{
    lemma_carry_split, lemma_mul_div_bound, lemma_carry_preserved, lemma_carry_recovers,
    lemma_mod_of_small,
};

verus! {

/// Rotate a 16-bit word right by `r % 16` positions.
pub open spec fn rotr16(x: u16, r: u32) -> u16 {
    if r % 16 == 0 {
        x
    } else {
        (x >> (r % 16)) | (x << (16 - r % 16))
    }
}

fn rotate_right16(x: u16, r: u32) -> (res: u16)
    ensures
        res == rotr16(x, r),
{
    let s = r % 16;
    if s == 0 {
        x
    } else {
        (x >> s) | (x << (16 - s))
    }
}

/// The next state of the permuted linear congruential generator.
pub open spec fn pcg_next_state(s: u32) -> u32 {
    ((s * 1019135901 + 2739110765) % 0x1_0000_0000) as u32
}

/// The word the permuted linear congruential generator emits while in
/// state `s`: a xorshift of the state, truncated, then rotated by the
/// state's top bits.
pub open spec fn pcg_output(s: u32) -> u16 {
    rotr16((((s ^ (s >> 10u32)) >> 12u32) % 0x1_0000) as u16, s >> 28u32)
}

/// A 16-bit permuted linear congruential generator, kept as a baseline
/// for the multiply-with-carry variants.
pub struct PCG {
    state: u32,
}

impl View for PCG {
    type V = u32;

    closed spec fn view(&self) -> u32 {
        self.state
    }
}

impl Default for PCG {
    /// The fixed reference start state.
    fn default() -> (r: Self)
        ensures
            r@ == 0x12345678u32,
    {
        PCG { state: 0x12345678 }
    }
}

impl PCG {
    /// Advance the state and emit the word derived from the old state.
    pub fn next(&mut self) -> (r: u16)
        ensures
            final(self)@ == pcg_next_state(old(self)@),
            r == pcg_output(old(self)@),
    {
        let old_state = self.state;
        self.state = self.state.wrapping_mul(1019135901).wrapping_add(2739110765);
        proof {
            let q = old_state as int * 1019135901;
            lemma_mul_nonnegative(old_state as int, 1019135901);
            lemma_mod_bound(q, 0x1_0000_0000);
            lemma_add_mod_noop(q, 2739110765, 0x1_0000_0000);
            lemma_mod_of_small(q % 0x1_0000_0000 + 2739110765, 0x1_0000_0000);
            lemma_mod_bound(q + 2739110765, 0x1_0000_0000);
        }
        let rot = old_state >> 28u32;
        let xorshifted = old_state ^ (old_state >> 10u32);
        let result = ((xorshifted >> 12u32) % 0x1_0000) as u16;
        rotate_right16(result, rot)
    }
}

/// Multiplier suitable for lag 2 or 4.
pub const MULTIPLIER: u16 = 26298;

/// The value space of one word: `2^16`.
pub open spec fn word_base() -> int {
    0x1_0000
}

/// Mathematical model of the lag-2 state: two lanes plus the carry.
pub struct State {
    pub x1: u16,
    pub x2: u16,
    pub c: u16,
}

/// The multiply-with-carry quantity of one step.
pub open spec fn mwc_t(s: State) -> int {
    s.x2 * MULTIPLIER + s.c
}

/// High word of `v * MULTIPLIER`.
pub open spec fn mul_hi(v: u16) -> u16 {
    ((v * MULTIPLIER) / word_base()) as u16
}

/// One state advance.
pub open spec fn step_state(s: State) -> State {
    State {
        x1: (mwc_t(s) % word_base()) as u16,
        x2: s.x1,
        c: (mwc_t(s) / word_base()) as u16,
    }
}

/// The output permutation: this lag-2 variant mixes the carry itself
/// into the output.
pub open spec fn step_output(s: State) -> u16 {
    (((s.x2 ^ s.x1) + (s.c ^ mul_hi(s.x2))) % word_base()) as u16
}

/// `n` state advances.
pub open spec fn steps(s: State, n: nat) -> State
    decreases n,
{
    if n == 0 {
        s
    } else {
        step_state(steps(s, (n - 1) as nat))
    }
}

/// The lag-2 16-bit multiply-with-carry generator.
pub struct Gen16 {
    x1: u16,
    x2: u16,
    c: u16,
}

impl View for Gen16 {
    type V = State;

    closed spec fn view(&self) -> State {
        State { x1: self.x1, x2: self.x2, c: self.c }
    }
}

/// Splits `val * MULTIPLIER` into its low and high word.
fn multiply(val: u16) -> (r: (u16, u16))
    ensures
        r.0 == (val * MULTIPLIER) % word_base(),
        r.1 == (val * MULTIPLIER) / word_base(),
        r.1 < MULTIPLIER,
{
    proof {
        lemma_mul_upper_bound(val as int, 0xffff, MULTIPLIER as int, 0xffff);
        lemma_mul_nonnegative(val as int, MULTIPLIER as int);
        lemma_mul_div_bound(val as int, MULTIPLIER as int, word_base());
        lemma_mod_bound(val as int * MULTIPLIER as int, word_base());
    }
    let t: u32 = (val as u32) * (MULTIPLIER as u32);
    ((t % 0x1_0000u32) as u16, (t / 0x1_0000u32) as u16)
}

impl Gen16 {
    /// Construct the generator from explicit lanes and carry.
    pub fn new(x1: u16, x2: u16, c: u16) -> (r: Self)
        ensures
            r@ == (State { x1: x1, x2: x2, c: c }),
    {
        Gen16 { x1, x2, c }
    }

    /// Advance one step and emit the output word.
    pub fn next(&mut self) -> (r: u16)
        ensures
            final(self)@ == step_state(old(self)@),
            r == step_output(old(self)@),
            old(self)@.c < MULTIPLIER ==> final(self)@.c < MULTIPLIER,
    {
        let ghost s = self@;
        let (low, hi) = multiply(self.x2);
        let result = (self.x2 ^ self.x1).wrapping_add(self.c ^ hi);
        let lane = low.wrapping_add(self.c);
        let carry_out: u16 = if lane < low {
            1
        } else {
            0
        };
        proof {
            lemma_mod_of_small((s.x2 ^ s.x1) + (s.c ^ hi), word_base());
            lemma_carry_split(s.x2 as int * MULTIPLIER as int, s.c as int, word_base());
            lemma_mod_bound(mwc_t(s), word_base());
            lemma_carry_recovers(s.x2 as int, s.c as int, MULTIPLIER as int, word_base());
            if s.c < MULTIPLIER {
                lemma_carry_preserved(s.x2 as int, s.c as int, MULTIPLIER as int, word_base());
            }
        }
        self.x2 = self.x1;
        self.x1 = lane;
        self.c = hi + carry_out;
        result
    }
}

/// Carry invariant for the lag-2 variant.
pub proof fn lemma_carry_invariant(s: State, n: nat)
    requires
        s.c < MULTIPLIER,
    ensures
        steps(s, n).c < MULTIPLIER,
    decreases n,
{
    if n > 0 {
        lemma_carry_invariant(s, (n - 1) as nat);
        lemma_carry_preserved(
            steps(s, (n - 1) as nat).x2 as int,
            steps(s, (n - 1) as nat).c as int,
            MULTIPLIER as int,
            word_base(),
        );
    }
}

} // verus!
