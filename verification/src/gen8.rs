//! Experimental 8-bit generators used for exhaustive statistical maps: a
//! permuted linear congruential generator, a xorshift variant, and the
//! 8-bit multiply-with-carry engine.

use vstd::prelude::*;
use vstd::arithmetic::div_mod::*;
use vstd::arithmetic::mul::*;
use crate::arith::{lemma_carry_split, lemma_mul_div_bound, lemma_carry_preserved,
    lemma_carry_recovers, lemma_mod_of_small};

verus! {

/// A byte generator that can be returned to one of two fixed start
/// configurations; the diagnostic map renderers draw through this trait.
pub trait Gen {
    /// Return the generator to a fixed start state; `config` selects
    /// between the two built-in configurations.
    fn reset(&mut self, config: bool);

    /// Advance one step and emit the output byte.
    fn next(&mut self) -> u8;
}

/// Rotate a byte right by `r % 8` positions.
pub open spec fn rotr8(x: u8, r: u32) -> u8 {
    if r % 8 == 0 {
        x
    } else {
        (x >> (r % 8)) | (x << (8 - r % 8))
    }
}

/// Rotate a byte left by `r % 8` positions.
pub open spec fn rotl8(x: u8, r: u32) -> u8 {
    if r % 8 == 0 {
        x
    } else {
        (x << (r % 8)) | (x >> (8 - r % 8))
    }
}

fn rotate_right8(x: u8, r: u32) -> (res: u8)
    ensures
        res == rotr8(x, r),
{
    let s = r % 8;
    if s == 0 {
        x
    } else {
        (x >> s) | (x << (8 - s))
    }
}

fn rotate_left8(x: u8, r: u32) -> (res: u8)
    ensures
        res == rotl8(x, r),
{
    let s = r % 8;
    if s == 0 {
        x
    } else {
        (x << s) | (x >> (8 - s))
    }
}

/// State of the 16-bit-core linear congruential byte generator.
pub struct LcgState {
    pub x: u16,
    pub inc: u16,
}

/// The linear congruential state update.
pub open spec fn lcg_next_x(s: LcgState) -> u16 {
    ((s.x * 25385 + s.inc) % 0x1_0000) as u16
}

/// The byte derived from a fresh state: a double xorshift truncated to a
/// byte, rotated by the state's top bits.
pub open spec fn lcg_output(x: u16) -> u8 {
    rotr8(((((x >> 5u16) ^ x) >> 5u16) % 0x100) as u8, (x >> 13u16) as u32)
}

/// A permuted linear congruential byte generator.
pub struct Lcg {
    x: u16,
    inc: u16,
}

impl View for Lcg {
    type V = LcgState;

    closed spec fn view(&self) -> LcgState {
        LcgState { x: self.x, inc: self.inc }
    }
}

impl Default for Lcg {
    /// The fixed reference start state, with the first increment.
    fn default() -> (r: Self)
        ensures
            r@ == (LcgState { x: 12345, inc: 771 }),
    {
        Lcg { x: 12345, inc: 771 }
    }
}

impl Gen for Lcg {
    fn reset(&mut self, config: bool)
        ensures
            final(self)@.x == 1,
            final(self)@.inc == if config {
                771u16
            } else {
                55555u16
            },
    {
        self.x = 1;
        if config {
            self.inc = 771;
        } else {
            self.inc = 55555;
        }
    }

    fn next(&mut self) -> (r: u8)
        ensures
            final(self)@.x == lcg_next_x(old(self)@),
            final(self)@.inc == old(self)@.inc,
            r == lcg_output(lcg_next_x(old(self)@)),
    {
        let ghost s = self@;
        // prepare the MCG for the next round
        self.x = self.x.wrapping_mul(25385).wrapping_add(self.inc);
        proof {
            let q = s.x as int * 25385;
            lemma_mul_nonnegative(s.x as int, 25385);
            lemma_mod_bound(q, 0x1_0000);
            lemma_add_mod_noop(q, s.inc as int, 0x1_0000);
            lemma_mod_of_small(q % 0x1_0000 + s.inc, 0x1_0000);
            lemma_mod_bound(q + s.inc, 0x1_0000);
        }
        let xorshifted = (((self.x >> 5u16) ^ self.x) >> 5u16) % 0x100;
        let rot = self.x >> 13u16;
        rotate_right8(xorshifted as u8, rot as u32)
    }
}

/// State of the byte xorshift generator.
pub struct XoshiroState {
    pub s0: u8,
    pub s1: u8,
    pub s2: u8,
    pub s3: u8,
    pub scramble: bool,
}

/// One xorshift state advance.
pub open spec fn xo_next_state(st: XoshiroState) -> XoshiroState {
    XoshiroState {
        s0: st.s0 ^ (st.s3 ^ st.s1),
        s1: st.s1 ^ (st.s2 ^ st.s0),
        s2: (st.s2 ^ st.s0) ^ (st.s1 << 3u8),
        s3: rotl8(st.s3 ^ st.s1, 5),
        scramble: st.scramble,
    }
}

/// The byte emitted before the advance: a rotated sum of the outer state
/// bytes when scrambling, the raw first byte otherwise.
pub open spec fn xo_output(st: XoshiroState) -> u8 {
    if st.scramble {
        ((rotl8(((st.s0 + st.s3) % 0x100) as u8, 4) + st.s0) % 0x100) as u8
    } else {
        st.s0
    }
}

/// A byte xorshift generator with an optional output scramble.
pub struct Xoshiro {
    s: [u8; 4],
    scramble: bool,
}

impl View for Xoshiro {
    type V = XoshiroState;

    closed spec fn view(&self) -> XoshiroState {
        XoshiroState {
            s0: self.s@[0],
            s1: self.s@[1],
            s2: self.s@[2],
            s3: self.s@[3],
            scramble: self.scramble,
        }
    }
}

impl Default for Xoshiro {
    /// The fixed reference start state, with the scramble enabled.
    fn default() -> (r: Self)
        ensures
            r@ == (XoshiroState { s0: 255, s1: 100, s2: 200, s3: 5, scramble: true }),
    {
        Xoshiro { s: [255, 100, 200, 5], scramble: true }
    }
}

impl Gen for Xoshiro {
    fn reset(&mut self, _config: bool)
        ensures
            final(self)@ == (XoshiroState {
                s0: 1,
                s1: 2,
                s2: 3,
                s3: 5,
                scramble: old(self)@.scramble,
            }),
    {
        self.s = [1, 2, 3, 5];
    }

    fn next(&mut self) -> (r: u8)
        ensures
            final(self)@ == xo_next_state(old(self)@),
            r == xo_output(old(self)@),
    {
        let ghost st = self@;
        let result = if self.scramble {
            proof {
                lemma_mod_of_small(st.s0 + st.s3, 0x100);
            }
            let rotated = rotate_left8(self.s[0].wrapping_add(self.s[3]), 4);
            proof {
                lemma_mod_of_small(rotated + st.s0, 0x100);
            }
            rotated.wrapping_add(self.s[0])
        } else {
            self.s[0]
        };
        let t = self.s[1] << 3u8;
        let s2a = self.s[2] ^ self.s[0];
        let s3a = self.s[3] ^ self.s[1];
        let s1b = self.s[1] ^ s2a;
        let s0b = self.s[0] ^ s3a;
        let s2b = s2a ^ t;
        let s3b = rotate_left8(s3a, 5);
        self.s = [s0b, s1b, s2b, s3b];
        result
    }
}

/// Multiplier for the 8-bit lag-3 engine; a full-period choice.
pub const MULTIPLIER: u8 = 123;

/// The value space of one byte: `2^8`.
pub open spec fn word_base() -> int {
    0x100
}

/// Mathematical model of the 8-bit engine: three lanes, a carry, and the
/// selectable multiplier.
pub struct State {
    pub x1: u8,
    pub x2: u8,
    pub x3: u8,
    pub c: u8,
    pub mul: u8,
}

/// The multiply-with-carry quantity of one step.
pub open spec fn mwc_t(s: State) -> int {
    s.x3 * s.mul + s.c
}

/// High byte of `v * m`.
pub open spec fn mul_hi(v: u8, m: u8) -> u8 {
    ((v * m) / word_base()) as u8
}

/// One state advance; the multiplier is part of the state and never
/// changes.
pub open spec fn step_state(s: State) -> State {
    State {
        x1: (mwc_t(s) % word_base()) as u8,
        x2: s.x1,
        x3: s.x2,
        c: (mwc_t(s) / word_base()) as u8,
        mul: s.mul,
    }
}

/// The output permutation.
pub open spec fn step_output(s: State) -> u8 {
    (((s.x3 ^ s.x2) + (s.x1 ^ mul_hi(s.x3, s.mul))) % word_base()) as u8
}

/// `n` state advances.
pub open spec fn steps(s: State, n: nat) -> State
    decreases n,
{
    if n == 0 {
        s
    } else {
        step_state(steps(s, (n - 1) as nat))
    }
}

/// The 8-bit lag-3 multiply-with-carry engine, with a selectable
/// multiplier for comparative testing.
pub struct Gen8 {
    x1: u8,
    x2: u8,
    x3: u8,
    c: u8,
    mul: u8,
}

impl View for Gen8 {
    type V = State;

    closed spec fn view(&self) -> State {
        State { x1: self.x1, x2: self.x2, x3: self.x3, c: self.c, mul: self.mul }
    }
}

impl Default for Gen8 {
    /// The fixed reference start state, with the full-period multiplier.
    fn default() -> (r: Self)
        ensures
            r@ == (State { x1: 169, x2: 163, x3: 213, c: 31, mul: 123 }),
    {
        Gen8 { x1: 169, x2: 163, x3: 213, c: 31, mul: 123 }
    }
}

impl Gen for Gen8 {
    fn reset(&mut self, config: bool)
        ensures
            final(self)@ == (State {
                x1: 120,
                x2: 34,
                x3: 56,
                c: 78,
                mul: if config {
                    123u8
                } else {
                    228u8
                },
            }),
    {
        self.x1 = 120;
        self.x2 = 34;
        self.x3 = 56;
        self.c = 78;
        if config {
            self.mul = 123;
        } else {
            self.mul = 228;
        }
    }

    fn next(&mut self) -> (r: u8)
        ensures
            final(self)@ == step_state(old(self)@),
            r == step_output(old(self)@),
            old(self)@.c < old(self)@.mul ==> final(self)@.c < final(self)@.mul,
    {
        let ghost s = self@;
        proof {
            lemma_mul_upper_bound(s.x3 as int, 0xff, s.mul as int, 0xff);
            lemma_mul_nonnegative(s.x3 as int, s.mul as int);
            lemma_mod_bound(s.x3 as int * s.mul as int, word_base());
            if s.mul > 0 {
                lemma_mul_div_bound(s.x3 as int, s.mul as int, word_base());
            }
        }
        // prepare the MCG for the next round
        let t = (self.x3 as u16) * (self.mul as u16);
        let low = (t % 0x100u16) as u8;
        let hi = (t / 0x100u16) as u8;
        let result = (self.x3 ^ self.x2).wrapping_add(self.x1 ^ hi);
        let lane = low.wrapping_add(self.c);
        let carry_out: u8 = if lane < low {
            1
        } else {
            0
        };
        proof {
            lemma_mod_of_small((s.x3 ^ s.x2) + (s.x1 ^ hi), word_base());
            lemma_carry_split(s.x3 as int * s.mul as int, s.c as int, word_base());
            lemma_mod_bound(mwc_t(s), word_base());
            lemma_carry_recovers(s.x3 as int, s.c as int, 0x100, word_base());
            if s.c < s.mul {
                lemma_carry_preserved(s.x3 as int, s.c as int, s.mul as int, word_base());
            }
        }
        self.x3 = self.x2;
        self.x2 = self.x1;
        self.x1 = lane;
        self.c = hi + carry_out;
        result
    }
}

/// Carry invariant for the 8-bit engine: a carry below the (unchanging)
/// multiplier stays below it after any number of steps.
pub proof fn lemma_carry_invariant(s: State, n: nat)
    requires
        s.c < s.mul,
    ensures
        steps(s, n).c < steps(s, n).mul,
        steps(s, n).mul == s.mul,
    decreases n,
{
    if n > 0 {
        lemma_carry_invariant(s, (n - 1) as nat);
        lemma_carry_preserved(
            steps(s, (n - 1) as nat).x3 as int,
            steps(s, (n - 1) as nat).c as int,
            s.mul as int,
            word_base(),
        );
    }
}

} // verus!
