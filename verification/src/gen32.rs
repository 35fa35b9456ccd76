//! Experimental 32-bit multiply-with-carry variant fed from the middle
//! lane.
//!
//! Unlike `Mwc128XXA32`, the multiplier here consumes lane `x2`, giving
//! an effective lag of 2 while three lanes are still carried; the variant
//! exists for comparative statistical testing.

use vstd::prelude::*;
use vstd::arithmetic::div_mod::*;
use vstd::arithmetic::mul::*;
use vstd::bytes::*;
use crate::arith::{
    lemma_carry_split, lemma_mul_div_bound, lemma_carry_preserved, lemma_carry_recovers,
    lemma_mod_of_small, lemma_index_split, lemma_ceil_div_chunk,
};

verus! {

/// Multiplier with acceptably good spectra for lags 2, 3 and 4.
pub const MULTIPLIER: u32 = 3487286589;

/// The value space of one word: `2^32`.
pub open spec fn word_base() -> int {
    0x1_0000_0000
}

/// Mathematical model of the generator state.
pub struct State {
    pub x1: u32,
    pub x2: u32,
    pub x3: u32,
    pub c: u32,
}

/// The multiply-with-carry quantity of one step: here the middle lane
/// feeds the multiplier.
pub open spec fn mwc_t(s: State) -> int {
    s.x2 * MULTIPLIER + s.c
}

/// High word of `v * MULTIPLIER`.
pub open spec fn mul_hi(v: u32) -> u32 {
    ((v * MULTIPLIER) / word_base()) as u32
}

/// One state advance.
pub open spec fn step_state(s: State) -> State {
    State {
        x1: (mwc_t(s) % word_base()) as u32,
        x2: s.x1,
        x3: s.x2,
        c: (mwc_t(s) / word_base()) as u32,
    }
}

/// The output permutation.
pub open spec fn step_output(s: State) -> u32 {
    (((s.x3 ^ s.x2) + (s.x1 ^ mul_hi(s.x2))) % word_base()) as u32
}

/// `n` state advances.
pub open spec fn steps(s: State, n: nat) -> State
    decreases n,
{
    if n == 0 {
        s
    } else {
        step_state(steps(s, (n - 1) as nat))
    }
}

/// The word emitted by the step that leaves state `steps(s, i)`.
pub open spec fn output_at(s: State, i: nat) -> u32 {
    step_output(steps(s, i))
}

/// The first `n` output words from state `s`.
pub open spec fn output_seq(s: State, n: nat) -> Seq<u32> {
    Seq::new(n, |i: int| output_at(s, i as nat))
}

/// The first `n` bytes of the output stream.
pub open spec fn byte_stream(s: State, n: nat) -> Seq<u8> {
    Seq::new(n, |i: int| spec_u32_to_le_bytes(output_at(s, (i / 4) as nat))[i % 4])
}

/// How many state advances a `fill_bytes` call of length `len` performs:
/// the words are drawn in batches of four, sixteen bytes per batch.
pub open spec fn fill_steps(len: nat) -> nat {
    (4 * ((len + 15) / 16)) as nat
}

/// The experimental middle-lane generator.
#[derive(Clone, PartialEq, Eq, Structural)]
pub struct Gen32 {
    x1: u32,
    x2: u32,
    x3: u32,
    c: u32,
}

impl View for Gen32 {
    type V = State;

    closed spec fn view(&self) -> State {
        State { x1: self.x1, x2: self.x2, x3: self.x3, c: self.c }
    }
}

impl Default for Gen32 {
    /// The fixed reference start state of this variant.
    fn default() -> (r: Self)
        ensures
            r@ == (State { x1: 123, x2: 45, x3: 67, c: 89 }),
    {
        Gen32 { x1: 123, x2: 45, x3: 67, c: 89 }
    }
}

/// Splits `val * MULTIPLIER` into its low and high word.
fn multiply(val: u32) -> (r: (u32, u32))
    ensures
        r.0 == (val * MULTIPLIER) % word_base(),
        r.1 == (val * MULTIPLIER) / word_base(),
        r.1 < MULTIPLIER,
{
    proof {
        lemma_mul_upper_bound(val as int, 0xffff_ffff, MULTIPLIER as int, 0xffff_ffff);
        lemma_mul_nonnegative(val as int, MULTIPLIER as int);
        lemma_mul_div_bound(val as int, MULTIPLIER as int, word_base());
        lemma_mod_bound(val as int * MULTIPLIER as int, word_base());
    }
    let t: u64 = (val as u64) * (MULTIPLIER as u64);
    ((t % 0x1_0000_0000u64) as u32, (t / 0x1_0000_0000u64) as u32)
}

impl Gen32 {
    /// The next output word.
    pub fn next(&mut self) -> (r: u32)
        ensures
            final(self)@ == step_state(old(self)@),
            r == step_output(old(self)@),
    {
        self.step()
    }

    fn step(&mut self) -> (r: u32)
        ensures
            final(self)@ == step_state(old(self)@),
            r == step_output(old(self)@),
            old(self)@.c < MULTIPLIER ==> final(self)@.c < MULTIPLIER,
    {
        let ghost s = self@;
        let (low, hi) = multiply(self.x2);
        let result = (self.x3 ^ self.x2).wrapping_add(self.x1 ^ hi);
        let lane = low.wrapping_add(self.c);
        let carry_out: u32 = if lane < low {
            1
        } else {
            0
        };
        proof {
            lemma_mod_of_small((s.x3 ^ s.x2) + (s.x1 ^ hi), word_base());
            lemma_carry_split(s.x2 as int * MULTIPLIER as int, s.c as int, word_base());
            lemma_mod_bound(mwc_t(s), word_base());
            lemma_carry_recovers(s.x2 as int, s.c as int, MULTIPLIER as int, word_base());
            if s.c < MULTIPLIER {
                lemma_carry_preserved(s.x2 as int, s.c as int, MULTIPLIER as int, word_base());
            }
        }
        self.x3 = self.x2;
        self.x2 = self.x1;
        self.x1 = lane;
        self.c = hi + carry_out;
        result
    }

    /// Produce four consecutive output words; results and final state are
    /// exactly those of four single steps.
    pub fn gen4(&mut self) -> (r: [u32; 4])
        ensures
            final(self)@ == steps(old(self)@, 4),
            r@ == output_seq(old(self)@, 4),
    {
        let ghost s0 = self@;
        let o0 = self.step();
        let o1 = self.step();
        let o2 = self.step();
        let o3 = self.step();
        let out = [o0, o1, o2, o3];
        proof {
            assert(steps(s0, 1) == step_state(steps(s0, 0)));
            assert(steps(s0, 2) == step_state(steps(s0, 1)));
            assert(steps(s0, 3) == step_state(steps(s0, 2)));
            assert(steps(s0, 4) == step_state(steps(s0, 3)));
            assert(out@ =~= output_seq(s0, 4));
        }
        out
    }

    /// The next output word.
    pub fn next_u32(&mut self) -> (r: u32)
        ensures
            final(self)@ == step_state(old(self)@),
            r == step_output(old(self)@),
    {
        self.step()
    }

    /// Two consecutive output words, the older one in the high bits.
    pub fn next_u64(&mut self) -> (r: u64)
        ensures
            final(self)@ == steps(old(self)@, 2),
            r == ((output_at(old(self)@, 0) as u64) << 32u64) | (output_at(
                old(self)@,
                1,
            ) as u64),
    {
        let ghost s0 = self@;
        let high = self.step();
        let low = self.step();
        proof {
            assert(steps(s0, 1) == step_state(steps(s0, 0)));
            assert(steps(s0, 2) == step_state(steps(s0, 1)));
        }
        ((high as u64) << 32u64) | (low as u64)
    }

    /// Fill `dest` with the little-endian byte stream of the generator.
    pub fn fill_bytes(&mut self, dest: &mut [u8])
        ensures
            final(dest)@.len() == old(dest)@.len(),
            final(dest)@ == byte_stream(old(self)@, old(dest)@.len()),
            final(self)@ == steps(old(self)@, fill_steps(old(dest)@.len())),
    {
        fill_bytes_impl(self, dest)
    }

    /// Like `fill_bytes`; the fallible shape exists only to mirror a
    /// generic interface and never fails for this generator family.
    pub fn try_fill_bytes(&mut self, dest: &mut [u8]) -> (r: Result<(), rand_core::Error>)
        ensures
            r is Ok,
            final(dest)@ == byte_stream(old(self)@, old(dest)@.len()),
            final(self)@ == steps(old(self)@, fill_steps(old(dest)@.len())),
    {
        self.fill_bytes(dest);
        Ok(())
    }
}

/// The byte-stream serializer behind `Gen32::fill_bytes`: batches of four
/// words, each copied out in little-endian order, the last one possibly
/// partial.
fn fill_bytes_impl(rng: &mut Gen32, dest: &mut [u8])
    ensures
        final(dest)@.len() == old(dest)@.len(),
        final(dest)@ == byte_stream(old(rng)@, old(dest)@.len()),
        final(rng)@ == steps(old(rng)@, fill_steps(old(dest)@.len())),
{
    let ghost s0 = rng@;
    let len: usize = dest.len();
    let ghost mut batches: nat = 0;
    let mut written: usize = 0;
    proof {
        assert(fill_steps(0) == 0);
    }
    while written < len
        invariant
            len == dest@.len(),
            written <= len,
            written < len ==> written == 16 * batches,
            written < len ==> rng@ == steps(s0, (4 * batches) as nat),
            written == len ==> rng@ == steps(s0, fill_steps(len as nat)),
            forall|i: int| 0 <= i < written ==> dest@[i] == byte_stream(s0, len as nat)[i],
        decreases len - written,
    {
        let ghost base = written as nat;
        let words = rng.gen4();
        proof {
            lemma_steps_add(s0, (4 * batches) as nat, 4);
        }
        let mut j: usize = 0;
        while j < 4 && written < len
            invariant
                len == dest@.len(),
                j <= 4,
                base == 16 * batches,
                base + 4 * j <= len ==> written == base + 4 * j,
                base + 4 * j > len ==> written == len,
                written <= len,
                base < len,
                rng@ == steps(s0, (4 * batches + 4) as nat),
                words@ == output_seq(steps(s0, (4 * batches) as nat), 4),
                forall|i: int| 0 <= i < written ==> dest@[i] == byte_stream(s0, len as nat)[i],
            decreases 4 - j,
        {
            let w = words[j];
            proof {
                lemma_steps_add(s0, (4 * batches) as nat, j as nat);
                assert(w == output_at(s0, (4 * batches + j) as nat));
            }
            let bytes = u32_to_le_bytes(w);
            let remain = len - written;
            let take: usize = if remain >= 4 {
                4
            } else {
                remain
            };
            let mut k: usize = 0;
            while k < take
                invariant
                    len == dest@.len(),
                    k <= take,
                    take <= 4,
                    written + take <= len,
                    written == base + 4 * j,
                    base == 16 * batches,
                    bytes@ == spec_u32_to_le_bytes(w),
                    bytes@.len() == 4,
                    w == output_at(s0, (4 * batches + j) as nat),
                    forall|i: int| 0 <= i < written + k ==> dest@[i] == byte_stream(
                        s0,
                        len as nat,
                    )[i],
                decreases take - k,
            {
                dest[written + k] = bytes[k];
                proof {
                    lemma_index_split((4 * batches + j) as nat, k as nat, 4);
                    assert((written + k) as int / 4 == 4 * batches + j);
                    assert((written + k) as int % 4 == k as int);
                }
                k += 1;
            }
            written = written + take;
            j += 1;
            proof {
                if take < 4 {
                    assert(written == len);
                }
                if written == len {
                    assert(len <= base + 16);
                    lemma_ceil_div_chunk(batches, len as nat, 16);
                    assert(fill_steps(len as nat) == 4 * batches + 4);
                }
            }
        }
        proof {
            batches = batches + 1;
        }
    }
    proof {
        assert(dest@ =~= byte_stream(s0, len as nat));
    }
}

/// Carry invariant: once the carry is below the multiplier, it stays
/// below the multiplier after any number of steps.
pub proof fn lemma_carry_invariant(s: State, n: nat)
    requires
        s.c < MULTIPLIER,
    ensures
        steps(s, n).c < MULTIPLIER,
    decreases n,
{
    if n > 0 {
        lemma_carry_invariant(s, (n - 1) as nat);
        lemma_carry_preserved(
            steps(s, (n - 1) as nat).x2 as int,
            steps(s, (n - 1) as nat).c as int,
            MULTIPLIER as int,
            word_base(),
        );
    }
}

/// Composition of state advances.
pub proof fn lemma_steps_add(s: State, m: nat, n: nat)
    ensures
        steps(s, m + n) == steps(steps(s, m), n),
    decreases n,
{
    if n > 0 {
        lemma_steps_add(s, m, (n - 1) as nat);
    }
}

/// Byte/word consistency: reading the byte stream back as little-endian
/// words recovers exactly the directly generated word sequence.
pub proof fn lemma_byte_word_consistency(s: State, n: nat, k: nat)
    requires
        k < n,
    ensures
        spec_u32_from_le_bytes(byte_stream(s, 4 * n).subrange(4 * k as int, 4 * k as int + 4))
            == output_at(s, k),
{
    let w = output_at(s, k);
    lemma_auto_spec_u32_to_from_le_bytes();
    let sub = byte_stream(s, 4 * n).subrange(4 * k as int, 4 * k as int + 4);
    assert forall|i: int| 0 <= i < 4 implies sub[i] == spec_u32_to_le_bytes(w)[i] by {
        lemma_index_split(k, i as nat, 4);
        assert((4 * k + i) / 4 == k as int);
        assert((4 * k + i) % 4 == i);
    }
    assert(sub =~= spec_u32_to_le_bytes(w));
}

} // verus!
