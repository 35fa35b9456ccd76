//! Lag-3 multiply-with-carry generator with 32-bit words and 128-bit state.

use vstd::prelude::*;
use vstd::arithmetic::div_mod::*;
use vstd::arithmetic::mul::*;
use vstd::bytes::*;
use vstd::slice::*;
use crate::arith::{
    lemma_carry_split, lemma_mul_div_bound, lemma_carry_preserved, lemma_carry_recovers,
    lemma_mod_of_small, lemma_index_split, lemma_ceil_div_chunk,
};

verus! {

/// Multiplier with acceptably good spectra for lags 2, 3 and 4.
pub const MULTIPLIER: u32 = 3487286589;

/// The value space of one word: `2^32`.
pub open spec fn word_base() -> int {
    0x1_0000_0000
}

/// Mathematical model of the generator state: three lanes, newest (`x1`)
/// to oldest (`x3`), plus the carry.
pub struct State {
    pub x1: u32,
    pub x2: u32,
    pub x3: u32,
    pub c: u32,
}

/// The multiply-with-carry quantity of one step.
pub open spec fn mwc_t(s: State) -> int {
    s.x3 * MULTIPLIER + s.c
}

/// High word of `v * MULTIPLIER`.
pub open spec fn mul_hi(v: u32) -> u32 {
    ((v * MULTIPLIER) / word_base()) as u32
}

/// One state advance: the lanes rotate toward oldest and the split of
/// `mwc_t` supplies the new newest lane and the new carry.
pub open spec fn step_state(s: State) -> State {
    State {
        x1: (mwc_t(s) % word_base()) as u32,
        x2: s.x1,
        x3: s.x2,
        c: (mwc_t(s) / word_base()) as u32,
    }
}

/// The output permutation: xor of the two oldest lanes, plus (wrapping)
/// the xor of the newest lane with the fresh multiply high word.
pub open spec fn step_output(s: State) -> u32 {
    (((s.x3 ^ s.x2) + (s.x1 ^ mul_hi(s.x3))) % word_base()) as u32
}

/// `n` state advances.
pub open spec fn steps(s: State, n: nat) -> State
    decreases n,
{
    if n == 0 {
        s
    } else {
        step_state(steps(s, (n - 1) as nat))
    }
}

/// The word emitted by the step that leaves state `steps(s, i)`.
pub open spec fn output_at(s: State, i: nat) -> u32 {
    step_output(steps(s, i))
}

/// The first `n` output words from state `s`.
pub open spec fn output_seq(s: State, n: nat) -> Seq<u32> {
    Seq::new(n, |i: int| output_at(s, i as nat))
}

/// The first `n` bytes of the output stream: each word serialized in
/// little-endian order.
pub open spec fn byte_stream(s: State, n: nat) -> Seq<u8> {
    Seq::new(n, |i: int| spec_u32_to_le_bytes(output_at(s, (i / 4) as nat))[i % 4])
}

/// How many state advances a `fill_bytes` call of length `len` performs:
/// six-word batches cover the whole 24-byte chunks, and the remainder is
/// drawn one word per four bytes.
pub open spec fn fill_steps(len: nat) -> nat {
    (6 * (len / 24) + (len % 24 + 3) / 4) as nat
}

/// The state derived from a 16-byte seed, before priming.
pub open spec fn seed_state(seed: Seq<u8>) -> State
    recommends
        seed.len() == 16,
{
    State {
        x1: spec_u32_from_le_bytes(seed.subrange(4, 8)),
        x2: spec_u32_from_le_bytes(seed.subrange(8, 12)),
        x3: (spec_u32_from_le_bytes(seed.subrange(12, 16)) << 2u32) | 1,
        c: (spec_u32_from_le_bytes(seed.subrange(0, 4)) & 0x3fff_fff8) | 5,
    }
}

/// A permuted congruential generator: lag-3 multiply-with-carry core over
/// 32-bit lanes, with a xor/add output permutation.
#[derive(Clone, PartialEq, Eq, Structural)]
pub struct Mwc128XXA32 {
    x1: u32,
    x2: u32,
    x3: u32,
    c: u32,
}

impl View for Mwc128XXA32 {
    type V = State;

    closed spec fn view(&self) -> State {
        State { x1: self.x1, x2: self.x2, x3: self.x3, c: self.c }
    }
}

/// Splits `val * MULTIPLIER` into its low and high word.
fn multiply(val: u32) -> (r: (u32, u32))
    ensures
        r.0 == (val * MULTIPLIER) % word_base(),
        r.1 == (val * MULTIPLIER) / word_base(),
        r.1 < MULTIPLIER,
{
    proof {
        lemma_mul_upper_bound(val as int, 0xffff_ffff, MULTIPLIER as int, 0xffff_ffff);
        lemma_mul_nonnegative(val as int, MULTIPLIER as int);
        lemma_mul_div_bound(val as int, MULTIPLIER as int, word_base());
        lemma_mod_bound(val as int * MULTIPLIER as int, word_base());
    }
    let t: u64 = (val as u64) * (MULTIPLIER as u64);
    ((t % 0x1_0000_0000u64) as u32, (t / 0x1_0000_0000u64) as u32)
}

/// The output permutation on concrete words.
fn permute(x1: u32, x2: u32, x3: u32, _c: u32, _low: u32, hi: u32) -> (r: u32)
    ensures
        r == ((x3 ^ x2) + (x1 ^ hi)) % word_base(),
{
    proof {
        lemma_mod_of_small((x3 ^ x2) + (x1 ^ hi), word_base());
    }
    (x3 ^ x2).wrapping_add(x1 ^ hi)
}

/// One full step on plain values: returns the output word, the new newest
/// lane, and the new carry.
fn step_parts(x1: u32, x2: u32, x3: u32, c: u32) -> (r: (u32, u32, u32))
    ensures
        r.0 == step_output(State { x1: x1, x2: x2, x3: x3, c: c }),
        r.1 == step_state(State { x1: x1, x2: x2, x3: x3, c: c }).x1,
        r.2 == step_state(State { x1: x1, x2: x2, x3: x3, c: c }).c,
        r.2 <= MULTIPLIER,
        c < MULTIPLIER ==> r.2 < MULTIPLIER,
{
    let (low, hi) = multiply(x3);
    let result = permute(x1, x2, x3, c, low, hi);
    let lane = low.wrapping_add(c);
    let carry_out: u32 = if lane < low {
        1
    } else {
        0
    };
    proof {
        let ghost s = State { x1: x1, x2: x2, x3: x3, c: c };
        lemma_carry_split(x3 as int * MULTIPLIER as int, c as int, word_base());
        lemma_mod_bound(mwc_t(s), word_base());
        lemma_carry_recovers(x3 as int, c as int, MULTIPLIER as int, word_base());
        if c < MULTIPLIER {
            lemma_carry_preserved(x3 as int, c as int, MULTIPLIER as int, word_base());
        }
    }
    (result, lane, hi + carry_out)
}

impl Mwc128XXA32 {
    /// Construct an instance given two keys.  The remaining lane and the
    /// carry take fixed reference constants, and the state is primed by
    /// six discarded steps.
    pub fn new(k1: u32, k2: u32) -> (r: Self)
        ensures
            r@ == steps((State { x1: k1, x2: k2, x3: 0xcafef00d, c: 0xd15ea5e5 }), 6),
            r@.c < MULTIPLIER,
    {
        // x3 must never be zero; the first priming step brings the carry
        // below the multiplier.
        Mwc128XXA32::from_state_incr(k1, k2, 0xcafef00d, 0xd15ea5e5)
    }

    /// Rebuild an instance from raw state parts, exactly as they were
    /// handed out by `state_parts`; no priming happens.
    pub fn from_parts(x1: u32, x2: u32, x3: u32, c: u32) -> (r: Self)
        ensures
            r@ == (State { x1: x1, x2: x2, x3: x3, c: c }),
    {
        Mwc128XXA32 { x1, x2, x3, c }
    }

    /// The raw state, in lane order newest to oldest, then the carry.
    pub fn state_parts(&self) -> (r: (u32, u32, u32, u32))
        ensures
            r.0 == self@.x1,
            r.1 == self@.x2,
            r.2 == self@.x3,
            r.3 == self@.c,
    {
        (self.x1, self.x2, self.x3, self.c)
    }

    fn from_state_incr(x1: u32, x2: u32, x3: u32, c: u32) -> (r: Self)
        requires
            step_state(State { x1: x1, x2: x2, x3: x3, c: c }).c < MULTIPLIER,
        ensures
            r@ == steps((State { x1: x1, x2: x2, x3: x3, c: c }), 6),
            r@.c < MULTIPLIER,
    {
        let mut pcg = Mwc128XXA32 { x1, x2, x3, c };
        let ghost s0 = pcg@;
        // Advance 6 steps to fully mix the keys.
        pcg.gen6();
        proof {
            assert(steps(s0, 1) == step_state(steps(s0, 0)));
            lemma_steps_add(s0, 1, 5);
            lemma_carry_invariant(steps(s0, 1), 5);
        }
        pcg
    }

    /// The next output word.
    pub fn next(&mut self) -> (r: u32)
        ensures
            final(self)@ == step_state(old(self)@),
            r == step_output(old(self)@),
    {
        self.step()
    }

    fn step(&mut self) -> (r: u32)
        ensures
            final(self)@ == step_state(old(self)@),
            r == step_output(old(self)@),
            old(self)@.c < MULTIPLIER ==> final(self)@.c < MULTIPLIER,
    {
        let (result, lane, carry) = step_parts(self.x1, self.x2, self.x3, self.c);
        self.x3 = self.x2;
        self.x2 = self.x1;
        self.x1 = lane;
        self.c = carry;
        result
    }

    /// Produce six consecutive output words in one batch.  The results
    /// and the final state are exactly those of six single steps; the
    /// batch only avoids intermediate writes of lanes and carry.
    pub fn gen6(&mut self) -> (r: [u32; 6])
        ensures
            final(self)@ == steps(old(self)@, 6),
            r@ == output_seq(old(self)@, 6),
    {
        let ghost s0 = self@;
        let (o0, r1, c1) = step_parts(self.x1, self.x2, self.x3, self.c);
        let (o1, r2, c2) = step_parts(r1, self.x1, self.x2, c1);
        let (o2, r3, c3) = step_parts(r2, r1, self.x1, c2);
        let (o3, r4, c4) = step_parts(r3, r2, r1, c3);
        let (o4, r5, c5) = step_parts(r4, r3, r2, c4);
        let (o5, r6, c6) = step_parts(r5, r4, r3, c5);
        self.c = c6;
        self.x1 = r6;
        self.x2 = r5;
        self.x3 = r4;
        let out = [o0, o1, o2, o3, o4, o5];
        proof {
            assert(steps(s0, 1) == step_state(steps(s0, 0)));
            assert(steps(s0, 2) == step_state(steps(s0, 1)));
            assert(steps(s0, 3) == step_state(steps(s0, 2)));
            assert(steps(s0, 4) == step_state(steps(s0, 3)));
            assert(steps(s0, 5) == step_state(steps(s0, 4)));
            assert(steps(s0, 6) == step_state(steps(s0, 5)));
            assert(steps(s0, 1) == (State { x1: r1, x2: s0.x1, x3: s0.x2, c: c1 }));
            assert(steps(s0, 2) == (State { x1: r2, x2: r1, x3: s0.x1, c: c2 }));
            assert(steps(s0, 3) == (State { x1: r3, x2: r2, x3: r1, c: c3 }));
            assert(steps(s0, 4) == (State { x1: r4, x2: r3, x3: r2, c: c4 }));
            assert(steps(s0, 5) == (State { x1: r5, x2: r4, x3: r3, c: c5 }));
            assert(steps(s0, 6) == (State { x1: r6, x2: r5, x3: r4, c: c6 }));
            assert(out@ =~= output_seq(s0, 6));
        }
        out
    }

    /// Derive a generator from a 16-byte seed buffer.  The masking fixes
    /// a few bits of the carry and of the oldest lane to keep both away
    /// from degenerate values; the state is primed by six discarded
    /// steps.
    pub fn from_seed(seed: [u8; 16]) -> (r: Self)
        ensures
            r@ == steps(seed_state(seed@), 6),
            r@.c < MULTIPLIER,
    {
        let s = seed.as_slice();
        let w0 = u32_from_le_bytes(slice_subrange(s, 0, 4));
        let w1 = u32_from_le_bytes(slice_subrange(s, 4, 8));
        let w2 = u32_from_le_bytes(slice_subrange(s, 8, 12));
        let w3 = u32_from_le_bytes(slice_subrange(s, 12, 16));
        // c must stay below the multiplier and must not be 0
        let c = (w0 & 0x3fff_fff8) | 5;
        // x3 must be non-zero, hence two seed bits are discarded
        let x3 = (w3 << 2u32) | 1;
        proof {
            assert((w0 & 0x3fff_fff8) | 5 < 3487286589u32) by (bit_vector);
            lemma_carry_step(State { x1: w1, x2: w2, x3: x3, c: c });
        }
        Mwc128XXA32::from_state_incr(w1, w2, x3, c)
    }

    /// The next output word.
    pub fn next_u32(&mut self) -> (r: u32)
        ensures
            final(self)@ == step_state(old(self)@),
            r == step_output(old(self)@),
    {
        self.step()
    }

    /// Two consecutive output words, the older one in the high bits.
    pub fn next_u64(&mut self) -> (r: u64)
        ensures
            final(self)@ == steps(old(self)@, 2),
            r == ((output_at(old(self)@, 0) as u64) << 32u64) | (output_at(
                old(self)@,
                1,
            ) as u64),
    {
        let ghost s0 = self@;
        let high = self.step();
        let low = self.step();
        proof {
            assert(steps(s0, 1) == step_state(steps(s0, 0)));
            assert(steps(s0, 2) == step_state(steps(s0, 1)));
        }
        ((high as u64) << 32u64) | (low as u64)
    }

    /// Fill `dest` with the little-endian byte stream of the generator.
    /// Whole 24-byte chunks are served from six-word batches; the
    /// remainder is served one word per four bytes.
    pub fn fill_bytes(&mut self, dest: &mut [u8])
        ensures
            final(dest)@.len() == old(dest)@.len(),
            final(dest)@ == byte_stream(old(self)@, old(dest)@.len()),
            final(self)@ == steps(old(self)@, fill_steps(old(dest)@.len())),
    {
        let ghost s0 = self@;
        let len: usize = dest.len();
        let full: usize = len / 24;
        proof {
            lemma_fundamental_div_mod(len as int, 24);
            lemma_mod_bound(len as int, 24);
        }
        let mut bi: usize = 0;
        let mut written: usize = 0;
        while bi < full
            invariant
                len == dest@.len(),
                full == len as int / 24,
                24 * full <= len,
                bi <= full,
                written == 24 * bi,
                self@ == steps(s0, (6 * bi) as nat),
                forall|i: int| 0 <= i < written ==> dest@[i] == byte_stream(s0, len as nat)[i],
            decreases full - bi,
        {
            let words = self.gen6();
            proof {
                lemma_steps_add(s0, (6 * bi) as nat, 6);
            }
            let ghost base = written as nat;
            let mut j: usize = 0;
            while j < 6
                invariant
                    len == dest@.len(),
                    j <= 6,
                    bi < full,
                    24 * full <= len,
                    base == 24 * bi,
                    written == base + 4 * j,
                    self@ == steps(s0, (6 * bi + 6) as nat),
                    words@ == output_seq(steps(s0, (6 * bi) as nat), 6),
                    forall|i: int| 0 <= i < written ==> dest@[i] == byte_stream(s0, len as nat)[i],
                decreases 6 - j,
            {
                let w = words[j];
                proof {
                    lemma_steps_add(s0, (6 * bi) as nat, j as nat);
                    assert(w == output_at(s0, (6 * bi + j) as nat));
                }
                let bytes = u32_to_le_bytes(w);
                let mut k: usize = 0;
                while k < 4
                    invariant
                        len == dest@.len(),
                        k <= 4,
                        written + 4 <= len,
                        written == base + 4 * j,
                        base == 24 * bi,
                        bytes@ == spec_u32_to_le_bytes(w),
                        bytes@.len() == 4,
                        w == output_at(s0, (6 * bi + j) as nat),
                        forall|i: int| 0 <= i < written + k ==> dest@[i] == byte_stream(
                            s0,
                            len as nat,
                        )[i],
                    decreases 4 - k,
                {
                    dest[written + k] = bytes[k];
                    proof {
                        lemma_index_split((6 * bi + j) as nat, k as nat, 4);
                        assert((written + k) as int / 4 == 6 * bi + j);
                        assert((written + k) as int % 4 == k as int);
                    }
                    k += 1;
                }
                written = written + 4;
                j += 1;
            }
            bi += 1;
        }
        let ghost mut wsteps: nat = 0;
        proof {
            if written == len {
                assert(len % 24 == 0);
                assert(fill_steps(len as nat) == 6 * full);
            }
        }
        while written < len
            invariant
                len == dest@.len(),
                full == len as int / 24,
                written <= len,
                written < len ==> written == 24 * full + 4 * wsteps,
                written < len ==> self@ == steps(s0, (6 * full + wsteps) as nat),
                written == len ==> self@ == steps(s0, fill_steps(len as nat)),
                forall|i: int| 0 <= i < written ==> dest@[i] == byte_stream(s0, len as nat)[i],
            decreases len - written,
        {
            let w = self.step();
            proof {
                assert(steps(s0, (6 * full + wsteps + 1) as nat) == step_state(
                    steps(s0, (6 * full + wsteps) as nat),
                ));
                assert(w == output_at(s0, (6 * full + wsteps) as nat));
            }
            let bytes = u32_to_le_bytes(w);
            let remain = len - written;
            let take: usize = if remain >= 4 {
                4
            } else {
                remain
            };
            let mut k: usize = 0;
            while k < take
                invariant
                    len == dest@.len(),
                    k <= take,
                    take <= 4,
                    written + take <= len,
                    written == 24 * full + 4 * wsteps,
                    bytes@ == spec_u32_to_le_bytes(w),
                    bytes@.len() == 4,
                    w == output_at(s0, (6 * full + wsteps) as nat),
                    forall|i: int| 0 <= i < written + k ==> dest@[i] == byte_stream(
                        s0,
                        len as nat,
                    )[i],
                decreases take - k,
            {
                dest[written + k] = bytes[k];
                proof {
                    lemma_index_split((6 * full + wsteps) as nat, k as nat, 4);
                    assert((written + k) as int / 4 == 6 * full + wsteps);
                    assert((written + k) as int % 4 == k as int);
                }
                k += 1;
            }
            written = written + take;
            proof {
                lemma_fundamental_div_mod(len as int, 24);
                lemma_mod_bound(len as int, 24);
                if written == len {
                    let r = len % 24;
                    lemma_ceil_div_chunk(wsteps, r as nat, 4);
                    assert(fill_steps(len as nat) == 6 * full + wsteps + 1);
                }
                wsteps = wsteps + 1;
            }
        }
        proof {
            assert(dest@ =~= byte_stream(s0, len as nat));
        }
    }

    /// Like `fill_bytes`; the fallible shape exists only to mirror a
    /// generic interface and never fails for this generator family.
    pub fn try_fill_bytes(&mut self, dest: &mut [u8]) -> (r: Result<(), rand_core::Error>)
        ensures
            r is Ok,
            final(dest)@ == byte_stream(old(self)@, old(dest)@.len()),
            final(self)@ == steps(old(self)@, fill_steps(old(dest)@.len())),
    {
        self.fill_bytes(dest);
        Ok(())
    }
}

/// Carry invariant: once the carry is below the multiplier, it stays
/// below the multiplier after any number of steps.
pub proof fn lemma_carry_invariant(s: State, n: nat)
    requires
        s.c < MULTIPLIER,
    ensures
        steps(s, n).c < MULTIPLIER,
    decreases n,
{
    if n > 0 {
        lemma_carry_invariant(s, (n - 1) as nat);
        lemma_carry_step(steps(s, (n - 1) as nat));
    }
}

/// One step keeps the carry strictly below the multiplier.
pub proof fn lemma_carry_step(s: State)
    requires
        s.c < MULTIPLIER,
    ensures
        step_state(s).c < MULTIPLIER,
{
    lemma_carry_preserved(s.x3 as int, s.c as int, MULTIPLIER as int, word_base());
}

/// The carry coming out of a step is nonzero exactly when the step
/// quantity reaches the base; in particular it is never zero while the
/// oldest lane is at least 2, and it drops to zero when the oldest lane
/// vanishes.
pub proof fn lemma_carry_nonzero(s: State)
    ensures
        step_state(s).c >= 1 <==> mwc_t(s) >= 0x1_0000_0000,
{
    lemma_mul_nonnegative(s.x3 as int, MULTIPLIER as int);
    lemma_carry_recovers(s.x3 as int, s.c as int, MULTIPLIER as int, word_base());
    if mwc_t(s) >= word_base() {
        lemma_div_is_ordered(word_base(), mwc_t(s), word_base());
        lemma_div_by_self(word_base());
    } else {
        lemma_basic_div(mwc_t(s), word_base());
    }
}

/// Composition of state advances.
pub proof fn lemma_steps_add(s: State, m: nat, n: nat)
    ensures
        steps(s, m + n) == steps(steps(s, m), n),
    decreases n,
{
    if n > 0 {
        lemma_steps_add(s, m, (n - 1) as nat);
    }
}

/// Determinism: two generators seeded from the same bytes produce the
/// same words and pass through the same states, however far they run.
pub proof fn lemma_determinism(seed: Seq<u8>, a: State, b: State, n: nat)
    requires
        a == steps(seed_state(seed), 6),
        b == steps(seed_state(seed), 6),
    ensures
        output_seq(a, n) == output_seq(b, n),
        steps(a, n) == steps(b, n),
{
}

/// Non-degenerate seeding: whatever the seed bytes, the derived oldest
/// lane is odd (hence nonzero) and the derived carry lies strictly
/// between 0 and the multiplier.
pub proof fn lemma_seed_nondegenerate(seed: Seq<u8>)
    ensures
        seed_state(seed).x3 & 1 == 1,
        seed_state(seed).x3 != 0,
        5 <= seed_state(seed).c < MULTIPLIER,
{
    let w3 = spec_u32_from_le_bytes(seed.subrange(12, 16));
    let w0 = spec_u32_from_le_bytes(seed.subrange(0, 4));
    assert(((w3 << 2u32) | 1) & 1 == 1) by (bit_vector);
    assert(((w3 << 2u32) | 1) != 0) by (bit_vector);
    assert(5 <= ((w0 & 0x3fff_fff8) | 5) < 3487286589u32) by (bit_vector);
}

/// Byte/word consistency: reading the byte stream back as little-endian
/// words recovers exactly the directly generated word sequence.
pub proof fn lemma_byte_word_consistency(s: State, n: nat, k: nat)
    requires
        k < n,
    ensures
        spec_u32_from_le_bytes(byte_stream(s, 4 * n).subrange(4 * k as int, 4 * k as int + 4))
            == output_at(s, k),
{
    let w = output_at(s, k);
    lemma_auto_spec_u32_to_from_le_bytes();
    let sub = byte_stream(s, 4 * n).subrange(4 * k as int, 4 * k as int + 4);
    assert forall|i: int| 0 <= i < 4 implies sub[i] == spec_u32_to_le_bytes(w)[i] by {
        lemma_index_split(k, i as nat, 4);
        assert((4 * k + i) / 4 == k as int);
        assert((4 * k + i) % 4 == i);
    }
    assert(sub =~= spec_u32_to_le_bytes(w));
}

} // verus!
