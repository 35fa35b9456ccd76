//! Lag-3 multiply-with-carry generator with 64-bit words and 256-bit state.

use vstd::prelude::*;
use vstd::arithmetic::div_mod::*;
use vstd::arithmetic::mul::*;
use vstd::bytes::*;
use vstd::slice::*;
use crate::arith::{
    lemma_carry_split, lemma_mul_div_bound, lemma_carry_preserved, lemma_carry_recovers,
    lemma_mod_of_small, lemma_index_split, lemma_ceil_div_chunk,
};

verus! {

/// Multiplier chosen offline for spectral quality at lag 3.
pub const MULTIPLIER: u64 = 0xfeb3_4465_7c0a_f413;

/// The value space of one word: `2^64`.
pub open spec fn word_base() -> int {
    0x1_0000_0000_0000_0000
}

/// Mathematical model of the generator state: three lanes, newest (`x1`)
/// to oldest (`x3`), plus the carry.
pub struct State {
    pub x1: u64,
    pub x2: u64,
    pub x3: u64,
    pub c: u64,
}

/// The multiply-with-carry quantity of one step: the oldest lane times the
/// multiplier, plus the carry.  Its split at `2^64` gives the new lane and
/// the new carry.
pub open spec fn mwc_t(s: State) -> int {
    s.x3 * MULTIPLIER + s.c
}

/// High word of `v * MULTIPLIER`.
pub open spec fn mul_hi(v: u64) -> u64 {
    ((v * MULTIPLIER) / word_base()) as u64
}

/// One state advance: the lanes rotate toward oldest and the split of
/// `mwc_t` supplies the new newest lane and the new carry.
pub open spec fn step_state(s: State) -> State {
    State {
        x1: (mwc_t(s) % word_base()) as u64,
        x2: s.x1,
        x3: s.x2,
        c: (mwc_t(s) / word_base()) as u64,
    }
}

/// The output permutation: xor of the two oldest lanes, plus (wrapping)
/// the xor of the newest lane with the fresh multiply high word.
pub open spec fn step_output(s: State) -> u64 {
    (((s.x3 ^ s.x2) + (s.x1 ^ mul_hi(s.x3))) % word_base()) as u64
}

/// `n` state advances.
pub open spec fn steps(s: State, n: nat) -> State
    decreases n,
{
    if n == 0 {
        s
    } else {
        step_state(steps(s, (n - 1) as nat))
    }
}

/// The word emitted by the step that leaves state `steps(s, i)`.
pub open spec fn output_at(s: State, i: nat) -> u64 {
    step_output(steps(s, i))
}

/// The first `n` output words from state `s`.
pub open spec fn output_seq(s: State, n: nat) -> Seq<u64> {
    Seq::new(n, |i: int| output_at(s, i as nat))
}

/// The first `n` bytes of the output stream: each word serialized in
/// little-endian order.
pub open spec fn byte_stream(s: State, n: nat) -> Seq<u8> {
    Seq::new(n, |i: int| spec_u64_to_le_bytes(output_at(s, (i / 8) as nat))[i % 8])
}

/// How many state advances a `fill_bytes` call of length `len` performs:
/// the words are drawn in batches of four, and a batch is started whenever
/// bytes are still owed.
pub open spec fn fill_steps(len: nat) -> nat {
    (4 * ((len + 31) / 32)) as nat
}

/// The state derived from a 32-byte seed, before priming: the middle words
/// become the young lanes; the oldest lane is forced odd and the carry is
/// masked below the multiplier with a fixed odd low pattern.
pub open spec fn seed_state(seed: Seq<u8>) -> State
    recommends
        seed.len() == 32,
{
    State {
        x1: spec_u64_from_le_bytes(seed.subrange(8, 16)),
        x2: spec_u64_from_le_bytes(seed.subrange(16, 24)),
        x3: (spec_u64_from_le_bytes(seed.subrange(24, 32)) << 2u64) | 1,
        c: (spec_u64_from_le_bytes(seed.subrange(0, 8)) & 0x3fff_ffff_ffff_fff8) | 5,
    }
}

/// A permuted congruential generator: lag-3 multiply-with-carry core over
/// 64-bit lanes, with a xor/add output permutation.
#[derive(Clone, PartialEq, Eq, Structural)]
pub struct Mwc256XXA64 {
    x1: u64,
    x2: u64,
    x3: u64,
    c: u64,
}

impl View for Mwc256XXA64 {
    type V = State;

    closed spec fn view(&self) -> State {
        State { x1: self.x1, x2: self.x2, x3: self.x3, c: self.c }
    }
}

/// Splits `val * MULTIPLIER` into its low and high word.
fn multiply(val: u64) -> (r: (u64, u64))
    ensures
        r.0 == (val * MULTIPLIER) % word_base(),
        r.1 == (val * MULTIPLIER) / word_base(),
        r.1 < MULTIPLIER,
{
    proof {
        lemma_mul_upper_bound(
            val as int,
            0xffff_ffff_ffff_ffff,
            MULTIPLIER as int,
            0xffff_ffff_ffff_ffff,
        );
        lemma_mul_nonnegative(val as int, MULTIPLIER as int);
        lemma_mul_div_bound(val as int, MULTIPLIER as int, word_base());
        lemma_mod_bound(val as int * MULTIPLIER as int, word_base());
    }
    let t: u128 = (val as u128) * (MULTIPLIER as u128);
    ((t % 0x1_0000_0000_0000_0000u128) as u64, (t / 0x1_0000_0000_0000_0000u128) as u64)
}

/// The output permutation on concrete words.
fn permute(x1: u64, x2: u64, x3: u64, _c: u64, _low: u64, hi: u64) -> (r: u64)
    ensures
        r == ((x3 ^ x2) + (x1 ^ hi)) % word_base(),
{
    proof {
        lemma_mod_of_small((x3 ^ x2) + (x1 ^ hi), word_base());
    }
    (x3 ^ x2).wrapping_add(x1 ^ hi)
}

/// One full step on plain values: returns the output word, the new newest
/// lane, and the new carry.
fn step_parts(x1: u64, x2: u64, x3: u64, c: u64) -> (r: (u64, u64, u64))
    ensures
        r.0 == step_output(State { x1: x1, x2: x2, x3: x3, c: c }),
        r.1 == step_state(State { x1: x1, x2: x2, x3: x3, c: c }).x1,
        r.2 == step_state(State { x1: x1, x2: x2, x3: x3, c: c }).c,
        r.2 <= MULTIPLIER,
        c < MULTIPLIER ==> r.2 < MULTIPLIER,
{
    let (low, hi) = multiply(x3);
    let result = permute(x1, x2, x3, c, low, hi);
    let lane = low.wrapping_add(c);
    let carry_out: u64 = if lane < low {
        1
    } else {
        0
    };
    proof {
        let ghost s = State { x1: x1, x2: x2, x3: x3, c: c };
        lemma_carry_split(x3 as int * MULTIPLIER as int, c as int, word_base());
        lemma_mod_bound(mwc_t(s), word_base());
        lemma_carry_recovers(x3 as int, c as int, MULTIPLIER as int, word_base());
        if c < MULTIPLIER {
            lemma_carry_preserved(x3 as int, c as int, MULTIPLIER as int, word_base());
        }
    }
    (result, lane, hi + carry_out)
}

impl Mwc256XXA64 {
    /// Construct an instance given two keys.  The remaining lane and the
    /// carry take fixed reference constants, and the state is primed by
    /// six discarded steps.
    pub fn new(k1: u64, k2: u64) -> (r: Self)
        ensures
            r@ == steps(
                (State { x1: k1, x2: k2, x3: 0xcafef00d_d15ea5e5, c: 0x14057b7e_f767814f }),
                6,
            ),
            r@.c < MULTIPLIER,
    {
        // x3 must never be zero; c must stay below the multiplier.
        Mwc256XXA64::from_state_incr(k1, k2, 0xcafef00d_d15ea5e5, 0x14057b7e_f767814f)
    }

    /// Rebuild an instance from raw state parts, exactly as they were
    /// handed out by `state_parts`; no priming happens.
    pub fn from_parts(x1: u64, x2: u64, x3: u64, c: u64) -> (r: Self)
        ensures
            r@ == (State { x1: x1, x2: x2, x3: x3, c: c }),
    {
        Mwc256XXA64 { x1, x2, x3, c }
    }

    /// The raw state, in lane order newest to oldest, then the carry.
    pub fn state_parts(&self) -> (r: (u64, u64, u64, u64))
        ensures
            r.0 == self@.x1,
            r.1 == self@.x2,
            r.2 == self@.x3,
            r.3 == self@.c,
    {
        (self.x1, self.x2, self.x3, self.c)
    }

    fn from_state_incr(x1: u64, x2: u64, x3: u64, c: u64) -> (r: Self)
        requires
            c < MULTIPLIER,
        ensures
            r@ == steps((State { x1: x1, x2: x2, x3: x3, c: c }), 6),
            r@.c < MULTIPLIER,
    {
        let mut pcg = Mwc256XXA64 { x1, x2, x3, c };
        let ghost s0 = pcg@;
        // Advance 6 steps to fully mix the keys.
        pcg.step();
        pcg.step();
        pcg.step();
        pcg.step();
        pcg.step();
        pcg.step();
        proof {
            assert(steps(s0, 1) == step_state(steps(s0, 0)));
            assert(steps(s0, 2) == step_state(steps(s0, 1)));
            assert(steps(s0, 3) == step_state(steps(s0, 2)));
            assert(steps(s0, 4) == step_state(steps(s0, 3)));
            assert(steps(s0, 5) == step_state(steps(s0, 4)));
            assert(steps(s0, 6) == step_state(steps(s0, 5)));
            lemma_carry_invariant(s0, 6);
        }
        pcg
    }

    /// Produce four consecutive output words in one batch.  The results
    /// and the final state are exactly those of four single steps; the
    /// batch only avoids intermediate writes of lanes and carry.
    pub fn gen4(&mut self) -> (r: [u64; 4])
        ensures
            final(self)@ == steps(old(self)@, 4),
            r@ == output_seq(old(self)@, 4),
    {
        let ghost s0 = self@;
        let (o0, r1, c1) = step_parts(self.x1, self.x2, self.x3, self.c);
        let (o1, r2, c2) = step_parts(r1, self.x1, self.x2, c1);
        let (o2, r3, c3) = step_parts(r2, r1, self.x1, c2);
        let (o3, r4, c4) = step_parts(r3, r2, r1, c3);
        self.c = c4;
        self.x1 = r4;
        self.x2 = r3;
        self.x3 = r2;
        let out = [o0, o1, o2, o3];
        proof {
            assert(steps(s0, 1) == step_state(steps(s0, 0)));
            assert(steps(s0, 2) == step_state(steps(s0, 1)));
            assert(steps(s0, 3) == step_state(steps(s0, 2)));
            assert(steps(s0, 4) == step_state(steps(s0, 3)));
            assert(steps(s0, 1) == (State { x1: r1, x2: s0.x1, x3: s0.x2, c: c1 }));
            assert(steps(s0, 2) == (State { x1: r2, x2: r1, x3: s0.x1, c: c2 }));
            assert(steps(s0, 3) == (State { x1: r3, x2: r2, x3: r1, c: c3 }));
            assert(steps(s0, 4) == (State { x1: r4, x2: r3, x3: r2, c: c4 }));
            assert(out@ =~= output_seq(s0, 4));
        }
        out
    }

    fn step(&mut self) -> (r: u64)
        ensures
            final(self)@ == step_state(old(self)@),
            r == step_output(old(self)@),
            old(self)@.c < MULTIPLIER ==> final(self)@.c < MULTIPLIER,
    {
        let (result, lane, carry) = step_parts(self.x1, self.x2, self.x3, self.c);
        self.x3 = self.x2;
        self.x2 = self.x1;
        self.x1 = lane;
        self.c = carry;
        result
    }

    /// Derive a generator from a 32-byte seed buffer.  The masking fixes
    /// a few bits of the carry and of the oldest lane to keep both away
    /// from degenerate values; the state is primed by six discarded
    /// steps.
    pub fn from_seed(seed: [u8; 32]) -> (r: Self)
        ensures
            r@ == steps(seed_state(seed@), 6),
            r@.c < MULTIPLIER,
    {
        let s = seed.as_slice();
        let w0 = u64_from_le_bytes(slice_subrange(s, 0, 8));
        let w1 = u64_from_le_bytes(slice_subrange(s, 8, 16));
        let w2 = u64_from_le_bytes(slice_subrange(s, 16, 24));
        let w3 = u64_from_le_bytes(slice_subrange(s, 24, 32));
        // c must stay below the multiplier and must not be 0
        let c = (w0 & 0x3fff_ffff_ffff_fff8) | 5;
        // x3 must be non-zero, hence two seed bits are discarded
        let x3 = (w3 << 2u64) | 1;
        proof {
            assert((w0 & 0x3fff_ffff_ffff_fff8) | 5 < 0xfeb3_4465_7c0a_f413u64) by (bit_vector);
        }
        Mwc256XXA64::from_state_incr(w1, w2, x3, c)
    }

    /// The next output word, truncated to 32 bits.
    pub fn next_u32(&mut self) -> (r: u32)
        ensures
            final(self)@ == step_state(old(self)@),
            r == step_output(old(self)@) as u32,
    {
        #[verifier::truncate]
        (self.step() as u32)
    }

    /// The next output word.
    pub fn next_u64(&mut self) -> (r: u64)
        ensures
            final(self)@ == step_state(old(self)@),
            r == step_output(old(self)@),
    {
        self.step()
    }

    /// Fill `dest` with the little-endian byte stream of the generator.
    /// Words are drawn in batches of four; the bytes are exactly the
    /// prefix of the word stream's serialization.
    pub fn fill_bytes(&mut self, dest: &mut [u8])
        ensures
            final(dest)@.len() == old(dest)@.len(),
            final(dest)@ == byte_stream(old(self)@, old(dest)@.len()),
            final(self)@ == steps(old(self)@, fill_steps(old(dest)@.len())),
    {
        let ghost s0 = self@;
        let len: usize = dest.len();
        let ghost mut batches: nat = 0;
        let mut written: usize = 0;
        proof {
            assert(fill_steps(0) == 0);
        }
        while written < len
            invariant
                len == dest@.len(),
                written <= len,
                written < len ==> written == 32 * batches,
                written < len ==> self@ == steps(s0, (4 * batches) as nat),
                written == len ==> self@ == steps(s0, fill_steps(len as nat)),
                forall|i: int| 0 <= i < written ==> dest@[i] == byte_stream(s0, len as nat)[i],
            decreases len - written,
        {
            let ghost base = written as nat;
            let words = self.gen4();
            proof {
                lemma_steps_add(s0, (4 * batches) as nat, 4);
            }
            let mut j: usize = 0;
            while j < 4 && written < len
                invariant
                    len == dest@.len(),
                    j <= 4,
                    base == 32 * batches,
                    base + 8 * j <= len ==> written == base + 8 * j,
                    base + 8 * j > len ==> written == len,
                    written <= len,
                    base < len,
                    self@ == steps(s0, (4 * batches + 4) as nat),
                    words@ == output_seq(steps(s0, (4 * batches) as nat), 4),
                    forall|i: int| 0 <= i < written ==> dest@[i] == byte_stream(s0, len as nat)[i],
                decreases 4 - j,
            {
                let w = words[j];
                proof {
                    lemma_steps_add(s0, (4 * batches) as nat, j as nat);
                    assert(w == output_at(s0, (4 * batches + j) as nat));
                }
                let bytes = u64_to_le_bytes(w);
                let remain = len - written;
                let take: usize = if remain >= 8 {
                    8
                } else {
                    remain
                };
                let mut k: usize = 0;
                while k < take
                    invariant
                        len == dest@.len(),
                        k <= take,
                        take <= 8,
                        written + take <= len,
                        written == base + 8 * j,
                        base == 32 * batches,
                        bytes@ == spec_u64_to_le_bytes(w),
                        bytes@.len() == 8,
                        w == output_at(s0, (4 * batches + j) as nat),
                        forall|i: int| 0 <= i < written + k ==> dest@[i] == byte_stream(
                            s0,
                            len as nat,
                        )[i],
                    decreases take - k,
                {
                    dest[written + k] = bytes[k];
                    proof {
                        lemma_index_split((4 * batches + j) as nat, k as nat, 8);
                        assert((written + k) as int / 8 == 4 * batches + j);
                        assert((written + k) as int % 8 == k as int);
                    }
                    k += 1;
                }
                written = written + take;
                j += 1;
                proof {
                    if take < 8 {
                        assert(written == len);
                    }
                    if written == len {
                        lemma_ceil_div_chunk(batches, len as nat, 32);
                        assert(fill_steps(len as nat) == 4 * batches + 4);
                    }
                }
            }
            proof {
                batches = batches + 1;
            }
        }
        proof {
            assert(dest@ =~= byte_stream(s0, len as nat));
        }
    }

    /// Like `fill_bytes`; the fallible shape exists only to mirror a
    /// generic interface and never fails for this generator family.
    pub fn try_fill_bytes(&mut self, dest: &mut [u8]) -> (r: Result<(), rand_core::Error>)
        ensures
            r is Ok,
            final(dest)@ == byte_stream(old(self)@, old(dest)@.len()),
            final(self)@ == steps(old(self)@, fill_steps(old(dest)@.len())),
    {
        self.fill_bytes(dest);
        Ok(())
    }
}

/// Carry invariant: once the carry is below the multiplier, it stays
/// below the multiplier after any number of steps.
pub proof fn lemma_carry_invariant(s: State, n: nat)
    requires
        s.c < MULTIPLIER,
    ensures
        steps(s, n).c < MULTIPLIER,
    decreases n,
{
    if n > 0 {
        lemma_carry_invariant(s, (n - 1) as nat);
        lemma_carry_step(steps(s, (n - 1) as nat));
    }
}

/// One step keeps the carry strictly below the multiplier.
pub proof fn lemma_carry_step(s: State)
    requires
        s.c < MULTIPLIER,
    ensures
        step_state(s).c < MULTIPLIER,
{
    lemma_carry_preserved(s.x3 as int, s.c as int, MULTIPLIER as int, word_base());
}

/// The carry coming out of a step is nonzero exactly when the step
/// quantity reaches the base; in particular it is never zero while the
/// oldest lane is at least 2, and it drops to zero when the oldest lane
/// vanishes.
pub proof fn lemma_carry_nonzero(s: State)
    ensures
        step_state(s).c >= 1 <==> mwc_t(s) >= 0x1_0000_0000_0000_0000,
{
    lemma_mul_nonnegative(s.x3 as int, MULTIPLIER as int);
    lemma_carry_recovers(s.x3 as int, s.c as int, MULTIPLIER as int, word_base());
    if mwc_t(s) >= word_base() {
        lemma_div_is_ordered(word_base(), mwc_t(s), word_base());
        lemma_div_by_self(word_base());
    } else {
        lemma_basic_div(mwc_t(s), word_base());
    }
}

/// Composition of state advances.
pub proof fn lemma_steps_add(s: State, m: nat, n: nat)
    ensures
        steps(s, m + n) == steps(steps(s, m), n),
    decreases n,
{
    if n > 0 {
        lemma_steps_add(s, m, (n - 1) as nat);
    }
}

/// Determinism: two generators seeded from the same bytes produce the
/// same words and pass through the same states, however far they run.
pub proof fn lemma_determinism(seed: Seq<u8>, a: State, b: State, n: nat)
    requires
        a == steps(seed_state(seed), 6),
        b == steps(seed_state(seed), 6),
    ensures
        output_seq(a, n) == output_seq(b, n),
        steps(a, n) == steps(b, n),
{
}

/// Non-degenerate seeding: whatever the seed bytes, the derived oldest
/// lane is odd (hence nonzero) and the derived carry lies strictly
/// between 0 and the multiplier.
pub proof fn lemma_seed_nondegenerate(seed: Seq<u8>)
    ensures
        seed_state(seed).x3 & 1 == 1,
        seed_state(seed).x3 != 0,
        5 <= seed_state(seed).c < MULTIPLIER,
{
    let w3 = spec_u64_from_le_bytes(seed.subrange(24, 32));
    let w0 = spec_u64_from_le_bytes(seed.subrange(0, 8));
    assert(((w3 << 2u64) | 1) & 1 == 1) by (bit_vector);
    assert(((w3 << 2u64) | 1) != 0) by (bit_vector);
    assert(5 <= ((w0 & 0x3fff_ffff_ffff_fff8) | 5) < 0xfeb3_4465_7c0a_f413u64) by (bit_vector);
}

/// Byte/word consistency: reading the byte stream back as little-endian
/// words recovers exactly the directly generated word sequence.
pub proof fn lemma_byte_word_consistency(s: State, n: nat, k: nat)
    requires
        k < n,
    ensures
        spec_u64_from_le_bytes(byte_stream(s, 8 * n).subrange(8 * k as int, 8 * k as int + 8))
            == output_at(s, k),
{
    let w = output_at(s, k);
    lemma_auto_spec_u64_to_from_le_bytes();
    let sub = byte_stream(s, 8 * n).subrange(8 * k as int, 8 * k as int + 8);
    assert forall|i: int| 0 <= i < 8 implies sub[i] == spec_u64_to_le_bytes(w)[i] by {
        lemma_index_split(k, i as nat, 8);
        assert((8 * k + i) / 8 == k as int);
        assert((8 * k + i) % 8 == i);
    }
    assert(sub =~= spec_u64_to_le_bytes(w));
}

} // verus!
