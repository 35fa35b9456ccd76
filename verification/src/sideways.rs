//! Bit-plane transposition of an eight-byte block, used to read a byte
//! stream "sideways": output byte `p` collects bit `p` of every input
//! byte, with input byte `i` landing in bit `i`.

use vstd::prelude::*;

verus! {

/// Bit `i` of byte `b`, as 0 or 1.
pub open spec fn bit(b: u8, i: u8) -> u8 {
    (b >> i) & 1
}

proof fn lemma_transpose_bits(b: u8, x: u8, p: u8, i: u8, j: u8)
    by (bit_vector)
    requires
        i < 8,
        j < 8,
        p < 8,
    ensures
        ((x >> p) & 1) <= 1,
        (0u8 >> j) & 1 == 0,
        j != i ==> ((b | (((x >> p) & 1) << i)) >> j) & 1 == (b >> j) & 1,
        (b >> i) & 1 == 0 ==> ((b | (((x >> p) & 1) << i)) >> i) & 1 == (x >> p) & 1,
{
}

/// Transpose the eight-by-eight bit matrix held in `input`: bit `i` of
/// output byte `p` equals bit `p` of input byte `i`.
pub fn flip_sideways(input: [u8; 8]) -> (r: [u8; 8])
    ensures
        forall|p: u8, i: u8|
            p < 8 && i < 8 ==> #[trigger] bit(r@[p as int], i) == bit(input@[i as int], p),
{
    let mut result = [0u8, 0u8, 0u8, 0u8, 0u8, 0u8, 0u8, 0u8];
    let mut pos: usize = 0;
    while pos < 8
        invariant
            pos <= 8,
            result@.len() == 8,
            forall|p: u8, i: u8|
                p < pos && i < 8 ==> #[trigger] bit(result@[p as int], i) == bit(
                    input@[i as int],
                    p,
                ),
        decreases 8 - pos,
    {
        let mut byte: u8 = 0;
        let mut i: usize = 0;
        proof {
            assert forall|j: u8| j < 8 implies bit(0u8, j) == 0 by {
                lemma_transpose_bits(0u8, 0u8, 0u8, 0u8, j);
            }
        }
        while i < 8
            invariant
                i <= 8,
                pos < 8,
                forall|j: u8| j < i ==> bit(byte, j) == bit(input@[j as int], pos as u8),
                forall|j: u8| i <= j < 8 ==> #[trigger] bit(byte, j) == 0,
            decreases 8 - i,
        {
            let ghost prev = byte;
            byte = byte | (((input[i] >> (pos as u8)) & 1) << (i as u8));
            proof {
                assert forall|j: u8| j < 8 implies {
                    &&& j != i ==> bit(byte, j) == bit(prev, j)
                    &&& j == i ==> bit(byte, j) == bit(input@[i as int], pos as u8)
                } by {
                    assert(bit(prev, i as u8) == 0);
                    lemma_transpose_bits(prev, input@[i as int], pos as u8, i as u8, j);
                }
            }
            i += 1;
        }
        result[pos] = byte;
        pos += 1;
    }
    result
}

} // verus!
