//! Shared integer facts about the multiply-with-carry step.
//!
//! Every width variant performs the same abstract step: with base `b`
//! (`2^W` for word width `W`), multiplier `m` and oldest lane `v`, the
//! quantity `t = v * m + c` is split into a new lane `t % b` and a new
//! carry `t / b`.  The lemmas here relate that split to the carry-out
//! addition the executable code performs, and bound the new carry.

use vstd::prelude::*;
use vstd::arithmetic::div_mod::*;
use vstd::arithmetic::mul::*;

verus! {

/// Splitting `q + c` at base `b`: adding `c < b` to `q` raises the
/// quotient by exactly the carry-out bit of the addition `q % b + c`.
pub proof fn lemma_carry_split(q: int, c: int, b: int)
    requires
        b > 0,
        0 <= q,
        0 <= c < b,
    ensures
        (q + c) / b == q / b + if q % b + c >= b { 1int } else { 0int },
        (q + c) % b == if q % b + c >= b { q % b + c - b } else { q % b + c },
{
    lemma_fundamental_div_mod(q, b);
    lemma_mod_bound(q, b);
    lemma_mul_is_commutative(b, q / b);
    if q % b + c >= b {
        assert((q / b + 1) * b == (q / b) * b + 1 * b) by {
            lemma_mul_is_distributive_add_other_way(b, q / b, 1);
        };
        assert(q + c == (q / b + 1) * b + (q % b + c - b));
        lemma_fundamental_div_mod_converse(q + c, b, q / b + 1, q % b + c - b);
    } else {
        assert(q + c == (q / b) * b + (q % b + c));
        lemma_fundamental_div_mod_converse(q + c, b, q / b, q % b + c);
    }
}

/// The high word of a product `v * m` with `v < b` stays below `m`.
pub proof fn lemma_mul_div_bound(v: int, m: int, b: int)
    requires
        0 <= v < b,
        0 < m <= b,
    ensures
        0 <= (v * m) / b,
        (v * m) / b <= m - 1,
{
    lemma_mul_nonnegative(v, m);
    lemma_div_is_ordered(0, v * m, b);
    lemma_mul_inequality(v, b - 1, m);
    lemma_div_is_ordered(v * m, (b - 1) * m, b);
    assert((b - 1) * m == (m - 1) * b + (b - m)) by (nonlinear_arith);
    lemma_fundamental_div_mod_converse((b - 1) * m, b, m - 1, b - m);
}

/// A carry below the multiplier stays below the multiplier across a step:
/// `t = v * m + c < m * b`, so the new carry `t / b` is at most `m - 1`.
pub proof fn lemma_carry_preserved(v: int, c: int, m: int, b: int)
    requires
        0 <= v < b,
        0 <= c < m,
        0 < m <= b,
    ensures
        0 <= (v * m + c) / b,
        (v * m + c) / b <= m - 1,
{
    lemma_mul_nonnegative(v, m);
    lemma_div_is_ordered(0, v * m + c, b);
    lemma_mul_inequality(v, b - 1, m);
    assert(v * m + c <= (b - 1) * m + m - 1);
    assert((b - 1) * m + m - 1 == (m - 1) * b + (b - 1)) by (nonlinear_arith);
    lemma_fundamental_div_mod_converse((m - 1) * b + (b - 1), b, m - 1, b - 1);
    lemma_div_is_ordered(v * m + c, (m - 1) * b + (b - 1), b);
}

/// From any carry below the base, one step brings the carry to at most `m`.
pub proof fn lemma_carry_recovers(v: int, c: int, m: int, b: int)
    requires
        0 <= v < b,
        0 <= c < b,
        0 < m <= b,
    ensures
        0 <= (v * m + c) / b,
        (v * m + c) / b <= m,
{
    lemma_mul_nonnegative(v, m);
    lemma_div_is_ordered(0, v * m + c, b);
    lemma_mul_inequality(v, b - 1, m);
    assert(v * m + c <= (b - 1) * m + b - 1);
    assert((b - 1) * m + b - 1 == m * b + (b - 1 - m)) by (nonlinear_arith);
    if b - 1 - m >= 0 {
        lemma_fundamental_div_mod_converse(m * b + (b - 1 - m), b, m, b - 1 - m);
        lemma_div_is_ordered(v * m + c, m * b + (b - 1 - m), b);
    } else {
        assert((b - 1) * m + b - 1 == (m - 1) * b + (b - 1 - m + b)) by (nonlinear_arith);
        lemma_fundamental_div_mod_converse((b - 1) * m + b - 1, b, m - 1, b - 1 - m + b);
        lemma_div_is_ordered(v * m + c, (b - 1) * m + b - 1, b);
    }
}

/// Reduction of a sum of two values below `b`: at most one subtraction.
pub proof fn lemma_mod_of_small(x: int, b: int)
    requires
        b > 0,
        0 <= x < 2 * b,
    ensures
        x % b == if x >= b {
            x - b
        } else {
            x
        },
{
    if x >= b {
        lemma_fundamental_div_mod_converse(x, b, 1, x - b);
    } else {
        lemma_small_mod(x as nat, b as nat);
    }
}

/// Position `m * w + k` with `k < m` splits into word index `w` and
/// offset `k`.
pub proof fn lemma_index_split(w: nat, k: nat, m: nat)
    requires
        m > 0,
        k < m,
    ensures
        (m * w + k) as int / m as int == w,
        (m * w + k) as int % m as int == k,
{
    lemma_mul_is_commutative(m as int, w as int);
    lemma_fundamental_div_mod_converse((m * w + k) as int, m as int, w as int, k as int);
}

/// With `q` whole chunks consumed and between 1 and `chunk` bytes of the
/// last chunk used, the rounded-up chunk count is `q + 1`.
pub proof fn lemma_ceil_div_chunk(q: nat, len: nat, chunk: nat)
    requires
        chunk > 0,
        chunk * q < len,
        len <= chunk * q + chunk,
    ensures
        (len + chunk - 1) / chunk as int == q + 1,
{
    let r = len - chunk * q;
    lemma_mul_is_commutative(chunk as int, q as int);
    lemma_mul_is_distributive_add_other_way(chunk as int, q as int, 1);
    assert(len + chunk - 1 == (q + 1) * chunk + (r - 1));
    lemma_fundamental_div_mod_converse(len + chunk - 1, chunk as int, q as int + 1, r - 1);
}

} // verus!
