//! Congruence modulo 2^32, the arithmetic in which the hash lives.

use vstd::arithmetic::div_mod::{
    lemma_fundamental_div_mod, lemma_mod_multiples_basic, lemma_small_mod,
};
use vstd::prelude::*;

verus! {

/// The modulus of 32-bit wraparound arithmetic, 2^32.
pub open spec fn modulus() -> int {
    0x1_0000_0000
}

/// `a` and `b` differ by a multiple of 2^32.
pub open spec fn congruent(a: int, b: int) -> bool {
    (a - b) % modulus() == 0
}

/// A difference that is a multiple of 2^32 makes two numbers congruent.
pub proof fn lemma_congruent_by_witness(a: int, b: int, k: int)
    requires
        a - b == k * modulus(),
    ensures
        congruent(a, b),
{
    lemma_mod_multiples_basic(k, modulus());
}

/// Congruent numbers differ by a multiple of 2^32; the multiple is returned.
pub proof fn lemma_congruent_witness(a: int, b: int) -> (k: int)
    requires
        congruent(a, b),
    ensures
        a - b == k * modulus(),
{
    lemma_fundamental_div_mod(a - b, modulus());
    let k = (a - b) / modulus();
    assert(modulus() * k == k * modulus()) by (nonlinear_arith);
    k
}

pub proof fn lemma_congruent_refl(a: int)
    ensures
        congruent(a, a),
{
}

pub proof fn lemma_congruent_sym(a: int, b: int)
    requires
        congruent(a, b),
    ensures
        congruent(b, a),
{
    let k = lemma_congruent_witness(a, b);
    assert(b - a == (-k) * modulus()) by (nonlinear_arith)
        requires
            a - b == k * modulus(),
    ;
    lemma_congruent_by_witness(b, a, -k);
}

pub proof fn lemma_congruent_trans(a: int, b: int, c: int)
    requires
        congruent(a, b),
        congruent(b, c),
    ensures
        congruent(a, c),
{
    let k = lemma_congruent_witness(a, b);
    let j = lemma_congruent_witness(b, c);
    assert(a - c == (k + j) * modulus()) by (nonlinear_arith)
        requires
            a - b == k * modulus(),
            b - c == j * modulus(),
    ;
    lemma_congruent_by_witness(a, c, k + j);
}

pub proof fn lemma_congruent_add(a: int, b: int, c: int, d: int)
    requires
        congruent(a, b),
        congruent(c, d),
    ensures
        congruent(a + c, b + d),
{
    let k = lemma_congruent_witness(a, b);
    let j = lemma_congruent_witness(c, d);
    assert((a + c) - (b + d) == (k + j) * modulus()) by (nonlinear_arith)
        requires
            a - b == k * modulus(),
            c - d == j * modulus(),
    ;
    lemma_congruent_by_witness(a + c, b + d, k + j);
}

pub proof fn lemma_congruent_sub(a: int, b: int, c: int, d: int)
    requires
        congruent(a, b),
        congruent(c, d),
    ensures
        congruent(a - c, b - d),
{
    let k = lemma_congruent_witness(a, b);
    let j = lemma_congruent_witness(c, d);
    assert((a - c) - (b - d) == (k - j) * modulus()) by (nonlinear_arith)
        requires
            a - b == k * modulus(),
            c - d == j * modulus(),
    ;
    lemma_congruent_by_witness(a - c, b - d, k - j);
}

pub proof fn lemma_congruent_mul(a: int, b: int, c: int, d: int)
    requires
        congruent(a, b),
        congruent(c, d),
    ensures
        congruent(a * c, b * d),
{
    let k = lemma_congruent_witness(a, b);
    let j = lemma_congruent_witness(c, d);
    assert(a * c - b * d == (k * c + b * j) * modulus()) by (nonlinear_arith)
        requires
            a - b == k * modulus(),
            c - d == j * modulus(),
    ;
    lemma_congruent_by_witness(a * c, b * d, k * c + b * j);
}

/// Reducing a number modulo 2^32 keeps its residue class.
pub proof fn lemma_congruent_reduce(a: int)
    ensures
        congruent(a % modulus(), a),
        0 <= a % modulus() < modulus(),
{
    lemma_fundamental_div_mod(a, modulus());
    let q = a / modulus();
    assert((a % modulus()) - a == (-q) * modulus()) by (nonlinear_arith)
        requires
            a == modulus() * q + a % modulus(),
    ;
    lemma_congruent_by_witness(a % modulus(), a, -q);
}

/// Each residue class has one member in the range of a `u32`.
pub proof fn lemma_congruent_unique(a: int, b: int)
    requires
        congruent(a, b),
        0 <= a < modulus(),
        0 <= b < modulus(),
    ensures
        a == b,
{
    if a >= b {
        lemma_small_mod((a - b) as nat, modulus() as nat);
    } else {
        lemma_congruent_sym(a, b);
        lemma_small_mod((b - a) as nat, modulus() as nat);
    }
}

/// What `wrapping_mul` computes, as a residue class.
pub proof fn lemma_wrapping_mul(x: u32, y: u32)
    ensures
        congruent(x.wrapping_mul(y) as int, x * y),
{
    assert(x as nat * y as nat == x * y) by (nonlinear_arith);
    assert(0 <= x * y) by (nonlinear_arith);
    lemma_congruent_reduce(x * y);
}

/// What `wrapping_add` computes, as a residue class.
pub proof fn lemma_wrapping_add(x: u32, y: u32)
    ensures
        congruent(x.wrapping_add(y) as int, x + y),
{
    if x + y > u32::MAX {
        lemma_congruent_by_witness(x.wrapping_add(y) as int, x + y, -1);
    } else {
        lemma_congruent_by_witness(x.wrapping_add(y) as int, x + y, 0);
    }
}

/// What `wrapping_sub` computes, as a residue class.
pub proof fn lemma_wrapping_sub(x: u32, y: u32)
    ensures
        congruent(x.wrapping_sub(y) as int, x - y),
{
    if x - y < 0 {
        lemma_congruent_by_witness(x.wrapping_sub(y) as int, x - y, 1);
    } else {
        lemma_congruent_by_witness(x.wrapping_sub(y) as int, x - y, 0);
    }
}

} // verus!
