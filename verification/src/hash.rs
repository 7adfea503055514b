//! The rolling hash and the algebra that solves it backwards.

use crate::modular::{
    congruent, lemma_congruent_add, lemma_congruent_mul,
    lemma_congruent_reduce, lemma_congruent_refl, lemma_congruent_sub, lemma_congruent_sym,
    lemma_congruent_trans, lemma_congruent_unique, lemma_wrapping_add,
    lemma_wrapping_mul, lemma_wrapping_sub, modulus,
};
use vstd::arithmetic::div_mod::{lemma_mod_mod, lemma_mod_multiples_basic, lemma_fundamental_div_mod};
use vstd::arithmetic::power::pow;
use vstd::prelude::*;

verus! {

/// The multiplier of the hash. It is odd, so each of its powers has an
/// inverse modulo 2^32.
pub const FNV_PRIME: u32 = 37;

/// One step of the recurrence: the hash `h` of a string becomes
/// `h * 37 + b` modulo 2^32 when the byte `b` is appended.
pub open spec fn hash_step(h: u32, b: u8) -> u32 {
    ((h * 37 + b) % 0x1_0000_0000) as u32
}

/// The hash reached from the state `h` by appending the bytes of `data`.
pub open spec fn hash_from(h: u32, data: Seq<u8>) -> u32
    decreases data.len(),
{
    if data.len() == 0 {
        h
    } else {
        hash_step(hash_from(h, data.drop_last()), data.last())
    }
}

/// The hash of a byte string: the recurrence run from 0.
pub open spec fn spec_fnv_hash(data: Seq<u8>) -> u32 {
    hash_from(0, data)
}

/// The hash of `data`.
pub fn fnv_hash(data: &[u8]) -> (hash: u32)
    ensures
        hash == spec_fnv_hash(data@),
{
    let mut hash: u32 = 0;
    let mut i: usize = 0;
    while i < data.len()
        invariant
            i <= data@.len(),
            hash == hash_from(0, data@.take(i as int)),
        decreases data@.len() - i,
    {
        proof {
            assert(data@.take(i + 1).drop_last() == data@.take(i as int));
            lemma_step_wraps(hash, data[i as int]);
        }
        hash = hash.wrapping_mul(FNV_PRIME).wrapping_add(data[i] as u32);
        i += 1;
    }
    proof {
        assert(data@.take(i as int) == data@);
    }
    hash
}

/// The wrapping operations of the executable code compute `hash_step`.
pub proof fn lemma_step_wraps(h: u32, b: u8)
    ensures
        h.wrapping_mul(37).wrapping_add(b as u32) == hash_step(h, b),
{
    let m = h.wrapping_mul(37);
    lemma_wrapping_mul(h, 37);
    lemma_wrapping_add(m, b as u32);
    lemma_congruent_add(m as int, h * 37, b as int, b as int);
    lemma_congruent_trans(m.wrapping_add(b as u32) as int, m + b, h * 37 + b);
    lemma_congruent_reduce(h * 37 + b);
    lemma_congruent_sym((h * 37 + b) % modulus(), h * 37 + b);
    lemma_congruent_trans(
        m.wrapping_add(b as u32) as int,
        h * 37 + b,
        (h * 37 + b) % modulus(),
    );
    lemma_congruent_unique(m.wrapping_add(b as u32) as int, (h * 37 + b) % modulus());
}

/// The first guess `3a xor 2` is right in its five lowest bits: the error
/// `1 - a * guess` is a multiple of 32.
proof fn lemma_first_guess(a: u32, x: u32, y: u32)
    requires
        a % 2 == 1,
        x == a.wrapping_mul(3) ^ 2,
        y == 1u32.wrapping_sub(a.wrapping_mul(x)),
    ensures
        y % 32 == 0,
{
    let t = a.wrapping_mul(3);
    let p = a.wrapping_mul(x);
    assert(t == ((a as u64 * 3) % 0x1_0000_0000) as u32) by {
        assert(a as nat * 3 as nat == a as u64 * 3);
    }
    assert(p == ((a as u64 * x as u64) % 0x1_0000_0000) as u32) by {
        assert(a as nat * x as nat == a as u64 * x as u64) by (nonlinear_arith);
        assert(a as u64 * x as u64 <= 0xffff_ffff * 0xffff_ffff) by (nonlinear_arith);
    }
    assert(p % 32 == 1) by (bit_vector)
        requires
            a % 2 == 1,
            t == ((a as u64 * 3) % 0x1_0000_0000) as u32,
            x == t ^ 2,
            p == ((a as u64 * x as u64) % 0x1_0000_0000) as u32,
    ;
}

/// Squaring a multiple of `m` gives a multiple of `m * m`, also after the
/// square is reduced modulo a multiple of `m * m`.
proof fn lemma_square_divisible(y: u32, m: int, c: int)
    requires
        m > 0,
        c > 0,
        y as int % m == 0,
        m * m * c == modulus(),
    ensures
        y.wrapping_mul(y) as int % (m * m) == 0,
{
    lemma_fundamental_div_mod(y as int, m);
    let q = y as int / m;
    assert(y * y == (q * q) * (m * m)) by (nonlinear_arith)
        requires
            y == m * q,
    ;
    assert(m * m > 0) by (nonlinear_arith)
        requires
            m > 0,
    ;
    lemma_mod_multiples_basic(q * q, m * m);
    assert(y as nat * y as nat == y * y) by (nonlinear_arith);
    lemma_mod_mod(y * y, m * m, c);
}

/// One Newton step: if `a * x + y` is congruent to 1, so it is with
/// `x * (y + 1)` for `x` and `y * y` for `y`.
proof fn lemma_newton_step(a: u32, x: u32, y: u32)
    requires
        congruent(a * x + y, 1),
    ensures
        congruent(a * x.wrapping_mul(y.wrapping_add(1)) + y.wrapping_mul(y), 1),
{
    let y1 = y.wrapping_add(1);
    let x2 = x.wrapping_mul(y1);
    let y2 = y.wrapping_mul(y);
    lemma_wrapping_add(y, 1);
    lemma_wrapping_mul(x, y1);
    lemma_wrapping_mul(y, y);
    // a * x is congruent to 1 - y
    lemma_congruent_refl(y as int);
    lemma_congruent_sub(a * x + y, 1, y as int, y as int);
    // so a * x * y1 is congruent to (1 - y) * (y + 1), which is 1 - y * y
    lemma_congruent_mul(a * x, 1 - y, y1 as int, y + 1);
    assert((1 - y) * (y + 1) == 1 - y * y) by (nonlinear_arith);
    // and a * x2 is congruent to a * x * y1
    lemma_congruent_refl(a as int);
    lemma_congruent_mul(a as int, a as int, x2 as int, x * y1);
    assert(a * (x * y1) == (a * x) * y1) by (nonlinear_arith);
    lemma_congruent_trans(a * x2, (a * x) * y1, 1 - y * y);
    lemma_congruent_add(a * x2, 1 - y * y, y2 as int, y * y);
}

/// The square of a multiple of 2^20 vanishes modulo 2^32.
proof fn lemma_last_square_vanishes(y: u32)
    requires
        y as int % 0x10_0000 == 0,
    ensures
        y.wrapping_mul(y) == 0,
{
    lemma_fundamental_div_mod(y as int, 0x10_0000);
    let q = y as int / 0x10_0000;
    assert(y * y == (q * q * 0x100) * 0x1_0000_0000) by (nonlinear_arith)
        requires
            y == 0x10_0000 * q,
    ;
    lemma_mod_multiples_basic(q * q * 0x100, 0x1_0000_0000);
    assert(y as nat * y as nat == y * y) by (nonlinear_arith);
}

/// The inverse of an odd `a` modulo 2^32: the `x` with `a * x == 1` in
/// wrapping arithmetic.
///
/// Three Newton steps refine a guess that is right in five bits; each step
/// doubles the number of bits that are right.
pub fn modular_inverse_odd_u32(a: u32) -> (x: u32)
    requires
        a % 2 == 1,
    ensures
        (a * x) % 0x1_0000_0000 == 1,
        a.wrapping_mul(x) == 1,
{
    let mut x: u32 = 3u32.wrapping_mul(a) ^ 2;
    let mut y: u32 = 1u32.wrapping_sub(a.wrapping_mul(x));
    proof {
        assert(3u32.wrapping_mul(a) == a.wrapping_mul(3)) by {
            assert(3 as nat * a as nat == a as nat * 3 as nat);
        }
        lemma_first_guess(a, x, y);
        lemma_wrapping_mul(a, x);
        lemma_wrapping_sub(1, a.wrapping_mul(x));
        lemma_congruent_refl(1);
        lemma_congruent_sub(1, 1, a.wrapping_mul(x) as int, a * x);
        lemma_congruent_trans(y as int, 1 - a.wrapping_mul(x), 1 - a * x);
        lemma_congruent_refl(a * x);
        lemma_congruent_add(a * x, a * x, y as int, 1 - a * x);
        lemma_newton_step(a, x, y);
        lemma_square_divisible(y, 32, 0x40_0000);
    }
    x = x.wrapping_mul(y.wrapping_add(1));
    y = y.wrapping_mul(y);
    proof {
        lemma_newton_step(a, x, y);
        lemma_square_divisible(y, 1024, 0x1000);
    }
    x = x.wrapping_mul(y.wrapping_add(1));
    y = y.wrapping_mul(y);
    proof {
        lemma_newton_step(a, x, y);
        lemma_last_square_vanishes(y);
    }
    let r = x.wrapping_mul(y.wrapping_add(1));
    proof {
        assert(congruent(a * r, 1));
        lemma_congruent_reduce(a * r);
        lemma_congruent_trans((a * r) % modulus(), a * r, 1);
        lemma_congruent_unique((a * r) % modulus(), 1);
        lemma_wrapping_mul(a, r);
        lemma_congruent_trans(a.wrapping_mul(r) as int, a * r, 1);
        lemma_congruent_unique(a.wrapping_mul(r) as int, 1);
    }
    r
}

/// Hashing a concatenation is hashing its second part from the state that
/// the first part leaves.
pub proof fn lemma_hash_from_concat(h: u32, a: Seq<u8>, b: Seq<u8>)
    ensures
        hash_from(h, a + b) == hash_from(hash_from(h, a), b),
    decreases b.len(),
{
    if b.len() == 0 {
        assert(a + b == a);
    } else {
        assert((a + b).drop_last() == a + b.drop_last());
        assert((a + b).last() == b.last());
        lemma_hash_from_concat(h, a, b.drop_last());
    }
}

/// The hash is affine in its starting state: running `data` from `h` gives
/// `h * 37^len + hash(data)` modulo 2^32.
pub proof fn lemma_hash_from_affine(h: u32, data: Seq<u8>)
    ensures
        congruent(
            hash_from(h, data) as int,
            h * pow(37, data.len()) + spec_fnv_hash(data),
        ),
    decreases data.len(),
{
    reveal(pow);
    if data.len() == 0 {
        assert(h * pow(37, 0) == h) by (nonlinear_arith)
            requires
                pow(37, 0) == 1,
        ;
        lemma_congruent_refl(h as int);
    } else {
        let front = data.drop_last();
        let b = data.last();
        let p = pow(37, front.len());
        let from_h = hash_from(h, front);
        let from_0 = hash_from(0, front);
        lemma_hash_from_affine(h, front);
        // hash_from(h, data) is congruent to from_h * 37 + b
        lemma_congruent_reduce(from_h * 37 + b);
        lemma_congruent_reduce(from_0 * 37 + b);
        // from_h * 37 + b is congruent to (h * p + from_0) * 37 + b
        lemma_congruent_refl(37);
        lemma_congruent_mul(from_h as int, h * p + from_0, 37, 37);
        lemma_congruent_refl(b as int);
        lemma_congruent_add(from_h * 37, (h * p + from_0) * 37, b as int, b as int);
        lemma_congruent_trans(
            hash_from(h, data) as int,
            from_h * 37 + b,
            (h * p + from_0) * 37 + b,
        );
        // which is h * (37 * p) + (from_0 * 37 + b)
        assert((h * p + from_0) * 37 + b == h * (37 * p) + (from_0 * 37 + b))
            by (nonlinear_arith);
        assert(pow(37, data.len()) == 37 * p);
        lemma_congruent_refl(h * (37 * p));
        lemma_congruent_sym(hash_from(0, data) as int, from_0 * 37 + b);
        lemma_congruent_add(
            h * (37 * p),
            h * (37 * p),
            from_0 * 37 + b,
            hash_from(0, data) as int,
        );
        lemma_congruent_trans(
            hash_from(h, data) as int,
            h * (37 * p) + (from_0 * 37 + b),
            h * (37 * p) + hash_from(0, data),
        );
    }
}

/// Solving the hash backwards through a suffix.
///
/// Let `mult` stand for `37^len` of the suffix, `inv` be its inverse, and
/// `shift` stand for `(target - hash(suffix)) * inv`, all modulo 2^32. Then
/// `shift` is the one state from which the suffix leads to `target`.
pub proof fn lemma_shift_solves_suffix(
    suffix: Seq<u8>,
    target: u32,
    mult: u32,
    inv: u32,
    shift: u32,
    h: u32,
)
    requires
        congruent(mult as int, pow(37, suffix.len())),
        congruent(mult * inv, 1),
        congruent(shift as int, (target - spec_fnv_hash(suffix)) * inv),
    ensures
        hash_from(h, suffix) == target <==> h == shift,
{
    let p = pow(37, suffix.len());
    let hs = spec_fnv_hash(suffix) as int;
    let end = hash_from(h, suffix) as int;
    lemma_hash_from_affine(h, suffix);
    // end is congruent to h * mult + hs
    lemma_congruent_refl(h as int);
    lemma_congruent_sym(mult as int, p);
    lemma_congruent_mul(h as int, h as int, p, mult as int);
    lemma_congruent_refl(hs);
    lemma_congruent_add(h * p, h * mult, hs, hs);
    lemma_congruent_trans(end, h * p + hs, h * mult + hs);
    // shift * mult is congruent to target - hs
    lemma_congruent_refl(mult as int);
    lemma_congruent_mul(shift as int, (target - hs) * inv, mult as int, mult as int);
    lemma_congruent_refl(target - hs);
    lemma_congruent_mul(target - hs, target - hs, mult * inv, 1);
    assert((target - hs) * inv * mult == (target - hs) * (mult * inv)) by (nonlinear_arith);
    lemma_congruent_trans(shift * mult, (target - hs) * inv * mult, (target - hs) * 1);
    if h == shift {
        lemma_congruent_add(shift * mult, target - hs, hs, hs);
        lemma_congruent_trans(end, h * mult + hs, target as int);
        lemma_congruent_unique(end, target as int);
    }
    if end == target {
        // h * mult is congruent to target - hs, so to shift * mult
        lemma_congruent_sym(end, h * mult + hs);
        lemma_congruent_sub(h * mult + hs, target as int, hs, hs);
        lemma_congruent_sym(shift * mult, target - hs);
        lemma_congruent_trans(h * mult, target - hs, shift * mult);
        // multiplying by inv cancels mult on both sides
        lemma_congruent_refl(inv as int);
        lemma_congruent_mul(h * mult, shift * mult, inv as int, inv as int);
        assert(h * mult * inv == h * (mult * inv)) by (nonlinear_arith);
        assert(shift * mult * inv == shift * (mult * inv)) by (nonlinear_arith);
        lemma_congruent_mul(h as int, h as int, mult * inv, 1);
        lemma_congruent_refl(shift as int);
        lemma_congruent_mul(shift as int, shift as int, mult * inv, 1);
        lemma_congruent_sym(h * (mult * inv), h * 1);
        lemma_congruent_trans(h as int, h * (mult * inv), shift * (mult * inv));
        lemma_congruent_trans(h as int, shift * (mult * inv), shift as int);
        lemma_congruent_unique(h as int, shift as int);
    }
}

/// `37^exp` modulo 2^32, which is odd.
fn power_of_prime(exp: usize) -> (m: u32)
    ensures
        m == pow(37, exp as nat) % 0x1_0000_0000,
        m % 2 == 1,
{
    let mut m: u32 = 1;
    let mut i: usize = 0;
    proof {
        reveal(pow);
    }
    while i < exp
        invariant
            i <= exp,
            m == pow(37, i as nat) % 0x1_0000_0000,
            m % 2 == 1,
        decreases exp - i,
    {
        proof {
            reveal(pow);
            let p = pow(37, i as nat);
            lemma_wrapping_mul(m, 37);
            lemma_congruent_reduce(p);
            lemma_congruent_refl(37);
            lemma_congruent_mul(m as int, p, 37, 37);
            lemma_congruent_trans(m.wrapping_mul(37) as int, m * 37, p * 37);
            lemma_congruent_reduce(37 * p);
            lemma_congruent_sym((37 * p) % modulus(), 37 * p);
            lemma_congruent_trans(m.wrapping_mul(37) as int, p * 37, (37 * p) % modulus());
            lemma_congruent_unique(m.wrapping_mul(37) as int, (37 * p) % modulus());
            assert(m as nat * 37 as nat == m * 37);
        }
        m = m.wrapping_mul(FNV_PRIME);
        i += 1;
    }
    m
}

/// What is known of a suffix before the search starts.
///
/// With it the hash of `base|suffix` follows from the hash of `base` in one
/// step, and the one byte `x` with `hash(base|x|suffix) == target` is found
/// by a subtraction.
#[derive(Debug, Clone, Copy)]
pub struct PrecomputedSuffix {
    /// The hash of the suffix.
    pub hash: u32,
    /// `37^len` of the suffix, modulo 2^32.
    pub mult: u32,
    /// `(target - hash) / mult` modulo 2^32: the state that the suffix
    /// carries to the target.
    pub target_shift: u32,
}

impl PrecomputedSuffix {
    /// `target_shift` is the one hash state that `suffix` carries to
    /// `target`.
    pub open spec fn solves(&self, suffix: Seq<u8>, target: u32) -> bool {
        forall|h: u32| #[trigger] hash_from(h, suffix) == target <==> h == self.target_shift
    }

    /// The hash of `suffix`, the power of 37 that stands for its length, and
    /// the state from which it reaches `target_hash`.
    pub fn new(suffix: &[u8], target_hash: u32) -> (s: Self)
        ensures
            s.hash == spec_fnv_hash(suffix@),
            s.mult == pow(37, suffix@.len()) % 0x1_0000_0000,
            s.mult % 2 == 1,
            congruent(s.mult * s.target_shift, target_hash - s.hash),
            s.solves(suffix@, target_hash),
    {
        let hash = fnv_hash(suffix);
        let mult = power_of_prime(suffix.len());
        let inv = modular_inverse_odd_u32(mult);
        let target_shift = target_hash.wrapping_sub(hash).wrapping_mul(inv);
        proof {
            let diff = target_hash.wrapping_sub(hash);
            lemma_wrapping_sub(target_hash, hash);
            lemma_wrapping_mul(diff, inv);
            lemma_congruent_refl(inv as int);
            lemma_congruent_mul(diff as int, target_hash - hash, inv as int, inv as int);
            lemma_congruent_trans(target_shift as int, diff * inv, (target_hash - hash) * inv);
            lemma_congruent_reduce(pow(37, suffix@.len()));
            lemma_congruent_reduce(mult * inv);
            lemma_congruent_sym(1, mult * inv);
            // mult * target_shift is congruent to target_hash - hash
            lemma_congruent_refl(mult as int);
            lemma_congruent_mul(
                mult as int,
                mult as int,
                target_shift as int,
                (target_hash - hash) * inv,
            );
            assert(mult * ((target_hash - hash) * inv) == (target_hash - hash) * (mult * inv))
                by (nonlinear_arith);
            lemma_congruent_refl(target_hash - hash);
            lemma_congruent_mul(target_hash - hash, target_hash - hash, mult * inv, 1);
            lemma_congruent_trans(
                mult * target_shift,
                (target_hash - hash) * (mult * inv),
                (target_hash - hash) * 1,
            );
            assert forall|h: u32| #[trigger]
                hash_from(h, suffix@) == target_hash <==> h == target_shift by {
                lemma_shift_solves_suffix(suffix@, target_hash, mult, inv, target_shift, h);
            }
        }
        Self { hash, mult, target_shift }
    }
}

} // verus!
