//! Arithmetic in a prime field modelled as the integers modulo `p`.
//!
//! A field element is a `u64` that is reduced, i.e. strictly below the
//! modulus.  All operations state their result as the mathematical value
//! modulo `p`, so that share arithmetic built on top can reason purely in
//! terms of `%`.

use vstd::arithmetic::div_mod::{
    lemma_add_mod_noop, lemma_fundamental_div_mod_converse_mod, lemma_mod_twice,
    lemma_mul_mod_noop_left, lemma_mul_mod_noop_right, lemma_small_mod,
};
use vstd::arithmetic::mul::{lemma_mul_is_associative, lemma_mul_upper_bound};
use vstd::arithmetic::power::{
    lemma_pow0, lemma_pow1, lemma_pow_adds, lemma_pow_mod_noop, lemma_pow_multiplies,
    lemma_square_is_pow2, pow,
};
use vstd::prelude::*;

verus! {

/// A value is a reduced element of the field with modulus `p`.
pub open spec fn in_field(x: u64, p: u64) -> bool {
    x < p
}

/// Addition modulo `p`.
pub fn add_mod(a: u64, b: u64, p: u64) -> (r: u64)
    requires
        1 < p,
        in_field(a, p),
        in_field(b, p),
    ensures
        r == (a + b) % (p as int),
        in_field(r, p),
{
    let s: u128 = a as u128 + b as u128;
    let r: u64 = if s >= p as u128 {
        (s - p as u128) as u64
    } else {
        s as u64
    };
    proof {
        if a + b >= p {
            lemma_fundamental_div_mod_converse_mod(a + b, p as int, 1, a + b - p);
        } else {
            lemma_small_mod((a + b) as nat, p as nat);
        }
    }
    r
}

/// Subtraction modulo `p`.
pub fn sub_mod(a: u64, b: u64, p: u64) -> (r: u64)
    requires
        1 < p,
        in_field(a, p),
        in_field(b, p),
    ensures
        r == (a - b) % (p as int),
        in_field(r, p),
{
    let r: u64 = if a >= b {
        a - b
    } else {
        a + (p - b)
    };
    proof {
        if a >= b {
            lemma_small_mod((a - b) as nat, p as nat);
        } else {
            lemma_fundamental_div_mod_converse_mod(a - b, p as int, -1, a - b + p);
        }
    }
    r
}

/// Additive inverse modulo `p`.
pub fn neg_mod(a: u64, p: u64) -> (r: u64)
    requires
        1 < p,
        in_field(a, p),
    ensures
        r == (0 - a) % (p as int),
        in_field(r, p),
{
    sub_mod(0, a, p)
}

/// Multiplication modulo `p`.
pub fn mul_mod(a: u64, b: u64, p: u64) -> (r: u64)
    requires
        1 < p,
        in_field(a, p),
        in_field(b, p),
    ensures
        r == (a * b) % (p as int),
        in_field(r, p),
{
    proof {
        lemma_mul_upper_bound(a as int, 0xffff_ffff_ffff_ffff, b as int, 0xffff_ffff_ffff_ffff);
    }
    let prod: u128 = a as u128 * b as u128;
    let r: u64 = (prod % p as u128) as u64;
    r
}

/// Exponentiation modulo `p` by square and multiply.
pub fn pow_mod(b: u64, e: u64, p: u64) -> (r: u64)
    requires
        1 < p,
        in_field(b, p),
    ensures
        r == pow(b as int, e as nat) % (p as int),
        in_field(r, p),
{
    let mut base: u64 = b;
    let mut exp: u64 = e;
    let mut acc: u64 = 1;
    proof {
        lemma_pow0(base as int);
        lemma_pow1(base as int);
    }
    while exp > 0
        invariant
            1 < p,
            in_field(base, p),
            in_field(acc, p),
            (acc * pow(base as int, exp as nat)) % (p as int) == pow(b as int, e as nat) % (
            p as int),
        decreases exp,
    {
        let ghost prev_base = base as int;
        let ghost prev_acc = acc as int;
        let ghost prev_exp = exp as nat;
        let ghost pp = p as int;
        if exp % 2 == 1 {
            acc = mul_mod(acc, base, p);
        }
        let ghost bit: nat = (prev_exp % 2) as nat;
        base = mul_mod(base, base, p);
        exp = exp / 2;
        proof {
            let half = exp as nat;
            // pow(prev_base, prev_exp) splits into the bit and the doubled part.
            lemma_pow_adds(prev_base, (2 * half) as nat, bit);
            lemma_pow_multiplies(prev_base, 2, half);
            lemma_square_is_pow2(prev_base);
            if bit == 1 {
                lemma_pow1(prev_base);
            } else {
                lemma_pow0(prev_base);
            }
            let pow_sq = pow(prev_base * prev_base, half);
            // Replace the squared base by its reduced form under the modulus.
            lemma_pow_mod_noop(prev_base * prev_base, half, pp);
            assert(pow(base as int, half) % pp == pow_sq % pp);
            let bfac: int = if bit == 1 { prev_base } else { 1 };
            assert(pow(prev_base, prev_exp) == pow_sq * bfac) by {
                lemma_mul_is_associative(pow_sq, bfac, 1);
            }
            // Fold both reductions into the accumulator product.
            assert((acc * pow(base as int, half)) % pp == ((prev_acc * bfac) * pow_sq) % pp) by {
                lemma_mul_mod_noop_left(prev_acc * bfac, pow(base as int, half), pp);
                lemma_mul_mod_noop_right(prev_acc * bfac, pow(base as int, half), pp);
                lemma_mul_mod_noop_right(prev_acc * bfac, pow_sq, pp);
            }
            assert((prev_acc * bfac) * pow_sq == prev_acc * pow(prev_base, prev_exp)) by {
                lemma_mul_is_associative(prev_acc, bfac, pow_sq);
                assert(bfac * pow_sq == pow_sq * bfac) by (nonlinear_arith);
                assert(prev_acc * (bfac * pow_sq) == prev_acc * (pow_sq * bfac));
            }
        }
    }
    proof {
        lemma_pow0(base as int);
        assert(acc * pow(base as int, 0) == acc);
        lemma_small_mod(acc as nat, p as nat);
    }
    acc
}

/// The candidate multiplicative inverse of `a`: its `(p - 2)`-th power.
/// For a prime modulus this is the inverse by Fermat's little theorem.
pub open spec fn inv_candidate(a: u64, p: u64) -> int {
    pow(a as int, (p - 2) as nat) % (p as int)
}

/// Whether the candidate really is an inverse; for a prime `p` and
/// `a != 0` this always holds.
pub open spec fn has_inverse(a: u64, p: u64) -> bool {
    (inv_candidate(a, p) * a) % (p as int) == 1
}

/// Multiplicative inverse modulo `p`, with the inverse property checked
/// on the computed candidate so that the result is correct for every
/// modulus, prime or not.
pub fn inv_mod(a: u64, p: u64) -> (r: Option<u64>)
    requires
        1 < p,
        in_field(a, p),
    ensures
        r.is_some() <==> has_inverse(a, p),
        r.is_some() ==> r.unwrap() == inv_candidate(a, p) && (r.unwrap() * a) % (p as int) == 1
            && in_field(r.unwrap(), p),
{
    let cand = pow_mod(a, p - 2, p);
    let check = mul_mod(cand, a, p);
    if check == 1 {
        Some(cand)
    } else {
        None
    }
}

/// Reducing each of three summands first does not change the sum's residue.
pub proof fn lemma_mod_add3(x: int, y: int, z: int, p: int)
    requires
        0 < p,
    ensures
        (x % p + y % p + z % p) % p == (x + y + z) % p,
{
    lemma_add_mod_noop(x, y, p);
    lemma_add_mod_noop(x + y, z, p);
    lemma_add_mod_noop(x % p + y % p, z % p, p);
    lemma_mod_twice(x % p + y % p, p);
    lemma_mod_twice(z, p);
}

} // verus!
