//! The boolean circuits used by the garbled-circuit subsystem, at the
//! level of bit values.
//!
//! A number is a little-endian bit vector.  The circuits here — ripple
//! adders, the conditional subtract-and-multiplex stage that reduces a sum
//! back into `[0, p)`, and the bit-decomposition circuit — are exactly the
//! gate structures the garbler and evaluator walk through; their contracts
//! state the arithmetic each circuit computes.

use vstd::arithmetic::div_mod::{
    lemma_fundamental_div_mod, lemma_fundamental_div_mod_converse_mod, lemma_multiply_divide_lt,
    lemma_small_mod,
};
use vstd::arithmetic::power2::{
    lemma2_to64, lemma_pow2_adds, lemma_pow2_pos, lemma_pow2_strictly_increases, lemma_pow2_unfold,
    pow2,
};
use vstd::prelude::*;

verus! {

/// The number a little-endian bit vector stands for.
pub open spec fn bits_value(s: Seq<bool>) -> nat
    decreases s.len(),
{
    if s.len() == 0 {
        0
    } else {
        (if s[0] {
            1nat
        } else {
            0nat
        }) + 2 * bits_value(s.drop_first())
    }
}

/// The numeric value of one bit.
pub open spec fn bit_val(b: bool) -> nat {
    if b {
        1
    } else {
        0
    }
}

/// Appending a bit adds its value at the vector's top position.
pub proof fn lemma_bits_value_push(s: Seq<bool>, b: bool)
    ensures
        bits_value(s.push(b)) == bits_value(s) + bit_val(b) * pow2(s.len()),
    decreases s.len(),
{
    if s.len() == 0 {
        assert(s.push(b)[0] == b);
        assert(s.push(b).drop_first() =~= Seq::<bool>::empty());
        lemma2_to64();
        assert(pow2(0) == 1);
        assert(bits_value(Seq::<bool>::empty()) == 0);
        assert(bits_value(s.push(b)) == bit_val(b) + 2 * bits_value(s.push(b).drop_first()));
    } else {
        assert(s.push(b)[0] == s[0]);
        assert(s.push(b).drop_first() =~= s.drop_first().push(b));
        lemma_bits_value_push(s.drop_first(), b);
        lemma_pow2_unfold(s.len());
        assert(bits_value(s.push(b)) == bit_val(s[0]) + 2 * bits_value(s.drop_first().push(b)));
        assert(bit_val(b) * pow2(s.len()) == 2 * (bit_val(b) * pow2((s.len() - 1) as nat)))
            by (nonlinear_arith)
            requires
                pow2(s.len()) == 2 * pow2((s.len() - 1) as nat),
        ;
    }
}

/// A bit vector's value is below two to its length.
pub proof fn lemma_bits_value_bound(s: Seq<bool>)
    ensures
        bits_value(s) < pow2(s.len()),
    decreases s.len(),
{
    if s.len() == 0 {
        lemma2_to64();
        assert(pow2(0) == 1);
    } else {
        lemma_bits_value_bound(s.drop_first());
        lemma_pow2_unfold(s.len());
    }
}

/// The value of a prefix is the value reduced modulo two to the prefix
/// length.
pub proof fn lemma_bits_value_take(s: Seq<bool>, m: int)
    requires
        0 <= m <= s.len(),
    ensures
        bits_value(s.take(m)) == bits_value(s) % pow2(m as nat),
    decreases s.len(),
{
    if m == 0 {
        assert(s.take(0) =~= Seq::<bool>::empty());
        lemma2_to64();
        assert(pow2(0) == 1);
        assert(bits_value(s) % 1 == 0) by {
            lemma_small_mod(0, 1);
            assert(bits_value(s) % 1 == 0) by (nonlinear_arith);
        }
    } else {
        let t = s.drop_first();
        assert(s.take(m).drop_first() =~= t.take(m - 1));
        assert(s.take(m)[0] == s[0]);
        lemma_bits_value_take(t, m - 1);
        lemma_bits_value_bound(t.take(m - 1));
        lemma_pow2_unfold(m as nat);
        let q = bits_value(t) / pow2((m - 1) as nat);
        let r = bits_value(t) % pow2((m - 1) as nat);
        lemma_pow2_pos((m - 1) as nat);
        lemma_fundamental_div_mod(bits_value(t) as int, pow2((m - 1) as nat) as int);
        let b0 = bit_val(s[0]);
        assert(b0 + 2 * bits_value(t) == q * pow2(m as nat) + (b0 + 2 * r)) by (nonlinear_arith)
            requires
                bits_value(t) == pow2((m - 1) as nat) * q + r,
                pow2(m as nat) == 2 * pow2((m - 1) as nat),
        ;
        assert(0 <= b0 + 2 * r < pow2(m as nat));
        lemma_fundamental_div_mod_converse_mod(
            (b0 + 2 * bits_value(t)) as int,
            pow2(m as nat) as int,
            q as int,
            (b0 + 2 * r) as int,
        );
    }
}

/// The value of a suffix is the value divided by two to the number of
/// dropped bits.
pub proof fn lemma_bits_value_skip(s: Seq<bool>, m: int)
    requires
        0 <= m <= s.len(),
    ensures
        bits_value(s.skip(m)) == bits_value(s) / pow2(m as nat),
    decreases m,
{
    if m == 0 {
        assert(s.skip(0) =~= s);
        lemma2_to64();
        assert(pow2(0) == 1);
        assert(bits_value(s) / 1 == bits_value(s)) by (nonlinear_arith);
    } else {
        let t = s.drop_first();
        assert(s.skip(m) =~= t.skip(m - 1));
        lemma_bits_value_skip(t, m - 1);
        lemma_pow2_unfold(m as nat);
        lemma_pow2_pos((m - 1) as nat);
        let v = bits_value(t);
        let b0 = bit_val(s[0]);
        let h = pow2((m - 1) as nat);
        assert(bits_value(s) == b0 + 2 * v);
        // (b0 + 2v) / 2h == v / h, because b0 < 2.
        lemma_fundamental_div_mod(v as int, h as int);
        let q = v / h;
        let r = v % h;
        assert(b0 + 2 * v == q * (2 * h) + (b0 + 2 * r)) by (nonlinear_arith)
            requires
                v == h * q + r,
        ;
        assert(0 <= b0 + 2 * r < 2 * h);
        vstd::arithmetic::div_mod::lemma_fundamental_div_mod_converse_div(
            (b0 + 2 * v) as int,
            (2 * h) as int,
            q as int,
            (b0 + 2 * r) as int,
        );
        assert(pow2(m as nat) == 2 * h);
    }
}

/// The predefined boolean circuits of the garbled-circuit subsystem.
pub struct GarbledCircuits {}

impl GarbledCircuits {
    /// A full adder's gate structure when its second operand is a public
    /// constant bit.
    pub fn full_adder_const(a: bool, b: bool, c: bool) -> (r: (bool, bool))
        ensures
            bit_val(r.0) + 2 * bit_val(r.1) == bit_val(a) + bit_val(b) + bit_val(c),
    {
        if b {
            let z1 = !a;
            let s = z1 ^ c;
            let z3 = a ^ c;
            let z4 = z1 && z3;
            let cout = z4 ^ a;
            (s, cout)
        } else {
            let s = a ^ c;
            let z4 = a && s;
            let cout = z4 ^ a;
            (s, cout)
        }
    }

    /// A half adder: sum and carry of two bits.
    pub fn half_adder(a: bool, b: bool) -> (r: (bool, bool))
        ensures
            bit_val(r.0) + 2 * bit_val(r.1) == bit_val(a) + bit_val(b),
    {
        (a ^ b, a && b)
    }

    /// A full adder: sum and carry of three bits.
    pub fn full_adder(a: bool, b: bool, c: bool) -> (r: (bool, bool))
        ensures
            bit_val(r.0) + 2 * bit_val(r.1) == bit_val(a) + bit_val(b) + bit_val(c),
    {
        let z1 = a ^ b;
        let s = z1 ^ c;
        let z3 = a ^ c;
        let z4 = z1 && z3;
        let cout = z4 ^ a;
        (s, cout)
    }

    /// A multiplexer built from one AND gate: `x` when the choice bit is
    /// clear, `y` when it is set.
    pub fn mux(b: bool, x: bool, y: bool) -> (r: bool)
        ensures
            r == if b {
                y
            } else {
                x
            },
    {
        let xor = x ^ y;
        let and = b && xor;
        and ^ x
    }

    /// Ripple-carry addition of two equal-length bit vectors; returns the sum
    /// bits and the outgoing carry.
    pub fn bin_addition(xs: &Vec<bool>, ys: &Vec<bool>) -> (r: (Vec<bool>, bool))
        requires
            xs.len() == ys.len(),
            xs.len() >= 1,
        ensures
            r.0.len() == xs.len(),
            bits_value(r.0@) + bit_val(r.1) * pow2(xs.len() as nat) == bits_value(xs@) + bits_value(
                ys@,
            ),
    {
        let n = xs.len();
        let mut result: Vec<bool> = Vec::new();
        let (s0, mut c) = Self::half_adder(xs[0], ys[0]);
        result.push(s0);
        let mut i: usize = 1;
        proof {
            assert(xs@.take(1) =~= Seq::<bool>::empty().push(xs@[0]));
            assert(ys@.take(1) =~= Seq::<bool>::empty().push(ys@[0]));
            lemma_bits_value_push(Seq::<bool>::empty(), xs@[0]);
            lemma_bits_value_push(Seq::<bool>::empty(), ys@[0]);
            assert(result@ =~= Seq::<bool>::empty().push(s0));
            lemma_bits_value_push(Seq::<bool>::empty(), s0);
            lemma2_to64();
            assert(pow2(0) == 1);
            lemma_pow2_unfold(1);
        }
        while i < n
            invariant
                1 <= i <= n,
                n == xs.len() && n == ys.len(),
                result.len() == i,
                bits_value(result@) + bit_val(c) * pow2(i as nat) == bits_value(xs@.take(i as int))
                    + bits_value(ys@.take(i as int)),
            decreases n - i,
        {
            let (s, c2) = Self::full_adder(xs[i], ys[i], c);
            proof {
                let pr = result@;
                let pc = c;
                assert(xs@.take(i + 1) =~= xs@.take(i as int).push(xs@[i as int]));
                assert(ys@.take(i + 1) =~= ys@.take(i as int).push(ys@[i as int]));
                lemma_bits_value_push(xs@.take(i as int), xs@[i as int]);
                lemma_bits_value_push(ys@.take(i as int), ys@[i as int]);
                lemma_bits_value_push(pr, s);
                lemma_pow2_unfold((i + 1) as nat);
                assert(bit_val(s) * pow2(i as nat) + bit_val(c2) * (2 * pow2(i as nat)) + bits_value(
                    pr,
                ) == (bit_val(s) + 2 * bit_val(c2)) * pow2(i as nat) + bits_value(pr))
                    by (nonlinear_arith);
                assert((bit_val(xs@[i as int]) + bit_val(ys@[i as int]) + bit_val(pc)) * pow2(
                    i as nat,
                ) == bit_val(xs@[i as int]) * pow2(i as nat) + bit_val(ys@[i as int]) * pow2(i as nat)
                    + bit_val(pc) * pow2(i as nat)) by (nonlinear_arith);
            }
            result.push(s);
            c = c2;
            i += 1;
        }
        proof {
            assert(xs@.take(n as int) =~= xs@);
            assert(ys@.take(n as int) =~= ys@);
        }
        (result, c)
    }
}

/// Two to the power `e`, as an executable value.
pub fn pow2_u128(e: usize) -> (r: u128)
    requires
        e <= 127,
    ensures
        r == pow2(e as nat),
{
    let mut r: u128 = 1;
    let mut i: usize = 0;
    proof {
        lemma2_to64();
    }
    while i < e
        invariant
            i <= e,
            e <= 127,
            r == pow2(i as nat),
        decreases e - i,
    {
        proof {
            lemma_pow2_unfold((i + 1) as nat);
            lemma_pow2_strictly_increases((i + 1) as nat, 128);
            assert(pow2(128) == 0x1_0000_0000_0000_0000_0000_0000_0000_0000) by {
                lemma_pow2_adds(64, 64);
                lemma2_to64();
            }
        }
        r = r * 2;
        i += 1;
    }
    r
}

/// The little-endian bits of a number.
pub fn num_to_bits(x: u128, m: usize) -> (r: Vec<bool>)
    requires
        m <= 127,
        x < pow2(m as nat),
    ensures
        r.len() == m,
        bits_value(r@) == x,
{
    let mut res: Vec<bool> = Vec::new();
    let mut cur: u128 = x;
    let mut i: usize = 0;
    proof {
        lemma2_to64();
    }
    while i < m
        invariant
            i <= m,
            res.len() == i,
            x == bits_value(res@) + (cur as nat) * pow2(i as nat),
        decreases m - i,
    {
        let b = cur % 2 == 1;
        let next = cur / 2;
        proof {
            lemma_bits_value_push(res@, b);
            lemma_pow2_unfold((i + 1) as nat);
            assert(cur == 2 * next + (if b {
                1u128
            } else {
                0u128
            }));
            assert((cur as nat) * pow2(i as nat) == bit_val(b) * pow2(i as nat) + (next as nat)
                * pow2((i + 1) as nat)) by (nonlinear_arith)
                requires
                    cur == 2 * next + bit_val(b),
                    pow2((i + 1) as nat) == 2 * pow2(i as nat),
            ;
        }
        res.push(b);
        cur = next;
        i += 1;
    }
    proof {
        lemma_bits_value_bound(res@);
        if cur > 0 {
            assert((cur as nat) * pow2(m as nat) >= pow2(m as nat)) by (nonlinear_arith)
                requires
                    cur >= 1,
                    pow2(m as nat) > 0,
            ;
            lemma_pow2_pos(m as nat);
            assert(false);
        }
    }
    res
}

/// The canonical `n`-bit little-endian encoding of a number.
pub open spec fn spec_bits(x: nat, n: nat) -> Seq<bool>
    decreases n,
{
    if n == 0 {
        Seq::empty()
    } else {
        seq![x % 2 == 1] + spec_bits(x / 2, (n - 1) as nat)
    }
}

/// A bit vector is determined by its length and its value: it is the
/// canonical encoding of that value.
pub proof fn lemma_spec_bits_unique(s: Seq<bool>, x: nat, n: nat)
    requires
        s.len() == n,
        bits_value(s) == x,
    ensures
        s == spec_bits(x, n),
    decreases n,
{
    if n == 0 {
        assert(s =~= spec_bits(x, n));
    } else {
        let t = s.drop_first();
        lemma_bits_lsb(s);
        let b0 = bit_val(s[0]);
        let v = bits_value(t);
        // x = b0 + 2v determines both the parity and the quotient.
        lemma_fundamental_div_mod_converse_mod((b0 + 2 * v) as int, 2, v as int, b0 as int);
        vstd::arithmetic::div_mod::lemma_fundamental_div_mod_converse_div(
            (b0 + 2 * v) as int,
            2,
            v as int,
            b0 as int,
        );
        assert(x / 2 == v);
        lemma_spec_bits_unique(t, v, (n - 1) as nat);
        assert(spec_bits(x, n)[0] == (x % 2 == 1));
        assert(spec_bits(x, n).drop_first() =~= spec_bits(x / 2, (n - 1) as nat));
        assert(s[0] == (x % 2 == 1));
        assert(s =~= spec_bits(x, n));
    }
}

/// The lowest bit carries the value's parity.
pub proof fn lemma_bits_lsb(s: Seq<bool>)
    requires
        s.len() > 0,
    ensures
        bit_val(s[0]) == bits_value(s) % 2,
{
    let rest = bits_value(s.drop_first());
    lemma_fundamental_div_mod_converse_mod(
        (bit_val(s[0]) + 2 * rest) as int,
        2,
        rest as int,
        bit_val(s[0]) as int,
    );
}

impl GarbledCircuits {
    /// The conditional subtraction stage after an addition of two field
    /// elements: subtracts the modulus exactly when the sum has reached it,
    /// oblivious of which case occurred, and keeps the lowest `outlen` bits.
    ///
    /// `wires` are the sum's lower bits and `carry` its top bit, together a
    /// value below `2 * p`.
    pub fn sub_p_and_mux_with_output_size(
        wires: &Vec<bool>,
        carry: bool,
        outlen: usize,
        p: u64,
    ) -> (r: Vec<bool>)
        requires
            1 < p,
            p % 2 == 1,
            1 <= outlen <= wires.len(),
            wires.len() <= 63,
            pow2((wires.len() - 1) as nat) < p,
            p < pow2(wires.len() as nat),
            bits_value(wires@) + bit_val(carry) * pow2(wires.len() as nat) < 2 * p,
        ensures
            r.len() == outlen,
            bits_value(r@) == ((bits_value(wires@) + bit_val(carry) * pow2(wires.len() as nat)) % (
            p as nat)) % pow2(outlen as nat),
    {
        let n = wires.len();
        let ghost v = bits_value(wires@) + bit_val(carry) * pow2(n as nat);
        // The constant to add: two to the (n + 1) minus the modulus.
        let two_n1 = pow2_u128(n + 1);
        proof {
            lemma_pow2_unfold((n + 1) as nat);
            lemma_pow2_pos(n as nat);
        }
        let p_c: u128 = two_n1 - p as u128;
        let p_bits = num_to_bits(p_c, n + 1);
        proof {
            lemma_bits_lsb(p_bits@);
            assert(p_c % 2 == 1) by {
                assert(two_n1 % 2 == 0) by (nonlinear_arith)
                    requires
                        two_n1 == 2 * pow2(n as nat),
                ;
                assert((two_n1 - p as u128) % 2 == 1) by (nonlinear_arith)
                    requires
                        two_n1 % 2 == 0,
                        p % 2 == 1,
                        two_n1 >= p,
                ;
            }
        }
        // First step of the ripple chain: the constant's lowest bit is set.
        let mut subtracted: Vec<bool> = Vec::new();
        subtracted.push(!wires[0]);
        let mut c: bool = wires[0];
        let mut j: usize = 1;
        proof {
            assert(subtracted@ =~= Seq::<bool>::empty().push(!wires@[0]));
            lemma_bits_value_push(Seq::<bool>::empty(), !wires@[0]);
            assert(wires@.take(1) =~= Seq::<bool>::empty().push(wires@[0]));
            assert(p_bits@.take(1) =~= Seq::<bool>::empty().push(p_bits@[0]));
            lemma_bits_value_push(Seq::<bool>::empty(), wires@[0]);
            lemma_bits_value_push(Seq::<bool>::empty(), p_bits@[0]);
            lemma2_to64();
            lemma_pow2_unfold(1);
        }
        while j < n
            invariant
                1 <= j <= n,
                n == wires.len(),
                p_bits.len() == n + 1,
                subtracted.len() == j,
                bits_value(subtracted@) + bit_val(c) * pow2(j as nat) == bits_value(
                    wires@.take(j as int),
                ) + bits_value(p_bits@.take(j as int)),
            decreases n - j,
        {
            let (s, c2) = Self::full_adder_const(wires[j], p_bits[j], c);
            proof {
                let pr = subtracted@;
                let pc = c;
                assert(wires@.take(j + 1) =~= wires@.take(j as int).push(wires@[j as int]));
                assert(p_bits@.take(j + 1) =~= p_bits@.take(j as int).push(p_bits@[j as int]));
                lemma_bits_value_push(wires@.take(j as int), wires@[j as int]);
                lemma_bits_value_push(p_bits@.take(j as int), p_bits@[j as int]);
                lemma_bits_value_push(pr, s);
                lemma_pow2_unfold((j + 1) as nat);
                assert(bit_val(s) * pow2(j as nat) + bit_val(c2) * (2 * pow2(j as nat)) + bits_value(
                    pr,
                ) == (bit_val(s) + 2 * bit_val(c2)) * pow2(j as nat) + bits_value(pr))
                    by (nonlinear_arith);
                assert((bit_val(wires@[j as int]) + bit_val(p_bits@[j as int]) + bit_val(pc)) * pow2(
                    j as nat,
                ) == bit_val(wires@[j as int]) * pow2(j as nat) + bit_val(p_bits@[j as int]) * pow2(
                    j as nat,
                ) + bit_val(pc) * pow2(j as nat)) by (nonlinear_arith);
            }
            subtracted.push(s);
            c = c2;
            j += 1;
        }
        // The overflow bit: the top sum bit of the (n + 1)-bit addition.
        let z: bool = if p_bits[n] {
            !carry
        } else {
            carry
        };
        let ov = z ^ c;
        let ghost pbn = bit_val(p_bits@[n as int]);
        proof {
            assert(wires@.take(n as int) =~= wires@);
            lemma_bits_value_take(p_bits@, n as int);
            lemma_bits_value_skip(p_bits@, n as int);
            let top = p_bits@.skip(n as int);
            assert(top.len() == 1);
            assert(top[0] == p_bits@[n as int]);
            assert(bits_value(top) == bit_val(top[0]) + 2 * bits_value(top.drop_first()));
            assert(bits_value(top.drop_first()) == 0);
            // Reassemble the constant from its low part and top bit.
            vstd::arithmetic::div_mod::lemma_fundamental_div_mod(p_c as int, pow2(n as nat) as int);
            assert(p_c == bits_value(p_bits@.take(n as int)) + pbn * pow2(n as nat)) by (nonlinear_arith)
                requires
                    p_c as int == pow2(n as nat) as int * ((p_c as nat / pow2(n as nat)) as int) + (
                    p_c as nat % pow2(n as nat)) as int,
                    bits_value(p_bits@.take(n as int)) == p_c as nat % pow2(n as nat),
                    pbn == p_c as nat / pow2(n as nat),
            ;
        }
        let ghost subv = bits_value(subtracted@);
        let ghost cn = bit_val(c);
        let ghost carn = bit_val(carry);
        let ghost pn = pow2(n as nat);
        proof {
            // subv + cn*2^n == value(wires) + (p_c - pbn*2^n)
            // total: v + p_c == subv + (cn + carn + pbn) * 2^n
            assert(v + p_c == subv + (cn + carn + pbn) * pn) by (nonlinear_arith)
                requires
                    subv + cn * pn == bits_value(wires@) + (p_c - pbn * pn),
                    v == bits_value(wires@) + carn * pn,
            ;
            lemma_bits_value_bound(subtracted@);
            assert(p_c == 2 * pn - p);
        }
        // Select the reduced or the original sum, bit by bit.
        let mut result: Vec<bool> = Vec::new();
        let mut k: usize = 0;
        let ghost chosen = if ov {
            wires@
        } else {
            subtracted@
        };
        while k < outlen
            invariant
                k <= outlen,
                outlen <= n,
                n == wires.len(),
                subtracted.len() == n,
                result.len() == k,
                chosen == if ov {
                    wires@
                } else {
                    subtracted@
                },
                result@ =~= chosen.take(k as int),
            decreases outlen - k,
        {
            let r = Self::mux(ov, subtracted[k], wires[k]);
            proof {
                assert(chosen.take(k + 1) =~= chosen.take(k as int).push(chosen[k as int]));
            }
            result.push(r);
            k += 1;
        }
        proof {
            lemma_bits_value_take(chosen, outlen as int);
            lemma_pow2_unfold(n as nat);
            assert(2 * p > pn);
            // The selected vector's value is the sum reduced modulo p.
            if v >= p {
                // The subtraction case: the three top bits sum to two.
                assert(subv == v - p && cn + carn + pbn == 2) by (nonlinear_arith)
                    requires
                        v + 2 * pn - p == subv + (cn + carn + pbn) * pn,
                        0 <= subv < pn,
                        p <= v < 2 * p,
                        p < pn,
                        cn <= 1 && carn <= 1 && pbn <= 1,
                ;
                assert(!ov);
                assert(chosen == subtracted@);
                lemma_fundamental_div_mod_converse_mod(v as int, p as int, 1, (v - p) as int);
            } else {
                // No subtraction: the three top bits sum to one.
                assert(cn + carn + pbn == 1) by (nonlinear_arith)
                    requires
                        v + 2 * pn - p == subv + (cn + carn + pbn) * pn,
                        0 <= subv < pn,
                        v < p,
                        2 * p > pn,
                        p < pn,
                        cn <= 1 && carn <= 1 && pbn <= 1,
                ;
                assert(ov);
                assert(chosen == wires@);
                assert(carn == 0) by (nonlinear_arith)
                    requires
                        v == bits_value(wires@) + carn * pn,
                        v < p,
                        p < pn,
                        carn <= 1,
                ;
                lemma_small_mod(v, p as nat);
                assert(bits_value(wires@) == v);
            }
        }
        result
    }

    /// Adds two field elements held as bit vectors and reduces the sum into
    /// `[0, p)`, keeping the lowest `outlen` bits of the result.
    pub fn adder_mod_p_with_output_size(
        wires_a: &Vec<bool>,
        wires_b: &Vec<bool>,
        outlen: usize,
        p: u64,
    ) -> (r: Vec<bool>)
        requires
            1 < p,
            p % 2 == 1,
            wires_a.len() == wires_b.len(),
            1 <= outlen <= wires_a.len(),
            wires_a.len() <= 63,
            pow2((wires_a.len() - 1) as nat) < p,
            p < pow2(wires_a.len() as nat),
            bits_value(wires_a@) < p,
            bits_value(wires_b@) < p,
        ensures
            r.len() == outlen,
            bits_value(r@) == ((bits_value(wires_a@) + bits_value(wires_b@)) % (p as nat)) % pow2(
                outlen as nat,
            ),
    {
        let (added, carry) = Self::bin_addition(wires_a, wires_b);
        Self::sub_p_and_mux_with_output_size(&added, carry, outlen, p)
    }

    /// Adds two field elements held as bit vectors of the modulus bit size
    /// and reduces the sum into `[0, p)`.
    pub fn adder_mod_p(wires_a: &Vec<bool>, wires_b: &Vec<bool>, p: u64) -> (r: Vec<bool>)
        requires
            1 < p,
            p % 2 == 1,
            wires_a.len() == wires_b.len(),
            1 <= wires_a.len() <= 63,
            pow2((wires_a.len() - 1) as nat) < p,
            p < pow2(wires_a.len() as nat),
            bits_value(wires_a@) < p,
            bits_value(wires_b@) < p,
        ensures
            r.len() == wires_a.len(),
            bits_value(r@) == (bits_value(wires_a@) + bits_value(wires_b@)) % (p as nat),
    {
        let r = Self::adder_mod_p_with_output_size(wires_a, wires_b, wires_a.len(), p);
        proof {
            let s = (bits_value(wires_a@) + bits_value(wires_b@)) % (p as nat);
            assert(s < p) by {
                vstd::arithmetic::div_mod::lemma_mod_bound(
                    (bits_value(wires_a@) + bits_value(wires_b@)) as int,
                    p as int,
                );
            }
            lemma_small_mod(s, pow2(wires_a.len() as nat));
        }
        r
    }
}

/// Copies the bit range `[from, to)` of a vector.
pub fn sub_bits(v: &Vec<bool>, from: usize, to: usize) -> (r: Vec<bool>)
    requires
        from <= to <= v.len(),
    ensures
        r@ == v@.subrange(from as int, to as int),
{
    let mut r: Vec<bool> = Vec::new();
    let mut i: usize = from;
    proof {
        assert(r@ =~= v@.subrange(from as int, from as int));
    }
    while i < to
        invariant
            from <= i <= to,
            to <= v.len(),
            r@ == v@.subrange(from as int, i as int),
        decreases to - i,
    {
        r.push(v[i]);
        proof {
            assert(v@.subrange(from as int, i as int).push(v@[i as int]) =~= v@.subrange(
                from as int,
                i + 1,
            ));
        }
        i += 1;
    }
    r
}

/// Extends a bit vector with clear bits up to length `n`; the value is
/// unchanged.
pub fn pad_bits(v: &Vec<bool>, n: usize) -> (r: Vec<bool>)
    requires
        v.len() <= n,
    ensures
        r.len() == n,
        bits_value(r@) == bits_value(v@),
{
    let mut r: Vec<bool> = Vec::new();
    let mut i: usize = 0;
    while i < v.len()
        invariant
            i <= v.len(),
            r@ == v@.take(i as int),
        decreases v.len() - i,
    {
        r.push(v[i]);
        proof {
            assert(v@.take(i as int).push(v@[i as int]) =~= v@.take(i + 1));
        }
        i += 1;
    }
    proof {
        assert(v@.take(v@.len() as int) =~= v@);
    }
    while i < n
        invariant
            v.len() <= i <= n,
            r.len() == i,
            bits_value(r@) == bits_value(v@),
        decreases n - i,
    {
        proof {
            lemma_bits_value_push(r@, false);
        }
        r.push(false);
        i += 1;
    }
    r
}

impl GarbledCircuits {
    /// Decomposes a field element — held as the two bit-encoded halves
    /// `wires_a` and `wires_b` whose field sum it is — into chunks of
    /// `decompose_bitlen` bits taken from the lowest `total_bitlen` bits,
    /// each chunk masked by adding (mod p) the matching `decompose_bitlen`-wide
    /// slice of `wires_c`.  The result is the concatenation of the masked
    /// chunks, each `wires_a.len()` bits wide.
    pub fn decompose_field_element(
        wires_a: &Vec<bool>,
        wires_b: &Vec<bool>,
        wires_c: &Vec<bool>,
        decompose_bitlen: usize,
        total_bitlen: usize,
        p: u64,
    ) -> (r: Vec<bool>)
        requires
            1 < p,
            p % 2 == 1,
            wires_a.len() == wires_b.len(),
            wires_a.len() <= 63,
            pow2((wires_a.len() - 1) as nat) < p,
            p < pow2(wires_a.len() as nat),
            bits_value(wires_a@) < p,
            bits_value(wires_b@) < p,
            1 <= decompose_bitlen < wires_a.len(),
            decompose_bitlen <= total_bitlen <= wires_a.len(),
            wires_c.len() == wires_a.len() * ((total_bitlen + decompose_bitlen - 1) / (
            decompose_bitlen as int)),
            forall|j: int|
                0 <= j < (total_bitlen + decompose_bitlen - 1) / (decompose_bitlen as int)
                    ==> bits_value(
                    #[trigger] wires_c@.subrange(
                        j * wires_a.len(),
                        j * wires_a.len() + wires_a.len(),
                    ),
                ) < p,
        ensures
            ({
                let n = wires_a.len() as int;
                let nc = (total_bitlen + decompose_bitlen - 1) / (decompose_bitlen as int);
                let xt = ((bits_value(wires_a@) + bits_value(wires_b@)) % (p as nat)) % pow2(
                    total_bitlen as nat,
                );
                &&& r.len() == n * nc
                &&& forall|j: int|
                    0 <= j < nc ==> bits_value(#[trigger] r@.subrange(j * n, j * n + n)) == ((xt
                        / pow2((j * decompose_bitlen) as nat)) % pow2(decompose_bitlen as nat)
                        + bits_value(wires_c@.subrange(j * n, j * n + n))) % (p as nat)
            }),
    {
        let n = wires_a.len();
        let k = decompose_bitlen;
        let nc = (total_bitlen + k - 1) / k;
        let sum_bits = Self::adder_mod_p_with_output_size(wires_a, wires_b, total_bitlen, p);
        let ghost xt = ((bits_value(wires_a@) + bits_value(wires_b@)) % (p as nat)) % pow2(
            total_bitlen as nat,
        );
        let mut results: Vec<bool> = Vec::new();
        let mut j: usize = 0;
        proof {
            // nc * k covers total_bitlen, and one chunk fewer does not.
            let tk = (total_bitlen + k - 1) as int;
            lemma_fundamental_div_mod(tk, k as int);
            vstd::arithmetic::div_mod::lemma_mod_bound(tk, k as int);
            assert(nc == tk / (k as int));
            assert(nc * k >= total_bitlen && (nc - 1) * k < total_bitlen && nc <= total_bitlen)
                by (nonlinear_arith)
                requires
                    tk == (k as int) * (tk / (k as int)) + tk % (k as int),
                    0 <= tk % (k as int) < k,
                    nc == tk / (k as int),
                    1 <= k,
                    1 <= total_bitlen,
                    tk == total_bitlen + k - 1,
            ;
        }
        while j < nc
            invariant
                1 < p,
                p % 2 == 1,
                j <= nc,
                n == wires_a.len(),
                n <= 63,
                1 <= k < n,
                k <= total_bitlen <= n,
                nc == (total_bitlen + k - 1) / (k as int),
                nc * k >= total_bitlen,
                (nc - 1) * k < total_bitlen,
                nc <= total_bitlen,
                pow2((n - 1) as nat) < p,
                p < pow2(n as nat),
                sum_bits.len() == total_bitlen,
                bits_value(sum_bits@) == xt,
                wires_c.len() == n * nc,
                forall|jj: int|
                    0 <= jj < nc as int ==> bits_value(
                        #[trigger] wires_c@.subrange(jj * n as int, jj * n as int + n as int),
                    ) < p,
                results.len() == j * n,
                forall|jj: int|
                    0 <= jj < j as int ==> bits_value(
                        #[trigger] results@.subrange(jj * n as int, jj * n as int + n as int),
                    ) == ((xt / pow2((jj * k as int) as nat)) % pow2(k as nat) + bits_value(
                        wires_c@.subrange(jj * n as int, jj * n as int + n as int),
                    )) % (p as nat),
            decreases nc - j,
        {
            proof {
                assert(j * k <= (nc - 1) * k) by (nonlinear_arith)
                    requires
                        j <= nc - 1,
                        k >= 1,
                ;
            }
            let lo = j * k;
            let hi = if lo + k <= total_bitlen {
                lo + k
            } else {
                total_bitlen
            };
            proof {
                assert(lo < total_bitlen);
            }
            let chunk = sub_bits(&sum_bits, lo, hi);
            let ghost len = (hi - lo) as nat;
            proof {
                // The chunk's value is the matching slice of the sum's bits.
                assert(sum_bits@.subrange(lo as int, hi as int) =~= sum_bits@.skip(lo as int).take(
                    (hi - lo) as int,
                ));
                lemma_bits_value_skip(sum_bits@, lo as int);
                lemma_bits_value_take(sum_bits@.skip(lo as int), (hi - lo) as int);
                assert(bits_value(chunk@) == (xt / pow2((j * k) as nat)) % pow2(len));
                // That slice is already reduced modulo two to the chunk width.
                lemma_bits_value_bound(sum_bits@);
                lemma_pow2_adds((lo) as nat, (total_bitlen - lo) as nat);
                lemma_pow2_pos(lo as nat);
                lemma_multiply_divide_lt(xt as int, pow2(lo as nat) as int,
                    pow2((total_bitlen - lo) as nat) as int);
                if hi == total_bitlen {
                    if len < k {
                        lemma_pow2_strictly_increases(len, k as nat);
                    }
                    lemma_small_mod((xt / pow2(lo as nat)) as nat, pow2(len));
                    lemma_small_mod((xt / pow2(lo as nat)) as nat, pow2(k as nat));
                }
                assert(bits_value(chunk@) == (xt / pow2((j * k) as nat)) % pow2(k as nat));
                // A chunk is smaller than the modulus.
                lemma_pow2_pos(k as nat);
                vstd::arithmetic::div_mod::lemma_mod_bound((xt / pow2(lo as nat)) as int,
                    pow2(k as nat) as int);
                assert(pow2(k as nat) <= pow2((n - 1) as nat)) by {
                    if k < n - 1 {
                        lemma_pow2_strictly_increases(k as nat, (n - 1) as nat);
                    }
                }
                assert(bits_value(chunk@) < p);
            }
            proof {
                assert(j * n + n <= nc * n) by (nonlinear_arith)
                    requires
                        j < nc,
                        n >= 1,
                ;
                assert(nc * n == n * nc) by (nonlinear_arith);
            }
            let mask = sub_bits(wires_c, j * n, j * n + n);
            proof {
                assert(bits_value(mask@) < p);
            }
            let padded = pad_bits(&chunk, n);
            let (added, carry) = Self::bin_addition(&padded, &mask);
            let out = Self::sub_p_and_mux_with_output_size(&added, carry, n, p);
            proof {
                let s = (bits_value(chunk@) + bits_value(mask@)) % (p as nat);
                vstd::arithmetic::div_mod::lemma_mod_bound(
                    (bits_value(chunk@) + bits_value(mask@)) as int,
                    p as int,
                );
                lemma_small_mod(s, pow2(n as nat));
                assert(bits_value(out@) == s);
            }
            // Append the masked chunk to the output.
            let ghost prev = results@;
            let mut idx: usize = 0;
            while idx < out.len()
                invariant
                    idx <= out.len(),
                    results@ == prev + out@.take(idx as int),
                decreases out.len() - idx,
            {
                proof {
                    assert((prev + out@.take(idx as int)).push(out@[idx as int]) =~= prev + out@.take(
                        idx + 1,
                    ));
                }
                results.push(out[idx]);
                idx += 1;
            }
            proof {
                assert(out@.take(out@.len() as int) =~= out@);
                assert(results@ == prev + out@);
                assert(results@.len() == j * n + n);
                assert((j + 1) * n == j * n + n) by (nonlinear_arith);
                // Earlier chunks are untouched by the append.
                assert forall|jj: int| 0 <= jj < j as int implies #[trigger] results@.subrange(
                    jj * n as int,
                    jj * n as int + n as int,
                ) =~= prev.subrange(jj * n as int, jj * n as int + n as int) by {
                    assert(jj * n as int + n as int <= j as int * n as int) by (nonlinear_arith)
                        requires
                            0 <= jj < j as int,
                            n as int >= 1,
                    ;
                }
                assert(results@.subrange(j as int * n as int, j as int * n as int + n as int) =~= out@);
            }
            j += 1;
        }
        proof {
            assert(nc * n == n * nc) by (nonlinear_arith);
        }
        results
    }

}

/// The little-endian recomposition of a value's chunks from chunk `j`
/// on: each chunk of `k` bits, weighted by its position.
pub open spec fn chunk_sum(xt: nat, k: nat, j: nat, nc: nat) -> nat
    decreases nc - j,
{
    if j >= nc {
        0
    } else {
        ((xt / pow2(j * k)) % pow2(k)) * pow2(j * k) + chunk_sum(xt, k, (j + 1) as nat, nc)
    }
}

/// The tail of the recomposition from chunk `j` on restores everything
/// above the first `j * k` bits.
proof fn lemma_chunk_sum_tail(xt: nat, k: nat, j: nat, nc: nat)
    requires
        1 <= k,
        j <= nc,
        xt < pow2(nc * k),
    ensures
        chunk_sum(xt, k, j, nc) == (xt / pow2(j * k)) * pow2(j * k),
    decreases nc - j,
{
    lemma_pow2_pos(j * k);
    lemma_pow2_pos(k);
    if j == nc {
        assert(xt / pow2(nc * k) == 0) by {
            vstd::arithmetic::div_mod::lemma_basic_div(xt as int, pow2(nc * k) as int);
        }
    } else {
        lemma_chunk_sum_tail(xt, k, (j + 1) as nat, nc);
        let tj = xt / pow2(j * k);
        let pk = pow2(k);
        let pjk = pow2(j * k);
        assert((j + 1) * k == j * k + k) by (nonlinear_arith);
        lemma_pow2_adds(j * k, k);
        assert(pow2((j + 1) as nat * k) == pjk * pk);
        // Dividing by the combined power equals dividing twice.
        assert(xt / (pjk * pk) == tj / pk) by {
            vstd::arithmetic::div_mod::lemma_div_denominator(xt as int, pjk as int, pk as int);
        }
        lemma_fundamental_div_mod(tj as int, pk as int);
        let q = tj / pk;
        let rem = tj % pk;
        assert(rem * pjk + q * (pjk * pk) == tj * pjk) by (nonlinear_arith)
            requires
                tj == pk * q + rem,
        ;
        assert(chunk_sum(xt, k, j, nc) == (tj % pk) * pjk + (xt / (pjk * pk)) * (pjk * pk));
    }
}

/// Round trip of the decomposition: reassembling the `nc` chunks of `k`
/// bits each, little-endian, reconstructs the decomposed value exactly.
pub proof fn lemma_chunks_recompose(xt: nat, k: nat, nc: nat)
    requires
        1 <= k,
        xt < pow2(nc * k),
    ensures
        chunk_sum(xt, k, 0, nc) == xt,
{
    lemma_chunk_sum_tail(xt, k, 0, nc);
    lemma2_to64();
    assert(0 * k == 0) by (nonlinear_arith);
    assert(pow2(0) == 1);
    assert((xt / pow2(0)) * pow2(0) == xt) by (nonlinear_arith)
        requires
            pow2(0) == 1nat,
    ;
}

impl GarbledCircuits {
    /// XOR of two equal-length wire vectors, bit by bit; in the garbled
    /// world this costs nothing.
    pub fn xor_many(wires_a: &Vec<bool>, wires_b: &Vec<bool>) -> (r: Vec<bool>)
        requires
            wires_a.len() == wires_b.len(),
        ensures
            r.len() == wires_a.len(),
            forall|i: int| 0 <= i < r.len() ==> r[i] == (wires_a[i] ^ wires_b[i]),
    {
        let mut result: Vec<bool> = Vec::new();
        let mut i: usize = 0;
        while i < wires_a.len()
            invariant
                i <= wires_a.len(),
                wires_a.len() == wires_b.len(),
                result.len() == i,
                forall|j: int| 0 <= j < i ==> result[j] == (wires_a[j] ^ wires_b[j]),
            decreases wires_a.len() - i,
        {
            result.push(wires_a[i] ^ wires_b[i]);
            i += 1;
        }
        result
    }

}

} // verus!
