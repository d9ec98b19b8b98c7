//! Threshold (Shamir) sharing of prime-field elements.
//!
//! A secret is the constant term of a random polynomial of degree `t`;
//! party `i` holds the evaluation at the public point `i + 1`.  Any `t + 1`
//! evaluations reconstruct the secret by interpolation at zero; the
//! interpolation weights are computed once per set of points and checked
//! against the power-sum identities that make interpolation sound, so that
//! reconstruction is proved correct for every polynomial of fitting degree.

use crate::field::{add_mod, has_inverse, in_field, inv_candidate, inv_mod, mul_mod, pow_mod, sub_mod};
use vstd::arithmetic::div_mod::{
    lemma_add_mod_noop, lemma_mod_bound, lemma_mod_twice, lemma_mul_mod_noop_right,
    lemma_small_mod,
};
use vstd::arithmetic::power::{lemma_pow0, lemma_pow1, lemma_pow_adds, pow};
use vstd::prelude::*;

verus! {

/// The value of the polynomial with coefficient sequence `c` (constant
/// term first) at `x`, over the unbounded integers.
pub open spec fn poly_eval_int(c: Seq<u64>, x: int) -> int
    decreases c.len(),
{
    if c.len() == 0 {
        0
    } else {
        c[0] + x * poly_eval_int(c.drop_first(), x)
    }
}

/// Dot product of two integer sequences of equal length.
pub open spec fn dot(w: Seq<int>, y: Seq<int>) -> int
    decreases w.len(),
{
    if w.len() == 0 || y.len() == 0 {
        0
    } else {
        w[0] * y[0] + dot(w.drop_first(), y.drop_first())
    }
}

/// The weighted sum of the `k`-th powers of the evaluation points.
pub open spec fn pow_sum(w: Seq<int>, xs: Seq<int>, k: nat) -> int
    decreases w.len(),
{
    if w.len() == 0 || xs.len() == 0 {
        0
    } else {
        w[0] * pow(xs[0], k) + pow_sum(w.drop_first(), xs.drop_first(), k)
    }
}

/// A `u64` sequence viewed as an integer sequence.
pub open spec fn to_ints(s: Seq<u64>) -> Seq<int> {
    Seq::new(s.len(), |i: int| s[i] as int)
}

/// The evaluations of the polynomial `c` at all points of `xs`.
pub open spec fn evals(c: Seq<u64>, xs: Seq<int>) -> Seq<int> {
    Seq::new(xs.len(), |i: int| poly_eval_int(c, xs[i]))
}

/// The weights, each multiplied by the `j`-th power of its point.
pub open spec fn scaled(w: Seq<int>, xs: Seq<int>, j: nat) -> Seq<int> {
    Seq::new(w.len(), |i: int| w[i] * pow(xs[i], j))
}

/// `sum_k c[k] * pow_sum(w, xs, j + k)`: what the weighted evaluations
/// of `c` unfold to, coefficient by coefficient.
pub open spec fn combo(c: Seq<u64>, w: Seq<int>, xs: Seq<int>, j: nat) -> int
    decreases c.len(),
{
    if c.len() == 0 {
        0
    } else {
        c[0] * pow_sum(w, xs, j) + combo(c.drop_first(), w, xs, (j + 1) as nat)
    }
}

/// The weights interpolate at zero every polynomial with up to
/// `deg + 1` coefficients: the weighted power sums are `1` at power zero
/// and vanish at powers `1 .. deg`.
pub open spec fn lagrange_ok(w: Seq<u64>, xs: Seq<u64>, deg: nat, p: u64) -> bool {
    &&& w.len() == xs.len()
    &&& forall|k: nat|
        k <= deg ==> pow_sum(to_ints(w), to_ints(xs), k) % (p as int) == if k == 0 {
            1int
        } else {
            0int
        }
}

/// Splitting one step off the weighted evaluations: the head coefficient
/// contributes a power sum, the tail evaluates with the points' next
/// power folded into the weights.
proof fn lemma_dot_eval_step(c: Seq<u64>, w: Seq<int>, xs: Seq<int>, j: nat)
    requires
        w.len() == xs.len(),
        c.len() > 0,
    ensures
        dot(scaled(w, xs, j), evals(c, xs)) == c[0] * pow_sum(w, xs, j) + dot(
            scaled(w, xs, (j + 1) as nat),
            evals(c.drop_first(), xs),
        ),
    decreases w.len(),
{
    if w.len() == 0 {
        assert(pow_sum(w, xs, j) == 0);
    } else {
        let wt = w.drop_first();
        let xt = xs.drop_first();
        let ct = c.drop_first();
        assert(scaled(w, xs, j).drop_first() =~= scaled(wt, xt, j));
        assert(scaled(w, xs, (j + 1) as nat).drop_first() =~= scaled(wt, xt, (j + 1) as nat));
        assert(evals(c, xs).drop_first() =~= evals(c, xt));
        assert(evals(ct, xs).drop_first() =~= evals(ct, xt));
        lemma_dot_eval_step(c, wt, xt, j);
        let x0 = xs[0];
        let w0 = w[0];
        let c0 = c[0] as int;
        let e0 = poly_eval_int(ct, x0);
        let pj = pow(x0, j);
        let pj1 = pow(x0, (j + 1) as nat);
        let pst = pow_sum(wt, xt, j);
        let d2 = dot(scaled(wt, xt, (j + 1) as nat), evals(ct, xt));
        lemma_pow_adds(x0, j, 1);
        lemma_pow1(x0);
        assert(pj1 == pj * x0);
        // The pieces of the unfolded dot products.
        assert(scaled(w, xs, j)[0] == w0 * pj);
        assert(evals(c, xs)[0] == c0 + x0 * e0);
        assert(dot(scaled(w, xs, j), evals(c, xs)) == (w0 * pj) * (c0 + x0 * e0) + dot(
            scaled(wt, xt, j),
            evals(c, xt),
        ));
        assert(dot(scaled(wt, xt, j), evals(c, xt)) == c0 * pst + d2);
        assert(pow_sum(w, xs, j) == w0 * pj + pst);
        assert(scaled(w, xs, (j + 1) as nat)[0] == w0 * pj1);
        assert(evals(ct, xs)[0] == e0);
        assert(dot(scaled(w, xs, (j + 1) as nat), evals(ct, xs)) == (w0 * pj1) * e0 + d2);
        // The remaining ring identity.
        assert((w0 * pj) * (c0 + x0 * e0) + (c0 * pst + d2) == c0 * (w0 * pj + pst) + ((w0 * (pj
            * x0)) * e0 + d2)) by (nonlinear_arith);
        assert((w0 * pj1) * e0 == (w0 * (pj * x0)) * e0);
    }
}

/// The weighted evaluations of `c` equal the coefficient-by-coefficient
/// combination of the weighted power sums.
proof fn lemma_dot_eval(c: Seq<u64>, w: Seq<int>, xs: Seq<int>, j: nat)
    requires
        w.len() == xs.len(),
    ensures
        dot(scaled(w, xs, j), evals(c, xs)) == combo(c, w, xs, j),
    decreases c.len(),
{
    if c.len() == 0 {
        let s = scaled(w, xs, j);
        let e = evals(c, xs);
        assert forall|i: int| 0 <= i < e.len() implies e[i] == 0 by {}
        lemma_dot_zero_right(s, e);
    } else {
        lemma_dot_eval_step(c, w, xs, j);
        lemma_dot_eval(c.drop_first(), w, xs, (j + 1) as nat);
    }
}

/// A dot product against an all-zero right side vanishes.
proof fn lemma_dot_zero_right(w: Seq<int>, y: Seq<int>)
    requires
        forall|i: int| 0 <= i < y.len() ==> y[i] == 0,
    ensures
        dot(w, y) == 0,
    decreases w.len(),
{
    if w.len() == 0 || y.len() == 0 {
    } else {
        lemma_dot_zero_right(w.drop_first(), y.drop_first());
    }
}

/// When every involved power sum vanishes modulo `p`, so does the whole
/// combination.
proof fn lemma_combo_zero(c: Seq<u64>, w: Seq<int>, xs: Seq<int>, j: nat, p: int)
    requires
        0 < p,
        forall|k: nat| j <= k < j + c.len() ==> pow_sum(w, xs, k) % p == 0,
    ensures
        combo(c, w, xs, j) % p == 0,
    decreases c.len(),
{
    if c.len() == 0 {
        lemma_small_mod(0, p as nat);
    } else {
        lemma_combo_zero(c.drop_first(), w, xs, (j + 1) as nat, p);
        let s0 = c[0] * pow_sum(w, xs, j);
        let rest = combo(c.drop_first(), w, xs, (j + 1) as nat);
        assert(pow_sum(w, xs, j) % p == 0);
        lemma_mul_mod_noop_right(c[0] as int, pow_sum(w, xs, j), p);
        assert(s0 % p == (c[0] as int * 0) % p);
        lemma_small_mod(0, p as nat);
        lemma_add_mod_noop(s0, rest, p);
    }
}

/// The combination of a polynomial with weights that satisfy the
/// interpolation identities reduces to the constant term.
proof fn lemma_combo_main(c: Seq<u64>, w: Seq<int>, xs: Seq<int>, p: int)
    requires
        0 < p,
        c.len() >= 1,
        pow_sum(w, xs, 0) % p == 1,
        forall|k: nat| 1 <= k < c.len() ==> pow_sum(w, xs, k) % p == 0,
    ensures
        combo(c, w, xs, 0) % p == (c[0] as int) % p,
{
    let s0 = c[0] * pow_sum(w, xs, 0);
    let rest = combo(c.drop_first(), w, xs, 1);
    lemma_combo_zero(c.drop_first(), w, xs, 1, p);
    lemma_mul_mod_noop_right(c[0] as int, pow_sum(w, xs, 0), p);
    assert(s0 % p == (c[0] as int * 1) % p);
    lemma_add_mod_noop(s0, rest, p);
    lemma_mod_twice(c[0] as int, p);
    lemma_small_mod(0, p as nat);
    lemma_mod_twice(s0, p);
}

/// Replacing the right side of a dot product by a sequence congruent
/// modulo `p` does not change the product's residue.
proof fn lemma_dot_mod_congruent(w: Seq<int>, y: Seq<int>, z: Seq<int>, p: int)
    requires
        0 < p,
        y.len() == z.len(),
        forall|i: int| 0 <= i < y.len() ==> (y[i] % p) == (z[i] % p),
    ensures
        dot(w, y) % p == dot(w, z) % p,
    decreases w.len(),
{
    if w.len() == 0 || y.len() == 0 {
    } else {
        lemma_dot_mod_congruent(w.drop_first(), y.drop_first(), z.drop_first(), p);
        let wy = w[0] * y[0];
        let wz = w[0] * z[0];
        lemma_mul_mod_noop_right(w[0], y[0], p);
        lemma_mul_mod_noop_right(w[0], z[0], p);
        assert(wy % p == wz % p);
        lemma_add_mod_noop(wy, dot(w.drop_first(), y.drop_first()), p);
        lemma_add_mod_noop(wz, dot(w.drop_first(), z.drop_first()), p);
    }
}

/// At power zero the scaled weights are the weights themselves.
proof fn lemma_scaled_zero(w: Seq<int>, xs: Seq<int>)
    requires
        w.len() == xs.len(),
    ensures
        scaled(w, xs, 0) =~= w,
{
    assert forall|i: int| 0 <= i < w.len() implies scaled(w, xs, 0)[i] == w[i] by {
        lemma_pow0(xs[i]);
    }
}

/// Correctness of Shamir reconstruction: for any polynomial `c` with at
/// most `deg + 1` coefficients, any evaluation points `xs` whose checked
/// weights `w` satisfy the interpolation identities up to `deg`, and the
/// reduced share values `ys` of `c` at those points, the weighted sum of
/// the shares reconstructs the constant term — the secret.
pub proof fn lemma_shamir_reconstruct(
    c: Seq<u64>,
    w: Seq<u64>,
    xs: Seq<u64>,
    ys: Seq<u64>,
    deg: nat,
    p: u64,
)
    requires
        1 < p,
        1 <= c.len() <= deg + 1,
        w.len() == xs.len() && ys.len() == xs.len(),
        lagrange_ok(w, xs, deg, p),
        forall|i: int| 0 <= i < ys.len() ==> ys[i] == poly_eval_int(c, xs[i] as int) % (p as int),
        c[0] < p,
    ensures
        dot(to_ints(w), to_ints(ys)) % (p as int) == c[0],
{
    let pp = p as int;
    let wi = to_ints(w);
    let xi = to_ints(xs);
    let yi = to_ints(ys);
    let ev = evals(c, xi);
    assert(yi.len() == ev.len());
    assert forall|i: int| 0 <= i < yi.len() implies (yi[i] % pp) == (ev[i] % pp) by {
        lemma_small_mod(ys[i] as nat, p as nat);
        lemma_mod_twice(poly_eval_int(c, xs[i] as int), pp);
    }
    lemma_dot_mod_congruent(wi, yi, ev, pp);
    lemma_scaled_zero(wi, xi);
    lemma_dot_eval(c, wi, xi, 0);
    lemma_combo_main(c, wi, xi, pp);
    lemma_small_mod(c[0] as nat, p as nat);
}

/// The pointwise products of two polynomials' evaluations at the points.
pub open spec fn prod_evals(cy: Seq<u64>, cz: Seq<u64>, xs: Seq<int>) -> Seq<int> {
    Seq::new(xs.len(), |i: int| poly_eval_int(cy, xs[i]) * poly_eval_int(cz, xs[i]))
}

/// `sum_k cy[k] * combo(cz, w, xs, j + k)`: what the weighted products
/// of two polynomials' evaluations unfold to.
pub open spec fn combo2(cy: Seq<u64>, cz: Seq<u64>, w: Seq<int>, xs: Seq<int>, j: nat) -> int
    decreases cy.len(),
{
    if cy.len() == 0 {
        0
    } else {
        cy[0] * combo(cz, w, xs, j) + combo2(cy.drop_first(), cz, w, xs, (j + 1) as nat)
    }
}

/// Splitting one step off the weighted evaluation products, like
/// `lemma_dot_eval_step` but with the second polynomial's evaluation as
/// an extra factor.
proof fn lemma_dot_eval2_step(cy: Seq<u64>, cz: Seq<u64>, w: Seq<int>, xs: Seq<int>, j: nat)
    requires
        w.len() == xs.len(),
        cy.len() > 0,
    ensures
        dot(scaled(w, xs, j), prod_evals(cy, cz, xs)) == cy[0] * dot(
            scaled(w, xs, j),
            evals(cz, xs),
        ) + dot(scaled(w, xs, (j + 1) as nat), prod_evals(cy.drop_first(), cz, xs)),
    decreases w.len(),
{
    if w.len() == 0 {
        assert(dot(scaled(w, xs, j), evals(cz, xs)) == 0);
    } else {
        let wt = w.drop_first();
        let xt = xs.drop_first();
        let cyt = cy.drop_first();
        assert(scaled(w, xs, j).drop_first() =~= scaled(wt, xt, j));
        assert(scaled(w, xs, (j + 1) as nat).drop_first() =~= scaled(wt, xt, (j + 1) as nat));
        assert(prod_evals(cy, cz, xs).drop_first() =~= prod_evals(cy, cz, xt));
        assert(prod_evals(cyt, cz, xs).drop_first() =~= prod_evals(cyt, cz, xt));
        assert(evals(cz, xs).drop_first() =~= evals(cz, xt));
        lemma_dot_eval2_step(cy, cz, wt, xt, j);
        let x0 = xs[0];
        let w0 = w[0];
        let c0 = cy[0] as int;
        let ey = poly_eval_int(cyt, x0);
        let ez = poly_eval_int(cz, x0);
        let pj = pow(x0, j);
        let pj1 = pow(x0, (j + 1) as nat);
        let dz = dot(scaled(wt, xt, j), evals(cz, xt));
        let d2 = dot(scaled(wt, xt, (j + 1) as nat), prod_evals(cyt, cz, xt));
        lemma_pow_adds(x0, j, 1);
        lemma_pow1(x0);
        assert(pj1 == pj * x0);
        assert(scaled(w, xs, j)[0] == w0 * pj);
        assert(prod_evals(cy, cz, xs)[0] == (c0 + x0 * ey) * ez);
        assert(dot(scaled(w, xs, j), prod_evals(cy, cz, xs)) == (w0 * pj) * ((c0 + x0 * ey) * ez)
            + (c0 * dz + d2));
        assert(evals(cz, xs)[0] == ez);
        assert(dot(scaled(w, xs, j), evals(cz, xs)) == (w0 * pj) * ez + dz);
        assert(scaled(w, xs, (j + 1) as nat)[0] == w0 * pj1);
        assert(prod_evals(cyt, cz, xs)[0] == ey * ez);
        assert(dot(scaled(w, xs, (j + 1) as nat), prod_evals(cyt, cz, xs)) == (w0 * pj1) * (ey
            * ez) + d2);
        let a = w0 * pj;
        let m = ey * ez;
        assert((c0 + x0 * ey) * ez == c0 * ez + x0 * m) by (nonlinear_arith)
            requires
                m == ey * ez,
        ;
        assert(a * (c0 * ez + x0 * m) == c0 * (a * ez) + (a * x0) * m) by (nonlinear_arith);
        assert(a * ((c0 + x0 * ey) * ez) == c0 * (a * ez) + (a * x0) * (ey * ez));
        assert((w0 * (pj * x0)) * (ey * ez) == (a * x0) * (ey * ez)) by (nonlinear_arith)
            requires
                a == w0 * pj,
        ;
        assert((w0 * pj1) * (ey * ez) == (w0 * (pj * x0)) * (ey * ez));
        assert(c0 * (a * ez + dz) == c0 * (a * ez) + c0 * dz) by (nonlinear_arith);
    }
}

/// The weighted evaluation products of two polynomials equal the
/// coefficient-by-coefficient combination through `combo`.
proof fn lemma_dot_eval2(cy: Seq<u64>, cz: Seq<u64>, w: Seq<int>, xs: Seq<int>, j: nat)
    requires
        w.len() == xs.len(),
    ensures
        dot(scaled(w, xs, j), prod_evals(cy, cz, xs)) == combo2(cy, cz, w, xs, j),
    decreases cy.len(),
{
    if cy.len() == 0 {
        let e = prod_evals(cy, cz, xs);
        assert forall|i: int| 0 <= i < e.len() implies e[i] == 0 by {}
        lemma_dot_zero_right(scaled(w, xs, j), e);
    } else {
        lemma_dot_eval2_step(cy, cz, w, xs, j);
        lemma_dot_eval(cz, w, xs, j);
        lemma_dot_eval2(cy.drop_first(), cz, w, xs, (j + 1) as nat);
    }
}

/// When every involved power sum vanishes modulo `p`, so does the
/// two-polynomial combination.
proof fn lemma_combo2_zero(cy: Seq<u64>, cz: Seq<u64>, w: Seq<int>, xs: Seq<int>, j: nat, p: int)
    requires
        0 < p,
        forall|k: nat| j <= k < j + cy.len() + cz.len() - 1 ==> pow_sum(w, xs, k) % p == 0,
    ensures
        combo2(cy, cz, w, xs, j) % p == 0,
    decreases cy.len(),
{
    if cy.len() == 0 {
        lemma_small_mod(0, p as nat);
    } else {
        lemma_combo2_zero(cy.drop_first(), cz, w, xs, (j + 1) as nat, p);
        lemma_combo_zero(cz, w, xs, j, p);
        let s0 = cy[0] * combo(cz, w, xs, j);
        let rest = combo2(cy.drop_first(), cz, w, xs, (j + 1) as nat);
        lemma_mul_mod_noop_right(cy[0] as int, combo(cz, w, xs, j), p);
        assert(s0 % p == (cy[0] as int * 0) % p);
        lemma_small_mod(0, p as nat);
        lemma_add_mod_noop(s0, rest, p);
    }
}

/// The two-polynomial combination with interpolating weights reduces to
/// the product of the constant terms.
proof fn lemma_combo2_main(cy: Seq<u64>, cz: Seq<u64>, w: Seq<int>, xs: Seq<int>, p: int)
    requires
        0 < p,
        cy.len() >= 1,
        cz.len() >= 1,
        pow_sum(w, xs, 0) % p == 1,
        forall|k: nat| 1 <= k < cy.len() + cz.len() - 1 ==> pow_sum(w, xs, k) % p == 0,
    ensures
        combo2(cy, cz, w, xs, 0) % p == (cy[0] as int * cz[0] as int) % p,
{
    let s0 = cy[0] * combo(cz, w, xs, 0);
    let rest = combo2(cy.drop_first(), cz, w, xs, 1);
    lemma_combo_main(cz, w, xs, p);
    lemma_combo2_zero(cy.drop_first(), cz, w, xs, 1, p);
    lemma_mul_mod_noop_right(cy[0] as int, combo(cz, w, xs, 0), p);
    lemma_mod_twice(cz[0] as int, p);
    lemma_mul_mod_noop_right(cy[0] as int, cz[0] as int, p);
    assert(s0 % p == (cy[0] as int * cz[0] as int) % p);
    lemma_add_mod_noop(s0, rest, p);
    lemma_small_mod(0, p as nat);
    lemma_mod_twice(s0, p);
}

/// Multiplicative correctness of Shamir sharing: the parties' pointwise
/// share products are evaluations of the product polynomial, whose
/// degree is doubled; with weights that interpolate up to that doubled
/// degree, their weighted sum reconstructs the product of the secrets.
pub proof fn lemma_shamir_mul_reconstruct(
    cy: Seq<u64>,
    cz: Seq<u64>,
    w: Seq<u64>,
    xs: Seq<u64>,
    ds: Seq<u64>,
    deg: nat,
    p: u64,
)
    requires
        1 < p,
        1 <= cy.len(),
        1 <= cz.len(),
        cy.len() + cz.len() <= deg + 2,
        w.len() == xs.len() && ds.len() == xs.len(),
        lagrange_ok(w, xs, deg, p),
        forall|i: int|
            0 <= i < ds.len() ==> ds[i] == ((poly_eval_int(cy, xs[i] as int) % (p as int)) * (
            poly_eval_int(cz, xs[i] as int) % (p as int))) % (p as int),
        cy[0] < p,
        cz[0] < p,
    ensures
        dot(to_ints(w), to_ints(ds)) % (p as int) == (cy[0] * cz[0]) % (p as int),
{
    let pp = p as int;
    let wi = to_ints(w);
    let xi = to_ints(xs);
    let di = to_ints(ds);
    let ev = prod_evals(cy, cz, xi);
    assert(di.len() == ev.len());
    assert forall|i: int| 0 <= i < di.len() implies (di[i] % pp) == (ev[i] % pp) by {
        let ey = poly_eval_int(cy, xs[i] as int);
        let ez = poly_eval_int(cz, xs[i] as int);
        vstd::arithmetic::div_mod::lemma_mul_mod_noop(ey, ez, pp);
        vstd::arithmetic::div_mod::lemma_mod_bound((ey % pp) * (ez % pp), pp);
        lemma_small_mod(ds[i] as nat, p as nat);
        lemma_mod_twice((ey % pp) * (ez % pp), pp);
    }
    lemma_dot_mod_congruent(wi, di, ev, pp);
    lemma_scaled_zero(wi, xi);
    lemma_dot_eval2(cy, cz, wi, xi, 0);
    lemma_combo2_main(cy, cz, wi, xi, pp);
}

/// Additive homomorphism of reconstruction: the weighted sum of the
/// pointwise share sums is the sum of the weighted sums — opening the
/// local sum of two sharings yields the sum of the secrets.
pub proof fn lemma_shamir_add_homomorphic(w: Seq<u64>, ys: Seq<u64>, zs: Seq<u64>, ss: Seq<u64>, p: u64)
    requires
        1 < p,
        ys.len() == w.len() && zs.len() == w.len() && ss.len() == w.len(),
        forall|i: int| 0 <= i < ss.len() ==> ss[i] == (ys[i] + zs[i]) % (p as int),
    ensures
        dot(to_ints(w), to_ints(ss)) % (p as int) == (dot(to_ints(w), to_ints(ys)) + dot(
            to_ints(w),
            to_ints(zs),
        )) % (p as int),
{
    let pp = p as int;
    lemma_dot_add(to_ints(w), to_ints(ys), to_ints(zs), to_ints(ss), pp);
}

/// A dot product distributes over a pointwise sum reduced modulo `p`.
proof fn lemma_dot_add(w: Seq<int>, ys: Seq<int>, zs: Seq<int>, ss: Seq<int>, p: int)
    requires
        0 < p,
        ys.len() == w.len() && zs.len() == w.len() && ss.len() == w.len(),
        forall|i: int| 0 <= i < ss.len() ==> ss[i] == (ys[i] + zs[i]) % p,
    ensures
        dot(w, ss) % p == (dot(w, ys) + dot(w, zs)) % p,
    decreases w.len(),
{
    if w.len() == 0 {
    } else {
        let wt = w.drop_first();
        lemma_dot_add(wt, ys.drop_first(), zs.drop_first(), ss.drop_first(), p);
        let w0 = w[0];
        let y0 = ys[0];
        let z0 = zs[0];
        let s0 = ss[0];
        let dt = dot(wt, ss.drop_first());
        let dy = dot(wt, ys.drop_first());
        let dz = dot(wt, zs.drop_first());
        // The head terms agree modulo p.
        assert((w0 * s0) % p == (w0 * (y0 + z0)) % p) by {
            lemma_mul_mod_noop_right(w0, y0 + z0, p);
        }
        lemma_add_mod_noop(w0 * s0, dt, p);
        lemma_add_mod_noop(w0 * (y0 + z0), dy + dz, p);
        assert((w0 * s0 % p + dt % p) % p == (w0 * (y0 + z0) % p + (dy + dz) % p) % p);
        assert(w0 * (y0 + z0) + (dy + dz) == (w0 * y0 + dy) + (w0 * z0 + dz)) by (nonlinear_arith);
    }
}

/// Appending a weighted point extends the power sum by one summand.
proof fn lemma_pow_sum_push(w: Seq<int>, xs: Seq<int>, wv: int, xv: int, k: nat)
    requires
        w.len() == xs.len(),
    ensures
        pow_sum(w.push(wv), xs.push(xv), k) == pow_sum(w, xs, k) + wv * pow(xv, k),
    decreases w.len(),
{
    if w.len() == 0 {
        assert(w.push(wv)[0] == wv);
        assert(xs.push(xv)[0] == xv);
        assert(w.push(wv).drop_first() =~= Seq::<int>::empty());
        assert(xs.push(xv).drop_first() =~= Seq::<int>::empty());
        assert(pow_sum(Seq::<int>::empty(), Seq::<int>::empty(), k) == 0);
    } else {
        assert(w.push(wv)[0] == w[0]);
        assert(xs.push(xv)[0] == xs[0]);
        assert(w.push(wv).drop_first() =~= w.drop_first().push(wv));
        assert(xs.push(xv).drop_first() =~= xs.drop_first().push(xv));
        lemma_pow_sum_push(w.drop_first(), xs.drop_first(), wv, xv, k);
        assert(pow_sum(w.push(wv), xs.push(xv), k) == w[0] * pow(xs[0], k) + pow_sum(
            w.drop_first().push(wv),
            xs.drop_first().push(xv),
            k,
        ));
    }
}

/// Appending a weighted value extends the dot product by one summand.
pub proof fn lemma_dot_push(w: Seq<int>, y: Seq<int>, wv: int, yv: int)
    requires
        w.len() == y.len(),
    ensures
        dot(w.push(wv), y.push(yv)) == dot(w, y) + wv * yv,
    decreases w.len(),
{
    if w.len() == 0 {
        assert(w.push(wv)[0] == wv);
        assert(y.push(yv)[0] == yv);
        assert(w.push(wv).drop_first() =~= Seq::<int>::empty());
        assert(y.push(yv).drop_first() =~= Seq::<int>::empty());
        assert(dot(Seq::<int>::empty(), Seq::<int>::empty()) == 0);
    } else {
        assert(w.push(wv)[0] == w[0]);
        assert(y.push(yv)[0] == y[0]);
        assert(w.push(wv).drop_first() =~= w.drop_first().push(wv));
        assert(y.push(yv).drop_first() =~= y.drop_first().push(yv));
        lemma_dot_push(w.drop_first(), y.drop_first(), wv, yv);
        assert(dot(w.push(wv), y.push(yv)) == w[0] * y[0] + dot(
            w.drop_first().push(wv),
            y.drop_first().push(yv),
        ));
    }
}

/// One party's Shamir share: the evaluation of the sharing polynomial at
/// the party's public point.
#[derive(Clone, Copy, Debug, PartialEq, Eq, Structural)]
pub struct ShamirPrimeFieldShare {
    /// The polynomial evaluation this party holds.
    pub a: u64,
}

impl ShamirPrimeFieldShare {
    /// Wraps an evaluation as a share.
    pub fn new(a: u64) -> (r: Self)
        ensures
            r.a == a,
    {
        Self { a }
    }

    /// Local share addition; the secrets add.
    pub fn add(self, rhs: Self, p: u64) -> (r: Self)
        requires
            1 < p,
            in_field(self.a, p),
            in_field(rhs.a, p),
        ensures
            r.a == (self.a + rhs.a) % (p as int),
            in_field(r.a, p),
    {
        Self { a: add_mod(self.a, rhs.a, p) }
    }

    /// Local share subtraction; the secrets subtract.
    pub fn sub(self, rhs: Self, p: u64) -> (r: Self)
        requires
            1 < p,
            in_field(self.a, p),
            in_field(rhs.a, p),
        ensures
            r.a == (self.a - rhs.a) % (p as int),
            in_field(r.a, p),
    {
        Self { a: sub_mod(self.a, rhs.a, p) }
    }

    /// Adding a public constant, a local operation: the constant shifts
    /// the underlying polynomial's constant term.
    pub fn add_public(self, c: u64, p: u64) -> (r: Self)
        requires
            1 < p,
            in_field(self.a, p),
            in_field(c, p),
        ensures
            r.a == (self.a + c) % (p as int),
            in_field(r.a, p),
    {
        Self { a: add_mod(self.a, c, p) }
    }

    /// Multiplying by a public constant, a local operation.
    pub fn mul_public(self, c: u64, p: u64) -> (r: Self)
        requires
            1 < p,
            in_field(self.a, p),
            in_field(c, p),
        ensures
            r.a == (self.a * c) % (p as int),
            in_field(r.a, p),
    {
        Self { a: mul_mod(self.a, c, p) }
    }

    /// The local part of a multiplication: the pointwise product of the
    /// evaluations.  It doubles the degree of the shared polynomial, so a
    /// degree reduction must follow before further multiplications.
    pub fn mul(self, rhs: Self, p: u64) -> (r: Self)
        requires
            1 < p,
            in_field(self.a, p),
            in_field(rhs.a, p),
        ensures
            r.a == (self.a * rhs.a) % (p as int),
            in_field(r.a, p),
    {
        Self { a: mul_mod(self.a, rhs.a, p) }
    }
}

/// Promotes public values to trivial Shamir shares: the constant
/// polynomial gives every party the value itself.
pub fn promote_to_trivial_shares(publics: &Vec<u64>) -> (r: Vec<ShamirPrimeFieldShare>)
    ensures
        r.len() == publics.len(),
        forall|i: int| 0 <= i < r.len() ==> r[i].a == publics[i],
{
    let mut out: Vec<ShamirPrimeFieldShare> = Vec::new();
    let mut i: usize = 0;
    while i < publics.len()
        invariant
            i <= publics.len(),
            out.len() == i,
            forall|j: int| 0 <= j < i ==> out[j].a == publics[j],
        decreases publics.len() - i,
    {
        out.push(ShamirPrimeFieldShare::new(publics[i]));
        i += 1;
    }
    out
}

/// Evaluates the polynomial `c` (constant term first, coefficients
/// reduced) at `x`, modulo `p`.
pub fn eval_poly_mod(c: &Vec<u64>, x: u64, p: u64) -> (r: u64)
    requires
        1 < p,
        in_field(x, p),
        forall|i: int| 0 <= i < c.len() ==> in_field(#[trigger] c[i], p),
    ensures
        r == poly_eval_int(c@, x as int) % (p as int),
        in_field(r, p),
{
    let mut acc: u64 = 0;
    let mut j: usize = c.len();
    proof {
        lemma_small_mod(0, p as nat);
        assert(c@.skip(c.len() as int).len() == 0);
    }
    while j > 0
        invariant
            1 < p,
            j <= c.len(),
            in_field(x, p),
            forall|i: int| 0 <= i < c.len() ==> in_field(#[trigger] c[i], p),
            in_field(acc, p),
            acc == poly_eval_int(c@.skip(j as int), x as int) % (p as int),
        decreases j,
    {
        j -= 1;
        let t = mul_mod(x, acc, p);
        let next = add_mod(c[j], t, p);
        proof {
            let pp = p as int;
            let tail = c@.skip(j as int + 1);
            let cur = c@.skip(j as int);
            assert(cur.drop_first() =~= tail);
            assert(cur[0] == c@[j as int]);
            let e = poly_eval_int(tail, x as int);
            lemma_mul_mod_noop_right(x as int, e, pp);
            assert(t == (x as int * e) % pp);
            lemma_add_mod_noop(c[j as int] as int, x as int * e, pp);
            lemma_small_mod(c[j as int] as nat, p as nat);
            lemma_mod_twice(x as int * e, pp);
        }
        acc = next;
    }
    proof {
        assert(c@.skip(0) =~= c@);
    }
    acc
}

/// Produces the `n` Shamir shares of the polynomial `c`: the evaluations
/// at the points `1 ..= n`.  The polynomial's constant term is the
/// secret; its remaining coefficients are the dealer's randomness.
pub fn share_shamir(c: &Vec<u64>, n: usize, p: u64) -> (r: Vec<u64>)
    requires
        1 < p,
        n < p,
        c.len() >= 1,
        forall|i: int| 0 <= i < c.len() ==> in_field(#[trigger] c[i], p),
    ensures
        r.len() == n,
        forall|i: int|
            0 <= i < n ==> r[i] == poly_eval_int(c@, i + 1) % (p as int) && in_field(
                #[trigger] r[i],
                p,
            ),
{
    let mut out: Vec<u64> = Vec::new();
    let mut i: usize = 0;
    while i < n
        invariant
            1 < p,
            n < p,
            i <= n,
            c.len() >= 1,
            forall|k: int| 0 <= k < c.len() ==> in_field(#[trigger] c[k], p),
            out.len() == i,
            forall|k: int|
                0 <= k < i ==> out[k] == poly_eval_int(c@, k + 1) % (p as int) && in_field(
                    #[trigger] out[k],
                    p,
                ),
        decreases n - i,
    {
        let x: u64 = (i as u64) + 1;
        let y = eval_poly_mod(c, x, p);
        out.push(y);
        i += 1;
    }
    out
}

/// Computes the weighted sum of the `k`-th powers of the points,
/// modulo `p`.
pub fn pow_sum_mod(w: &Vec<u64>, xs: &Vec<u64>, k: u64, p: u64) -> (r: u64)
    requires
        1 < p,
        w.len() == xs.len(),
        forall|i: int| 0 <= i < w.len() ==> in_field(#[trigger] w[i], p),
        forall|i: int| 0 <= i < xs.len() ==> in_field(#[trigger] xs[i], p),
    ensures
        r == pow_sum(to_ints(w@), to_ints(xs@), k as nat) % (p as int),
        in_field(r, p),
{
    let mut acc: u64 = 0;
    let mut i: usize = 0;
    proof {
        lemma_small_mod(0, p as nat);
        assert(to_ints(w@.take(0)) =~= Seq::<int>::empty());
        assert(to_ints(xs@.take(0)) =~= Seq::<int>::empty());
    }
    while i < w.len()
        invariant
            1 < p,
            i <= w.len(),
            w.len() == xs.len(),
            forall|j: int| 0 <= j < w.len() ==> in_field(#[trigger] w[j], p),
            forall|j: int| 0 <= j < xs.len() ==> in_field(#[trigger] xs[j], p),
            in_field(acc, p),
            acc == pow_sum(to_ints(w@.take(i as int)), to_ints(xs@.take(i as int)), k as nat) % (
            p as int),
        decreases w.len() - i,
    {
        let pm = pow_mod(xs[i], k, p);
        let term = mul_mod(w[i], pm, p);
        let next = add_mod(acc, term, p);
        proof {
            let pp = p as int;
            let wi = to_ints(w@.take(i as int));
            let xi = to_ints(xs@.take(i as int));
            let ps = pow_sum(wi, xi, k as nat);
            assert(to_ints(w@.take(i + 1)) =~= wi.push(w[i as int] as int));
            assert(to_ints(xs@.take(i + 1)) =~= xi.push(xs[i as int] as int));
            lemma_pow_sum_push(wi, xi, w[i as int] as int, xs[i as int] as int, k as nat);
            let pw = pow(xs[i as int] as int, k as nat);
            lemma_mul_mod_noop_right(w[i as int] as int, pw, pp);
            assert(term == (w[i as int] as int * pw) % pp);
            lemma_add_mod_noop(ps, w[i as int] as int * pw, pp);
            lemma_mod_twice(ps, pp);
            lemma_mod_twice(w[i as int] as int * pw, pp);
        }
        acc = next;
        i += 1;
    }
    proof {
        assert(w@.take(w@.len() as int) =~= w@);
        assert(xs@.take(xs@.len() as int) =~= xs@);
    }
    acc
}

/// Checks that the weights satisfy every interpolation identity up to
/// degree `deg`: the weighted power sums must be one at power zero and
/// zero at every other power.
pub fn check_lagrange(w: &Vec<u64>, xs: &Vec<u64>, deg: u64, p: u64) -> (r: bool)
    requires
        1 < p,
        deg < 0xffff_ffff_ffff_ffff,
        forall|i: int| 0 <= i < w.len() ==> in_field(#[trigger] w[i], p),
        forall|i: int| 0 <= i < xs.len() ==> in_field(#[trigger] xs[i], p),
    ensures
        r == lagrange_ok(w@, xs@, deg as nat, p),
{
    if w.len() != xs.len() {
        return false;
    }
    let mut k: u64 = 0;
    while k <= deg
        invariant
            1 < p,
            deg < 0xffff_ffff_ffff_ffff,
            k <= deg + 1,
            w.len() == xs.len(),
            forall|i: int| 0 <= i < w.len() ==> in_field(#[trigger] w[i], p),
            forall|i: int| 0 <= i < xs.len() ==> in_field(#[trigger] xs[i], p),
            forall|kk: nat|
                kk < k ==> pow_sum(to_ints(w@), to_ints(xs@), kk) % (p as int) == if kk == 0 {
                    1int
                } else {
                    0int
                },
        decreases deg + 1 - k,
    {
        let s = pow_sum_mod(w, xs, k, p);
        let expected: u64 = if k == 0 {
            1
        } else {
            0
        };
        if s != expected {
            proof {
                assert(pow_sum(to_ints(w@), to_ints(xs@), k as nat) % (p as int) != if k == 0 {
                    1int
                } else {
                    0int
                });
            }
            return false;
        }
        k += 1;
    }
    true
}

/// The running product of the points other than the `i`-th, over the
/// first `j` points: the numerator of the `i`-th interpolation weight.
pub open spec fn weight_numerator(xs: Seq<u64>, i: int, j: int, p: int) -> int
    decreases j,
{
    if j <= 0 {
        1
    } else if j - 1 == i {
        weight_numerator(xs, i, j - 1, p)
    } else {
        (weight_numerator(xs, i, j - 1, p) * xs[j - 1]) % p
    }
}

/// The running product of the differences to the `i`-th point, over the
/// first `j` points: the denominator of the `i`-th interpolation weight.
pub open spec fn weight_denominator(xs: Seq<u64>, i: int, j: int, p: int) -> int
    decreases j,
{
    if j <= 0 {
        1
    } else if j - 1 == i {
        weight_denominator(xs, i, j - 1, p)
    } else {
        (weight_denominator(xs, i, j - 1, p) * ((xs[j - 1] - xs[i]) % p)) % p
    }
}

/// Every weight denominator has a checked inverse, so the candidate
/// weights can be formed at all.  For pairwise distinct points and a
/// prime modulus this always holds.
pub open spec fn candidates_exist(xs: Seq<u64>, p: u64) -> bool {
    forall|i: int|
        0 <= i < xs.len() ==> has_inverse(
            (#[trigger] weight_denominator(xs, i, xs.len() as int, p as int)) as u64,
            p,
        )
}

/// The candidate interpolation weights by the product formula: each
/// numerator times the checked inverse of its denominator.
pub open spec fn candidate_weights(xs: Seq<u64>, p: u64) -> Seq<u64> {
    Seq::new(
        xs.len(),
        |i: int|
            ((weight_numerator(xs, i, xs.len() as int, p as int) * inv_candidate(
                weight_denominator(xs, i, xs.len() as int, p as int) as u64,
                p,
            )) % (p as int)) as u64,
    )
}

/// Computes the candidate interpolation-at-zero weights for the points,
/// by the product formula; fails exactly when some weight denominator
/// has no checked inverse.
fn lagrange_candidates(xs: &Vec<u64>, p: u64) -> (r: Option<Vec<u64>>)
    requires
        1 < p,
        forall|i: int| 0 <= i < xs.len() ==> in_field(#[trigger] xs[i], p),
    ensures
        r.is_some() <==> candidates_exist(xs@, p),
        r.is_some() ==> r.unwrap()@ == candidate_weights(xs@, p),
        r.is_some() ==> r.unwrap().len() == xs.len() && forall|i: int|
            0 <= i < xs.len() ==> in_field(#[trigger] r.unwrap()[i], p),
{
    let n = xs.len();
    let mut w: Vec<u64> = Vec::new();
    let mut i: usize = 0;
    while i < n
        invariant
            1 < p,
            i <= n,
            n == xs.len(),
            forall|j: int| 0 <= j < xs.len() ==> in_field(#[trigger] xs[j], p),
            w.len() == i,
            forall|j: int| 0 <= j < i ==> in_field(#[trigger] w[j], p),
            forall|j: int|
                0 <= j < i ==> has_inverse(
                    (#[trigger] weight_denominator(xs@, j, n as int, p as int)) as u64,
                    p,
                ),
            forall|j: int| 0 <= j < i ==> #[trigger] w[j] == candidate_weights(xs@, p)[j],
        decreases n - i,
    {
        let mut num: u64 = 1;
        let mut den: u64 = 1;
        let mut j: usize = 0;
        while j < n
            invariant
                1 < p,
                j <= n,
                i < n,
                n == xs.len(),
                forall|jj: int| 0 <= jj < xs.len() ==> in_field(#[trigger] xs[jj], p),
                in_field(num, p),
                in_field(den, p),
                num == weight_numerator(xs@, i as int, j as int, p as int),
                den == weight_denominator(xs@, i as int, j as int, p as int),
            decreases n - j,
        {
            if j != i {
                num = mul_mod(num, xs[j], p);
                den = mul_mod(den, sub_mod(xs[j], xs[i], p), p);
            }
            j += 1;
        }
        let dinv = match inv_mod(den, p) {
            Some(d) => d,
            None => {
                proof {
                    assert(!has_inverse(
                        weight_denominator(xs@, i as int, n as int, p as int) as u64,
                        p,
                    ));
                    assert(!candidates_exist(xs@, p));
                }
                return None;
            },
        };
        w.push(mul_mod(num, dinv, p));
        proof {
            assert(w[i as int] == candidate_weights(xs@, p)[i as int]);
        }
        i += 1;
    }
    proof {
        assert(w@ =~= candidate_weights(xs@, p));
    }
    Some(w)
}

/// Computes interpolation-at-zero weights for the points and verifies the
/// interpolation identities up to degree `deg` on them: the result is the
/// candidate weights exactly when they can be formed and pass the check,
/// so everything reconstructed with them is covered by the reconstruction
/// theorem.  For pairwise distinct nonzero points and a prime modulus
/// both always hold.
pub fn interpolation_weights(xs: &Vec<u64>, deg: u64, p: u64) -> (r: Option<Vec<u64>>)
    requires
        1 < p,
        deg < 0xffff_ffff_ffff_ffff,
        forall|i: int| 0 <= i < xs.len() ==> in_field(#[trigger] xs[i], p),
    ensures
        r.is_some() <==> candidates_exist(xs@, p) && lagrange_ok(
            candidate_weights(xs@, p),
            xs@,
            deg as nat,
            p,
        ),
        r.is_some() ==> {
            &&& r.unwrap()@ == candidate_weights(xs@, p)
            &&& r.unwrap().len() == xs.len()
            &&& forall|i: int| 0 <= i < xs.len() ==> in_field(#[trigger] r.unwrap()[i], p)
            &&& lagrange_ok(r.unwrap()@, xs@, deg as nat, p)
        },
{
    match lagrange_candidates(xs, p) {
        Some(w) => {
            if check_lagrange(&w, xs, deg, p) {
                Some(w)
            } else {
                None
            }
        },
        None => None,
    }
}

/// Reconstructs at zero: the weighted sum of the gathered share values.
pub fn open_with_lagrange(ys: &Vec<u64>, w: &Vec<u64>, p: u64) -> (r: u64)
    requires
        1 < p,
        w.len() == ys.len(),
        forall|i: int| 0 <= i < w.len() ==> in_field(#[trigger] w[i], p),
        forall|i: int| 0 <= i < ys.len() ==> in_field(#[trigger] ys[i], p),
    ensures
        r == dot(to_ints(w@), to_ints(ys@)) % (p as int),
        in_field(r, p),
{
    let mut acc: u64 = 0;
    let mut i: usize = 0;
    proof {
        lemma_small_mod(0, p as nat);
        assert(to_ints(w@.take(0)) =~= Seq::<int>::empty());
        assert(to_ints(ys@.take(0)) =~= Seq::<int>::empty());
    }
    while i < w.len()
        invariant
            1 < p,
            i <= w.len(),
            w.len() == ys.len(),
            forall|j: int| 0 <= j < w.len() ==> in_field(#[trigger] w[j], p),
            forall|j: int| 0 <= j < ys.len() ==> in_field(#[trigger] ys[j], p),
            in_field(acc, p),
            acc == dot(to_ints(w@.take(i as int)), to_ints(ys@.take(i as int))) % (p as int),
        decreases w.len() - i,
    {
        let term = mul_mod(w[i], ys[i], p);
        let next = add_mod(acc, term, p);
        proof {
            let pp = p as int;
            let wi = to_ints(w@.take(i as int));
            let yi = to_ints(ys@.take(i as int));
            let d = dot(wi, yi);
            assert(to_ints(w@.take(i + 1)) =~= wi.push(w[i as int] as int));
            assert(to_ints(ys@.take(i + 1)) =~= yi.push(ys[i as int] as int));
            lemma_dot_push(wi, yi, w[i as int] as int, ys[i as int] as int);
            lemma_add_mod_noop(d, w[i as int] as int * ys[i as int] as int, pp);
            lemma_mod_twice(d, pp);
            lemma_mod_twice(w[i as int] as int * ys[i as int] as int, pp);
        }
        acc = next;
        i += 1;
    }
    proof {
        assert(w@.take(w@.len() as int) =~= w@);
        assert(ys@.take(ys@.len() as int) =~= ys@);
    }
    acc
}

/// Gathers a quorum of share values and reconstructs the secret at
/// zero: fails as a precondition error when fewer than `deg + 1`
/// evaluations are offered — there is no partial reconstruction — and
/// as a data error when no checked interpolation weights exist for the
/// points, which for distinct nonzero points and a prime modulus never
/// happens.
pub fn open_shamir(ys: &Vec<u64>, xs: &Vec<u64>, deg: u64, p: u64) -> (r: Result<
    u64,
    crate::errors::MpcError,
>)
    requires
        1 < p,
        deg < 0xffff_ffff_ffff_ffff,
        ys.len() == xs.len(),
        forall|i: int| 0 <= i < ys.len() ==> in_field(#[trigger] ys[i], p),
        forall|i: int| 0 <= i < xs.len() ==> in_field(#[trigger] xs[i], p),
    ensures
        ys.len() < deg + 1 ==> r == Err::<u64, crate::errors::MpcError>(
            crate::errors::MpcError::InvalidInput,
        ),
        ys.len() >= deg + 1 ==> (r is Ok <==> candidates_exist(xs@, p) && lagrange_ok(
            candidate_weights(xs@, p),
            xs@,
            deg as nat,
            p,
        )),
        r is Err ==> ((r->Err_0 == crate::errors::MpcError::InvalidData) <==> ys.len() >= deg
            + 1),
        r is Ok ==> r->Ok_0 == dot(to_ints(candidate_weights(xs@, p)), to_ints(ys@)) % (p as int)
            && lagrange_ok(candidate_weights(xs@, p), xs@, deg as nat, p),
{
    if (ys.len() as u64) < deg + 1 {
        return Err(crate::errors::MpcError::InvalidInput);
    }
    let w = match interpolation_weights(xs, deg, p) {
        Some(w) => w,
        None => {
            return Err(crate::errors::MpcError::InvalidData);
        },
    };
    let v = open_with_lagrange(ys, &w, p);
    Ok(v)
}

/// The column of the `k`-th coefficients of a family of polynomials.
pub open spec fn coeff_column(cs: Seq<Seq<u64>>, k: int) -> Seq<int> {
    Seq::new(cs.len(), |j: int| cs[j][k] as int)
}

/// The evaluations of a family of polynomials at one point.
pub open spec fn eval_column(cs: Seq<Seq<u64>>, x: int) -> Seq<int> {
    Seq::new(cs.len(), |j: int| poly_eval_int(cs[j], x))
}

/// A dot product distributes over a pointwise affine combination.
proof fn lemma_dot_affine(w: Seq<int>, a: Seq<int>, b: Seq<int>, x: int)
    requires
        a.len() == w.len(),
        b.len() == w.len(),
    ensures
        dot(w, Seq::new(w.len(), |j: int| a[j] + x * b[j])) == dot(w, a) + x * dot(w, b),
    decreases w.len(),
{
    let s = Seq::new(w.len(), |j: int| a[j] + x * b[j]);
    if w.len() == 0 {
        assert(x * dot(w, b) == 0) by (nonlinear_arith)
            requires
                dot(w, b) == 0,
        ;
    } else {
        let wt = w.drop_first();
        let at = a.drop_first();
        let bt = b.drop_first();
        lemma_dot_affine(wt, at, bt, x);
        assert(s.drop_first() =~= Seq::new(wt.len(), |j: int| at[j] + x * bt[j]));
        assert(s[0] == a[0] + x * b[0]);
        let w0 = w[0];
        let dt = dot(wt, Seq::new(wt.len(), |j: int| at[j] + x * bt[j]));
        assert(dot(w, s) == w0 * (a[0] + x * b[0]) + dt);
        assert(w0 * (a[0] + x * b[0]) == w0 * a[0] + x * (w0 * b[0])) by (nonlinear_arith);
        assert(x * (w0 * b[0] + dot(wt, bt)) == x * (w0 * b[0]) + x * dot(wt, bt))
            by (nonlinear_arith);
    }
}

/// Evaluating the weighted combination of a family of polynomials is
/// the same as weighting their evaluations: the combined polynomial's
/// reduced coefficients stand for the columns of the family.
proof fn lemma_eval_combined(fr: Seq<u64>, cs: Seq<Seq<u64>>, w: Seq<u64>, x: int, p: u64)
    requires
        1 < p,
        w.len() == cs.len(),
        forall|j: int| 0 <= j < cs.len() ==> (#[trigger] cs[j]).len() == fr.len(),
        forall|k: int|
            0 <= k < fr.len() ==> fr[k] == dot(to_ints(w), coeff_column(cs, k)) % (p as int),
    ensures
        poly_eval_int(fr, x) % (p as int) == dot(to_ints(w), eval_column(cs, x)) % (p as int),
    decreases fr.len(),
{
    let pp = p as int;
    let wi = to_ints(w);
    if fr.len() == 0 {
        assert(eval_column(cs, x) =~= Seq::new(cs.len(), |j: int| 0int));
        assert forall|j: int| 0 <= j < cs.len() implies eval_column(cs, x)[j] == 0 by {}
        lemma_dot_zero_right(wi, eval_column(cs, x));
    } else {
        let frt = fr.drop_first();
        let cst = Seq::new(cs.len(), |j: int| cs[j].drop_first());
        assert forall|k: int| 0 <= k < frt.len() implies frt[k] == dot(
            wi,
            coeff_column(cst, k),
        ) % pp by {
            assert(coeff_column(cst, k) =~= coeff_column(cs, k + 1));
            assert(fr[k + 1] == dot(wi, coeff_column(cs, k + 1)) % pp);
        }
        lemma_eval_combined(frt, cst, w, x, p);
        // Each row's evaluation splits into its head and shifted tail.
        let a = coeff_column(cs, 0);
        let b = eval_column(cst, x);
        assert(eval_column(cs, x) =~= Seq::new(w.len(), |j: int| a[j] + x * b[j]));
        lemma_dot_affine(wi, a, b, x);
        let e = poly_eval_int(frt, x);
        let d2 = dot(wi, b);
        // Fold the reductions of the head coefficient and the tail.
        assert((fr[0] + x * e) % pp == (dot(wi, a) + x * d2) % pp) by {
            let da = dot(wi, a);
            assert(e % pp == d2 % pp);
            lemma_add_mod_noop(fr[0] as int, x * e, pp);
            lemma_mod_twice(da, pp);
            assert((fr[0] as int) % pp == da % pp);
            lemma_mul_mod_noop_right(x, e, pp);
            lemma_mul_mod_noop_right(x, d2, pp);
            assert((x * e) % pp == (x * d2) % pp);
            lemma_add_mod_noop(da, x * d2, pp);
            lemma_mod_twice(x * d2, pp);
        }
    }
}

/// The degree-reduction step after a multiplication: each party has
/// reshared its doubled-degree evaluation as a fresh degree-`t`
/// polynomial, and the quorum's reshares are combined with the
/// doubled-degree interpolation weights.  The result is a degree-`t`
/// sharing — the returned evaluations come from one polynomial with
/// `t + 1` coefficients — whose secret is the weighted sum of the
/// reshared values, the opened product.
pub fn degree_reduce(reshares: &Vec<Vec<u64>>, w2t: &Vec<u64>, n: usize, p: u64) -> (r: Vec<u64>)
    requires
        1 < p,
        n < p,
        reshares.len() >= 1,
        reshares.len() == w2t.len(),
        forall|j: int| 0 <= j < w2t.len() ==> in_field(#[trigger] w2t[j], p),
        forall|j: int| 0 <= j < reshares.len() ==> (#[trigger] reshares[j]).len() >= 1,
        forall|j: int|
            0 <= j < reshares.len() ==> (#[trigger] reshares[j]).len() == reshares[0].len(),
        forall|j: int, k: int|
            0 <= j < reshares.len() && 0 <= k < reshares[j].len() ==> in_field(
                #[trigger] reshares[j][k],
                p,
            ),
    ensures
        r.len() == n,
        // Each party's new share is what it computes locally from the
        // reshare evaluations it received, weighted by the quorum's
        // doubled-degree weights.
        forall|i: int|
            0 <= i < n ==> #[trigger] r[i] == dot(to_ints(w2t@), eval_column(
                Seq::new(reshares.len() as nat, |j: int| reshares[j]@),
                i + 1,
            )) % (p as int),
        // Together the new shares lie on one polynomial with as many
        // coefficients as a reshare, whose constant term is the weighted
        // sum of the reshared values.
        exists|f: Seq<u64>|
            {
                &&& #[trigger] f.len() == reshares[0]@.len()
                &&& (forall|k: int| 0 <= k < f.len() ==> in_field(#[trigger] f[k], p))
                &&& f[0] == dot(to_ints(w2t@), coeff_column(
                    Seq::new(reshares.len() as nat, |j: int| reshares[j]@),
                    0,
                )) % (p as int)
                &&& forall|i: int|
                    0 <= i < n ==> #[trigger] r[i] == poly_eval_int(f, i + 1) % (p as int)
            },
{
    let ghost css = Seq::new(reshares@.len() as nat, |j: int| reshares@[j]@);
    let tlen = reshares[0].len();
    // The combined polynomial: each coefficient is the weighted column.
    let mut fr: Vec<u64> = Vec::new();
    let mut k: usize = 0;
    while k < tlen
        invariant
            1 < p,
            k <= tlen,
            reshares.len() == w2t.len(),
            css == Seq::new(reshares@.len() as nat, |j: int| reshares@[j]@),
            forall|j: int| 0 <= j < w2t.len() ==> in_field(#[trigger] w2t[j], p),
            forall|j: int| 0 <= j < reshares.len() ==> (#[trigger] reshares[j]).len() == tlen,
            forall|j: int, kk: int|
                0 <= j < reshares.len() && 0 <= kk < reshares[j].len() ==> in_field(
                    #[trigger] reshares[j][kk],
                    p,
                ),
            fr.len() == k,
            forall|kk: int|
                0 <= kk < k ==> #[trigger] fr[kk] == dot(to_ints(w2t@), coeff_column(css, kk)) % (
                p as int) && in_field(fr[kk], p),
        decreases tlen - k,
    {
        let mut acc: u64 = 0;
        let mut j: usize = 0;
        proof {
            lemma_small_mod(0, p as nat);
            assert(to_ints(w2t@.take(0)) =~= Seq::<int>::empty());
            assert(coeff_column(css, k as int).take(0) =~= Seq::<int>::empty());
        }
        while j < w2t.len()
            invariant
                1 < p,
                j <= w2t.len(),
                k < tlen,
                reshares.len() == w2t.len(),
                css == Seq::new(reshares@.len() as nat, |jj: int| reshares@[jj]@),
                forall|jj: int| 0 <= jj < w2t.len() ==> in_field(#[trigger] w2t[jj], p),
                forall|jj: int| 0 <= jj < reshares.len() ==> (#[trigger] reshares[jj]).len() == tlen,
                forall|jj: int, kk: int|
                    0 <= jj < reshares.len() && 0 <= kk < reshares[jj].len() ==> in_field(
                        #[trigger] reshares[jj][kk],
                        p,
                    ),
                in_field(acc, p),
                acc == dot(to_ints(w2t@.take(j as int)), coeff_column(css, k as int).take(j as int))
                    % (p as int),
            decreases w2t.len() - j,
        {
            let term = mul_mod(w2t[j], reshares[j][k], p);
            let next = add_mod(acc, term, p);
            proof {
                let pp = p as int;
                let wi = to_ints(w2t@.take(j as int));
                let ci = coeff_column(css, k as int).take(j as int);
                let d = dot(wi, ci);
                assert(to_ints(w2t@.take(j + 1)) =~= wi.push(w2t@[j as int] as int));
                assert(coeff_column(css, k as int).take(j + 1) =~= ci.push(
                    reshares@[j as int]@[k as int] as int,
                ));
                lemma_dot_push(wi, ci, w2t@[j as int] as int, reshares@[j as int]@[k as int] as int);
                lemma_add_mod_noop(d, w2t@[j as int] as int * reshares@[j as int]@[k as int], pp);
                lemma_mod_twice(d, pp);
                lemma_mod_twice(w2t@[j as int] as int * reshares@[j as int]@[k as int], pp);
            }
            acc = next;
            j += 1;
        }
        proof {
            assert(to_ints(w2t@.take(w2t@.len() as int)) =~= to_ints(w2t@));
            assert(coeff_column(css, k as int).take(w2t@.len() as int) =~= coeff_column(
                css,
                k as int,
            ));
        }
        fr.push(acc);
        k += 1;
    }
    let out = share_shamir(&fr, n, p);
    proof {
        assert forall|i: int| 0 <= i < n implies #[trigger] out[i] == dot(
            to_ints(w2t@),
            eval_column(css, i + 1),
        ) % (p as int) by {
            lemma_eval_combined(fr@, css, w2t@, i + 1, p);
        }
        // The combined coefficients witness the degree-t polynomial.
        assert(coeff_column(css, 0) =~= coeff_column(
            Seq::new(reshares.len() as nat, |j: int| reshares[j]@),
            0,
        ));
        assert({
            &&& fr@.len() == reshares[0]@.len()
            &&& (forall|kk: int| 0 <= kk < fr@.len() ==> in_field(#[trigger] fr@[kk], p))
            &&& fr@[0] == dot(to_ints(w2t@), coeff_column(
                Seq::new(reshares.len() as nat, |j: int| reshares[j]@),
                0,
            )) % (p as int)
            &&& forall|i: int|
                0 <= i < n ==> #[trigger] out[i] == poly_eval_int(fr@, i + 1) % (p as int)
        });
    }
    out
}

/// Evaluates a vector of shared polynomial coefficients at the powers
/// of a domain root: the transform from coefficients to evaluations,
/// applied locally to each party's evaluation column.  This is the
/// defining contract of the forward transform; the inverse direction is
/// interpolation over the same points with this module's checked
/// weights.
pub fn fft_shares(
    coeffs: &Vec<ShamirPrimeFieldShare>,
    root: u64,
    n: usize,
    p: u64,
) -> (r: Vec<ShamirPrimeFieldShare>)
    requires
        1 < p,
        in_field(root, p),
        coeffs.len() >= 1,
        forall|i: int| 0 <= i < coeffs.len() ==> in_field((#[trigger] coeffs[i]).a, p),
    ensures
        r.len() == n,
        forall|i: int|
            0 <= i < n ==> (#[trigger] r[i]).a == poly_eval_int(
                Seq::new(coeffs.len() as nat, |k: int| coeffs[k].a),
                pow(root as int, i as nat) % (p as int),
            ) % (p as int) && in_field(r[i].a, p),
{
    let ghost cs = Seq::new(coeffs@.len() as nat, |k: int| coeffs@[k].a);
    let mut column: Vec<u64> = Vec::new();
    let mut k: usize = 0;
    while k < coeffs.len()
        invariant
            k <= coeffs.len(),
            cs == Seq::new(coeffs@.len() as nat, |kk: int| coeffs@[kk].a),
            forall|kk: int| 0 <= kk < coeffs.len() ==> in_field((#[trigger] coeffs[kk]).a, p),
            column@ == cs.take(k as int),
        decreases coeffs.len() - k,
    {
        proof {
            assert(cs.take(k as int).push(coeffs@[k as int].a) =~= cs.take(k + 1));
        }
        column.push(coeffs[k].a);
        k += 1;
    }
    proof {
        assert(cs.take(cs.len() as int) =~= cs);
    }
    let mut out: Vec<ShamirPrimeFieldShare> = Vec::new();
    let mut i: usize = 0;
    while i < n
        invariant
            1 < p,
            i <= n,
            in_field(root, p),
            column@ == cs,
            column.len() >= 1,
            forall|kk: int| 0 <= kk < column.len() ==> in_field(#[trigger] column[kk], p),
            out.len() == i,
            forall|ii: int|
                0 <= ii < i ==> (#[trigger] out[ii]).a == poly_eval_int(
                    cs,
                    pow(root as int, ii as nat) % (p as int),
                ) % (p as int) && in_field(out[ii].a, p),
        decreases n - i,
    {
        let x = pow_mod(root, i as u64, p);
        let y = eval_poly_mod(&column, x, p);
        out.push(ShamirPrimeFieldShare { a: y });
        i += 1;
    }
    out
}

/// The value of a linear constraint: each row entry pairs a coefficient
/// with an index into the public inputs (first) or the private witness
/// (after them).
pub open spec fn constraint_value(
    lhs: Seq<(u64, usize)>,
    pubs: Seq<u64>,
    wits: Seq<u64>,
) -> int
    decreases lhs.len(),
{
    if lhs.len() == 0 {
        0
    } else {
        let c = lhs[0].0;
        let idx = lhs[0].1;
        let v: int = if idx < pubs.len() {
            pubs[idx as int] as int
        } else {
            wits[idx - pubs.len()] as int
        };
        v * c + constraint_value(lhs.drop_first(), pubs, wits)
    }
}

/// Evaluates a linear constraint row against a mix of public inputs and
/// shared witness values; linear, so local.
pub fn evaluate_constraint(
    lhs: &Vec<(u64, usize)>,
    public_inputs: &Vec<u64>,
    private_witness: &Vec<ShamirPrimeFieldShare>,
    p: u64,
) -> (r: ShamirPrimeFieldShare)
    requires
        1 < p,
        forall|i: int| 0 <= i < public_inputs.len() ==> in_field(#[trigger] public_inputs[i], p),
        forall|i: int|
            0 <= i < private_witness.len() ==> in_field(#[trigger] private_witness[i].a, p),
        forall|i: int| 0 <= i < lhs.len() ==> in_field((#[trigger] lhs[i]).0, p),
        forall|i: int|
            0 <= i < lhs.len() ==> (#[trigger] lhs[i]).1 < public_inputs.len()
                + private_witness.len(),
    ensures
        r.a == constraint_value(
            lhs@,
            public_inputs@,
            Seq::new(private_witness.len() as nat, |i: int| private_witness[i].a),
        ) % (p as int),
        in_field(r.a, p),
{
    let ghost wits = Seq::new(private_witness.len() as nat, |i: int| private_witness@[i].a);
    let mut acc: u64 = 0;
    let mut j: usize = lhs.len();
    proof {
        lemma_small_mod(0, p as nat);
        assert(lhs@.skip(lhs.len() as int) =~= Seq::<(u64, usize)>::empty());
    }
    while j > 0
        invariant
            1 < p,
            j <= lhs.len(),
            wits == Seq::new(private_witness.len() as nat, |i: int| private_witness@[i].a),
            forall|i: int|
                0 <= i < public_inputs.len() ==> in_field(#[trigger] public_inputs[i], p),
            forall|i: int|
                0 <= i < private_witness.len() ==> in_field(#[trigger] private_witness[i].a, p),
            forall|i: int| 0 <= i < lhs.len() ==> in_field((#[trigger] lhs[i]).0, p),
            forall|i: int|
                0 <= i < lhs.len() ==> (#[trigger] lhs[i]).1 < public_inputs.len()
                    + private_witness.len(),
            in_field(acc, p),
            acc == constraint_value(lhs@.skip(j as int), public_inputs@, wits) % (p as int),
        decreases j,
    {
        j -= 1;
        let (c, idx) = lhs[j];
        let v = if idx < public_inputs.len() {
            public_inputs[idx]
        } else {
            private_witness[idx - public_inputs.len()].a
        };
        let term = mul_mod(v, c, p);
        let next = add_mod(term, acc, p);
        proof {
            let pp = p as int;
            let cur = lhs@.skip(j as int);
            assert(cur.drop_first() =~= lhs@.skip(j as int + 1));
            assert(cur[0] == lhs@[j as int]);
            let rest = constraint_value(lhs@.skip(j as int + 1), public_inputs@, wits);
            lemma_add_mod_noop(v as int * c as int, rest, pp);
            lemma_mod_twice(v as int * c as int, pp);
            lemma_mod_twice(rest, pp);
        }
        acc = next;
    }
    proof {
        assert(lhs@.skip(0) =~= lhs@);
    }
    ShamirPrimeFieldShare { a: acc }
}

/// Applies per-element public factors to a share vector in place: the
/// twiddle-factor application of an FFT, purely local and parallel in
/// spirit.
pub fn distribute_powers_and_mul_by_const(
    coeffs: &mut Vec<ShamirPrimeFieldShare>,
    roots: &Vec<u64>,
    p: u64,
)
    requires
        1 < p,
        old(coeffs).len() == roots.len(),
        forall|i: int| 0 <= i < old(coeffs).len() ==> in_field((#[trigger] old(coeffs)[i]).a, p),
        forall|i: int| 0 <= i < roots.len() ==> in_field(#[trigger] roots[i], p),
    ensures
        final(coeffs).len() == old(coeffs).len(),
        forall|i: int|
            0 <= i < old(coeffs).len() ==> (#[trigger] final(coeffs)[i]).a == (old(
                coeffs,
            )[i].a * roots[i]) % (p as int),
{
    let n = coeffs.len();
    let mut i: usize = 0;
    while i < n
        invariant
            1 < p,
            i <= n,
            n == coeffs.len() && n == roots.len() && n == old(coeffs).len(),
            forall|jj: int| 0 <= jj < n ==> in_field((#[trigger] old(coeffs)[jj]).a, p),
            forall|jj: int| 0 <= jj < n ==> in_field(#[trigger] roots[jj], p),
            forall|jj: int|
                i <= jj < n ==> (#[trigger] coeffs[jj]).a == old(coeffs)[jj].a,
            forall|jj: int|
                0 <= jj < i ==> (#[trigger] coeffs[jj]).a == (old(coeffs)[jj].a * roots[jj]) % (
                p as int),
        decreases n - i,
    {
        let updated = ShamirPrimeFieldShare { a: mul_mod(coeffs[i].a, roots[i], p) };
        coeffs.set(i, updated);
        i += 1;
    }
}

/// The pointwise local products of two share vectors, the first half of
/// a batched multiplication before its degree reduction.
pub fn local_mul_vec(
    a: &Vec<ShamirPrimeFieldShare>,
    b: &Vec<ShamirPrimeFieldShare>,
    p: u64,
) -> (r: Vec<u64>)
    requires
        1 < p,
        a.len() == b.len(),
        forall|i: int| 0 <= i < a.len() ==> in_field((#[trigger] a[i]).a, p),
        forall|i: int| 0 <= i < b.len() ==> in_field((#[trigger] b[i]).a, p),
    ensures
        r.len() == a.len(),
        forall|i: int|
            0 <= i < r.len() ==> #[trigger] r[i] == (a[i].a * b[i].a) % (p as int) && in_field(
                r[i],
                p,
            ),
{
    let mut out: Vec<u64> = Vec::new();
    let mut i: usize = 0;
    while i < a.len()
        invariant
            1 < p,
            i <= a.len(),
            a.len() == b.len(),
            forall|j: int| 0 <= j < a.len() ==> in_field((#[trigger] a[j]).a, p),
            forall|j: int| 0 <= j < b.len() ==> in_field((#[trigger] b[j]).a, p),
            out.len() == i,
            forall|j: int|
                0 <= j < i ==> #[trigger] out[j] == (a[j].a * b[j].a) % (p as int) && in_field(
                    out[j],
                    p,
                ),
        decreases a.len() - i,
    {
        out.push(mul_mod(a[i].a, b[i].a, p));
        i += 1;
    }
    out
}

} // verus!
