//! Shares of elliptic-curve group elements.
//!
//! The protocols treat a curve point only through the group's addition
//! and the action of scalars, so a point is modelled as its discrete
//! value in the cyclic group of order `q`: group addition is addition
//! modulo `q`, and a scalar acts by multiplication modulo `q`.  Every
//! point operation of the sharing layer is linear and therefore local.

use crate::field::{add_mod, in_field, lemma_mod_add3, mul_mod, sub_mod};
use crate::shamir::{dot, lemma_dot_push, to_ints};
use vstd::arithmetic::div_mod::{
    lemma_add_mod_noop, lemma_mod_twice, lemma_mul_mod_noop_general, lemma_small_mod,
};
use vstd::prelude::*;

verus! {

/// A replicated three-party share of a group element.
#[derive(Clone, Copy, Debug, PartialEq, Eq, Structural)]
pub struct Rep3PointShare {
    /// Share of this party.
    pub a: u64,
    /// Share of the previous party.
    pub b: u64,
}

/// A threshold share of a group element: the evaluation this party holds.
#[derive(Clone, Copy, Debug, PartialEq, Eq, Structural)]
pub struct ShamirPointShare {
    /// The polynomial evaluation this party holds.
    pub a: u64,
}

/// The group element a replicated point sharing stands for.
pub open spec fn point_sharing_value(
    s0: Rep3PointShare,
    s1: Rep3PointShare,
    s2: Rep3PointShare,
    q: u64,
) -> int {
    (s0.a + s1.a + s2.a) % (q as int)
}

impl Rep3PointShare {
    /// Wraps the two additive sub-shares.
    pub fn new(a: u64, b: u64) -> (r: Self)
        ensures
            r.a == a && r.b == b,
    {
        Self { a, b }
    }

    /// Local group addition of two point shares.
    pub fn add_points(self, rhs: Self, q: u64) -> (r: Self)
        requires
            1 < q,
            in_field(self.a, q) && in_field(self.b, q),
            in_field(rhs.a, q) && in_field(rhs.b, q),
        ensures
            r.a == (self.a + rhs.a) % (q as int),
            r.b == (self.b + rhs.b) % (q as int),
            in_field(r.a, q) && in_field(r.b, q),
    {
        Self { a: add_mod(self.a, rhs.a, q), b: add_mod(self.b, rhs.b, q) }
    }

    /// Local group subtraction of two point shares.
    pub fn sub_points(self, rhs: Self, q: u64) -> (r: Self)
        requires
            1 < q,
            in_field(self.a, q) && in_field(self.b, q),
            in_field(rhs.a, q) && in_field(rhs.b, q),
        ensures
            r.a == (self.a - rhs.a) % (q as int),
            r.b == (self.b - rhs.b) % (q as int),
            in_field(r.a, q) && in_field(r.b, q),
    {
        Self { a: sub_mod(self.a, rhs.a, q), b: sub_mod(self.b, rhs.b, q) }
    }

    /// Multiplies a public point by a shared scalar — linear, so local:
    /// each sub-share of the scalar acts on the point.
    pub fn scalar_mul_public_point(point: u64, scalar: crate::rep3::Rep3PrimeFieldShare, q: u64) -> (r:
        Self)
        requires
            1 < q,
            in_field(point, q),
            crate::rep3::share_valid(scalar, q),
        ensures
            r.a == (point * scalar.a) % (q as int),
            r.b == (point * scalar.b) % (q as int),
            in_field(r.a, q) && in_field(r.b, q),
    {
        Self { a: mul_mod(point, scalar.a, q), b: mul_mod(point, scalar.b, q) }
    }

    /// Reconstructs the point from this party's pair and the received
    /// third sub-share.
    pub fn open_point(self, third: u64, q: u64) -> (r: u64)
        requires
            1 < q,
            in_field(self.a, q) && in_field(self.b, q),
            in_field(third, q),
        ensures
            r == (self.a + self.b + third) % (q as int),
            in_field(r, q),
    {
        let t = add_mod(self.a, self.b, q);
        let r = add_mod(t, third, q);
        proof {
            let qq = q as int;
            lemma_add_mod_noop((self.a + self.b) as int, third as int, qq);
            lemma_mod_twice(self.a + self.b, qq);
            lemma_small_mod(third as nat, q as nat);
        }
        r
    }
}

/// Multiplying a public point by a shared scalar yields a sharing of the
/// point times the shared secret.
pub proof fn lemma_rep3_scalar_mul_public_point(
    s0: crate::rep3::Rep3PrimeFieldShare,
    s1: crate::rep3::Rep3PrimeFieldShare,
    s2: crate::rep3::Rep3PrimeFieldShare,
    point: u64,
    q: u64,
)
    requires
        1 < q,
        in_field(point, q),
        crate::rep3::share_valid(s0, q),
        crate::rep3::share_valid(s1, q),
        crate::rep3::share_valid(s2, q),
    ensures
        ({
            let r0 = (point * s0.a) % (q as int);
            let r1 = (point * s1.a) % (q as int);
            let r2 = (point * s2.a) % (q as int);
            (r0 + r1 + r2) % (q as int) == (point * crate::rep3::sharing_value(s0, s1, s2, q)) % (
            q as int)
        }),
{
    let qq = q as int;
    lemma_mod_add3(point * s0.a, point * s1.a, point * s2.a, qq);
    assert(point * s0.a + point * s1.a + point * s2.a == point * (s0.a + s1.a + s2.a))
        by (nonlinear_arith);
    lemma_mul_mod_noop_general(point as int, (s0.a + s1.a + s2.a) as int, qq);
}

/// Multi-scalar multiplication of public points by shared scalars: the
/// weighted sum is linear in the scalars, so each party combines its
/// sub-shares locally.
pub fn msm_public_points(
    points: &Vec<u64>,
    scalars: &Vec<crate::rep3::Rep3PrimeFieldShare>,
    q: u64,
) -> (r: Rep3PointShare)
    requires
        1 < q,
        points.len() == scalars.len(),
        forall|i: int| 0 <= i < points.len() ==> in_field(#[trigger] points[i], q),
        forall|i: int|
            0 <= i < scalars.len() ==> crate::rep3::share_valid(#[trigger] scalars[i], q),
    ensures
        r.a == dot(to_ints(points@), Seq::new(scalars.len() as nat, |i: int| scalars[i].a as int))
            % (q as int),
        r.b == dot(to_ints(points@), Seq::new(scalars.len() as nat, |i: int| scalars[i].b as int))
            % (q as int),
        in_field(r.a, q) && in_field(r.b, q),
{
    let ghost sa = Seq::new(scalars.len() as nat, |i: int| scalars@[i].a as int);
    let ghost sb = Seq::new(scalars.len() as nat, |i: int| scalars@[i].b as int);
    let mut acc_a: u64 = 0;
    let mut acc_b: u64 = 0;
    let mut i: usize = 0;
    proof {
        lemma_small_mod(0, q as nat);
        assert(to_ints(points@.take(0)) =~= Seq::<int>::empty());
        assert(sa.take(0) =~= Seq::<int>::empty());
        assert(sb.take(0) =~= Seq::<int>::empty());
    }
    while i < points.len()
        invariant
            1 < q,
            i <= points.len(),
            points.len() == scalars.len(),
            sa == Seq::new(scalars.len() as nat, |j: int| scalars@[j].a as int),
            sb == Seq::new(scalars.len() as nat, |j: int| scalars@[j].b as int),
            forall|j: int| 0 <= j < points.len() ==> in_field(#[trigger] points[j], q),
            forall|j: int|
                0 <= j < scalars.len() ==> crate::rep3::share_valid(#[trigger] scalars[j], q),
            in_field(acc_a, q) && in_field(acc_b, q),
            acc_a == dot(to_ints(points@.take(i as int)), sa.take(i as int)) % (q as int),
            acc_b == dot(to_ints(points@.take(i as int)), sb.take(i as int)) % (q as int),
        decreases points.len() - i,
    {
        let ta = mul_mod(points[i], scalars[i].a, q);
        let tb = mul_mod(points[i], scalars[i].b, q);
        let na = add_mod(acc_a, ta, q);
        let nb = add_mod(acc_b, tb, q);
        proof {
            let qq = q as int;
            let wi = to_ints(points@.take(i as int));
            let pi = points@[i as int] as int;
            assert(to_ints(points@.take(i + 1)) =~= wi.push(pi));
            assert(sa.take(i + 1) =~= sa.take(i as int).push(scalars@[i as int].a as int));
            assert(sb.take(i + 1) =~= sb.take(i as int).push(scalars@[i as int].b as int));
            lemma_dot_push(wi, sa.take(i as int), pi, scalars@[i as int].a as int);
            lemma_dot_push(wi, sb.take(i as int), pi, scalars@[i as int].b as int);
            let da = dot(wi, sa.take(i as int));
            let db = dot(wi, sb.take(i as int));
            lemma_add_mod_noop(da, pi * scalars@[i as int].a, qq);
            lemma_add_mod_noop(db, pi * scalars@[i as int].b, qq);
            lemma_mod_twice(da, qq);
            lemma_mod_twice(db, qq);
            lemma_mod_twice(pi * scalars@[i as int].a, qq);
            lemma_mod_twice(pi * scalars@[i as int].b, qq);
        }
        acc_a = na;
        acc_b = nb;
        i += 1;
    }
    proof {
        assert(points@.take(points@.len() as int) =~= points@);
        assert(sa.take(sa.len() as int) =~= sa);
        assert(sb.take(sb.len() as int) =~= sb);
    }
    Rep3PointShare { a: acc_a, b: acc_b }
}

impl ShamirPointShare {
    /// Wraps an evaluation.
    pub fn new(a: u64) -> (r: Self)
        ensures
            r.a == a,
    {
        Self { a }
    }

    /// Local group addition.
    pub fn add_assign(&mut self, rhs: Self, q: u64)
        requires
            1 < q,
            in_field(old(self).a, q),
            in_field(rhs.a, q),
        ensures
            final(self).a == (old(self).a + rhs.a) % (q as int),
            in_field(final(self).a, q),
    {
        self.a = add_mod(self.a, rhs.a, q);
    }

    /// Local group subtraction.
    pub fn sub_assign(&mut self, rhs: Self, q: u64)
        requires
            1 < q,
            in_field(old(self).a, q),
            in_field(rhs.a, q),
        ensures
            final(self).a == (old(self).a - rhs.a) % (q as int),
            in_field(final(self).a, q),
    {
        self.a = sub_mod(self.a, rhs.a, q);
    }

    /// Multiplies a public point by a shared scalar — local, since the
    /// evaluation acts linearly.
    pub fn scalar_mul_public_point(point: u64, scalar: crate::shamir::ShamirPrimeFieldShare, q: u64) -> (r:
        Self)
        requires
            1 < q,
            in_field(point, q),
            in_field(scalar.a, q),
        ensures
            r.a == (point * scalar.a) % (q as int),
            in_field(r.a, q),
    {
        Self { a: mul_mod(point, scalar.a, q) }
    }

    /// The local part of multiplying a shared point by a shared scalar;
    /// it doubles the degree of the sharing, like a field multiplication.
    pub fn scalar_mul(self, scalar: crate::shamir::ShamirPrimeFieldShare, q: u64) -> (r: Self)
        requires
            1 < q,
            in_field(self.a, q),
            in_field(scalar.a, q),
        ensures
            r.a == (self.a * scalar.a) % (q as int),
            in_field(r.a, q),
    {
        Self { a: mul_mod(self.a, scalar.a, q) }
    }
}

/// Opens two replicated point shares over two different groups in one
/// joint step, as when a pairing check needs an element of each group;
/// in a real deployment the two broadcasts run concurrently, which
/// changes nothing about the values.
pub fn open_two_rep3_points(
    a: Rep3PointShare,
    a_third: u64,
    qa: u64,
    b: Rep3PointShare,
    b_third: u64,
    qb: u64,
) -> (r: (u64, u64))
    requires
        1 < qa,
        1 < qb,
        in_field(a.a, qa) && in_field(a.b, qa) && in_field(a_third, qa),
        in_field(b.a, qb) && in_field(b.b, qb) && in_field(b_third, qb),
    ensures
        r.0 == (a.a + a.b + a_third) % (qa as int),
        r.1 == (b.a + b.b + b_third) % (qb as int),
{
    let first = a.open_point(a_third, qa);
    let second = b.open_point(b_third, qb);
    (first, second)
}

/// Opens a degree-`2t` point sharing and a degree-`t` point sharing in
/// one joint step, each against its own weight set and quorum; in a real
/// deployment the two broadcasts run concurrently, which changes nothing
/// about the values.
pub fn open_two_points(
    ys_2t: &Vec<u64>,
    w_2t: &Vec<u64>,
    ys_t: &Vec<u64>,
    w_t: &Vec<u64>,
    q: u64,
) -> (r: (u64, u64))
    requires
        1 < q,
        w_2t.len() == ys_2t.len(),
        w_t.len() == ys_t.len(),
        forall|i: int| 0 <= i < w_2t.len() ==> in_field(#[trigger] w_2t[i], q),
        forall|i: int| 0 <= i < ys_2t.len() ==> in_field(#[trigger] ys_2t[i], q),
        forall|i: int| 0 <= i < w_t.len() ==> in_field(#[trigger] w_t[i], q),
        forall|i: int| 0 <= i < ys_t.len() ==> in_field(#[trigger] ys_t[i], q),
    ensures
        r.0 == dot(to_ints(w_2t@), to_ints(ys_2t@)) % (q as int),
        r.1 == dot(to_ints(w_t@), to_ints(ys_t@)) % (q as int),
{
    let first = crate::shamir::open_with_lagrange(ys_2t, w_2t, q);
    let second = crate::shamir::open_with_lagrange(ys_t, w_t, q);
    (first, second)
}

} // verus!
