//! Replicated three-party sharing of prime-field elements.
//!
//! A secret `x` is split into three additive sub-shares `x0 + x1 + x2 == x`
//! (mod `p`); party `i` holds the pair `(x_i, x_{i-1})`.  Addition and
//! subtraction are local; a multiplication needs one exchanged message per
//! party, modelled here by the mask each party adds before sending.

use crate::field::{
    add_mod, in_field, lemma_mod_add3, mul_mod, neg_mod, sub_mod,
};
use crate::party::PartyID;
use vstd::arithmetic::div_mod::{
    lemma_add_mod_noop, lemma_mod_bound, lemma_mod_twice, lemma_mul_mod_noop, lemma_small_mod,
};
use vstd::prelude::*;

verus! {

/// A replicated share of a field element: this party's additive sub-share
/// `a` and the previous party's sub-share `b`.
#[derive(Clone, Copy, Debug, PartialEq, Eq, Structural)]
pub struct Rep3PrimeFieldShare {
    /// Share of this party.
    pub a: u64,
    /// Share of the previous party.
    pub b: u64,
}

/// Both halves of the share are reduced field elements.
pub open spec fn share_valid(s: Rep3PrimeFieldShare, p: u64) -> bool {
    in_field(s.a, p) && in_field(s.b, p)
}

/// The three parties' shares replicate each sub-share correctly: each
/// party's `b` equals the previous party's `a`.
pub open spec fn sharing_consistent(
    s0: Rep3PrimeFieldShare,
    s1: Rep3PrimeFieldShare,
    s2: Rep3PrimeFieldShare,
) -> bool {
    s0.b == s2.a && s1.b == s0.a && s2.b == s1.a
}

/// The secret a three-party sharing stands for: the sum of the three
/// additive sub-shares.
pub open spec fn sharing_value(
    s0: Rep3PrimeFieldShare,
    s1: Rep3PrimeFieldShare,
    s2: Rep3PrimeFieldShare,
    p: u64,
) -> int {
    (s0.a + s1.a + s2.a) % (p as int)
}

/// What a party reconstructs from its own pair and the one sub-share it
/// is missing.
pub open spec fn open_spec(s: Rep3PrimeFieldShare, third: u64, p: u64) -> int {
    (s.a + s.b + third) % (p as int)
}

/// The local contribution of one party to a product of two shared values.
pub open spec fn mul_local_spec(x: Rep3PrimeFieldShare, y: Rep3PrimeFieldShare, p: u64) -> int {
    (x.a * y.a + x.a * y.b + x.b * y.a) % (p as int)
}

impl Rep3PrimeFieldShare {
    /// Constructs the type from two additive shares.
    pub fn new(a: u64, b: u64) -> (r: Self)
        ensures
            r.a == a && r.b == b,
    {
        Self { a, b }
    }

    /// Constructs a zero share.
    pub fn zero_share() -> (r: Self)
        ensures
            r.a == 0 && r.b == 0,
    {
        Self { a: 0, b: 0 }
    }

    /// Unwraps the type into two additive shares.
    pub fn ab(self) -> (r: (u64, u64))
        ensures
            r.0 == self.a && r.1 == self.b,
    {
        (self.a, self.b)
    }

    /// Doubles the share in place.
    pub fn double(&mut self, p: u64)
        requires
            1 < p,
            share_valid(*old(self), p),
        ensures
            final(self).a == (2 * old(self).a) % (p as int),
            final(self).b == (2 * old(self).b) % (p as int),
            share_valid(*final(self), p),
    {
        self.a = add_mod(self.a, self.a, p);
        self.b = add_mod(self.b, self.b, p);
    }

    /// Promotes a public field element to a replicated share by giving the
    /// whole value to the sub-share of party 0 and leaving the others zero.
    pub fn promote_from_trivial(val: u64, id: PartyID, p: u64) -> (r: Self)
        requires
            1 < p,
            in_field(val, p),
        ensures
            share_valid(r, p),
            id == PartyID::ID0 ==> r.a == val && r.b == 0,
            id == PartyID::ID1 ==> r.a == 0 && r.b == val,
            id == PartyID::ID2 ==> r.a == 0 && r.b == 0,
    {
        match id {
            PartyID::ID0 => Self::new(val, 0),
            PartyID::ID1 => Self::new(0, val),
            PartyID::ID2 => Self::zero_share(),
        }
    }

    /// Local share addition.
    pub fn add(self, rhs: Self, p: u64) -> (r: Self)
        requires
            1 < p,
            share_valid(self, p),
            share_valid(rhs, p),
        ensures
            r.a == (self.a + rhs.a) % (p as int),
            r.b == (self.b + rhs.b) % (p as int),
            share_valid(r, p),
    {
        Self { a: add_mod(self.a, rhs.a, p), b: add_mod(self.b, rhs.b, p) }
    }

    /// Local share subtraction.
    pub fn sub(self, rhs: Self, p: u64) -> (r: Self)
        requires
            1 < p,
            share_valid(self, p),
            share_valid(rhs, p),
        ensures
            r.a == (self.a - rhs.a) % (p as int),
            r.b == (self.b - rhs.b) % (p as int),
            share_valid(r, p),
    {
        Self { a: sub_mod(self.a, rhs.a, p), b: sub_mod(self.b, rhs.b, p) }
    }

    /// Local share negation.
    pub fn neg(self, p: u64) -> (r: Self)
        requires
            1 < p,
            share_valid(self, p),
        ensures
            r.a == (0 - self.a) % (p as int),
            r.b == (0 - self.b) % (p as int),
            share_valid(r, p),
    {
        Self { a: neg_mod(self.a, p), b: neg_mod(self.b, p) }
    }

    /// The local part of a share multiplication; the three parties' local
    /// parts sum to the product of the two secrets.
    pub fn mul(self, rhs: Self, p: u64) -> (r: u64)
        requires
            1 < p,
            share_valid(self, p),
            share_valid(rhs, p),
        ensures
            r == mul_local_spec(self, rhs, p),
            in_field(r, p),
    {
        let t1 = mul_mod(self.a, rhs.a, p);
        let t2 = mul_mod(self.a, rhs.b, p);
        let t3 = mul_mod(self.b, rhs.a, p);
        let r = add_mod(add_mod(t1, t2, p), t3, p);
        proof {
            let pp = p as int;
            lemma_add_mod_noop(self.a * rhs.a, self.a * rhs.b, pp);
            lemma_add_mod_noop(self.a * rhs.a + self.a * rhs.b, self.b * rhs.a, pp);
            lemma_mod_twice(self.a * rhs.a + self.a * rhs.b, pp);
            lemma_mod_twice(self.b * rhs.a, pp);
        }
        r
    }

    /// Multiplication of a share by a public field element, a local
    /// operation.
    pub fn mul_public(self, c: u64, p: u64) -> (r: Self)
        requires
            1 < p,
            share_valid(self, p),
            in_field(c, p),
        ensures
            r.a == (self.a * c) % (p as int),
            r.b == (self.b * c) % (p as int),
            share_valid(r, p),
    {
        Self { a: mul_mod(self.a, c, p), b: mul_mod(self.b, c, p) }
    }
}

/// Splits a secret into a consistent three-party replicated sharing, the
/// first two sub-shares being the caller's randomness.
pub fn share(x: u64, r0: u64, r1: u64, p: u64) -> (r: (
    Rep3PrimeFieldShare,
    Rep3PrimeFieldShare,
    Rep3PrimeFieldShare,
))
    requires
        1 < p,
        in_field(x, p),
        in_field(r0, p),
        in_field(r1, p),
    ensures
        sharing_consistent(r.0, r.1, r.2),
        share_valid(r.0, p) && share_valid(r.1, p) && share_valid(r.2, p),
        sharing_value(r.0, r.1, r.2, p) == x,
{
    let a2 = sub_mod(sub_mod(x, r0, p), r1, p);
    let s0 = Rep3PrimeFieldShare::new(r0, a2);
    let s1 = Rep3PrimeFieldShare::new(r1, r0);
    let s2 = Rep3PrimeFieldShare::new(a2, r1);
    proof {
        let pp = p as int;
        lemma_mod_add3(r0 as int, r1 as int, ((x - r0) % pp - r1) % pp, pp);
        lemma_mod_twice((x - r0) % pp - r1, pp);
        lemma_add_mod_noop((x - r0) % pp, (0 - r1) as int, pp);
        lemma_mod_twice(x - r0, pp);
        lemma_add_mod_noop(x - r0, (0 - r1) as int, pp);
        lemma_mod_bound((0 - r1) as int, pp);
        assert((r0 + r1 + ((x - r0 - r1) % pp)) % pp == (r0 + r1 + (x - r0 - r1)) % pp) by {
            lemma_mod_add3(r0 as int, r1 as int, x - r0 - r1, pp);
            lemma_small_mod(r0 as nat, p as nat);
            lemma_small_mod(r1 as nat, p as nat);
        }
        lemma_small_mod(x as nat, p as nat);
    }
    (s0, s1, s2)
}

/// Reconstructs the secret from this party's pair and the sub-share
/// received from the remaining party.
pub fn open(s: Rep3PrimeFieldShare, third: u64, p: u64) -> (r: u64)
    requires
        1 < p,
        share_valid(s, p),
        in_field(third, p),
    ensures
        r == open_spec(s, third, p),
        in_field(r, p),
{
    let r = add_mod(add_mod(s.a, s.b, p), third, p);
    proof {
        let pp = p as int;
        lemma_add_mod_noop((s.a + s.b) % pp, third as int, pp);
        lemma_mod_twice(s.a + s.b, pp);
        lemma_small_mod(third as nat, p as nat);
        lemma_add_mod_noop(s.a + s.b, third as int, pp);
    }
    r
}

/// Reconstruction is correct: whichever party opens a consistent sharing,
/// the value it computes is the shared secret.
pub proof fn lemma_rep3_open_correct(
    s0: Rep3PrimeFieldShare,
    s1: Rep3PrimeFieldShare,
    s2: Rep3PrimeFieldShare,
    p: u64,
)
    requires
        1 < p,
        sharing_consistent(s0, s1, s2),
        share_valid(s0, p) && share_valid(s1, p) && share_valid(s2, p),
    ensures
        open_spec(s0, s1.a, p) == sharing_value(s0, s1, s2, p),
        open_spec(s1, s2.a, p) == sharing_value(s0, s1, s2, p),
        open_spec(s2, s0.a, p) == sharing_value(s0, s1, s2, p),
{
}

/// Additive homomorphism: the componentwise sum of two consistent
/// sharings is a consistent sharing of the sum of the secrets.
pub proof fn lemma_rep3_add_homomorphic(
    x0: Rep3PrimeFieldShare,
    x1: Rep3PrimeFieldShare,
    x2: Rep3PrimeFieldShare,
    y0: Rep3PrimeFieldShare,
    y1: Rep3PrimeFieldShare,
    y2: Rep3PrimeFieldShare,
    z0: Rep3PrimeFieldShare,
    z1: Rep3PrimeFieldShare,
    z2: Rep3PrimeFieldShare,
    p: u64,
)
    requires
        1 < p,
        sharing_consistent(x0, x1, x2),
        sharing_consistent(y0, y1, y2),
        z0.a == (x0.a + y0.a) % (p as int) && z0.b == (x0.b + y0.b) % (p as int),
        z1.a == (x1.a + y1.a) % (p as int) && z1.b == (x1.b + y1.b) % (p as int),
        z2.a == (x2.a + y2.a) % (p as int) && z2.b == (x2.b + y2.b) % (p as int),
    ensures
        sharing_consistent(z0, z1, z2),
        sharing_value(z0, z1, z2, p) == (sharing_value(x0, x1, x2, p) + sharing_value(
            y0,
            y1,
            y2,
            p,
        )) % (p as int),
{
    let pp = p as int;
    lemma_mod_add3((x0.a + y0.a) as int, (x1.a + y1.a) as int, (x2.a + y2.a) as int, pp);
    lemma_add_mod_noop((x0.a + x1.a + x2.a) as int, (y0.a + y1.a + y2.a) as int, pp);
}

/// A public constant promoted to trivial shares forms a consistent
/// sharing of that constant.
pub proof fn lemma_rep3_promote_correct(
    s0: Rep3PrimeFieldShare,
    s1: Rep3PrimeFieldShare,
    s2: Rep3PrimeFieldShare,
    c: u64,
    p: u64,
)
    requires
        1 < p,
        in_field(c, p),
        s0.a == c && s0.b == 0,
        s1.a == 0 && s1.b == c,
        s2.a == 0 && s2.b == 0,
    ensures
        sharing_consistent(s0, s1, s2),
        sharing_value(s0, s1, s2, p) == c,
{
    lemma_small_mod(c as nat, p as nat);
}

/// Multiplicative correctness: when each party adds its zero-sum mask to
/// its local product part and the results are redistributed as the new
/// replicated pairs, the new sharing is consistent and stands for the
/// product of the two secrets.
pub proof fn lemma_rep3_mul_correct(
    x0: Rep3PrimeFieldShare,
    x1: Rep3PrimeFieldShare,
    x2: Rep3PrimeFieldShare,
    y0: Rep3PrimeFieldShare,
    y1: Rep3PrimeFieldShare,
    y2: Rep3PrimeFieldShare,
    z0: u64,
    z1: u64,
    z2: u64,
    p: u64,
)
    requires
        1 < p,
        sharing_consistent(x0, x1, x2),
        sharing_consistent(y0, y1, y2),
        share_valid(x0, p) && share_valid(x1, p) && share_valid(x2, p),
        share_valid(y0, p) && share_valid(y1, p) && share_valid(y2, p),
        in_field(z0, p) && in_field(z1, p) && in_field(z2, p),
        (z0 + z1 + z2) % (p as int) == 0,
    ensures
        ({
            let n0 = (mul_local_spec(x0, y0, p) + z0) % (p as int);
            let n1 = (mul_local_spec(x1, y1, p) + z1) % (p as int);
            let n2 = (mul_local_spec(x2, y2, p) + z2) % (p as int);
            (n0 + n1 + n2) % (p as int) == (sharing_value(x0, x1, x2, p) * sharing_value(
                y0,
                y1,
                y2,
                p,
            )) % (p as int)
        }),
{
    let pp = p as int;
    let a0 = x0.a as int;
    let a1 = x1.a as int;
    let a2 = x2.a as int;
    let b0 = y0.a as int;
    let b1 = y1.a as int;
    let b2 = y2.a as int;
    let t0 = a0 * b0 + a0 * b2 + a2 * b0;
    let t1 = a1 * b1 + a1 * b0 + a0 * b1;
    let t2 = a2 * b2 + a2 * b1 + a1 * b2;
    assert((a0 * b0 + a0 * b2 + a2 * b0) + (a1 * b1 + a1 * b0 + a0 * b1) + (a2 * b2 + a2 * b1 + a1
        * b2) == (a0 + a1 + a2) * (b0 + b1 + b2)) by (nonlinear_arith);
    let n0 = (mul_local_spec(x0, y0, p) + z0) % pp;
    let n1 = (mul_local_spec(x1, y1, p) + z1) % pp;
    let n2 = (mul_local_spec(x2, y2, p) + z2) % pp;
    // Fold the inner reductions of each party's masked local part.
    assert(n0 == (t0 + z0) % pp) by {
        lemma_add_mod_noop(t0 % pp, z0 as int, pp);
        lemma_mod_twice(t0, pp);
        lemma_small_mod(z0 as nat, p as nat);
        lemma_add_mod_noop(t0, z0 as int, pp);
    }
    assert(n1 == (t1 + z1) % pp) by {
        lemma_add_mod_noop(t1 % pp, z1 as int, pp);
        lemma_mod_twice(t1, pp);
        lemma_small_mod(z1 as nat, p as nat);
        lemma_add_mod_noop(t1, z1 as int, pp);
    }
    assert(n2 == (t2 + z2) % pp) by {
        lemma_add_mod_noop(t2 % pp, z2 as int, pp);
        lemma_mod_twice(t2, pp);
        lemma_small_mod(z2 as nat, p as nat);
        lemma_add_mod_noop(t2, z2 as int, pp);
    }
    lemma_mod_add3(t0 + z0, t1 + z1, t2 + z2, pp);
    // The masks sum to a multiple of the modulus and vanish.
    assert((t0 + t1 + t2 + (z0 + z1 + z2)) % pp == (t0 + t1 + t2) % pp) by {
        lemma_add_mod_noop(t0 + t1 + t2, (z0 + z1 + z2) as int, pp);
        lemma_mod_twice(t0 + t1 + t2, pp);
    }
    lemma_mul_mod_noop(a0 + a1 + a2, b0 + b1 + b2, pp);
}

/// A vector of replicated shares in structure-of-arrays form: all the
/// parties' own sub-shares, then all the previous parties' sub-shares.
#[derive(Clone, Debug, PartialEq, Eq)]
pub struct Rep3PrimeFieldShareVec {
    /// The column of the parties' own sub-shares.
    pub a: Vec<u64>,
    /// The column of the previous parties' sub-shares.
    pub b: Vec<u64>,
}

impl Rep3PrimeFieldShareVec {
    /// Wraps the two sub-share columns.
    pub fn new(a: Vec<u64>, b: Vec<u64>) -> (r: Self)
        requires
            a.len() == b.len(),
        ensures
            r.a@ == a@ && r.b@ == b@,
    {
        Self { a, b }
    }

    /// Unwraps into the two columns.
    pub fn get_ab(self) -> (r: (Vec<u64>, Vec<u64>))
        ensures
            r.0@ == self.a@ && r.1@ == self.b@,
    {
        (self.a, self.b)
    }

    /// Whether the vector holds no shares.
    pub fn is_empty(&self) -> (r: bool)
        requires
            self.a@.len() == self.b@.len(),
        ensures
            r == (self.a@.len() == 0),
    {
        self.a.len() == 0
    }

    /// The number of shares held.
    pub fn len(&self) -> (r: usize)
        requires
            self.a@.len() == self.b@.len(),
        ensures
            r == self.a@.len(),
    {
        self.a.len()
    }

    /// Collects a vector of share pairs into the two-column form.
    pub fn from_shares(v: Vec<Rep3PrimeFieldShare>) -> (r: Self)
        ensures
            r.a@.len() == v.len() && r.b@.len() == v.len(),
            forall|i: int|
                0 <= i < v.len() ==> r.a@[i] == (#[trigger] v[i]).a && r.b@[i] == v[i].b,
    {
        let mut a: Vec<u64> = Vec::new();
        let mut b: Vec<u64> = Vec::new();
        let mut i: usize = 0;
        while i < v.len()
            invariant
                i <= v.len(),
                a.len() == i && b.len() == i,
                forall|j: int|
                    0 <= j < i ==> a[j] == (#[trigger] v[j]).a && b[j] == v[j].b,
            decreases v.len() - i,
        {
            a.push(v[i].a);
            b.push(v[i].b);
            i += 1;
        }
        Self { a, b }
    }

    /// Componentwise local addition of two share vectors.
    pub fn add(&self, rhs: &Self, p: u64) -> (r: Self)
        requires
            1 < p,
            self.a@.len() == self.b@.len(),
            rhs.a@.len() == self.a@.len(),
            rhs.b@.len() == self.b@.len(),
            forall|i: int| 0 <= i < self.a@.len() ==> in_field(#[trigger] self.a@[i], p),
            forall|i: int| 0 <= i < self.b@.len() ==> in_field(#[trigger] self.b@[i], p),
            forall|i: int| 0 <= i < rhs.a@.len() ==> in_field(#[trigger] rhs.a@[i], p),
            forall|i: int| 0 <= i < rhs.b@.len() ==> in_field(#[trigger] rhs.b@[i], p),
        ensures
            r.a@.len() == self.a@.len(),
            r.b@.len() == self.b@.len(),
            forall|i: int|
                0 <= i < self.a@.len() ==> #[trigger] r.a@[i] == (self.a@[i] + rhs.a@[i]) % (
                p as int),
            forall|i: int|
                0 <= i < self.b@.len() ==> #[trigger] r.b@[i] == (self.b@[i] + rhs.b@[i]) % (
                p as int),
    {
        let n = self.a.len();
        let mut a: Vec<u64> = Vec::new();
        let mut b: Vec<u64> = Vec::new();
        let mut i: usize = 0;
        while i < n
            invariant
                1 < p,
                i <= n,
                n == self.a@.len() && n == self.b@.len(),
                n == rhs.a@.len() && n == rhs.b@.len(),
                forall|j: int| 0 <= j < n ==> in_field(#[trigger] self.a@[j], p),
                forall|j: int| 0 <= j < n ==> in_field(#[trigger] self.b@[j], p),
                forall|j: int| 0 <= j < n ==> in_field(#[trigger] rhs.a@[j], p),
                forall|j: int| 0 <= j < n ==> in_field(#[trigger] rhs.b@[j], p),
                a.len() == i && b.len() == i,
                forall|j: int|
                    0 <= j < i ==> #[trigger] a[j] == (self.a@[j] + rhs.a@[j]) % (p as int),
                forall|j: int|
                    0 <= j < i ==> #[trigger] b[j] == (self.b@[j] + rhs.b@[j]) % (p as int),
            decreases n - i,
        {
            a.push(add_mod(self.a[i], rhs.a[i], p));
            b.push(add_mod(self.b[i], rhs.b[i], p));
            i += 1;
        }
        Self { a, b }
    }
}

} // verus!
