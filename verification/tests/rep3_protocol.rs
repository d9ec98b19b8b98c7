use mpc_core::field::add_mod;
use mpc_core::party::PartyID;
use mpc_core::rep3::{open, share, Rep3PrimeFieldShare};
use mpc_core::rng::Rep3Rand;

const P: u64 = 17;

fn open_all(
    s0: Rep3PrimeFieldShare,
    s1: Rep3PrimeFieldShare,
    s2: Rep3PrimeFieldShare,
) -> u64 {
    // Each party opens with the sub-share it is missing; all agree.
    let v0 = open(s0, s1.a, P);
    let v1 = open(s1, s2.a, P);
    let v2 = open(s2, s0.a, P);
    assert_eq!(v0, v1);
    assert_eq!(v1, v2);
    v0
}

#[test]
fn share_and_open_round_trip() {
    for x in [0u64, 1, 5, 16] {
        let (s0, s1, s2) = share(x, 2, 9, P);
        assert_eq!(open_all(s0, s1, s2), x);
    }
}

#[test]
fn sharing_is_replicated() {
    let (s0, s1, s2) = share(5, 2, 9, P);
    // Each party's second half is the previous party's first half.
    assert_eq!(s0.b, s2.a);
    assert_eq!(s1.b, s0.a);
    assert_eq!(s2.b, s1.a);
    // The additive sub-shares sum to the secret.
    assert_eq!((s0.a + s1.a + s2.a) % P, 5);
}

#[test]
fn addition_is_local() {
    let (x0, x1, x2) = share(7, 3, 11, P);
    let (y0, y1, y2) = share(12, 1, 6, P);
    let z0 = x0.add(y0, P);
    let z1 = x1.add(y1, P);
    let z2 = x2.add(y2, P);
    assert_eq!(open_all(z0, z1, z2), 2); // 7 + 12 = 19 = 2 mod 17
}

#[test]
fn add_public_via_promote() {
    let (x0, x1, x2) = share(7, 3, 11, P);
    let c0 = Rep3PrimeFieldShare::promote_from_trivial(4, PartyID::ID0, P);
    let c1 = Rep3PrimeFieldShare::promote_from_trivial(4, PartyID::ID1, P);
    let c2 = Rep3PrimeFieldShare::promote_from_trivial(4, PartyID::ID2, P);
    let z0 = x0.add(c0, P);
    let z1 = x1.add(c1, P);
    let z2 = x2.add(c2, P);
    assert_eq!(open_all(z0, z1, z2), 11);
}

#[test]
fn sub_neg_double_mul_public() {
    let (x0, x1, x2) = share(7, 3, 11, P);
    let (y0, y1, y2) = share(12, 1, 6, P);
    let d0 = x0.sub(y0, P);
    let d1 = x1.sub(y1, P);
    let d2 = x2.sub(y2, P);
    assert_eq!(open_all(d0, d1, d2), 12); // 7 - 12 = -5 = 12 mod 17
    let n0 = x0.neg(P);
    let n1 = x1.neg(P);
    let n2 = x2.neg(P);
    assert_eq!(open_all(n0, n1, n2), 10);
    let mut t0 = x0;
    let mut t1 = x1;
    let mut t2 = x2;
    t0.double(P);
    t1.double(P);
    t2.double(P);
    assert_eq!(open_all(t0, t1, t2), 14);
    let m0 = x0.mul_public(5, P);
    let m1 = x1.mul_public(5, P);
    let m2 = x2.mul_public(5, P);
    assert_eq!(open_all(m0, m1, m2), 1); // 35 = 1 mod 17
}

#[test]
fn squaring_five_opens_to_eight() {
    // Three parties share x = 5; multiplying the sharing with itself and
    // opening must yield 25 mod 17 = 8.
    let (x0, x1, x2) = share(5, 2, 9, P);
    // Correlated mask streams: each adjacent pair shares one seed.
    let mut r0 = Rep3Rand::new(100, 300);
    let mut r1 = Rep3Rand::new(200, 100);
    let mut r2 = Rep3Rand::new(300, 200);
    let z0 = r0.masking_field_element(P);
    let z1 = r1.masking_field_element(P);
    let z2 = r2.masking_field_element(P);
    assert_eq!((z0 + z1 + z2) % P, 0);
    // Each party's masked local product; the exchange hands each result
    // to the next party as its new second half.
    let n0 = add_mod(x0.mul(x0, P), z0, P);
    let n1 = add_mod(x1.mul(x1, P), z1, P);
    let n2 = add_mod(x2.mul(x2, P), z2, P);
    let s0 = Rep3PrimeFieldShare::new(n0, n2);
    let s1 = Rep3PrimeFieldShare::new(n1, n0);
    let s2 = Rep3PrimeFieldShare::new(n2, n1);
    assert_eq!(open_all(s0, s1, s2), 8);
}

#[test]
fn product_of_two_secrets() {
    let (x0, x1, x2) = share(7, 3, 11, P);
    let (y0, y1, y2) = share(12, 1, 6, P);
    let mut r0 = Rep3Rand::new(7, 9);
    let mut r1 = Rep3Rand::new(8, 7);
    let mut r2 = Rep3Rand::new(9, 8);
    let z0 = r0.masking_field_element(P);
    let z1 = r1.masking_field_element(P);
    let z2 = r2.masking_field_element(P);
    let n0 = add_mod(x0.mul(y0, P), z0, P);
    let n1 = add_mod(x1.mul(y1, P), z1, P);
    let n2 = add_mod(x2.mul(y2, P), z2, P);
    let s0 = Rep3PrimeFieldShare::new(n0, n2);
    let s1 = Rep3PrimeFieldShare::new(n1, n0);
    let s2 = Rep3PrimeFieldShare::new(n2, n1);
    assert_eq!(open_all(s0, s1, s2), 16); // 84 = 16 mod 17
}

#[test]
fn random_sharing_is_consistent() {
    let mut r0 = Rep3Rand::new(41, 43);
    let mut r1 = Rep3Rand::new(42, 41);
    let mut r2 = Rep3Rand::new(43, 42);
    let (a0, b0) = r0.random_fes(P);
    let (a1, b1) = r1.random_fes(P);
    let (a2, b2) = r2.random_fes(P);
    // Each party's second draw equals its previous neighbour's first.
    assert_eq!(b0, a2);
    assert_eq!(b1, a0);
    assert_eq!(b2, a1);
}

#[test]
fn zero_share_and_ab() {
    let s = Rep3PrimeFieldShare::zero_share();
    assert_eq!(s.ab(), (0, 0));
    let t = Rep3PrimeFieldShare::new(3, 4);
    assert_eq!(t.ab(), (3, 4));
}
