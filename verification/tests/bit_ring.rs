use mpc_core::bit::Bit;
use mpc_core::errors::MpcError;
use mpc_core::party::PartyID;
use mpc_core::ring::{RingElement, Rep3RingShare};
use mpc_core::rng::Rep3Rand;

#[test]
fn bit_construction_and_conversion() {
    assert!(Bit::new(true).convert());
    assert!(!Bit::new(false).convert());
    assert_eq!(Bit::try_from_u8(0).unwrap().convert(), false);
    assert_eq!(Bit::try_from_u8(1).unwrap().convert(), true);
    assert_eq!(Bit::try_from_u8(2), Err(MpcError::InvalidInput));
    assert_eq!(Bit::new(true).to_u8(), 1);
    assert_eq!(Bit::from_bool(false).to_u8(), 0);
    assert_eq!(Bit::try_from_usize(0).unwrap().convert(), false);
    assert_eq!(Bit::try_from_usize(1).unwrap().convert(), true);
    assert_eq!(Bit::try_from_usize(7), Err(MpcError::InvalidInput));
    assert_eq!(Bit::new(true).to_usize(), 1);
    assert_eq!(Bit::new(false).to_usize(), 0);
}

#[test]
fn bit_ring_arithmetic() {
    let zero = Bit::zero();
    let one = Bit::one();
    assert!(zero.is_zero());
    assert!(!one.is_zero());
    // Addition and subtraction are exclusive or.
    assert!(one.add(zero).convert());
    assert!(!one.add(one).convert());
    assert!(one.wrapping_add(zero).convert());
    assert!(!one.sub(one).convert());
    assert!(one.wrapping_sub(zero).convert());
    // Multiplication is conjunction.
    assert!(one.mul(one).convert());
    assert!(!one.mul(zero).convert());
    assert!(!zero.wrapping_mul(one).convert());
    // Negation is the identity.
    assert!(one.neg().convert());
    assert!(one.wrapping_neg().convert());
    // The boolean connectives.
    assert!(one.bitxor(zero).convert());
    assert!(one.bitor(zero).convert());
    assert!(!zero.bitand(one).convert());
    assert!(zero.not().convert());
}

#[test]
fn bit_shifts_clear_unless_zero_distance() {
    let one = Bit::one();
    assert!(one.shl(0).convert());
    assert!(!one.shl(1).convert());
    assert!(one.shr(0).convert());
    assert!(!one.shr(3).convert());
    assert!(one.wrapping_shl(0).convert());
    assert!(!one.wrapping_shr(2).convert());
}

#[test]
fn ring_elements_wrap() {
    let max = RingElement(u64::MAX);
    let one = RingElement::one();
    assert_eq!(max.wrapping_add(one), RingElement(0));
    assert_eq!(RingElement(0).wrapping_sub(one), max);
    assert_eq!(one.wrapping_neg(), max);
    assert_eq!(max.wrapping_mul(RingElement(2)), RingElement(u64::MAX - 1));
    assert_eq!(RingElement(0b1100).bitxor(RingElement(0b1010)), RingElement(0b0110));
    assert_eq!(RingElement(0b1100).bitand(RingElement(0b1010)), RingElement(0b1000));
}

#[test]
fn ring_share_construction() {
    let s = Rep3RingShare::new(3, 4);
    assert_eq!(s.ab(), (RingElement(3), RingElement(4)));
    let z = Rep3RingShare::zero_share();
    assert_eq!(z.ab(), (RingElement(0), RingElement(0)));
    let r = Rep3RingShare::new_ring(RingElement(7), RingElement(8));
    assert_eq!(r.a, RingElement(7));
    assert_eq!(r.b, RingElement(8));
}

#[test]
fn ring_share_double_wraps() {
    let mut s = Rep3RingShare::new(u64::MAX, 1);
    s.double();
    assert_eq!(s.a, RingElement(u64::MAX - 1));
    assert_eq!(s.b, RingElement(2));
}

#[test]
fn ring_promote_trivial() {
    let v = RingElement(9);
    let s0 = Rep3RingShare::promote_from_trivial(&v, PartyID::ID0);
    let s1 = Rep3RingShare::promote_from_trivial(&v, PartyID::ID1);
    let s2 = Rep3RingShare::promote_from_trivial(&v, PartyID::ID2);
    // The three promoted shares are consistent and sum to the value.
    assert_eq!(s0.b, s2.a);
    assert_eq!(s1.b, s0.a);
    assert_eq!(s2.b, s1.a);
    assert_eq!(
        s0.a.wrapping_add(s1.a).wrapping_add(s2.a),
        v
    );
}

#[test]
fn ring_share_add_sub_open() {
    let x = (Rep3RingShare::new(5, 20), Rep3RingShare::new(7, 5), Rep3RingShare::new(20, 7));
    let y = (Rep3RingShare::new(1, 3), Rep3RingShare::new(2, 1), Rep3RingShare::new(3, 2));
    let z0 = x.0.add(y.0);
    let z1 = x.1.add(y.1);
    let z2 = x.2.add(y.2);
    // 32 + 6 = 38, reconstructed from any party's view.
    assert_eq!(z0.a.wrapping_add(z0.b).wrapping_add(z1.a), RingElement(38));
    assert_eq!(z0.a.wrapping_add(z1.a).wrapping_add(z2.a), RingElement(38));
    let d0 = x.0.sub(y.0);
    let d1 = x.1.sub(y.1);
    let d2 = x.2.sub(y.2);
    assert_eq!(d0.a.wrapping_add(d1.a).wrapping_add(d2.a), RingElement(26));
}

#[test]
fn random_ring_shares_replicate() {
    let mut r0 = Rep3Rand::new(11, 13);
    let mut r1 = Rep3Rand::new(12, 11);
    let mut r2 = Rep3Rand::new(13, 12);
    let s0 = Rep3RingShare::random(&mut r0);
    // Determinism: the same seeds give the same share again.
    let mut r0b = Rep3Rand::new(11, 13);
    let s0b = Rep3RingShare::random(&mut r0b);
    assert_eq!(s0, s0b);
    let s1 = Rep3RingShare::random(&mut r1);
    let s2 = Rep3RingShare::random(&mut r2);
    assert_eq!(s0.b, s2.a);
    assert_eq!(s1.b, s0.a);
    assert_eq!(s2.b, s1.a);
}
