use mpc_core::pointshare::{
    msm_public_points, open_two_points, open_two_rep3_points, Rep3PointShare, ShamirPointShare,
};
use mpc_core::rep3::{share, Rep3PrimeFieldShare, Rep3PrimeFieldShareVec};
use mpc_core::shamir::{
    distribute_powers_and_mul_by_const, evaluate_constraint, interpolation_weights, local_mul_vec,
    open_with_lagrange, share_shamir, ShamirPrimeFieldShare,
};

const P: u64 = 17;

#[test]
fn point_share_linear_operations() {
    // The group is modelled as the integers modulo the group order; a
    // point sharing is opened like a field sharing.
    let (s0, s1, s2) = share(5, 2, 9, P);
    let p0 = Rep3PointShare::new(s0.a, s0.b);
    let p1 = Rep3PointShare::new(s1.a, s1.b);
    let g = 3u64; // the public point
    let q0 = Rep3PointShare::scalar_mul_public_point(g, s0, P);
    let q1 = Rep3PointShare::scalar_mul_public_point(g, s1, P);
    let q2 = Rep3PointShare::scalar_mul_public_point(g, s2, P);
    // 3 * 5 = 15 in the group.
    assert_eq!(q0.open_point(q1.a, P), 15);
    assert_eq!((q0.a + q1.a + q2.a) % P, 15);
    let sum = p0.add_points(p1, P);
    assert_eq!(sum.a, (s0.a + s1.a) % P);
    let diff = p0.sub_points(p1, P);
    assert_eq!(diff.a, (P + s0.a - s1.a % P) % P);
}

#[test]
fn rep3_msm_combines_scalars() {
    // <points, secrets> = 2*3 + 5*4 = 26 = 9 mod 17.
    let (x0, x1, x2) = share(3, 1, 1, P);
    let (y0, y1, y2) = share(4, 2, 2, P);
    let points = vec![2u64, 5];
    let m0 = msm_public_points(&points, &vec![x0, y0], P);
    let m1 = msm_public_points(&points, &vec![x1, y1], P);
    let m2 = msm_public_points(&points, &vec![x2, y2], P);
    assert_eq!((m0.a + m1.a + m2.a) % P, 9);
    // The replication is preserved columnwise.
    assert_eq!(m0.b, m2.a);
}

#[test]
fn shamir_point_shares_open() {
    let shares = share_shamir(&vec![10u64, 3, 7], 5, P);
    let xs = vec![1u64, 2, 3];
    let w = interpolation_weights(&xs, 2, P).unwrap();
    let mut pts: Vec<ShamirPointShare> = Vec::new();
    for i in 0..3 {
        let mut s = ShamirPointShare::new(shares[i]);
        s.add_assign(ShamirPointShare::new(0), P);
        pts.push(s);
    }
    let ys: Vec<u64> = pts.iter().map(|s| s.a).collect();
    assert_eq!(open_with_lagrange(&ys, &w, P), 10);
}

#[test]
fn two_point_opening() {
    // A degree-2t opening and a degree-t opening side by side.
    let p_shares = share_shamir(&vec![10u64, 3, 7], 5, P);
    let q_shares = share_shamir(&vec![4u64, 2, 1], 5, P);
    let d: Vec<u64> = (0..5).map(|i| (p_shares[i] * q_shares[i]) % P).collect();
    let all = vec![1u64, 2, 3, 4, 5];
    let w4 = interpolation_weights(&all, 4, P).unwrap();
    let xs = vec![1u64, 2, 3];
    let w2 = interpolation_weights(&xs, 2, P).unwrap();
    let (prod, single) = open_two_points(&d, &w4, &p_shares[0..3].to_vec(), &w2, P);
    assert_eq!(prod, 6); // 40 mod 17
    assert_eq!(single, 10);
}

#[test]
fn constraint_evaluation_mixes_public_and_shared() {
    // lhs = 3 * pub[0] + 2 * wit[0], with pub = [5] and wit sharing 7.
    let publics = vec![5u64];
    let wits = vec![ShamirPrimeFieldShare::new(7)];
    let lhs = vec![(3u64, 0usize), (2u64, 1usize)];
    let r = evaluate_constraint(&lhs, &publics, &wits, P);
    assert_eq!(r.a, (3 * 5 + 2 * 7) % P); // 29 mod 17 = 12
}

#[test]
fn twiddle_application_is_pointwise() {
    let mut coeffs = vec![
        ShamirPrimeFieldShare::new(3),
        ShamirPrimeFieldShare::new(10),
        ShamirPrimeFieldShare::new(14),
    ];
    let roots = vec![1u64, 2, 4];
    distribute_powers_and_mul_by_const(&mut coeffs, &roots, P);
    assert_eq!(coeffs[0].a, 3);
    assert_eq!(coeffs[1].a, 3); // 20 mod 17
    assert_eq!(coeffs[2].a, 5); // 56 mod 17
}

#[test]
fn local_vector_products() {
    let a = vec![ShamirPrimeFieldShare::new(3), ShamirPrimeFieldShare::new(4)];
    let b = vec![ShamirPrimeFieldShare::new(5), ShamirPrimeFieldShare::new(6)];
    assert_eq!(local_mul_vec(&a, &b, P), vec![15, 7]);
}

#[test]
fn share_vector_round_trip() {
    let (x0, _, _) = share(7, 3, 11, P);
    let (y0, _, _) = share(12, 1, 6, P);
    let v = Rep3PrimeFieldShareVec::from_shares(vec![x0, y0]);
    assert!(!v.is_empty());
    assert_eq!(v.len(), 2);
    let w = Rep3PrimeFieldShareVec::new(vec![1, 2], vec![3, 4]);
    let s = v.add(&w, P);
    let (a, b) = s.get_ab();
    assert_eq!(a, vec![(x0.a + 1) % P, (y0.a + 2) % P]);
    assert_eq!(b, vec![(x0.b + 3) % P, (y0.b + 4) % P]);
    let empty = Rep3PrimeFieldShareVec::new(vec![], vec![]);
    assert!(empty.is_empty());
}

#[test]
fn dual_group_opening() {
    // One point share in a group of order 17, one in a group of order 13.
    let (a0, a1, _) = share(5, 2, 9, 17);
    let (b0, b1, _) = share(6, 1, 4, 13);
    let pa = Rep3PointShare::new(a0.a, a0.b);
    let pb = Rep3PointShare::new(b0.a, b0.b);
    let (va, vb) = open_two_rep3_points(pa, a1.a, 17, pb, b1.a, 13);
    assert_eq!(va, 5);
    assert_eq!(vb, 6);
}
