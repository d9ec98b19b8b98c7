use mpc_core::errors::MpcError;
use mpc_core::shamir::{
    check_lagrange, degree_reduce, eval_poly_mod, fft_shares, interpolation_weights, open_shamir,
    open_with_lagrange, promote_to_trivial_shares, share_shamir, ShamirPrimeFieldShare,
};

const P: u64 = 17;

#[test]
fn polynomial_evaluation() {
    // 10 + 3x + 7x^2 at the party points.
    let c = vec![10u64, 3, 7];
    assert_eq!(eval_poly_mod(&c, 1, P), 3);
    assert_eq!(eval_poly_mod(&c, 2, P), 10);
    assert_eq!(eval_poly_mod(&c, 3, P), 14);
    assert_eq!(eval_poly_mod(&c, 4, P), 15);
    assert_eq!(eval_poly_mod(&c, 5, P), 13);
    assert_eq!(eval_poly_mod(&c, 0, P), 10);
}

#[test]
fn five_party_sharing() {
    let shares = share_shamir(&vec![10u64, 3, 7], 5, P);
    assert_eq!(shares, vec![3, 10, 14, 15, 13]);
}

#[test]
fn any_three_of_five_reconstruct() {
    // Shamir with n = 5, t = 2, secret 10: every 3-subset reconstructs.
    let shares = share_shamir(&vec![10u64, 3, 7], 5, P);
    let subsets: [[usize; 3]; 4] = [[1, 2, 3], [2, 4, 5], [1, 3, 5], [3, 4, 5]];
    for subset in subsets {
        let xs: Vec<u64> = subset.iter().map(|&i| i as u64).collect();
        let ys: Vec<u64> = subset.iter().map(|&i| shares[i - 1]).collect();
        let w = interpolation_weights(&xs, 2, P).unwrap();
        assert_eq!(open_with_lagrange(&ys, &w, P), 10);
    }
}

#[test]
fn two_shares_do_not_determine_the_secret() {
    // Interpolating only two of the five shares at degree one misses the
    // quadratic term and lands elsewhere for this instance.
    let shares = share_shamir(&vec![10u64, 3, 7], 5, P);
    let xs = vec![1u64, 2];
    let ys = vec![shares[0], shares[1]];
    let w = interpolation_weights(&xs, 1, P).unwrap();
    assert_ne!(open_with_lagrange(&ys, &w, P), 10);
    // And another degree-two polynomial with a different secret produces
    // the same two evaluations, so the pair carries no information.
    let other = share_shamir(&vec![3u64, 5, 12], 5, P);
    assert_eq!(other[0], shares[0]);
    assert_eq!(other[1], shares[1]);
}

#[test]
fn weights_pass_the_power_sum_check() {
    let xs = vec![1u64, 2, 3];
    let w = interpolation_weights(&xs, 2, P).unwrap();
    assert_eq!(w, vec![3, 14, 1]);
    assert!(check_lagrange(&w, &xs, 2, P));
    // Degraded weights fail the check.
    let bad = vec![3u64, 14, 2];
    assert!(!check_lagrange(&bad, &xs, 2, P));
}

#[test]
fn empty_quorum_is_rejected() {
    let xs: Vec<u64> = vec![];
    assert_eq!(interpolation_weights(&xs, 0, P), None);
}

#[test]
fn repeated_points_are_rejected() {
    // A repeated evaluation point has no invertible difference.
    let xs = vec![1u64, 2, 2];
    assert_eq!(interpolation_weights(&xs, 2, P), None);
}

#[test]
fn local_addition_and_public_operations() {
    let p_shares = share_shamir(&vec![10u64, 3, 7], 5, P);
    let q_shares = share_shamir(&vec![4u64, 2, 1], 5, P);
    let xs = vec![1u64, 2, 3];
    let w = interpolation_weights(&xs, 2, P).unwrap();
    // Sum of shares opens to the sum of the secrets.
    let sum: Vec<u64> = (0..3)
        .map(|i| {
            ShamirPrimeFieldShare::new(p_shares[i])
                .add(ShamirPrimeFieldShare::new(q_shares[i]), P)
                .a
        })
        .collect();
    assert_eq!(open_with_lagrange(&sum, &w, P), 14);
    // Adding a public constant shifts the secret.
    let shifted: Vec<u64> = (0..3)
        .map(|i| ShamirPrimeFieldShare::new(p_shares[i]).add_public(5, P).a)
        .collect();
    assert_eq!(open_with_lagrange(&shifted, &w, P), 15);
    // Multiplying by a public constant scales the secret.
    let scaled: Vec<u64> = (0..3)
        .map(|i| ShamirPrimeFieldShare::new(p_shares[i]).mul_public(3, P).a)
        .collect();
    assert_eq!(open_with_lagrange(&scaled, &w, P), 13);
    // Subtraction mirrors addition.
    let diff: Vec<u64> = (0..3)
        .map(|i| {
            ShamirPrimeFieldShare::new(p_shares[i])
                .sub(ShamirPrimeFieldShare::new(q_shares[i]), P)
                .a
        })
        .collect();
    assert_eq!(open_with_lagrange(&diff, &w, P), 6);
}

#[test]
fn product_opens_with_doubled_degree_weights() {
    // The local product doubles the degree to 2t = 4, so the full
    // quorum of 5 evaluations reconstructs x * y = 40 mod 17 = 6.
    let p_shares = share_shamir(&vec![10u64, 3, 7], 5, P);
    let q_shares = share_shamir(&vec![4u64, 2, 1], 5, P);
    let xs = vec![1u64, 2, 3, 4, 5];
    let w = interpolation_weights(&xs, 4, P).unwrap();
    let d: Vec<u64> = (0..5)
        .map(|i| {
            ShamirPrimeFieldShare::new(p_shares[i])
                .mul(ShamirPrimeFieldShare::new(q_shares[i]), P)
                .a
        })
        .collect();
    assert_eq!(open_with_lagrange(&d, &w, P), 6);
    // Only t + 1 = 3 evaluations of the doubled-degree product are not
    // enough: the degree-two weights reconstruct the wrong value here.
    let w3 = interpolation_weights(&vec![1u64, 2, 3], 2, P).unwrap();
    assert_ne!(open_with_lagrange(&d[0..3].to_vec(), &w3, P), 6);
}

#[test]
fn trivial_shares_carry_the_public_values() {
    let publics = vec![3u64, 0, 16];
    let shares = promote_to_trivial_shares(&publics);
    assert_eq!(shares.len(), 3);
    for (s, v) in shares.iter().zip(publics.iter()) {
        assert_eq!(s.a, *v);
    }
}

#[test]
fn opening_needs_a_full_quorum() {
    let shares = share_shamir(&vec![10u64, 3, 7], 5, P);
    // Three evaluations are a quorum for threshold two.
    let xs = vec![1u64, 2, 3];
    let ys = shares[0..3].to_vec();
    assert_eq!(open_shamir(&ys, &xs, 2, P), Ok(10));
    // Two are not: no partial reconstruction is attempted.
    assert_eq!(
        open_shamir(&ys[0..2].to_vec(), &xs[0..2].to_vec(), 2, P),
        Err(MpcError::InvalidInput)
    );
    // Coinciding points leave no usable weights.
    assert_eq!(
        open_shamir(&vec![3u64, 10, 10], &vec![1u64, 2, 2], 2, P),
        Err(MpcError::InvalidData)
    );
}

#[test]
fn multiplication_with_degree_reduction() {
    // Full multiplication: local products double the degree; each party
    // reshares its product as a fresh degree-two polynomial, and the
    // weighted combination brings the sharing back to threshold two.
    let p_shares = share_shamir(&vec![10u64, 3, 7], 5, P);
    let q_shares = share_shamir(&vec![4u64, 2, 1], 5, P);
    let d: Vec<u64> = (0..5).map(|i| (p_shares[i] * q_shares[i]) % P).collect();
    // Fresh resharing randomness per party; constant term is the product
    // evaluation being reshared.
    let rands: [[u64; 2]; 5] = [[3, 8], [1, 16], [12, 2], [7, 7], [0, 5]];
    let reshares: Vec<Vec<u64>> = (0..5)
        .map(|j| vec![d[j], rands[j][0], rands[j][1]])
        .collect();
    let all = vec![1u64, 2, 3, 4, 5];
    let w4 = interpolation_weights(&all, 4, P).unwrap();
    let reduced = degree_reduce(&reshares, &w4, 5, P);
    assert_eq!(reduced.len(), 5);
    // Any three of the reduced shares now suffice: the degree is t again.
    let w2 = interpolation_weights(&vec![1u64, 2, 3], 2, P).unwrap();
    assert_eq!(open_with_lagrange(&reduced[0..3].to_vec(), &w2, P), 6);
    let w2b = interpolation_weights(&vec![2u64, 4, 5], 2, P).unwrap();
    let ys: Vec<u64> = vec![reduced[1], reduced[3], reduced[4]];
    assert_eq!(open_with_lagrange(&ys, &w2b, P), 6);
}

#[test]
fn transform_evaluates_at_root_powers() {
    // 10 + 3x + 7x^2 at the powers 1, 2, 4, 8 of the domain root 2.
    let coeffs = vec![
        ShamirPrimeFieldShare::new(10),
        ShamirPrimeFieldShare::new(3),
        ShamirPrimeFieldShare::new(7),
    ];
    let evals = fft_shares(&coeffs, 2, 4, P);
    let values: Vec<u64> = evals.iter().map(|s| s.a).collect();
    assert_eq!(values, vec![3, 10, 15, 6]);
    // The inverse direction is interpolation: the constant term comes
    // back by interpolating the evaluations at zero over their points.
    let w = interpolation_weights(&vec![1u64, 2, 4], 2, P).unwrap();
    assert_eq!(open_with_lagrange(&values[0..3].to_vec(), &w, P), 10);
}
