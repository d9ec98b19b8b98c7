use mpc_core::errors::MpcError;
use mpc_core::rep3::share;
use mpc_core::rng::Prng;
use mpc_core::yao::{
    decompose_arithmetic_many, input_field_id2, joint_input_arithmetic,
    joint_input_arithmetic_added, joint_input_binary_xored, GCUtils,
};

const P: u64 = 17;
const N_BITS: usize = 5;

fn check_encodes(b: &mpc_core::yao::GCInputs, value: u64, n: usize) {
    assert_eq!(b.garbler_wires.len(), n);
    assert_eq!(b.evaluator_wires.len(), n);
    let mut v = 0u64;
    for i in 0..n {
        let bit = b.garbler_wires[i] != b.evaluator_wires[i];
        if bit {
            assert_eq!(b.evaluator_wires[i], b.garbler_wires[i] ^ b.delta);
            v |= 1 << i;
        }
    }
    assert_eq!(v, value);
}

#[test]
fn joint_arithmetic_input_encodes_both_halves() {
    let (s0, s1, s2) = share(11, 3, 6, P);
    let _ = s0;
    let mut rng = Prng::new(1234);
    let delta = GCUtils::random_delta();
    let (b01, b2) =
        joint_input_arithmetic_added(s1, s2.a, Some(delta), N_BITS, P, &mut rng).unwrap();
    // Party one feeds x1 + x0, party two feeds x2; together the secret.
    let x01 = (s1.a + s1.b) % P;
    check_encodes(&b01, x01, N_BITS);
    check_encodes(&b2, s2.a, N_BITS);
    assert_eq!((x01 + s2.a) % P, 11);
}

#[test]
fn missing_delta_is_invalid_input() {
    let (_, s1, s2) = share(11, 3, 6, P);
    let mut rng = Prng::new(1234);
    assert_eq!(
        joint_input_arithmetic_added(s1, s2.a, None, N_BITS, P, &mut rng).unwrap_err(),
        MpcError::InvalidInput
    );
    assert_eq!(
        joint_input_binary_xored(1, 2, 3, None, 4, &mut rng).unwrap_err(),
        MpcError::InvalidInput
    );
    let delta = GCUtils::random_delta();
    assert_eq!(
        input_field_id2(None, Some(delta), N_BITS, P, &mut rng).unwrap_err(),
        MpcError::InvalidInput
    );
}

#[test]
fn joint_arithmetic_input_three_bundles() {
    // The three-bundle conversion: one bundle per additive sub-share,
    // the middle one derived from the stream both garblers hold.
    let (s0, s1, s2) = share(9, 4, 7, P);
    let _ = s0;
    let mut shared = Prng::new(5555);
    let mut own = Prng::new(6666);
    let delta = GCUtils::random_delta();
    let (b0, b1, b2) =
        joint_input_arithmetic(s1, s2, Some(delta), N_BITS, P, &mut shared, &mut own).unwrap();
    check_encodes(&b0, s1.b, N_BITS);
    check_encodes(&b1, s1.a, N_BITS);
    check_encodes(&b2, s2.a, N_BITS);
    // The three encoded sub-shares reassemble the secret.
    assert_eq!((s1.b + s1.a + s2.a) % P, 9);
    // Both garbler roles derive the same middle bundle from the stream.
    let mut shared_again = Prng::new(5555);
    let mut own2 = Prng::new(8888);
    let (_, b1_again, _) =
        joint_input_arithmetic(s1, s2, Some(delta), N_BITS, P, &mut shared_again, &mut own2)
            .unwrap();
    assert_eq!(b1.garbler_wires, b1_again.garbler_wires);
    assert_eq!(b1.evaluator_wires, b1_again.evaluator_wires);
}

#[test]
fn joint_binary_input_xors_the_garbler_halves() {
    let mut rng = Prng::new(77);
    let delta = GCUtils::random_delta();
    let (b01, b2) = joint_input_binary_xored(0b1010, 0b0110, 0b0011, Some(delta), 4, &mut rng)
        .unwrap();
    check_encodes(&b01, 0b1100, 4);
    check_encodes(&b2, 0b0011, 4);
}

#[test]
fn id2_feeds_a_public_field_element() {
    let mut rng = Prng::new(9);
    let delta = GCUtils::random_delta();
    let b = input_field_id2(Some(13), Some(delta), N_BITS, P, &mut rng).unwrap();
    check_encodes(&b, 13, N_BITS);
}

#[test]
fn batched_decomposition_matches_the_single_case() {
    let (x0, x1, x2) = share(11, 3, 6, P);
    let (y0, y1, y2) = share(6, 1, 2, P);
    let k2 = vec![vec![5u64, 1], vec![2u64, 3]];
    let k3 = vec![vec![2u64, 9], vec![4u64, 8]];
    let out = decompose_arithmetic_many(
        &vec![x0, y0],
        &vec![x1, y1],
        &vec![x2, y2],
        &k2,
        &k3,
        4,
        2,
        N_BITS,
        P,
    )
    .unwrap();
    assert_eq!(out.len(), 2);
    let expected = [[3u64, 2], [2u64, 1]]; // 11 = 10 11, 6 = 01 10, little-endian chunks
    for (t, (r0, r1, r2)) in out.iter().enumerate() {
        for j in 0..2 {
            let v = (r0[j].a + r1[j].a + r2[j].a) % P;
            assert_eq!(v, expected[t][j]);
        }
    }
}
