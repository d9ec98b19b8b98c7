use mpc_core::bits::{num_to_bits, GarbledCircuits};
use mpc_core::rep3::share;
use mpc_core::yao::{decompose_arithmetic, GCUtils};

const P: u64 = 17;
const N_BITS: usize = 5;

fn to_bits(x: u64) -> Vec<bool> {
    GCUtils::field_to_bits(x, N_BITS, P)
}

fn from_bits(bits: &Vec<bool>) -> u64 {
    GCUtils::bits_to_field(bits, P).unwrap()
}

#[test]
fn bit_conversions_round_trip() {
    for x in 0..17u64 {
        assert_eq!(from_bits(&to_bits(x)), x);
    }
    assert_eq!(to_bits(11), vec![true, true, false, true, false]);
}

#[test]
fn out_of_field_bits_are_rejected() {
    // 18 needs five bits but is no field element modulo 17.
    let bits = num_to_bits(18, 5);
    assert_eq!(GCUtils::bits_to_field(&bits, P), None);
}

#[test]
fn adders_compute_sums() {
    assert_eq!(GarbledCircuits::half_adder(true, true), (false, true));
    assert_eq!(GarbledCircuits::half_adder(true, false), (true, false));
    assert_eq!(GarbledCircuits::full_adder(true, true, true), (true, true));
    assert_eq!(GarbledCircuits::full_adder(true, false, true), (false, true));
    assert_eq!(GarbledCircuits::mux(false, true, false), true);
    assert_eq!(GarbledCircuits::mux(true, true, false), false);
}

#[test]
fn ripple_addition() {
    // 9 + 15 = 24 = 11000 in five bits with no sixth bit.
    let (sum, carry) = GarbledCircuits::bin_addition(&to_bits(9), &to_bits(15));
    let total = sum
        .iter()
        .enumerate()
        .map(|(i, b)| (*b as u64) << i)
        .sum::<u64>()
        + ((carry as u64) << 5);
    assert_eq!(total, 24);
    assert!(!carry);
    // 16 + 16 = 32 overflows the five sum bits into the carry.
    let (sum2, carry2) = GarbledCircuits::bin_addition(&to_bits(16), &to_bits(16));
    assert!(carry2);
    assert!(sum2.iter().all(|b| !*b));
}

#[test]
fn modular_adder_reduces() {
    // 9 + 15 = 24 = 7 mod 17.
    let out = GarbledCircuits::adder_mod_p(&to_bits(9), &to_bits(15), P);
    assert_eq!(from_bits(&out), 7);
    // 3 + 5 needs no reduction.
    let out2 = GarbledCircuits::adder_mod_p(&to_bits(3), &to_bits(5), P);
    assert_eq!(from_bits(&out2), 8);
    // 16 + 16 = 32 = 15 mod 17.
    let out3 = GarbledCircuits::adder_mod_p(&to_bits(16), &to_bits(16), P);
    assert_eq!(from_bits(&out3), 15);
}

#[test]
fn xor_of_bundles() {
    let r = GarbledCircuits::xor_many(&to_bits(11), &to_bits(6));
    assert_eq!(from_bits(&r), 13);
}

#[test]
fn decompose_eleven_into_two_bit_chunks() {
    // Decomposing 0b1011 with chunk_bits = 2 over total_bits = 4 yields
    // shares of [3, 2], little-endian.
    let (s0, s1, s2) = share(11, 3, 6, P);
    let k2 = vec![5u64, 1];
    let k3 = vec![2u64, 9];
    let (r0, r1, r2) =
        decompose_arithmetic(s0, s1, s2, &k2, &k3, 4, 2, N_BITS, P).unwrap();
    assert_eq!(r0.len(), 2);
    let mut opened = Vec::new();
    for j in 0..2 {
        // The chunk sharings are replicated and consistent.
        assert_eq!(r0[j].b, r2[j].a);
        assert_eq!(r1[j].b, r0[j].a);
        assert_eq!(r2[j].b, r1[j].a);
        opened.push((r0[j].a + r1[j].a + r2[j].a) % P);
    }
    assert_eq!(opened, vec![3, 2]);
    // Weighted recomposition restores the value.
    assert_eq!(opened[0] + 4 * opened[1], 11);
}

#[test]
fn decompose_full_width() {
    // All of a five-bit value in one-bit chunks.
    let (s0, s1, s2) = share(13, 1, 2, P);
    let k2 = vec![1u64, 2, 3, 4, 5];
    let k3 = vec![6u64, 7, 8, 9, 10];
    let (r0, r1, r2) =
        decompose_arithmetic(s0, s1, s2, &k2, &k3, 5, 1, N_BITS, P).unwrap();
    let mut value = 0u64;
    for j in 0..5 {
        let chunk = (r0[j].a + r1[j].a + r2[j].a) % P;
        assert!(chunk <= 1);
        value += chunk << j;
    }
    assert_eq!(value, 13);
}
