use mpc_core::field::{add_mod, inv_mod, mul_mod, neg_mod, pow_mod, sub_mod};

#[test]
fn add_sub_neg_small_prime() {
    let p = 17u64;
    assert_eq!(add_mod(9, 15, p), 7);
    assert_eq!(add_mod(0, 0, p), 0);
    assert_eq!(sub_mod(3, 5, p), 15);
    assert_eq!(sub_mod(5, 3, p), 2);
    assert_eq!(neg_mod(0, p), 0);
    assert_eq!(neg_mod(5, p), 12);
}

#[test]
fn mul_and_pow() {
    let p = 17u64;
    assert_eq!(mul_mod(5, 5, p), 8);
    assert_eq!(mul_mod(16, 16, p), 1);
    assert_eq!(pow_mod(2, 4, p), 16);
    assert_eq!(pow_mod(3, 0, p), 1);
    assert_eq!(pow_mod(2, 16, p), 1);
    // A large modulus exercises the wide intermediate product.
    let q = 0xffff_ffff_0000_0001u64;
    assert_eq!(mul_mod(q - 1, q - 1, q), 1);
}

#[test]
fn inverse_exists_for_prime_modulus() {
    let p = 17u64;
    for a in 1..17u64 {
        let inv = inv_mod(a, p).unwrap();
        assert_eq!(mul_mod(a, inv, p), 1);
    }
    assert_eq!(inv_mod(5, p), Some(7));
}

#[test]
fn inverse_fails_when_not_coprime() {
    // 3 shares a factor with 9, so no inverse can pass the check.
    assert_eq!(inv_mod(3, 9), None);
    // 0 never has an inverse.
    assert_eq!(inv_mod(0, 17), None);
}
