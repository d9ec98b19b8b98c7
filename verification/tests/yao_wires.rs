use mpc_core::errors::MpcError;
use mpc_core::rng::Prng;
use mpc_core::yao::GCUtils;

const P: u64 = 17;
const N_BITS: usize = 5;

#[test]
fn random_delta_has_its_color_bit_set() {
    for _ in 0..8 {
        let d = GCUtils::random_delta();
        assert_eq!(d & 1, 1);
    }
}

#[test]
fn encode_wire_obeys_free_xor() {
    let mut rng = Prng::new(12345);
    let delta = 0xdead_beef_dead_beef_dead_beef_dead_beefu128 | 1;
    let (zero, one_enc) = GCUtils::encode_wire(&mut rng, delta, true);
    assert_eq!(one_enc, zero ^ delta);
    let (zero2, zero_enc) = GCUtils::encode_wire(&mut rng, delta, false);
    assert_eq!(zero_enc, zero2);
    // Labels differ from wire to wire.
    assert_ne!(zero, zero2);
}

#[test]
fn encoded_field_satisfies_the_invariant() {
    let mut rng = Prng::new(777);
    let delta = GCUtils::random_delta();
    let x = 11u64;
    let inputs = GCUtils::encode_field(x, N_BITS, P, &mut rng, delta);
    let bits = GCUtils::field_to_bits(x, N_BITS, P);
    assert_eq!(inputs.garbler_wires.len(), N_BITS);
    assert_eq!(inputs.evaluator_wires.len(), N_BITS);
    for i in 0..N_BITS {
        let offset = if bits[i] { delta } else { 0 };
        assert_eq!(
            inputs.evaluator_wires[i],
            inputs.garbler_wires[i] ^ offset
        );
        // The color of the evaluator wire hides the bit behind the
        // garbler wire's random color.
        let cg = inputs.garbler_wires[i] & 1 == 1;
        let ce = inputs.evaluator_wires[i] & 1 == 1;
        assert_eq!(ce, cg ^ bits[i]);
    }
}

#[test]
fn and_gate_evaluates_correctly_for_all_inputs() {
    let mut rng = Prng::new(99);
    let delta = GCUtils::random_delta();
    let a0 = GCUtils::random_block(&mut rng);
    let b0 = GCUtils::random_block(&mut rng);
    let (gate0, gate1, gout) = GCUtils::garble_and_gate(7, a0, b0, delta);
    for va in [false, true] {
        for vb in [false, true] {
            let wa = a0 ^ if va { delta } else { 0 };
            let wb = b0 ^ if vb { delta } else { 0 };
            let wout = GCUtils::evaluate_and_gate(7, wa, wb, gate0, gate1);
            let expected = gout ^ if va && vb { delta } else { 0 };
            assert_eq!(wout, expected);
        }
    }
}

#[test]
fn gate_hash_is_no_identity() {
    // Were the block hash the identity, the garbler's output
    // label would collapse to this XOR of the input labels; the digest
    // must not.
    let mut rng = Prng::new(5);
    let delta = GCUtils::random_delta();
    let a0 = GCUtils::random_block(&mut rng);
    let b0 = GCUtils::random_block(&mut rng);
    let (_, _, gout) = GCUtils::garble_and_gate(3, a0, b0, delta);
    let alpha = a0 & 1 == 1;
    let r = b0 & 1 == 1;
    let x1 = a0 ^ if alpha { delta } else { 0 };
    let y1 = b0 ^ if r { delta } else { 0 };
    let identity_prediction = x1 ^ if alpha && r { delta } else { 0 } ^ y1;
    assert_ne!(gout, identity_prediction);
}

#[test]
fn gates_bind_to_their_position() {
    // The tweak separates gates: the same labels garbled at another
    // position give other ciphertexts.
    let mut rng = Prng::new(6);
    let delta = GCUtils::random_delta();
    let a0 = GCUtils::random_block(&mut rng);
    let b0 = GCUtils::random_block(&mut rng);
    let g1 = GCUtils::garble_and_gate(1, a0, b0, delta);
    let g2 = GCUtils::garble_and_gate(2, a0, b0, delta);
    assert_ne!(g1.0, g2.0);
}

#[test]
fn garbled_circuits_error_maps_failures() {
    let ok: Result<u64, &str> = Ok(5);
    assert_eq!(GCUtils::garbled_circuits_error(ok), Ok(5));
    let err: Result<u64, &str> = Err("gate");
    assert_eq!(
        GCUtils::garbled_circuits_error(err),
        Err(MpcError::GarbledCircuit)
    );
}
