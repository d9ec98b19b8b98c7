//! Wire labels and half-gate garbling for Yao's protocol.
//!
//! A wire label is a 128-bit block; its lowest bit is the public "color".
//! The garbler fixes one odd global offset (the delta) per circuit, and a
//! wire carrying the bit `b` is the wire's zero label XORed with `b`
//! times the delta — the free-XOR encoding.  AND gates use the two-halves
//! construction: the garbler publishes two ciphertext blocks per gate and
//! the evaluator reconstructs the output label from its colors alone.

use crate::bits::bits_value;
use crate::field::{add_mod, in_field};
use crate::rng::{xorshift_step, Prng};
use rand::distributions::{Distribution, Standard};
use sha3::Digest;
use vstd::arithmetic::power2::{lemma2_to64, lemma_pow2_adds, pow2};
use vstd::prelude::*;

verus! {

/// What the block hash used by the half gates returns; the digest is a
/// function of the hashed block and the per-gate tweak alone.
pub uninterp spec fn gc_hash_of(block: u128, tweak: u128) -> u128;

/// Relies on sha3::Sha3_256 through the digest traits: hashes the block
/// together with a per-gate tweak; the digest depends on those bytes alone.
#[verifier::external_body]
fn gc_hash(block: u128, tweak: u128) -> (r: u128)
    ensures
        r == gc_hash_of(block, tweak),
{
    let mut h = sha3::Sha3_256::new();
    h.update(block.to_le_bytes());
    h.update(tweak.to_le_bytes());
    let d = h.finalize();
    let mut bytes = [0u8; 16];
    bytes.copy_from_slice(&d[..16]);
    u128::from_le_bytes(bytes)
}

pub assume_specification<T>[ rand::random::<T> ]() -> (r: T)
    where
        Standard: Distribution<T>,
;

/// The public color of a wire label: its lowest bit.
pub open spec fn color(w: u128) -> bool {
    w & 1 == 1
}

/// The delta, when the bit is set; the zero block otherwise.
pub open spec fn sel(b: bool, d: u128) -> u128 {
    if b {
        d
    } else {
        0
    }
}

/// The label a wire carries for a bit value: the zero label, offset by
/// the delta exactly when the bit is set.
pub open spec fn wire_label(zero: u128, b: bool, d: u128) -> u128 {
    zero ^ sel(b, d)
}

/// The free-XOR invariant of an encoded bundle: each evaluator wire is
/// the matching garbler wire XORed with delta times the encoded bit.
pub open spec fn free_xor_ok(g: Seq<u128>, e: Seq<u128>, delta: u128, bits: Seq<bool>) -> bool {
    &&& g.len() == e.len()
    &&& bits.len() == g.len()
    &&& forall|i: int| 0 <= i < g.len() ==> e[i] == wire_label(#[trigger] g[i], bits[i], delta)
}

/// A structure that contains both the garbler's and the evaluator's wires.
#[derive(Debug)]
pub struct GCInputs {
    /// The wires of the garbler: the random zero labels.
    pub garbler_wires: Vec<u128>,
    /// The wires of the evaluator: the zero labels offset by delta times
    /// the encoded bit.
    pub evaluator_wires: Vec<u128>,
    /// The global offset used for the encoding, known to the garbler.
    pub delta: u128,
}

/// XOR identities used throughout the label algebra.
proof fn lemma_xor_basics(a: u128, b: u128)
    ensures
        a ^ 0 == a,
        a ^ a == 0,
        a ^ b == b ^ a,
{
    assert(a ^ 0 == a && a ^ a == 0 && (a ^ b) == (b ^ a)) by (bit_vector);
}

/// XORing an odd offset flips a label's color.
proof fn lemma_color_flip(w: u128, d: u128)
    requires
        d & 1 == 1,
    ensures
        color(w ^ d) == !color(w),
{
    assert((w ^ d) & 1 == 1 <==> !(w & 1 == 1)) by (bit_vector)
        requires
            d & 1 == 1,
    ;
}

/// This struct contains useful utility functions for garbled circuits.
pub struct GCUtils {}

impl GCUtils {
    /// Samples a random delta: an arbitrary block with its color bit set.
    /// Relies on rand::random for the raw block.
    pub fn random_delta() -> (r: u128)
        ensures
            r & 1 == 1,
    {
        let x: u128 = rand::random();
        let r = x | 1;
        proof {
            assert((x | 1) & 1 == 1) by (bit_vector);
        }
        r
    }

    /// Maps any failure inside the garbling machinery to the library's
    /// error type, keeping a success unchanged.
    pub fn garbled_circuits_error<T, G>(input: Result<T, G>) -> (r: Result<
        T,
        crate::errors::MpcError,
    >)
        ensures
            r is Ok <==> input is Ok,
            input is Ok ==> r == Ok::<T, crate::errors::MpcError>(input->Ok_0),
    {
        match input {
            Ok(t) => Ok(t),
            Err(_) => Err(crate::errors::MpcError::GarbledCircuit),
        }
    }

    /// Converts little-endian bits into a field element; rejects a value
    /// that does not lie in the field.
    pub fn bits_to_field(bits: &Vec<bool>, p: u64) -> (r: Option<u64>)
        requires
            1 < p,
            bits.len() <= 127,
        ensures
            r.is_some() <==> bits_value(bits@) < p,
            r.is_some() ==> r.unwrap() == bits_value(bits@),
    {
        let mut acc: u128 = 0;
        let mut i: usize = bits.len();
        proof {
            assert(bits@.skip(bits.len() as int) =~= Seq::<bool>::empty());
            lemma2_to64();
            assert(pow2(0) == 1);
        }
        while i > 0
            invariant
                i <= bits.len(),
                bits.len() <= 127,
                acc == bits_value(bits@.skip(i as int)),
                acc < pow2((bits@.len() - i) as nat),
            decreases i,
        {
            i -= 1;
            proof {
                let cur = bits@.skip(i as int);
                assert(cur.drop_first() =~= bits@.skip(i as int + 1));
                assert(cur[0] == bits@[i as int]);
                vstd::arithmetic::power2::lemma_pow2_unfold((bits@.len() - i) as nat);
                vstd::arithmetic::power2::lemma_pow2_strictly_increases(
                    (bits@.len() - i) as nat,
                    128,
                );
                assert(pow2(128) == 0x1_0000_0000_0000_0000_0000_0000_0000_0000) by {
                    lemma_pow2_adds(64, 64);
                    lemma2_to64();
                }
            }
            acc = 2 * acc + (if bits[i] {
                1
            } else {
                0
            });
        }
        proof {
            assert(bits@.skip(0) =~= bits@);
        }
        if acc < p as u128 {
            Some(acc as u64)
        } else {
            None
        }
    }

    /// Converts a field element into its `n`-bit little-endian encoding.
    pub fn field_to_bits(x: u64, n: usize, p: u64) -> (r: Vec<bool>)
        requires
            in_field(x, p),
            n <= 127,
            p <= pow2(n as nat),
        ensures
            r.len() == n,
            bits_value(r@) == x,
    {
        crate::bits::num_to_bits(x as u128, n)
    }

    /// Encodes one bit on a fresh wire: draws the zero label and offsets
    /// it by delta times the bit for the evaluator.
    pub fn encode_wire(rng: &mut Prng, delta: u128, val: bool) -> (r: (u128, u128))
        ensures
            r.1 == wire_label(r.0, val, delta),
            r.0 == xorshift_step(old(rng).state) as u128 * 0x1_0000_0000_0000_0000 + xorshift_step(
                xorshift_step(old(rng).state),
            ),
            final(rng).state == xorshift_step(xorshift_step(old(rng).state)),
    {
        let zero = Self::random_block(rng);
        let enc = if val {
            zero ^ delta
        } else {
            zero
        };
        proof {
            lemma_xor_basics(zero, delta);
        }
        (zero, enc)
    }

    /// Draws a 128-bit block from the generator.
    pub fn random_block(rng: &mut Prng) -> (r: u128)
        ensures
            final(rng).state == xorshift_step(xorshift_step(old(rng).state)),
            r == xorshift_step(old(rng).state) as u128 * 0x1_0000_0000_0000_0000 + xorshift_step(
                xorshift_step(old(rng).state),
            ),
    {
        let hi = rng.next_u64();
        let lo = rng.next_u64();
        (hi as u128) * 0x1_0000_0000_0000_0000u128 + lo as u128
    }

    /// Encodes a bit vector: the zero labels go to the garbler's bundle,
    /// the offset labels to the evaluator's.
    pub fn encode_bits_as_wires(bits: &Vec<bool>, rng: &mut Prng, delta: u128) -> (r: (
        Vec<u128>,
        Vec<u128>,
    ))
        ensures
            free_xor_ok(r.0@, r.1@, delta, bits@),
    {
        let mut garbler_wires: Vec<u128> = Vec::new();
        let mut evaluator_wires: Vec<u128> = Vec::new();
        let mut i: usize = 0;
        while i < bits.len()
            invariant
                i <= bits.len(),
                garbler_wires.len() == i,
                evaluator_wires.len() == i,
                forall|j: int|
                    0 <= j < i ==> evaluator_wires@[j] == wire_label(
                        #[trigger] garbler_wires@[j],
                        bits@[j],
                        delta,
                    ),
            decreases bits.len() - i,
        {
            let (mine, theirs) = Self::encode_wire(rng, delta, bits[i]);
            garbler_wires.push(mine);
            evaluator_wires.push(theirs);
            i += 1;
        }
        (garbler_wires, evaluator_wires)
    }

    /// Bundles encoded wires as the two parties' inputs.
    pub fn wires_to_gcinput(
        garbler_wires: Vec<u128>,
        evaluator_wires: Vec<u128>,
        delta: u128,
    ) -> (r: GCInputs)
        ensures
            r.garbler_wires@ == garbler_wires@,
            r.evaluator_wires@ == evaluator_wires@,
            r.delta == delta,
    {
        GCInputs { garbler_wires, evaluator_wires, delta }
    }

    /// Encodes a field element bit by bit under the free-XOR invariant.
    pub fn encode_field(x: u64, n: usize, p: u64, rng: &mut Prng, delta: u128) -> (r: GCInputs)
        requires
            in_field(x, p),
            n <= 127,
            p <= pow2(n as nat),
        ensures
            r.delta == delta,
            r.garbler_wires.len() == n,
            free_xor_ok(r.garbler_wires@, r.evaluator_wires@, delta, crate::bits::spec_bits(
                x as nat,
                n as nat,
            )),
            bits_value(crate::bits::spec_bits(x as nat, n as nat)) == x,
    {
        let bits = Self::field_to_bits(x, n, p);
        proof {
            crate::bits::lemma_spec_bits_unique(bits@, x as nat, n as nat);
        }
        let (g, e) = Self::encode_bits_as_wires(&bits, rng, delta);
        Self::wires_to_gcinput(g, e, delta)
    }
}

/// The tweak that binds a gate's hashes to its position in the circuit.
pub open spec fn tweak_of(gate_num: u64) -> u128 {
    (2 * gate_num as u128 as int) as u128
}

/// What the garbler emits for an AND gate: the two half-gate ciphertext
/// blocks and the output wire's zero label.
pub open spec fn and_garble(a0: u128, b0: u128, d: u128, g: u128) -> (u128, u128, u128) {
    let alpha = color(a0);
    let r = color(b0);
    let x1 = a0 ^ sel(alpha, d);
    let y1 = b0 ^ sel(r, d);
    let na = if alpha {
        a0
    } else {
        a0 ^ d
    };
    let nb = if r {
        b0
    } else {
        b0 ^ d
    };
    let idx = if alpha {
        false
    } else {
        r
    };
    let x = gc_hash_of(x1, g) ^ sel(alpha && r, d);
    let y = gc_hash_of(y1, g);
    let gate0 = gc_hash_of(na, g) ^ x ^ sel(idx, d);
    let gate1 = gc_hash_of(nb, g) ^ y ^ a0;
    (gate0, gate1, x ^ y)
}

/// What the evaluator computes for an AND gate from its two input labels
/// and the garbler's ciphertext blocks.
pub open spec fn and_evaluate(wa: u128, wb: u128, gate0: u128, gate1: u128, g: u128) -> u128 {
    let l = if color(wa) {
        gc_hash_of(wa, g) ^ gate0
    } else {
        gc_hash_of(wa, g)
    };
    let rr = if color(wb) {
        gc_hash_of(wb, g) ^ gate1
    } else {
        gc_hash_of(wb, g)
    };
    l ^ rr ^ sel(color(wb), wa)
}

impl GCUtils {
    /// Garbles an AND gate: returns the two ciphertext blocks for the
    /// evaluator and the output wire's zero label for the garbler.
    pub fn garble_and_gate(gate_num: u64, a0: u128, b0: u128, delta: u128) -> (r: (
        u128,
        u128,
        u128,
    ))
        ensures
            (r.0, r.1, r.2) == and_garble(a0, b0, delta, tweak_of(gate_num)),
    {
        let g: u128 = 2 * gate_num as u128;
        let alpha = a0 & 1 == 1;
        let r = b0 & 1 == 1;
        let x1 = if alpha {
            a0 ^ delta
        } else {
            a0
        };
        let y1 = if r {
            b0 ^ delta
        } else {
            b0
        };
        let na = if alpha {
            a0
        } else {
            a0 ^ delta
        };
        let nb = if r {
            b0
        } else {
            b0 ^ delta
        };
        let idx = if alpha {
            false
        } else {
            r
        };
        let hx = gc_hash(x1, g);
        let hy = gc_hash(y1, g);
        let ha = gc_hash(na, g);
        let hb = gc_hash(nb, g);
        let x = if alpha && r {
            hx ^ delta
        } else {
            hx
        };
        let gate0 = if idx {
            ha ^ x ^ delta
        } else {
            ha ^ x
        };
        let gate1 = hb ^ hy ^ a0;
        proof {
            lemma_xor_basics(a0, delta);
            lemma_xor_basics(b0, delta);
            lemma_xor_basics(hx, delta);
            lemma_xor_basics(ha ^ x, delta);
            lemma_xor_basics(hb ^ hy, a0);
        }
        (gate0, gate1, x ^ hy)
    }

    /// Evaluates an AND gate from the two input labels the evaluator
    /// holds and the garbler's two ciphertext blocks.
    pub fn evaluate_and_gate(gate_num: u64, wa: u128, wb: u128, gate0: u128, gate1: u128) -> (r:
        u128)
        ensures
            r == and_evaluate(wa, wb, gate0, gate1, tweak_of(gate_num)),
    {
        let g: u128 = 2 * gate_num as u128;
        let ha = gc_hash(wa, g);
        let hb = gc_hash(wb, g);
        let l = if wa & 1 == 1 {
            ha ^ gate0
        } else {
            ha
        };
        let rr = if wb & 1 == 1 {
            hb ^ gate1
        } else {
            hb
        };
        if wb & 1 == 1 {
            l ^ rr ^ wa
        } else {
            proof {
                lemma_xor_basics(l ^ rr, 0);
            }
            l ^ rr
        }
    }
}

/// Correctness of the half-gate AND: for any gate the garbler emits and
/// any pair of input bits, the label the evaluator reconstructs is the
/// output wire's zero label offset by delta exactly when both bits are
/// set — AND is computed faithfully under the free-XOR encoding.
pub proof fn lemma_and_gate_correct(a0: u128, b0: u128, d: u128, g: u128, va: bool, vb: bool)
    requires
        d & 1 == 1,
    ensures
        ({
            let (gate0, gate1, gout) = and_garble(a0, b0, d, g);
            and_evaluate(wire_label(a0, va, d), wire_label(b0, vb, d), gate0, gate1, g)
                == wire_label(gout, va && vb, d)
        }),
{
    let alpha = color(a0);
    let r = color(b0);
    let wa = a0 ^ sel(va, d);
    let wb = b0 ^ sel(vb, d);
    let x1 = a0 ^ sel(alpha, d);
    let y1 = b0 ^ sel(r, d);
    let na = if alpha {
        a0
    } else {
        a0 ^ d
    };
    let nb = if r {
        b0
    } else {
        b0 ^ d
    };
    let idx = if alpha {
        false
    } else {
        r
    };
    let hx = gc_hash_of(x1, g);
    let hy = gc_hash_of(y1, g);
    let ha = gc_hash_of(na, g);
    let hb = gc_hash_of(nb, g);
    let x = hx ^ sel(alpha && r, d);
    let gate0 = ha ^ x ^ sel(idx, d);
    let gate1 = hb ^ hy ^ a0;
    let gout = x ^ hy;
    lemma_xor_basics(a0, d);
    lemma_xor_basics(b0, d);
    // The colors of the evaluator's labels.
    if va {
        lemma_color_flip(a0, d);
    }
    if vb {
        lemma_color_flip(b0, d);
    }
    let ca = color(wa);
    let cb = color(wb);
    assert(ca == (alpha != va));
    assert(cb == (r != vb));
    // The evaluator's label is one of the two labels the garbler hashed.
    assert(wa == if ca {
        na
    } else {
        x1
    });
    assert(wb == if cb {
        nb
    } else {
        y1
    });
    // Garbler half: the left part always comes to x plus (va and r) deltas.
    let l = if ca {
        gc_hash_of(wa, g) ^ gate0
    } else {
        gc_hash_of(wa, g)
    };
    assert(l == x ^ sel(va && r, d)) by {
        if ca {
            assert(ha ^ (ha ^ x ^ sel(idx, d)) == x ^ sel(idx, d)) by (bit_vector);
            assert(idx == (va && r));
        } else {
            assert(hx == (hx ^ sel(alpha && r, d)) ^ sel(alpha && r, d)) by (bit_vector);
            assert((alpha && r) == (va && r));
        }
    }
    // Evaluator half: the right part is y, plus the a-label when the
    // color of the b-label is set.
    let rr = if cb {
        gc_hash_of(wb, g) ^ gate1
    } else {
        gc_hash_of(wb, g)
    };
    assert(rr == hy ^ sel(cb, a0)) by {
        if cb {
            assert(hb ^ (hb ^ hy ^ a0) == hy ^ a0) by (bit_vector);
        } else {
            lemma_xor_basics(hy, a0);
        }
    }
    // Combine the halves.
    let lhs = l ^ rr ^ sel(cb, wa);
    assert(lhs == (x ^ hy) ^ (sel(va && r, d) ^ sel(cb, a0) ^ sel(cb, a0 ^ sel(va, d)))) by {
        let u = sel(va && r, d);
        let v = sel(cb, a0);
        let w = sel(cb, a0 ^ sel(va, d));
        assert((x ^ u) ^ (hy ^ v) ^ w == (x ^ hy) ^ (u ^ v ^ w)) by (bit_vector);
        if cb {
            assert(sel(cb, wa) == a0 ^ sel(va, d));
        } else {
            lemma_xor_basics(l ^ rr, 0);
            assert((x ^ u) ^ (hy ^ v) == (x ^ hy) ^ (u ^ v ^ 0)) by (bit_vector);
        }
    }
    // The correction terms collapse to delta times (va and vb).
    assert(sel(va && r, d) ^ sel(cb, a0) ^ sel(cb, a0 ^ sel(va, d)) == sel(va && vb, d)) by {
        if cb {
            if va {
                assert(d ^ a0 ^ (a0 ^ d) == 0) by (bit_vector);
                assert(0 ^ a0 ^ (a0 ^ d) == d) by (bit_vector);
                if r {
                    assert(sel(va && r, d) == d);
                } else {
                    assert(sel(va && r, d) == 0);
                }
            } else {
                assert(sel(va && r, d) == 0);
                assert(0 ^ a0 ^ (a0 ^ 0) == 0) by (bit_vector);
                lemma_xor_basics(a0, 0);
            }
        } else {
            let u = sel(va && r, d);
            assert(u ^ 0 ^ 0 == u) by (bit_vector);
            assert((va && r) == (va && vb));
        }
    }
    assert(and_evaluate(wa, wb, gate0, gate1, g) == lhs);
    assert(wire_label(gout, va && vb, d) == gout ^ sel(va && vb, d));
}

/// A residue of a natural number is the same whether the modulus is
/// read as a natural number or as an integer.
proof fn lemma_nat_int_mod(a: nat, p: u64)
    requires
        0 < p,
    ensures
        a % (p as nat) == (a as int) % (p as int),
{
}

/// Taking the two masks back out of a masked chunk leaves the chunk:
/// the composition step of the decomposition needs no communication.
proof fn lemma_unmask(c: u64, k2: u64, k3: u64, p: u64)
    requires
        1 < p,
        c < p,
        k2 < p,
        k3 < p,
    ensures
        ((c + (k2 + k3) % (p as int)) % (p as int) + (0 - k2) % (p as int) + (0 - k3) % (
        p as int)) % (p as int) == c,
{
    let pp = p as int;
    crate::field::lemma_mod_add3(c + (k2 + k3) % pp, 0 - k2, 0 - k3, pp);
    vstd::arithmetic::div_mod::lemma_add_mod_noop_right(
        (c - k2 - k3) as int,
        (k2 + k3) as int,
        pp,
    );
    vstd::arithmetic::div_mod::lemma_small_mod(c as nat, p as nat);
}

/// The chunk sharings a decomposition of `x` must produce: `nc` chunk
/// sharings, each consistent, the `j`-th standing for bits
/// `j * k .. (j + 1) * k` of `x`'s lowest `total` bits.
pub open spec fn decomposed_chunks_ok(
    r0: Seq<crate::rep3::Rep3PrimeFieldShare>,
    r1: Seq<crate::rep3::Rep3PrimeFieldShare>,
    r2: Seq<crate::rep3::Rep3PrimeFieldShare>,
    x: int,
    total: nat,
    k: nat,
    nc: int,
    p: u64,
) -> bool {
    &&& r0.len() == nc && r1.len() == nc && r2.len() == nc
    &&& forall|j: int|
        0 <= j < nc ==> crate::rep3::sharing_consistent(#[trigger] r0[j], r1[j], r2[j])
            && crate::rep3::sharing_value(r0[j], r1[j], r2[j], p) == ((((x as nat) % pow2(total))
            / pow2((j * k) as nat)) % pow2(k)) as int
}

/// When the decomposed width covers the whole field, truncating a field
/// element to it changes nothing: the chunk sharings of a decomposition
/// then stand for the element itself, not merely its low bits.
pub proof fn lemma_decompose_covers_field(x: int, total: nat, p: u64)
    requires
        0 <= x < p,
        p <= pow2(total),
    ensures
        (x as nat) % pow2(total) == x,
{
    vstd::arithmetic::div_mod::lemma_small_mod(x as nat, pow2(total));
}

/// Decomposes an arithmetically shared field element into replicated
/// shares of its little-endian chunks, run jointly over the three
/// parties' data: party one feeds the sum of its two sub-shares and
/// party two its own sub-share into the adder circuit, the circuit masks
/// each chunk with the sum of two correlated masks, and each party
/// locally subtracts the masks it knows — so each chunk's new sharing
/// needs no round beyond the circuit itself.
///
/// Returns the three parties' chunk shares; the sharing of chunk `j`
/// stands for bits `j * decompose_bitlen ..` of the shared value.
#[verifier::loop_isolation(false)]
#[verifier::rlimit(60)]
pub fn decompose_arithmetic(
    s0: crate::rep3::Rep3PrimeFieldShare,
    s1: crate::rep3::Rep3PrimeFieldShare,
    s2: crate::rep3::Rep3PrimeFieldShare,
    masks_k2: &Vec<u64>,
    masks_k3: &Vec<u64>,
    total_bitlen: usize,
    decompose_bitlen: usize,
    n_bits: usize,
    p: u64,
) -> (r: Result<
    (
        Vec<crate::rep3::Rep3PrimeFieldShare>,
        Vec<crate::rep3::Rep3PrimeFieldShare>,
        Vec<crate::rep3::Rep3PrimeFieldShare>,
    ),
    crate::errors::MpcError,
>)
    requires
        1 < p,
        p % 2 == 1,
        crate::rep3::sharing_consistent(s0, s1, s2),
        crate::rep3::share_valid(s0, p),
        crate::rep3::share_valid(s1, p),
        crate::rep3::share_valid(s2, p),
        1 <= n_bits <= 63,
        pow2((n_bits - 1) as nat) < p,
        p < pow2(n_bits as nat),
        1 <= decompose_bitlen < n_bits,
        decompose_bitlen <= total_bitlen <= n_bits,
        masks_k2.len() == (total_bitlen + decompose_bitlen - 1) / (decompose_bitlen as int),
        masks_k3.len() == masks_k2.len(),
        forall|j: int| 0 <= j < masks_k2.len() ==> in_field(#[trigger] masks_k2[j], p),
        forall|j: int| 0 <= j < masks_k3.len() ==> in_field(#[trigger] masks_k3[j], p),
    ensures
        r is Ok,
        ({
            let (r0, r1, r2) = r->Ok_0;
            let nc = (total_bitlen + decompose_bitlen - 1) / (decompose_bitlen as int);
            decomposed_chunks_ok(
                r0@,
                r1@,
                r2@,
                crate::rep3::sharing_value(s0, s1, s2, p),
                total_bitlen as nat,
                decompose_bitlen as nat,
                nc,
                p,
            )
        }),
{
    let n = n_bits;
    let k = decompose_bitlen;
    let nc = (total_bitlen + k - 1) / k;
    // Party one's circuit input: the sum of its two sub-shares.
    let x01 = add_mod(s1.a, s1.b, p);
    let x2v = s2.a;
    proof {
        let pp = p as int;
        // Those two circuit inputs add up to the shared secret.
        vstd::arithmetic::div_mod::lemma_add_mod_noop_right(
            x2v as int,
            (s1.a + s1.b) as int,
            pp,
        );
    }
    let bits_a = GCUtils::field_to_bits(x01, n, p);
    let bits_b = GCUtils::field_to_bits(x2v, n, p);
    // The joint masks: the circuit adds the sum of the two mask streams.
    let mut mask_bits: Vec<bool> = Vec::new();
    let mut j: usize = 0;
    while j < nc
        invariant
            1 < p,
            j <= nc,
            1 <= n <= 63,
            p < pow2(n as nat),
            masks_k2.len() == nc && masks_k3.len() == nc,
            forall|i: int| 0 <= i < nc ==> in_field(#[trigger] masks_k2[i], p),
            forall|i: int| 0 <= i < nc ==> in_field(#[trigger] masks_k3[i], p),
            mask_bits.len() == j * n,
            forall|i: int|
                0 <= i < j ==> bits_value(
                    #[trigger] mask_bits@.subrange(i * n as int, i * n as int + n as int),
                ) == (masks_k2[i] + masks_k3[i]) % (p as int),
        decreases nc - j,
    {
        let m = add_mod(masks_k2[j], masks_k3[j], p);
        let mb = GCUtils::field_to_bits(m, n, p);
        let ghost prev = mask_bits@;
        let mut idx: usize = 0;
        while idx < mb.len()
            invariant
                idx <= mb.len(),
                mask_bits@ == prev + mb@.take(idx as int),
            decreases mb.len() - idx,
        {
            proof {
                assert((prev + mb@.take(idx as int)).push(mb@[idx as int]) =~= prev + mb@.take(
                    idx + 1,
                ));
            }
            mask_bits.push(mb[idx]);
            idx += 1;
        }
        proof {
            assert(mb@.take(mb@.len() as int) =~= mb@);
            assert(mask_bits@ == prev + mb@);
            assert((j + 1) * n == j * n + n) by (nonlinear_arith);
            assert forall|i: int| 0 <= i < j as int implies #[trigger] mask_bits@.subrange(
                i * n as int,
                i * n as int + n as int,
            ) =~= prev.subrange(i * n as int, i * n as int + n as int) by {
                assert(i * n as int + n as int <= j as int * n as int) by (nonlinear_arith)
                    requires
                        0 <= i < j as int,
                        n as int >= 1,
                ;
            }
            assert(mask_bits@.subrange(j as int * n as int, j as int * n as int + n as int)
                =~= mb@);
        }
        j += 1;
    }
    proof {
        assert(nc * n == n * nc) by (nonlinear_arith);
    }
    let out_bits = crate::bits::GarbledCircuits::decompose_field_element(
        &bits_a,
        &bits_b,
        &mask_bits,
        k,
        total_bitlen,
        p,
    );
    // Each party assembles its chunk shares from the circuit output and
    // the masks it can derive locally.
    let mut r0: Vec<crate::rep3::Rep3PrimeFieldShare> = Vec::new();
    let mut r1: Vec<crate::rep3::Rep3PrimeFieldShare> = Vec::new();
    let mut r2: Vec<crate::rep3::Rep3PrimeFieldShare> = Vec::new();
    let ghost x = crate::rep3::sharing_value(s0, s1, s2, p);
    let ghost xt = (x as nat) % pow2(total_bitlen as nat);
    proof {
        let pp = p as int;
        assert((x01 + x2v) % pp == x);
        assert(((bits_value(bits_a@) + bits_value(bits_b@)) % (p as nat)) == x);
        assert(((bits_value(bits_a@) + bits_value(bits_b@)) % (p as nat)) % pow2(
            total_bitlen as nat,
        ) == xt);
    }
    let mut j2: usize = 0;
    while j2 < nc
        invariant
            j2 <= nc,
            r0.len() == j2 && r1.len() == j2 && r2.len() == j2,
            forall|i: int|
                0 <= i < j2 ==> crate::rep3::sharing_consistent(#[trigger] r0[i], r1[i], r2[i])
                    && crate::rep3::sharing_value(r0[i], r1[i], r2[i], p) == ((xt / pow2(
                    (i * k as int) as nat,
                )) % pow2(k as nat)) as int,
        decreases nc - j2,
    {
        proof {
            assert(j2 * n + n <= nc * n) by (nonlinear_arith)
                requires
                    j2 < nc,
                    n >= 1,
            ;
        }
        let chunk_bits = crate::bits::sub_bits(&out_bits, j2 * n, j2 * n + n);
        proof {
            let pp = p as int;
            let jj = j2 as int;
            let xtc = ((bits_value(bits_a@) + bits_value(bits_b@)) % (p as nat)) % pow2(
                total_bitlen as nat,
            );
            assert(bits_value(chunk_bits@) == ((xtc / pow2((jj * (k as int)) as nat)) % pow2(
                k as nat,
            ) + bits_value(mask_bits@.subrange(jj * n as int, jj * n as int + n as int))) % (
            p as nat));
            assert(bits_value(mask_bits@.subrange(jj * n as int, jj * n as int + n as int)) == (
            masks_k2@[jj] + masks_k3@[jj]) % pp);
            assert(xtc == xt);
            let xv = (xt / pow2((jj * k as int) as nat)) % pow2(k as nat);
            let mv = bits_value(mask_bits@.subrange(jj * n as int, jj * n as int + n as int));
            lemma_nat_int_mod(xv + mv, p);
            assert((xv + mv) % (p as nat) == ((xv + mv) as int) % pp);
            assert(((xv + mv) as int) == xv as int + mv as int) by (nonlinear_arith);
            assert(mv as int == (masks_k2@[jj] + masks_k3@[jj]) % pp);
            assert(bits_value(chunk_bits@) == (xv as int + (masks_k2@[jj] + masks_k3@[jj]) % pp)
                % pp);
        }
        let y = match GCUtils::bits_to_field(&chunk_bits, p) {
            Some(v) => v,
            None => {
                proof {
                    vstd::arithmetic::div_mod::lemma_mod_bound(
                        ((xt / pow2((j2 * k as int) as nat)) % pow2(k as nat) + (masks_k2[j2 as int]
                            + masks_k3[j2 as int]) % (p as int)) as int,
                        p as int,
                    );
                }
                return Err(crate::errors::MpcError::InvalidData);
            },
        };
        let nk2 = crate::field::neg_mod(masks_k2[j2], p);
        let nk3 = crate::field::neg_mod(masks_k3[j2], p);
        r0.push(crate::rep3::Rep3PrimeFieldShare::new(y, nk3));
        r1.push(crate::rep3::Rep3PrimeFieldShare::new(nk2, y));
        r2.push(crate::rep3::Rep3PrimeFieldShare::new(nk3, nk2));
        proof {
            vstd::arithmetic::power2::lemma_pow2_pos(k as nat);
            vstd::arithmetic::div_mod::lemma_mod_bound(
                (xt / pow2((j2 * k as int) as nat)) as int,
                pow2(k as nat) as int,
            );
            assert(pow2(k as nat) <= pow2((n - 1) as nat)) by {
                if k < n - 1 {
                    vstd::arithmetic::power2::lemma_pow2_strictly_increases(
                        k as nat,
                        (n - 1) as nat,
                    );
                }
            }
            let c = ((xt / pow2((j2 * k as int) as nat)) % pow2(k as nat)) as u64;
            lemma_unmask(c, masks_k2[j2 as int], masks_k3[j2 as int], p);
        }
        j2 += 1;
    }
    proof {
        assert forall|j: int|
            0 <= j < nc as int implies crate::rep3::sharing_consistent(
            #[trigger] r0@[j],
            r1@[j],
            r2@[j],
        ) && crate::rep3::sharing_value(r0@[j], r1@[j], r2@[j], p) == ((((
        crate::rep3::sharing_value(s0, s1, s2, p) as nat) % pow2(total_bitlen as nat)) / pow2(
            (j * decompose_bitlen as nat) as nat,
        )) % pow2(decompose_bitlen as nat)) as int by {
            assert(crate::rep3::sharing_value(r0@[j], r1@[j], r2@[j], p) == ((xt / pow2(
                (j * k as int) as nat,
            )) % pow2(k as nat)) as int);
            assert((j * decompose_bitlen as nat) == ((j * k as int) as nat));
        }
    }
    Ok((r0, r1, r2))
}

/// Converts an arithmetic share into the two Yao input bundles of the
/// joint-input protocol: party one contributes the sum of its two
/// sub-shares, party two its own sub-share, and each is encoded bit by
/// bit under the shared delta.  Fails exactly when the caller supplies
/// no delta, which only the garbler roles hold.
pub fn joint_input_arithmetic_added(
    s1: crate::rep3::Rep3PrimeFieldShare,
    x2: u64,
    delta: Option<u128>,
    n_bits: usize,
    p: u64,
    rng: &mut Prng,
) -> (r: Result<(GCInputs, GCInputs), crate::errors::MpcError>)
    requires
        1 < p,
        crate::rep3::share_valid(s1, p),
        in_field(x2, p),
        n_bits <= 127,
        p <= pow2(n_bits as nat),
    ensures
        r is Ok <==> delta is Some,
        r is Err ==> r->Err_0 == crate::errors::MpcError::InvalidInput,
        r is Ok ==> ({
            let (b01, b2) = r->Ok_0;
            let x01 = ((s1.a + s1.b) % (p as int)) as u64;
            &&& b01.delta == delta->0 && b2.delta == delta->0
            &&& b01.garbler_wires.len() == n_bits && b2.garbler_wires.len() == n_bits
            &&& free_xor_ok(b01.garbler_wires@, b01.evaluator_wires@, delta->0, crate::bits::spec_bits(
                x01 as nat,
                n_bits as nat,
            ))
            &&& free_xor_ok(b2.garbler_wires@, b2.evaluator_wires@, delta->0, crate::bits::spec_bits(
                x2 as nat,
                n_bits as nat,
            ))
        }),
{
    let d = match delta {
        Some(d) => d,
        None => {
            return Err(crate::errors::MpcError::InvalidInput);
        },
    };
    let x01 = add_mod(s1.a, s1.b, p);
    let b01 = GCUtils::encode_field(x01, n_bits, p, rng, d);
    let b2 = GCUtils::encode_field(x2, n_bits, p, rng, d);
    Ok((b01, b2))
}

/// Converts an arithmetic share into three Yao bundles, one per additive
/// sub-share.  The middle sub-share is known to both garbler roles, so
/// its wires come from the stream the two share and need no message; the
/// other two sub-shares are encoded and sent by the party that holds
/// them.  Fails exactly when the caller supplies no delta.
pub fn joint_input_arithmetic(
    s1: crate::rep3::Rep3PrimeFieldShare,
    s2: crate::rep3::Rep3PrimeFieldShare,
    delta: Option<u128>,
    n_bits: usize,
    p: u64,
    shared_rng: &mut Prng,
    rng: &mut Prng,
) -> (r: Result<(GCInputs, GCInputs, GCInputs), crate::errors::MpcError>)
    requires
        1 < p,
        crate::rep3::share_valid(s1, p),
        crate::rep3::share_valid(s2, p),
        s2.b == s1.a,
        n_bits <= 127,
        p <= pow2(n_bits as nat),
    ensures
        r is Ok <==> delta is Some,
        r is Err ==> r->Err_0 == crate::errors::MpcError::InvalidInput,
        r is Ok ==> ({
            let (b0, b1, b2) = r->Ok_0;
            &&& b0.delta == delta->0 && b1.delta == delta->0 && b2.delta == delta->0
            &&& b0.garbler_wires.len() == n_bits && b1.garbler_wires.len() == n_bits
                && b2.garbler_wires.len() == n_bits
            &&& free_xor_ok(b0.garbler_wires@, b0.evaluator_wires@, delta->0, crate::bits::spec_bits(
                s1.b as nat,
                n_bits as nat,
            ))
            &&& free_xor_ok(b1.garbler_wires@, b1.evaluator_wires@, delta->0, crate::bits::spec_bits(
                s1.a as nat,
                n_bits as nat,
            ))
            &&& free_xor_ok(b2.garbler_wires@, b2.evaluator_wires@, delta->0, crate::bits::spec_bits(
                s2.a as nat,
                n_bits as nat,
            ))
        }),
{
    let d = match delta {
        Some(d) => d,
        None => {
            return Err(crate::errors::MpcError::InvalidInput);
        },
    };
    // The middle sub-share: both garbler roles hold it and both hold the
    // shared stream, so each can derive the same wires locally.
    let x1_bits = GCUtils::field_to_bits(s1.a, n_bits, p);
    proof {
        crate::bits::lemma_spec_bits_unique(x1_bits@, s1.a as nat, n_bits as nat);
    }
    let (g1, e1) = GCUtils::encode_bits_as_wires(&x1_bits, shared_rng, d);
    let b1 = GCUtils::wires_to_gcinput(g1, e1, d);
    // The outer sub-shares travel as ordinary garbler inputs.
    let b0 = GCUtils::encode_field(s1.b, n_bits, p, rng, d);
    let b2 = GCUtils::encode_field(s2.a, n_bits, p, rng, d);
    Ok((b0, b1, b2))
}

/// Converts a binary (XOR) share into the two Yao input bundles: party
/// one contributes the XOR of its two sub-shares, party two its own
/// sub-share.  Fails exactly when no delta is supplied.
pub fn joint_input_binary_xored(
    x1a: u64,
    x1b: u64,
    x2: u64,
    delta: Option<u128>,
    bitlen: usize,
    rng: &mut Prng,
) -> (r: Result<(GCInputs, GCInputs), crate::errors::MpcError>)
    requires
        bitlen <= 127,
        x1a < pow2(bitlen as nat),
        x1b < pow2(bitlen as nat),
        x2 < pow2(bitlen as nat),
    ensures
        r is Ok <==> delta is Some,
        r is Err ==> r->Err_0 == crate::errors::MpcError::InvalidInput,
        r is Ok ==> ({
            let (b01, b2) = r->Ok_0;
            &&& b01.delta == delta->0 && b2.delta == delta->0
            &&& b01.garbler_wires.len() == bitlen && b2.garbler_wires.len() == bitlen
            &&& free_xor_ok(b01.garbler_wires@, b01.evaluator_wires@, delta->0, crate::bits::spec_bits(
                (x1a ^ x1b) as nat,
                bitlen as nat,
            ))
            &&& free_xor_ok(b2.garbler_wires@, b2.evaluator_wires@, delta->0, crate::bits::spec_bits(
                x2 as nat,
                bitlen as nat,
            ))
        }),
{
    let d = match delta {
        Some(d) => d,
        None => {
            return Err(crate::errors::MpcError::InvalidInput);
        },
    };
    let x01 = x1a ^ x1b;
    proof {
        lemma_xor_below_pow2(x1a, x1b, bitlen as nat);
    }
    let bits01 = crate::bits::num_to_bits(x01 as u128, bitlen);
    proof {
        crate::bits::lemma_spec_bits_unique(bits01@, x01 as nat, bitlen as nat);
    }
    let (g01, e01) = GCUtils::encode_bits_as_wires(&bits01, rng, d);
    let b01 = GCUtils::wires_to_gcinput(g01, e01, d);
    let bits2 = crate::bits::num_to_bits(x2 as u128, bitlen);
    proof {
        crate::bits::lemma_spec_bits_unique(bits2@, x2 as nat, bitlen as nat);
    }
    let (g2, e2) = GCUtils::encode_bits_as_wires(&bits2, rng, d);
    let b2 = GCUtils::wires_to_gcinput(g2, e2, d);
    Ok((b01, b2))
}

/// The XOR of two values below a power of two stays below it.
proof fn lemma_xor_below_pow2(a: u64, b: u64, n: nat)
    requires
        n <= 127,
        a < pow2(n),
        b < pow2(n),
    ensures
        (a ^ b) < pow2(n),
{
    if n >= 64 {
        vstd::arithmetic::power2::lemma_pow2_strictly_increases(63, n);
        assert(pow2(64) > 0xffff_ffff_ffff_ffff) by {
            lemma2_to64();
        }
        if n > 64 {
            vstd::arithmetic::power2::lemma_pow2_strictly_increases(64, n);
        }
        assert((a ^ b) <= 0xffff_ffff_ffff_ffffu64) by (bit_vector);
    } else {
        let nn = n as u64;
        assert(a < pow2(n) && b < pow2(n) ==> (a ^ b) < pow2(n)) by {
            assert(pow2(n) == pow2(n));
            lemma_pow2_shl(nn);
            assert(a < (1u64 << nn) && b < (1u64 << nn) && nn < 64 ==> (a ^ b) < (1u64 << nn))
                by (bit_vector);
        }
    }
}

/// A left shift of one is the matching power of two.
proof fn lemma_pow2_shl(n: u64)
    requires
        n < 64,
    ensures
        (1u64 << n) == pow2(n as nat),
{
    vstd::bits::lemma_u64_pow2_no_overflow(n as nat);
    vstd::bits::lemma_u64_shl_is_mul(1u64, n);
}

/// Lets the party with the last identity feed one public field element
/// of its own into the circuit as Yao wires.  Fails exactly when the
/// delta or the input is missing.
pub fn input_field_id2(
    x: Option<u64>,
    delta: Option<u128>,
    n_bits: usize,
    p: u64,
    rng: &mut Prng,
) -> (r: Result<GCInputs, crate::errors::MpcError>)
    requires
        1 < p,
        x is Some ==> in_field(x->0, p),
        n_bits <= 127,
        p <= pow2(n_bits as nat),
    ensures
        r is Ok <==> delta is Some && x is Some,
        r is Err ==> r->Err_0 == crate::errors::MpcError::InvalidInput,
        r is Ok ==> ({
            let b = r->Ok_0;
            &&& b.delta == delta->0
            &&& b.garbler_wires.len() == n_bits
            &&& free_xor_ok(b.garbler_wires@, b.evaluator_wires@, delta->0, crate::bits::spec_bits(
                x->0 as nat,
                n_bits as nat,
            ))
        }),
{
    let d = match delta {
        Some(d) => d,
        None => {
            return Err(crate::errors::MpcError::InvalidInput);
        },
    };
    let v = match x {
        Some(v) => v,
        None => {
            return Err(crate::errors::MpcError::InvalidInput);
        },
    };
    Ok(GCUtils::encode_field(v, n_bits, p, rng, d))
}

/// Decomposes a batch of arithmetically shared field elements: each
/// input is decomposed as in `decompose_arithmetic`, with its own slice
/// of the correlated masks; the result keeps the batch grouped by input.
pub fn decompose_arithmetic_many(
    inputs0: &Vec<crate::rep3::Rep3PrimeFieldShare>,
    inputs1: &Vec<crate::rep3::Rep3PrimeFieldShare>,
    inputs2: &Vec<crate::rep3::Rep3PrimeFieldShare>,
    masks_k2: &Vec<Vec<u64>>,
    masks_k3: &Vec<Vec<u64>>,
    total_bitlen: usize,
    decompose_bitlen: usize,
    n_bits: usize,
    p: u64,
) -> (r: Result<
    Vec<
        (
            Vec<crate::rep3::Rep3PrimeFieldShare>,
            Vec<crate::rep3::Rep3PrimeFieldShare>,
            Vec<crate::rep3::Rep3PrimeFieldShare>,
        ),
    >,
    crate::errors::MpcError,
>)
    requires
        1 < p,
        p % 2 == 1,
        inputs0.len() == inputs1.len() && inputs2.len() == inputs1.len(),
        masks_k2.len() == inputs0.len() && masks_k3.len() == inputs0.len(),
        forall|t: int|
            0 <= t < inputs0.len() ==> crate::rep3::sharing_consistent(
                #[trigger] inputs0[t],
                inputs1[t],
                inputs2[t],
            ),
        forall|t: int| 0 <= t < inputs0.len() ==> crate::rep3::share_valid(#[trigger] inputs0[t], p),
        forall|t: int| 0 <= t < inputs1.len() ==> crate::rep3::share_valid(#[trigger] inputs1[t], p),
        forall|t: int| 0 <= t < inputs2.len() ==> crate::rep3::share_valid(#[trigger] inputs2[t], p),
        1 <= n_bits <= 63,
        pow2((n_bits - 1) as nat) < p,
        p < pow2(n_bits as nat),
        1 <= decompose_bitlen < n_bits,
        decompose_bitlen <= total_bitlen <= n_bits,
        forall|t: int|
            0 <= t < masks_k2.len() ==> (#[trigger] masks_k2[t]).len() == (total_bitlen
                + decompose_bitlen - 1) / (decompose_bitlen as int),
        forall|t: int|
            0 <= t < masks_k3.len() ==> (#[trigger] masks_k3[t]).len() == (total_bitlen
                + decompose_bitlen - 1) / (decompose_bitlen as int),
        forall|t: int, j: int|
            0 <= t < masks_k2.len() && 0 <= j < masks_k2[t].len() ==> in_field(
                #[trigger] masks_k2[t][j],
                p,
            ),
        forall|t: int, j: int|
            0 <= t < masks_k3.len() && 0 <= j < masks_k3[t].len() ==> in_field(
                #[trigger] masks_k3[t][j],
                p,
            ),
    ensures
        r is Ok,
        ({
            let out = r->Ok_0;
            let nc = (total_bitlen + decompose_bitlen - 1) / (decompose_bitlen as int);
            &&& out.len() == inputs0.len()
            &&& forall|t: int|
                0 <= t < out.len() ==> decomposed_chunks_ok(
                    (#[trigger] out[t]).0@,
                    out[t].1@,
                    out[t].2@,
                    crate::rep3::sharing_value(inputs0[t], inputs1[t], inputs2[t], p),
                    total_bitlen as nat,
                    decompose_bitlen as nat,
                    nc,
                    p,
                )
        }),
{
    let mut out: Vec<
        (
            Vec<crate::rep3::Rep3PrimeFieldShare>,
            Vec<crate::rep3::Rep3PrimeFieldShare>,
            Vec<crate::rep3::Rep3PrimeFieldShare>,
        ),
    > = Vec::new();
    let ghost nc = (total_bitlen + decompose_bitlen - 1) / (decompose_bitlen as int);
    let mut t: usize = 0;
    while t < inputs0.len()
        invariant
            1 < p,
            p % 2 == 1,
            t <= inputs0.len(),
            inputs0.len() == inputs1.len() && inputs2.len() == inputs1.len(),
            masks_k2.len() == inputs0.len() && masks_k3.len() == inputs0.len(),
            forall|u: int|
                0 <= u < inputs0.len() ==> crate::rep3::sharing_consistent(
                    #[trigger] inputs0[u],
                    inputs1[u],
                    inputs2[u],
                ),
            forall|u: int|
                0 <= u < inputs0.len() ==> crate::rep3::share_valid(#[trigger] inputs0[u], p),
            forall|u: int|
                0 <= u < inputs1.len() ==> crate::rep3::share_valid(#[trigger] inputs1[u], p),
            forall|u: int|
                0 <= u < inputs2.len() ==> crate::rep3::share_valid(#[trigger] inputs2[u], p),
            1 <= n_bits <= 63,
            pow2((n_bits - 1) as nat) < p,
            p < pow2(n_bits as nat),
            1 <= decompose_bitlen < n_bits,
            decompose_bitlen <= total_bitlen <= n_bits,
            nc == (total_bitlen + decompose_bitlen - 1) / (decompose_bitlen as int),
            forall|u: int|
                0 <= u < masks_k2.len() ==> (#[trigger] masks_k2[u]).len() == nc,
            forall|u: int|
                0 <= u < masks_k3.len() ==> (#[trigger] masks_k3[u]).len() == nc,
            forall|u: int, j: int|
                0 <= u < masks_k2.len() && 0 <= j < masks_k2[u].len() ==> in_field(
                    #[trigger] masks_k2[u][j],
                    p,
                ),
            forall|u: int, j: int|
                0 <= u < masks_k3.len() && 0 <= j < masks_k3[u].len() ==> in_field(
                    #[trigger] masks_k3[u][j],
                    p,
                ),
            out.len() == t,
            forall|u: int|
                0 <= u < t ==> decomposed_chunks_ok(
                    (#[trigger] out[u]).0@,
                    out[u].1@,
                    out[u].2@,
                    crate::rep3::sharing_value(inputs0[u], inputs1[u], inputs2[u], p),
                    total_bitlen as nat,
                    decompose_bitlen as nat,
                    nc,
                    p,
                ),
        decreases inputs0.len() - t,
    {
        let triple = match decompose_arithmetic(
            inputs0[t],
            inputs1[t],
            inputs2[t],
            &masks_k2[t],
            &masks_k3[t],
            total_bitlen,
            decompose_bitlen,
            n_bits,
            p,
        ) {
            Ok(v) => v,
            Err(e) => {
                return Err(e);
            },
        };
        out.push(triple);
        t += 1;
    }
    Ok(out)
}

/// The free-XOR law: in every bundle the garbler encodes, each evaluator
/// wire equals the garbler wire XORed with delta times the encoded bit;
/// in particular, XORing the two wires of a position reveals exactly
/// delta times the bit.
pub proof fn lemma_free_xor_invariant(
    g: Seq<u128>,
    e: Seq<u128>,
    delta: u128,
    bits: Seq<bool>,
    i: int,
)
    requires
        free_xor_ok(g, e, delta, bits),
        0 <= i < g.len(),
    ensures
        e[i] == g[i] ^ sel(bits[i], delta),
        e[i] ^ g[i] == sel(bits[i], delta),
        delta & 1 == 1 ==> color(e[i]) == (color(g[i]) ^ bits[i]),
{
    let gi = g[i];
    let s = sel(bits[i], delta);
    lemma_xor_basics(gi, e[i]);
    assert(gi ^ (gi ^ s) == s) by (bit_vector);
    assert((gi ^ s) ^ gi == gi ^ (gi ^ s)) by (bit_vector);
    if delta & 1 == 1 {
        if bits[i] {
            lemma_color_flip(gi, delta);
        } else {
            lemma_xor_basics(gi, 0);
        }
    }
}

} // verus!
