//! What the relation rules out for a key that has a private exponent.
//!
//! A public key `(n, e)` of a real key pair comes with an exponent `d` that
//! undoes `e`: raising a residue to `e` and then to `d` modulo `n` gives the
//! residue back. Raising to `e` is then one-to-one on the residues, so at
//! most one of them satisfies the relation for a given digest, and a
//! signature that is changed in a single bit no longer does.

use crate::keys::{AssignedRSAPublicKey, AssignedRSASignature};
use crate::limbs::{limbs_value, nat_limbs};
use crate::relation::{exponent_value, relation_holds, signature_matches};
use vstd::arithmetic::div_mod::*;
use vstd::arithmetic::mul::*;
use vstd::arithmetic::power::*;
use vstd::arithmetic::power2::*;
use vstd::prelude::*;

verus! {

/// `x` raised to `e` and then to `d`, both modulo `modulus`.
pub open spec fn power_and_back(modulus: nat, e: nat, d: nat, x: nat) -> int {
    pow(pow(x as int, e) % (modulus as int), d) % (modulus as int)
}

/// Whether `d` undoes `e` modulo `modulus`: every residue comes back from
/// being raised to `e` and then to `d`.
pub open spec fn is_private_exponent(modulus: nat, e: nat, d: nat) -> bool {
    forall|x: nat| x < modulus ==> #[trigger] power_and_back(modulus, e, d, x) == x
}

/// With a private exponent at hand, two integers that satisfy the relation
/// for the same digest are the same residue: an integer of another residue
/// does not satisfy it.
pub proof fn lemma_signature_is_unique(
    modulus: nat,
    e: nat,
    d: nat,
    valid: nat,
    other: nat,
    encoded_bytes: nat,
    digest: Seq<u8>,
)
    requires
        modulus > 0,
        is_private_exponent(modulus, e, d),
        signature_matches(modulus, e, valid, encoded_bytes, digest),
        valid % modulus != other % modulus,
    ensures
        !signature_matches(modulus, e, other, encoded_bytes, digest),
{
    lemma_powers_differ(modulus, e, d, valid, other);
}

/// With a private exponent at hand, integers of different residues have
/// different powers.
pub proof fn lemma_powers_differ(modulus: nat, e: nat, d: nat, a: nat, b: nat)
    requires
        modulus > 0,
        is_private_exponent(modulus, e, d),
        a % modulus != b % modulus,
    ensures
        pow(a as int, e) % (modulus as int) != pow(b as int, e) % (modulus as int),
{
    let m = modulus as int;
    let ra = a % modulus;
    let rb = b % modulus;
    lemma_mod_bound(a as int, m);
    lemma_mod_bound(b as int, m);
    lemma_pow_mod_noop(a as int, e, m);
    lemma_pow_mod_noop(b as int, e, m);
    assert(power_and_back(modulus, e, d, ra) == ra);
    assert(power_and_back(modulus, e, d, rb) == rb);
}

/// An odd number above one divides no power of two.
pub proof fn lemma_odd_divides_no_pow2(modulus: nat, exponent: nat)
    requires
        modulus > 1,
        modulus % 2 == 1,
    ensures
        pow2(exponent) % modulus != 0,
    decreases exponent,
{
    lemma2_to64();
    if exponent == 0 {
        lemma_small_mod(1, modulus);
    } else {
        let lower = pow2((exponent - 1) as nat);
        lemma_pow2_unfold(exponent);
        lemma_odd_divides_no_pow2(modulus, (exponent - 1) as nat);
        if pow2(exponent) % modulus == 0 {
            let q = pow2(exponent) / modulus;
            lemma_fundamental_div_mod(pow2(exponent) as int, modulus as int);
            assert(2 * lower == modulus * q);
            let k = modulus / 2;
            let half = q / 2;
            if q % 2 == 1 {
                assert(modulus * q == 2 * (2 * k * half + k + half) + 1) by (nonlinear_arith)
                    requires
                        modulus == 2 * k + 1,
                        q == 2 * half + 1,
                ;
            }
            assert(modulus * q == 2 * (modulus * half)) by (nonlinear_arith)
                requires
                    q == 2 * half,
            ;
            lemma_mul_is_commutative(modulus as int, half as int);
            lemma_mod_multiples_basic(half as int, modulus as int);
        }
    }
}

/// Two integers that differ by a power of two are different residues of an
/// odd modulus above one.
pub proof fn lemma_pow2_apart_residues_differ(modulus: nat, a: nat, b: nat, exponent: nat)
    requires
        modulus > 1,
        modulus % 2 == 1,
        a == b + pow2(exponent) || b == a + pow2(exponent),
    ensures
        a % modulus != b % modulus,
{
    lemma_odd_divides_no_pow2(modulus, exponent);
    if a == b + pow2(exponent) {
        lemma_mod_equivalence(a as int, b as int, modulus as int);
    } else {
        lemma_mod_equivalence(b as int, a as int, modulus as int);
    }
}

/// Replacing limb `index` moves the value by the change of the limb, at
/// the weight of the limb.
pub proof fn lemma_limbs_value_update(limbs: Seq<nat>, index: int, limb: nat, bits: nat)
    requires
        0 <= index < limbs.len(),
    ensures
        limbs_value(limbs.update(index, limb), bits) - limbs_value(limbs, bits) == (limb
            - limbs[index]) * pow2(index as nat * bits),
    decreases index,
{
    lemma2_to64();
    let changed = limbs.update(index, limb);
    if index == 0 {
        assert(changed.skip(1) =~= limbs.skip(1));
        assert(0 * bits == 0);
    } else {
        let rest = limbs.skip(1);
        assert(changed.skip(1) =~= rest.update(index - 1, limb));
        lemma_limbs_value_update(rest, index - 1, limb, bits);
        lemma_pow2_adds(bits, (index - 1) as nat * bits);
        assert(index as nat * bits == bits + (index - 1) as nat * bits) by (nonlinear_arith)
            requires
                index >= 1,
        ;
        let delta = limb - limbs[index];
        let low = pow2((index - 1) as nat * bits);
        let a = limbs_value(changed.skip(1), bits);
        let b = limbs_value(rest, bits);
        let w = pow2(bits);
        assert(w * a - w * b == delta * (w * low)) by (nonlinear_arith)
            requires
                a - b == delta * low,
        ;
    }
}

/// Flipping bit `bit` of a limb adds or takes away `2^bit`.
pub proof fn lemma_flip_moves_by_pow2(limb: u128, bit: u32)
    requires
        bit < 128,
    ensures
        (limb ^ (1u128 << bit)) == limb + pow2(bit as nat) || limb == (limb ^ (1u128 << bit))
            + pow2(bit as nat),
{
    let mask = 1u128 << bit;
    assert(mask as nat == pow2(bit as nat)) by {
        lemma_one_shifted(bit);
    }
    assert((limb ^ mask) == limb + mask || limb == (limb ^ mask) + mask) by (bit_vector)
        requires
            mask == 1u128 << bit,
            bit < 128,
    ;
}

/// `1 << bit` on 128 bits is `2^bit`.
proof fn lemma_one_shifted(bit: u32)
    requires
        bit < 128,
    ensures
        (1u128 << bit) as nat == pow2(bit as nat),
    decreases bit,
{
    lemma2_to64();
    if bit == 0 {
        assert(1u128 << 0u32 == 1) by (bit_vector);
    } else {
        let lower = (bit - 1) as u32;
        lemma_one_shifted(lower);
        lemma_pow2_unfold(bit as nat);
        assert((1u128 << bit) == 2 * (1u128 << lower)) by (bit_vector)
            requires
                0 < bit < 128,
                lower == bit - 1,
        ;
    }
}

/// A flipped bit is found out: for a key with an odd modulus above one and
/// a private exponent, a signature that satisfies the relation no longer
/// satisfies it once a single bit of one of its limbs is flipped.
pub proof fn lemma_flipped_bit_is_rejected(
    public_key: AssignedRSAPublicKey,
    hashed_msg: Seq<nat>,
    signature: AssignedRSASignature,
    flipped: AssignedRSASignature,
    limb_bits: nat,
    d: nat,
    index: int,
    bit: u32,
)
    requires
        limbs_value(nat_limbs(public_key.n@), limb_bits) > 1,
        limbs_value(nat_limbs(public_key.n@), limb_bits) % 2 == 1,
        is_private_exponent(
            limbs_value(nat_limbs(public_key.n@), limb_bits),
            exponent_value(public_key.e),
            d,
        ),
        relation_holds(public_key, hashed_msg, signature, limb_bits),
        0 <= index < signature.c@.len(),
        bit < 128,
        flipped.c@ == signature.c@.update(index, signature.c@[index] ^ (1u128 << bit)),
    ensures
        !relation_holds(public_key, hashed_msg, flipped, limb_bits),
{
    let modulus = limbs_value(nat_limbs(public_key.n@), limb_bits);
    let before = nat_limbs(signature.c@);
    let after = nat_limbs(flipped.c@);
    let old_limb = signature.c@[index];
    let new_limb = old_limb ^ (1u128 << bit);
    let weight = index as nat * limb_bits;
    assert(after =~= before.update(index, new_limb as nat));
    lemma_limbs_value_update(before, index, new_limb as nat, limb_bits);
    lemma_flip_moves_by_pow2(old_limb, bit);
    lemma_pow2_adds(bit as nat, weight);
    let a = limbs_value(after, limb_bits);
    let b = limbs_value(before, limb_bits);
    let step = pow2(bit as nat);
    let scale = pow2(weight);
    assert(a == b + step * scale || b == a + step * scale) by (nonlinear_arith)
        requires
            a - b == (new_limb - old_limb) * scale,
            new_limb == old_limb + step || old_limb == new_limb + step,
    ;
    lemma_pow2_apart_residues_differ(modulus, a, b, bit as nat + weight);
    lemma_powers_differ(modulus, exponent_value(public_key.e), d, b, a);
}

} // verus!
