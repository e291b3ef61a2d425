//! The RSA relation behind a PKCS#1 v1.5 signature with SHA-256.
//!
//! A signature `s` is valid for a digest under the public key `(n, e)` when
//! `s^e mod n` is the encoded message: the bytes `00 01 FF .. FF 00`, the
//! DER header of a SHA-256 digest, and the digest itself, read as one
//! big-endian integer as long as the modulus.

use crate::bignum::{biguint_add, biguint_eq, biguint_from_u128, biguint_shl, biguint_value};
use crate::digest::{
    be_bytes_value, byte_aligned, lemma_aligned_packing, nat_bytes, packed_limbs, reverse_bytes,
    DIGEST_BYTES,
};
use crate::keys::{AssignedRSAPubE, AssignedRSAPublicKey, AssignedRSASignature};
use crate::limbs::{compose_limbs, lemma_round_trip, limbs_of, limbs_value, nat_limbs};
use vstd::arithmetic::power::pow;
use vstd::arithmetic::power2::pow2;
use vstd::prelude::*;

verus! {

/// The number of bits of a SHA-256 digest.
pub const DIGEST_BITS: usize = 256;

/// The number of bytes of the encoded message besides its run of `FF`
/// bytes: two in front, one behind, the header and the digest.
pub const FIXED_ENCODING_BYTES: usize = 54;

/// The shortest encoded message: its run of `FF` bytes has at least eight.
pub const MIN_ENCODING_BYTES: usize = 62;

/// The DER header that precedes a SHA-256 digest in the encoded message.
pub open spec fn digest_info() -> Seq<u8> {
    seq![
        0x30u8,
        0x31u8,
        0x30u8,
        0x0du8,
        0x06u8,
        0x09u8,
        0x60u8,
        0x86u8,
        0x48u8,
        0x01u8,
        0x65u8,
        0x03u8,
        0x04u8,
        0x02u8,
        0x01u8,
        0x05u8,
        0x00u8,
        0x04u8,
        0x20u8,
    ]
}

/// The encoded message of `encoded_bytes` bytes without its digest, most
/// significant byte first.
pub open spec fn encoding_prefix(encoded_bytes: nat) -> Seq<u8> {
    seq![0x00u8, 0x01u8] + Seq::new(
        (encoded_bytes - FIXED_ENCODING_BYTES) as nat,
        |i: int| 0xffu8,
    ) + seq![0x00u8] + digest_info()
}

/// The integer that the bytes of `encoding_prefix` stand for.
pub open spec fn encoding_prefix_value(encoded_bytes: nat) -> nat {
    be_bytes_value(encoding_prefix(encoded_bytes))
}

/// The encoded message of `encoded_bytes` bytes for the digest `hash`, as
/// an integer: the prefix, followed by the 256 bits of the digest.
pub open spec fn encoded_message(encoded_bytes: nat, hash: nat) -> nat {
    encoding_prefix_value(encoded_bytes) * pow2(DIGEST_BITS as nat) + hash
}

/// The integer of an assigned exponent.
pub open spec fn exponent_value(e: AssignedRSAPubE) -> nat {
    match e {
        AssignedRSAPubE::Var(limb) => limb as nat,
        AssignedRSAPubE::Fix(fixed) => biguint_value(fixed),
    }
}

/// The length in bytes of an integer of `limbs` limbs of `limb_bits` bits.
pub open spec fn encoded_bytes(limbs: nat, limb_bits: nat) -> nat {
    limbs * limb_bits / 8
}

/// Whether the relation can be evaluated for this key: its modulus is not
/// zero, and an integer as long as the modulus has room for an encoded
/// message and a length that the machine can count.
///
/// The length of the modulus is the length of its limbs, `encoded_bytes` of
/// their number, not the length of the integer they hold. The encoded
/// message is as long as that, so a modulus has to be cut into just as many
/// limbs as its bytes need: one that is held in more limbs, such as a
/// modulus of 2048 bits in 33 limbs of 64 bits, is compared with an encoded
/// message that is longer than any power modulo it, and the relation holds
/// for no signature.
pub open spec fn relation_defined(public_key: AssignedRSAPublicKey, limb_bits: nat) -> bool {
    &&& limbs_value(nat_limbs(public_key.n@), limb_bits) != 0
    &&& MIN_ENCODING_BYTES <= encoded_bytes(public_key.n@.len(), limb_bits) <= usize::MAX
}

/// The relation itself: the signature raised to the exponent, modulo the
/// modulus, is the encoded message for the digest that `hashed_msg` holds.
/// All three integers are read from their limbs at the width `limb_bits`.
pub open spec fn relation_holds(
    public_key: AssignedRSAPublicKey,
    hashed_msg: Seq<nat>,
    signature: AssignedRSASignature,
    limb_bits: nat,
) -> bool {
    let modulus = limbs_value(nat_limbs(public_key.n@), limb_bits);
    let base = limbs_value(nat_limbs(signature.c@), limb_bits);
    let hash = limbs_value(hashed_msg, limb_bits);
    pow(base as int, exponent_value(public_key.e)) % (modulus as int) == encoded_message(
        encoded_bytes(public_key.n@.len(), limb_bits),
        hash,
    )
}

/// The relation as the standard states it: the signature raised to the
/// exponent, modulo the modulus, is the encoded message for `digest`, an
/// integer of `encoded_bytes` bytes.
pub open spec fn signature_matches(
    modulus: nat,
    exponent: nat,
    base: nat,
    encoded_bytes: nat,
    digest: Seq<u8>,
) -> bool {
    pow(base as int, exponent) % (modulus as int) == encoded_message(
        encoded_bytes,
        be_bytes_value(digest),
    )
}

/// Where the limbs are made of whole bytes and a digest fills a whole
/// number of them, the relation over the packed limbs of the reversed
/// digest is the relation as the standard states it.
pub proof fn lemma_aligned_relation(
    public_key: AssignedRSAPublicKey,
    digest: Seq<u8>,
    signature: AssignedRSASignature,
    limb_bits: nat,
)
    requires
        byte_aligned(limb_bits),
        (digest.len() * 8) % limb_bits == 0,
    ensures
        relation_holds(
            public_key,
            packed_limbs(digest.reverse(), limb_bits),
            signature,
            limb_bits,
        ) == signature_matches(
            limbs_value(nat_limbs(public_key.n@), limb_bits),
            exponent_value(public_key.e),
            limbs_value(nat_limbs(signature.c@), limb_bits),
            encoded_bytes(public_key.n@.len(), limb_bits),
            digest,
        ),
{
    assert(digest.reverse().len() == digest.len());
    lemma_aligned_packing(digest.reverse(), limb_bits);
}

/// Limb-width invariance: a modulus and a signature integer, cut into limbs
/// at two byte-aligned widths that divide the digest, with the same total
/// number of bits and enough of them to hold both integers, give the same
/// answer at both widths.
pub proof fn lemma_limb_width_invariance(
    modulus: nat,
    base: nat,
    digest: Seq<u8>,
    key_a: AssignedRSAPublicKey,
    signature_a: AssignedRSASignature,
    bits_a: nat,
    key_b: AssignedRSAPublicKey,
    signature_b: AssignedRSASignature,
    bits_b: nat,
)
    requires
        digest.len() == DIGEST_BYTES,
        byte_aligned(bits_a),
        byte_aligned(bits_b),
        (DIGEST_BYTES * 8) % (bits_a as int) == 0,
        (DIGEST_BYTES * 8) % (bits_b as int) == 0,
        key_a.n@.len() * bits_a == key_b.n@.len() * bits_b,
        modulus < pow2(key_a.n@.len() * bits_a),
        base < pow2(key_a.n@.len() * bits_a),
        nat_limbs(key_a.n@) == limbs_of(modulus, key_a.n@.len(), bits_a),
        nat_limbs(key_b.n@) == limbs_of(modulus, key_b.n@.len(), bits_b),
        nat_limbs(signature_a.c@) == limbs_of(base, key_a.n@.len(), bits_a),
        nat_limbs(signature_b.c@) == limbs_of(base, key_b.n@.len(), bits_b),
        exponent_value(key_a.e) == exponent_value(key_b.e),
    ensures
        relation_defined(key_a, bits_a) == relation_defined(key_b, bits_b),
        relation_holds(key_a, packed_limbs(digest.reverse(), bits_a), signature_a, bits_a)
            == relation_holds(
            key_b,
            packed_limbs(digest.reverse(), bits_b),
            signature_b,
            bits_b,
        ),
{
    lemma_round_trip(modulus, key_a.n@.len(), bits_a);
    lemma_round_trip(modulus, key_b.n@.len(), bits_b);
    lemma_round_trip(base, key_a.n@.len(), bits_a);
    lemma_round_trip(base, key_b.n@.len(), bits_b);
    lemma_aligned_relation(key_a, digest, signature_a, bits_a);
    lemma_aligned_relation(key_b, digest, signature_b, bits_b);
}

/// The bytes of `encoding_prefix`, least significant first, one per limb.
fn encoding_prefix_limbs(encoded_bytes: usize) -> (limbs: Vec<u128>)
    requires
        encoded_bytes >= MIN_ENCODING_BYTES,
    ensures
        nat_limbs(limbs@) == nat_bytes(encoding_prefix(encoded_bytes as nat).reverse()),
{
    let info: [u8; 19] = [
        0x30,
        0x31,
        0x30,
        0x0d,
        0x06,
        0x09,
        0x60,
        0x86,
        0x48,
        0x01,
        0x65,
        0x03,
        0x04,
        0x02,
        0x01,
        0x05,
        0x00,
        0x04,
        0x20,
    ];
    assert(info@ =~= digest_info());
    let run: usize = encoded_bytes - FIXED_ENCODING_BYTES;
    let mut prefix: Vec<u8> = Vec::new();
    prefix.push(0x00);
    prefix.push(0x01);
    let mut i: usize = 0;
    while i < run
        invariant
            i <= run,
            prefix@ == seq![0x00u8, 0x01u8] + Seq::new(i as nat, |k: int| 0xffu8),
        decreases run - i,
    {
        prefix.push(0xff);
        i = i + 1;
        assert(prefix@ =~= seq![0x00u8, 0x01u8] + Seq::new(i as nat, |k: int| 0xffu8));
    }
    prefix.push(0x00);
    let ghost head = seq![0x00u8, 0x01u8] + Seq::new(run as nat, |k: int| 0xffu8) + seq![0x00u8];
    assert(prefix@ =~= head);
    let mut j: usize = 0;
    while j < 19
        invariant
            j <= 19,
            info@ == digest_info(),
            prefix@ == head + digest_info().subrange(0, j as int),
        decreases 19 - j,
    {
        prefix.push(info[j]);
        j = j + 1;
        assert(prefix@ =~= head + digest_info().subrange(0, j as int));
    }
    assert(prefix@ =~= encoding_prefix(encoded_bytes as nat));
    let reversed = reverse_bytes(&prefix);
    let mut limbs: Vec<u128> = Vec::new();
    let mut k: usize = 0;
    while k < reversed.len()
        invariant
            k <= reversed.len(),
            limbs.len() == k,
            forall|m: int| 0 <= m < k ==> limbs[m] == reversed[m],
        decreases reversed.len() - k,
    {
        limbs.push(reversed[k] as u128);
        k = k + 1;
    }
    assert(nat_limbs(limbs@) =~= nat_bytes(reversed@));
    limbs
}

/// Decides the relation for a public key, a digest and a signature that are
/// given by their limbs of `limb_bits` bits: `None` where the relation is
/// not defined for the key, else whether it holds.
///
/// The encoded message is as long as the limbs of the modulus, whatever
/// integer they hold (see `relation_defined`).
///
/// A fixed exponent is used as it stands; a witnessed one is first made
/// into an integer.
pub fn verify_relation(
    public_key: &AssignedRSAPublicKey,
    hashed_msg: &Vec<u128>,
    signature: &AssignedRSASignature,
    limb_bits: usize,
) -> (result: Option<bool>)
    requires
        limb_bits < 128,
    ensures
        relation_defined(*public_key, limb_bits as nat) ==> result == Some(
            relation_holds(*public_key, nat_limbs(hashed_msg@), *signature, limb_bits as nat),
        ),
        !relation_defined(*public_key, limb_bits as nat) ==> result is None,
{
    let modulus = compose_limbs(&public_key.n, limb_bits);
    let zero = biguint_from_u128(0);
    if biguint_eq(&modulus, &zero) {
        return None;
    }
    let count = public_key.n.len();
    assert(count * limb_bits <= 0xffff_ffff_ffff_ffff * 128) by (nonlinear_arith)
        requires
            count <= 0xffff_ffff_ffff_ffff,
            limb_bits < 128,
    ;
    let length: u128 = (count as u128) * (limb_bits as u128) / 8;
    if length < MIN_ENCODING_BYTES as u128 || length > usize::MAX as u128 {
        return None;
    }
    let prefix = encoding_prefix_limbs(length as usize);
    let prefix_value = compose_limbs(&prefix, 8);
    let hash_value = compose_limbs(hashed_msg, limb_bits);
    let expected = biguint_add(biguint_shl(prefix_value, DIGEST_BITS), &hash_value);
    let base = compose_limbs(&signature.c, limb_bits);
    let power = match &public_key.e {
        AssignedRSAPubE::Fix(fixed) => base.modpow(fixed, &modulus),
        AssignedRSAPubE::Var(limb) => {
            let exponent = biguint_from_u128(*limb);
            base.modpow(&exponent, &modulus)
        },
    };
    Some(biguint_eq(&power, &expected))
}

} // verus!
