//! Verification of a PKCS#1 v1.5 signature over a message.
//!
//! The verifier hashes the message, reverses the digest and packs it into
//! limbs of its limb width, and asks whether the RSA relation holds between
//! the public key, the signature and those limbs. It answers with the
//! validity bit and the digest, in the byte order the hash produced.

use crate::digest::{
    pack_digest_limbs, packed_limbs, reverse_bytes, sha256, sha256_digest, DIGEST_BYTES,
};
use crate::keys::{AssignedRSAPublicKey, AssignedRSASignature};
use crate::relation::{relation_defined, relation_holds, verify_relation};
use vstd::prelude::*;

verus! {

/// The stage at which a verification failed to produce an answer.
#[derive(Debug, Clone, Copy, PartialEq, Eq, Structural)]
pub enum VerifyError {
    /// The message could not be hashed to a digest of 32 bytes.
    Hashing,
    /// The relation between key, signature and digest could not be evaluated.
    RelationCheck,
}

/// Verifies PKCS#1 v1.5 signatures with SHA-256 over integers held in limbs
/// of a fixed width.
#[derive(Debug, Clone, Copy)]
pub struct RSASignatureVerifier {
    limb_bits: usize,
    max_message_len: usize,
}

/// The answer that is owed for a digest: the validity bit of the relation
/// for the limbs of the reversed digest, together with the digest.
pub open spec fn digest_verdict(
    public_key: AssignedRSAPublicKey,
    digest: Seq<u8>,
    signature: AssignedRSASignature,
    limb_bits: nat,
    result: Result<(bool, Vec<u8>), VerifyError>,
) -> bool {
    match result {
        Ok((valid, bytes)) => {
            &&& relation_defined(public_key, limb_bits)
            &&& valid == relation_holds(
                public_key,
                packed_limbs(digest.reverse(), limb_bits),
                signature,
                limb_bits,
            )
            &&& bytes@ == digest
            &&& bytes@.len() == DIGEST_BYTES
        },
        Err(VerifyError::RelationCheck) => !relation_defined(public_key, limb_bits),
        Err(VerifyError::Hashing) => false,
    }
}

impl RSASignatureVerifier {
    #[verifier::type_invariant]
    spec fn well_formed(self) -> bool {
        0 < self.limb_bits < 128
    }

    /// The width in bits of the limbs that keys, signatures and digests are
    /// held in.
    pub closed spec fn limb_width(self) -> nat {
        self.limb_bits as nat
    }

    /// The length in bytes of the longest message that is hashed.
    pub closed spec fn message_bound(self) -> nat {
        self.max_message_len as nat
    }

    /// A verifier for limbs of `limb_bits` bits that hashes messages of up
    /// to `max_message_len` bytes.
    pub fn new(limb_bits: usize, max_message_len: usize) -> (verifier: Self)
        requires
            0 < limb_bits < 128,
        ensures
            verifier.limb_width() == limb_bits,
            verifier.message_bound() == max_message_len,
    {
        Self { limb_bits, max_message_len }
    }

    /// The limb width of this verifier, between 1 and 127.
    pub fn limb_bits(&self) -> (bits: usize)
        ensures
            bits == self.limb_width(),
            0 < bits < 128,
    {
        proof {
            use_type_invariant(self);
        }
        self.limb_bits
    }

    /// The message bound of this verifier.
    pub fn max_message_len(&self) -> (len: usize)
        ensures
            len == self.message_bound(),
    {
        self.max_message_len
    }

    /// Verifies `signature` under `public_key` for a message whose digest is
    /// given.
    ///
    /// A digest that is not 32 bytes long is a failure of hashing; a key for
    /// which the relation is not defined is a failure of the relation check.
    pub fn verify_digest(
        &self,
        public_key: &AssignedRSAPublicKey,
        digest: &Vec<u8>,
        signature: &AssignedRSASignature,
    ) -> (result: Result<(bool, Vec<u8>), VerifyError>)
        ensures
            digest.len() == DIGEST_BYTES ==> digest_verdict(
                *public_key,
                digest@,
                *signature,
                self.limb_width(),
                result,
            ),
            digest.len() != DIGEST_BYTES ==> result == Err::<(bool, Vec<u8>), VerifyError>(
                VerifyError::Hashing,
            ),
    {
        proof {
            use_type_invariant(self);
        }
        if digest.len() != DIGEST_BYTES {
            return Err(VerifyError::Hashing);
        }
        let hashed_bytes = reverse_bytes(digest);
        let hashed_limbs = pack_digest_limbs(&hashed_bytes, self.limb_bits);
        match verify_relation(public_key, &hashed_limbs, signature, self.limb_bits) {
            None => Err(VerifyError::RelationCheck),
            Some(is_sign_valid) => {
                let hashed_bytes = reverse_bytes(&hashed_bytes);
                assert(hashed_bytes@ =~= digest@);
                Ok((is_sign_valid, hashed_bytes))
            },
        }
    }

    /// Verifies `signature` under `public_key` for the message `msg`: hashes
    /// the message with SHA-256 and decides whether the signature, raised to
    /// the key's exponent modulo its modulus, is the PKCS#1 v1.5 encoding of
    /// the digest. Returns the validity bit and the digest.
    ///
    /// A message longer than the verifier's bound is a failure of hashing.
    ///
    /// The encoding is as long as the limbs of the modulus: `public_key.n`
    /// has to hold the modulus in just as many limbs as its bytes need, and
    /// `signature.c` the signature at the same width. For a modulus that is
    /// held in more limbs no signature is valid (see `relation_defined`).
    /// Where the limb width is no whole number of bytes, or does not divide
    /// the 256 bits of the digest, packing leaves digest bits out and a
    /// signature that is valid by the standard is not valid here (see
    /// `lemma_aligned_relation` for the widths at which the two agree).
    pub fn verify_pkcs1v15_signature(
        &self,
        public_key: &AssignedRSAPublicKey,
        msg: &[u8],
        signature: &AssignedRSASignature,
    ) -> (result: Result<(bool, Vec<u8>), VerifyError>)
        ensures
            msg@.len() <= self.message_bound() ==> digest_verdict(
                *public_key,
                sha256(msg@),
                *signature,
                self.limb_width(),
                result,
            ),
            msg@.len() > self.message_bound() ==> result == Err::<(bool, Vec<u8>), VerifyError>(
                VerifyError::Hashing,
            ),
    {
        if msg.len() > self.max_message_len {
            return Err(VerifyError::Hashing);
        }
        let digest = sha256_digest(msg);
        self.verify_digest(public_key, &digest, signature)
    }
}

} // verus!
