//! Verification of RSA PKCS#1 v1.5 signatures over integers that are held
//! as sequences of fixed-width limbs.
//!
//! - `limbs` cuts arbitrary-precision integers into limbs and sums limbs
//!   back up, and states how the two relate.
//! - `keys` holds public keys and signatures, before and after they are cut
//!   into limbs.
//! - `digest` hashes a message and packs the digest into limbs.
//! - `relation` decides whether a signature, raised to the public exponent
//!   modulo the modulus, is the encoded message of a digest.
//! - `signature` puts the three together, and `forgery` states what the
//!   relation rules out for a key that has a private exponent.
//! - `timestamp` counts the seconds from the Unix epoch to a date.
//! - `bignum` states what is taken on trust of `num_bigint`, and `arith`
//!   holds the facts about powers of two that the proofs rest on.

pub mod arith;
pub mod bignum;
pub mod digest;
pub mod forgery;
pub mod keys;
pub mod limbs;
pub mod relation;
pub mod signature;
pub mod timestamp;

pub use keys::{
    AssignedRSAPubE, AssignedRSAPublicKey, AssignedRSASignature, RSAPubE, RSAPublicKey,
    RSASignature,
};
pub use limbs::{decompose_bigint, decompose_biguint, decompose_u64_digits_to_limbs};
pub use signature::{RSASignatureVerifier, VerifyError};
pub use timestamp::TimestampCircuit;
