//! RSA public keys and signatures, before and after limb encoding.
//!
//! A key or signature that is "about to be assigned" holds an integer that
//! is either known or still to be supplied. Its assigned counterpart holds
//! the same integer as a sequence of limbs, least significant first, in the
//! limb width of the verifier it is handed to.

use num_bigint::BigUint;
use vstd::prelude::*;

verus! {

/// The exponent `e` of an RSA public key that is about to be assigned.
#[derive(Clone, Debug)]
pub enum RSAPubE {
    /// An exponent supplied as a witness: known, or not yet.
    Var(Option<BigUint>),
    /// An exponent fixed in advance.
    Fix(BigUint),
}

/// The exponent `e` of an assigned RSA public key.
#[derive(Clone, Debug)]
pub enum AssignedRSAPubE {
    /// A witnessed exponent, held in a single limb.
    Var(u128),
    /// An exponent fixed in advance.
    Fix(BigUint),
}

/// An RSA public key that is about to be assigned.
#[derive(Clone, Debug)]
pub struct RSAPublicKey {
    /// The modulus, where it is known.
    pub n: Option<BigUint>,
    /// The exponent.
    pub e: RSAPubE,
}

impl RSAPublicKey {
    /// A public key with modulus `n` and exponent `e`.
    pub fn new(n: Option<BigUint>, e: RSAPubE) -> (key: Self)
        ensures
            key.n == n,
            key.e == e,
    {
        Self { n, e }
    }

    /// A public key whose modulus is still to be supplied and whose
    /// exponent is fixed to `fix_e`.
    pub fn without_witness(fix_e: BigUint) -> (key: Self)
        ensures
            key.n is None,
            key.e == RSAPubE::Fix(fix_e),
    {
        Self { n: None, e: RSAPubE::Fix(fix_e) }
    }
}

/// An assigned RSA public key.
#[derive(Clone, Debug)]
pub struct AssignedRSAPublicKey {
    /// The limbs of the modulus, least significant first.
    pub n: Vec<u128>,
    /// The exponent.
    pub e: AssignedRSAPubE,
}

impl AssignedRSAPublicKey {
    /// An assigned public key from the limbs of its modulus and its exponent.
    pub fn new(n: Vec<u128>, e: AssignedRSAPubE) -> (key: Self)
        ensures
            key.n == n,
            key.e == e,
    {
        Self { n, e }
    }
}

/// An RSA signature that is about to be assigned.
#[derive(Clone, Debug)]
pub struct RSASignature {
    /// The integer of the signature, where it is known.
    pub c: Option<BigUint>,
}

impl RSASignature {
    /// A signature with integer `c`.
    pub fn new(c: Option<BigUint>) -> (signature: Self)
        ensures
            signature.c == c,
    {
        Self { c }
    }

    /// A signature whose integer is still to be supplied.
    pub fn without_witness() -> (signature: Self)
        ensures
            signature.c is None,
    {
        Self { c: None }
    }
}

/// An assigned RSA signature.
#[derive(Clone, Debug)]
pub struct AssignedRSASignature {
    /// The limbs of the signature's integer, least significant first.
    pub c: Vec<u128>,
}

impl AssignedRSASignature {
    /// An assigned signature from the limbs of its integer.
    pub fn new(c: Vec<u128>) -> (signature: Self)
        ensures
            signature.c == c,
    {
        Self { c }
    }
}

} // verus!
