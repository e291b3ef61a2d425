use num_bigint::BigUint;
use rand::rngs::StdRng;
use rand::{thread_rng, Rng, SeedableRng};
use rsa::pkcs1v15::SigningKey;
use sha2::{Digest, Sha256};
use rsa::signature::{SignatureEncoding, Signer};
use rsa::traits::PublicKeyParts;
use rsa::{RsaPrivateKey, RsaPublicKey};
use rsa_limbs::keys::{
    AssignedRSAPubE, AssignedRSAPublicKey, AssignedRSASignature, RSAPubE, RSAPublicKey,
    RSASignature,
};
use rsa_limbs::limbs::decompose_biguint;
use rsa_limbs::signature::{RSASignatureVerifier, VerifyError};

const KEY_A_P: &[u8] = b"c28f958772a342a325424a74e1d2871a2ab98edafaeb1cb964c2137b78bb6721\
      2382a714e503c94899264034301cfb38f237b7cb61d3c6db85c2e0356fe09e67\
      30a383b7b4a165d5d0cc8ea5ed369c0fb9f4c1e3aab2166c35d633166c7884e6\
      3f0d22f394ac12f98a9a7bed65996cae2e348a863239b5c8217083d505fc6fad";
const KEY_A_Q: &[u8] = b"f91bbc5a7c7bc4f753eb0006d955ccdee9f72bfee086d63e23ebc3a3259361fe\
      8ebd34c7abcf22e8ac5516dc132d229b1d787a3acc43efa7cb0a912066e48053\
      09ed017e8a4ee1e51b692f7350c844a09c101de08c4c624b1ca650908efefd21\
      d2709213eb42b1d1cceb3cab6a189645c43dc71e1469882603542524d9eaab1b";
const KEY_B_P: &[u8] = b"f97083f7f9a9ac65d249138ba36c9cbdc8a584340dc52d8af7bbc15e6d25ac7d\
      6ab1184ba4a7d5548a4a882a50e58ad593fee888379da806a28373fe145a308c\
      83957c64d8aae8663fafd009c4467fb55a0f1c7dec3fa61ed8f748e9d76c3b90\
      890dd6b8dbf733bc3272c577cb5f320589d65a4f340bdba6be4c7721b1173c85";
const KEY_B_Q: &[u8] = b"fcdb41af15f4720ab504a2027740b7f8e41047af1e479f0adde0831d7e789cbe\
      877cc18922a3d83487940cb6183f3f5c11675042751f1394340baddefd583a0a\
      0cac79366b8a8af16681872b61595f3e9b49aa7b356acbe363685f78531ed05e\
      83d6d8da9e5c8bd30f2fa610e6793687f0c6c594f33aa38ce2db01c84002dde3";
const SIGNATURE_A_OF_ZEROS: &[u8] = b"410d8d61995b77a544fe4ec11991ce783282c190dffbb3bfab8bd4e26d19cdb9\
      1de270a48fa665d62279b6676f757501ef445d9818a90fcaf8298626ce124d61\
      1df91796bfb2d59ff8d85b74ed03629945b1aaa2a21ff056096f4f8093d2089f\
      10fd52e23f3b305e42fa6c313984abf781540d085dd9aa900c90d4d29dcd4661\
      7b59d8a1a9e52eb46fa824c4bdcc5635f4a9e3b21ca068bccb8a7c879af28236\
      71e4be3e235ec4f03fa6c3a5c02122b6d46c7981e49bcb3fb36a953e663c6c61\
      1f84808d054deff8bed05bffc3e95eac38ceafbe6fd531cde28facb9ca63e5de\
      a4195036d1bf0b4c1cc5a05e0d1553e7651639835c20f90d83882444596cc760";
const DIGEST_OF_ZEROS: &[u8] = b"38723a2e5e8a17aa7950dc008209944e898f69a7bd10a23c839d341e935fd5ca";

const BITS_LEN: usize = 2048;
const MSG_LEN: usize = 1024;
const DEFAULT_E: u128 = 65537;

fn hex(digits: &[u8]) -> BigUint {
    BigUint::parse_bytes(digits, 16).unwrap()
}

fn private_key(p: &[u8], q: &[u8]) -> RsaPrivateKey {
    let p = rsa::BigUint::parse_bytes(p, 16).unwrap();
    let q = rsa::BigUint::parse_bytes(q, 16).unwrap();
    RsaPrivateKey::from_p_q(p, q, rsa::BigUint::from(65537u32)).unwrap()
}

fn key_a() -> RsaPrivateKey {
    private_key(KEY_A_P, KEY_A_Q)
}

fn key_b() -> RsaPrivateKey {
    private_key(KEY_B_P, KEY_B_Q)
}

fn modulus(key: &RsaPrivateKey) -> BigUint {
    let public_key = RsaPublicKey::from(key);
    BigUint::from_radix_le(&public_key.n().to_radix_le(16), 16).unwrap()
}

fn sign(key: &RsaPrivateKey, msg: &[u8]) -> BigUint {
    let signing_key = SigningKey::<Sha256>::new(key.clone());
    let sign = signing_key.sign(msg).to_vec();
    BigUint::from_bytes_be(&sign)
}

fn assigned_key(n: &BigUint, limb_bits: usize) -> AssignedRSAPublicKey {
    let e_fix = AssignedRSAPubE::Fix(BigUint::from(DEFAULT_E));
    AssignedRSAPublicKey::new(decompose_biguint(n, BITS_LEN / limb_bits, limb_bits), e_fix)
}

fn assigned_signature(c: &BigUint, limb_bits: usize) -> AssignedRSASignature {
    AssignedRSASignature::new(decompose_biguint(c, BITS_LEN / limb_bits, limb_bits))
}

fn verify(
    n: &BigUint,
    msg: &[u8],
    c: &BigUint,
    limb_bits: usize,
) -> Result<(bool, Vec<u8>), VerifyError> {
    let verifier = RSASignatureVerifier::new(limb_bits, MSG_LEN);
    verifier.verify_pkcs1v15_signature(
        &assigned_key(n, limb_bits),
        msg,
        &assigned_signature(c, limb_bits),
    )
}

// Seeds from which the search for the two primes of a key is short.
const KEY_SEEDS: [u64; 4] = [2, 3, 5, 6];

fn verify_random_message(private_key: RsaPrivateKey) {
    let mut rng = thread_rng();
    let public_key = RsaPublicKey::from(&private_key);
    let n = BigUint::from_radix_le(&public_key.n().to_radix_le(16), 16).unwrap();
    let mut msg: [u8; 128] = [0; 128];
    for i in 0..128 {
        msg[i] = rng.gen();
    }
    let hashed_msg = Sha256::digest(&msg);
    let num_limbs = 2048 / 64;
    let limb_bits = 64;
    let sign_big = sign(&private_key, &msg);
    let signature = AssignedRSASignature::new(decompose_biguint(&sign_big, num_limbs, limb_bits));
    let n_fes = decompose_biguint(&n, num_limbs, limb_bits);
    let e_fix = AssignedRSAPubE::Fix(BigUint::from(DEFAULT_E));
    let public_key = AssignedRSAPublicKey::new(n_fes, e_fix);
    let verifier = RSASignatureVerifier::new(limb_bits, MSG_LEN);
    let (is_valid, hashed) = verifier
        .verify_pkcs1v15_signature(&public_key, &msg, &signature)
        .unwrap();
    assert!(is_valid);
    assert_eq!(hashed, hashed_msg.to_vec());
}

#[test]
fn test_rsa_signature_with_hash_circuit1() {
    let mut rng = thread_rng();
    let seed = KEY_SEEDS[rng.gen_range(0..KEY_SEEDS.len())];
    let mut key_rng = StdRng::seed_from_u64(seed);
    let private_key =
        RsaPrivateKey::new(&mut key_rng, BITS_LEN).expect("failed to generate a key");
    assert_eq!(private_key.n().bits(), BITS_LEN);
    verify_random_message(private_key);
}

#[test]
fn random_message_under_a_fixed_key() {
    verify_random_message(key_a());
    verify_random_message(key_b());
}

#[test]
fn valid_signature_of_zero_message() {
    let key = key_a();
    let msg = [0u8; 128];
    let c = sign(&key, &msg);
    let (is_valid, digest) = verify(&modulus(&key), &msg, &c, 64).unwrap();
    assert!(is_valid);
    assert_eq!(digest, Sha256::digest(msg).to_vec());
    assert_eq!(BigUint::from_bytes_be(&digest), hex(DIGEST_OF_ZEROS));
}

#[test]
fn signature_made_elsewhere_is_accepted() {
    let key = key_a();
    let msg = [0u8; 128];
    assert_eq!(sign(&key, &msg), hex(SIGNATURE_A_OF_ZEROS));
    let result = verify(&modulus(&key), &msg, &hex(SIGNATURE_A_OF_ZEROS), 64);
    assert_eq!(result.map(|(valid, _)| valid), Ok(true));
}

#[test]
fn flipped_signature_bit_is_rejected() {
    let key = key_a();
    let msg = [0u8; 128];
    let n = modulus(&key);
    let c = sign(&key, &msg);
    for (limb, bit) in [(0usize, 0u32), (5, 17), (31, 62)] {
        let mut limbs = decompose_biguint(&c, 32, 64);
        limbs[limb] ^= 1u128 << bit;
        let verifier = RSASignatureVerifier::new(64, MSG_LEN);
        let (is_valid, digest) = verifier
            .verify_pkcs1v15_signature(&assigned_key(&n, 64), &msg, &AssignedRSASignature::new(limbs))
            .unwrap();
        assert!(!is_valid);
        assert_eq!(digest, Sha256::digest(msg).to_vec());
    }
}

#[test]
fn other_message_is_rejected() {
    let key = key_a();
    let c = sign(&key, &[0u8; 128]);
    let (is_valid, digest) = verify(&modulus(&key), &[1u8; 128], &c, 64).unwrap();
    assert!(!is_valid);
    assert_eq!(digest, Sha256::digest([1u8; 128]).to_vec());
}

#[test]
fn wrong_key_is_rejected() {
    let msg = [0u8; 128];
    let c = sign(&key_a(), &msg);
    let (is_valid, _) = verify(&modulus(&key_b()), &msg, &c, 64).unwrap();
    assert!(!is_valid);
    let (is_valid, _) = verify(&modulus(&key_a()), &msg, &c, 64).unwrap();
    assert!(is_valid);
}

#[test]
fn limb_width_does_not_change_the_outcome() {
    let key = key_a();
    let n = modulus(&key);
    let msg = [0u8; 128];
    let c = sign(&key, &msg);
    let other = sign(&key_b(), &msg);
    for limb_bits in [64usize, 32, 16, 8] {
        let (is_valid, digest) = verify(&n, &msg, &c, limb_bits).unwrap();
        assert!(is_valid, "width {}", limb_bits);
        assert_eq!(digest, Sha256::digest(msg).to_vec());
        let (is_valid, _) = verify(&n, &msg, &other, limb_bits).unwrap();
        assert!(!is_valid, "width {}", limb_bits);
    }
}

#[test]
fn width_that_is_no_whole_number_of_bytes_drops_digest_bits() {
    let key = key_a();
    let n = modulus(&key);
    let msg = [0u8; 128];
    let c = sign(&key, &msg);
    // 171 limbs of 12 bits hold the 2048 bits of the key, but each digest limb
    // is made of a single byte.
    let limb_bits = 12;
    let e_fix = AssignedRSAPubE::Fix(BigUint::from(DEFAULT_E));
    let public_key = AssignedRSAPublicKey::new(decompose_biguint(&n, 171, limb_bits), e_fix);
    let signature = AssignedRSASignature::new(decompose_biguint(&c, 171, limb_bits));
    let verifier = RSASignatureVerifier::new(limb_bits, MSG_LEN);
    let (is_valid, digest) = verifier
        .verify_pkcs1v15_signature(&public_key, &msg, &signature)
        .unwrap();
    assert!(!is_valid);
    assert_eq!(digest, Sha256::digest(msg).to_vec());
}

#[test]
fn witnessed_exponent_takes_the_general_path() {
    let key = key_a();
    let n = modulus(&key);
    let msg = b"a message of no particular length";
    let c = sign(&key, msg);
    let verifier = RSASignatureVerifier::new(64, MSG_LEN);
    let signature = assigned_signature(&c, 64);
    let with = |e: u128| {
        let public_key = AssignedRSAPublicKey::new(decompose_biguint(&n, 32, 64), AssignedRSAPubE::Var(e));
        verifier.verify_pkcs1v15_signature(&public_key, msg, &signature).unwrap().0
    };
    assert!(with(65537));
    assert!(!with(65539));
    assert!(!with(3));
}

#[test]
fn wrong_fixed_exponent_is_rejected() {
    let key = key_a();
    let n = modulus(&key);
    let msg = [0u8; 128];
    let c = sign(&key, &msg);
    let public_key =
        AssignedRSAPublicKey::new(decompose_biguint(&n, 32, 64), AssignedRSAPubE::Fix(BigUint::from(3u8)));
    let verifier = RSASignatureVerifier::new(64, MSG_LEN);
    let (is_valid, _) = verifier
        .verify_pkcs1v15_signature(&public_key, &msg, &assigned_signature(&c, 64))
        .unwrap();
    assert!(!is_valid);
}

#[test]
fn message_over_the_bound_fails_at_hashing() {
    let key = key_a();
    let n = modulus(&key);
    let msg = vec![0u8; MSG_LEN + 1];
    let c = sign(&key, &msg);
    assert_eq!(verify(&n, &msg, &c, 64), Err(VerifyError::Hashing));
    let msg = vec![0u8; MSG_LEN];
    let c = sign(&key, &msg);
    assert_eq!(verify(&n, &msg, &c, 64).map(|(valid, _)| valid), Ok(true));
}

#[test]
fn digest_of_wrong_length_fails_at_hashing() {
    let key = key_a();
    let n = modulus(&key);
    let c = sign(&key, &[0u8; 128]);
    let verifier = RSASignatureVerifier::new(64, MSG_LEN);
    let short = vec![0u8; 31];
    let result = verifier.verify_digest(&assigned_key(&n, 64), &short, &assigned_signature(&c, 64));
    assert_eq!(result, Err(VerifyError::Hashing));
    let long = vec![0u8; 33];
    let result = verifier.verify_digest(&assigned_key(&n, 64), &long, &assigned_signature(&c, 64));
    assert_eq!(result, Err(VerifyError::Hashing));
}

#[test]
fn given_digest_is_verified_like_the_message() {
    let key = key_a();
    let n = modulus(&key);
    let msg = [0u8; 128];
    let c = sign(&key, &msg);
    let verifier = RSASignatureVerifier::new(32, MSG_LEN);
    let digest = Sha256::digest(msg).to_vec();
    let result = verifier.verify_digest(&assigned_key(&n, 32), &digest, &assigned_signature(&c, 32));
    assert_eq!(result, Ok((true, digest.clone())));
    let mut other = digest.clone();
    other[31] ^= 1;
    let result = verifier.verify_digest(&assigned_key(&n, 32), &other, &assigned_signature(&c, 32));
    assert_eq!(result, Ok((false, other)));
}

#[test]
fn zero_modulus_fails_at_the_relation_check() {
    let msg = [0u8; 128];
    let c = sign(&key_a(), &msg);
    let zero = BigUint::from(0u8);
    assert_eq!(verify(&zero, &msg, &c, 64), Err(VerifyError::RelationCheck));
}

#[test]
fn key_too_short_for_an_encoding_fails_at_the_relation_check() {
    let msg = [0u8; 128];
    let n = modulus(&key_a());
    let c = sign(&key_a(), &msg);
    let verifier = RSASignatureVerifier::new(8, MSG_LEN);
    let e_fix = || AssignedRSAPubE::Fix(BigUint::from(DEFAULT_E));
    // 61 limbs of 8 bits: one byte short of the shortest encoded message.
    let short = AssignedRSAPublicKey::new(decompose_biguint(&n, 61, 8), e_fix());
    let result = verifier.verify_pkcs1v15_signature(&short, &msg, &assigned_signature(&c, 8));
    assert_eq!(result, Err(VerifyError::RelationCheck));
    let enough = AssignedRSAPublicKey::new(decompose_biguint(&n, 62, 8), e_fix());
    let result = verifier.verify_pkcs1v15_signature(&enough, &msg, &assigned_signature(&c, 8));
    assert_eq!(result.map(|(valid, _)| valid), Ok(false));
}

#[test]
fn verifier_reports_its_configuration() {
    let verifier = RSASignatureVerifier::new(64, MSG_LEN);
    assert_eq!(verifier.limb_bits(), 64);
    assert_eq!(verifier.max_message_len(), 1024);
}

#[test]
fn keys_and_signatures_hold_what_they_are_given() {
    let n = hex(b"c0ffee");
    let key = RSAPublicKey::new(Some(n.clone()), RSAPubE::Fix(BigUint::from(DEFAULT_E)));
    assert_eq!(key.n, Some(n.clone()));
    assert!(matches!(key.e, RSAPubE::Fix(ref e) if *e == BigUint::from(65537u32)));
    let key = RSAPublicKey::new(None, RSAPubE::Var(Some(BigUint::from(3u8))));
    assert_eq!(key.n, None);
    assert!(matches!(key.e, RSAPubE::Var(Some(ref e)) if *e == BigUint::from(3u8)));
    let key = RSAPublicKey::without_witness(BigUint::from(DEFAULT_E));
    assert_eq!(key.n, None);
    assert!(matches!(key.e, RSAPubE::Fix(ref e) if *e == BigUint::from(65537u32)));
    assert_eq!(RSASignature::new(Some(n.clone())).c, Some(n));
    assert_eq!(RSASignature::without_witness().c, None);
    let assigned = AssignedRSAPublicKey::new(vec![1, 2, 3], AssignedRSAPubE::Var(17));
    assert_eq!(assigned.n, vec![1, 2, 3]);
    assert!(matches!(assigned.e, AssignedRSAPubE::Var(17)));
    assert_eq!(AssignedRSASignature::new(vec![4, 5]).c, vec![4, 5]);
}

#[test]
fn clones_hold_the_same_integers() {
    let key = RSAPublicKey::new(Some(hex(KEY_A_P)), RSAPubE::Fix(hex(KEY_A_Q)));
    let copy = key.clone();
    assert_eq!(copy.n, Some(hex(KEY_A_P)));
    assert!(matches!(copy.e, RSAPubE::Fix(ref e) if *e == hex(KEY_A_Q)));
    let assigned = assigned_key(&hex(KEY_A_P), 64);
    let copy = assigned.clone();
    assert_eq!(copy.n, assigned.n);
    assert!(matches!(copy.e, AssignedRSAPubE::Fix(ref e) if *e == BigUint::from(DEFAULT_E)));
    let signature = assigned_signature(&hex(KEY_A_Q), 32);
    assert_eq!(signature.clone().c, signature.c);
}

#[test]
fn modulus_in_more_limbs_than_its_bytes_need_matches_no_signature() {
    let key = key_a();
    let n = modulus(&key);
    let msg = [0u8; 128];
    let c = sign(&key, &msg);
    let verifier = RSASignatureVerifier::new(64, MSG_LEN);
    let e_fix = AssignedRSAPubE::Fix(BigUint::from(DEFAULT_E));
    // 33 limbs of 64 bits make an encoded message of 264 bytes, which no
    // power modulo a modulus of 256 bytes can be.
    let wide = AssignedRSAPublicKey::new(decompose_biguint(&n, 33, 64), e_fix);
    let signature = AssignedRSASignature::new(decompose_biguint(&c, 33, 64));
    let (is_valid, digest) = verifier
        .verify_pkcs1v15_signature(&wide, &msg, &signature)
        .unwrap();
    assert!(!is_valid);
    assert_eq!(digest, Sha256::digest(msg).to_vec());
    // The length of the signature's limb vector does not matter.
    let (is_valid, _) = verifier
        .verify_pkcs1v15_signature(&assigned_key(&n, 64), &msg, &signature)
        .unwrap();
    assert!(is_valid);
}
