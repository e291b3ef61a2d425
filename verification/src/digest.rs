//! The message digest and its limb layout.
//!
//! A digest travels as bytes in the order the hash function produced them,
//! most significant first. The integers of this crate are little-endian, so
//! the bytes are reversed before they are packed: window `i` of the reversed
//! bytes, `limb_bits / 8` bytes long, becomes limb `i`.

use crate::arith::lemma_pow2_monotone;
use crate::limbs::{lemma_limbs_value_bound, lemma_limbs_value_concat, limbs_value, nat_limbs};
use rsa::sha2::{Digest, Sha256};
use vstd::arithmetic::power2::*;
use vstd::prelude::*;

verus! {

/// The length in bytes of a SHA-256 digest.
pub const DIGEST_BYTES: usize = 32;

/// The SHA-256 digest of `message`, as `Sha256::digest` computes it.
pub uninterp spec fn sha256(message: Seq<u8>) -> Seq<u8>;

/// `Digest::digest` for `Sha256`, as re-exported by the `rsa` crate: the
/// SHA-256 digest of `message`, which is 32 bytes long. This is the
/// definition of `sha256`.
#[verifier::external_body]
pub(crate) fn sha256_digest(message: &[u8]) -> (digest: Vec<u8>)
    ensures
        digest@ == sha256(message@),
        digest@.len() == DIGEST_BYTES,
{
    Sha256::digest(message).to_vec()
}

/// Bytes as natural numbers.
pub open spec fn nat_bytes(bytes: Seq<u8>) -> Seq<nat> {
    Seq::new(bytes.len(), |i: int| bytes[i] as nat)
}

/// The little-endian integer of the `len` bytes of `bytes` from `start` on:
/// byte `j` of the window weighs `256^j`.
pub open spec fn window_value(bytes: Seq<u8>, start: int, len: int) -> nat {
    limbs_value(nat_bytes(bytes.subrange(start, start + len)), 8)
}

/// The limbs that `bytes` are packed into for limbs of `limb_bits` bits:
/// one for each whole multiple of `limb_bits` in the bit length of `bytes`,
/// each made of `limb_bits / 8` bytes. Bytes beyond the last window, and the
/// bits of a limb above its last whole byte, belong to no limb.
pub open spec fn packed_limbs(bytes: Seq<u8>, limb_bits: nat) -> Seq<nat> {
    Seq::new(
        (bytes.len() * 8 / limb_bits) as nat,
        |i: int| window_value(bytes, i * (limb_bits / 8), (limb_bits / 8) as int),
    )
}

/// The integer that `bytes` stand for, most significant byte first.
pub open spec fn be_bytes_value(bytes: Seq<u8>) -> nat {
    limbs_value(nat_bytes(bytes.reverse()), 8)
}

/// Whether limbs of `limb_bits` bits are made of whole bytes that fill them.
pub open spec fn byte_aligned(limb_bits: nat) -> bool {
    limb_bits > 0 && limb_bits % 8 == 0
}

/// Packing loses nothing where the limbs are made of whole bytes and the
/// bytes fill a whole number of limbs: the limbs then stand, at their own
/// width, for the little-endian integer of all the bytes.
pub proof fn lemma_aligned_packing(bytes: Seq<u8>, limb_bits: nat)
    requires
        byte_aligned(limb_bits),
        (bytes.len() * 8) % limb_bits == 0,
    ensures
        limbs_value(packed_limbs(bytes, limb_bits), limb_bits) == limbs_value(
            nat_bytes(bytes),
            8,
        ),
    decreases bytes.len(),
{
    let width = limb_bits / 8;
    let count = bytes.len() * 8 / limb_bits;
    let packed = packed_limbs(bytes, limb_bits);
    assert(width * 8 == limb_bits);
    assert(count * limb_bits == bytes.len() * 8) by (nonlinear_arith)
        requires
            count == bytes.len() * 8 / limb_bits,
            (bytes.len() * 8) % limb_bits == 0,
            limb_bits > 0,
    ;
    assert(count * width == bytes.len()) by (nonlinear_arith)
        requires
            count * limb_bits == bytes.len() * 8,
            width * 8 == limb_bits,
    ;
    if count == 0 {
        assert(nat_bytes(bytes) =~= Seq::<nat>::empty());
    } else {
        assert(width <= bytes.len()) by (nonlinear_arith)
            requires
                count * width == bytes.len(),
                count >= 1,
        ;
        let first = bytes.subrange(0, width as int);
        let rest = bytes.skip(width as int);
        assert((rest.len() * 8) % limb_bits == 0 && rest.len() * 8 / limb_bits == count - 1)
            by (nonlinear_arith)
            requires
                rest.len() == bytes.len() - width,
                width * 8 == limb_bits,
                count * limb_bits == bytes.len() * 8,
                limb_bits > 0,
                count >= 1,
        ;
        assert(rest.len() == (count - 1) * width) by (nonlinear_arith)
            requires
                rest.len() == bytes.len() - width,
                count * width == bytes.len(),
        ;
        lemma_aligned_packing(rest, limb_bits);
        let packed_rest = packed_limbs(rest, limb_bits);
        assert(packed.skip(1) =~= packed_rest) by {
            assert forall|i: int| 0 <= i < count - 1 implies packed.skip(1)[i]
                == packed_rest[i] by {
                assert((i + 1) * width == i * width + width) by (nonlinear_arith);
                assert(0 <= i * width && i * width + width <= rest.len()) by (nonlinear_arith)
                    requires
                        0 <= i < count - 1,
                        rest.len() == (count - 1) * width,
                ;
                assert(rest.subrange(i * width, i * width + width) =~= bytes.subrange(
                    (i + 1) * width,
                    (i + 1) * width + width,
                ));
            }
        }
        assert(packed[0] == limbs_value(nat_bytes(first), 8)) by {
            assert(0 * width == 0);
        }
        lemma_limbs_value_concat(nat_bytes(first), nat_bytes(rest), 8);
        assert(nat_bytes(first) + nat_bytes(rest) =~= nat_bytes(bytes));
        assert(nat_bytes(first).len() * 8 == limb_bits);
    }
}

/// The bytes of `bytes` in reverse order.
pub fn reverse_bytes(bytes: &Vec<u8>) -> (reversed: Vec<u8>)
    ensures
        reversed@ == bytes@.reverse(),
{
    let mut reversed: Vec<u8> = Vec::new();
    let mut i: usize = bytes.len();
    while i > 0
        invariant
            i <= bytes.len(),
            reversed.len() == bytes.len() - i,
            forall|j: int| 0 <= j < reversed.len() ==> reversed[j] == bytes[bytes.len() - 1 - j],
        decreases i,
    {
        i = i - 1;
        reversed.push(bytes[i]);
    }
    assert(reversed@ =~= bytes@.reverse());
    reversed
}

/// The windows of a packing lie inside the bytes that are packed.
proof fn lemma_windows_fit(len: nat, limb_bits: nat)
    requires
        limb_bits > 0,
    ensures
        (len * 8 / limb_bits) * (limb_bits / 8) <= len,
{
    let count = len * 8 / limb_bits;
    let width = limb_bits / 8;
    assert(count * limb_bits <= len * 8) by (nonlinear_arith)
        requires
            count == len * 8 / limb_bits,
            limb_bits > 0,
    ;
    assert(count * width * 8 <= count * limb_bits) by (nonlinear_arith)
        requires
            width * 8 <= limb_bits,
    ;
    assert(count * width * 8 == (count * width) * 8) by (nonlinear_arith);
}

/// Packs `bytes` into limbs of `limb_bits` bits, as `packed_limbs` lays
/// them out.
pub fn pack_digest_limbs(bytes: &Vec<u8>, limb_bits: usize) -> (limbs: Vec<u128>)
    requires
        0 < limb_bits < 128,
        bytes.len() * 8 <= usize::MAX,
    ensures
        nat_limbs(limbs@) == packed_limbs(bytes@, limb_bits as nat),
{
    let limb_bytes: usize = limb_bits / 8;
    let count: usize = bytes.len() * 8 / limb_bits;
    let mut limbs: Vec<u128> = Vec::new();
    proof {
        lemma_windows_fit(bytes.len() as nat, limb_bits as nat);
    }
    while limbs.len() < count
        invariant
            limbs.len() <= count,
            limb_bytes == limb_bits / 8,
            limb_bytes <= 15,
            count * limb_bytes <= bytes.len(),
            forall|k: int|
                0 <= k < limbs.len() ==> limbs[k] as nat == window_value(
                    bytes@,
                    k * limb_bytes,
                    limb_bytes as int,
                ),
        decreases count - limbs.len(),
    {
        let i: usize = limbs.len();
        proof {
            assert((i + 1) * limb_bytes <= count * limb_bytes) by (nonlinear_arith)
                requires
                    i + 1 <= count,
            ;
            assert((i + 1) * limb_bytes == i * limb_bytes + limb_bytes) by (nonlinear_arith);
        }
        let start: usize = i * limb_bytes;
        let ghost window = nat_bytes(bytes@.subrange(start as int, start + limb_bytes));
        let mut sum: u128 = 0;
        let mut j: usize = limb_bytes;
        proof {
            assert(window.skip(j as int).len() == 0);
        }
        while j > 0
            invariant
                j <= limb_bytes <= 15,
                start + limb_bytes <= bytes.len(),
                window == nat_bytes(bytes@.subrange(start as int, start + limb_bytes)),
                sum as nat == limbs_value(window.skip(j as int), 8),
            decreases j,
        {
            proof {
                let above = window.skip(j as int);
                assert forall|k: int| 0 <= k < above.len() implies above[k] < pow2(8) by {
                    lemma2_to64();
                }
                lemma_limbs_value_bound(above, 8);
                lemma_pow2_monotone(above.len() * 8, 112);
                lemma_pow2_adds(64, 48);
                lemma2_to64();
                lemma2_to64_rest();
            }
            j = j - 1;
            proof {
                let here = window.skip(j as int);
                assert(here.skip(1) =~= window.skip(j as int + 1));
                assert(here[0] == bytes[start + j] as nat);
                lemma2_to64();
            }
            sum = sum * 256 + bytes[start + j] as u128;
        }
        proof {
            assert(window.skip(0) =~= window);
        }
        limbs.push(sum);
    }
    proof {
        assert(nat_limbs(limbs@) =~= packed_limbs(bytes@, limb_bits as nat));
    }
    limbs
}

} // verus!
