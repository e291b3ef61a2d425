//! The limb codec: cutting an integer, given by its 64-bit digits, into
//! limbs of a chosen width.
//!
//! A non-negative integer `v` and a width `bits` determine an infinite
//! little-endian sequence of limbs, `limb_at(v, 0, bits)`,
//! `limb_at(v, 1, bits)`, ... Decomposition returns a prefix of that
//! sequence; `limbs_value` sums a finite sequence of limbs back up.
//!
//! Limbs of up to 64 bits are cut here, digit by digit. Wider limbs are cut
//! by `halo2_base`; `wide_limbs` states what is taken on trust of it.

use crate::arith::{
    lemma_div_pow2_twice, lemma_mod_pow2_narrow, lemma_mod_pow2_split, lemma_mod_pow2_then_div,
    lemma_pow2_monotone, lemma_small_pow2,
};
use crate::bignum::{
    bigint_magnitude, bigint_negative, biguint_add, biguint_eq, biguint_from_u128, biguint_shl,
    biguint_value, is_negative,
};
use num_bigint::{BigInt, BigUint};
use vstd::arithmetic::div_mod::*;
use vstd::arithmetic::mul::*;
use vstd::arithmetic::power2::*;
use vstd::bits::*;
use vstd::prelude::*;

verus! {

/// The integer whose little-endian base-2^64 digits are `digits`.
pub open spec fn digits_value(digits: Seq<u64>) -> nat
    decreases digits.len(),
{
    if digits.len() == 0 {
        0
    } else {
        digits[0] as nat + pow2(64) * digits_value(digits.skip(1))
    }
}

/// Limb number `index` of `value` for limbs of `bits` bits: the bits of
/// `value` from `index * bits` up to, not including, `(index + 1) * bits`.
pub open spec fn limb_at(value: nat, index: nat, bits: nat) -> nat {
    (value / pow2(index * bits)) % pow2(bits)
}

/// The first `count` limbs of `value`, least significant first.
pub open spec fn limbs_of(value: nat, count: nat, bits: nat) -> Seq<nat> {
    Seq::new(count, |i: int| limb_at(value, i as nat, bits))
}

/// The integer that a sequence of limbs of `bits` bits stands for: the sum
/// of `limbs[i] * 2^(i * bits)`.
pub open spec fn limbs_value(limbs: Seq<nat>, bits: nat) -> nat
    decreases limbs.len(),
{
    if limbs.len() == 0 {
        0
    } else {
        limbs[0] + pow2(bits) * limbs_value(limbs.skip(1), bits)
    }
}

/// The limbs of an unsigned limb vector as natural numbers.
pub open spec fn nat_limbs(limbs: Seq<u128>) -> Seq<nat> {
    Seq::new(limbs.len(), |i: int| limbs[i] as nat)
}

/// The first `count` limbs of the integer of the given sign and magnitude:
/// those of the magnitude, each negated when the integer is negative.
pub open spec fn signed_limbs_of(negative: bool, magnitude: nat, count: nat, bits: nat) -> Seq<
    int,
> {
    Seq::new(
        count,
        |i: int|
            if negative {
                -(limb_at(magnitude, i as nat, bits) as int)
            } else {
                limb_at(magnitude, i as nat, bits) as int
            },
    )
}

/// The limbs of a signed limb vector as integers.
pub open spec fn int_limbs(limbs: Seq<i128>) -> Seq<int> {
    Seq::new(limbs.len(), |i: int| limbs[i] as int)
}

/// Every limb fits in its width.
pub proof fn lemma_limb_at_bound(value: nat, index: nat, bits: nat)
    ensures
        limb_at(value, index, bits) < pow2(bits),
{
    lemma_pow2_pos(bits);
    lemma_mod_bound((value / pow2(index * bits)) as int, pow2(bits) as int);
}

/// The limbs of a value after the first are the limbs of the value without
/// its lowest `bits` bits.
pub proof fn lemma_limbs_of_skip(value: nat, count: nat, bits: nat)
    requires
        count > 0,
    ensures
        limbs_of(value, count, bits).skip(1) == limbs_of(
            value / pow2(bits),
            (count - 1) as nat,
            bits,
        ),
{
    let left = limbs_of(value, count, bits).skip(1);
    let right = limbs_of(value / pow2(bits), (count - 1) as nat, bits);
    lemma_pow2_pos(bits);
    assert forall|i: int| 0 <= i < left.len() implies left[i] == right[i] by {
        let shift = i as nat * bits;
        lemma_div_pow2_twice(value, bits, shift);
        assert((i + 1) as nat * bits == bits + shift) by (nonlinear_arith)
            requires
                i >= 0,
                shift == i as nat * bits,
        ;
    }
    assert(left =~= right);
}

/// Round trip, with truncation made explicit: the first `count` limbs of
/// `value` sum up to `value` modulo `2^(count * bits)`.
pub proof fn lemma_limbs_value_of_limbs(value: nat, count: nat, bits: nat)
    ensures
        limbs_value(limbs_of(value, count, bits), bits) == value % pow2(count * bits),
    decreases count,
{
    lemma2_to64();
    let limbs = limbs_of(value, count, bits);
    if count == 0 {
        assert(0 * bits == 0);
        assert(value % 1 == 0);
    } else {
        lemma_limbs_of_skip(value, count, bits);
        lemma_limbs_value_of_limbs(value / pow2(bits), (count - 1) as nat, bits);
        assert(0 * bits == 0);
        assert(value / 1 == value);
        assert(limbs[0] == value % pow2(bits));
        lemma_mod_pow2_split(value, bits, (count - 1) as nat * bits);
        assert(count * bits == bits + (count - 1) as nat * bits) by (nonlinear_arith)
            requires
                count > 0,
        ;
    }
}

/// Round trip: when `count * bits` bits are enough to hold `value`, summing
/// its first `count` limbs with their weights gives `value` back.
pub proof fn lemma_round_trip(value: nat, count: nat, bits: nat)
    requires
        value < pow2(count * bits),
    ensures
        limbs_value(limbs_of(value, count, bits), bits) == value,
{
    lemma_limbs_value_of_limbs(value, count, bits);
    lemma_small_pow2(value, count * bits);
}

/// Sign handling: the limbs of a negative integer are, one by one, the
/// negated limbs of its magnitude.
pub proof fn lemma_negative_limbs_negate(magnitude: nat, count: nat, bits: nat)
    ensures
        signed_limbs_of(true, magnitude, count, bits).len() == count,
        forall|i: int|
            0 <= i < count ==> signed_limbs_of(true, magnitude, count, bits)[i] == -(limbs_of(
                magnitude,
                count,
                bits,
            )[i] as int),
        forall|i: int|
            0 <= i < count ==> signed_limbs_of(false, magnitude, count, bits)[i] == limbs_of(
                magnitude,
                count,
                bits,
            )[i] as int,
{
}

/// Zero extension: every limb of zero is zero, whatever the count and width.
pub proof fn lemma_zero_limbs(count: nat, bits: nat)
    ensures
        limbs_of(0, count, bits) == Seq::new(count, |i: int| 0nat),
        signed_limbs_of(false, 0, count, bits) == Seq::new(count, |i: int| 0int),
{
    assert forall|i: int| 0 <= i < count implies #[trigger] limbs_of(0, count, bits)[i] == 0 by {
        lemma_pow2_pos(i as nat * bits);
        lemma_pow2_pos(bits);
        lemma_div_basics_1(pow2(i as nat * bits) as int);
        lemma_small_pow2(0, bits);
    }
    assert(limbs_of(0, count, bits) =~= Seq::new(count, |i: int| 0nat));
    assert forall|i: int| 0 <= i < count implies #[trigger] signed_limbs_of(
        false,
        0,
        count,
        bits,
    )[i] == 0 by {
        assert(limbs_of(0, count, bits)[i] == 0);
    }
    assert(signed_limbs_of(false, 0, count, bits) =~= Seq::new(count, |i: int| 0int));
}

/// Limbs that each fit in `bits` bits sum up to a value that fits in
/// `limbs.len() * bits` bits.
pub proof fn lemma_limbs_value_bound(limbs: Seq<nat>, bits: nat)
    requires
        forall|i: int| 0 <= i < limbs.len() ==> limbs[i] < pow2(bits),
    ensures
        limbs_value(limbs, bits) < pow2(limbs.len() * bits),
    decreases limbs.len(),
{
    lemma2_to64();
    if limbs.len() == 0 {
        assert(0 * bits == 0);
    } else {
        let rest = limbs.skip(1);
        lemma_limbs_value_bound(rest, bits);
        let high = limbs_value(rest, bits);
        let top = pow2(rest.len() * bits);
        lemma_pow2_adds(bits, rest.len() * bits);
        assert(limbs.len() * bits == bits + rest.len() * bits) by (nonlinear_arith)
            requires
                limbs.len() == rest.len() + 1,
        ;
        assert(limbs[0] + pow2(bits) * high < pow2(bits) * top) by (nonlinear_arith)
            requires
                limbs[0] < pow2(bits),
                high < top,
        ;
    }
}

/// The value of two limb sequences laid end to end: the second one weighs
/// `2^(bits)` to the length of the first.
pub proof fn lemma_limbs_value_concat(low: Seq<nat>, high: Seq<nat>, bits: nat)
    ensures
        limbs_value(low + high, bits) == limbs_value(low, bits) + pow2(low.len() * bits)
            * limbs_value(high, bits),
    decreases low.len(),
{
    lemma2_to64();
    if low.len() == 0 {
        assert(low + high =~= high);
        assert(0 * bits == 0);
    } else {
        let rest = low.skip(1);
        assert((low + high).skip(1) =~= rest + high);
        lemma_limbs_value_concat(rest, high, bits);
        lemma_pow2_adds(bits, rest.len() * bits);
        assert(low.len() * bits == bits + rest.len() * bits) by (nonlinear_arith)
            requires
                low.len() == rest.len() + 1,
        ;
        let a = pow2(bits);
        let b = pow2(rest.len() * bits);
        let x = limbs_value(rest, bits);
        let y = limbs_value(high, bits);
        assert(a * (x + b * y) == a * x + (a * b) * y) by (nonlinear_arith);
    }
}

/// What remains of the digit stream from position `pos` on, as an integer.
spec fn digits_from(digits: Seq<u64>, pos: int) -> nat {
    digits_value(digits.skip(pos))
}

/// The lowest digit of a non-empty digit sequence is its value modulo 2^64,
/// and the other digits are its value divided by 2^64.
pub proof fn lemma_digits_value_step(digits: Seq<u64>)
    requires
        digits.len() > 0,
    ensures
        digits_value(digits) % pow2(64) == digits[0],
        digits_value(digits) / pow2(64) == digits_value(digits.skip(1)),
{
    lemma2_to64();
    let hi = digits_value(digits.skip(1));
    lemma_mul_is_commutative(pow2(64) as int, hi as int);
    lemma_fundamental_div_mod_converse(
        digits_value(digits) as int,
        pow2(64) as int,
        hi as int,
        digits[0] as int,
    );
}

/// The mask that keeps the low `bits` bits of a digit.
fn low_mask(bits: usize) -> (mask: u64)
    requires
        bits <= 64,
    ensures
        mask as nat == pow2(bits as nat) - 1,
{
    proof {
        lemma2_to64();
    }
    if bits >= 64 {
        u64::MAX
    } else {
        proof {
            lemma_u64_pow2_no_overflow(bits as nat);
            lemma_u64_shl_is_mul(1, bits as u64);
        }
        (1u64 << bits) - 1
    }
}

/// Takes the next digit off the stream, or zero once the stream is exhausted.
fn next_digit(digits: &Vec<u64>, pos: &mut usize) -> (digit: u64)
    requires
        *old(pos) <= digits.len(),
    ensures
        *final(pos) <= digits.len(),
        digit as nat == digits_from(digits@, *old(pos) as int) % pow2(64),
        digits_from(digits@, *final(pos) as int) == digits_from(digits@, *old(pos) as int) / pow2(
            64,
        ),
{
    if *pos < digits.len() {
        let digit = digits[*pos];
        proof {
            let tail = digits@.skip(*pos as int);
            lemma_digits_value_step(tail);
            assert(tail.skip(1) =~= digits@.skip(*pos as int + 1));
        }
        *pos = *pos + 1;
        digit
    } else {
        proof {
            assert(digits@.skip(*pos as int).len() == 0);
            lemma_pow2_pos(64);
            lemma_small_pow2(0, 64);
        }
        0
    }
}

/// The reading state of a decomposition: `digit` holds the `rem` lowest bits
/// of what is still to be read, `rest`, and the stream holds the bits above.
spec fn window_holds(rest: nat, digit: u64, rem: nat, stream: nat) -> bool {
    &&& 1 <= rem <= 64
    &&& digit as nat == rest % pow2(rem)
    &&& stream == rest / pow2(rem)
}

/// Taking `bits` bits out of a window that holds more than `bits`.
proof fn lemma_take_inside(rest: nat, digit: u64, rem: nat, stream: nat, bits: nat)
    requires
        window_holds(rest, digit, rem, stream),
        bits < rem,
    ensures
        digit as nat % pow2(bits) == rest % pow2(bits),
        digit as nat / pow2(bits) <= u64::MAX,
        window_holds(
            rest / pow2(bits),
            (digit as nat / pow2(bits)) as u64,
            (rem - bits) as nat,
            stream,
        ),
{
    lemma_pow2_pos(bits);
    lemma_mod_pow2_narrow(rest, rem, bits);
    lemma_mod_pow2_then_div(rest, rem, bits);
    lemma_div_pow2_twice(rest, bits, (rem - bits) as nat);
    lemma_div_nonincreasing(digit as int, pow2(bits) as int);
}

/// Taking `bits` bits out of a window that holds fewer: the limb is spliced
/// from the window and the low bits of the next digit.
proof fn lemma_take_across(
    rest: nat,
    digit: u64,
    rem: nat,
    stream: nat,
    next: u64,
    after: nat,
    bits: nat,
)
    requires
        window_holds(rest, digit, rem, stream),
        next as nat == stream % pow2(64),
        after == stream / pow2(64),
        rem < bits <= 64,
    ensures
        digit as nat + pow2(rem) * (next as nat % pow2((bits - rem) as nat)) == rest % pow2(bits),
        next as nat / pow2((bits - rem) as nat) <= u64::MAX,
        window_holds(
            rest / pow2(bits),
            (next as nat / pow2((bits - rem) as nat)) as u64,
            (rem + 64 - bits) as nat,
            after,
        ),
{
    let k = (bits - rem) as nat;
    lemma_pow2_pos(k);
    lemma_mod_pow2_split(rest, rem, k);
    lemma_mod_pow2_narrow(stream, 64, k);
    lemma_div_pow2_twice(rest, rem, k);
    lemma_mod_pow2_then_div(stream, 64, k);
    lemma_div_pow2_twice(stream, k, (64 - k) as nat);
    lemma_div_nonincreasing(next as int, pow2(k) as int);
}

/// Two bit fields that do not overlap are joined by `|` as by `+`.
proof fn lemma_splice(low: u64, high: u64, rem: u64, width: nat)
    requires
        rem < 64,
        rem + width <= 64,
        (low as nat) < pow2(rem as nat),
        (high as nat) < pow2(width),
    ensures
        (low | (high << rem)) as nat == low as nat + pow2(rem as nat) * high as nat,
{
    lemma2_to64();
    lemma_pow2_adds(rem as nat, width);
    lemma_pow2_monotone(rem as nat + width, 64);
    lemma_pow2_pos(rem as nat);
    assert(high as nat * pow2(rem as nat) < pow2(width) * pow2(rem as nat)) by {
        lemma_mul_strict_inequality(high as int, pow2(width) as int, pow2(rem as nat) as int);
    }
    lemma_mul_is_commutative(pow2(width) as int, pow2(rem as nat) as int);
    lemma_mul_is_commutative(high as int, pow2(rem as nat) as int);
    lemma_u64_shl_is_mul(high, rem);
    lemma_u64_pow2_no_overflow(rem as nat);
    lemma_u64_shl_is_mul(1, rem);
    let shifted = high << rem;
    assert(low < (1u64 << rem) ==> low & (high << rem) == 0) by (bit_vector)
        requires
            rem < 64,
    ;
    assert(low & shifted == 0 ==> (low | shifted) == low + shifted) by (bit_vector);
}

/// Keeping the low `bits` bits of a digit with the mask from `low_mask`.
proof fn lemma_mask_is_mod(digit: u64, mask: u64, bits: nat)
    requires
        bits <= 64,
        mask as nat == pow2(bits) - 1,
    ensures
        (digit & mask) as nat == digit as nat % pow2(bits),
{
    lemma2_to64();
    if bits == 64 {
        assert(digit & 0xffff_ffff_ffff_ffffu64 == digit) by (bit_vector);
        lemma_small_pow2(digit as nat, 64);
    } else {
        lemma_u64_pow2_no_overflow(bits);
        lemma_u64_low_bits_mask_is_mod(digit, bits);
    }
}

/// Cuts the integer given by its little-endian 64-bit digits into
/// `number_of_limbs` limbs of `bit_len` bits each, least significant first.
///
/// Digits missing from the stream count as zero, and bits of the integer
/// beyond the last requested limb are dropped.
pub fn decompose_u64_digits_to_limbs(e: Vec<u64>, number_of_limbs: usize, bit_len: usize) -> (limbs:
    Vec<u64>)
    requires
        bit_len <= 64,
    ensures
        limbs.len() == number_of_limbs,
        forall|i: int|
            0 <= i < number_of_limbs ==> limbs[i] as nat == limb_at(
                digits_value(e@),
                i as nat,
                bit_len as nat,
            ),
{
    let bits: u64 = bit_len as u64;
    let mask: u64 = low_mask(bit_len);
    let mut pos: usize = 0;
    let mut u64_digit: u64 = next_digit(&e, &mut pos);
    let mut rem: u64 = 64;
    let mut limbs: Vec<u64> = Vec::new();
    let ghost value = digits_value(e@);
    let ghost mut rest: nat = value;
    proof {
        assert(e@.skip(0) =~= e@);
        assert(pow2(0) == 1) by {
            lemma2_to64();
        }
        assert(0 * bits == 0);
    }
    while limbs.len() < number_of_limbs
        invariant
            bits == bit_len <= 64,
            mask as nat == pow2(bits as nat) - 1,
            pos <= e.len(),
            limbs.len() <= number_of_limbs,
            value == digits_value(e@),
            rest == value / pow2(limbs.len() as nat * bits as nat),
            window_holds(rest, u64_digit, rem as nat, digits_from(e@, pos as int)),
            forall|i: int|
                0 <= i < limbs.len() ==> limbs[i] as nat == limb_at(value, i as nat, bits as nat),
        decreases number_of_limbs - limbs.len(),
    {
        let ghost done = limbs.len() as nat;
        let limb: u64;
        if rem > bits {
            proof {
                lemma_mask_is_mod(u64_digit, mask, bits as nat);
                lemma_take_inside(
                    rest,
                    u64_digit,
                    rem as nat,
                    digits_from(e@, pos as int),
                    bits as nat,
                );
                lemma_u64_shr_is_div(u64_digit, bits);
            }
            limb = u64_digit & mask;
            u64_digit = u64_digit >> bits;
            rem = rem - bits;
        } else if rem == bits {
            proof {
                lemma_mask_is_mod(u64_digit, mask, bits as nat);
                lemma_mod_pow2_narrow(rest, bits as nat, bits as nat);
            }
            limb = u64_digit & mask;
            u64_digit = next_digit(&e, &mut pos);
            rem = 64;
        } else {
            let ghost stream = digits_from(e@, pos as int);
            let low = u64_digit;
            let next = next_digit(&e, &mut pos);
            let width: usize = (bits - rem) as usize;
            let part_mask = low_mask(width);
            let part = next & part_mask;
            proof {
                lemma_mask_is_mod(next, part_mask, width as nat);
                lemma_take_across(
                    rest,
                    low,
                    rem as nat,
                    stream,
                    next,
                    digits_from(e@, pos as int),
                    bits as nat,
                );
                lemma_pow2_pos(width as nat);
                lemma_mod_bound(next as int, pow2(width as nat) as int);
                lemma_pow2_pos(rem as nat);
                lemma_mod_bound(rest as int, pow2(rem as nat) as int);
                lemma_splice(low, part, rem, width as nat);
                lemma_u64_shr_is_div(next, (bits - rem) as u64);
            }
            limb = low | (part << rem);
            u64_digit = next >> (bits - rem);
            rem = rem + (64 - bits);
        }
        proof {
            assert(limb as nat == rest % pow2(bits as nat));
            lemma_div_pow2_twice(value, done * bits as nat, bits as nat);
            assert((done + 1) * bits as nat == done * bits as nat + bits as nat)
                by (nonlinear_arith);
            rest = rest / pow2(bits as nat);
        }
        limbs.push(limb);
    }
    limbs
}

/// `halo2_base::utils::decompose_biguint`, with each field element it
/// returns read back as the integer it was made from.
///
/// The outside function walks the 64-bit digits of `e` and cuts them into
/// limbs of `bit_len` bits, for widths from 64 up to 127; a limb is below
/// 2^127, so the field element made from it holds it exactly. It always
/// returns a first limb, also when asked for none.
#[verifier::external_body]
fn wide_limbs(e: &BigUint, num_limbs: usize, bit_len: usize) -> (limbs: Vec<u128>)
    requires
        64 <= bit_len < 128,
    ensures
        limbs.len() == (if num_limbs == 0 {
            1
        } else {
            num_limbs as int
        }),
        forall|i: int|
            0 <= i < limbs.len() ==> limbs[i] as nat == limb_at(
                biguint_value(*e),
                i as nat,
                bit_len as nat,
            ),
{
    halo2_base::utils::decompose_biguint::<halo2_base::halo2_proofs::halo2curves::bn256::Fr>(
        e,
        num_limbs,
        bit_len,
    )
        .iter()
        .map(|limb| u128::try_from(halo2_base::utils::fe_to_biguint(limb)).unwrap())
        .collect()
}

/// Cuts `e` into `number_of_limbs` limbs of `limb_bits_len` bits each, least
/// significant first.
///
/// The result always has `number_of_limbs` limbs: it is padded with zero
/// limbs where `e` is short, and holds `e` modulo
/// `2^(number_of_limbs * limb_bits_len)` where `e` is long (see
/// `lemma_limbs_value_of_limbs`). Limbs of up to 64 bits are cut from the
/// digits of `e` here; wider ones are cut by `halo2_base`.
pub fn decompose_biguint(e: &BigUint, number_of_limbs: usize, limb_bits_len: usize) -> (limbs: Vec<
    u128,
>)
    requires
        limb_bits_len < 128,
    ensures
        nat_limbs(limbs@) == limbs_of(
            biguint_value(*e),
            number_of_limbs as nat,
            limb_bits_len as nat,
        ),
{
    let ghost want = limbs_of(biguint_value(*e), number_of_limbs as nat, limb_bits_len as nat);
    if limb_bits_len <= 64 {
        let narrow = decompose_u64_digits_to_limbs(
            e.to_u64_digits(),
            number_of_limbs,
            limb_bits_len,
        );
        let mut limbs: Vec<u128> = Vec::new();
        let mut i: usize = 0;
        while i < number_of_limbs
            invariant
                i <= number_of_limbs == narrow.len(),
                limbs.len() == i,
                forall|j: int| 0 <= j < i ==> limbs[j] == narrow[j],
            decreases number_of_limbs - i,
        {
            limbs.push(narrow[i] as u128);
            i = i + 1;
        }
        assert(nat_limbs(limbs@) =~= want);
        limbs
    } else if number_of_limbs == 0 {
        let limbs: Vec<u128> = Vec::new();
        assert(nat_limbs(limbs@) =~= want);
        limbs
    } else {
        let limbs = wide_limbs(e, number_of_limbs, limb_bits_len);
        assert(nat_limbs(limbs@) =~= want);
        limbs
    }
}

/// The largest magnitude that a signed limb can carry.
pub const MAX_SIGNED_LIMB: u128 = 0x7fff_ffff_ffff_ffff_ffff_ffff_ffff_ffff;

/// Gives the limbs of a magnitude the sign of the integer they were cut
/// from: each limb is negated when the integer is negative, and kept as it
/// is otherwise.
pub fn apply_sign(negative: bool, magnitude: &Vec<u128>) -> (limbs: Vec<i128>)
    requires
        forall|i: int| 0 <= i < magnitude.len() ==> magnitude[i] <= MAX_SIGNED_LIMB,
    ensures
        limbs.len() == magnitude.len(),
        forall|i: int|
            0 <= i < limbs.len() ==> limbs[i] as int == (if negative {
                -(magnitude[i] as int)
            } else {
                magnitude[i] as int
            }),
{
    let mut limbs: Vec<i128> = Vec::new();
    let mut i: usize = 0;
    while i < magnitude.len()
        invariant
            i <= magnitude.len(),
            limbs.len() == i,
            forall|j: int| 0 <= j < magnitude.len() ==> magnitude[j] <= MAX_SIGNED_LIMB,
            forall|j: int|
                0 <= j < i ==> limbs[j] as int == (if negative {
                    -(magnitude[j] as int)
                } else {
                    magnitude[j] as int
                }),
        decreases magnitude.len() - i,
    {
        let limb = magnitude[i] as i128;
        if negative {
            limbs.push(-limb);
        } else {
            limbs.push(limb);
        }
        i = i + 1;
    }
    limbs
}

/// Cuts the signed integer `e` into `number_of_limbs` limbs of
/// `limb_bits_len` bits each, least significant first: the limbs of its
/// magnitude, each of them negated when `e` is negative.
pub fn decompose_bigint(e: &BigInt, number_of_limbs: usize, limb_bits_len: usize) -> (limbs: Vec<
    i128,
>)
    requires
        limb_bits_len < 128,
    ensures
        int_limbs(limbs@) == signed_limbs_of(
            bigint_negative(*e),
            bigint_magnitude(*e),
            number_of_limbs as nat,
            limb_bits_len as nat,
        ),
{
    let negative = is_negative(e);
    let magnitude = decompose_biguint(e.magnitude(), number_of_limbs, limb_bits_len);
    let ghost unsigned = limbs_of(
        bigint_magnitude(*e),
        number_of_limbs as nat,
        limb_bits_len as nat,
    );
    proof {
        assert(nat_limbs(magnitude@).len() == unsigned.len());
        assert forall|i: int| 0 <= i < magnitude.len() implies magnitude[i] <= MAX_SIGNED_LIMB by {
            assert(magnitude[i] as nat == nat_limbs(magnitude@)[i]);
            lemma_limb_at_bound(bigint_magnitude(*e), i as nat, limb_bits_len as nat);
            lemma_pow2_monotone(limb_bits_len as nat, 127);
            lemma_pow2_adds(63, 64);
            lemma2_to64();
            lemma2_to64_rest();
        }
    }
    let limbs = apply_sign(negative, &magnitude);
    proof {
        let want = signed_limbs_of(
            bigint_negative(*e),
            bigint_magnitude(*e),
            number_of_limbs as nat,
            limb_bits_len as nat,
        );
        assert forall|i: int| 0 <= i < number_of_limbs implies int_limbs(limbs@)[i]
            == want[i] by {
            assert(magnitude[i] as nat == nat_limbs(magnitude@)[i]);
        }
        assert(int_limbs(limbs@) =~= want);
    }
    limbs
}

/// The integer that `limbs` stand for at a limb width of `bits`: the sum of
/// `limbs[i] * 2^(i * bits)`. Limbs wider than `bits` overlap their
/// neighbours and are added in all the same.
pub fn compose_limbs(limbs: &Vec<u128>, bits: usize) -> (value: BigUint)
    requires
        bits < 128,
    ensures
        biguint_value(value) == limbs_value(nat_limbs(limbs@), bits as nat),
{
    let ghost all = nat_limbs(limbs@);
    let mut value = biguint_from_u128(0);
    let mut i: usize = limbs.len();
    proof {
        assert(all.skip(i as int).len() == 0);
    }
    while i > 0
        invariant
            i <= limbs.len(),
            bits < 128,
            all == nat_limbs(limbs@),
            biguint_value(value) == limbs_value(all.skip(i as int), bits as nat),
        decreases i,
    {
        i = i - 1;
        proof {
            let here = all.skip(i as int);
            assert(here.skip(1) =~= all.skip(i as int + 1));
            assert(here[0] == limbs[i as int] as nat);
            lemma_mul_is_commutative(
                pow2(bits as nat) as int,
                limbs_value(here.skip(1), bits as nat) as int,
            );
        }
        let limb = biguint_from_u128(limbs[i]);
        value = biguint_add(biguint_shl(value, bits), &limb);
    }
    proof {
        assert(all.skip(0) =~= all);
    }
    value
}

/// Cuts `e` into limbs as `decompose_biguint` does, but only where nothing
/// of `e` is lost: `None` where `number_of_limbs * limb_bits_len` bits do
/// not hold `e`.
pub fn decompose_biguint_exact(
    e: &BigUint,
    number_of_limbs: usize,
    limb_bits_len: usize,
) -> (result: Option<Vec<u128>>)
    requires
        limb_bits_len < 128,
    ensures
        result is Some <==> biguint_value(*e) < pow2(
            number_of_limbs as nat * limb_bits_len as nat,
        ),
        result matches Some(limbs) ==> {
            &&& nat_limbs(limbs@) == limbs_of(
                biguint_value(*e),
                number_of_limbs as nat,
                limb_bits_len as nat,
            )
            &&& limbs_value(nat_limbs(limbs@), limb_bits_len as nat) == biguint_value(*e)
        },
{
    let limbs = decompose_biguint(e, number_of_limbs, limb_bits_len);
    let sum = compose_limbs(&limbs, limb_bits_len);
    proof {
        let value = biguint_value(*e);
        let room = pow2(number_of_limbs as nat * limb_bits_len as nat);
        lemma_limbs_value_of_limbs(value, number_of_limbs as nat, limb_bits_len as nat);
        lemma_pow2_pos(number_of_limbs as nat * limb_bits_len as nat);
        lemma_mod_bound(value as int, room as int);
        if value < room {
            lemma_small_mod(value, room);
        }
    }
    if biguint_eq(&sum, e) {
        Some(limbs)
    } else {
        None
    }
}

} // verus!
