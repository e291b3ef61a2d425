//! Facts about division and remainder by powers of two.
//!
//! Every limb and digit computation in this crate is a statement of the form
//! "take `width` bits of `x` starting at bit `start`", which in arithmetic is
//! `(x / 2^start) % 2^width`. The lemmas here are the algebra of that
//! expression.

use vstd::arithmetic::div_mod::*;
use vstd::arithmetic::mul::*;
use vstd::arithmetic::power2::*;
use vstd::prelude::*;

verus! {

/// Dropping `a` low bits and then `b` more drops `a + b` bits.
pub proof fn lemma_div_pow2_twice(x: nat, a: nat, b: nat)
    ensures
        (x / pow2(a)) / pow2(b) == x / pow2(a + b),
{
    lemma_pow2_pos(a);
    lemma_pow2_pos(b);
    lemma_pow2_adds(a, b);
    lemma_div_denominator(x as int, pow2(a) as int, pow2(b) as int);
}

/// The low `b` bits of the low `a` bits are the low `b` bits, when `b <= a`.
pub proof fn lemma_mod_pow2_narrow(x: nat, a: nat, b: nat)
    requires
        b <= a,
    ensures
        (x % pow2(a)) % pow2(b) == x % pow2(b),
{
    lemma_pow2_pos(b);
    lemma_pow2_pos((a - b) as nat);
    lemma_pow2_adds(b, (a - b) as nat);
    lemma_mod_mod(x as int, pow2(b) as int, pow2((a - b) as nat) as int);
}

/// The low `a + b` bits split into the low `a` bits and the `b` bits above them.
pub proof fn lemma_mod_pow2_split(x: nat, a: nat, b: nat)
    ensures
        x % pow2(a + b) == x % pow2(a) + pow2(a) * ((x / pow2(a)) % pow2(b)),
{
    lemma_pow2_pos(a);
    lemma_pow2_pos(b);
    lemma_pow2_adds(a, b);
    lemma_mod_breakdown(x as int, pow2(a) as int, pow2(b) as int);
}

/// Dropping `b` low bits of the low `a` bits leaves the `a - b` bits that
/// start at bit `b`.
pub proof fn lemma_mod_pow2_then_div(x: nat, a: nat, b: nat)
    requires
        b <= a,
    ensures
        (x % pow2(a)) / pow2(b) == (x / pow2(b)) % pow2((a - b) as nat),
{
    let lo = x % pow2(b);
    let mid = (x / pow2(b)) % pow2((a - b) as nat);
    lemma_pow2_pos(b);
    lemma_pow2_pos((a - b) as nat);
    lemma_mod_pow2_split(x, b, (a - b) as nat);
    assert(x % pow2(a) == lo + pow2(b) * mid);
    lemma_mul_is_commutative(pow2(b) as int, mid as int);
    lemma_fundamental_div_mod_converse(
        (x % pow2(a)) as int,
        pow2(b) as int,
        mid as int,
        lo as int,
    );
}

/// A value below `2^a` is below `2^b` for every `b >= a`.
pub proof fn lemma_pow2_monotone(a: nat, b: nat)
    requires
        a <= b,
    ensures
        pow2(a) <= pow2(b),
{
    if a < b {
        lemma_pow2_strictly_increases(a, b);
    }
}

/// A value that fits in `a` bits is its own remainder modulo `2^a`, and
/// nothing of it is left above bit `a`.
pub proof fn lemma_small_pow2(x: nat, a: nat)
    requires
        x < pow2(a),
    ensures
        x % pow2(a) == x,
        x / pow2(a) == 0,
{
    lemma_pow2_pos(a);
    lemma_small_mod(x, pow2(a));
    lemma_basic_div(x as int, pow2(a) as int);
}

} // verus!
