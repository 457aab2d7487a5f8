//! Arbitrary-precision unsigned arithmetic for the RSA pipeline, carried by
//! `ibig::UBig` behind a small set of trusted wrappers, with the octet-string
//! codec and modular exponentiation verified on top of them.

use vstd::arithmetic::div_mod::{
    lemma_mul_mod_noop_left, lemma_mul_mod_noop_right,
};
use vstd::arithmetic::mul::lemma_mul_is_associative;
use vstd::arithmetic::power::{
    lemma_pow0, lemma_pow1, lemma_pow_adds, lemma_pow_mod_noop, lemma_pow_multiplies,
    lemma_square_is_pow2,
    pow,
};
use vstd::prelude::*;

use crate::bytes::{
    be_val, lemma_be_val_bound, lemma_be_val_leading, lemma_be_val_zero_extend,
    lemma_pow256_increases, pow256,
};
use crate::CryptoError;

verus! {

#[verifier::external_type_specification]
#[verifier::external_body]
pub struct ExUBig(ibig::UBig);

/// The unsigned integer an `ibig::UBig` holds. The trusted wrappers below
/// state what each `ibig` operation does to this value.
pub uninterp spec fn ubig_value(u: ibig::UBig) -> nat;

/// Relies on `ibig::UBig::from_be_bytes`: big-endian interpretation of the
/// octet string, exactly the OS2IP primitive.
#[verifier::external_body]
pub(crate) fn os2ip(input: &Vec<u8>) -> (r: ibig::UBig)
    ensures
        ubig_value(r) == be_val(input@),
{
    ibig::UBig::from_be_bytes(input.as_slice())
}

/// Relies on `ibig::UBig::to_be_bytes`: the shortest big-endian encoding,
/// with no leading zero byte and an empty result for zero.
#[verifier::external_body]
fn ub_to_be(u: &ibig::UBig) -> (r: Vec<u8>)
    ensures
        be_val(r@) == ubig_value(*u),
        r@.len() > 0 ==> r@[0] != 0,
{
    u.to_be_bytes()
}

/// Relies on `From<u8> for ibig::UBig`: conversion keeps the value.
#[verifier::external_body]
fn ub_from_u8(x: u8) -> (r: ibig::UBig)
    ensures
        ubig_value(r) == x,
{
    ibig::UBig::from(x)
}

/// Relies on `Mul for &ibig::UBig`: exact product.
#[verifier::external_body]
fn ub_mul(a: &ibig::UBig, b: &ibig::UBig) -> (r: ibig::UBig)
    ensures
        ubig_value(r) == ubig_value(*a) * ubig_value(*b),
{
    a * b
}

/// Relies on `Rem for &ibig::UBig`: Euclidean remainder; panics on a zero
/// divisor, which the precondition rules out.
#[verifier::external_body]
fn ub_rem(a: &ibig::UBig, m: &ibig::UBig) -> (r: ibig::UBig)
    requires
        ubig_value(*m) > 0,
    ensures
        ubig_value(r) == ubig_value(*a) % ubig_value(*m),
{
    a % m
}

/// Relies on `Shr<usize> for &ibig::UBig`: one-bit shift halves the value.
#[verifier::external_body]
fn ub_shr1(a: &ibig::UBig) -> (r: ibig::UBig)
    ensures
        ubig_value(r) == ubig_value(*a) / 2,
{
    a >> 1usize
}

/// Relies on `ibig::UBig::bit`: bit 0 is the parity.
#[verifier::external_body]
fn ub_is_odd(a: &ibig::UBig) -> (r: bool)
    ensures
        r == (ubig_value(*a) % 2 == 1),
{
    a.bit(0)
}

/// Relies on `PartialEq for ibig::UBig`, which compares values.
#[verifier::external_body]
fn ub_is_zero(a: &ibig::UBig) -> (r: bool)
    ensures
        r == (ubig_value(*a) == 0),
{
    *a == ibig::UBig::from(0u8)
}

/// Relies on `Ord for ibig::UBig`, which orders by value.
#[verifier::external_body]
pub(crate) fn ub_lt(a: &ibig::UBig, b: &ibig::UBig) -> (r: bool)
    ensures
        r == (ubig_value(*a) < ubig_value(*b)),
{
    a < b
}

/// I2OSP: the big-endian encoding of `x` in exactly `x_len` bytes; rejected
/// when the value does not fit.
pub fn i2osp(x: &ibig::UBig, x_len: usize) -> (r: Result<Vec<u8>, CryptoError>)
    ensures
        (match r {
            Ok(out) => ubig_value(*x) < pow256(x_len as nat) && out@.len() == x_len && be_val(out@)
                == ubig_value(*x),
            Err(e) => ubig_value(*x) >= pow256(x_len as nat) && e == CryptoError::IntegerEncoding,
        }),
{
    let mut b: Vec<u8> = ub_to_be(x);
    if b.len() > x_len {
        proof {
            lemma_be_val_leading(b@);
            lemma_pow256_increases(x_len as nat, (b@.len() - 1) as nat);
        }
        return Err(CryptoError::IntegerEncoding);
    }
    proof {
        lemma_be_val_bound(b@);
        lemma_pow256_increases(b@.len(), x_len as nat);
    }
    let pad: usize = x_len - b.len();
    let mut out: Vec<u8> = Vec::new();
    let mut i: usize = 0;
    while i < pad
        invariant
            i <= pad,
            out@ == Seq::new(i as nat, |j: int| 0u8),
        decreases pad - i,
    {
        out.push(0);
        assert(Seq::new((i + 1) as nat, |j: int| 0u8) =~= Seq::new(i as nat, |j: int| 0u8).push(
            0u8,
        ));
        i = i + 1;
    }
    let ghost bseq = b@;
    let ghost padded = out@ + b@;
    out.append(&mut b);
    proof {
        lemma_be_val_strip_zeros(pad as nat, padded);
        assert(padded.subrange(pad as int, padded.len() as int) =~= bseq);
    }
    Ok(out)
}

/// The value of an octet string is unchanged by `n` leading zero bytes.
proof fn lemma_be_val_strip_zeros(n: nat, s: Seq<u8>)
    requires
        s.len() >= n,
        forall|i: int| 0 <= i < n ==> s[i] == 0,
    ensures
        be_val(s) == be_val(s.subrange(n as int, s.len() as int)),
    decreases n,
{
    if n > 0 {
        lemma_be_val_zero_extend(s);
        lemma_be_val_strip_zeros((n - 1) as nat, s.subrange(1, s.len() as int));
        assert(s.subrange(1, s.len() as int).subrange((n - 1) as int, s.len() - 1) =~= s.subrange(
            n as int,
            s.len() as int,
        ));
    } else {
        assert(s.subrange(0, s.len() as int) =~= s);
    }
}

proof fn lemma_mod_exp_step(r0: int, bb: int, ee: nat, m: int)
    requires
        m >= 1,
        r0 >= 0,
        bb >= 0,
    ensures
        ee % 2 == 1 ==> (((r0 * bb) % m) * pow((bb * bb) % m, (ee / 2) as nat)) % m == (r0 * pow(
            bb,
            ee,
        )) % m,
        ee % 2 == 0 && ee > 0 ==> (r0 * pow((bb * bb) % m, (ee / 2) as nat)) % m == (r0 * pow(
            bb,
            ee,
        )) % m,
{
    let h = (ee / 2) as nat;
    lemma_square_is_pow2(bb);
    lemma_pow_multiplies(bb, 2, h);
    lemma_pow_mod_noop(bb * bb, h, m);
    assert(pow((bb * bb) % m, h) % m == pow(bb * bb, h) % m);
    assert(pow(bb * bb, h) == pow(bb, 2 * h));
    if ee % 2 == 1 {
        assert(ee == 2 * h + 1);
        lemma_pow_adds(bb, 1, 2 * h);
        lemma_pow1(bb);
        assert(pow(bb, ee) == bb * pow(bb, 2 * h));
        // ((r0*bb) % m * pow(b1, h)) % m == ((r0*bb) * pow(b1, h)) % m
        lemma_mul_mod_noop_left(r0 * bb, pow((bb * bb) % m, h), m);
        // replace pow(b1, h) by pow(bb*bb, h) under the modulus
        lemma_mul_mod_noop_right(r0 * bb, pow((bb * bb) % m, h), m);
        lemma_mul_mod_noop_right(r0 * bb, pow(bb * bb, h), m);
        assert(((r0 * bb) * pow((bb * bb) % m, h)) % m == ((r0 * bb) * pow(bb, 2 * h)) % m);
        lemma_mul_is_associative(r0, bb, pow(bb, 2 * h));
        assert((r0 * bb) * pow(bb, 2 * h) == r0 * (bb * pow(bb, 2 * h)));
    } else if ee > 0 {
        assert(ee == 2 * h);
        lemma_mul_mod_noop_right(r0, pow((bb * bb) % m, h), m);
        lemma_mul_mod_noop_right(r0, pow(bb * bb, h), m);
        assert((r0 * pow((bb * bb) % m, h)) % m == (r0 * pow(bb, 2 * h)) % m);
    }
}

/// Binary (square-and-multiply) modular exponentiation over the exponent's
/// bits: returns an unreduced 1 when the exponent is zero, else
/// `base ^ exponent mod modulo`.
pub fn mod_exp(base: ibig::UBig, exponent: ibig::UBig, modulo: ibig::UBig) -> (r: ibig::UBig)
    requires
        ubig_value(modulo) >= 1,
    ensures
        ubig_value(exponent) == 0 ==> ubig_value(r) == 1,
        ubig_value(exponent) > 0 ==> ubig_value(r) as int == pow(
            ubig_value(base) as int,
            ubig_value(exponent),
        ) % (ubig_value(modulo) as int),
        ubig_value(exponent) > 0 ==> ubig_value(r) < ubig_value(modulo),
{
    let ghost b0 = ubig_value(base) as int;
    let ghost e0 = ubig_value(exponent);
    let ghost m = ubig_value(modulo) as int;
    let mut result: ibig::UBig = ub_from_u8(1);
    let mut b: ibig::UBig = ub_rem(&base, &modulo);
    let mut e: ibig::UBig = exponent;
    proof {
        lemma_pow_mod_noop(b0, e0, m);
    }
    while !ub_is_zero(&e)
        invariant
            ubig_value(modulo) as int == m,
            m >= 1,
            (ubig_value(result) as int * pow(ubig_value(b) as int, ubig_value(e))) % m == pow(
                b0,
                e0,
            ) % m,
            e0 == 0 ==> ubig_value(result) == 1 && ubig_value(e) == 0,
            ubig_value(e) == 0 ==> (e0 == 0 || ubig_value(result) < m),
        decreases ubig_value(e),
    {
        let ghost r_old = ubig_value(result) as int;
        let ghost b_old = ubig_value(b) as int;
        let ghost e_old = ubig_value(e);
        proof {
            lemma_mod_exp_step(r_old, b_old, e_old, m);
        }
        if ub_is_odd(&e) {
            result = ub_rem(&ub_mul(&result, &b), &modulo);
        }
        e = ub_shr1(&e);
        b = ub_rem(&ub_mul(&b, &b), &modulo);
    }
    proof {
        lemma_pow0(ubig_value(b) as int);
        if e0 > 0 {
            vstd::arithmetic::div_mod::lemma_small_mod(ubig_value(result), ubig_value(modulo));
        }
    }
    result
}

} // verus!
