//! Byte-buffer helpers shared by both pipelines: exclusive-or masking and
//! big-endian integer valuation of octet strings.

use vstd::prelude::*;

verus! {

/// Byte-wise exclusive-or of `a` against the first `a.len()` bytes of `b`.
pub open spec fn xor_bytes(a: Seq<u8>, b: Seq<u8>) -> Seq<u8> {
    Seq::new(a.len(), |i: int| a[i] ^ b[i])
}

/// Byte-wise exclusive-or; the result has the length of `x`.
pub fn xor(x: &Vec<u8>, y: &Vec<u8>) -> (r: Vec<u8>)
    requires
        y@.len() >= x@.len(),
    ensures
        r@ == xor_bytes(x@, y@),
{
    let mut result: Vec<u8> = Vec::new();
    let mut i: usize = 0;
    while i < x.len()
        invariant
            i <= x@.len(),
            y@.len() >= x@.len(),
            result@ == xor_bytes(x@, y@).take(i as int),
        decreases x@.len() - i,
    {
        result.push(x[i] ^ y[i]);
        assert(xor_bytes(x@, y@).take(i + 1) =~= xor_bytes(x@, y@).take(i as int).push(x@[i as int] ^ y@[i as int]));
        i = i + 1;
    }
    assert(xor_bytes(x@, y@).take(x@.len() as int) =~= xor_bytes(x@, y@));
    result
}

/// Masking twice with the same mask gives the bytes back.
pub proof fn lemma_xor_involution(a: Seq<u8>, b: Seq<u8>)
    requires
        b.len() >= a.len(),
    ensures
        xor_bytes(xor_bytes(a, b), b) == a,
{
    assert(forall|x: u8, y: u8| (x ^ y) ^ y == x) by (bit_vector);
    assert(xor_bytes(xor_bytes(a, b), b) =~= a);
}

/// 256 raised to the power `n`.
pub open spec fn pow256(n: nat) -> nat
    decreases n,
{
    if n == 0 {
        1
    } else {
        256 * pow256((n - 1) as nat)
    }
}

/// The unsigned integer a big-endian octet string stands for.
pub open spec fn be_val(s: Seq<u8>) -> nat
    decreases s.len(),
{
    if s.len() == 0 {
        0
    } else {
        be_val(s.drop_last()) * 256 + s.last() as nat
    }
}

pub proof fn lemma_pow256_positive(n: nat)
    ensures
        pow256(n) >= 1,
    decreases n,
{
    if n > 0 {
        lemma_pow256_positive((n - 1) as nat);
    }
}

pub proof fn lemma_pow256_increases(m: nat, n: nat)
    requires
        m <= n,
    ensures
        pow256(m) <= pow256(n),
    decreases n,
{
    if m < n {
        lemma_pow256_increases(m, (n - 1) as nat);
        lemma_pow256_positive((n - 1) as nat);
    }
}

/// An octet string of length `n` stands for a value below `256^n`.
pub proof fn lemma_be_val_bound(s: Seq<u8>)
    ensures
        be_val(s) < pow256(s.len()),
    decreases s.len(),
{
    if s.len() > 0 {
        lemma_be_val_bound(s.drop_last());
    }
}

/// A string with a non-zero leading byte stands for at least `256^(len-1)`.
pub proof fn lemma_be_val_leading(s: Seq<u8>)
    requires
        s.len() > 0,
        s[0] != 0,
    ensures
        be_val(s) >= pow256((s.len() - 1) as nat),
    decreases s.len(),
{
    if s.len() == 1 {
    } else {
        lemma_be_val_leading(s.drop_last());
    }
}

/// Leading zero bytes do not change the value.
pub proof fn lemma_be_val_zero_extend(s: Seq<u8>)
    requires
        s.len() > 0,
        s[0] == 0,
    ensures
        be_val(s) == be_val(s.subrange(1, s.len() as int)),
    decreases s.len(),
{
    let t = s.subrange(1, s.len() as int);
    if s.len() == 1 {
        assert(t =~= Seq::<u8>::empty());
        assert(s.drop_last() =~= Seq::<u8>::empty());
    } else {
        lemma_be_val_zero_extend(s.drop_last());
        assert(s.drop_last().subrange(1, s.drop_last().len() as int) =~= t.drop_last());
        assert(t.last() == s.last());
        assert(be_val(t) == be_val(t.drop_last()) * 256 + t.last() as nat);
    }
}

/// A run of `n` zero bytes.
pub open spec fn zero_seq(n: nat) -> Seq<u8> {
    Seq::new(n, |i: int| 0u8)
}

/// The big-endian encoding of `v` in exactly `len` bytes.
pub open spec fn be_encode(v: nat, len: nat) -> Seq<u8>
    decreases len,
{
    if len == 0 {
        Seq::empty()
    } else {
        be_encode(v / 256, (len - 1) as nat).push((v % 256) as u8)
    }
}

pub proof fn lemma_be_encode_len(v: nat, len: nat)
    ensures
        be_encode(v, len).len() == len,
    decreases len,
{
    if len > 0 {
        lemma_be_encode_len(v / 256, (len - 1) as nat);
    }
}

/// Encoding a value that fits gives back the value.
pub proof fn lemma_be_encode_val(v: nat, len: nat)
    requires
        v < pow256(len),
    ensures
        be_val(be_encode(v, len)) == v,
    decreases len,
{
    if len > 0 {
        assert(v / 256 < pow256((len - 1) as nat)) by (nonlinear_arith)
            requires
                v < 256 * pow256((len - 1) as nat),
        ;
        lemma_be_encode_val(v / 256, (len - 1) as nat);
        lemma_be_encode_len(v / 256, (len - 1) as nat);
        let s = be_encode(v, len);
        assert(s.drop_last() =~= be_encode(v / 256, (len - 1) as nat));
        assert(s.last() == (v % 256) as u8);
    }
}

/// Encoding the value of a string at its own length gives back the string.
pub proof fn lemma_be_encode_of_val(s: Seq<u8>)
    ensures
        be_encode(be_val(s), s.len()) == s,
{
    lemma_be_val_bound(s);
    lemma_be_encode_val(be_val(s), s.len());
    lemma_be_encode_len(be_val(s), s.len());
    lemma_be_val_injective(be_encode(be_val(s), s.len()), s);
}

/// Big-endian valuation is injective on strings of one length.
pub proof fn lemma_be_val_injective(a: Seq<u8>, b: Seq<u8>)
    requires
        a.len() == b.len(),
        be_val(a) == be_val(b),
    ensures
        a == b,
    decreases a.len(),
{
    if a.len() > 0 {
        lemma_be_val_bound(a.drop_last());
        lemma_be_val_bound(b.drop_last());
        assert(be_val(a.drop_last()) * 256 + a.last() == be_val(b.drop_last()) * 256 + b.last());
        assert(a.last() == b.last() && be_val(a.drop_last()) == be_val(b.drop_last())) by (nonlinear_arith)
            requires
                be_val(a.drop_last()) * 256 + a.last() == be_val(b.drop_last()) * 256 + b.last(),
                a.last() < 256,
                b.last() < 256,
        ;
        lemma_be_val_injective(a.drop_last(), b.drop_last());
        assert forall|i: int| 0 <= i < a.len() implies a[i] == b[i] by {
            if i < a.len() - 1 {
                assert(a[i] == a.drop_last()[i]);
                assert(b[i] == b.drop_last()[i]);
            } else {
                assert(a[i] == a.last());
                assert(b[i] == b.last());
            }
        }
        assert(a =~= b);
    } else {
        assert(a =~= b);
    }
}

} // verus!
