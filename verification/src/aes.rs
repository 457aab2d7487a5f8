//! The 256-bit block cipher: key schedule, forward and inverse round
//! pipeline, padding, and block segmentation.
//!
//! A state is a 16-byte block, a 4x4 byte matrix in column-major order:
//! byte `4*c + r` sits in row `r`, column `c`.

use vstd::prelude::*;

use crate::bytes::xor_bytes;
use crate::gf::{
    inv_sbox_spec, inv_sub_byte, mul11, mul11_spec, mul13, mul13_spec, mul14, mul14_spec, mul2,
    mul2_spec, mul3, mul3_spec, mul9, mul9_spec, rcon, rcon_spec, sbox_spec, sub_byte,
};
use crate::CryptoError;

verus! {

pub open spec fn sub_bytes_spec(s: Seq<u8>) -> Seq<u8> {
    Seq::new(s.len(), |i: int| sbox_spec(s[i]))
}

pub open spec fn inv_sub_bytes_spec(s: Seq<u8>) -> Seq<u8> {
    Seq::new(s.len(), |i: int| inv_sbox_spec(s[i]))
}

/// Source index for byte `i` under row rotation: row `r` moves left by `r`.
pub open spec fn shift_src(i: int) -> int {
    4 * ((i / 4 + i % 4) % 4) + i % 4
}

/// Source index for byte `i` under inverse row rotation.
pub open spec fn inv_shift_src(i: int) -> int {
    4 * ((i / 4 + 4 - i % 4) % 4) + i % 4
}

pub open spec fn shift_rows_spec(s: Seq<u8>) -> Seq<u8> {
    Seq::new(16, |i: int| s[shift_src(i)])
}

pub open spec fn inv_shift_rows_spec(s: Seq<u8>) -> Seq<u8> {
    Seq::new(16, |i: int| s[inv_shift_src(i)])
}

/// Byte `i` of the column-mixed state.
pub open spec fn mix_byte_spec(s: Seq<u8>, i: int) -> u8 {
    let c = 4 * (i / 4);
    let r = i % 4;
    if r == 0 {
        mul2_spec(s[c]) ^ mul3_spec(s[c + 1]) ^ s[c + 2] ^ s[c + 3]
    } else if r == 1 {
        s[c] ^ mul2_spec(s[c + 1]) ^ mul3_spec(s[c + 2]) ^ s[c + 3]
    } else if r == 2 {
        s[c] ^ s[c + 1] ^ mul2_spec(s[c + 2]) ^ mul3_spec(s[c + 3])
    } else {
        mul3_spec(s[c]) ^ s[c + 1] ^ s[c + 2] ^ mul2_spec(s[c + 3])
    }
}

pub open spec fn mix_columns_spec(s: Seq<u8>) -> Seq<u8> {
    Seq::new(16, |i: int| mix_byte_spec(s, i))
}

/// Byte `i` of the inverse column-mixed state.
pub open spec fn inv_mix_byte_spec(s: Seq<u8>, i: int) -> u8 {
    let c = 4 * (i / 4);
    let r = i % 4;
    if r == 0 {
        mul14_spec(s[c]) ^ mul11_spec(s[c + 1]) ^ mul13_spec(s[c + 2]) ^ mul9_spec(s[c + 3])
    } else if r == 1 {
        mul9_spec(s[c]) ^ mul14_spec(s[c + 1]) ^ mul11_spec(s[c + 2]) ^ mul13_spec(s[c + 3])
    } else if r == 2 {
        mul13_spec(s[c]) ^ mul9_spec(s[c + 1]) ^ mul14_spec(s[c + 2]) ^ mul11_spec(s[c + 3])
    } else {
        mul11_spec(s[c]) ^ mul13_spec(s[c + 1]) ^ mul9_spec(s[c + 2]) ^ mul14_spec(s[c + 3])
    }
}

pub open spec fn inv_mix_columns_spec(s: Seq<u8>) -> Seq<u8> {
    Seq::new(16, |i: int| inv_mix_byte_spec(s, i))
}

pub fn sub_bytes(s: &Vec<u8>) -> (r: Vec<u8>)
    requires
        s@.len() == 16,
    ensures
        r@ == sub_bytes_spec(s@),
{
    let mut out: Vec<u8> = Vec::new();
    let mut i: usize = 0;
    while i < 16
        invariant
            i <= 16,
            s@.len() == 16,
            out@ == sub_bytes_spec(s@).take(i as int),
        decreases 16 - i,
    {
        out.push(sub_byte(s[i]));
        assert(sub_bytes_spec(s@).take(i + 1) =~= sub_bytes_spec(s@).take(i as int).push(
            sbox_spec(s@[i as int]),
        ));
        i = i + 1;
    }
    assert(sub_bytes_spec(s@).take(16) =~= sub_bytes_spec(s@));
    out
}

pub fn inv_sub_bytes(s: &Vec<u8>) -> (r: Vec<u8>)
    requires
        s@.len() == 16,
    ensures
        r@ == inv_sub_bytes_spec(s@),
{
    let mut out: Vec<u8> = Vec::new();
    let mut i: usize = 0;
    while i < 16
        invariant
            i <= 16,
            s@.len() == 16,
            out@ == inv_sub_bytes_spec(s@).take(i as int),
        decreases 16 - i,
    {
        out.push(inv_sub_byte(s[i]));
        assert(inv_sub_bytes_spec(s@).take(i + 1) =~= inv_sub_bytes_spec(s@).take(i as int).push(
            inv_sbox_spec(s@[i as int]),
        ));
        i = i + 1;
    }
    assert(inv_sub_bytes_spec(s@).take(16) =~= inv_sub_bytes_spec(s@));
    out
}

pub fn shift_rows(s: &Vec<u8>) -> (r: Vec<u8>)
    requires
        s@.len() == 16,
    ensures
        r@ == shift_rows_spec(s@),
{
    let mut out: Vec<u8> = Vec::new();
    let mut i: usize = 0;
    while i < 16
        invariant
            i <= 16,
            s@.len() == 16,
            out@ == shift_rows_spec(s@).take(i as int),
        decreases 16 - i,
    {
        let c: usize = i / 4;
        let r: usize = i % 4;
        let src: usize = 4 * ((c + r) % 4) + r;
        out.push(s[src]);
        assert(src == shift_src(i as int));
        assert(shift_rows_spec(s@).take(i + 1) =~= shift_rows_spec(s@).take(i as int).push(
            s@[shift_src(i as int)],
        ));
        i = i + 1;
    }
    assert(shift_rows_spec(s@).take(16) =~= shift_rows_spec(s@));
    out
}

pub fn inv_shift_rows(s: &Vec<u8>) -> (r: Vec<u8>)
    requires
        s@.len() == 16,
    ensures
        r@ == inv_shift_rows_spec(s@),
{
    let mut out: Vec<u8> = Vec::new();
    let mut i: usize = 0;
    while i < 16
        invariant
            i <= 16,
            s@.len() == 16,
            out@ == inv_shift_rows_spec(s@).take(i as int),
        decreases 16 - i,
    {
        let c: usize = i / 4;
        let r: usize = i % 4;
        let src: usize = 4 * ((c + 4 - r) % 4) + r;
        out.push(s[src]);
        assert(src == inv_shift_src(i as int));
        assert(inv_shift_rows_spec(s@).take(i + 1) =~= inv_shift_rows_spec(s@).take(
            i as int,
        ).push(s@[inv_shift_src(i as int)]));
        i = i + 1;
    }
    assert(inv_shift_rows_spec(s@).take(16) =~= inv_shift_rows_spec(s@));
    out
}

pub fn mix_columns(s: &Vec<u8>) -> (r: Vec<u8>)
    requires
        s@.len() == 16,
    ensures
        r@ == mix_columns_spec(s@),
{
    let mut out: Vec<u8> = Vec::new();
    let mut col: usize = 0;
    while col < 4
        invariant
            col <= 4,
            s@.len() == 16,
            out@ == mix_columns_spec(s@).take(4 * col),
        decreases 4 - col,
    {
        let base: usize = 4 * col;
        let a0: u8 = s[base];
        let a1: u8 = s[base + 1];
        let a2: u8 = s[base + 2];
        let a3: u8 = s[base + 3];
        out.push(mul2(a0) ^ mul3(a1) ^ a2 ^ a3);
        out.push(a0 ^ mul2(a1) ^ mul3(a2) ^ a3);
        out.push(a0 ^ a1 ^ mul2(a2) ^ mul3(a3));
        out.push(mul3(a0) ^ a1 ^ a2 ^ mul2(a3));
        assert(mix_columns_spec(s@).take(4 * (col + 1)) =~= mix_columns_spec(s@).take(
            4 * col as int,
        ).push(mix_byte_spec(s@, 4 * col)).push(mix_byte_spec(s@, 4 * col + 1)).push(
            mix_byte_spec(s@, 4 * col + 2),
        ).push(mix_byte_spec(s@, 4 * col + 3)));
        col = col + 1;
    }
    assert(mix_columns_spec(s@).take(16) =~= mix_columns_spec(s@));
    out
}

pub fn inv_mix_columns(s: &Vec<u8>) -> (r: Vec<u8>)
    requires
        s@.len() == 16,
    ensures
        r@ == inv_mix_columns_spec(s@),
{
    let mut out: Vec<u8> = Vec::new();
    let mut col: usize = 0;
    while col < 4
        invariant
            col <= 4,
            s@.len() == 16,
            out@ == inv_mix_columns_spec(s@).take(4 * col),
        decreases 4 - col,
    {
        let base: usize = 4 * col;
        let a0: u8 = s[base];
        let a1: u8 = s[base + 1];
        let a2: u8 = s[base + 2];
        let a3: u8 = s[base + 3];
        out.push(mul14(a0) ^ mul11(a1) ^ mul13(a2) ^ mul9(a3));
        out.push(mul9(a0) ^ mul14(a1) ^ mul11(a2) ^ mul13(a3));
        out.push(mul13(a0) ^ mul9(a1) ^ mul14(a2) ^ mul11(a3));
        out.push(mul11(a0) ^ mul13(a1) ^ mul9(a2) ^ mul14(a3));
        assert(inv_mix_columns_spec(s@).take(4 * (col + 1)) =~= inv_mix_columns_spec(s@).take(
            4 * col as int,
        ).push(inv_mix_byte_spec(s@, 4 * col)).push(inv_mix_byte_spec(s@, 4 * col + 1)).push(
            inv_mix_byte_spec(s@, 4 * col + 2),
        ).push(inv_mix_byte_spec(s@, 4 * col + 3)));
        col = col + 1;
    }
    assert(inv_mix_columns_spec(s@).take(16) =~= inv_mix_columns_spec(s@));
    out
}

/// Combine the state with the 16 round-key bytes starting at `offset`.
pub fn add_round_key(s: &Vec<u8>, round_keys: &Vec<u8>, offset: usize) -> (r: Vec<u8>)
    requires
        s@.len() == 16,
        offset + 16 <= round_keys@.len(),
    ensures
        r@ == xor_bytes(s@, round_keys@.subrange(offset as int, offset + 16)),
{
    let ghost rk = round_keys@.subrange(offset as int, offset + 16);
    let rk_len: usize = round_keys.len();
    let mut out: Vec<u8> = Vec::new();
    let mut i: usize = 0;
    while i < 16
        invariant
            i <= 16,
            s@.len() == 16,
            offset + 16 <= rk_len,
            rk_len == round_keys@.len(),
            rk == round_keys@.subrange(offset as int, offset + 16),
            out@ == xor_bytes(s@, rk).take(i as int),
        decreases 16 - i,
    {
        out.push(s[i] ^ round_keys[offset + i]);
        assert(xor_bytes(s@, rk).take(i + 1) =~= xor_bytes(s@, rk).take(i as int).push(
            s@[i as int] ^ rk[i as int],
        ));
        i = i + 1;
    }
    assert(xor_bytes(s@, rk).take(16) =~= xor_bytes(s@, rk));
    out
}

/// Word `i` of the expanded key, as 4 bytes.
pub open spec fn ks_word(key: Seq<u8>, i: nat) -> Seq<u8>
    decreases i,
{
    if i < 8 {
        key.subrange(4 * i as int, 4 * i as int + 4)
    } else {
        let prev = ks_word(key, (i - 1) as nat);
        let back = ks_word(key, (i - 8) as nat);
        let t = if i % 8 == 0 {
            let sw = sub_word_spec(rot_word_spec(prev));
            sw.update(0, sw[0] ^ rcon_spec((i / 8) as nat))
        } else if i % 8 == 4 {
            sub_word_spec(prev)
        } else {
            prev
        };
        xor_bytes(back, t)
    }
}

pub open spec fn rot_word_spec(w: Seq<u8>) -> Seq<u8> {
    seq![w[1], w[2], w[3], w[0]]
}

pub open spec fn sub_word_spec(w: Seq<u8>) -> Seq<u8> {
    Seq::new(4, |i: int| sbox_spec(w[i]))
}

/// The first `n` words of the expanded key, flattened to bytes.
pub open spec fn ks_prefix(key: Seq<u8>, n: nat) -> Seq<u8>
    decreases n,
{
    if n == 0 {
        Seq::empty()
    } else {
        ks_prefix(key, (n - 1) as nat) + ks_word(key, (n - 1) as nat)
    }
}

/// The whole 60-word (240-byte) schedule for the 14-round, 256-bit cipher.
pub open spec fn key_schedule_spec(key: Seq<u8>) -> Seq<u8> {
    ks_prefix(key, 60)
}

pub proof fn lemma_ks_word_len(key: Seq<u8>, i: nat)
    requires
        key.len() == 32,
    ensures
        ks_word(key, i).len() == 4,
    decreases i,
{
    if i >= 8 {
        lemma_ks_word_len(key, (i - 8) as nat);
    }
}

pub proof fn lemma_ks_prefix_len(key: Seq<u8>, n: nat)
    requires
        key.len() == 32,
    ensures
        ks_prefix(key, n).len() == 4 * n,
    decreases n,
{
    if n > 0 {
        lemma_ks_prefix_len(key, (n - 1) as nat);
        lemma_ks_word_len(key, (n - 1) as nat);
    }
}

/// Word `j` sits at bytes `4j .. 4j+4` of any prefix long enough.
pub proof fn lemma_ks_prefix_word(key: Seq<u8>, n: nat, j: nat)
    requires
        key.len() == 32,
        j < n,
    ensures
        ks_prefix(key, n).subrange(4 * j as int, 4 * j as int + 4) == ks_word(key, j),
    decreases n,
{
    lemma_ks_prefix_len(key, n);
    lemma_ks_prefix_len(key, (n - 1) as nat);
    lemma_ks_word_len(key, (n - 1) as nat);
    if j + 1 == n {
        assert(ks_prefix(key, n).subrange(4 * j as int, 4 * j as int + 4) =~= ks_word(key, j));
    } else {
        lemma_ks_prefix_word(key, (n - 1) as nat, j);
        lemma_ks_word_len(key, j);
        assert(ks_prefix(key, n).subrange(4 * j as int, 4 * j as int + 4) =~= ks_prefix(
            key,
            (n - 1) as nat,
        ).subrange(4 * j as int, 4 * j as int + 4));
    }
}

/// The first 8 words are the raw key.
pub proof fn lemma_ks_prefix_raw(key: Seq<u8>, n: nat)
    requires
        n <= 8,
        key.len() == 32,
    ensures
        ks_prefix(key, n) == key.take(4 * n as int),
    decreases n,
{
    if n > 0 {
        lemma_ks_prefix_raw(key, (n - 1) as nat);
        assert(ks_prefix(key, n) =~= key.take(4 * n as int));
    } else {
        assert(ks_prefix(key, n) =~= key.take(0));
    }
}

/// Expand a 32-byte key into the 240-byte round-key schedule.
pub fn key_expansion(key: &Vec<u8>) -> (r: Vec<u8>)
    requires
        key@.len() == 32,
    ensures
        r@ == key_schedule_spec(key@),
        r@.len() == 240,
{
    let mut w: Vec<u8> = Vec::new();
    let mut i: usize = 0;
    while i < 32
        invariant
            i <= 32,
            key@.len() == 32,
            w@ == key@.take(i as int),
        decreases 32 - i,
    {
        w.push(key[i]);
        assert(key@.take(i + 1) =~= key@.take(i as int).push(key@[i as int]));
        i = i + 1;
    }
    proof {
        lemma_ks_prefix_raw(key@, 8);
        assert(key@.take(32) =~= key@);
    }
    let mut wi: usize = 8;
    while wi < 60
        invariant
            8 <= wi <= 60,
            key@.len() == 32,
            w@ == ks_prefix(key@, wi as nat),
            w@.len() == 4 * wi,
        decreases 60 - wi,
    {
        proof {
            lemma_ks_prefix_word(key@, wi as nat, (wi - 1) as nat);
            lemma_ks_prefix_word(key@, wi as nat, (wi - 8) as nat);
            lemma_ks_word_len(key@, (wi - 1) as nat);
            lemma_ks_word_len(key@, (wi - 8) as nat);
        }
        let ghost prev = ks_word(key@, (wi - 1) as nat);
        let ghost back = ks_word(key@, (wi - 8) as nat);
        let mut t0: u8 = w[4 * wi - 4];
        let mut t1: u8 = w[4 * wi - 3];
        let mut t2: u8 = w[4 * wi - 2];
        let mut t3: u8 = w[4 * wi - 1];
        assert(t0 == prev[0] && t1 == prev[1] && t2 == prev[2] && t3 == prev[3]);
        if wi % 8 == 0 {
            let tmp: u8 = t0;
            t0 = sub_byte(t1);
            t1 = sub_byte(t2);
            t2 = sub_byte(t3);
            t3 = sub_byte(tmp);
            t0 = t0 ^ rcon(wi / 8);
        } else if wi % 8 == 4 {
            t0 = sub_byte(t0);
            t1 = sub_byte(t1);
            t2 = sub_byte(t2);
            t3 = sub_byte(t3);
        }
        let ghost tword = if wi % 8 == 0 {
            let sw = sub_word_spec(rot_word_spec(prev));
            sw.update(0, sw[0] ^ rcon_spec((wi / 8) as nat))
        } else if wi % 8 == 4 {
            sub_word_spec(prev)
        } else {
            prev
        };
        assert(t0 == tword[0] && t1 == tword[1] && t2 == tword[2] && t3 == tword[3]);
        let b0: u8 = w[4 * (wi - 8)];
        let b1: u8 = w[4 * (wi - 8) + 1];
        let b2: u8 = w[4 * (wi - 8) + 2];
        let b3: u8 = w[4 * (wi - 8) + 3];
        assert(b0 == back[0] && b1 == back[1] && b2 == back[2] && b3 == back[3]);
        w.push(b0 ^ t0);
        w.push(b1 ^ t1);
        w.push(b2 ^ t2);
        w.push(b3 ^ t3);
        proof {
            assert(tword.len() == 4);
            assert(ks_word(key@, wi as nat) =~= xor_bytes(back, tword));
            assert(xor_bytes(back, tword) =~= seq![b0 ^ t0, b1 ^ t1, b2 ^ t2, b3 ^ t3]);
            assert(w@ =~= ks_prefix(key@, (wi + 1) as nat));
        }
        wi = wi + 1;
    }
    proof {
        lemma_ks_prefix_len(key@, 60);
    }
    w
}

/// One middle round of the forward pipeline.
pub open spec fn round_spec(s: Seq<u8>, rk: Seq<u8>) -> Seq<u8> {
    xor_bytes(mix_columns_spec(shift_rows_spec(sub_bytes_spec(s))), rk)
}

/// The state after the initial key combination and middle rounds `1..=r`.
pub open spec fn rounds_upto(block: Seq<u8>, ks: Seq<u8>, r: nat) -> Seq<u8>
    decreases r,
{
    if r == 0 {
        xor_bytes(block, ks.subrange(0, 16))
    } else {
        round_spec(rounds_upto(block, ks, (r - 1) as nat), ks.subrange(16 * r as int, 16 * r as int + 16))
    }
}

/// The forward transform of one 16-byte block under a 240-byte schedule.
pub open spec fn cipher_spec(block: Seq<u8>, ks: Seq<u8>) -> Seq<u8> {
    xor_bytes(shift_rows_spec(sub_bytes_spec(rounds_upto(block, ks, 13))), ks.subrange(224, 240))
}

/// One middle round of the inverse pipeline, for round key `rk`.
pub open spec fn inv_round_spec(s: Seq<u8>, rk: Seq<u8>) -> Seq<u8> {
    inv_mix_columns_spec(xor_bytes(inv_sub_bytes_spec(inv_shift_rows_spec(s)), rk))
}

/// The state after the initial key combination and `steps` middle rounds,
/// which walk the round keys from round 13 down to round `14 - steps`.
pub open spec fn inv_rounds_upto(block: Seq<u8>, ks: Seq<u8>, steps: nat) -> Seq<u8>
    decreases steps,
{
    if steps == 0 {
        xor_bytes(block, ks.subrange(224, 240))
    } else {
        inv_round_spec(
            inv_rounds_upto(block, ks, (steps - 1) as nat),
            ks.subrange(16 * (14 - steps) as int, 16 * (14 - steps) + 16),
        )
    }
}

/// The inverse transform of one 16-byte block under a 240-byte schedule.
pub open spec fn inv_cipher_spec(block: Seq<u8>, ks: Seq<u8>) -> Seq<u8> {
    xor_bytes(
        inv_sub_bytes_spec(inv_shift_rows_spec(inv_rounds_upto(block, ks, 13))),
        ks.subrange(0, 16),
    )
}

/// Run one 16-byte block forward through all 14 rounds.
pub fn cipher(block: &Vec<u8>, round_keys: &Vec<u8>) -> (r: Vec<u8>)
    requires
        block@.len() == 16,
        round_keys@.len() == 240,
    ensures
        r@ == cipher_spec(block@, round_keys@),
        r@.len() == 16,
{
    let mut state: Vec<u8> = add_round_key(block, round_keys, 0);
    let mut round: usize = 1;
    while round < 14
        invariant
            1 <= round <= 14,
            block@.len() == 16,
            round_keys@.len() == 240,
            state@ == rounds_upto(block@, round_keys@, (round - 1) as nat),
            state@.len() == 16,
        decreases 14 - round,
    {
        state = sub_bytes(&state);
        state = shift_rows(&state);
        state = mix_columns(&state);
        state = add_round_key(&state, round_keys, 16 * round);
        round = round + 1;
    }
    state = sub_bytes(&state);
    state = shift_rows(&state);
    state = add_round_key(&state, round_keys, 224);
    state
}

/// Run one 16-byte block backward through all 14 rounds.
pub fn inv_cipher(block: &Vec<u8>, round_keys: &Vec<u8>) -> (r: Vec<u8>)
    requires
        block@.len() == 16,
        round_keys@.len() == 240,
    ensures
        r@ == inv_cipher_spec(block@, round_keys@),
        r@.len() == 16,
{
    let mut state: Vec<u8> = add_round_key(block, round_keys, 224);
    let mut round: usize = 13;
    while round > 0
        invariant
            round <= 13,
            block@.len() == 16,
            round_keys@.len() == 240,
            state@ == inv_rounds_upto(block@, round_keys@, (13 - round) as nat),
            state@.len() == 16,
        decreases round,
    {
        let ghost steps_before = (13 - round) as nat;
        state = inv_shift_rows(&state);
        state = inv_sub_bytes(&state);
        state = add_round_key(&state, round_keys, 16 * round);
        state = inv_mix_columns(&state);
        proof {
            assert(inv_rounds_upto(block@, round_keys@, steps_before + 1) == inv_round_spec(
                inv_rounds_upto(block@, round_keys@, steps_before),
                round_keys@.subrange(16 * round as int, 16 * round as int + 16),
            ));
        }
        round = round - 1;
    }
    state = inv_shift_rows(&state);
    state = inv_sub_bytes(&state);
    state = add_round_key(&state, round_keys, 0);
    state
}

/// Trailing padding: between 1 and 16 bytes, each equal to the pad length.
pub open spec fn pad_spec(s: Seq<u8>) -> Seq<u8> {
    s + Seq::new((16 - s.len() % 16) as nat, |j: int| (16 - s.len() % 16) as u8)
}

/// Strip the number of trailing bytes the final byte names, without
/// validating that those bytes are uniform; a pad length larger than the
/// buffer strips the whole buffer.
pub open spec fn unpad_spec(s: Seq<u8>) -> Seq<u8> {
    if s.last() as int <= s.len() {
        s.take(s.len() - s.last() as int)
    } else {
        Seq::empty()
    }
}

/// Append padding so the result length is the next multiple of 16.
pub fn pad_data(input: Vec<u8>) -> (r: Vec<u8>)
    requires
        input@.len() + 16 <= usize::MAX,
    ensures
        r@ == pad_spec(input@),
        r@.len() % 16 == 0,
        input@.len() < r@.len() <= input@.len() + 16,
{
    let pad_length: usize = 16 - input.len() % 16;
    let mut out: Vec<u8> = input;
    let ghost unpadded = out@;
    let mut j: usize = 0;
    while j < pad_length
        invariant
            j <= pad_length,
            pad_length == 16 - unpadded.len() % 16,
            out@ == unpadded + Seq::new(j as nat, |l: int| (16 - unpadded.len() % 16) as u8),
        decreases pad_length - j,
    {
        out.push(pad_length as u8);
        assert(unpadded + Seq::new((j + 1) as nat, |l: int| (16 - unpadded.len() % 16) as u8) =~= (
        unpadded + Seq::new(j as nat, |l: int| (16 - unpadded.len() % 16) as u8)).push(
            (16 - unpadded.len() % 16) as u8,
        ));
        j = j + 1;
    }
    out
}

/// Read the final byte as the pad length and strip that many bytes.
pub fn unpad_data(input: Vec<u8>) -> (r: Vec<u8>)
    requires
        input@.len() > 0,
    ensures
        r@ == unpad_spec(input@),
{
    let last: usize = input[input.len() - 1] as usize;
    let keep: usize = if last <= input.len() {
        input.len() - last
    } else {
        0
    };
    let mut out: Vec<u8> = Vec::new();
    let mut i: usize = 0;
    while i < keep
        invariant
            i <= keep,
            keep <= input@.len(),
            out@ == input@.take(i as int),
        decreases keep - i,
    {
        out.push(input[i]);
        assert(input@.take(i + 1) =~= input@.take(i as int).push(input@[i as int]));
        i = i + 1;
    }
    out
}

/// Inverse row rotation undoes row rotation on a 16-byte state.
pub proof fn lemma_shift_rows_inverse(s: Seq<u8>)
    requires
        s.len() == 16,
    ensures
        inv_shift_rows_spec(shift_rows_spec(s)) == s,
{
    assert(inv_shift_rows_spec(shift_rows_spec(s)) =~= s);
}

/// Unpadding undoes padding: the pad length byte is always the last byte of
/// the padded buffer, and between 1 and 16 bytes are stripped.
pub proof fn lemma_unpad_pad(p: Seq<u8>)
    ensures
        unpad_spec(pad_spec(p)) == p,
{
    let padded = pad_spec(p);
    let plen = 16 - (p.len() % 16) as int;
    assert(padded.len() == p.len() + plen);
    assert(padded.last() == plen as u8);
    assert(unpad_spec(padded) =~= p);
}

/// Forward-transform every 16-byte block of `data` and concatenate.
pub open spec fn encrypt_blocks_spec(data: Seq<u8>, ks: Seq<u8>) -> Seq<u8>
    decreases data.len(),
{
    if data.len() < 16 {
        Seq::empty()
    } else {
        cipher_spec(data.take(16), ks) + encrypt_blocks_spec(data.skip(16), ks)
    }
}

/// Inverse-transform every 16-byte block of `data` and concatenate.
pub open spec fn decrypt_blocks_spec(data: Seq<u8>, ks: Seq<u8>) -> Seq<u8>
    decreases data.len(),
{
    if data.len() < 16 {
        Seq::empty()
    } else {
        inv_cipher_spec(data.take(16), ks) + decrypt_blocks_spec(data.skip(16), ks)
    }
}

pub proof fn lemma_encrypt_blocks_len(data: Seq<u8>, ks: Seq<u8>)
    requires
        data.len() % 16 == 0,
    ensures
        encrypt_blocks_spec(data, ks).len() == data.len(),
    decreases data.len(),
{
    if data.len() >= 16 {
        lemma_encrypt_blocks_len(data.skip(16), ks);
    }
}

pub proof fn lemma_decrypt_blocks_len(data: Seq<u8>, ks: Seq<u8>)
    requires
        data.len() % 16 == 0,
    ensures
        decrypt_blocks_spec(data, ks).len() == data.len(),
    decreases data.len(),
{
    if data.len() >= 16 {
        lemma_decrypt_blocks_len(data.skip(16), ks);
    }
}

/// What encryption returns on success: pad, then transform block by block.
pub open spec fn aes_encrypt_spec(p: Seq<u8>, key: Seq<u8>) -> Seq<u8> {
    encrypt_blocks_spec(pad_spec(p), key_schedule_spec(key))
}

/// What decryption returns on success: transform block by block, then unpad.
pub open spec fn aes_decrypt_spec(c: Seq<u8>, key: Seq<u8>) -> Seq<u8> {
    unpad_spec(decrypt_blocks_spec(c, key_schedule_spec(key)))
}

/// Encrypt an arbitrary-length buffer under a 32-byte key. Padding is always
/// appended, so the output is a strictly longer multiple of 16 bytes.
pub fn aes_encrypt(input: Vec<u8>, key: Vec<u8>) -> (r: Result<Vec<u8>, CryptoError>)
    requires
        input@.len() + 16 <= usize::MAX,
    ensures
        (match r {
            Ok(out) => key@.len() == 32 && out@ == aes_encrypt_spec(input@, key@) && out@.len()
                % 16 == 0 && out@.len() > input@.len(),
            Err(e) => key@.len() != 32 && e == CryptoError::KeyLength,
        }),
{
    if key.len() != 32 {
        return Err(CryptoError::KeyLength);
    }
    let data: Vec<u8> = pad_data(input);
    let expanded_key: Vec<u8> = key_expansion(&key);
    let ghost padded = data@;
    let ghost ks = expanded_key@;
    let blocks: usize = data.len() / 16;
    let mut out: Vec<u8> = Vec::new();
    let mut i: usize = 0;
    proof {
        assert(padded.skip(0) =~= padded);
        assert(Seq::<u8>::empty() + encrypt_blocks_spec(padded, ks) =~= encrypt_blocks_spec(
            padded,
            ks,
        ));
    }
    while i < blocks
        invariant
            i <= blocks,
            data@ == padded,
            expanded_key@ == ks,
            ks.len() == 240,
            padded.len() == 16 * blocks,
            16 * blocks <= usize::MAX,
            out@ + encrypt_blocks_spec(padded.skip(16 * i), ks) == encrypt_blocks_spec(padded, ks),
            out@.len() == 16 * i,
        decreases blocks - i,
    {
        let mut chunk: Vec<u8> = Vec::new();
        let mut j: usize = 0;
        while j < 16
            invariant
                j <= 16,
                i < blocks,
                data@ == padded,
                padded.len() == 16 * blocks,
                16 * blocks <= usize::MAX,
                chunk@ == padded.subrange(16 * i as int, 16 * i + j),
            decreases 16 - j,
        {
            chunk.push(data[16 * i + j]);
            assert(padded.subrange(16 * i as int, 16 * i + j + 1) =~= padded.subrange(
                16 * i as int,
                16 * i + j,
            ).push(padded[16 * i + j]));
            j = j + 1;
        }
        let mut enc: Vec<u8> = cipher(&chunk, &expanded_key);
        proof {
            assert(chunk@ =~= padded.skip(16 * i).take(16));
            assert(padded.skip(16 * i).skip(16) =~= padded.skip(16 * (i + 1)));
            assert(out@ + enc@ + encrypt_blocks_spec(padded.skip(16 * (i + 1)), ks)
                =~= out@ + encrypt_blocks_spec(padded.skip(16 * i), ks));
        }
        out.append(&mut enc);
        i = i + 1;
    }
    proof {
        assert(padded.skip(16 * blocks) =~= Seq::<u8>::empty());
        assert(out@ + Seq::<u8>::empty() =~= out@);
        lemma_encrypt_blocks_len(padded, ks);
    }
    Ok(out)
}

/// Decrypt a buffer produced by `aes_encrypt` under the same 32-byte key.
/// The ciphertext must be a positive multiple of 16 bytes.
pub fn aes_decrypt(input: Vec<u8>, key: Vec<u8>) -> (r: Result<Vec<u8>, CryptoError>)
    ensures
        (match r {
            Ok(out) => key@.len() == 32 && input@.len() > 0 && input@.len() % 16 == 0 && out@
                == aes_decrypt_spec(input@, key@),
            Err(e) => if key@.len() != 32 {
                e == CryptoError::KeyLength
            } else {
                (input@.len() == 0 || input@.len() % 16 != 0) && e == CryptoError::CiphertextLength
            },
        }),
{
    if key.len() != 32 {
        return Err(CryptoError::KeyLength);
    }
    if input.len() == 0 || input.len() % 16 != 0 {
        return Err(CryptoError::CiphertextLength);
    }
    let expanded_key: Vec<u8> = key_expansion(&key);
    let ghost cdata = input@;
    let ghost ks = expanded_key@;
    let blocks: usize = input.len() / 16;
    let mut out: Vec<u8> = Vec::new();
    let mut i: usize = 0;
    proof {
        assert(cdata.skip(0) =~= cdata);
        assert(Seq::<u8>::empty() + decrypt_blocks_spec(cdata, ks) =~= decrypt_blocks_spec(
            cdata,
            ks,
        ));
    }
    while i < blocks
        invariant
            i <= blocks,
            input@ == cdata,
            expanded_key@ == ks,
            ks.len() == 240,
            cdata.len() == 16 * blocks,
            16 * blocks <= usize::MAX,
            out@ + decrypt_blocks_spec(cdata.skip(16 * i), ks) == decrypt_blocks_spec(cdata, ks),
            out@.len() == 16 * i,
        decreases blocks - i,
    {
        let mut chunk: Vec<u8> = Vec::new();
        let mut j: usize = 0;
        while j < 16
            invariant
                j <= 16,
                i < blocks,
                input@ == cdata,
                cdata.len() == 16 * blocks,
                16 * blocks <= usize::MAX,
                chunk@ == cdata.subrange(16 * i as int, 16 * i + j),
            decreases 16 - j,
        {
            chunk.push(input[16 * i + j]);
            assert(cdata.subrange(16 * i as int, 16 * i + j + 1) =~= cdata.subrange(
                16 * i as int,
                16 * i + j,
            ).push(cdata[16 * i + j]));
            j = j + 1;
        }
        let mut dec: Vec<u8> = inv_cipher(&chunk, &expanded_key);
        proof {
            assert(chunk@ =~= cdata.skip(16 * i).take(16));
            assert(cdata.skip(16 * i).skip(16) =~= cdata.skip(16 * (i + 1)));
            assert(out@ + dec@ + decrypt_blocks_spec(cdata.skip(16 * (i + 1)), ks)
                =~= out@ + decrypt_blocks_spec(cdata.skip(16 * i), ks));
        }
        out.append(&mut dec);
        i = i + 1;
    }
    proof {
        assert(cdata.skip(16 * blocks) =~= Seq::<u8>::empty());
        assert(out@ + Seq::<u8>::empty() =~= out@);
        lemma_decrypt_blocks_len(cdata, ks);
    }
    Ok(unpad_data(out))
}

} // verus!
