//! RSA public-key encryption with OAEP padding: the mask generation
//! function, single-block OAEP encode/decode around the raw exponentiation
//! primitive, and multi-block chaining.

use vstd::arithmetic::power::pow;
use vstd::prelude::*;

use crate::bigint::{i2osp, mod_exp, os2ip, ub_lt, ubig_value};
use crate::bytes::{
    be_encode, be_val, lemma_be_encode_len, lemma_be_encode_of_val, lemma_be_encode_val,
    lemma_be_val_bound, lemma_pow256_increases, pow256, xor, xor_bytes, zero_seq,
};
use crate::CryptoError;

verus! {

/// Output length of the hash primitive, in bytes.
pub const H_LEN: usize = 20;

/// The hash of the empty label, used by OAEP integrity checking.
pub const L_HASH: [u8; 20] = [
    218, 57, 163, 238, 94, 107, 75, 13, 50, 85, 191, 239, 149, 96, 24, 144, 175, 216, 7, 9,
];

/// The largest mask MGF1 may produce: `2^32` hash blocks.
pub const MGF_MAX_LEN: u64 = 4294967296u64 * 20;

pub open spec fn l_hash_seq() -> Seq<u8> {
    L_HASH@
}

/// What the hash primitive returns. The digest depends on the input bytes
/// alone, so the result carries a name rather than a page of algorithm.
pub uninterp spec fn sha1_of(data: Seq<u8>) -> Seq<u8>;

/// Relies on `sha1_smol::Sha1`: a 20-byte digest of the input bytes alone.
#[verifier::external_body]
fn sha1_digest(data: &Vec<u8>) -> (r: Vec<u8>)
    ensures
        r@ == sha1_of(data@),
        r@.len() == 20,
{
    let mut hasher = sha1_smol::Sha1::new();
    hasher.update(data.as_slice());
    hasher.digest().bytes().to_vec()
}

/// Relies on `rand::thread_rng` and `rand::distributions::Uniform` for the
/// OAEP seed; nothing is promised of the drawn values, only the length.
#[verifier::external_body]
fn random_seed() -> (r: Vec<u8>)
    ensures
        r@.len() == 20,
{
    let mut rng = rand::thread_rng();
    let range = rand::distributions::Uniform::new(0u8, 255u8);
    let mut out: Vec<u8> = Vec::new();
    for _ in 0..20 {
        out.push(rand::Rng::sample(&mut rng, &range));
    }
    out
}

/// Big-endian 4-byte counter encoding used inside MGF1.
pub open spec fn u32_be_spec(c: u32) -> Seq<u8> {
    seq![
        (c / 16777216) as u8,
        ((c / 65536) % 256) as u8,
        ((c / 256) % 256) as u8,
        (c % 256) as u8,
    ]
}

fn u32_to_be(c: u32) -> (r: Vec<u8>)
    ensures
        r@ == u32_be_spec(c),
{
    let mut out: Vec<u8> = Vec::new();
    out.push((c / 16777216) as u8);
    out.push(((c / 65536) % 256) as u8);
    out.push(((c / 256) % 256) as u8);
    out.push((c % 256) as u8);
    assert(out@ =~= u32_be_spec(c));
    out
}

/// A digest as MGF1 consumes it: always 20 bytes. The hash primitive always
/// returns 20 bytes, so this only pins the length at the specification level.
pub open spec fn digest_block(s: Seq<u8>) -> Seq<u8> {
    if s.len() == 20 {
        s
    } else {
        zero_seq(20)
    }
}

/// The first `cnt` concatenated hash blocks of the MGF1 output stream.
pub open spec fn mgf_stream(seed: Seq<u8>, cnt: nat) -> Seq<u8>
    decreases cnt,
{
    if cnt == 0 {
        Seq::empty()
    } else {
        mgf_stream(seed, (cnt - 1) as nat) + digest_block(
            sha1_of(seed + u32_be_spec((cnt - 1) as u32)),
        )
    }
}

pub proof fn lemma_mgf_stream_len(seed: Seq<u8>, cnt: nat)
    ensures
        mgf_stream(seed, cnt).len() == 20 * cnt,
    decreases cnt,
{
    if cnt > 0 {
        lemma_mgf_stream_len(seed, (cnt - 1) as nat);
    }
}

/// The MGF1 mask of length `n`: enough hash blocks, truncated to `n` bytes.
pub open spec fn mgf1_spec(seed: Seq<u8>, n: nat) -> Seq<u8> {
    mgf_stream(seed, (n + 19) / 20).take(n as int)
}

pub proof fn lemma_mgf1_len(seed: Seq<u8>, n: nat)
    ensures
        mgf1_spec(seed, n).len() == n,
{
    lemma_mgf_stream_len(seed, (n + 19) / 20);
}

/// An earlier block count yields a prefix of a later one.
proof fn lemma_mgf_stream_prefix(seed: Seq<u8>, c1: nat, c2: nat, m: int)
    requires
        c1 <= c2,
        0 <= m <= 20 * c1,
    ensures
        mgf_stream(seed, c2).take(m) == mgf_stream(seed, c1).take(m),
    decreases c2 - c1,
{
    lemma_mgf_stream_len(seed, c1);
    lemma_mgf_stream_len(seed, c2);
    if c1 < c2 {
        lemma_mgf_stream_prefix(seed, c1, (c2 - 1) as nat, m);
        lemma_mgf_stream_len(seed, (c2 - 1) as nat);
        assert(mgf_stream(seed, c2).take(m) =~= mgf_stream(seed, (c2 - 1) as nat).take(m));
    }
}

/// MGF1 is deterministic by construction, and a shorter mask is a prefix of
/// a longer one drawn from the same seed.
pub proof fn lemma_mgf1_prefix(seed: Seq<u8>, m: nat, n: nat)
    requires
        m <= n,
    ensures
        mgf1_spec(seed, n).take(m as int) == mgf1_spec(seed, m),
{
    lemma_mgf_stream_len(seed, (n + 19) / 20);
    lemma_mgf_stream_len(seed, (m + 19) / 20);
    lemma_mgf_stream_prefix(seed, (m + 19) / 20, (n + 19) / 20, m as int);
    assert(mgf1_spec(seed, n).take(m as int) =~= mgf_stream(seed, (n + 19) / 20).take(m as int));
}

/// MGF1: concatenate hashes of `seed ‖ counter` until `mask_len` bytes are
/// available, then truncate to exactly `mask_len`.
pub fn mgf(mgf_seed: &Vec<u8>, mask_len: usize) -> (r: Result<Vec<u8>, CryptoError>)
    requires
        mask_len + 20 <= usize::MAX,
        mgf_seed@.len() + 4 <= usize::MAX,
    ensures
        (match r {
            Ok(out) => mask_len as nat <= MGF_MAX_LEN as nat && out@ == mgf1_spec(
                mgf_seed@,
                mask_len as nat,
            ) && out@.len() == mask_len,
            Err(e) => mask_len as nat > MGF_MAX_LEN as nat && e == CryptoError::MaskTooLong,
        }),
{
    if mask_len as u64 > MGF_MAX_LEN {
        return Err(CryptoError::MaskTooLong);
    }
    let mut t: Vec<u8> = Vec::new();
    let mut counter: u64 = 0;
    while t.len() < mask_len
        invariant
            mask_len + 20 <= usize::MAX,
            mgf_seed@.len() + 4 <= usize::MAX,
            t@ == mgf_stream(mgf_seed@, counter as nat),
            t@.len() == 20 * counter,
            counter > 0 ==> 20 * (counter - 1) < mask_len,
            mask_len as nat <= MGF_MAX_LEN as nat,
        decreases mask_len + 20 - t@.len(),
    {
        let mut concated: Vec<u8> = Vec::new();
        let mut i: usize = 0;
        while i < mgf_seed.len()
            invariant
                i <= mgf_seed@.len(),
                concated@ == mgf_seed@.take(i as int),
            decreases mgf_seed@.len() - i,
        {
            concated.push(mgf_seed[i]);
            assert(mgf_seed@.take(i + 1) =~= mgf_seed@.take(i as int).push(mgf_seed@[i as int]));
            i = i + 1;
        }
        assert(mgf_seed@.take(mgf_seed@.len() as int) =~= mgf_seed@);
        assert(counter < 4294967296) by {
            assert(20 * counter < mask_len);
        };
        let mut c: Vec<u8> = u32_to_be(counter as u32);
        concated.append(&mut c);
        let mut digest: Vec<u8> = sha1_digest(&concated);
        let ghost t_old = t@;
        proof {
            assert(digest@ == digest_block(sha1_of(mgf_seed@ + u32_be_spec(counter as u32))));
        }
        t.append(&mut digest);
        proof {
            assert(t@ == mgf_stream(mgf_seed@, (counter + 1) as nat));
        }
        counter = counter + 1;
    }
    let mut out: Vec<u8> = Vec::new();
    let mut i: usize = 0;
    while i < mask_len
        invariant
            i <= mask_len,
            mask_len <= t@.len(),
            out@ == t@.take(i as int),
        decreases mask_len - i,
    {
        out.push(t[i]);
        assert(t@.take(i + 1) =~= t@.take(i as int).push(t@[i as int]));
        i = i + 1;
    }
    proof {
        assert(counter as nat == (mask_len as nat + 19) / 20);
        assert(out@ =~= mgf1_spec(mgf_seed@, mask_len as nat));
    }
    Ok(out)
}

/// An executable result agrees with a specification-level one.
pub open spec fn matches_result(r: Result<Vec<u8>, CryptoError>, s: Result<Seq<u8>, CryptoError>) -> bool {
    match (r, s) {
        (Ok(v), Ok(sv)) => v@ == sv,
        (Err(e), Err(se)) => e == se,
        _ => false,
    }
}

/// The OAEP data block: `L_HASH ‖ zero padding ‖ 0x01 ‖ message`, of total
/// length `k - 21`.
pub open spec fn oaep_db_spec(k: nat, msg: Seq<u8>) -> Seq<u8> {
    l_hash_seq() + zero_seq((k - msg.len() - 42) as nat) + seq![1u8] + msg
}

/// The OAEP encoded message: `0x00 ‖ maskedSeed ‖ maskedDB`, of length `k`.
pub open spec fn oaep_em_spec(k: nat, msg: Seq<u8>, seed: Seq<u8>) -> Seq<u8> {
    let db = oaep_db_spec(k, msg);
    let db_mask = mgf1_spec(seed, (k - 21) as nat);
    let masked_db = xor_bytes(db, db_mask);
    let seed_mask = mgf1_spec(masked_db, 20);
    let masked_seed = xor_bytes(seed, seed_mask);
    seq![0u8] + masked_seed + masked_db
}

/// What single-block OAEP encryption returns for a given 20-byte seed.
pub open spec fn oaep_encrypt_spec(modulo: Seq<u8>, exponent: Seq<u8>, msg: Seq<u8>, seed: Seq<u8>) -> Result<Seq<u8>, CryptoError> {
    let k = modulo.len();
    if msg.len() + 42 > k {
        Err(CryptoError::MessageTooLong)
    } else if (k - 21) as nat > MGF_MAX_LEN as nat {
        Err(CryptoError::MaskTooLong)
    } else {
        let m = be_val(oaep_em_spec(k, msg, seed));
        let n = be_val(modulo);
        if m >= n {
            Err(CryptoError::Range)
        } else {
            let c = if be_val(exponent) == 0 {
                1nat
            } else {
                (pow(m as int, be_val(exponent)) % (n as int)) as nat
            };
            Ok(be_encode(c, k))
        }
    }
}

/// Single-block OAEP encryption with a caller-supplied 20-byte seed; the
/// deterministic core of `rsaes_oaep_encrypt`.
pub fn rsaes_oaep_encrypt_seeded(
    modulo: &Vec<u8>,
    exponent: &Vec<u8>,
    input: Vec<u8>,
    seed: &Vec<u8>,
) -> (r: Result<Vec<u8>, CryptoError>)
    requires
        seed@.len() == 20,
    ensures
        matches_result(r, oaep_encrypt_spec(modulo@, exponent@, input@, seed@)),
{
    let k: usize = modulo.len();
    if k < 42 || input.len() > k - 42 {
        return Err(CryptoError::MessageTooLong);
    }
    let ghost msg = input@;
    let mut db: Vec<u8> = Vec::new();
    let mut i: usize = 0;
    while i < 20
        invariant
            i <= 20,
            db@ == l_hash_seq().take(i as int),
        decreases 20 - i,
    {
        db.push(L_HASH[i]);
        assert(l_hash_seq().take(i + 1) =~= l_hash_seq().take(i as int).push(l_hash_seq()[i as int]));
        i = i + 1;
    }
    assert(l_hash_seq().take(20) =~= l_hash_seq());
    let ps_len: usize = k - input.len() - 42;
    let mut j: usize = 0;
    while j < ps_len
        invariant
            j <= ps_len,
            db@ == l_hash_seq() + zero_seq(j as nat),
        decreases ps_len - j,
    {
        db.push(0);
        assert(l_hash_seq() + zero_seq((j + 1) as nat) =~= (l_hash_seq() + zero_seq(j as nat)).push(0u8));
        j = j + 1;
    }
    db.push(1);
    let mut moved_input: Vec<u8> = input;
    db.append(&mut moved_input);
    proof {
        assert(db@ =~= oaep_db_spec(k as nat, msg));
    }
    let db_mask: Vec<u8> = match mgf(seed, k - 21) {
        Ok(v) => v,
        Err(_) => {
            return Err(CryptoError::MaskTooLong);
        },
    };
    let masked_db: Vec<u8> = xor(&db, &db_mask);
    let seed_mask: Vec<u8> = match mgf(&masked_db, 20) {
        Ok(v) => v,
        Err(e) => {
            proof {
                assert(false);
            }
            return Err(e);
        },
    };
    let masked_seed: Vec<u8> = xor(seed, &seed_mask);
    let mut em: Vec<u8> = Vec::new();
    em.push(0);
    let mut ms: Vec<u8> = masked_seed;
    let mut md: Vec<u8> = masked_db;
    em.append(&mut ms);
    em.append(&mut md);
    proof {
        assert(em@ =~= oaep_em_spec(k as nat, msg, seed@));
    }
    let m_int: ibig::UBig = os2ip(&em);
    let n_int: ibig::UBig = os2ip(modulo);
    if !ub_lt(&m_int, &n_int) {
        return Err(CryptoError::Range);
    }
    let e_int: ibig::UBig = os2ip(exponent);
    let ghost m_val = be_val(em@);
    let ghost n_val = be_val(modulo@);
    let ghost e_val = be_val(exponent@);
    let c_int: ibig::UBig = mod_exp(m_int, e_int, n_int);
    let ghost c_val: nat = if e_val == 0 {
        1nat
    } else {
        (pow(m_val as int, e_val) % (n_val as int)) as nat
    };
    proof {
        assert(ubig_value(c_int) == c_val);
        lemma_be_val_bound(modulo@);
        lemma_pow256_increases(1, k as nat);
        assert(c_val < pow256(k as nat));
    }
    match i2osp(&c_int, k) {
        Ok(out) => {
            proof {
                lemma_be_encode_len(c_val, k as nat);
                lemma_be_encode_val(c_val, k as nat);
                crate::bytes::lemma_be_val_injective(out@, be_encode(c_val, k as nat));
            }
            Ok(out)
        },
        Err(_) => {
            proof {
                assert(false);
            }
            Err(CryptoError::IntegerEncoding)
        },
    }
}

/// Single-block OAEP encryption with a fresh random seed. Which seed is
/// drawn is chance, so success in the `Range` step is not promised; every
/// other outcome is pinned down.
pub fn rsaes_oaep_encrypt(modulo: &Vec<u8>, exponent: &Vec<u8>, input: Vec<u8>) -> (r: Result<
    Vec<u8>,
    CryptoError,
>)
    ensures
        (match r {
            Ok(out) => (exists|sd: Seq<u8>|
                sd.len() == 20 && oaep_encrypt_spec(modulo@, exponent@, input@, sd) == Ok::<
                    Seq<u8>,
                    CryptoError,
                >(out@)),
            Err(e) => if input@.len() + 42 > modulo@.len() {
                e == CryptoError::MessageTooLong
            } else if (modulo@.len() - 21) as nat > MGF_MAX_LEN as nat {
                e == CryptoError::MaskTooLong
            } else {
                e == CryptoError::Range
            },
        }),
{
    let seed: Vec<u8> = random_seed();
    let ghost sd = seed@;
    let r = rsaes_oaep_encrypt_seeded(modulo, exponent, input, &seed);
    proof {
        if r is Ok {
            assert(oaep_encrypt_spec(modulo@, exponent@, input@, sd) == Ok::<Seq<u8>, CryptoError>(
                r->Ok_0@,
            ));
        }
    }
    r
}

/// The first index at or after `i` holding a non-zero byte, or -1.
pub open spec fn first_nonzero(db: Seq<u8>, i: nat) -> int
    decreases db.len() - i when i <= db.len()
{
    if i >= db.len() {
        -1
    } else if db[i as int] != 0 {
        i as int
    } else {
        first_nonzero(db, i + 1)
    }
}

/// Unmask an encoded message and recover the payload: check the label hash,
/// then scan past the zero padding for the 0x01 delimiter. The scan is
/// bounded by the block, and a missing delimiter is an integrity failure.
pub open spec fn oaep_decode_em_spec(k: nat, em: Seq<u8>) -> Result<Seq<u8>, CryptoError> {
    let masked_seed = em.subrange(1, 21);
    let masked_db = em.subrange(21, k as int);
    let seed_mask = mgf1_spec(masked_db, 20);
    let seed = xor_bytes(masked_seed, seed_mask);
    let db_mask = mgf1_spec(seed, (k - 21) as nat);
    let db = xor_bytes(masked_db, db_mask);
    if db.subrange(0, 20) != l_hash_seq() {
        Err(CryptoError::Integrity)
    } else {
        let j = first_nonzero(db, 20);
        if j < 0 {
            Err(CryptoError::Integrity)
        } else if db[j] != 1 {
            Err(CryptoError::Integrity)
        } else {
            Ok(db.subrange(j + 1, db.len() as int))
        }
    }
}

/// What single-block OAEP decryption returns; deterministic in its inputs.
pub open spec fn oaep_decrypt_spec(modulo: Seq<u8>, exponent: Seq<u8>, input: Seq<u8>) -> Result<
    Seq<u8>,
    CryptoError,
> {
    let k = modulo.len();
    if input.len() != k || k < 42 {
        Err(CryptoError::CiphertextLength)
    } else {
        let c = be_val(input);
        let n = be_val(modulo);
        if c >= n {
            Err(CryptoError::Range)
        } else {
            let m = if be_val(exponent) == 0 {
                1nat
            } else {
                (pow(c as int, be_val(exponent)) % (n as int)) as nat
            };
            if (k - 21) as nat > MGF_MAX_LEN as nat {
                Err(CryptoError::MaskTooLong)
            } else {
                oaep_decode_em_spec(k, be_encode(m, k))
            }
        }
    }
}

/// Single-block OAEP decryption: the ciphertext block must be exactly `k`
/// bytes; the label hash and the padding delimiter are both verified.
#[verifier::loop_isolation(false)]
pub fn rsaes_oaep_decrypt(modulo: &Vec<u8>, exponent: &Vec<u8>, input: Vec<u8>) -> (r: Result<
    Vec<u8>,
    CryptoError,
>)
    ensures
        matches_result(r, oaep_decrypt_spec(modulo@, exponent@, input@)),
{
    let k: usize = modulo.len();
    if input.len() != k || k < 42 {
        return Err(CryptoError::CiphertextLength);
    }
    let c_int: ibig::UBig = os2ip(&input);
    let n_int: ibig::UBig = os2ip(modulo);
    if !ub_lt(&c_int, &n_int) {
        return Err(CryptoError::Range);
    }
    let e_int: ibig::UBig = os2ip(exponent);
    let ghost c_val = be_val(input@);
    let ghost n_val = be_val(modulo@);
    let ghost e_val = be_val(exponent@);
    let m_int: ibig::UBig = mod_exp(c_int, e_int, n_int);
    let ghost m_val: nat = if e_val == 0 {
        1nat
    } else {
        (pow(c_val as int, e_val) % (n_val as int)) as nat
    };
    proof {
        assert(ubig_value(m_int) == m_val);
        lemma_be_val_bound(modulo@);
        lemma_pow256_increases(1, k as nat);
        assert(m_val < pow256(k as nat));
    }
    let em: Vec<u8> = match i2osp(&m_int, k) {
        Ok(v) => v,
        Err(_) => {
            proof {
                assert(false);
            }
            return Err(CryptoError::IntegerEncoding);
        },
    };
    proof {
        lemma_be_encode_len(m_val, k as nat);
        lemma_be_encode_val(m_val, k as nat);
        crate::bytes::lemma_be_val_injective(em@, be_encode(m_val, k as nat));
    }
    let mut masked_seed: Vec<u8> = Vec::new();
    let mut i: usize = 1;
    while i < 21
        invariant
            1 <= i <= 21,
            em@.len() == k,
            k >= 42,
            masked_seed@ == em@.subrange(1, i as int),
        decreases 21 - i,
    {
        masked_seed.push(em[i]);
        assert(em@.subrange(1, i + 1) =~= em@.subrange(1, i as int).push(em@[i as int]));
        i = i + 1;
    }
    let mut masked_db: Vec<u8> = Vec::new();
    let mut i2: usize = 21;
    while i2 < k
        invariant
            21 <= i2 <= k,
            em@.len() == k,
            k >= 42,
            masked_db@ == em@.subrange(21, i2 as int),
        decreases k - i2,
    {
        masked_db.push(em[i2]);
        assert(em@.subrange(21, i2 + 1) =~= em@.subrange(21, i2 as int).push(em@[i2 as int]));
        i2 = i2 + 1;
    }
    let seed_mask: Vec<u8> = match mgf(&masked_db, 20) {
        Ok(v) => v,
        Err(e) => {
            proof {
                assert(false);
            }
            return Err(e);
        },
    };
    let seed: Vec<u8> = xor(&masked_seed, &seed_mask);
    let db_mask: Vec<u8> = match mgf(&seed, k - 21) {
        Ok(v) => v,
        Err(e) => {
            return Err(e);
        },
    };
    let db: Vec<u8> = xor(&masked_db, &db_mask);
    let ghost db_spec = xor_bytes(em@.subrange(21, k as int), mgf1_spec(xor_bytes(em@.subrange(1, 21), mgf1_spec(em@.subrange(21, k as int), 20)), (k - 21) as nat));
    proof {
        assert(db@ == db_spec);
    }
    let mut li: usize = 0;
    while li < 20
        invariant
            li <= 20,
            db@.len() == k - 21,
            k >= 42,
            db@ == db_spec,
            forall|j: int| 0 <= j < li ==> db@[j] == l_hash_seq()[j],
        decreases 20 - li,
    {
        if db[li] != L_HASH[li] {
            proof {
                assert(db@.subrange(0, 20)[li as int] != l_hash_seq()[li as int]);
            }
            return Err(CryptoError::Integrity);
        }
        li = li + 1;
    }
    proof {
        assert(db@.subrange(0, 20) =~= l_hash_seq());
    }
    let db_len: usize = db.len();
    let mut idx: usize = 20;
    while idx < db_len && db[idx] == 0
        invariant
            20 <= idx <= db_len,
            db_len == db@.len(),
            db@ == db_spec,
            first_nonzero(db@, 20) == first_nonzero(db@, idx as nat),
        decreases db_len - idx,
    {
        idx = idx + 1;
    }
    if idx >= db_len {
        return Err(CryptoError::Integrity);
    }
    if db[idx] != 1 {
        return Err(CryptoError::Integrity);
    }
    let mut out: Vec<u8> = Vec::new();
    let mut oi: usize = idx + 1;
    while oi < db_len
        invariant
            idx + 1 <= oi <= db_len,
            db_len == db@.len(),
            out@ == db@.subrange(idx + 1, oi as int),
        decreases db_len - oi,
    {
        out.push(db[oi]);
        assert(db@.subrange(idx + 1, oi + 1) =~= db@.subrange(idx + 1, oi as int).push(
            db@[oi as int],
        ));
        oi = oi + 1;
    }
    Ok(out)
}

/// How many OAEP blocks a plaintext of length `len` takes, for a chunk
/// capacity of `bl` bytes.
pub open spec fn rsa_num_blocks(len: nat, bl: nat) -> nat
    recommends
        bl > 0,
{
    ((len + bl - 1) / (bl as int)) as nat
}

/// Chunk `i` of a plaintext split into `bl`-byte pieces; only the last
/// piece may be shorter.
pub open spec fn rsa_chunk(p: Seq<u8>, bl: nat, i: nat) -> Seq<u8> {
    p.subrange(
        (i * bl) as int,
        if (i + 1) * bl <= p.len() {
            ((i + 1) * bl) as int
        } else {
            p.len() as int
        },
    )
}

/// Block `bi` of the output encrypts chunk `bi` of the plaintext under some
/// 20-byte seed.
pub open spec fn rsa_encrypt_block_ok(
    modulo: Seq<u8>,
    exponent: Seq<u8>,
    p: Seq<u8>,
    out: Seq<u8>,
    bi: int,
) -> bool {
    exists|sd: Seq<u8>|
        sd.len() == 20 && oaep_encrypt_spec(
            modulo,
            exponent,
            rsa_chunk(p, (modulo.len() - 42) as nat, bi as nat),
            sd,
        ) == Ok::<Seq<u8>, CryptoError>(
            out.subrange(bi * modulo.len() as int, (bi + 1) * modulo.len() as int),
        )
}

/// Chunk `i` of `ceil(len / bl)` starts strictly inside the buffer.
proof fn lemma_chunk_start(i: nat, bl: nat, len: nat)
    requires
        bl >= 1,
        i < (len + bl - 1) as int / bl as int,
    ensures
        i * bl < len,
        (i + 1) * bl <= len + bl - 1,
        i * bl + bl == (i + 1) * bl,
{
    assert(i * bl + bl == (i + 1) * bl) by (nonlinear_arith);
    let blocks = (len + bl - 1) as int / bl as int;
    vstd::arithmetic::div_mod::lemma_fundamental_div_mod((len + bl - 1) as int, bl as int);
    vstd::arithmetic::div_mod::lemma_mod_bound((len + bl - 1) as int, bl as int);
    assert(bl * blocks <= len + bl - 1);
    vstd::arithmetic::mul::lemma_mul_inequality(i as int + 1, blocks, bl as int);
    assert((i as int + 1) * bl == i * bl + bl) by (nonlinear_arith);
    assert(blocks * bl == bl * blocks) by (nonlinear_arith);
}

/// Block `i` of `len / k` ends inside the buffer.
proof fn lemma_block_start(i: nat, k: nat, len: nat)
    requires
        k >= 1,
        i < len as int / k as int,
    ensures
        (i + 1) * k <= len,
        i * k + k == (i + 1) * k,
{
    assert(i * k + k == (i + 1) * k) by (nonlinear_arith);
    let blocks = len as int / k as int;
    vstd::arithmetic::div_mod::lemma_fundamental_div_mod(len as int, k as int);
    vstd::arithmetic::div_mod::lemma_mod_bound(len as int, k as int);
    assert(k * blocks <= len);
    vstd::arithmetic::mul::lemma_mul_inequality(i as int + 1, blocks, k as int);
    assert(blocks * k == k * blocks) by (nonlinear_arith);
}

/// A successful single-block encryption is exactly one modulus-sized block.
pub proof fn lemma_oaep_encrypt_len(modulo: Seq<u8>, exponent: Seq<u8>, msg: Seq<u8>, seed: Seq<u8>)
    requires
        oaep_encrypt_spec(modulo, exponent, msg, seed) is Ok,
    ensures
        oaep_encrypt_spec(modulo, exponent, msg, seed)->Ok_0.len() == modulo.len(),
{
    let k = modulo.len();
    let m = be_val(oaep_em_spec(k, msg, seed));
    let n = be_val(modulo);
    let c = if be_val(exponent) == 0 {
        1nat
    } else {
        (pow(m as int, be_val(exponent)) % (n as int)) as nat
    };
    lemma_be_encode_len(c, k);
}

/// Appending one good block keeps every block of the output good.
proof fn lemma_encrypt_append(
    modulo: Seq<u8>,
    exponent: Seq<u8>,
    p: Seq<u8>,
    out_old: Seq<u8>,
    encv: Seq<u8>,
    i: nat,
)
    requires
        modulo.len() > 42,
        out_old.len() == i * modulo.len(),
        encv.len() == modulo.len(),
        forall|bi: int| 0 <= bi < i ==> rsa_encrypt_block_ok(modulo, exponent, p, out_old, bi),
        exists|sd: Seq<u8>|
            sd.len() == 20 && #[trigger] oaep_encrypt_spec(
                modulo,
                exponent,
                rsa_chunk(p, (modulo.len() - 42) as nat, i as nat),
                sd,
            ) == Ok::<Seq<u8>, CryptoError>(encv),
    ensures
        forall|bi: int|
            0 <= bi < i + 1 ==> rsa_encrypt_block_ok(modulo, exponent, p, out_old + encv, bi),
        (out_old + encv).len() == (i + 1) * modulo.len(),
{
    let k = modulo.len() as int;
    let out = out_old + encv;
    assert((i + 1) * k == i * k + k) by (nonlinear_arith);
    assert forall|bi: int| 0 <= bi < i + 1 implies rsa_encrypt_block_ok(
        modulo,
        exponent,
        p,
        out,
        bi,
    ) by {
        if bi < i {
            assert(0 <= bi * k && (bi + 1) * k == bi * k + k && (bi + 1) * k <= i * k)
                by (nonlinear_arith)
                requires
                    0 <= bi,
                    bi + 1 <= i,
                    k > 42,
            ;
            assert(out.subrange(bi * modulo.len() as int, (bi + 1) * modulo.len() as int)
                =~= out_old.subrange(bi * modulo.len() as int, (bi + 1) * modulo.len() as int));
            assert(rsa_encrypt_block_ok(modulo, exponent, p, out_old, bi));
            let sd = choose|sd: Seq<u8>|
                sd.len() == 20 && #[trigger] oaep_encrypt_spec(
                    modulo,
                    exponent,
                    rsa_chunk(p, (modulo.len() - 42) as nat, bi as nat),
                    sd,
                ) == Ok::<Seq<u8>, CryptoError>(
                    out_old.subrange(bi * modulo.len() as int, (bi + 1) * modulo.len() as int),
                );
            assert(sd.len() == 20 && oaep_encrypt_spec(
                modulo,
                exponent,
                rsa_chunk(p, (modulo.len() - 42) as nat, bi as nat),
                sd,
            ) == Ok::<Seq<u8>, CryptoError>(
                out.subrange(bi * modulo.len() as int, (bi + 1) * modulo.len() as int),
            ));
        } else {
            assert(out.subrange(i * modulo.len() as int, (i + 1) * modulo.len() as int)
                =~= encv);
            let sd = choose|sd: Seq<u8>|
                sd.len() == 20 && #[trigger] oaep_encrypt_spec(
                    modulo,
                    exponent,
                    rsa_chunk(p, (modulo.len() - 42) as nat, i as nat),
                    sd,
                ) == Ok::<Seq<u8>, CryptoError>(encv);
            assert(sd.len() == 20 && oaep_encrypt_spec(
                modulo,
                exponent,
                rsa_chunk(p, (modulo.len() - 42) as nat, bi as nat),
                sd,
            ) == Ok::<Seq<u8>, CryptoError>(
                out.subrange(bi * modulo.len() as int, (bi + 1) * modulo.len() as int),
            ));
        }
    }
}

/// Split the plaintext into `k - 42`-byte chunks, OAEP-encrypt each under a
/// fresh random seed, and concatenate the `k`-byte blocks in order.
#[verifier::loop_isolation(false)]
#[verifier::rlimit(50)]
pub fn rsa_encrypt(modulo: &Vec<u8>, exponent: &Vec<u8>, input: Vec<u8>) -> (r: Result<
    Vec<u8>,
    CryptoError,
>)
    requires
        input@.len() + modulo@.len() <= usize::MAX,
    ensures
        (match r {
            Ok(out) => modulo@.len() > 42 && out@.len() == rsa_num_blocks(
                input@.len(),
                (modulo@.len() - 42) as nat,
            ) * modulo@.len() && (forall|bi: int|
                0 <= bi < rsa_num_blocks(input@.len(), (modulo@.len() - 42) as nat)
                    ==> rsa_encrypt_block_ok(modulo@, exponent@, input@, out@, bi)),
            Err(e) => if modulo@.len() <= 42 {
                e == CryptoError::MessageTooLong
            } else if (modulo@.len() - 21) as nat > MGF_MAX_LEN as nat {
                input@.len() > 0 && e == CryptoError::MaskTooLong
            } else {
                input@.len() > 0 && e == CryptoError::Range
            },
        }),
{
    let k: usize = modulo.len();
    if k <= 42 {
        return Err(CryptoError::MessageTooLong);
    }
    let block_length: usize = k - 42;
    let blocks: usize = (input.len() + block_length - 1) / block_length;
    let ghost p = input@;
    let ghost nb = rsa_num_blocks(p.len(), block_length as nat);
    proof {
        assert(nb == blocks);
    }
    let mut output: Vec<u8> = Vec::new();
    let mut i: usize = 0;
    while i < blocks
        invariant
            i <= blocks,
            output@.len() == i * k,
            forall|bi: int| 0 <= bi < i ==> rsa_encrypt_block_ok(modulo@, exponent@, p, output@, bi),
        decreases blocks - i,
    {
        proof {
            lemma_chunk_start(i as nat, block_length as nat, p.len());
        }
        let start: usize = i * block_length;
        let end: usize = if start + block_length <= input.len() {
            start + block_length
        } else {
            input.len()
        };
        let mut chunk: Vec<u8> = Vec::new();
        let mut j: usize = start;
        while j < end
            invariant
                start <= j <= end,
                end <= p.len(),
                chunk@ == p.subrange(start as int, j as int),
            decreases end - j,
        {
            chunk.push(input[j]);
            assert(p.subrange(start as int, j + 1) =~= p.subrange(start as int, j as int).push(
                p[j as int],
            ));
            j = j + 1;
        }
        proof {
            assert((i as nat + 1) * (block_length as nat) == start + block_length);
            assert(chunk@ =~= rsa_chunk(p, block_length as nat, i as nat));
            assert(chunk@.len() + 42 <= k);
        }
        let ghost out_old = output@;
        let ghost chunkv = chunk@;
        match rsaes_oaep_encrypt(modulo, exponent, chunk) {
            Ok(mut enc) => {
                let ghost encv = enc@;
                output.append(&mut enc);
                proof {
                    let sd0 = choose|sd: Seq<u8>|
                        sd.len() == 20 && #[trigger] oaep_encrypt_spec(
                            modulo@,
                            exponent@,
                            chunkv,
                            sd,
                        ) == Ok::<Seq<u8>, CryptoError>(encv);
                    assert(sd0.len() == 20 && oaep_encrypt_spec(
                        modulo@,
                        exponent@,
                        rsa_chunk(p, (modulo@.len() - 42) as nat, i as nat),
                        sd0,
                    ) == Ok::<Seq<u8>, CryptoError>(encv));
                    lemma_oaep_encrypt_len(
                        modulo@,
                        exponent@,
                        rsa_chunk(p, (modulo@.len() - 42) as nat, i as nat),
                        sd0,
                    );
                    lemma_encrypt_append(modulo@, exponent@, p, out_old, encv, i as nat);
                }
                i = i + 1;
            },
            Err(e) => {
                return Err(e);
            },
        }
    }
    Ok(output)
}

/// What multi-block decryption returns: each `k`-byte block decoded in
/// order, the recovered chunks concatenated; the first failure wins.
pub open spec fn rsa_decrypt_blocks_spec(
    modulo: Seq<u8>,
    exponent: Seq<u8>,
    input: Seq<u8>,
) -> Result<Seq<u8>, CryptoError>
    decreases input.len(),
{
    let k = modulo.len();
    if k == 0 || input.len() < k {
        Ok(Seq::empty())
    } else {
        match oaep_decrypt_spec(modulo, exponent, input.take(k as int)) {
            Err(e) => Err(e),
            Ok(m) => match rsa_decrypt_blocks_spec(modulo, exponent, input.skip(k as int)) {
                Err(e) => Err(e),
                Ok(rest) => Ok(m + rest),
            },
        }
    }
}

/// What `rsa_decrypt` returns; deterministic in its inputs.
pub open spec fn rsa_decrypt_spec(modulo: Seq<u8>, exponent: Seq<u8>, input: Seq<u8>) -> Result<
    Seq<u8>,
    CryptoError,
> {
    if modulo.len() == 0 || input.len() == 0 || input.len() % modulo.len() != 0 {
        Err(CryptoError::CiphertextLength)
    } else {
        rsa_decrypt_blocks_spec(modulo, exponent, input)
    }
}

/// Split the ciphertext, which must be a positive multiple of `k` bytes,
/// into `k`-byte blocks and OAEP-decrypt each in order.
#[verifier::loop_isolation(false)]
pub fn rsa_decrypt(modulo: &Vec<u8>, exponent: &Vec<u8>, input: Vec<u8>) -> (r: Result<
    Vec<u8>,
    CryptoError,
>)
    ensures
        matches_result(r, rsa_decrypt_spec(modulo@, exponent@, input@)),
{
    let k: usize = modulo.len();
    if k == 0 || input.len() == 0 || input.len() % k != 0 {
        return Err(CryptoError::CiphertextLength);
    }
    let blocks: usize = input.len() / k;
    let ghost c = input@;
    let mut output: Vec<u8> = Vec::new();
    let mut i: usize = 0;
    proof {
        assert(c.skip(0) =~= c);
    }
    while i < blocks
        invariant
            i <= blocks,
            (match rsa_decrypt_blocks_spec(modulo@, exponent@, c.skip(i * k as int)) {
                Ok(rest) => rsa_decrypt_blocks_spec(modulo@, exponent@, c) == Ok::<
                    Seq<u8>,
                    CryptoError,
                >(output@ + rest),
                Err(e) => rsa_decrypt_blocks_spec(modulo@, exponent@, c) == Err::<
                    Seq<u8>,
                    CryptoError,
                >(e),
            }),
        decreases blocks - i,
    {
        proof {
            lemma_block_start(i as nat, k as nat, c.len());
        }
        let start: usize = i * k;
        let mut chunk: Vec<u8> = Vec::new();
        let mut j: usize = start;
        while j < start + k
            invariant
                start <= j <= start + k,
                start + k <= c.len(),
                chunk@ == c.subrange(start as int, j as int),
            decreases start + k - j,
        {
            chunk.push(input[j]);
            assert(c.subrange(start as int, j + 1) =~= c.subrange(start as int, j as int).push(
                c[j as int],
            ));
            j = j + 1;
        }
        let ghost rem = c.skip(i * k as int);
        proof {
            assert(chunk@ =~= rem.take(k as int));
            assert(rem.skip(k as int) =~= c.skip((i + 1) * k as int));
        }
        let ghost out_old = output@;
        match rsaes_oaep_decrypt(modulo, exponent, chunk) {
            Ok(mut m) => {
                let ghost mv = m@;
                output.append(&mut m);
                proof {
                    let next = rsa_decrypt_blocks_spec(modulo@, exponent@, c.skip((i + 1) * k as int));
                    if next is Ok {
                        let rest = next->Ok_0;
                        assert(rsa_decrypt_blocks_spec(modulo@, exponent@, rem) == Ok::<
                            Seq<u8>,
                            CryptoError,
                        >(mv + rest));
                        assert(out_old + (mv + rest) =~= output@ + rest);
                    }
                }
                i = i + 1;
            },
            Err(e) => {
                return Err(e);
            },
        }
    }
    proof {
        vstd::arithmetic::div_mod::lemma_fundamental_div_mod(c.len() as int, k as int);
        assert(blocks * k as int == k as int * blocks) by (nonlinear_arith);
        assert(c.skip(blocks * k as int) =~= Seq::<u8>::empty());
        assert(output@ + Seq::<u8>::empty() =~= output@);
    }
    Ok(output)
}

/// A valid RSA key triple: positive exponents, and the private exponent
/// undoes the public one for every representative below the modulus.
pub open spec fn rsa_key_inverts(modulo: Seq<u8>, pub_exp: Seq<u8>, priv_exp: Seq<u8>) -> bool {
    be_val(pub_exp) > 0 && be_val(priv_exp) > 0 && (forall|x: nat|
        x < be_val(modulo) ==> pow(
            #[trigger] pow(x as int, be_val(pub_exp)) % (be_val(modulo) as int),
            be_val(priv_exp),
        ) % (be_val(modulo) as int) == x)
}

/// All bytes in `[i, j)` are zero, so the scan result from `i` is the scan
/// result from `j`.
proof fn lemma_first_nonzero_skip(db: Seq<u8>, i: nat, j: nat)
    requires
        i <= j <= db.len(),
        forall|l: int| i <= l < j ==> db[l] == 0,
    ensures
        first_nonzero(db, i) == first_nonzero(db, j),
    decreases j - i,
{
    if i < j {
        lemma_first_nonzero_skip(db, i + 1, j);
    }
}

/// Round-trip of one OAEP block: decrypting an encrypted block under a
/// valid key pair gives back the message, for every 20-byte seed. Together
/// with the freshness of the seed this is why two encryptions of one
/// message differ yet decrypt alike.
pub proof fn lemma_rsa_oaep_round_trip(
    modulo: Seq<u8>,
    pub_exp: Seq<u8>,
    priv_exp: Seq<u8>,
    msg: Seq<u8>,
    seed: Seq<u8>,
    cipher: Seq<u8>,
)
    requires
        seed.len() == 20,
        rsa_key_inverts(modulo, pub_exp, priv_exp),
        oaep_encrypt_spec(modulo, pub_exp, msg, seed) == Ok::<Seq<u8>, CryptoError>(cipher),
    ensures
        oaep_decrypt_spec(modulo, priv_exp, cipher) == Ok::<Seq<u8>, CryptoError>(msg),
{
    let k = modulo.len();
    let n = be_val(modulo);
    let e = be_val(pub_exp);
    let d = be_val(priv_exp);
    let db = oaep_db_spec(k, msg);
    let db_mask = mgf1_spec(seed, (k - 21) as nat);
    let masked_db = xor_bytes(db, db_mask);
    let seed_mask = mgf1_spec(masked_db, 20);
    let masked_seed = xor_bytes(seed, seed_mask);
    let em = oaep_em_spec(k, msg, seed);
    let m = be_val(em);
    let c_val = (pow(m as int, e) % (n as int)) as nat;
    assert(msg.len() + 42 <= k);
    assert(m < n);
    assert(cipher == be_encode(c_val, k));
    let z = (k - msg.len() - 42) as nat;
    assert(db.len() == k - 21);
    lemma_mgf1_len(seed, (k - 21) as nat);
    lemma_mgf1_len(masked_db, 20);
    assert(masked_db.len() == k - 21);
    assert(masked_seed.len() == 20);
    assert(em.len() == k);
    // the ciphertext block is exactly k bytes and holds c_val
    crate::bytes::lemma_be_val_bound(modulo);
    lemma_be_encode_len(c_val, k);
    assert(c_val < n);
    lemma_be_encode_val(c_val, k);
    assert(be_val(cipher) == c_val);
    // the private exponentiation recovers the representative m
    assert(pow(pow(m as int, e) % (n as int), d) % (n as int) == m);
    assert((pow(be_val(cipher) as int, d) % (n as int)) as nat == m);
    // so the decoded encoded message is byte-identical to em
    lemma_be_encode_of_val(em);
    assert(be_encode((pow(be_val(cipher) as int, d) % (n as int)) as nat, k) == em);
    // unmasking recovers seed and db
    assert(em.subrange(1, 21) =~= masked_seed);
    assert(em.subrange(21, k as int) =~= masked_db);
    crate::bytes::lemma_xor_involution(seed, seed_mask);
    crate::bytes::lemma_xor_involution(db, db_mask);
    // the label hash matches
    assert(db.subrange(0, 20) =~= l_hash_seq());
    // the scan skips exactly the zero padding and lands on the delimiter
    assert(forall|l: int| 20 <= l < 20 + z ==> db[l] == 0);
    lemma_first_nonzero_skip(db, 20, (20 + z) as nat);
    assert(db[20 + z as int] == 1);
    assert(first_nonzero(db, (20 + z) as nat) == 20 + z);
    assert(db.subrange(20 + z as int + 1, db.len() as int) =~= msg);
}


/// The plaintext from byte `x` on; empty once `x` passes the end.
pub open spec fn plain_suffix(p: Seq<u8>, x: int) -> Seq<u8> {
    if x <= p.len() {
        p.subrange(x, p.len() as int)
    } else {
        Seq::empty()
    }
}

/// Decoding the blocks from block `j` on recovers the plaintext from chunk
/// `j` on.
proof fn lemma_decrypt_blocks_suffix(
    modulo: Seq<u8>,
    pub_exp: Seq<u8>,
    priv_exp: Seq<u8>,
    p: Seq<u8>,
    out: Seq<u8>,
    j: nat,
)
    requires
        rsa_key_inverts(modulo, pub_exp, priv_exp),
        modulo.len() > 42,
        out.len() == rsa_num_blocks(p.len(), (modulo.len() - 42) as nat) * modulo.len(),
        forall|bi: int|
            0 <= bi < rsa_num_blocks(p.len(), (modulo.len() - 42) as nat)
                ==> rsa_encrypt_block_ok(modulo, pub_exp, p, out, bi),
        j <= rsa_num_blocks(p.len(), (modulo.len() - 42) as nat),
    ensures
        rsa_decrypt_blocks_spec(modulo, priv_exp, out.skip(j * modulo.len() as int)) == Ok::<
            Seq<u8>,
            CryptoError,
        >(plain_suffix(p, j * (modulo.len() - 42) as int)),
    decreases rsa_num_blocks(p.len(), (modulo.len() - 42) as nat) - j,
{
    let k = modulo.len() as int;
    let bl = k - 42;
    let nb = rsa_num_blocks(p.len(), (modulo.len() - 42) as nat);
    vstd::arithmetic::div_mod::lemma_fundamental_div_mod((p.len() + bl - 1) as int, bl);
    vstd::arithmetic::div_mod::lemma_mod_bound((p.len() + bl - 1) as int, bl);
    assert(bl * nb >= p.len());
    if j == nb {
        assert(j * bl >= p.len()) by (nonlinear_arith)
            requires
                bl * nb >= p.len(),
                j == nb,
        ;
        assert(out.skip(j * k) =~= Seq::<u8>::empty());
        assert(plain_suffix(p, j * bl) =~= Seq::<u8>::empty());
    } else {
        lemma_chunk_start(j, bl as nat, p.len());
        assert((j + 1) * k == j * k + k && (nb - j) * k == nb * k - j * k && (j + 1) * bl == j * bl
            + bl) by (nonlinear_arith);
        vstd::arithmetic::mul::lemma_mul_inequality(1, nb - j, k);
        let skip_j = out.skip(j * k);
        assert(skip_j.len() >= k);
        let block_j = out.subrange(j * k, j * k + k);
        assert(skip_j.take(k) =~= block_j);
        assert(rsa_encrypt_block_ok(modulo, pub_exp, p, out, j as int));
        let sd = choose|sd: Seq<u8>|
            sd.len() == 20 && #[trigger] oaep_encrypt_spec(
                modulo,
                pub_exp,
                rsa_chunk(p, (modulo.len() - 42) as nat, j),
                sd,
            ) == Ok::<Seq<u8>, CryptoError>(
                out.subrange(j * modulo.len() as int, (j + 1) * modulo.len() as int),
            );
        let chunk_j = rsa_chunk(p, (modulo.len() - 42) as nat, j);
        lemma_rsa_oaep_round_trip(modulo, pub_exp, priv_exp, chunk_j, sd, block_j);
        lemma_decrypt_blocks_suffix(modulo, pub_exp, priv_exp, p, out, j + 1);
        assert(skip_j.skip(k) =~= out.skip((j + 1) * k));
        if (j + 1) * bl <= p.len() {
            assert(chunk_j + plain_suffix(p, (j + 1) * bl) =~= plain_suffix(p, j * bl));
        } else {
            assert(chunk_j + plain_suffix(p, (j + 1) * bl) =~= plain_suffix(p, j * bl));
        }
    }
}

/// Round-trip of the whole chain: what `rsa_encrypt` produced under a valid
/// key pair, `rsa_decrypt` maps back to the plaintext, whatever seeds the
/// blocks drew. An empty plaintext is the one exception: it encrypts to an
/// empty buffer, which decryption rejects as a length violation.
pub proof fn lemma_rsa_round_trip(
    modulo: Seq<u8>,
    pub_exp: Seq<u8>,
    priv_exp: Seq<u8>,
    p: Seq<u8>,
    out: Seq<u8>,
)
    requires
        rsa_key_inverts(modulo, pub_exp, priv_exp),
        modulo.len() > 42,
        p.len() > 0,
        out.len() == rsa_num_blocks(p.len(), (modulo.len() - 42) as nat) * modulo.len(),
        forall|bi: int|
            0 <= bi < rsa_num_blocks(p.len(), (modulo.len() - 42) as nat)
                ==> rsa_encrypt_block_ok(modulo, pub_exp, p, out, bi),
    ensures
        rsa_decrypt_spec(modulo, priv_exp, out) == Ok::<Seq<u8>, CryptoError>(p),
{
    let k = modulo.len() as int;
    let bl = k - 42;
    let nb = rsa_num_blocks(p.len(), (modulo.len() - 42) as nat);
    vstd::arithmetic::div_mod::lemma_div_non_zero((p.len() + bl - 1) as int, bl);
    assert(nb >= 1);
    vstd::arithmetic::mul::lemma_mul_inequality(1, nb as int, k);
    vstd::arithmetic::div_mod::lemma_mod_multiples_basic(nb as int, k);
    assert(out.len() as int % (modulo.len() as int) == 0);
    lemma_decrypt_blocks_suffix(modulo, pub_exp, priv_exp, p, out, 0);
    assert(out.skip(0) =~= out);
    assert(plain_suffix(p, 0) =~= p);
}

} // verus!
