use crypto_core::rsa::{mgf, rsa_decrypt, rsa_encrypt, rsaes_oaep_decrypt, rsaes_oaep_encrypt};
use crypto_core::CryptoError;

// A 512-bit test key pair: modulus, public exponent 65537, and the matching
// private exponent.
fn modulus() -> Vec<u8> {
    vec![
        176, 19, 47, 183, 122, 99, 48, 8, 104, 194, 2, 206, 226, 244, 212, 180, 122, 203, 162,
        224, 128, 58, 45, 196, 72, 12, 211, 232, 244, 149, 141, 12, 200, 27, 190, 200, 68, 126, 4,
        201, 111, 122, 44, 215, 57, 144, 41, 36, 174, 23, 173, 29, 248, 131, 223, 121, 52, 134,
        244, 20, 79, 57, 231, 161,
    ]
}

fn pub_exp() -> Vec<u8> {
    vec![1, 0, 1]
}

fn priv_exp() -> Vec<u8> {
    vec![
        113, 150, 15, 4, 72, 25, 208, 148, 188, 47, 220, 107, 230, 145, 150, 222, 79, 17, 43, 35,
        180, 212, 211, 77, 122, 69, 124, 55, 30, 1, 148, 25, 134, 195, 221, 136, 252, 73, 194,
        254, 73, 138, 7, 254, 229, 178, 88, 93, 75, 123, 16, 107, 36, 47, 113, 75, 207, 251, 237,
        144, 6, 108, 176, 1,
    ]
}

#[test]
fn oaep_single_block_round_trip() {
    let msg: Vec<u8> = b"attack at dawn".to_vec();
    let c = rsaes_oaep_encrypt(&modulus(), &pub_exp(), msg.clone()).unwrap();
    assert_eq!(c.len(), 64);
    let m = rsaes_oaep_decrypt(&modulus(), &priv_exp(), c).unwrap();
    assert_eq!(m, msg);
}

#[test]
fn multi_block_round_trip() {
    // 50 bytes at 22 bytes per block: three blocks.
    let msg: Vec<u8> = (0..50u8).collect();
    let c = rsa_encrypt(&modulus(), &pub_exp(), msg.clone()).unwrap();
    assert_eq!(c.len(), 3 * 64);
    let m = rsa_decrypt(&modulus(), &priv_exp(), c).unwrap();
    assert_eq!(m, msg);
}

#[test]
fn empty_plaintext_round_trip() {
    let c = rsa_encrypt(&modulus(), &pub_exp(), Vec::new()).unwrap();
    assert_eq!(c.len(), 0);
    let r = rsa_decrypt(&modulus(), &priv_exp(), c);
    assert_eq!(r, Err(CryptoError::CiphertextLength));
}

#[test]
fn encryption_is_randomized() {
    let msg: Vec<u8> = b"same message".to_vec();
    let c1 = rsa_encrypt(&modulus(), &pub_exp(), msg.clone()).unwrap();
    let c2 = rsa_encrypt(&modulus(), &pub_exp(), msg.clone()).unwrap();
    assert_ne!(c1, c2);
    assert_eq!(rsa_decrypt(&modulus(), &priv_exp(), c1).unwrap(), msg);
    assert_eq!(rsa_decrypt(&modulus(), &priv_exp(), c2).unwrap(), msg);
}

#[test]
fn boundary_block_counts() {
    // Chunk capacity is k - 42 = 22 bytes: exactly one block at 22 bytes,
    // two blocks one byte past that.
    let msg22: Vec<u8> = vec![7u8; 22];
    let c = rsa_encrypt(&modulus(), &pub_exp(), msg22).unwrap();
    assert_eq!(c.len(), 64);
    let msg23: Vec<u8> = vec![7u8; 23];
    let c = rsa_encrypt(&modulus(), &pub_exp(), msg23).unwrap();
    assert_eq!(c.len(), 128);
}

#[test]
fn tampered_ciphertext_is_rejected() {
    let msg: Vec<u8> = b"integrity matters".to_vec();
    let mut c = rsa_encrypt(&modulus(), &pub_exp(), msg.clone()).unwrap();
    c[40] ^= 0x01;
    let r = rsa_decrypt(&modulus(), &priv_exp(), c);
    match r {
        Err(CryptoError::Integrity) | Err(CryptoError::Range) => (),
        other => panic!("tampered block accepted: {:?}", other),
    }
}

#[test]
fn label_hash_mismatch_is_integrity_error() {
    // Exponent 1 makes decoding deterministic: the all-zero block unmasks
    // to a data block whose head cannot equal the label hash.
    let n: Vec<u8> = vec![0xff; 64];
    let e: Vec<u8> = vec![1];
    let r = rsaes_oaep_decrypt(&n, &e, vec![0u8; 64]);
    assert_eq!(r, Err(CryptoError::Integrity));
}

#[test]
fn message_too_long_errors() {
    // One OAEP block carries at most k - 42 bytes.
    let r = rsaes_oaep_encrypt(&modulus(), &pub_exp(), vec![0u8; 23]);
    assert_eq!(r, Err(CryptoError::MessageTooLong));
    // A modulus of 42 bytes or fewer cannot carry any chaining chunk.
    let r = rsa_encrypt(&vec![0xffu8; 42], &pub_exp(), vec![1u8]);
    assert_eq!(r, Err(CryptoError::MessageTooLong));
}

#[test]
fn zero_modulus_is_range_error() {
    let r = rsaes_oaep_encrypt(&vec![0u8; 64], &pub_exp(), vec![1u8, 2, 3]);
    assert_eq!(r, Err(CryptoError::Range));
}

#[test]
fn ciphertext_length_errors() {
    let r = rsa_decrypt(&modulus(), &priv_exp(), vec![0u8; 65]);
    assert_eq!(r, Err(CryptoError::CiphertextLength));
    let r = rsaes_oaep_decrypt(&modulus(), &priv_exp(), vec![0u8; 63]);
    assert_eq!(r, Err(CryptoError::CiphertextLength));
}

#[test]
fn mgf_known_vector() {
    let seed: Vec<u8> = (0u8..20).collect();
    let mask = mgf(&seed, 25).unwrap();
    let expected: Vec<u8> = vec![
        2, 133, 83, 216, 33, 219, 30, 141, 27, 198, 107, 165, 116, 192, 227, 16, 49, 5, 41, 49,
        153, 243, 114, 99, 165,
    ];
    assert_eq!(mask, expected);
}

#[test]
fn mgf_deterministic_and_prefix() {
    let seed: Vec<u8> = b"prefix property".to_vec();
    let a = mgf(&seed, 45).unwrap();
    let b = mgf(&seed, 45).unwrap();
    assert_eq!(a, b);
    let short = mgf(&seed, 17).unwrap();
    assert_eq!(&a[0..17], short.as_slice());
}

#[test]
fn mgf_mask_too_long() {
    let seed: Vec<u8> = vec![1, 2, 3];
    let r = mgf(&seed, 85899345921);
    assert_eq!(r, Err(CryptoError::MaskTooLong));
}
