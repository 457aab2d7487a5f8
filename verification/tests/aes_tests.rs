use crypto_core::aes::{aes_decrypt, aes_encrypt};
use crypto_core::CryptoError;

fn nist_key() -> Vec<u8> {
    (0u8..32).collect()
}

#[test]
fn known_vector_first_block() {
    // FIPS-197 AES-256 example vector: the first ciphertext block of a
    // 16-byte plaintext is the plain single-block transform; the second
    // block encrypts the mandatory full pad block.
    let plaintext: Vec<u8> = vec![
        0x00, 0x11, 0x22, 0x33, 0x44, 0x55, 0x66, 0x77, 0x88, 0x99, 0xaa, 0xbb, 0xcc, 0xdd, 0xee,
        0xff,
    ];
    let expected_block: Vec<u8> = vec![
        0x8e, 0xa2, 0xb7, 0xca, 0x51, 0x67, 0x45, 0xbf, 0xea, 0xfc, 0x49, 0x90, 0x4b, 0x49, 0x60,
        0x89,
    ];
    let out = aes_encrypt(plaintext, nist_key()).unwrap();
    assert_eq!(out.len(), 32);
    assert_eq!(&out[0..16], expected_block.as_slice());
}

#[test]
fn round_trip_various_lengths() {
    let key = nist_key();
    for len in [0usize, 1, 15, 16, 17, 33, 64, 100] {
        let data: Vec<u8> = (0..len).map(|i| (i * 7 + 3) as u8).collect();
        let enc = aes_encrypt(data.clone(), key.clone()).unwrap();
        let dec = aes_decrypt(enc, key.clone()).unwrap();
        assert_eq!(dec, data);
    }
}

#[test]
fn padding_always_added() {
    let key = nist_key();
    for len in [0usize, 5, 16, 32] {
        let data: Vec<u8> = vec![0xab; len];
        let enc = aes_encrypt(data, key.clone()).unwrap();
        assert_eq!(enc.len() % 16, 0);
        assert!(enc.len() > len);
        assert_eq!(enc.len(), (len / 16 + 1) * 16);
    }
}

#[test]
fn encrypt_rejects_bad_key_length() {
    let r = aes_encrypt(vec![1, 2, 3], vec![0u8; 31]);
    assert_eq!(r, Err(CryptoError::KeyLength));
    let r = aes_encrypt(vec![1, 2, 3], vec![0u8; 33]);
    assert_eq!(r, Err(CryptoError::KeyLength));
}

#[test]
fn decrypt_rejects_bad_key_length() {
    let r = aes_decrypt(vec![0u8; 16], vec![0u8; 16]);
    assert_eq!(r, Err(CryptoError::KeyLength));
}

#[test]
fn decrypt_rejects_bad_ciphertext_length() {
    let key = nist_key();
    let r = aes_decrypt(Vec::new(), key.clone());
    assert_eq!(r, Err(CryptoError::CiphertextLength));
    let r = aes_decrypt(vec![0u8; 17], key);
    assert_eq!(r, Err(CryptoError::CiphertextLength));
}

#[test]
fn zero_key_smoke() {
    let key = vec![0u8; 32];
    let data = vec![0u8; 16];
    let enc = aes_encrypt(data.clone(), key.clone()).unwrap();
    assert_eq!(enc.len(), 32);
    let dec = aes_decrypt(enc, key).unwrap();
    assert_eq!(dec, data);
}
