//! Cryptographic primitives: a 256-bit Rijndael-style block cipher with
//! always-on padding, and RSA public-key encryption with OAEP padding and
//! multi-block chaining.

pub mod aes;
pub mod bigint;
pub mod bytes;
pub mod gf;
pub mod rsa;

use vstd::prelude::*;

verus! {

/// Every failure the library can report. All are caller-input or
/// data-integrity violations; none is transient.
#[derive(Clone, Copy, Debug, PartialEq, Eq, Structural)]
pub enum CryptoError {
    /// The block-cipher key is not exactly 32 bytes.
    KeyLength,
    /// An OAEP plaintext chunk exceeds the modulus capacity `k - 42`.
    MessageTooLong,
    /// An integer representative falls outside `[0, modulus - 1]`.
    Range,
    /// A ciphertext length is not a positive multiple of the block size.
    CiphertextLength,
    /// OAEP label-hash mismatch or missing delimiter during unpadding.
    Integrity,
    /// A requested mask is longer than MGF1 can produce.
    MaskTooLong,
    /// An integer does not fit the requested fixed-width encoding.
    IntegerEncoding,
}

} // verus!
