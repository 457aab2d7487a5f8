use crypto_core::bigint::{i2osp, mod_exp};
use crypto_core::CryptoError;
use ibig::UBig;

#[test]
fn mod_exp_small_values() {
    let r = mod_exp(UBig::from(4u8), UBig::from(13u8), UBig::from(497u16));
    assert_eq!(r, UBig::from(445u16));
    let r = mod_exp(UBig::from(2u8), UBig::from(10u8), UBig::from(1000u16));
    assert_eq!(r, UBig::from(24u8));
}

#[test]
fn mod_exp_zero_exponent_returns_one() {
    let r = mod_exp(UBig::from(7u8), UBig::from(0u8), UBig::from(13u8));
    assert_eq!(r, UBig::from(1u8));
}

#[test]
fn i2osp_pads_to_width() {
    let out = i2osp(&UBig::from(0x010203u32), 5).unwrap();
    assert_eq!(out, vec![0, 0, 1, 2, 3]);
    let out = i2osp(&UBig::from(0u8), 3).unwrap();
    assert_eq!(out, vec![0, 0, 0]);
}

#[test]
fn i2osp_rejects_oversized_integer() {
    let r = i2osp(&UBig::from(256u16), 1);
    assert_eq!(r, Err(CryptoError::IntegerEncoding));
    let r = i2osp(&UBig::from(1u8), 0);
    assert_eq!(r, Err(CryptoError::IntegerEncoding));
}
