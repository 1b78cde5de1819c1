//! The cryptographic and encoding primitives this driver takes from outside
//! crates: MD5 and SHA-1 (`md-5`, `sha1`), AES-256-CBC (`aes` + `cbc`), modular
//! exponentiation (`num-bigint`), the OS random source (`rand`) and hex text
//! (`hex`).
//!
//! Each function here only makes its call; its contract is believed, not
//! proved. Digest and cipher outputs are named by uninterpreted functions of
//! their inputs; where the crate documents a property of a result (its length,
//! that CBC decryption undoes encryption, the value of a modular power), the
//! contract says so for that result.

use vstd::prelude::*;
use vstd::arithmetic::power::pow;
use crate::bytes::{be_value, le_value};
use aes::cipher::block_padding::NoPadding;
use aes::cipher::{BlockDecryptMut, BlockEncryptMut, KeyIvInit};
use md5::Md5;
use num_bigint::BigUint;
use rand::{Rng, RngCore};
use sha1::{Digest, Sha1};

verus! {

/// The MD5 digest of a byte string.
pub uninterp spec fn md5_of(data: Seq<u8>) -> Seq<u8>;

/// The SHA-1 digest of a byte string.
pub uninterp spec fn sha1_of(data: Seq<u8>) -> Seq<u8>;

/// AES-256 in CBC mode, no padding: the ciphertext of `data` under `key`
/// with initial vector `iv`.
pub uninterp spec fn aes256_cbc_encrypt(key: Seq<u8>, iv: Seq<u8>, data: Seq<u8>) -> Seq<u8>;

/// AES-256 in CBC mode, no padding: the plaintext of `data` under `key`
/// with initial vector `iv`.
pub uninterp spec fn aes256_cbc_decrypt(key: Seq<u8>, iv: Seq<u8>, data: Seq<u8>) -> Seq<u8>;

/// `md-5`: `Md5::digest`. Claimed: the 16-byte MD5 digest of `data`.
#[verifier::external_body]
pub fn md5(data: &[u8]) -> (d: Vec<u8>)
    ensures
        d@ == md5_of(data@),
        d@.len() == 16,
{
    Md5::digest(data).to_vec()
}

/// `sha1`: `Sha1::digest`. Claimed: the 20-byte SHA-1 digest of `data`.
#[verifier::external_body]
pub fn sha1(data: &[u8]) -> (d: Vec<u8>)
    ensures
        d@ == sha1_of(data@),
        d@.len() == 20,
{
    Sha1::digest(data).to_vec()
}

/// `cbc::Encryptor<aes::Aes256>::new(key, iv).encrypt_padded_vec_mut::<NoPadding>(data)`.
/// Claimed: the CBC ciphertext, as long as `data`, and that CBC decryption with
/// the same key and IV gives `data` back. The key must be 32 bytes and the IV 16
/// (`new` panics otherwise), and `data` whole blocks (`NoPadding` panics otherwise).
#[verifier::external_body]
pub fn cbc_encrypt(key: &[u8], iv: &[u8], data: &[u8]) -> (ct: Vec<u8>)
    requires
        key@.len() == 32,
        iv@.len() == 16,
        data@.len() % 16 == 0,
    ensures
        ct@ == aes256_cbc_encrypt(key@, iv@, data@),
        ct@.len() == data@.len(),
        aes256_cbc_decrypt(key@, iv@, ct@) == data@,
{
    cbc::Encryptor::<aes::Aes256>::new(key.into(), iv.into()).encrypt_padded_vec_mut::<NoPadding>(data)
}

/// `cbc::Decryptor<aes::Aes256>::new(key, iv).decrypt_padded_vec_mut::<NoPadding>(data)`.
/// Claimed: the CBC plaintext, as long as `data`. The key must be 32 bytes and
/// the IV 16 (`new` panics otherwise); on whole blocks the call cannot fail.
#[verifier::external_body]
pub fn cbc_decrypt(key: &[u8], iv: &[u8], data: &[u8]) -> (pt: Vec<u8>)
    requires
        key@.len() == 32,
        iv@.len() == 16,
        data@.len() % 16 == 0,
    ensures
        pt@ == aes256_cbc_decrypt(key@, iv@, data@),
        pt@.len() == data@.len(),
{
    match cbc::Decryptor::<aes::Aes256>::new(key.into(), iv.into()).decrypt_padded_vec_mut::<NoPadding>(data) {
        Ok(pt) => pt,
        Err(_) => Vec::new(),
    }
}

/// `num-bigint`: `BigUint::from_bytes_be(base).modpow(&BigUint::from(exponent),
/// &BigUint::from_bytes_le(modulus)).to_bytes_be()`. Claimed: the minimal
/// big-endian bytes of `base^exponent mod modulus` (one `0` byte for zero).
/// `modpow` panics on a zero modulus.
#[verifier::external_body]
pub fn modpow_be(base_be: &[u8], exponent: u64, modulus_le: &[u8]) -> (r: Vec<u8>)
    requires
        le_value(modulus_le@) > 0,
    ensures
        be_value(r@) == pow(be_value(base_be@) as int, exponent as nat) % (le_value(modulus_le@) as int),
        r@.len() >= 1,
        r@.len() == 1 || r@[0] != 0,
{
    BigUint::from_bytes_be(base_be).modpow(&BigUint::from(exponent), &BigUint::from_bytes_le(modulus_le)).to_bytes_be()
}

/// `rand`: `OsRng.gen_range(1..=255)`. Claimed: some non-zero byte; which one
/// is left open (it comes from the operating system's random source).
#[verifier::external_body]
pub fn random_nonzero_byte() -> (b: u8)
    ensures
        b != 0,
{
    rand::rngs::OsRng.gen_range(1u8..=255u8)
}

/// `rand`: `OsRng.fill_bytes`. Claimed: the buffer keeps its length; its new
/// contents come from the operating system's random source and are left open.
#[verifier::external_body]
pub fn fill_random(buf: &mut Vec<u8>)
    ensures
        final(buf)@.len() == old(buf)@.len(),
{
    rand::rngs::OsRng.fill_bytes(buf.as_mut_slice())
}

/// The value of a hexadecimal digit (either case).
pub open spec fn hex_digit_value(c: char) -> Option<u8> {
    if '0' <= c && c <= '9' {
        Some((c as u32 - '0' as u32) as u8)
    } else if 'a' <= c && c <= 'f' {
        Some((c as u32 - 'a' as u32 + 10) as u8)
    } else if 'A' <= c && c <= 'F' {
        Some((c as u32 - 'A' as u32 + 10) as u8)
    } else {
        None
    }
}

/// The bytes a hex string stands for: defined when it has an even number of
/// characters, all hexadecimal digits; each pair gives one byte, high nibble first.
pub open spec fn hex_decoded(s: Seq<char>) -> Option<Seq<u8>> {
    if s.len() % 2 == 0 && (forall|i: int| 0 <= i < s.len() ==> (#[trigger] hex_digit_value(s[i])) is Some) {
        Some(
            Seq::new(
                s.len() / 2,
                |i: int| (hex_digit_value(s[2 * i]).unwrap() * 16 + hex_digit_value(s[2 * i + 1]).unwrap()) as u8,
            ),
        )
    } else {
        None
    }
}

/// The lower-case hexadecimal digit for a nibble.
pub open spec fn hex_lower_digit(n: u8) -> char {
    if n < 10 {
        ((48 + n) as u8) as char
    } else {
        ((87 + n) as u8) as char
    }
}

/// Lower-case hex text for a byte string, two digits per byte.
pub open spec fn hex_lower(data: Seq<u8>) -> Seq<char> {
    Seq::new(
        2 * data.len(),
        |i: int|
            if i % 2 == 0 {
                hex_lower_digit(data[i / 2] / 16)
            } else {
                hex_lower_digit(data[i / 2] % 16)
            },
    )
}

#[verifier::external_type_specification]
#[verifier::external_body]
pub struct ExFromHexError(hex::FromHexError);

/// `hex::decode`. Claimed: succeeds exactly on strings of an even number of
/// hex digits (either case), and then gives their bytes. The error value is
/// left unsaid.
#[verifier::external_body]
pub fn hex_decode(s: &str) -> (r: Result<Vec<u8>, hex::FromHexError>)
    ensures
        r is Ok <==> hex_decoded(s@) is Some,
        r matches Ok(v) ==> hex_decoded(s@) == Some(v@),
{
    hex::decode(s)
}

/// `hex::encode`. Claimed: the lower-case hex text of `data`.
#[verifier::external_body]
pub fn hex_encode(data: &[u8]) -> (s: String)
    ensures
        s@ == hex_lower(data@),
{
    hex::encode(data)
}

/// A character with the Unicode `White_Space` property.
pub open spec fn is_unicode_space(c: char) -> bool {
    let u = c as u32;
    (0x09 <= u <= 0x0d) || u == 0x20 || u == 0x85 || u == 0xa0 || u == 0x1680 || (0x2000 <= u <= 0x200a) || u
        == 0x2028 || u == 0x2029 || u == 0x202f || u == 0x205f || u == 0x3000
}

/// `s` without its leading white space.
pub open spec fn trim_start_spec(s: Seq<char>) -> Seq<char>
    decreases s.len(),
{
    if s.len() > 0 && is_unicode_space(s[0]) {
        trim_start_spec(s.drop_first())
    } else {
        s
    }
}

/// `s` without its trailing white space.
pub open spec fn trim_end_spec(s: Seq<char>) -> Seq<char>
    decreases s.len(),
{
    if s.len() > 0 && is_unicode_space(s.last()) {
        trim_end_spec(s.drop_last())
    } else {
        s
    }
}

/// `std`: `str::trim`. Claimed (as its documentation says): the string with
/// leading and trailing Unicode white space removed.
#[verifier::external_body]
pub fn trim(s: &str) -> (t: &str)
    ensures
        t@ == trim_end_spec(trim_start_spec(s@)),
{
    s.trim()
}

} // verus!
