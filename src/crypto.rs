//! Key derivation and the whole-buffer cipher.
//!
//! The key is an unsalted SHA-256 of the passphrase and every encryption uses
//! the same constant initialization vector. Both are weak choices kept for
//! compatibility with existing archives: equal plaintext prefixes give equal
//! ciphertext prefixes, across saves and across archives.
use vstd::prelude::*;
use vstd::utf8::encode_utf8;
use openssl::error::ErrorStack;

verus! {

/// The initialization vector shared by every encryption and decryption.
pub const IV: [u8; 16] = [
    0x31, 0x32, 0x33, 0x34, 0x35, 0x36, 0x37, 0x38, 0x39, 0x30, 0x41, 0x42, 0x43, 0x44, 0x45, 0x46,
];

/// The SHA-256 digest of `data`.
pub uninterp spec fn sha256_of(data: Seq<u8>) -> Seq<u8>;

/// The AES-256-CBC encryption (PKCS#7 padding) of `data` under `key` and `iv`.
pub uninterp spec fn aes_cbc_encrypt_of(key: Seq<u8>, iv: Seq<u8>, data: Seq<u8>) -> Seq<u8>;

/// The AES-256-CBC decryption of `data` under `key` and `iv`, padding left
/// in place, where that decryption succeeds.
pub uninterp spec fn aes_cbc_decrypt_raw_of(key: Seq<u8>, iv: Seq<u8>, data: Seq<u8>) -> Seq<u8>;

/// The longest input that the cipher takes in one call.
pub const CIPHER_MAX_INPUT: usize = 0x7fff_ffff;

/// Whether `p` ends in well-formed PKCS#7 padding: `k` bytes of value `k`,
/// with `1 <= k <= 16`.
pub open spec fn padding_ok(p: Seq<u8>) -> bool {
    &&& p.len() >= 1
    &&& 1 <= p.last() <= 16
    &&& p.last() <= p.len()
    &&& forall|i: int| p.len() - p.last() <= i < p.len() ==> p[i] == p.last()
}

/// `p` without its padding.
pub open spec fn unpadded(p: Seq<u8>) -> Seq<u8> {
    p.subrange(0, p.len() - p.last())
}

/// The symmetric key that a passphrase stands for: the SHA-256 digest of its
/// UTF-8 bytes.
pub open spec fn key_of(pass: Seq<char>) -> Seq<u8> {
    sha256_of(encode_utf8(pass))
}

#[verifier::external_type_specification]
#[verifier::external_body]
pub struct ExErrorStack(ErrorStack);

/// Relies on hmac_sha256::Hash::hash: the SHA-256 digest of the input, which
/// depends on the input alone.
#[verifier::external_body]
fn sha256(data: &[u8]) -> (r: [u8; 32])
    ensures
        r@ == sha256_of(data@),
{
    hmac_sha256::Hash::hash(data)
}

/// Relies on openssl::symm::encrypt with Cipher::aes_256_cbc: on success, the
/// padded CBC encryption of `data`, which depends on key, iv and data alone.
/// A 32-byte key and a 16-byte iv are what that cipher takes; a longer input
/// than `c_int::MAX` makes it panic.
#[verifier::external_body]
fn aes_cbc_encrypt(key: &[u8], iv: &[u8], data: &[u8]) -> (r: Result<Vec<u8>, ErrorStack>)
    requires
        key@.len() == 32,
        iv@.len() == 16,
        data@.len() <= CIPHER_MAX_INPUT,
    ensures
        r matches Ok(c) ==> c@ == aes_cbc_encrypt_of(key@, iv@, data@),
{
    openssl::symm::encrypt(openssl::symm::Cipher::aes_256_cbc(), key, Some(iv), data)
}

/// Relies on openssl::symm::Crypter in decrypt mode with Cipher::aes_256_cbc
/// and padding disabled: on success, the CBC decryption of `data`, padding
/// left in place, which depends on key, iv and data alone. A wrong key is not
/// detected. The output buffer has the size that `update` and `finalize` ask
/// for; a longer input than `c_int::MAX` makes `update` panic.
#[verifier::external_body]
fn aes_cbc_decrypt_raw(key: &[u8], iv: &[u8], data: &[u8]) -> (r: Result<Vec<u8>, ErrorStack>)
    requires
        key@.len() == 32,
        iv@.len() == 16,
        data@.len() <= CIPHER_MAX_INPUT,
    ensures
        r matches Ok(p) ==> p@ == aes_cbc_decrypt_raw_of(key@, iv@, data@),
{
    let t = openssl::symm::Cipher::aes_256_cbc();
    let mut c = openssl::symm::Crypter::new(t, openssl::symm::Mode::Decrypt, key, Some(iv))?;
    c.pad(false);
    let mut out = vec![0u8; data.len() + t.block_size()];
    let count = c.update(data, &mut out)?;
    let rest = c.finalize(&mut out[count..])?;
    out.truncate(count + rest);
    Ok(out)
}

/// Turns a passphrase into the 32-byte key of the cipher.
pub fn pass_to_hash(pass: String) -> (r: [u8; 32])
    ensures
        r@ == key_of(pass@),
{
    let s: &str = pass.as_str();
    sha256(s.as_bytes())
}

/// Encrypts a whole plaintext under `key` and the constant initialization
/// vector; `None` where the cipher reports an error or the plaintext is
/// longer than it takes.
pub fn encrypt_buffer(key: &[u8; 32], plain: &Vec<u8>) -> (r: Option<Vec<u8>>)
    ensures
        r matches Some(c) ==> c@ == aes_cbc_encrypt_of(key@, IV@, plain@),
        plain@.len() > CIPHER_MAX_INPUT ==> r is None,
{
    if plain.len() > CIPHER_MAX_INPUT {
        return None;
    }
    let iv: [u8; 16] = IV;
    match aes_cbc_encrypt(key.as_slice(), iv.as_slice(), plain.as_slice()) {
        Ok(c) => Some(c),
        Err(_) => None,
    }
}

/// Decrypts a whole ciphertext under `key` and the constant initialization
/// vector, padding left in place; `None` where the cipher reports an error
/// (a length that is not a multiple of the block size) or the ciphertext is
/// longer than it takes.
pub fn decrypt_buffer(key: &[u8; 32], data: &Vec<u8>) -> (r: Option<Vec<u8>>)
    ensures
        r matches Some(p) ==> p@ == aes_cbc_decrypt_raw_of(key@, IV@, data@),
        data@.len() > CIPHER_MAX_INPUT ==> r is None,
{
    if data.len() > CIPHER_MAX_INPUT {
        return None;
    }
    let iv: [u8; 16] = IV;
    match aes_cbc_decrypt_raw(key.as_slice(), iv.as_slice(), data.as_slice()) {
        Ok(p) => Some(p),
        Err(_) => None,
    }
}

/// Removes PKCS#7 padding; `None` where it is malformed.
pub fn strip_padding(p: Vec<u8>) -> (r: Option<Vec<u8>>)
    ensures
        match r {
            Some(q) => padding_ok(p@) && q@ == unpadded(p@),
            None => !padding_ok(p@),
        },
{
    let n: usize = p.len();
    if n == 0 {
        return None;
    }
    let k: u8 = p[n - 1];
    if k < 1 || k > 16 || k as usize > n {
        return None;
    }
    let mut i: usize = n - k as usize;
    while i < n
        invariant
            n == p@.len(),
            n >= 1,
            k == p@.last(),
            1 <= k <= 16,
            k <= n,
            n - k <= i <= n,
            forall|j: int| n - k <= j < i ==> p@[j] == k,
        decreases n - i,
    {
        if p[i] != k {
            return None;
        }
        i = i + 1;
    }
    let mut q = p;
    q.truncate(n - k as usize);
    assert(q@ =~= unpadded(p@));
    Some(q)
}

} // verus!
