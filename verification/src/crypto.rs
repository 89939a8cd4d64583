use vstd::prelude::*;
use crate::bytes::{append_vec, sub_vec};
use crate::errors::Error;
use aes::cipher::block_padding::Pkcs7;
use aes::cipher::{BlockDecryptMut, BlockEncryptMut, KeyIvInit};

verus! {

/// Argon2id memory cost in KiB. The three cost parameters are part of the
/// wire format: files written with them must stay decryptable, so they are
/// pinned here instead of being read from crate defaults.
pub const M_COST: u32 = 19456;

/// Argon2id time cost (passes).
pub const T_COST: u32 = 2;

/// Argon2id parallelism.
pub const P_COST: u32 = 1;

/// The longest passphrase the key derivation accepts.
pub const MAX_PASS_LEN: usize = 0xFFFF_FFFF;

/// The 32-byte key that Argon2id (version 0x13) derives from a passphrase
/// and a 16-byte salt at the given cost parameters.
pub uninterp spec fn key_of(pass: Seq<u8>, salt: Seq<u8>, m_cost: u32, t_cost: u32, p_cost: u32) -> Seq<u8>;

/// The AES-256-CBC ciphertext, PKCS#7 padded, of a plaintext under a key and
/// an IV.
pub uninterp spec fn cbc_enc(key: Seq<u8>, iv: Seq<u8>, pt: Seq<u8>) -> Seq<u8>;

/// The AES-256-CBC decryption of a ciphertext under a key and an IV: the
/// unpadded plaintext, or nothing when the padding check fails.
pub uninterp spec fn cbc_dec(key: Seq<u8>, iv: Seq<u8>, ct: Seq<u8>) -> Option<Seq<u8>>;

/// Relies on rand::random, which draws from the thread-local CSPRNG seeded
/// from OS entropy. Nothing is promised of the bytes.
#[verifier::external_body]
fn random_16() -> (r: Vec<u8>)
    ensures
        r@.len() == 16,
{
    rand::random::<[u8; 16]>().to_vec()
}

/// Relies on argon2::Argon2::hash_password_into: Argon2id version 0x13 with
/// explicit cost parameters is a pure function of passphrase, salt and those
/// parameters, and with a 16-byte salt, a 32-byte output and parameters in
/// the ranges below it cannot fail.
#[verifier::external_body]
fn argon2id_derive(pass: &Vec<u8>, salt: &Vec<u8>, m_cost: u32, t_cost: u32, p_cost: u32) -> (r:
    Vec<u8>)
    requires
        salt@.len() == 16,
        pass@.len() <= MAX_PASS_LEN,
        1 <= t_cost,
        1 <= p_cost <= 0xFF_FFFF,
        8 * p_cost <= m_cost,
        m_cost <= 0x10_0000,
    ensures
        r@ == key_of(pass@, salt@, m_cost, t_cost, p_cost),
        r@.len() == 32,
{
    let params = argon2::Params::new(m_cost, t_cost, p_cost, Some(32)).unwrap();
    let a = argon2::Argon2::new(argon2::Algorithm::Argon2id, argon2::Version::V0x13, params);
    let mut out = [0u8; 32];
    a.hash_password_into(pass, salt, &mut out).unwrap();
    out.to_vec()
}

/// Relies on cbc::Encryptor<aes::Aes256> with PKCS#7 padding
/// (encrypt_padded_vec_mut): the ciphertext is a pure function of key, IV
/// and plaintext, it is the plaintext length rounded up to the next multiple
/// of 16 with a whole extra block when the length already is one, and
/// decrypting it under the same key and IV gives the plaintext back.
#[verifier::external_body]
fn aes256_cbc_encrypt(key: &Vec<u8>, iv: &Vec<u8>, pt: &Vec<u8>) -> (r: Vec<u8>)
    requires
        key@.len() == 32,
        iv@.len() == 16,
        pt@.len() + 16 <= usize::MAX,
    ensures
        r@ == cbc_enc(key@, iv@, pt@),
        r@.len() == ((pt@.len() / 16) + 1) * 16,
        cbc_dec(key@, iv@, r@) == Some(pt@),
{
    let key = aes::cipher::Key::<cbc::Encryptor<aes::Aes256>>::clone_from_slice(key);
    let iv = aes::cipher::Iv::<cbc::Encryptor<aes::Aes256>>::clone_from_slice(iv);
    cbc::Encryptor::<aes::Aes256>::new(&key, &iv).encrypt_padded_vec_mut::<Pkcs7>(pt)
}

/// Relies on cbc::Decryptor<aes::Aes256> with PKCS#7 padding
/// (decrypt_padded_vec_mut): decryption is a pure function of key, IV and
/// ciphertext, and it fails exactly when the unpadding check fails.
#[verifier::external_body]
fn aes256_cbc_decrypt(key: &Vec<u8>, iv: &Vec<u8>, ct: &Vec<u8>) -> (r: Option<Vec<u8>>)
    requires
        key@.len() == 32,
        iv@.len() == 16,
    ensures
        match r {
            Some(pt) => cbc_dec(key@, iv@, ct@) == Some(pt@),
            None => cbc_dec(key@, iv@, ct@) is None,
        },
{
    let key = aes::cipher::Key::<cbc::Decryptor<aes::Aes256>>::clone_from_slice(key);
    let iv = aes::cipher::Iv::<cbc::Decryptor<aes::Aes256>>::clone_from_slice(iv);
    match cbc::Decryptor::<aes::Aes256>::new(&key, &iv).decrypt_padded_vec_mut::<Pkcs7>(ct) {
        Ok(pt) => Some(pt),
        Err(_) => None,
    }
}

/// Size of the encrypted image of a `len`-byte plaintext: 16-byte salt,
/// 16-byte IV, and the ciphertext, which always carries at least one byte of
/// PKCS#7 padding.
pub fn get_encrypted_size(src: &[u8]) -> (r: usize)
    requires
        src@.len() <= usize::MAX - 48,
    ensures
        r == src@.len() + (16 - src@.len() % 16) + 32,
{
    src.len() + (16 - src.len() % 16) + 32
}

/// What decrypting an encrypted blob under a passphrase yields: the first 16
/// bytes are the salt, the next 16 the IV, the rest the ciphertext.
pub open spec fn dec_blob(blob: Seq<u8>, pass: Seq<u8>) -> Option<Seq<u8>> {
    if blob.len() < 32 {
        None
    } else {
        cbc_dec(
            key_of(pass, blob.subrange(0, 16), M_COST, T_COST, P_COST),
            blob.subrange(16, 32),
            blob.subrange(32, blob.len() as int),
        )
    }
}

/// Encrypt a blob under a passphrase: a fresh 16-byte salt, a fresh 16-byte
/// IV, then the AES-256-CBC ciphertext under the Argon2id-derived key, as
/// one byte vector. Decrypting the result with the same passphrase gives the
/// blob back.
pub fn encrypt_file(src: &Vec<u8>, pass: &Vec<u8>) -> (r: Result<Vec<u8>, Error>)
    ensures
        match r {
            Ok(ct) => {
                &&& src@.len() + 48 <= usize::MAX
                &&& pass@.len() <= MAX_PASS_LEN
                &&& ct@.len() == src@.len() + (16 - src@.len() % 16) + 32
                &&& dec_blob(ct@, pass@) == Some(src@)
                &&& exists|salt: Seq<u8>, iv: Seq<u8>|
                    #![auto]
                    salt.len() == 16 && iv.len() == 16 && ct@ == salt + iv + cbc_enc(
                        key_of(pass@, salt, M_COST, T_COST, P_COST),
                        iv,
                        src@,
                    )
            },
            Err(e) => e is EncryptFailed && (src@.len() + 48 > usize::MAX || pass@.len()
                > MAX_PASS_LEN),
        },
{
    if pass.len() > MAX_PASS_LEN {
        return Err(Error::EncryptFailed);
    }
    if src.len() > usize::MAX - 48 {
        return Err(Error::EncryptFailed);
    }
    let salt = random_16();
    let iv = random_16();
    let key = argon2id_derive(pass, &salt, M_COST, T_COST, P_COST);
    let ct = aes256_cbc_encrypt(&key, &iv, src);
    let mut out: Vec<u8> = Vec::new();
    append_vec(&mut out, &salt);
    append_vec(&mut out, &iv);
    append_vec(&mut out, &ct);
    proof {
        assert(out@.subrange(0, 16) =~= salt@);
        assert(out@.subrange(16, 32) =~= iv@);
        assert(out@.subrange(32, out@.len() as int) =~= ct@);
        assert(out@ == salt@ + iv@ + cbc_enc(key_of(pass@, salt@, M_COST, T_COST, P_COST), iv@, src@));
        // ciphertext length: one whole padding block past the plaintext
        assert(((src@.len() / 16) + 1) * 16 == src@.len() + (16 - src@.len() % 16)) by (nonlinear_arith);
    }
    Ok(out)
}

/// Decrypt an encrypted blob under a passphrase: split off salt and IV,
/// derive the key, decrypt and unpad. Failure is deliberately ambiguous
/// between a wrong passphrase and corrupted ciphertext.
pub fn decrypt_file(src: &Vec<u8>, pass: &Vec<u8>) -> (r: Result<Vec<u8>, Error>)
    ensures
        match r {
            Ok(pt) => dec_blob(src@, pass@) == Some(pt@) && pass@.len() <= MAX_PASS_LEN,
            Err(e) => e is DecryptFailed && (dec_blob(src@, pass@) is None || pass@.len()
                > MAX_PASS_LEN),
        },
{
    if pass.len() > MAX_PASS_LEN {
        return Err(Error::DecryptFailed);
    }
    if src.len() < 32 {
        return Err(Error::DecryptFailed);
    }
    let salt = sub_vec(src, 0, 16);
    let iv = sub_vec(src, 16, 32);
    let ct = sub_vec(src, 32, src.len());
    let key = argon2id_derive(pass, &salt, M_COST, T_COST, P_COST);
    match aes256_cbc_decrypt(&key, &iv, &ct) {
        Some(pt) => Ok(pt),
        None => Err(Error::DecryptFailed),
    }
}

} // verus!
