//! Key derivation, Fernet-style encryption (AES-128-CBC with PKCS#7 padding, authenticated by
//! HMAC-SHA256, armoured in URL-safe base64) and HMAC-SHA256 signatures.
use vstd::prelude::*;
use vstd::slice::{slice_subrange, slice_to_vec};
use vstd::string::StringSliceAdditionalSpecFns;

use crate::error::TSpineError;

use aes::cipher::{block_padding::Pkcs7, BlockDecryptMut, BlockEncryptMut, KeyIvInit};
use base64::Engine;
use hmac::Mac;
use rand::RngCore;
use sha2::Digest;

verus! {

/// The SHA-256 digest of `data`.
pub uninterp spec fn sha256(data: Seq<u8>) -> Seq<u8>;

/// The HMAC-SHA256 tag of `data` under `key`.
pub uninterp spec fn hmac_sha256(key: Seq<u8>, data: Seq<u8>) -> Seq<u8>;

/// The AES-128-CBC encryption of `data`, padded with PKCS#7, under `key` and `iv`.
pub uninterp spec fn aes128_cbc_encrypt(key: Seq<u8>, iv: Seq<u8>, data: Seq<u8>) -> Seq<u8>;

/// The AES-128-CBC decryption of `data` with PKCS#7 padding removed, if the padding is sound.
pub uninterp spec fn aes128_cbc_decrypt(key: Seq<u8>, iv: Seq<u8>, data: Seq<u8>) -> Option<
    Seq<u8>,
>;

/// The URL-safe, padded base64 text of `data`, as bytes.
pub uninterp spec fn base64_url(data: Seq<u8>) -> Seq<u8>;

/// The bytes that URL-safe, padded base64 text `data` stands for, if it is valid base64.
pub uninterp spec fn base64_url_decode(data: Seq<u8>) -> Option<Seq<u8>>;

/// A byte vector's view, inside an option.
pub open spec fn opt_bytes(o: Option<Vec<u8>>) -> Option<Seq<u8>> {
    match o {
        Some(v) => Some(v@),
        None => None,
    }
}

/// SHA-256 of `data` (`sha2::Sha256::digest`). Claimed: the result is the digest of `data`,
/// named `sha256`, and has 32 bytes.
#[verifier::external_body]
fn sha256_digest(data: &[u8]) -> (r: Vec<u8>)
    ensures
        r@ == sha256(data@),
        r@.len() == 32,
{
    sha2::Sha256::digest(data).to_vec()
}

/// HMAC-SHA256 of `data` under `key` (`hmac::Hmac<Sha256>`: `new_from_slice`, `update`,
/// `finalize`). HMAC takes keys of any length, so the key is always accepted. Claimed: the
/// result is the tag named `hmac_sha256`, of 32 bytes.
#[verifier::external_body]
fn hmac_sha256_tag(key: &[u8], data: &[u8]) -> (r: Vec<u8>)
    ensures
        r@ == hmac_sha256(key@, data@),
        r@.len() == 32,
{
    let mut mac = hmac::Hmac::<sha2::Sha256>::new_from_slice(key).expect("HMAC takes any key");
    mac.update(data);
    mac.finalize().into_bytes().to_vec()
}

/// Checks an HMAC-SHA256 tag (`hmac::Mac::verify_slice`, which compares in constant time and
/// refuses a tag whose length is not 32). Claimed: true exactly when `tag` is the tag of `data`
/// under `key`.
#[verifier::external_body]
fn hmac_sha256_verify(key: &[u8], data: &[u8], tag: &[u8]) -> (r: bool)
    ensures
        r == (tag@ == hmac_sha256(key@, data@)),
{
    let mut mac = hmac::Hmac::<sha2::Sha256>::new_from_slice(key).expect("HMAC takes any key");
    mac.update(data);
    mac.verify_slice(tag).is_ok()
}

/// AES-128-CBC encryption with PKCS#7 padding (`cbc::Encryptor<aes::Aes128>`,
/// `encrypt_padded_vec_mut::<Pkcs7>`). Claimed: the result is the ciphertext named
/// `aes128_cbc_encrypt`; padding always adds 1 to 16 bytes, so its length is the next multiple
/// of 16 above the length of `data`.
#[verifier::external_body]
fn aes_cbc_encrypt(key: &[u8], iv: &[u8], data: &[u8]) -> (r: Vec<u8>)
    requires
        key@.len() == 16,
        iv@.len() == 16,
    ensures
        r@ == aes128_cbc_encrypt(key@, iv@, data@),
        r@.len() == (data@.len() / 16 + 1) * 16,
{
    let enc = cbc::Encryptor::<aes::Aes128>::new(key.into(), iv.into());
    enc.encrypt_padded_vec_mut::<Pkcs7>(data)
}

/// AES-128-CBC decryption with PKCS#7 padding (`cbc::Decryptor<aes::Aes128>`,
/// `decrypt_padded_vec_mut::<Pkcs7>`, which fails on a length that is not a multiple of 16 or
/// on unsound padding). Claimed: the result is the plaintext named `aes128_cbc_decrypt`, and
/// decryption with the same key and IV gives back what encryption was given.
#[verifier::external_body]
fn aes_cbc_decrypt(key: &[u8], iv: &[u8], data: &[u8]) -> (r: Option<Vec<u8>>)
    requires
        key@.len() == 16,
        iv@.len() == 16,
    ensures
        opt_bytes(r) == aes128_cbc_decrypt(key@, iv@, data@),
        forall|pt: Seq<u8>|
            data@ == #[trigger] aes128_cbc_encrypt(key@, iv@, pt) ==> opt_bytes(r) == Some(pt),
{
    let dec = cbc::Decryptor::<aes::Aes128>::new(key.into(), iv.into());
    dec.decrypt_padded_vec_mut::<Pkcs7>(data).ok()
}

/// URL-safe base64 with padding (`base64::engine::general_purpose::URL_SAFE.encode`), as the
/// bytes of the text. Claimed: the result is the text named `base64_url`.
#[verifier::external_body]
fn base64_url_encode(data: &[u8]) -> (r: Vec<u8>)
    requires
        data@.len() <= usize::MAX / 2,
    ensures
        r@ == base64_url(data@),
{
    base64::engine::general_purpose::URL_SAFE.encode(data).into_bytes()
}

/// URL-safe base64 decoding (`URL_SAFE.decode`). Claimed: the result is the value named
/// `base64_url_decode`, and decoding the text of some bytes gives those bytes back.
#[verifier::external_body]
fn base64_url_decode_bytes(data: &[u8]) -> (r: Option<Vec<u8>>)
    ensures
        opt_bytes(r) == base64_url_decode(data@),
        forall|x: Seq<u8>| data@ == #[trigger] base64_url(x) ==> opt_bytes(r) == Some(x),
{
    base64::engine::general_purpose::URL_SAFE.decode(data).ok()
}

/// Sixteen random bytes from the thread's generator (`rand::thread_rng().fill_bytes`).
/// Claimed: only the length.
#[verifier::external_body]
fn random_iv() -> (r: Vec<u8>)
    ensures
        r@.len() == 16,
{
    let mut iv = vec![0u8; 16];
    rand::thread_rng().fill_bytes(&mut iv);
    iv
}

/// Seconds since the Unix epoch, or 0 before it (`SystemTime::now`). Nothing is claimed.
#[verifier::external_body]
fn unix_time_secs() -> (r: u64) {
    std::time::SystemTime::now().duration_since(std::time::UNIX_EPOCH).unwrap_or_default().as_secs()
}

/// The 8 bytes of `v`, most significant first.
pub open spec fn be64(v: u64) -> Seq<u8> {
    Seq::new(8, |i: int| ((v >> ((56 - 8 * i) as u64)) & 0xffu64) as u8)
}

/// The signing half of the keys derived from a password's bytes.
pub open spec fn spec_sign_key(password: Seq<u8>) -> Seq<u8> {
    sha256(password).take(16)
}

/// The encryption half of the keys derived from a password's bytes.
pub open spec fn spec_enc_key(password: Seq<u8>) -> Seq<u8> {
    sha256(password).subrange(16, 32)
}

/// The signed part of a raw token: version byte 0x80, timestamp, IV, ciphertext.
pub open spec fn fernet_msg(password: Seq<u8>, data: Seq<u8>, iv: Seq<u8>, ts: u64) -> Seq<u8> {
    seq![0x80u8] + be64(ts) + iv + aes128_cbc_encrypt(spec_enc_key(password), iv, data)
}

/// The raw token: the signed part, then its HMAC.
pub open spec fn fernet_raw(password: Seq<u8>, data: Seq<u8>, iv: Seq<u8>, ts: u64) -> Seq<u8> {
    let msg = fernet_msg(password, data, iv, ts);
    msg + hmac_sha256(spec_sign_key(password), msg)
}

/// The lengths that AES and HMAC give the parts of a token: a ciphertext of the next multiple
/// of 16 bytes and a 32-byte tag.
pub open spec fn fernet_parts_ok(password: Seq<u8>, data: Seq<u8>, iv: Seq<u8>, ts: u64) -> bool {
    let ct = aes128_cbc_encrypt(spec_enc_key(password), iv, data);
    &&& iv.len() == 16
    &&& ct.len() == (data.len() / 16 + 1) * 16
    &&& hmac_sha256(spec_sign_key(password), seq![0x80u8] + be64(ts) + iv + ct).len() == 32
}

/// The token that encrypting `data` under `password` with `iv` at time `ts` gives.
pub open spec fn fernet_token(password: Seq<u8>, data: Seq<u8>, iv: Seq<u8>, ts: u64) -> Seq<u8> {
    base64_url(fernet_raw(password, data, iv, ts))
}

/// What decrypting `token` under `password` gives: the token is base64-decoded (or taken as
/// raw bytes if it is not base64), checked for its version byte, its length and its HMAC, then
/// decrypted.
pub open spec fn spec_decrypt_fernet(password: Seq<u8>, token: Seq<u8>) -> Option<Seq<u8>> {
    let raw = match base64_url_decode(token) {
        Some(r) => r,
        None => token,
    };
    if raw.len() < 73 || raw[0] != 0x80u8 {
        None
    } else {
        let n = raw.len() - 32;
        if raw.skip(n) != hmac_sha256(spec_sign_key(password), raw.take(n)) {
            None
        } else {
            aes128_cbc_decrypt(spec_enc_key(password), raw.subrange(9, 25), raw.subrange(25, n))
        }
    }
}

/// The HMAC-SHA256 of `data` under a key given as text.
pub open spec fn spec_sign(key: &str, data: Seq<u8>) -> Seq<u8> {
    hmac_sha256(key.spec_bytes(), data)
}

/// Whether `signature` is the HMAC of `data` under the key bytes `key`, whole (32 bytes) or cut
/// to its first 16 bytes.
pub open spec fn tag_matches(key: Seq<u8>, data: Seq<u8>, signature: Seq<u8>) -> bool {
    let full = hmac_sha256(key, data);
    if signature.len() == 16 {
        full.take(16) == signature
    } else if signature.len() == 32 {
        full == signature
    } else {
        false
    }
}

/// Whether `signature` is the HMAC of `data` under `key`, whole (32 bytes) or cut to its first
/// 16 bytes.
pub open spec fn spec_verify(key: &str, data: Seq<u8>, signature: Seq<u8>) -> bool {
    tag_matches(key.spec_bytes(), data, signature)
}

/// Copies 16 bytes of `v`, from `start`, into an array.
fn array16(v: &[u8], start: usize) -> (a: [u8; 16])
    requires
        start + 16 <= v@.len() <= usize::MAX,
    ensures
        a@ == v@.subrange(start as int, start + 16),
{
    let mut a = [0u8; 16];
    let mut i: usize = 0;
    while i < 16
        invariant
            i <= 16,
            start + 16 <= v@.len() <= usize::MAX,
            a@.len() == 16,
            forall|j: int| 0 <= j < i ==> #[trigger] a@[j] == v@[start + j],
        decreases 16 - i,
    {
        a.set(i, v[start + i]);
        i += 1;
    }
    assert(a@ =~= v@.subrange(start as int, start + 16));
    a
}

/// Key derivation and the Fernet and HMAC operations of the format.
pub struct Crypto;

impl Crypto {
    /// Splits the SHA-256 of the password's bytes into a signing key (first half) and an
    /// encryption key (second half).
    pub fn derive_keys(password: &str) -> (keys: ([u8; 16], [u8; 16]))
        ensures
            keys.0@ == spec_sign_key(password.spec_bytes()),
            keys.1@ == spec_enc_key(password.spec_bytes()),
    {
        let hash = sha256_digest(password.as_bytes());
        let sign_key = array16(hash.as_slice(), 0);
        let enc_key = array16(hash.as_slice(), 16);
        (sign_key, enc_key)
    }

    /// Encrypts `data` under `password` with the given IV and timestamp.
    fn encrypt_fernet_with(password: &str, data: &[u8], iv: &[u8], timestamp: u64) -> (token: Vec<
        u8,
    >)
        requires
            iv@.len() == 16,
            data@.len() <= usize::MAX / 4,
        ensures
            token@ == fernet_token(password.spec_bytes(), data@, iv@, timestamp),
            fernet_parts_ok(password.spec_bytes(), data@, iv@, timestamp),
    {
        let (sign_key, enc_key) = Self::derive_keys(password);
        let ciphertext = aes_cbc_encrypt(enc_key.as_slice(), iv, data);
        let mut raw_token: Vec<u8> = Vec::new();
        raw_token.push(0x80u8);
        let mut i: usize = 0;
        while i < 8
            invariant
                i <= 8,
                raw_token@ == seq![0x80u8] + be64(timestamp).take(i as int),
            decreases 8 - i,
        {
            let shift = (56 - 8 * i) as u64;
            raw_token.push(((timestamp >> shift) & 0xff) as u8);
            proof {
                assert(be64(timestamp).take(i + 1) =~= be64(timestamp).take(i as int).push(
                    ((timestamp >> shift) & 0xffu64) as u8,
                ));
            }
            i += 1;
        }
        let mut iv_copy = slice_to_vec(iv);
        raw_token.append(&mut iv_copy);
        let mut ct = ciphertext;
        raw_token.append(&mut ct);
        let mut tag = hmac_sha256_tag(sign_key.as_slice(), raw_token.as_slice());
        proof {
            assert(be64(timestamp).take(8) =~= be64(timestamp));
        }
        let ghost msg = raw_token@;
        raw_token.append(&mut tag);
        proof {
            assert(raw_token@ =~= fernet_raw(password.spec_bytes(), data@, iv@, timestamp));
        }
        base64_url_encode(raw_token.as_slice())
    }

    /// Encrypts `data` under `password` with a random IV and the current time. The token is
    /// the URL-safe base64 of version byte, timestamp, IV, ciphertext and HMAC.
    pub fn encrypt_fernet(password: &str, data: &[u8]) -> (token: Vec<u8>)
        requires
            data@.len() <= usize::MAX / 4,
        ensures
            exists|iv: Seq<u8>, ts: u64|
                fernet_parts_ok(password.spec_bytes(), data@, iv, ts) && token@ == fernet_token(
                    password.spec_bytes(),
                    data@,
                    iv,
                    ts,
                ),
    {
        let timestamp = unix_time_secs();
        let iv = random_iv();
        Self::encrypt_fernet_with(password, data, iv.as_slice(), timestamp)
    }

    /// Decrypts a token made by `encrypt_fernet` under `password`. Fails with
    /// `DecryptionFailed` on a short or malformed token, a wrong password or tampered data.
    pub fn decrypt_fernet(password: &str, token: &[u8]) -> (r: Result<Vec<u8>, TSpineError>)
        ensures
            match spec_decrypt_fernet(password.spec_bytes(), token@) {
                Some(p) => r matches Ok(v) && v@ == p,
                None => r == Err::<Vec<u8>, TSpineError>(TSpineError::DecryptionFailed),
            },
            forall|x: Seq<u8>, iv: Seq<u8>, ts: u64|
                #[trigger] fernet_parts_ok(password.spec_bytes(), x, iv, ts) && token@
                    == fernet_token(password.spec_bytes(), x, iv, ts) ==> (r matches Ok(v) && v@
                    == x),
            forall|p: Seq<u8>, x: Seq<u8>, iv: Seq<u8>, ts: u64|
                #[trigger] fernet_parts_ok(p, x, iv, ts) && token@ == fernet_token(p, x, iv, ts)
                    && hmac_sha256(spec_sign_key(password.spec_bytes()), fernet_msg(p, x, iv, ts))
                    != hmac_sha256(spec_sign_key(p), fernet_msg(p, x, iv, ts)) ==> r == Err::<
                    Vec<u8>,
                    TSpineError,
                >(TSpineError::DecryptionFailed),
    {
        let (sign_key, enc_key) = Self::derive_keys(password);
        let decoded = base64_url_decode_bytes(token);
        proof {
            assert forall|p: Seq<u8>, x: Seq<u8>, iv: Seq<u8>, ts: u64|
                #[trigger] fernet_parts_ok(p, x, iv, ts) && token@ == fernet_token(p, x, iv, ts)
                    && hmac_sha256(spec_sign_key(password.spec_bytes()), fernet_msg(p, x, iv, ts))
                    != hmac_sha256(spec_sign_key(p), fernet_msg(p, x, iv, ts)) implies spec_decrypt_fernet(
                password.spec_bytes(),
                token@,
            ) is None by {
                Self::lemma_token_shape(p);
                let raw = fernet_raw(p, x, iv, ts);
                let msg = fernet_msg(p, x, iv, ts);
                assert(base64_url_decode(token@) == Some(raw));
                assert(raw.take(msg.len() as int) =~= msg);
            }
        }
        let raw = match decoded {
            Some(r) => r,
            None => slice_to_vec(token),
        };
        if raw.len() < 1 + 8 + 16 + 16 + 32 || raw[0] != 0x80 {
            proof {
                Self::lemma_token_shape(password.spec_bytes());
            }
            return Err(TSpineError::DecryptionFailed);
        }
        let payload_len = raw.len() - 32;
        let msg = slice_subrange(raw.as_slice(), 0, payload_len);
        let sig = slice_subrange(raw.as_slice(), payload_len, raw.len());
        if !hmac_sha256_verify(sign_key.as_slice(), msg, sig) {
            proof {
                Self::lemma_token_shape(password.spec_bytes());
                assert(msg@ =~= raw@.take(payload_len as int));
                assert(sig@ =~= raw@.skip(payload_len as int));
            }
            return Err(TSpineError::DecryptionFailed);
        }
        let iv = slice_subrange(raw.as_slice(), 9, 25);
        let ciphertext = slice_subrange(raw.as_slice(), 25, payload_len);
        let dec = aes_cbc_decrypt(enc_key.as_slice(), iv, ciphertext);
        proof {
            Self::lemma_token_shape(password.spec_bytes());
            assert(msg@ =~= raw@.take(payload_len as int));
            assert(sig@ =~= raw@.skip(payload_len as int));
        }
        match dec {
            Some(p) => Ok(p),
            None => Err(TSpineError::DecryptionFailed),
        }
    }

    /// A token's raw bytes split where decryption splits them.
    proof fn lemma_token_shape(password: Seq<u8>)
        ensures
            forall|x: Seq<u8>, iv: Seq<u8>, ts: u64|
                #[trigger] fernet_parts_ok(password, x, iv, ts) ==> {
                    let raw = fernet_raw(password, x, iv, ts);
                    let n = raw.len() - 32;
                    &&& raw.len() >= 73
                    &&& raw[0] == 0x80u8
                    &&& raw.skip(n) == hmac_sha256(spec_sign_key(password), raw.take(n))
                    &&& raw.subrange(9, 25) == iv
                    &&& raw.subrange(25, n) == aes128_cbc_encrypt(spec_enc_key(password), iv, x)
                },
    {
        assert forall|x: Seq<u8>, iv: Seq<u8>, ts: u64|
            #[trigger] fernet_parts_ok(password, x, iv, ts) implies {
            let raw = fernet_raw(password, x, iv, ts);
            let n = raw.len() - 32;
            &&& raw.len() >= 73
            &&& raw[0] == 0x80u8
            &&& raw.skip(n) == hmac_sha256(spec_sign_key(password), raw.take(n))
            &&& raw.subrange(9, 25) == iv
            &&& raw.subrange(25, n) == aes128_cbc_encrypt(spec_enc_key(password), iv, x)
        } by {
            let ct = aes128_cbc_encrypt(spec_enc_key(password), iv, x);
            let msg = seq![0x80u8] + be64(ts) + iv + ct;
            let tag = hmac_sha256(spec_sign_key(password), msg);
            let raw = msg + tag;
            assert(raw == fernet_raw(password, x, iv, ts));
            assert(raw.take(msg.len() as int) =~= msg);
            assert(raw.skip(msg.len() as int) =~= tag);
            assert(raw.subrange(9, 25) =~= iv);
            assert(raw.subrange(25, msg.len() as int) =~= ct);
        }
    }

    /// The HMAC-SHA256 of `data` under the bytes of `key`. Verification under the same key
    /// accepts it, whole or cut to its first 16 bytes.
    pub fn sign_hmac(key: &str, data: &[u8]) -> (sig: [u8; 32])
        ensures
            sig@ == spec_sign(key, data@),
            spec_verify(key, data@, sig@),
            spec_verify(key, data@, sig@.take(16)),
    {
        let tag = hmac_sha256_tag(key.as_bytes(), data);
        let mut out = [0u8; 32];
        let mut i: usize = 0;
        while i < 32
            invariant
                i <= 32,
                tag@.len() == 32,
                out@.len() == 32,
                forall|j: int| 0 <= j < i ==> #[trigger] out@[j] == tag@[j],
            decreases 32 - i,
        {
            out.set(i, tag[i]);
            i += 1;
        }
        assert(out@ =~= tag@);
        out
    }

    /// Whether `signature` is the HMAC of `data` under `key`: the whole 32-byte tag, or its
    /// first 16 bytes; any other length is refused.
    pub fn verify_hmac(key: &str, data: &[u8], signature: &[u8]) -> (ok: bool)
        ensures
            ok == spec_verify(key, data@, signature@),
    {
        let full_sig = hmac_sha256_tag(key.as_bytes(), data);
        if signature.len() == 16 {
            let head = slice_subrange(full_sig.as_slice(), 0, 16);
            bytes_equal(head, signature)
        } else if signature.len() == 32 {
            bytes_equal(full_sig.as_slice(), signature)
        } else {
            false
        }
    }
}

/// Whether two byte strings are equal.
pub fn bytes_equal(a: &[u8], b: &[u8]) -> (eq: bool)
    ensures
        eq == (a@ == b@),
{
    if a.len() != b.len() {
        return false;
    }
    let mut i: usize = 0;
    while i < a.len()
        invariant
            a@.len() == b@.len(),
            i <= a@.len(),
            forall|j: int| 0 <= j < i ==> a@[j] == b@[j],
        decreases a@.len() - i,
    {
        if a[i] != b[i] {
            return false;
        }
        i += 1;
    }
    assert(a@ =~= b@);
    true
}

} // verus!
