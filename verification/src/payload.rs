//! The byte layout of a code's content: header, optional signature, length-prefixed body.
//!
//! Full header: `"TSC"`, a flags byte, a 32-byte signature if signed, then the body with 4-byte
//! big-endian lengths. Minimal header: a flags byte with its top bit set, a 16-byte signature
//! if signed, then the body with 1-byte lengths.
use vstd::prelude::*;
use vstd::slice::{slice_subrange, slice_to_vec};
use vstd::string::StringSliceAdditionalSpecFns;
use vstd::utf8::{decode_utf8, encode_utf8, encode_utf8_decode_utf8, valid_utf8};

use crate::crypto::{
    fernet_msg, fernet_parts_ok, fernet_token, hmac_sha256, spec_decrypt_fernet, spec_sign_key,
    tag_matches, Crypto,
};
use crate::error::TSpineError;
use crate::types::DecodedPayload;

verus! {

pub const FLAG_COMPRESSED: u8 = 0x01;

pub const FLAG_ENCRYPTED: u8 = 0x02;

pub const FLAG_SIGNED: u8 = 0x04;

pub const FLAG_DUAL: u8 = 0x08;

pub const FLAG_BINARY: u8 = 0x10;

/// The zstd compression of `data` at `level`, if compression succeeds.
pub uninterp spec fn zstd_compressed(data: Seq<u8>, level: i32) -> Option<Seq<u8>>;

/// The zstd decompression of `data` into at most `capacity` bytes, if it succeeds.
pub uninterp spec fn zstd_decompressed(data: Seq<u8>, capacity: usize) -> Option<Seq<u8>>;

/// The text that replaces each ill-formed UTF-8 sequence of `data` by U+FFFD.
pub uninterp spec fn utf8_lossy(data: Seq<u8>) -> Seq<char>;

/// The text that lossy UTF-8 decoding gives: the text the bytes encode when they are valid
/// UTF-8, else the text with replacement characters.
pub open spec fn lossy_text(data: Seq<u8>) -> Seq<char> {
    if valid_utf8(data) {
        decode_utf8(data)
    } else {
        utf8_lossy(data)
    }
}

/// zstd compression of a block (`zstd::bulk::compress`). Claimed: the result is the value named
/// `zstd_compressed`.
#[verifier::external_body]
fn zstd_compress(data: &[u8], level: i32) -> (r: Option<Vec<u8>>)
    ensures
        crate::crypto::opt_bytes(r) == zstd_compressed(data@, level),
{
    zstd::bulk::compress(data, level).ok()
}

/// Decompressed bytes, or the decompressor's message.
pub type Decompressed = Result<Vec<u8>, String>;

/// zstd decompression of a block into at most `capacity` bytes (`zstd::bulk::decompress`); a
/// failure carries zstd's message. Claimed: success and its bytes are the value named
/// `zstd_decompressed`, and decompressing what compression produced from bytes no longer than
/// `capacity` gives those bytes back.
#[verifier::external_body]
fn zstd_decompress(data: &[u8], capacity: usize) -> (r: Decompressed)
    ensures
        r.is_ok() == zstd_decompressed(data@, capacity).is_some(),
        r matches Ok(v) ==> zstd_decompressed(data@, capacity) == Some(v@),
        forall|x: Seq<u8>, level: i32|
            #[trigger] zstd_compressed(x, level) == Some(data@) && x.len() <= capacity ==> r.is_ok()
                && r.unwrap()@ == x,
{
    zstd::bulk::decompress(data, capacity).map_err(|e| e.to_string())
}

/// Lossy UTF-8 decoding (`String::from_utf8_lossy`). Claimed: on valid UTF-8 the result is
/// the text the bytes encode; otherwise it is the text named `utf8_lossy`.
#[verifier::external_body]
fn utf8_lossy_string(data: &[u8]) -> (r: String)
    ensures
        valid_utf8(data@) ==> r@ == decode_utf8(data@),
        !valid_utf8(data@) ==> r@ == utf8_lossy(data@),
{
    String::from_utf8_lossy(data).to_string()
}

/// Strict UTF-8 decoding (`String::from_utf8`). Claimed: it succeeds exactly on valid UTF-8,
/// with the text the bytes encode.
#[verifier::external_body]
pub(crate) fn utf8_string(data: Vec<u8>) -> (r: Option<String>)
    ensures
        r is Some <==> valid_utf8(data@),
        r matches Some(s) ==> encode_utf8(s@) == data@,
{
    String::from_utf8(data).ok()
}

/// UTF-8 validation of a byte slice (`std::str::from_utf8`). Claimed: it succeeds exactly on
/// valid UTF-8, with a text whose bytes are the input.
#[verifier::external_body]
fn utf8_str(data: &[u8]) -> (r: Option<&str>)
    ensures
        r is Some <==> valid_utf8(data@),
        r matches Some(s) ==> s.spec_bytes() == data@,
{
    std::str::from_utf8(data).ok()
}

/// A decoded payload as mathematical values.
pub enum PayloadView {
    Text(Seq<char>),
    Binary(Seq<u8>),
    Dual(Seq<char>, Seq<char>),
}

impl View for DecodedPayload {
    type V = PayloadView;

    open spec fn view(&self) -> PayloadView {
        match self {
            DecodedPayload::Text(s) => PayloadView::Text(s@),
            DecodedPayload::Binary(b) => PayloadView::Binary(b@),
            DecodedPayload::Dual { public_data, private_data } => PayloadView::Dual(
                public_data@,
                private_data@,
            ),
        }
    }
}

/// Why unpacking fails, without the messages.
pub enum UnpackFailure {
    CorruptedBlock(nat),
    InvalidHeader,
    PasswordRequired,
    DecryptionFailed,
    SignatureMismatch,
    CorruptedSignature,
    Compression,
    Utf8,
}

/// Whether an error is the failure `f`.
pub open spec fn error_is(e: TSpineError, f: UnpackFailure) -> bool {
    match f {
        UnpackFailure::CorruptedBlock(n) => e == TSpineError::CorruptedBlock(n as usize),
        UnpackFailure::InvalidHeader => e == TSpineError::InvalidHeader,
        UnpackFailure::PasswordRequired => e == TSpineError::PasswordRequired,
        UnpackFailure::DecryptionFailed => e == TSpineError::DecryptionFailed,
        UnpackFailure::SignatureMismatch => e == TSpineError::SignatureMismatch,
        UnpackFailure::CorruptedSignature => e == TSpineError::CorruptedSignature,
        UnpackFailure::Compression => e is Compression,
        UnpackFailure::Utf8 => e == TSpineError::Utf8Error,
    }
}

/// Whether a result is the payload or failure that `s` gives.
pub open spec fn result_is(r: Result<DecodedPayload, TSpineError>, s: Result<PayloadView, UnpackFailure>) -> bool {
    match s {
        Ok(p) => r matches Ok(d) && d@ == p,
        Err(f) => r matches Err(e) && error_is(e, f),
    }
}

/// Whether `data` is treated as binary: it is not UTF-8, or one of its first 1024 bytes is zero.
pub open spec fn spec_is_binary(data: Seq<u8>) -> bool {
    !valid_utf8(data) || exists|i: int| 0 <= i < data.len() && i < 1024 && data[i] == 0
}

/// The bytes stored for `data`: its zstd compression at level 22 when that is shorter, else
/// `data` itself; and whether it was compressed.
pub open spec fn spec_stored(data: Seq<u8>) -> (Seq<u8>, bool) {
    match zstd_compressed(data, 22) {
        Some(c) => if c.len() < data.len() {
            (c, true)
        } else {
            (data, false)
        },
        None => (data, false),
    }
}

/// The 4 bytes of `v`, most significant first.
pub open spec fn be32(v: u32) -> Seq<u8> {
    seq![
        ((v >> 24u32) & 0xffu32) as u8,
        ((v >> 16u32) & 0xffu32) as u8,
        ((v >> 8u32) & 0xffu32) as u8,
        (v & 0xffu32) as u8,
    ]
}

/// The big-endian number in the 4 bytes of `b` from `i`.
pub open spec fn read_be32(b: Seq<u8>, i: int) -> nat {
    (b[i] as nat) * 16777216 + (b[i + 1] as nat) * 65536 + (b[i + 2] as nat) * 256 + (b[i + 3] as nat)
}

/// A length field followed by the bytes it counts: 1 byte (the length's low byte) in the
/// minimal header, 4 big-endian bytes otherwise.
pub open spec fn length_prefixed(min_header: bool, bytes: Seq<u8>) -> Seq<u8> {
    if min_header {
        seq![(bytes.len() % 256) as u8] + bytes
    } else {
        be32(bytes.len() as u32) + bytes
    }
}

/// The signature block: the HMAC of `body` under the key, cut to 16 bytes in the minimal
/// header; empty when unsigned.
pub open spec fn sig_block(sign_key: Option<Seq<u8>>, body: Seq<u8>, min_header: bool) -> Seq<u8> {
    match sign_key {
        Some(k) => if min_header {
            hmac_sha256(k, body).take(16)
        } else {
            hmac_sha256(k, body)
        },
        None => seq![],
    }
}

/// The full packed block: header with `flags`, signature block, body.
pub open spec fn packed(flags: u8, sig: Seq<u8>, body: Seq<u8>, min_header: bool) -> Seq<u8> {
    if min_header {
        seq![flags | 0x80u8] + sig + body
    } else {
        seq![0x54u8, 0x53u8, 0x43u8, flags] + sig + body
    }
}

/// The flags of a single payload.
pub open spec fn single_flags(binary: bool, compressed: bool, encrypted: bool, signed: bool) -> u8 {
    (if binary { FLAG_BINARY } else { 0u8 }) | (if compressed { FLAG_COMPRESSED } else { 0u8 }) | (
    if encrypted {
        FLAG_ENCRYPTED
    } else {
        0u8
    }) | (if signed { FLAG_SIGNED } else { 0u8 })
}

/// The flags of a dual payload.
pub open spec fn dual_flags(encrypted: bool, signed: bool) -> u8 {
    FLAG_DUAL | (if encrypted { FLAG_ENCRYPTED } else { 0u8 }) | (if signed { FLAG_SIGNED } else { 0u8 })
}

/// The bytes of a password or key given as text.
pub open spec fn text_bytes(s: &str) -> Seq<u8> {
    s.spec_bytes()
}

/// The bytes of an optional password or key.
pub open spec fn key_bytes(k: Option<&str>) -> Option<Seq<u8>> {
    match k {
        Some(s) => Some(text_bytes(s)),
        None => None,
    }
}

/// What `stored` becomes: the Fernet token under the password made with `iv` at `ts`, or
/// itself when there is no password.
pub open spec fn encrypted_with(password: Option<Seq<u8>>, stored: Seq<u8>, iv: Seq<u8>, ts: u64) -> Seq<u8> {
    match password {
        Some(p) => fernet_token(p, stored, iv, ts),
        None => stored,
    }
}

/// Whether the IV and time could have made a well-formed token (always, without a password).
pub open spec fn encryption_ok(password: Option<Seq<u8>>, stored: Seq<u8>, iv: Seq<u8>, ts: u64) -> bool {
    match password {
        Some(p) => fernet_parts_ok(p, stored, iv, ts),
        None => true,
    }
}

/// The packed block and body of a single payload, given the encryption's IV and time.
pub open spec fn spec_single(
    data: Seq<u8>,
    password: Option<Seq<u8>>,
    sign_key: Option<Seq<u8>>,
    min_header: bool,
    iv: Seq<u8>,
    ts: u64,
) -> (Seq<u8>, Seq<u8>) {
    let (stored, compressed) = spec_stored(data);
    let body = length_prefixed(min_header, encrypted_with(password, stored, iv, ts));
    let flags = single_flags(spec_is_binary(data), compressed, password is Some, sign_key is Some);
    (packed(flags, sig_block(sign_key, body, min_header), body, min_header), body)
}

/// The private part of a dual payload before encryption: a 1 and the compression when it is
/// shorter, else a 0 and the bytes.
pub open spec fn spec_private_stored(private_data: Seq<u8>) -> Seq<u8> {
    match zstd_compressed(private_data, 22) {
        Some(c) => if c.len() < private_data.len() {
            seq![1u8] + c
        } else {
            seq![0u8] + private_data
        },
        None => seq![0u8] + private_data,
    }
}

/// The packed block and body of a dual payload, given the encryption's IV and time.
pub open spec fn spec_dual(
    public_data: Seq<u8>,
    private_data: Seq<u8>,
    password: Option<Seq<u8>>,
    sign_key: Option<Seq<u8>>,
    min_header: bool,
    iv: Seq<u8>,
    ts: u64,
) -> (Seq<u8>, Seq<u8>) {
    let private = encrypted_with(password, spec_private_stored(private_data), iv, ts);
    let body = length_prefixed(min_header, public_data) + length_prefixed(min_header, private);
    let flags = dual_flags(password is Some, sign_key is Some);
    (packed(flags, sig_block(sign_key, body, min_header), body, min_header), body)
}

/// The header of a block: minimal or not, the flags, and where the rest starts.
pub open spec fn spec_header(block: Seq<u8>) -> Option<(bool, u8, int)> {
    if block[0] & 0x80u8 != 0 {
        Some((true, block[0] & 0x7fu8, 1))
    } else if block.len() >= 4 && block[0] == 0x54u8 && block[1] == 0x53u8 && block[2] == 0x43u8 {
        Some((false, block[3], 4))
    } else {
        None
    }
}

/// The length-prefixed bytes at `i`, and where they end, if the block holds them.
pub open spec fn spec_field(block: Seq<u8>, i: int, min_header: bool) -> Option<(Seq<u8>, int)> {
    if min_header {
        if i < block.len() && i + 1 + block[i] <= block.len() {
            Some((block.subrange(i + 1, i + 1 + block[i]), i + 1 + block[i]))
        } else {
            None
        }
    } else {
        if i + 4 <= block.len() && i + 4 + read_be32(block, i) <= block.len() {
            Some((block.subrange(i + 4, i + 4 + read_be32(block, i)), i + 4 + read_be32(block, i)))
        } else {
            None
        }
    }
}

/// The body at `i`: one field, or two for a dual payload; and where it ends.
pub open spec fn spec_body_end(block: Seq<u8>, i: int, min_header: bool, dual: bool) -> Option<int> {
    match spec_field(block, i, min_header) {
        Some((_, e1)) => if dual {
            match spec_field(block, e1, min_header) {
                Some((_, e2)) => Some(e2),
                None => None,
            }
        } else {
            Some(e1)
        },
        None => None,
    }
}

/// The text of the private part of a dual payload once decrypted: decompressed if its first
/// byte is 1, each ill-formed sequence replaced.
pub open spec fn spec_private_text(p: Seq<u8>) -> Seq<char> {
    if p.len() == 0 {
        Seq::empty()
    } else if p[0] == 1 {
        match zstd_decompressed(p.skip(1), 10485760usize) {
            Some(b) => lossy_text(b),
            None => "[Corrupted private data]"@,
        }
    } else {
        lossy_text(p.skip(1))
    }
}

/// What unpacking `block` gives.
pub open spec fn spec_unpack(
    block: Seq<u8>,
    password: Option<Seq<u8>>,
    verify_key: Option<Seq<u8>>,
) -> Result<
    PayloadView,
    UnpackFailure,
> {
    if block.len() < 2 {
        Err(UnpackFailure::CorruptedBlock(block.len()))
    } else {
        match spec_header(block) {
            None => Err(UnpackFailure::InvalidHeader),
            Some((min, flags, start)) => {
                let compressed = flags & FLAG_COMPRESSED != 0;
                let encrypted = flags & FLAG_ENCRYPTED != 0;
                let signed = flags & FLAG_SIGNED != 0;
                let dual = flags & FLAG_DUAL != 0;
                let binary = flags & FLAG_BINARY != 0;
                let sig_size: int = if min {
                    16
                } else {
                    32
                };
                if signed && block.len() < start + sig_size {
                    Err(UnpackFailure::CorruptedSignature)
                } else {
                    let idx = if signed {
                        start + sig_size
                    } else {
                        start
                    };
                    match spec_body_end(block, idx, min, dual) {
                        None => Err(UnpackFailure::CorruptedBlock(block.len())),
                        Some(end) => {
                            if signed && verify_key is Some && !tag_matches(
                                verify_key.unwrap(),
                                block.subrange(idx, end),
                                block.subrange(start, start + sig_size),
                            ) {
                                Err(UnpackFailure::SignatureMismatch)
                            } else if dual {
                                let (pub_bytes, e1) = spec_field(block, idx, min).unwrap();
                                let (priv_bytes, _) = spec_field(block, e1, min).unwrap();
                                let priv_text = if encrypted {
                                    match password {
                                        Some(pw) => match spec_decrypt_fernet(pw, priv_bytes) {
                                            Some(d) => if d.len() > 0 {
                                                spec_private_text(d)
                                            } else {
                                                "[Incorrect password]"@
                                            },
                                            None => "[Incorrect password]"@,
                                        },
                                        None => "[Pass password to decrypt]"@,
                                    }
                                } else {
                                    spec_private_text(priv_bytes)
                                };
                                Ok(PayloadView::Dual(lossy_text(pub_bytes), priv_text))
                            } else {
                                let (payload, _) = spec_field(block, idx, min).unwrap();
                                spec_unpack_payload(payload, password, encrypted, compressed, binary)
                            }
                        },
                    }
                }
            },
        }
    }
}

/// What the payload field of a single block gives: decrypted under the password when
/// `encrypted`, decompressed when `compressed`, then the bytes when `binary`, else their text.
pub open spec fn spec_unpack_payload(
    payload: Seq<u8>,
    password: Option<Seq<u8>>,
    encrypted: bool,
    compressed: bool,
    binary: bool,
) -> Result<PayloadView, UnpackFailure> {
    if encrypted && password is None {
        Err(UnpackFailure::PasswordRequired)
    } else {
        let decrypted = if encrypted {
            spec_decrypt_fernet(password.unwrap(), payload)
        } else {
            Some(payload)
        };
        match decrypted {
            None => Err(UnpackFailure::DecryptionFailed),
            Some(d) => {
                let decompressed = if compressed {
                    zstd_decompressed(d, 104857600usize)
                } else {
                    Some(d)
                };
                match decompressed {
                    None => Err(UnpackFailure::Compression),
                    Some(x) => if binary {
                        Ok(PayloadView::Binary(x))
                    } else if valid_utf8(x) {
                        Ok(PayloadView::Text(decode_utf8(x)))
                    } else {
                        Err(UnpackFailure::Utf8)
                    },
                }
            },
        }
    }
}

/// What a single payload of `data` unpacks to: the bytes when they are binary, else their text.
pub open spec fn single_view(data: Seq<u8>) -> PayloadView {
    if spec_is_binary(data) {
        PayloadView::Binary(data)
    } else {
        PayloadView::Text(decode_utf8(data))
    }
}

/// Whether `raw` and `body` are what packing `data` as a single payload gives with the
/// encryption's IV and time `iv` and `ts`.
pub open spec fn single_packing(
    raw: Seq<u8>,
    body: Seq<u8>,
    data: Seq<u8>,
    password: Option<Seq<u8>>,
    sign_key: Option<Seq<u8>>,
    min_header: bool,
    iv: Seq<u8>,
    ts: u64,
) -> bool {
    &&& encryption_ok(password, spec_stored(data).0, iv, ts)
    &&& (sign_key is Some ==> hmac_sha256(sign_key.unwrap(), body).len() == 32)
    &&& (raw, body) == spec_single(data, password, sign_key, min_header, iv, ts)
}

/// Whether `raw` and `body` are what packing `public_data` and `private_data` as a dual payload
/// gives with the encryption's IV and time `iv` and `ts`.
pub open spec fn dual_packing(
    raw: Seq<u8>,
    body: Seq<u8>,
    public_data: Seq<u8>,
    private_data: Seq<u8>,
    password: Option<Seq<u8>>,
    sign_key: Option<Seq<u8>>,
    min_header: bool,
    iv: Seq<u8>,
    ts: u64,
) -> bool {
    &&& encryption_ok(password, spec_private_stored(private_data), iv, ts)
    &&& (sign_key is Some ==> hmac_sha256(sign_key.unwrap(), body).len() == 32)
    &&& (raw, body) == spec_dual(public_data, private_data, password, sign_key, min_header, iv, ts)
}

/// Whether the length field of a single body holds the stored length: below 256 in the minimal
/// header, below 2^32 otherwise.
pub open spec fn single_field_fits(body: Seq<u8>, min_header: bool) -> bool {
    if min_header {
        body.len() <= 256
    } else {
        body.len() <= 0x1_0000_0003
    }
}

/// Whether a single packing can be read back: its length field holds the stored length (below
/// 256 in the minimal header, below 2^32 otherwise), data stored compressed fits the 100 MiB
/// decompression limit, and a verification key, where the block is signed, is the signing key.
pub open spec fn single_readable(
    body: Seq<u8>,
    data: Seq<u8>,
    sign_key: Option<Seq<u8>>,
    verify_key: Option<Seq<u8>>,
    min_header: bool,
) -> bool {
    &&& single_field_fits(body, min_header)
    &&& (spec_stored(data).1 ==> data.len() <= 104857600)
    &&& (sign_key is Some && verify_key is Some ==> verify_key.unwrap() == sign_key.unwrap())
}

/// How a padded single packing reads: its header and flags, its signature region, its payload
/// field, and a signature that the verification key accepts.
spec fn single_layout(
    block: Seq<u8>,
    data: Seq<u8>,
    password: Option<Seq<u8>>,
    sign_key: Option<Seq<u8>>,
    verify_key: Option<Seq<u8>>,
    min_header: bool,
    iv: Seq<u8>,
    ts: u64,
) -> bool {
    let (stored, compressed) = spec_stored(data);
    let flags = single_flags(spec_is_binary(data), compressed, password is Some, sign_key is Some);
    let start: int = if min_header {
        1
    } else {
        4
    };
    let sig_size: int = if min_header {
        16
    } else {
        32
    };
    let idx = if sign_key is Some {
        start + sig_size
    } else {
        start
    };
    &&& block.len() >= 2
    &&& spec_header(block) == Some((min_header, flags, start))
    &&& (flags & FLAG_COMPRESSED != 0) == compressed
    &&& (flags & FLAG_ENCRYPTED != 0) == (password is Some)
    &&& (flags & FLAG_SIGNED != 0) == (sign_key is Some)
    &&& flags & FLAG_DUAL == 0
    &&& (flags & FLAG_BINARY != 0) == spec_is_binary(data)
    &&& (sign_key is Some ==> block.len() >= start + sig_size)
    &&& spec_field(block, idx, min_header) matches Some((p, e)) && p == encrypted_with(
        password,
        stored,
        iv,
        ts,
    ) && (sign_key is Some && verify_key is Some ==> tag_matches(
        verify_key.unwrap(),
        block.subrange(idx, e),
        block.subrange(start, start + sig_size),
    ))
}

proof fn lemma_single_flags(b: bool, c: bool, e: bool, s: bool)
    ensures
        single_flags(b, c, e, s) < 0x80,
        (single_flags(b, c, e, s) | 0x80u8) & 0x80u8 != 0,
        (single_flags(b, c, e, s) | 0x80u8) & 0x7fu8 == single_flags(b, c, e, s),
        (single_flags(b, c, e, s) & FLAG_COMPRESSED != 0) == c,
        (single_flags(b, c, e, s) & FLAG_ENCRYPTED != 0) == e,
        (single_flags(b, c, e, s) & FLAG_SIGNED != 0) == s,
        single_flags(b, c, e, s) & FLAG_DUAL == 0,
        (single_flags(b, c, e, s) & FLAG_BINARY != 0) == b,
{
    let f = single_flags(b, c, e, s);
    assert(f == (if b {
        0x10u8
    } else {
        0u8
    }) | (if c {
        1u8
    } else {
        0u8
    }) | (if e {
        2u8
    } else {
        0u8
    }) | (if s {
        4u8
    } else {
        0u8
    }));
    assert(f < 0x80 && (f | 0x80u8) & 0x80u8 != 0 && (f | 0x80u8) & 0x7fu8 == f && (f & 1u8 != 0)
        == c && (f & 2u8 != 0) == e && (f & 4u8 != 0) == s && f & 8u8 == 0 && (f & 0x10u8 != 0) == b)
        by (bit_vector)
        requires
            f == (if b {
                0x10u8
            } else {
                0u8
            }) | (if c {
                1u8
            } else {
                0u8
            }) | (if e {
                2u8
            } else {
                0u8
            }) | (if s {
                4u8
            } else {
                0u8
            }),
    ;
}

/// A packed block, followed by anything, shows its header, signature block and body where
/// the packing put them.
proof fn lemma_packed_prefix(block: Seq<u8>, flags: u8, sig: Seq<u8>, body: Seq<u8>, min_header: bool)
    requires
        packed(flags, sig, body, min_header).is_prefix_of(block),
        flags < 0x80,
        body.len() >= 1,
    ensures
        block.len() >= 2,
        spec_header(block) == Some((min_header, flags, if min_header {
            1int
        } else {
            4int
        })),
        block.subrange(
            if min_header {
                1int
            } else {
                4int
            },
            (if min_header {
                1int
            } else {
                4int
            }) + sig.len(),
        ) == sig,
        block.subrange(
            (if min_header {
                1int
            } else {
                4int
            }) + sig.len(),
            (if min_header {
                1int
            } else {
                4int
            }) + sig.len() + body.len(),
        ) == body,
{
    let raw = packed(flags, sig, body, min_header);
    let start: int = if min_header {
        1
    } else {
        4
    };
    assert(raw.len() == start + sig.len() + body.len());
    assert forall|k: int| 0 <= k < raw.len() implies block[k] == raw[k] by {}
    if min_header {
        assert(block[0] == flags | 0x80u8);
        assert((flags | 0x80u8) & 0x80u8 != 0 && (flags | 0x80u8) & 0x7fu8 == flags) by (bit_vector)
            requires
                flags < 0x80,
        ;
    } else {
        assert(0x54u8 & 0x80u8 == 0) by (bit_vector);
        assert(block[0] == 0x54u8 && block[1] == 0x53u8 && block[2] == 0x43u8 && block[3] == flags);
    }
    assert(block.subrange(start, start + sig.len()) =~= sig) by {
        assert forall|k: int| 0 <= k < sig.len() implies block.subrange(start, start + sig.len())[k]
            == sig[k] by {
            assert(block[start + k] == raw[start + k]);
        }
    }
    assert(block.subrange(start + sig.len(), start + sig.len() + body.len()) =~= body) by {
        assert forall|k: int| 0 <= k < body.len() implies block.subrange(
            start + sig.len(),
            start + sig.len() + body.len(),
        )[k] == body[k] by {
            assert(block[start + sig.len() + k] == raw[start + sig.len() + k]);
        }
    }
}

/// A length field that holds its length reads back as the bytes it counts.
proof fn lemma_field_reads_back(block: Seq<u8>, i: int, bytes: Seq<u8>, min_header: bool)
    requires
        0 <= i,
        i + length_prefixed(min_header, bytes).len() <= block.len(),
        block.subrange(i, i + length_prefixed(min_header, bytes).len()) == length_prefixed(
            min_header,
            bytes,
        ),
        min_header ==> bytes.len() < 256,
        !min_header ==> bytes.len() <= u32::MAX,
    ensures
        spec_field(block, i, min_header) == Some((bytes, i + length_prefixed(min_header, bytes).len())),
{
    let lp = length_prefixed(min_header, bytes);
    let e = i + lp.len();
    assert forall|k: int| 0 <= k < lp.len() implies block[i + k] == lp[k] by {
        assert(block.subrange(i, e)[k] == lp[k]);
    }
    if min_header {
        assert(block[i] == lp[0]);
        assert(block[i] == bytes.len());
    } else {
        let v = bytes.len() as u32;
        lemma_be32_roundtrip(v);
        assert(block[i] == lp[0] && block[i + 1] == lp[1] && block[i + 2] == lp[2] && block[i + 3]
            == lp[3]);
        assert(read_be32(block, i) == read_be32(be32(v), 0));
        assert(read_be32(block, i) == bytes.len());
    }
    assert(block.subrange(e - bytes.len(), e) =~= bytes) by {
        assert forall|k: int| 0 <= k < bytes.len() implies block.subrange(e - bytes.len(), e)[k]
            == bytes[k] by {
            assert(block[e - bytes.len() + k] == lp[lp.len() - bytes.len() + k]);
        }
    }
}

/// A single packing, followed by anything, reads back as the packing laid it out.
proof fn lemma_single_shape(
    block: Seq<u8>,
    raw: Seq<u8>,
    body: Seq<u8>,
    data: Seq<u8>,
    password: Option<Seq<u8>>,
    sign_key: Option<Seq<u8>>,
    verify_key: Option<Seq<u8>>,
    min_header: bool,
    iv: Seq<u8>,
    ts: u64,
)
    requires
        single_packing(raw, body, data, password, sign_key, min_header, iv, ts),
        single_readable(body, data, sign_key, verify_key, min_header),
        raw.is_prefix_of(block),
    ensures
        single_layout(block, data, password, sign_key, verify_key, min_header, iv, ts),
{
    let (stored, compressed) = spec_stored(data);
    let binary = spec_is_binary(data);
    let flags = single_flags(binary, compressed, password is Some, sign_key is Some);
    let enc = encrypted_with(password, stored, iv, ts);
    let sig = sig_block(sign_key, body, min_header);
    let start: int = if min_header {
        1
    } else {
        4
    };
    let sig_size: int = if min_header {
        16
    } else {
        32
    };
    let idx = if sign_key is Some {
        start + sig_size
    } else {
        start
    };
    lemma_single_flags(binary, compressed, password is Some, sign_key is Some);
    assert(body == length_prefixed(min_header, enc));
    assert(raw == packed(flags, sig, body, min_header));
    assert(sig.len() == idx - start);
    lemma_packed_prefix(block, flags, sig, body, min_header);
    lemma_field_reads_back(block, idx, enc, min_header);
    if sign_key is Some && verify_key is Some {
        assert(hmac_sha256(verify_key.unwrap(), body) == hmac_sha256(sign_key.unwrap(), body));
    }
}

/// A signed single packing, followed by anything, whose signature the verification key does
/// not accept, is refused with a signature mismatch.
proof fn lemma_single_mismatch(
    block: Seq<u8>,
    raw: Seq<u8>,
    body: Seq<u8>,
    data: Seq<u8>,
    password: Option<Seq<u8>>,
    sign_key: Option<Seq<u8>>,
    verify_key: Option<Seq<u8>>,
    min_header: bool,
    iv: Seq<u8>,
    ts: u64,
)
    requires
        single_packing(raw, body, data, password, sign_key, min_header, iv, ts),
        single_field_fits(body, min_header),
        raw.is_prefix_of(block),
        sign_key is Some,
        verify_key is Some,
        !tag_matches(verify_key.unwrap(), body, sig_block(sign_key, body, min_header)),
    ensures
        spec_unpack(block, password, verify_key) == Err::<PayloadView, UnpackFailure>(
            UnpackFailure::SignatureMismatch,
        ),
{
    let (stored, compressed) = spec_stored(data);
    let binary = spec_is_binary(data);
    let flags = single_flags(binary, compressed, password is Some, true);
    let enc = encrypted_with(password, stored, iv, ts);
    let sig = sig_block(sign_key, body, min_header);
    let start: int = if min_header {
        1
    } else {
        4
    };
    let sig_size: int = if min_header {
        16
    } else {
        32
    };
    let idx = start + sig_size;
    lemma_single_flags(binary, compressed, password is Some, true);
    assert(body == length_prefixed(min_header, enc));
    assert(raw == packed(flags, sig, body, min_header));
    assert(sig.len() == idx - start);
    lemma_packed_prefix(block, flags, sig, body, min_header);
    lemma_field_reads_back(block, idx, enc, min_header);
    let e = idx + body.len();
    assert(spec_body_end(block, idx, min_header, false) == Some(e));
    assert(block.subrange(idx, e) == body);
    assert(block.subrange(start, start + sig_size) == sig);
}

/// Whether the fields of a dual packing can be read back: its length fields hold the public
/// and private lengths (below 256 in the minimal header, below 2^32 otherwise), and a
/// verification key, where the block is signed, is the signing key.
pub open spec fn dual_fields_fit(
    body: Seq<u8>,
    public_data: Seq<u8>,
    sign_key: Option<Seq<u8>>,
    verify_key: Option<Seq<u8>>,
    min_header: bool,
) -> bool {
    &&& if min_header {
        public_data.len() < 256 && body.len() < public_data.len() + 258
    } else {
        public_data.len() <= u32::MAX && body.len() <= public_data.len() + 8 + u32::MAX
    }
    &&& (sign_key is Some && verify_key is Some ==> verify_key.unwrap() == sign_key.unwrap())
}

/// Whether private data, when it is stored compressed, fits the 10 MiB decompression limit.
pub open spec fn private_fits(private_data: Seq<u8>) -> bool {
    spec_private_stored(private_data)[0] == 1 ==> private_data.len() <= 10485760
}

/// Whether a dual packing can be read back: its fields can, and private data stored
/// compressed fits the 10 MiB decompression limit.
pub open spec fn dual_readable(
    body: Seq<u8>,
    public_data: Seq<u8>,
    private_data: Seq<u8>,
    sign_key: Option<Seq<u8>>,
    verify_key: Option<Seq<u8>>,
    min_header: bool,
) -> bool {
    &&& dual_fields_fit(body, public_data, sign_key, verify_key, min_header)
    &&& private_fits(private_data)
}

/// How a padded dual packing reads: its header and flags, its signature region, its two
/// fields, and a signature that the verification key accepts.
spec fn dual_layout(
    block: Seq<u8>,
    public_data: Seq<u8>,
    private_data: Seq<u8>,
    password: Option<Seq<u8>>,
    sign_key: Option<Seq<u8>>,
    verify_key: Option<Seq<u8>>,
    min_header: bool,
    iv: Seq<u8>,
    ts: u64,
) -> bool {
    let flags = dual_flags(password is Some, sign_key is Some);
    let start: int = if min_header {
        1
    } else {
        4
    };
    let sig_size: int = if min_header {
        16
    } else {
        32
    };
    let idx = if sign_key is Some {
        start + sig_size
    } else {
        start
    };
    &&& block.len() >= 2
    &&& spec_header(block) == Some((min_header, flags, start))
    &&& (flags & FLAG_ENCRYPTED != 0) == (password is Some)
    &&& (flags & FLAG_SIGNED != 0) == (sign_key is Some)
    &&& flags & FLAG_DUAL != 0
    &&& (sign_key is Some ==> block.len() >= start + sig_size)
    &&& match spec_field(block, idx, min_header) {
        Some((p1, e1)) => {
            &&& p1 == public_data
            &&& match spec_field(block, e1, min_header) {
                Some((p2, e2)) => {
                    &&& p2 == encrypted_with(password, spec_private_stored(private_data), iv, ts)
                    &&& (sign_key is Some && verify_key is Some ==> tag_matches(
                        verify_key.unwrap(),
                        block.subrange(idx, e2),
                        block.subrange(start, start + sig_size),
                    ))
                },
                None => false,
            }
        },
        None => false,
    }
}

proof fn lemma_dual_flags(e: bool, s: bool)
    ensures
        dual_flags(e, s) < 0x80,
        (dual_flags(e, s) & FLAG_ENCRYPTED != 0) == e,
        (dual_flags(e, s) & FLAG_SIGNED != 0) == s,
        dual_flags(e, s) & FLAG_DUAL != 0,
{
    let f = dual_flags(e, s);
    assert(f == 8u8 | (if e {
        2u8
    } else {
        0u8
    }) | (if s {
        4u8
    } else {
        0u8
    }));
    assert(f < 0x80 && (f & 2u8 != 0) == e && (f & 4u8 != 0) == s && f & 8u8 != 0) by (bit_vector)
        requires
            f == 8u8 | (if e {
                2u8
            } else {
                0u8
            }) | (if s {
                4u8
            } else {
                0u8
            }),
    ;
}

/// A dual packing, followed by anything, reads back as the packing laid it out.
proof fn lemma_dual_shape(
    block: Seq<u8>,
    raw: Seq<u8>,
    body: Seq<u8>,
    public_data: Seq<u8>,
    private_data: Seq<u8>,
    password: Option<Seq<u8>>,
    sign_key: Option<Seq<u8>>,
    verify_key: Option<Seq<u8>>,
    min_header: bool,
    iv: Seq<u8>,
    ts: u64,
)
    requires
        dual_packing(raw, body, public_data, private_data, password, sign_key, min_header, iv, ts),
        dual_fields_fit(body, public_data, sign_key, verify_key, min_header),
        raw.is_prefix_of(block),
    ensures
        dual_layout(
            block,
            public_data,
            private_data,
            password,
            sign_key,
            verify_key,
            min_header,
            iv,
            ts,
        ),
{
    let enc = encrypted_with(password, spec_private_stored(private_data), iv, ts);
    let flags = dual_flags(password is Some, sign_key is Some);
    let sig = sig_block(sign_key, body, min_header);
    let lp1 = length_prefixed(min_header, public_data);
    let lp2 = length_prefixed(min_header, enc);
    let start: int = if min_header {
        1
    } else {
        4
    };
    let sig_size: int = if min_header {
        16
    } else {
        32
    };
    let idx = if sign_key is Some {
        start + sig_size
    } else {
        start
    };
    lemma_dual_flags(password is Some, sign_key is Some);
    assert(body == lp1 + lp2);
    assert(raw == packed(flags, sig, body, min_header));
    assert(sig.len() == idx - start);
    lemma_packed_prefix(block, flags, sig, body, min_header);
    let b = block.subrange(idx, idx + body.len());
    assert(b == body);
    assert(block.subrange(idx, idx + lp1.len()) =~= lp1) by {
        assert forall|k: int| 0 <= k < lp1.len() implies block.subrange(idx, idx + lp1.len())[k]
            == lp1[k] by {
            assert(b[k] == body[k]);
        }
    }
    assert(block.subrange(idx + lp1.len(), idx + lp1.len() + lp2.len()) =~= lp2) by {
        assert forall|k: int| 0 <= k < lp2.len() implies block.subrange(
            idx + lp1.len(),
            idx + lp1.len() + lp2.len(),
        )[k] == lp2[k] by {
            assert(b[lp1.len() + k] == body[lp1.len() + k]);
        }
    }
    lemma_field_reads_back(block, idx, public_data, min_header);
    lemma_field_reads_back(block, idx + lp1.len(), enc, min_header);
    if sign_key is Some && verify_key is Some {
        assert(hmac_sha256(verify_key.unwrap(), body) == hmac_sha256(sign_key.unwrap(), body));
        assert(block.subrange(idx, idx + lp1.len() + lp2.len()) == body);
    }
}

/// Packing, and unpacking, of a code's content.
pub struct Payload;

impl Payload {
    /// Packs a single payload: compressed with zstd when that is shorter, encrypted under
    /// `password` if given, length-prefixed, signed with `sign_key` if given, behind the full or
    /// minimal header. Returns the packed block and the body.
    pub fn prepare_single(
        data: &[u8],
        password: Option<&str>,
        sign_key: Option<&str>,
        min_header: bool,
    ) -> (r: Result<(Vec<u8>, Vec<u8>), TSpineError>)
        requires
            data@.len() <= usize::MAX / 4,
        ensures
            r is Ok,
            r matches Ok(p) ==> exists|iv: Seq<u8>, ts: u64|
                #![trigger encryption_ok(key_bytes(password), spec_stored(data@).0, iv, ts)]
                single_packing(
                    p.0@,
                    p.1@,
                    data@,
                    key_bytes(password),
                    key_bytes(sign_key),
                    min_header,
                    iv,
                    ts,
                ),
    {
        let binary = Self::is_binary(data);
        let compressed = match zstd_compress(data, 22) {
            Some(c) => c,
            None => slice_to_vec(data),
        };
        let (payload_bytes, is_comp) = if compressed.len() < data.len() {
            (compressed, true)
        } else {
            (slice_to_vec(data), false)
        };
        let ghost stored = payload_bytes@;
        assert((stored, is_comp) == spec_stored(data@));
        let ghost mut iv_used: Seq<u8> = seq![];
        let ghost mut ts_used: u64 = 0;
        let encrypted = match password {
            Some(pwd) => {
                let sl = payload_bytes.as_slice();
                let t = Crypto::encrypt_fernet(pwd, sl);
                proof {
                    let (iv, ts) = choose|iv: Seq<u8>, ts: u64|
                        fernet_parts_ok(pwd.spec_bytes(), sl@, iv, ts) && t@ == fernet_token(
                            pwd.spec_bytes(),
                            sl@,
                            iv,
                            ts,
                        );
                    iv_used = iv;
                    ts_used = ts;
                }
                t
            },
            None => payload_bytes,
        };
        let flags: u8 = (if binary {
            FLAG_BINARY
        } else {
            0u8
        }) | (if is_comp {
            FLAG_COMPRESSED
        } else {
            0u8
        }) | (if password.is_some() {
            FLAG_ENCRYPTED
        } else {
            0u8
        }) | (if sign_key.is_some() {
            FLAG_SIGNED
        } else {
            0u8
        });
        let mut body: Vec<u8> = Vec::new();
        push_length_prefixed(&mut body, encrypted.as_slice(), min_header);
        let sig = sign_block(sign_key, body.as_slice(), min_header);
        let raw = pack(flags, sig.as_slice(), body.as_slice(), min_header);
        proof {
            assert(body@ =~= length_prefixed(min_header, encrypted@));
            assert(single_packing(
                raw@,
                body@,
                data@,
                key_bytes(password),
                key_bytes(sign_key),
                min_header,
                iv_used,
                ts_used,
            ));
        }
        Ok((raw, body))
    }

    /// Packs a dual payload: the public bytes as they are; the private bytes behind a
    /// compression byte, compressed when that is shorter, encrypted under `password` if given;
    /// signed with `sign_key` if given.
    pub fn prepare_dual(
        public_data: &[u8],
        private_data: &[u8],
        password: Option<&str>,
        sign_key: Option<&str>,
        min_header: bool,
    ) -> (r: Result<(Vec<u8>, Vec<u8>), TSpineError>)
        requires
            private_data@.len() < usize::MAX / 4,
        ensures
            r is Ok,
            r matches Ok(p) ==> exists|iv: Seq<u8>, ts: u64|
                #![trigger encryption_ok(key_bytes(password), spec_private_stored(private_data@), iv, ts)]
                dual_packing(
                    p.0@,
                    p.1@,
                    public_data@,
                    private_data@,
                    key_bytes(password),
                    key_bytes(sign_key),
                    min_header,
                    iv,
                    ts,
                ),
    {
        let compressed_priv = match zstd_compress(private_data, 22) {
            Some(c) => c,
            None => slice_to_vec(private_data),
        };
        let mut priv_payload: Vec<u8> = Vec::new();
        if compressed_priv.len() < private_data.len() {
            priv_payload.push(1u8);
            let mut c = compressed_priv;
            priv_payload.append(&mut c);
        } else {
            priv_payload.push(0u8);
            let mut c = slice_to_vec(private_data);
            priv_payload.append(&mut c);
        }
        let ghost stored = priv_payload@;
        assert(stored =~= spec_private_stored(private_data@));
        let ghost mut iv_used: Seq<u8> = seq![];
        let ghost mut ts_used: u64 = 0;
        let priv_final = match password {
            Some(pwd) => {
                let sl = priv_payload.as_slice();
                assert(sl@ == stored);
                let t = Crypto::encrypt_fernet(pwd, sl);
                proof {
                    let (iv, ts) = choose|iv: Seq<u8>, ts: u64|
                        fernet_parts_ok(pwd.spec_bytes(), sl@, iv, ts) && t@ == fernet_token(
                            pwd.spec_bytes(),
                            sl@,
                            iv,
                            ts,
                        );
                    iv_used = iv;
                    ts_used = ts;
                }
                t
            },
            None => priv_payload,
        };
        let flags: u8 = FLAG_DUAL | (if password.is_some() {
            FLAG_ENCRYPTED
        } else {
            0u8
        }) | (if sign_key.is_some() {
            FLAG_SIGNED
        } else {
            0u8
        });
        let mut body: Vec<u8> = Vec::new();
        push_length_prefixed(&mut body, public_data, min_header);
        push_length_prefixed(&mut body, priv_final.as_slice(), min_header);
        let sig = sign_block(sign_key, body.as_slice(), min_header);
        let raw = pack(flags, sig.as_slice(), body.as_slice(), min_header);
        proof {
            assert(body@ =~= length_prefixed(min_header, public_data@) + length_prefixed(
                min_header,
                priv_final@,
            ));
            assert(dual_packing(
                raw@,
                body@,
                public_data@,
                private_data@,
                key_bytes(password),
                key_bytes(sign_key),
                min_header,
                iv_used,
                ts_used,
            ));
            assert(encryption_ok(
                key_bytes(password),
                spec_private_stored(private_data@),
                iv_used,
                ts_used,
            ));
        }
        Ok((raw, body))
    }

    /// Whether `data` is stored as binary: it is not UTF-8, or one of its first 1024 bytes is
    /// zero.
    pub fn is_binary(data: &[u8]) -> (b: bool)
        ensures
            b == spec_is_binary(data@),
    {
        match utf8_str(data) {
            Some(s) => {
                let bytes = s.as_bytes();
                let mut i: usize = 0;
                while i < bytes.len() && i < 1024
                    invariant
                        bytes@ == data@,
                        i <= bytes@.len(),
                        forall|j: int| 0 <= j < i ==> bytes@[j] != 0,
                    decreases bytes@.len() - i,
                {
                    if bytes[i] == 0 {
                        return true;
                    }
                    i += 1;
                }
                false
            },
            None => true,
        }
    }

    /// Reads a block back: checks its header and, when it is signed and `verify_key` is given,
    /// its signature; then decrypts, decompresses and decodes a single payload, or reads the
    /// public and private texts of a dual one. A packing made by `prepare_single`, followed by
    /// anything, unpacks to what was packed when its length field holds the payload's length,
    /// compressed data fits the decompression limit and the verification key, if any, signed
    /// it; a signed one whose signature the verification key does not accept is refused with
    /// a signature mismatch. One made by `prepare_dual` unpacks, under the same password, to
    /// the texts of its public and private bytes when its length fields hold their lengths, the
    /// private bytes fit the 10 MiB limit and the verification key, if any, signed it; an
    /// encrypted one gives its public text with a note in place of the private one without a
    /// password, and with another note under a password whose HMAC key refuses the token.
    pub fn unpack(block: &[u8], password: Option<&str>, verify_key: Option<&str>) -> (r: Result<
        DecodedPayload,
        TSpineError,
    >)
        ensures
            result_is(r, spec_unpack(block@, key_bytes(password), key_bytes(verify_key))),
            forall|
                raw: Seq<u8>,
                body: Seq<u8>,
                data: Seq<u8>,
                sign_key: Option<Seq<u8>>,
                min_header: bool,
                iv: Seq<u8>,
                ts: u64,
            |
                #[trigger] single_packing(
                    raw,
                    body,
                    data,
                    key_bytes(password),
                    sign_key,
                    min_header,
                    iv,
                    ts,
                )
                    && single_readable(body, data, sign_key, key_bytes(verify_key), min_header)
                    && raw.is_prefix_of(block@) ==> (r matches Ok(d) && d@ == single_view(data)),
            forall|
                raw: Seq<u8>,
                body: Seq<u8>,
                data: Seq<u8>,
                pwd: Option<Seq<u8>>,
                sign_key: Option<Seq<u8>>,
                min_header: bool,
                iv: Seq<u8>,
                ts: u64,
            |
                #[trigger] single_packing(raw, body, data, pwd, sign_key, min_header, iv, ts)
                    && single_field_fits(body, min_header) && raw.is_prefix_of(block@)
                    && sign_key is Some && verify_key is Some && !tag_matches(
                    key_bytes(verify_key).unwrap(),
                    body,
                    sig_block(sign_key, body, min_header),
                ) ==> r == Err::<DecodedPayload, TSpineError>(TSpineError::SignatureMismatch),
            forall|
                raw: Seq<u8>,
                body: Seq<u8>,
                public_data: Seq<u8>,
                private_data: Seq<u8>,
                sign_key: Option<Seq<u8>>,
                min_header: bool,
                iv: Seq<u8>,
                ts: u64,
            |
                #[trigger] dual_packing(
                    raw,
                    body,
                    public_data,
                    private_data,
                    key_bytes(password),
                    sign_key,
                    min_header,
                    iv,
                    ts,
                ) && dual_readable(
                    body,
                    public_data,
                    private_data,
                    sign_key,
                    key_bytes(verify_key),
                    min_header,
                ) && raw.is_prefix_of(block@) ==> (r matches Ok(d) && d@ == PayloadView::Dual(
                    lossy_text(public_data),
                    lossy_text(private_data),
                )),
            password is None ==> forall|
                raw: Seq<u8>,
                body: Seq<u8>,
                public_data: Seq<u8>,
                private_data: Seq<u8>,
                pw: Seq<u8>,
                sign_key: Option<Seq<u8>>,
                min_header: bool,
                iv: Seq<u8>,
                ts: u64,
            |
                #[trigger] dual_packing(
                    raw,
                    body,
                    public_data,
                    private_data,
                    Some(pw),
                    sign_key,
                    min_header,
                    iv,
                    ts,
                ) && dual_fields_fit(body, public_data, sign_key, key_bytes(verify_key), min_header)
                    && raw.is_prefix_of(block@) ==> (r matches Ok(d) && d@ == PayloadView::Dual(
                    lossy_text(public_data),
                    "[Pass password to decrypt]"@,
                )),
            password is Some ==> forall|
                raw: Seq<u8>,
                body: Seq<u8>,
                public_data: Seq<u8>,
                private_data: Seq<u8>,
                pw: Seq<u8>,
                sign_key: Option<Seq<u8>>,
                min_header: bool,
                iv: Seq<u8>,
                ts: u64,
            |
                #[trigger] dual_packing(
                    raw,
                    body,
                    public_data,
                    private_data,
                    Some(pw),
                    sign_key,
                    min_header,
                    iv,
                    ts,
                ) && dual_fields_fit(body, public_data, sign_key, key_bytes(verify_key), min_header)
                    && raw.is_prefix_of(block@) && hmac_sha256(
                    spec_sign_key(key_bytes(password).unwrap()),
                    fernet_msg(pw, spec_private_stored(private_data), iv, ts),
                ) != hmac_sha256(
                    spec_sign_key(pw),
                    fernet_msg(pw, spec_private_stored(private_data), iv, ts),
                ) ==> (r matches Ok(d) && d@ == PayloadView::Dual(
                    lossy_text(public_data),
                    "[Incorrect password]"@,
                )),
    {
        proof {
            assert forall|
                raw: Seq<u8>,
                body: Seq<u8>,
                public_data: Seq<u8>,
                private_data: Seq<u8>,
                sign_key: Option<Seq<u8>>,
                min_header: bool,
                iv: Seq<u8>,
                ts: u64,
            |
                #[trigger] dual_packing(
                    raw,
                    body,
                    public_data,
                    private_data,
                    key_bytes(password),
                    sign_key,
                    min_header,
                    iv,
                    ts,
                ) && dual_readable(
                    body,
                    public_data,
                    private_data,
                    sign_key,
                    key_bytes(verify_key),
                    min_header,
                ) && raw.is_prefix_of(block@) implies dual_layout(
                block@,
                public_data,
                private_data,
                key_bytes(password),
                sign_key,
                key_bytes(verify_key),
                min_header,
                iv,
                ts,
            ) by {
                lemma_dual_shape(
                    block@,
                    raw,
                    body,
                    public_data,
                    private_data,
                    key_bytes(password),
                    sign_key,
                    key_bytes(verify_key),
                    min_header,
                    iv,
                    ts,
                );
            }
            assert forall|
                raw: Seq<u8>,
                body: Seq<u8>,
                public_data: Seq<u8>,
                private_data: Seq<u8>,
                pw: Seq<u8>,
                sign_key: Option<Seq<u8>>,
                min_header: bool,
                iv: Seq<u8>,
                ts: u64,
            |
                #[trigger] dual_packing(
                    raw,
                    body,
                    public_data,
                    private_data,
                    Some(pw),
                    sign_key,
                    min_header,
                    iv,
                    ts,
                ) && dual_fields_fit(body, public_data, sign_key, key_bytes(verify_key), min_header)
                    && raw.is_prefix_of(block@) implies dual_layout(
                block@,
                public_data,
                private_data,
                Some(pw),
                sign_key,
                key_bytes(verify_key),
                min_header,
                iv,
                ts,
            ) by {
                lemma_dual_shape(
                    block@,
                    raw,
                    body,
                    public_data,
                    private_data,
                    Some(pw),
                    sign_key,
                    key_bytes(verify_key),
                    min_header,
                    iv,
                    ts,
                );
            }
            assert forall|
                raw: Seq<u8>,
                body: Seq<u8>,
                data: Seq<u8>,
                sign_key: Option<Seq<u8>>,
                min_header: bool,
                iv: Seq<u8>,
                ts: u64,
            |
                #[trigger] single_packing(
                    raw,
                    body,
                    data,
                    key_bytes(password),
                    sign_key,
                    min_header,
                    iv,
                    ts,
                )
                    && single_readable(body, data, sign_key, key_bytes(verify_key), min_header)
                    && raw.is_prefix_of(block@) implies single_layout(
                block@,
                data,
                key_bytes(password),
                sign_key,
                key_bytes(verify_key),
                min_header,
                iv,
                ts,
            ) by {
                lemma_single_shape(
                    block@,
                    raw,
                    body,
                    data,
                    key_bytes(password),
                    sign_key,
                    key_bytes(verify_key),
                    min_header,
                    iv,
                    ts,
                );
            }
        }
        proof {
            assert forall|
                raw: Seq<u8>,
                body: Seq<u8>,
                data: Seq<u8>,
                pwd: Option<Seq<u8>>,
                sign_key: Option<Seq<u8>>,
                min_header: bool,
                iv: Seq<u8>,
                ts: u64,
            |
                #[trigger] single_packing(raw, body, data, pwd, sign_key, min_header, iv, ts)
                    && single_field_fits(body, min_header) && raw.is_prefix_of(block@)
                    && sign_key is Some && verify_key is Some && !tag_matches(
                    key_bytes(verify_key).unwrap(),
                    body,
                    sig_block(sign_key, body, min_header),
                ) implies spec_unpack(block@, key_bytes(password), key_bytes(verify_key)) == Err::<
                PayloadView,
                UnpackFailure,
            >(UnpackFailure::SignatureMismatch) by {
                lemma_single_mismatch(
                    block@,
                    raw,
                    body,
                    data,
                    pwd,
                    sign_key,
                    key_bytes(verify_key),
                    min_header,
                    iv,
                    ts,
                );
            }
        }
        if block.len() < 2 {
            return Err(TSpineError::CorruptedBlock(block.len()));
        }
        let (is_min, flags, start): (bool, u8, usize) = if block[0] & 0x80 != 0 {
            (true, block[0] & 0x7f, 1)
        } else if block.len() >= 4 && block[0] == 0x54 && block[1] == 0x53 && block[2] == 0x43 {
            (false, block[3], 4)
        } else {
            return Err(TSpineError::InvalidHeader);
        };
        let compressed: bool = flags & FLAG_COMPRESSED != 0;
        let encrypted: bool = flags & FLAG_ENCRYPTED != 0;
        let signed: bool = flags & FLAG_SIGNED != 0;
        let dual: bool = flags & FLAG_DUAL != 0;
        let binary: bool = flags & FLAG_BINARY != 0;
        let sig_size: usize = if is_min {
            16
        } else {
            32
        };
        if signed && block.len() < start + sig_size {
            return Err(TSpineError::CorruptedSignature);
        }
        let idx: usize = if signed {
            start + sig_size
        } else {
            start
        };
        let (s1, e1): (usize, usize) = match read_field(block, idx, is_min) {
            Some(f) => f,
            None => {
                return Err(TSpineError::CorruptedBlock(block.len()));
            },
        };
        let (s2, e2): (usize, usize) = if dual {
            match read_field(block, e1, is_min) {
                Some(f) => f,
                None => {
                    return Err(TSpineError::CorruptedBlock(block.len()));
                },
            }
        } else {
            (e1, e1)
        };
        if signed {
            match verify_key {
                Some(vk) => {
                    let body = slice_subrange(block, idx, e2);
                    let sig = slice_subrange(block, start, start + sig_size);
                    if !Crypto::verify_hmac(vk, body, sig) {
                        return Err(TSpineError::SignatureMismatch);
                    }
                },
                None => {},
            }
        }
        if dual {
            let pub_text = utf8_lossy_string(slice_subrange(block, s1, e1));
            let priv_bytes = slice_subrange(block, s2, e2);
            let priv_text = if encrypted {
                match password {
                    Some(pwd) => match Crypto::decrypt_fernet(pwd, priv_bytes) {
                        Ok(d) => if d.len() > 0 {
                            private_text(d.as_slice())
                        } else {
                            "[Incorrect password]".to_owned()
                        },
                        Err(_) => "[Incorrect password]".to_owned(),
                    },
                    None => "[Pass password to decrypt]".to_owned(),
                }
            } else {
                private_text(priv_bytes)
            };
            Ok(DecodedPayload::Dual { public_data: pub_text, private_data: priv_text })
        } else {
            Self::unpack_payload(slice_subrange(block, s1, e1), password, encrypted, compressed, binary)
        }
    }

    /// Decrypts, decompresses and decodes the payload field of a single block.
    fn unpack_payload(
        payload: &[u8],
        password: Option<&str>,
        encrypted: bool,
        compressed: bool,
        binary: bool,
    ) -> (r: Result<DecodedPayload, TSpineError>)
        ensures
            result_is(
                r,
                spec_unpack_payload(payload@, key_bytes(password), encrypted, compressed, binary),
            ),
            forall|data: Seq<u8>, iv: Seq<u8>, ts: u64|
                #[trigger] encryption_ok(key_bytes(password), spec_stored(data).0, iv, ts)
                    && encrypted == (password is Some) && payload@ == encrypted_with(
                    key_bytes(password),
                    spec_stored(data).0,
                    iv,
                    ts,
                )
                    && compressed == spec_stored(data).1 && binary == spec_is_binary(data)
                    && (spec_stored(data).1 ==> data.len() <= 104857600) ==> (r matches Ok(d) && d@
                    == single_view(data)),
    {
        if encrypted && password.is_none() {
            return Err(TSpineError::PasswordRequired);
        }
        let decrypted: Vec<u8> = if encrypted {
            match Crypto::decrypt_fernet(password.unwrap(), payload) {
                Ok(v) => v,
                Err(e) => {
                    return Err(e);
                },
            }
        } else {
            slice_to_vec(payload)
        };
        let decompressed: Vec<u8> = if compressed {
            match zstd_decompress(decrypted.as_slice(), 104857600) {
                Ok(v) => v,
                Err(m) => {
                    return Err(TSpineError::Compression(m));
                },
            }
        } else {
            decrypted
        };
        if binary {
            Ok(DecodedPayload::Binary(decompressed))
        } else {
            match utf8_string(decompressed) {
                Some(s) => {
                    proof {
                        encode_utf8_decode_utf8(s@);
                    }
                    Ok(DecodedPayload::Text(s))
                },
                None => Err(TSpineError::Utf8Error),
            }
        }
    }
}

proof fn lemma_low_byte(x: usize)
    ensures
        (x & 0xffusize) as u8 == (x % 256) as u8,
{
    assert((x & 0xffusize) as u8 == (x % 256) as u8) by (bit_vector);
}

proof fn lemma_be32_roundtrip(v: u32)
    ensures
        read_be32(be32(v), 0) == v,
{
    assert(((v >> 24u32) & 0xffu32) as u8 as u32 * 16777216 + ((v >> 16u32) & 0xffu32) as u8 as u32
        * 65536 + ((v >> 8u32) & 0xffu32) as u8 as u32 * 256 + (v & 0xffu32) as u8 as u32 == v)
        by (bit_vector);
}

/// Appends `bytes` behind its length field.
fn push_length_prefixed(out: &mut Vec<u8>, bytes: &[u8], min_header: bool)
    ensures
        final(out)@ == old(out)@ + length_prefixed(min_header, bytes@),
{
    let ghost start = out@;
    let n = bytes.len();
    proof {
        lemma_low_byte(n);
    }
    if min_header {
        out.push((n & 0xFF) as u8);
    } else {
        let v = n as u32;
        out.push(((v >> 24) & 0xff) as u8);
        out.push(((v >> 16) & 0xff) as u8);
        out.push(((v >> 8) & 0xff) as u8);
        out.push((v & 0xff) as u8);
    }
    let mut copy = slice_to_vec(bytes);
    out.append(&mut copy);
    proof {
        if min_header {
            assert(out@ =~= start + length_prefixed(min_header, bytes@));
        } else {
            assert(out@ =~= start + length_prefixed(min_header, bytes@));
        }
    }
}

/// The signature block of `body`.
fn sign_block(sign_key: Option<&str>, body: &[u8], min_header: bool) -> (sig: Vec<u8>)
    ensures
        sig@ == sig_block(key_bytes(sign_key), body@, min_header),
        sign_key is Some ==> hmac_sha256(text_bytes(sign_key.unwrap()), body@).len() == 32,
{
    let mut sig: Vec<u8> = Vec::new();
    match sign_key {
        Some(key) => {
            let full = Crypto::sign_hmac(key, body);
            if min_header {
                sig = slice_to_vec(slice_subrange(full.as_slice(), 0, 16));
            } else {
                sig = slice_to_vec(full.as_slice());
            }
        },
        None => {},
    }
    sig
}

/// The packed block: header, signature block, body.
fn pack(flags: u8, sig: &[u8], body: &[u8], min_header: bool) -> (raw: Vec<u8>)
    ensures
        raw@ == packed(flags, sig@, body@, min_header),
{
    let mut raw: Vec<u8> = Vec::new();
    if min_header {
        raw.push(flags | 0x80);
    } else {
        raw.push(0x54);
        raw.push(0x53);
        raw.push(0x43);
        raw.push(flags);
    }
    let mut s = slice_to_vec(sig);
    raw.append(&mut s);
    let mut b = slice_to_vec(body);
    raw.append(&mut b);
    proof {
        assert(raw@ =~= packed(flags, sig@, body@, min_header));
    }
    raw
}

/// Where the length-prefixed field at `i` starts and ends.
fn read_field(block: &[u8], i: usize, min_header: bool) -> (r: Option<(usize, usize)>)
    ensures
        match spec_field(block@, i as int, min_header) {
            Some((b, e)) => r matches Some((s, e2)) && e2 == e && b == block@.subrange(s as int, e),
            None => r is None,
        },
        r matches Some((s, e)) ==> s <= e <= block@.len(),
{
    if min_header {
        if i >= block.len() {
            return None;
        }
        let l = block[i] as usize;
        if block.len() - i - 1 < l {
            return None;
        }
        Some((i + 1, i + 1 + l))
    } else {
        if i > block.len() || block.len() - i < 4 {
            return None;
        }
        let l = (block[i] as usize) * 16777216 + (block[i + 1] as usize) * 65536 + (block[i + 2]
            as usize) * 256 + (block[i + 3] as usize);
        assert(l == read_be32(block@, i as int));
        if block.len() - i - 4 < l {
            return None;
        }
        Some((i + 4, i + 4 + l))
    }
}

/// The text of the private part of a dual payload once decrypted.
fn private_text(p: &[u8]) -> (t: String)
    ensures
        t@ == spec_private_text(p@),
        forall|x: Seq<u8>|
            #[trigger] spec_private_stored(x) == p@ && private_fits(x) ==> t@ == lossy_text(x),
{
    if p.len() == 0 {
        proof {
            assert forall|x: Seq<u8>| #[trigger] spec_private_stored(x) != p@ by {
                assert(spec_private_stored(x).len() >= 1);
            }
        }
        return String::new();
    }
    let comp_flag = p[0];
    let raw_p = slice_subrange(p, 1, p.len());
    proof {
        assert(raw_p@ =~= p@.skip(1));
        assert forall|x: Seq<u8>| #[trigger] spec_private_stored(x) == p@ implies (p@[0] == 1
            && zstd_compressed(x, 22) == Some(raw_p@)) || (p@[0] == 0 && raw_p@ == x) by {
            assert(spec_private_stored(x)[0] == p@[0]);
            assert(spec_private_stored(x).skip(1) =~= raw_p@);
        }
    }
    if comp_flag == 1 {
        match zstd_decompress(raw_p, 10 * 1024 * 1024) {
            Ok(b) => utf8_lossy_string(b.as_slice()),
            Err(_) => "[Corrupted private data]".to_owned(),
        }
    } else {
        utf8_lossy_string(raw_p)
    }
}

} // verus!
