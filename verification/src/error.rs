//! The library's error type.
use vstd::prelude::*;
use vstd::string::StringExecFns;

use crate::text::{decimal, push_decimal};

verus! {

/// Everything that can go wrong while encoding or decoding a code.
#[derive(Debug, Clone, PartialEq, Eq)]
pub enum TSpineError {
    /// The payload needs `required` bytes but the chosen grid holds `capacity`.
    DataTooLarge { required: usize, capacity: usize },
    /// No grid up to 251x251 holds the payload; `size` is the first size past the limit.
    SizeExceedsLimit { size: usize },
    /// A decoded block is shorter than the smallest header; holds the block's length.
    CorruptedBlock(usize),
    /// The block carries neither the full nor the minimal header.
    InvalidHeader,
    /// The payload is encrypted and no password was given.
    PasswordRequired,
    /// Decryption or its integrity check failed.
    DecryptionFailed,
    /// The signature does not match the verification key.
    SignatureMismatch,
    /// The block ends inside its signature.
    CorruptedSignature,
    /// Reed-Solomon decoding gave up on a block.
    ReedSolomon(String),
    /// Decompression failed; holds the decompressor's message.
    Compression(String),
    /// Audio demodulation failed.
    Audio(String),
    /// Image scanning failed.
    ScanFailed(String),
    /// A text payload is not valid UTF-8.
    Utf8Error,
}

/// The message of an error, as it is displayed.
pub open spec fn error_message(e: TSpineError) -> Seq<char> {
    match e {
        TSpineError::DataTooLarge { required, capacity } => "Data too large: requires "@ + decimal(
            required as nat,
        ) + " bytes, but maximum capacity is "@ + decimal(capacity as nat) + " bytes"@,
        TSpineError::SizeExceedsLimit { size } => "Data too large for single TSC: grid size "@
            + decimal(size as nat) + " exceeds limit of 251x251"@,
        TSpineError::CorruptedBlock(n) => "Corrupted payload block: expected at least 2 bytes, got "@
            + decimal(n as nat),
        TSpineError::InvalidHeader => "Invalid T-Spine Code header"@,
        TSpineError::PasswordRequired => "Data is encrypted: provide password to decrypt"@,
        TSpineError::DecryptionFailed => "Failed to decrypt payload: invalid password or corrupted data"@,
        TSpineError::SignatureMismatch => "Signature verification failed: signature does not match"@,
        TSpineError::CorruptedSignature => "Corrupted signature in header"@,
        TSpineError::ReedSolomon(m) => "Reed-Solomon decoding error: "@ + m@,
        TSpineError::Compression(m) => "Compression error: "@ + m@,
        TSpineError::Audio(m) => "Audio decoding error: "@ + m@,
        TSpineError::ScanFailed(m) => "Image scanning error: "@ + m@,
        TSpineError::Utf8Error => "Invalid UTF-8 payload"@,
    }
}

impl TSpineError {
    /// The error's message.
    pub fn message(&self) -> (s: String)
        ensures
            s@ == error_message(*self),
    {
        let mut out = String::new();
        match self {
            TSpineError::DataTooLarge { required, capacity } => {
                out.append("Data too large: requires ");
                push_decimal(&mut out, *required as u64);
                out.append(" bytes, but maximum capacity is ");
                push_decimal(&mut out, *capacity as u64);
                out.append(" bytes");
            },
            TSpineError::SizeExceedsLimit { size } => {
                out.append("Data too large for single TSC: grid size ");
                push_decimal(&mut out, *size as u64);
                out.append(" exceeds limit of 251x251");
            },
            TSpineError::CorruptedBlock(n) => {
                out.append("Corrupted payload block: expected at least 2 bytes, got ");
                push_decimal(&mut out, *n as u64);
            },
            TSpineError::InvalidHeader => out.append("Invalid T-Spine Code header"),
            TSpineError::PasswordRequired => out.append("Data is encrypted: provide password to decrypt"),
            TSpineError::DecryptionFailed => out.append(
                "Failed to decrypt payload: invalid password or corrupted data",
            ),
            TSpineError::SignatureMismatch => out.append(
                "Signature verification failed: signature does not match",
            ),
            TSpineError::CorruptedSignature => out.append("Corrupted signature in header"),
            TSpineError::ReedSolomon(m) => {
                out.append("Reed-Solomon decoding error: ");
                out.append(m.as_str());
            },
            TSpineError::Compression(m) => {
                out.append("Compression error: ");
                out.append(m.as_str());
            },
            TSpineError::Audio(m) => {
                out.append("Audio decoding error: ");
                out.append(m.as_str());
            },
            TSpineError::ScanFailed(m) => {
                out.append("Image scanning error: ");
                out.append(m.as_str());
            },
            TSpineError::Utf8Error => out.append("Invalid UTF-8 payload"),
        }
        proof {
            assert(out@ =~= error_message(*self));
        }
        out
    }
}

} // verus!
