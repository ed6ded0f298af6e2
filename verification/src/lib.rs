//! T-Spine Code (TSC): a 2D matrix barcode with a roof-and-spine finder,
//! 2/4/8-colour cells, Reed-Solomon error correction, optional compression,
//! encryption and HMAC signatures.
pub mod error;
pub mod gf;
pub mod poly;
pub mod distance;
pub mod rs;
pub mod types;
pub mod grid;
pub mod crypto;
pub mod payload;
pub mod encoder;
pub mod decoder;
pub mod text;
pub mod export;
pub mod scanner;
pub mod service;

pub use decoder::TSpineDecoder;
pub use encoder::TSpineEncoder;
pub use error::TSpineError;
pub use grid::Grid;
pub use types::{ColorMode, DecodedPayload, EccLevel, Metadata, Rgb};

use vstd::prelude::*;

verus! {

} // verus!
