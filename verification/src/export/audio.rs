//! The symbols of the sound modem: a single payload, Reed-Solomon encoded, cut into runs of
//! bits, one tone each.
use vstd::prelude::*;

use crate::encoder::{read_symbol, stream_bits};
use crate::error::TSpineError;
use crate::payload::{key_bytes, single_packing, Payload};
use crate::rs::{is_rs_encoding, ReedSolomon};
use crate::types::{ColorMode, EccLevel};

verus! {

/// The calibration tone that announces `ecc` parity bytes: 3 for none, 0 up to 4, 1 up to 12,
/// 2 above.
pub open spec fn ecc_tone_index(ecc: nat) -> nat {
    if ecc == 0 {
        3
    } else if ecc <= 4 {
        0
    } else if ecc <= 12 {
        1
    } else {
        2
    }
}

/// The symbols that carry `enc`, `bpc` bits each, most significant first; the last padded
/// with zero bits.
pub open spec fn symbols_of(enc: Seq<u8>, bpc: nat) -> Seq<u8> {
    Seq::new(
        (enc.len() * 8 + bpc - 1) as nat / bpc,
        |k: int| stream_bits(enc, k * bpc, bpc) as u8,
    )
}

/// Turns payloads into the tones of the sound modem.
pub struct AudioModem;

impl AudioModem {
    /// The calibration tone that announces `ecc` parity bytes.
    pub fn ecc_tone(ecc: usize) -> (i: usize)
        ensures
            i == ecc_tone_index(ecc as nat),
    {
        if ecc == 0 {
            3
        } else if ecc <= 4 {
            0
        } else if ecc <= 12 {
            1
        } else {
            2
        }
    }

    /// The symbols that carry `data`: packed as a single payload (compressed, and encrypted
    /// under `password` if given, with the full header), Reed-Solomon encoded at level `ecc`,
    /// cut into runs of as many bits as a cell of `mode` holds; with the calibration tone of
    /// the level. Fails exactly when the encoding has more bits than a `usize` counts.
    pub fn modulate(data: &[u8], mode: ColorMode, ecc: EccLevel, password: Option<&str>) -> (r: Result<
        (Vec<u8>, usize),
        TSpineError,
    >)
        requires
            data@.len() <= usize::MAX / 4,
            ecc.spec_parity_bytes() < 255,
        ensures
            r matches Ok((symbols, tone)) ==> tone == ecc_tone_index(ecc.spec_parity_bytes())
                && exists|raw: Seq<u8>, body: Seq<u8>, iv: Seq<u8>, ts: u64, enc: Seq<u8>|
                #![trigger single_packing(raw, body, data@, key_bytes(password), None, false, iv, ts), is_rs_encoding(raw, enc, ecc.spec_parity_bytes())]
                single_packing(raw, body, data@, key_bytes(password), None, false, iv, ts)
                    && is_rs_encoding(raw, enc, ecc.spec_parity_bytes()) && symbols@ == symbols_of(
                    enc,
                    mode.spec_bits_per_cell(),
                ),
            r matches Ok((symbols, tone)) ==> exists|raw: Seq<u8>, body: Seq<u8>, iv: Seq<u8>, ts: u64, enc: Seq<u8>|
                #![trigger single_packing(raw, body, data@, key_bytes(password), None, false, iv, ts), is_rs_encoding(raw, enc, ecc.spec_parity_bytes())]
                single_packing(raw, body, data@, key_bytes(password), None, false, iv, ts)
                    && is_rs_encoding(raw, enc, ecc.spec_parity_bytes()) && enc.len() <= usize::MAX / 8,
            r matches Err(e) ==> e is DataTooLarge && exists|raw: Seq<u8>, body: Seq<u8>, iv: Seq<u8>, ts: u64, enc: Seq<u8>|
                #![trigger single_packing(raw, body, data@, key_bytes(password), None, false, iv, ts), is_rs_encoding(raw, enc, ecc.spec_parity_bytes())]
                single_packing(raw, body, data@, key_bytes(password), None, false, iv, ts)
                    && is_rs_encoding(raw, enc, ecc.spec_parity_bytes()) && enc.len() > usize::MAX / 8,
    {
        let (raw, body) = match Payload::prepare_single(data, password, None, false) {
            Ok(p) => p,
            Err(e) => {
                return Err(e);
            },
        };
        let ghost (iv, ts) = choose|iv: Seq<u8>, ts: u64|
            #![trigger crate::payload::encryption_ok(key_bytes(password), crate::payload::spec_stored(data@).0, iv, ts)]
            single_packing(raw@, body@, data@, key_bytes(password), key_bytes(None), false, iv, ts);
        let ecc_b = ecc.parity_bytes();
        let rs = ReedSolomon::new(ecc_b);
        let encoded = rs.encode(raw.as_slice());
        let bpc = mode.bits_per_cell();
        if encoded.len() > usize::MAX / 8 {
            proof {
                assert(single_packing(raw@, body@, data@, key_bytes(password), None, false, iv, ts));
                assert(is_rs_encoding(raw@, encoded@, ecc.spec_parity_bytes()));
            }
            return Err(TSpineError::DataTooLarge { required: encoded.len(), capacity: usize::MAX / 8 });
        }
        let nsym = (encoded.len() * 8 + bpc - 1) / bpc;
        let mut symbols: Vec<u8> = Vec::new();
        let mut k: usize = 0;
        while k < nsym
            invariant
                k <= nsym,
                nsym == (encoded@.len() * 8 + bpc - 1) / bpc as int,
                encoded@.len() <= usize::MAX / 8,
                1 <= bpc <= 3,
                bpc == mode.spec_bits_per_cell(),
                symbols@.len() == k,
                forall|j: int| 0 <= j < k ==> #[trigger] symbols@[j] == symbols_of(encoded@, bpc as nat)[j],
            decreases nsym - k,
        {
            assert(k * bpc + bpc <= encoded@.len() * 8 + 2 * bpc) by (nonlinear_arith)
                requires
                    k < nsym,
                    nsym == (encoded@.len() * 8 + bpc - 1) / bpc as int,
                    bpc >= 1,
            ;
            let s = read_symbol(encoded.as_slice(), k * bpc, bpc);
            symbols.push(s);
            k += 1;
        }
        proof {
            assert(symbols@ =~= symbols_of(encoded@, bpc as nat));
            assert(single_packing(raw@, body@, data@, key_bytes(password), None, false, iv, ts));
            assert(is_rs_encoding(raw@, encoded@, ecc.spec_parity_bytes()));
        }
        Ok((symbols, Self::ecc_tone(ecc_b)))
    }
}

} // verus!
