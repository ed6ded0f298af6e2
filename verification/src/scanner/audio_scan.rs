//! Reading a payload back from the symbols the sound modem heard.
use vstd::prelude::*;

use crate::decoder::{lemma_bits_value_stream, lemma_stream_byte, lemma_symbol_bit, pack_bits, pack_bytes};
use crate::encoder::stream_bit;
use crate::error::TSpineError;
use crate::export::audio::{ecc_tone_index, symbols_of};
use crate::payload::{
    error_is, key_bytes, single_packing, single_readable, single_view, spec_unpack, Payload,
    PayloadView, UnpackFailure,
};
use crate::rs::{
    blocks_hold_parity, is_rs_encoding, lemma_decode_inverts_encode, ReedSolomon,
};
use crate::types::{ColorMode, DecodedPayload, EccLevel};

verus! {

/// The bits the symbols carry, `bpc` to a symbol, most significant first.
pub open spec fn symbol_bits(symbols: Seq<u8>, bpc: nat) -> Seq<u8> {
    Seq::new(
        symbols.len() * bpc,
        |i: int| (symbols[i / bpc as int] >> ((bpc - 1 - i % bpc as int) as u8)) & 1u8,
    )
}

/// The number of tones and the parity bytes the calibration announces: with fewer than two
/// calibration tones, 8 tones and 4 parity bytes; else 8, 4 or 2 tones as at least 8, 4 or
/// fewer colour tones were heard, and 4, 12, 28 or no parity bytes for the parity tone 0, 1,
/// 2 or another.
pub open spec fn calibration(calib_tones: nat, ecc_index: nat) -> (nat, nat) {
    if calib_tones < 2 {
        (8, 4)
    } else {
        let n = (calib_tones - 1) as nat;
        let nt: nat = if n >= 8 {
            8
        } else if n >= 4 {
            4
        } else {
            2
        };
        let eb: nat = if ecc_index == 0 {
            4
        } else if ecc_index == 1 {
            12
        } else if ecc_index == 2 {
            28
        } else {
            0
        };
        (nt, eb)
    }
}

/// The calibration the scanner reads off the tones the modem plays before its symbols, one
/// per colour of the mode and then the parity tone of the level, announces as many tones as
/// the mode has colours, symbols of as many bits as a cell of the mode holds, and the parity
/// bytes of the level: exactly for no parity and for 4, 12 or 28 bytes, else the next of
/// these above it (28 past 12).
pub proof fn lemma_modem_calibration_read_back(mode: ColorMode, ecc: EccLevel)
    ensures
        ({
            let p = ecc.spec_parity_bytes();
            let (nt, eb) = calibration(mode.spec_num_colors() + 1, ecc_tone_index(p));
            &&& nt == mode.spec_num_colors()
            &&& (if nt == 8 {
                3nat
            } else if nt == 4 {
                2nat
            } else {
                1nat
            }) == mode.spec_bits_per_cell()
            &&& (p == 0 || p == 4 || p == 12 || p == 28) ==> eb == p
            &&& 0 < p < 4 ==> eb == 4
            &&& 4 < p < 12 ==> eb == 12
            &&& 12 < p ==> eb == 28
        }),
{
}

/// Reads payloads back from the tones of the sound modem.
pub struct AudioScanner;

impl AudioScanner {
    /// The number of tones and the parity bytes that `calib_tones` calibration tones, the last
    /// of them the parity tone `ecc_index`, announce.
    pub fn calibration(calib_tones: usize, ecc_index: usize) -> (r: (usize, usize))
        ensures
            (r.0 as nat, r.1 as nat) == calibration(calib_tones as nat, ecc_index as nat),
    {
        if calib_tones < 2 {
            (8, 4)
        } else {
            let n: usize = calib_tones - 1;
            let nt: usize = if n >= 8 {
                8
            } else if n >= 4 {
                4
            } else {
                2
            };
            let eb: usize = if ecc_index == 0 {
                4
            } else if ecc_index == 1 {
                12
            } else if ecc_index == 2 {
                28
            } else {
                0
            };
            (nt, eb)
        }
    }

    /// The bits one symbol carries when `num_tones` tones are in use: 3 for 8 tones, 2 for 4,
    /// else 1.
    pub fn tone_bits(num_tones: usize) -> (b: usize)
        ensures
            b == if num_tones == 8 {
                3usize
            } else if num_tones == 4 {
                2usize
            } else {
                1usize
            },
    {
        if num_tones == 8 {
            3
        } else if num_tones == 4 {
            2
        } else {
            1
        }
    }

    /// Reads a payload from the symbols heard, `bpc` bits each: their bits, eight to a byte
    /// (a last partial byte dropped), are Reed-Solomon decoded with `ecc_b` parity bytes per
    /// block and unpacked. The symbols the modem made for a payload read back as that payload.
    pub fn demodulate(
        symbols: &Vec<u8>,
        bpc: usize,
        ecc_b: usize,
        password: Option<&str>,
        verify_key: Option<&str>,
    ) -> (r: Result<DecodedPayload, TSpineError>)
        requires
            1 <= bpc <= 3,
            ecc_b < 255,
            symbols@.len() * bpc <= usize::MAX,
            blocks_hold_parity((symbols@.len() * bpc / 8) as nat, ecc_b as nat),
        ensures
            r matches Ok(p) ==> exists|block: Seq<u8>|
                #[trigger] spec_unpack(block, key_bytes(password), key_bytes(verify_key)) == Ok::<
                    PayloadView,
                    UnpackFailure,
                >(p@),
            r matches Err(e) ==> e is ReedSolomon || exists|block: Seq<u8>|
                #[trigger] spec_unpack(block, key_bytes(password), key_bytes(verify_key)) matches Err(f)
                    && error_is(e, f),
            forall|data: Seq<u8>, raw: Seq<u8>, body: Seq<u8>, iv: Seq<u8>, ts: u64, enc: Seq<u8>|
                #![trigger single_packing(raw, body, data, key_bytes(password), None, false, iv, ts), is_rs_encoding(raw, enc, ecc_b as nat)]
                single_packing(raw, body, data, key_bytes(password), None, false, iv, ts)
                    && is_rs_encoding(raw, enc, ecc_b as nat) && symbols@ == symbols_of(enc, bpc as nat)
                    && single_readable(body, data, None, key_bytes(verify_key), false) ==> (r matches Ok(p)
                    && p@ == single_view(data)),
    {
        let mut bits: Vec<u8> = Vec::new();
        let mut k: usize = 0;
        while k < symbols.len()
            invariant
                k <= symbols@.len(),
                1 <= bpc <= 3,
                symbols@.len() * bpc <= usize::MAX,
                bits@.len() == k * bpc,
                forall|i: int| 0 <= i < bits@.len() ==> #[trigger] bits@[i] == symbol_bits(symbols@, bpc as nat)[i],
                forall|i: int| 0 <= i < bits@.len() ==> #[trigger] bits@[i] <= 1,
            decreases symbols@.len() - k,
        {
            let s = symbols[k];
            let mut j: usize = 0;
            while j < bpc
                invariant
                    j <= bpc <= 3,
                    k < symbols@.len(),
                    s == symbols@[k as int],
                    symbols@.len() * bpc <= usize::MAX,
                    bits@.len() == k * bpc + j,
                    forall|i: int| 0 <= i < bits@.len() ==> #[trigger] bits@[i] == symbol_bits(symbols@, bpc as nat)[i],
                    forall|i: int| 0 <= i < bits@.len() ==> #[trigger] bits@[i] <= 1,
                decreases bpc - j,
            {
                let shift = (bpc - 1 - j) as u8;
                let b = (s >> shift) & 1;
                proof {
                    let i = k * bpc + j;
                    assert(i < symbols@.len() * bpc) by (nonlinear_arith)
                        requires
                            k < symbols@.len(),
                            j < bpc,
                            i == k * bpc + j,
                    ;
                    vstd::arithmetic::div_mod::lemma_fundamental_div_mod_converse(
                        i as int,
                        bpc as int,
                        k as int,
                        j as int,
                    );
                    assert(symbol_bits(symbols@, bpc as nat)[i as int] == b);
                    assert(b <= 1) by (bit_vector)
                        requires
                            b == (s >> shift) & 1u8,
                    ;
                }
                bits.push(b);
                j += 1;
            }
            assert((k + 1) * bpc == k * bpc + bpc) by (nonlinear_arith);
            k += 1;
        }
        let nbytes = bits.len() / 8;
        let bytes = pack_bytes(bits.as_slice(), nbytes);
        let rs = ReedSolomon::new(ecc_b);
        proof {
            assert(bits@ =~= symbol_bits(symbols@, bpc as nat));
            assert forall|data: Seq<u8>, raw: Seq<u8>, body: Seq<u8>, iv: Seq<u8>, ts: u64, enc: Seq<u8>|
                #![trigger single_packing(raw, body, data, key_bytes(password), None, false, iv, ts), is_rs_encoding(raw, enc, ecc_b as nat)]
                single_packing(raw, body, data, key_bytes(password), None, false, iv, ts)
                    && is_rs_encoding(raw, enc, ecc_b as nat) && symbols@ == symbols_of(enc, bpc as nat)
                implies bytes@ == enc by {
                lemma_symbols_carry(enc, bpc as nat);
            }
        }
        let block = match rs.decode(bytes.as_slice()) {
            Ok(b) => b,
            Err(e) => {
                proof {
                    assert forall|data: Seq<u8>, raw: Seq<u8>, body: Seq<u8>, iv: Seq<u8>, ts: u64, enc: Seq<u8>|
                        #![trigger single_packing(raw, body, data, key_bytes(password), None, false, iv, ts), is_rs_encoding(raw, enc, ecc_b as nat)]
                        single_packing(raw, body, data, key_bytes(password), None, false, iv, ts)
                            && is_rs_encoding(raw, enc, ecc_b as nat) && symbols@ == symbols_of(enc, bpc as nat)
                        implies false by {
                        if ecc_b > 0 {
                            lemma_decode_inverts_encode(raw, enc, ecc_b as nat);
                        }
                    }
                }
                return Err(e);
            },
        };
        proof {
            assert forall|data: Seq<u8>, raw: Seq<u8>, body: Seq<u8>, iv: Seq<u8>, ts: u64, enc: Seq<u8>|
                #![trigger single_packing(raw, body, data, key_bytes(password), None, false, iv, ts), is_rs_encoding(raw, enc, ecc_b as nat)]
                single_packing(raw, body, data, key_bytes(password), None, false, iv, ts)
                    && is_rs_encoding(raw, enc, ecc_b as nat) && symbols@ == symbols_of(enc, bpc as nat)
                implies block@ == raw by {
                if ecc_b > 0 {
                    lemma_decode_inverts_encode(raw, enc, ecc_b as nat);
                }
            }
        }
        Payload::unpack(block.as_slice(), password, verify_key)
    }
}

/// The symbols that carry a stream spell its bytes again, eight bits to a byte.
proof fn lemma_symbols_carry(enc: Seq<u8>, bpc: nat)
    requires
        1 <= bpc <= 3,
    ensures
        pack_bits(symbol_bits(symbols_of(enc, bpc), bpc), (symbols_of(enc, bpc).len() * bpc / 8) as nat) == enc,
{
    let syms = symbols_of(enc, bpc);
    let bits = symbol_bits(syms, bpc);
    let n = syms.len();
    assert(n * bpc / 8 == enc.len()) by (nonlinear_arith)
        requires
            n == (enc.len() * 8 + bpc - 1) / bpc as int,
            1 <= bpc <= 3,
    ;
    assert forall|i: int| 0 <= i < bits.len() implies #[trigger] bits[i] == stream_bit(enc, i) by {
        let k = i / bpc as int;
        let j = i % bpc as int;
        vstd::arithmetic::div_mod::lemma_fundamental_div_mod(i, bpc as int);
        assert(0 <= k < n) by (nonlinear_arith)
            requires
                i < n * bpc,
                i == bpc * k + j,
                0 <= j < bpc,
                0 <= i,
        ;
        lemma_symbol_bit(enc, k * bpc, bpc, j);
        assert(k * bpc + j == i) by (nonlinear_arith)
            requires
                i == bpc * k + j,
        ;
    }
    assert forall|m: int| 0 <= m < enc.len() implies #[trigger] pack_bits(bits, enc.len())[m] == enc[m] by {
        assert(8 * m + 8 <= bits.len()) by (nonlinear_arith)
            requires
                m < enc.len(),
                bits.len() == n * bpc,
                n * bpc / 8 == enc.len(),
        ;
        assert forall|t: int| 0 <= t < 8 implies #[trigger] bits[8 * m + t] == stream_bit(enc, 8 * m + t) by {}
        lemma_bits_value_stream(bits, enc, 8 * m, 8);
        lemma_stream_byte(enc, m);
    }
    assert(pack_bits(bits, enc.len()) =~= enc);
}

} // verus!
