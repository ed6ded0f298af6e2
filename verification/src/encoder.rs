//! Building a code: packing a payload, choosing the grid, and laying the Reed-Solomon encoded
//! bytes over its data cells.
use vstd::prelude::*;
use vstd::utf8::encode_utf8;

use crate::error::TSpineError;
use crate::grid::{data_coords, is_data_cell, rank, skeleton_value, spec_capacity_bytes, spec_data_capacity, Grid};
use crate::payload::{dual_packing, key_bytes, single_packing, Payload};
use crate::rs::{is_rs_encoding, ReedSolomon};
use crate::types::{ColorMode, EccLevel, Metadata};

verus! {

/// Bit `i` of a byte stream, the most significant bit of each byte first; 0 past its end.
pub open spec fn stream_bit(stream: Seq<u8>, i: int) -> u8 {
    if 0 <= i && i / 8 < stream.len() {
        (stream[i / 8] >> ((7 - i % 8) as u8)) & 1u8
    } else {
        0
    }
}

/// The number that the `n` bits of the stream from bit `i` spell, most significant first.
pub open spec fn stream_bits(stream: Seq<u8>, i: int, n: nat) -> nat
    decreases n,
{
    if n == 0 {
        0
    } else {
        2 * stream_bits(stream, i, (n - 1) as nat) + stream_bit(stream, i + n - 1) as nat
    }
}

/// All the bits of a cell of `bpc` bits set.
pub open spec fn cell_mask(bpc: nat) -> u8 {
    if bpc == 1 {
        1
    } else if bpc == 2 {
        3
    } else {
        7
    }
}

/// The value of the `k`-th data cell, at `(x, y)`: the `k`-th run of `bpc` bits of the
/// stream, inverted on cells whose coordinates sum to an even number.
pub open spec fn data_cell_value(stream: Seq<u8>, k: int, bpc: nat, x: int, y: int) -> u8 {
    let v = stream_bits(stream, k * bpc, bpc) as u8;
    if (x + y) % 2 == 0 {
        v ^ cell_mask(bpc)
    } else {
        v
    }
}

/// The value the skeleton gives a cell, 0 where it gives none.
pub open spec fn skeleton_or_zero(size: nat, num_colors: nat, nano: bool, x: int, y: int) -> u8 {
    match skeleton_value(size as int, num_colors as int, nano, x, y) {
        Some(v) => v,
        None => 0,
    }
}

/// Whether `g` is the grid of side `size` in `mode` whose data cells, in order, carry the bits
/// of `stream` and whose other cells carry the skeleton.
pub open spec fn grid_carries(g: Grid, size: nat, mode: ColorMode, nano: bool, stream: Seq<u8>) -> bool {
    let coords = data_coords(size, nano);
    let bpc = mode.spec_bits_per_cell();
    &&& g.wf()
    &&& g.size == size
    &&& g.mode == mode
    &&& forall|k: int|
        0 <= k < coords.len() ==> #[trigger] g.cell(coords[k].0 as int, coords[k].1 as int)
            == data_cell_value(stream, k, bpc, coords[k].0 as int, coords[k].1 as int)
    &&& forall|x: int, y: int|
        0 <= x < size && 0 <= y < size && !is_data_cell(size as int, nano, x, y)
            ==> #[trigger] g.cell(x, y) == skeleton_or_zero(size, mode.spec_num_colors(), nano, x, y)
}

/// `s` cut or padded with zeros to `n` bytes.
pub open spec fn resized(s: Seq<u8>, n: nat) -> Seq<u8> {
    if s.len() >= n {
        s.take(n as int)
    } else {
        s + Seq::new((n - s.len()) as nat, |i: int| 0u8)
    }
}

/// The bytes of an optional text.
pub open spec fn text_key_bytes(k: Option<String>) -> Option<Seq<u8>> {
    match k {
        Some(s) => Some(encode_utf8(s@)),
        None => None,
    }
}

/// An encoder's settings as values; texts are given by their UTF-8 bytes.
pub struct EncoderView {
    pub color_mode: ColorMode,
    pub ecc_level: EccLevel,
    pub password: Option<Seq<u8>>,
    pub sign_key: Option<Seq<u8>>,
    pub forced_size: Option<usize>,
    pub nano: bool,
    pub min_header: bool,
}

/// The settings of a new encoder: four colours, medium error correction, no password, no
/// signature, the size chosen to fit, the standard layout and the full header.
pub open spec fn default_encoder() -> EncoderView {
    EncoderView {
        color_mode: ColorMode::FourColor,
        ecc_level: EccLevel::Medium,
        password: None,
        sign_key: None,
        forced_size: None,
        nano: false,
        min_header: false,
    }
}

/// Whether a forced side, if any, is one a grid can have: at least 3, and small enough that
/// three bits per cell of it can be counted.
pub open spec fn forced_size_ok(v: EncoderView) -> bool {
    v.forced_size matches Some(s) ==> 3 <= s && s * s * 3 <= usize::MAX
}

/// The parity bytes per block an encoder uses: those of its level, at most 1 for a forced side
/// of at most 5, and at most 2 for a forced nano side of 6 or 7.
pub open spec fn effective_ecc(v: EncoderView) -> nat {
    let e = v.ecc_level.spec_parity_bytes();
    match v.forced_size {
        Some(s) => if s <= 5 {
            if e < 1 {
                e
            } else {
                1
            }
        } else if s <= 7 && v.nano {
            if e < 2 {
                e
            } else {
                2
            }
        } else {
            e
        },
        None => e,
    }
}

/// The data bytes a grid of side `s` holds in `mode` and layout `nano` with `ecc` parity bytes
/// per block.
pub open spec fn data_cap_at(mode: ColorMode, s: nat, nano: bool, ecc: nat) -> nat {
    spec_data_capacity(spec_capacity_bytes(s, mode.spec_bits_per_cell(), nano), ecc)
}

/// The first side from `s` on, in steps of 2 up to 251, whose grid holds `len` data bytes.
pub open spec fn first_fitting(v: EncoderView, len: nat, ecc: nat, s: nat) -> Option<nat>
    decreases 253 - s,
{
    if s > 251 {
        None
    } else if data_cap_at(v.color_mode, s, v.nano || s <= 7, ecc) >= len {
        Some(s)
    } else {
        first_fitting(v, len, ecc, s + 2)
    }
}

/// A fitting side lies between the first side tried and 251, has the parity of the first, and
/// holds the block.
pub proof fn lemma_first_fitting(v: EncoderView, len: nat, ecc: nat, s: nat)
    ensures
        first_fitting(v, len, ecc, s) matches Some(t) ==> s <= t <= 251 && t % 2 == s % 2
            && data_cap_at(v.color_mode, t, v.nano || t <= 7, ecc) >= len,
    decreases 253 - s,
{
    if s <= 251 && data_cap_at(v.color_mode, s, v.nano || s <= 7, ecc) < len {
        lemma_first_fitting(v, len, ecc, s + 2);
    }
}

/// With 255 parity bytes per block no data fits.
proof fn lemma_no_room_for_data(total: nat)
    ensures
        spec_data_capacity(total, 255) == 0,
{
    assert(total % 255 < 255);
    assert((total / 255) * 0 == 0);
}

/// The side of the grid for a packed block of `len` bytes: the forced side if it holds the
/// block, else the first fitting side from 5 (nano or minimal header) or 9.
pub open spec fn size_choice(v: EncoderView, len: nat, ecc: nat) -> Result<nat, TSpineError> {
    match v.forced_size {
        Some(f) => if data_cap_at(v.color_mode, f as nat, v.nano, ecc) < len {
            Err(
                TSpineError::DataTooLarge {
                    required: len as usize,
                    capacity: data_cap_at(v.color_mode, f as nat, v.nano, ecc) as usize,
                },
            )
        } else {
            Ok(f as nat)
        },
        None => match first_fitting(
            v,
            len,
            ecc,
            if v.nano || v.min_header {
                5
            } else {
                9
            },
        ) {
            Some(s) => Ok(s),
            None => Err(TSpineError::SizeExceedsLimit { size: 253 }),
        },
    }
}

/// The bytes of the header, signature and length fields of a packed block.
pub open spec fn header_bytes(min_header: bool, signed: bool, dual: bool) -> nat {
    (if min_header {
        1nat
    } else {
        4nat
    }) + (if signed {
        if min_header {
            16nat
        } else {
            32nat
        }
    } else {
        0nat
    }) + (if dual {
        if min_header {
            2nat
        } else {
            8nat
        }
    } else if min_header {
        1nat
    } else {
        4nat
    })
}

/// The flags byte of a packed block.
pub open spec fn block_flags(raw: Seq<u8>, min_header: bool) -> u8 {
    if min_header {
        raw[0] & 0x7fu8
    } else {
        raw[3]
    }
}

/// The metadata of a built code.
pub open spec fn built_metadata(
    v: EncoderView,
    raw: Seq<u8>,
    body_len: nat,
    raw_input_len: nat,
    dual: bool,
    size: nat,
    nano: bool,
    total: nat,
    cap: nat,
    ecc: nat,
) -> Metadata {
    let flags = block_flags(raw, v.min_header);
    Metadata {
        size: size as usize,
        raw_bytes: raw_input_len as usize,
        packed_bytes: raw.len() as usize,
        header_bytes_count: header_bytes(v.min_header, v.sign_key is Some, dual) as usize,
        data_bytes_count: body_len as usize,
        ecc_start_byte: cap as usize,
        total_cap_bytes: total as usize,
        ecc_bytes: ecc as usize,
        colors: v.color_mode.spec_num_colors() as usize,
        bits_per_cell: v.color_mode.spec_bits_per_cell() as usize,
        flags,
        is_dual: dual,
        is_binary: flags & 0x10u8 != 0,
        is_signed: v.sign_key is Some,
        is_encrypted: v.password is Some,
        is_min_header: v.min_header,
        is_nano: nano,
    }
}

/// Whether `r` is the grid of side `size`, chosen for the packed block `raw`, whose data cells
/// carry `enc`, the Reed-Solomon encoding of the block padded to the data capacity, itself
/// padded to the grid's capacity; with its metadata.
pub open spec fn built_from(
    v: EncoderView,
    raw: Seq<u8>,
    body_len: nat,
    raw_input_len: nat,
    dual: bool,
    r: Result<(Grid, Metadata), TSpineError>,
    size: nat,
    enc: Seq<u8>,
) -> bool {
    let ecc = effective_ecc(v);
    let nano = v.nano || size <= 7;
    let total = spec_capacity_bytes(size, v.color_mode.spec_bits_per_cell(), nano);
    let cap = spec_data_capacity(total, ecc);
    &&& size_choice(v, raw.len(), ecc) == Ok::<nat, TSpineError>(size)
    &&& is_rs_encoding(resized(raw, cap), enc, ecc)
    &&& r matches Ok((g, m)) && grid_carries(g, size, v.color_mode, nano, resized(enc, total)) && m
        == built_metadata(v, raw, body_len, raw_input_len, dual, size, nano, total, cap, ecc)
}

/// What building a code from the packed block `raw` gives: the error of the size choice, or
/// the grid of the chosen side built from the block's encoding.
pub open spec fn built(
    v: EncoderView,
    raw: Seq<u8>,
    body_len: nat,
    raw_input_len: nat,
    dual: bool,
    r: Result<(Grid, Metadata), TSpineError>,
) -> bool {
    match size_choice(v, raw.len(), effective_ecc(v)) {
        Err(e) => r == Err::<(Grid, Metadata), TSpineError>(e),
        Ok(_) => exists|size: nat, enc: Seq<u8>|
            #[trigger] built_from(v, raw, body_len, raw_input_len, dual, r, size, enc),
    }
}

/// The parts of a successful build make up what `built` describes.
proof fn lemma_built_ok(
    v: EncoderView,
    raw: Seq<u8>,
    body_len: nat,
    raw_input_len: nat,
    dual: bool,
    size: nat,
    enc: Seq<u8>,
    g: Grid,
    m: Metadata,
)
    requires
        size_choice(v, raw.len(), effective_ecc(v)) == Ok::<nat, TSpineError>(size),
        is_rs_encoding(
            resized(
                raw,
                spec_data_capacity(
                    spec_capacity_bytes(size, v.color_mode.spec_bits_per_cell(), v.nano || size <= 7),
                    effective_ecc(v),
                ),
            ),
            enc,
            effective_ecc(v),
        ),
        grid_carries(
            g,
            size,
            v.color_mode,
            v.nano || size <= 7,
            resized(enc, spec_capacity_bytes(size, v.color_mode.spec_bits_per_cell(), v.nano || size <= 7)),
        ),
        m == built_metadata(
            v,
            raw,
            body_len,
            raw_input_len,
            dual,
            size,
            v.nano || size <= 7,
            spec_capacity_bytes(size, v.color_mode.spec_bits_per_cell(), v.nano || size <= 7),
            spec_data_capacity(
                spec_capacity_bytes(size, v.color_mode.spec_bits_per_cell(), v.nano || size <= 7),
                effective_ecc(v),
            ),
            effective_ecc(v),
        ),
    ensures
        built(v, raw, body_len, raw_input_len, dual, Ok((g, m))),
{
    assert(built_from(v, raw, body_len, raw_input_len, dual, Ok((g, m)), size, enc));
}

proof fn lemma_bit_facts(v: u8, b: u8, x: u8, s: u8)
    ensures
        (x >> s) & 1u8 <= 1,
        v < 128 && b <= 1 ==> (v << 1u8) | b == 2 * v + b,
{
    assert((x >> s) & 1u8 <= 1) by (bit_vector);
    assert(v < 128 && b <= 1 ==> (v << 1u8) | b == 2 * v + b) by (bit_vector);
}

/// Bit `i` of the stream.
fn bit_at(stream: &[u8], i: usize) -> (b: u8)
    ensures
        b == stream_bit(stream@, i as int),
        b <= 1,
{
    proof {
        if i / 8 < stream@.len() {
            lemma_bit_facts(0, 0, stream@[(i / 8) as int], (7 - i % 8) as u8);
        }
    }
    if i / 8 < stream.len() {
        (stream[i / 8] >> ((7 - i % 8) as u8)) & 1
    } else {
        0
    }
}

/// The number the `bpc` bits of the stream from bit `base` spell.
pub(crate) fn read_symbol(stream: &[u8], base: usize, bpc: usize) -> (v: u8)
    requires
        1 <= bpc <= 3,
        base + bpc <= usize::MAX,
    ensures
        v == stream_bits(stream@, base as int, bpc as nat),
        v < 8,
{
    let mut v: u8 = 0;
    let mut j: usize = 0;
    while j < bpc
        invariant
            j <= bpc <= 3,
            base + bpc <= usize::MAX,
            v == stream_bits(stream@, base as int, j as nat),
            v < 8,
            j <= 2 ==> v < 4,
            j <= 1 ==> v < 2,
            j == 0 ==> v == 0,
        decreases bpc - j,
    {
        let b = bit_at(stream, base + j);
        proof {
            lemma_bit_facts(v, b, 0, 0);
        }
        v = (v << 1) | b;
        j += 1;
    }
    v
}

/// `s` cut or padded with zeros to `n` bytes.
fn resize_bytes(s: &[u8], n: usize) -> (r: Vec<u8>)
    ensures
        r@ == resized(s@, n as nat),
{
    let mut r: Vec<u8> = Vec::new();
    let mut i: usize = 0;
    while i < n
        invariant
            i <= n,
            r@.len() == i,
            forall|j: int| 0 <= j < i ==> #[trigger] r@[j] == resized(s@, n as nat)[j],
        decreases n - i,
    {
        if i < s.len() {
            r.push(s[i]);
        } else {
            r.push(0);
        }
        i += 1;
    }
    proof {
        assert(r@ =~= resized(s@, n as nat));
    }
    r
}

/// The grid of side `size` in `mode` whose data cells, in order, carry the bits of `stream`,
/// `bpc` to a cell and inverted on the checkerboard, and whose other cells carry the skeleton.
fn lay_out(size: usize, mode: ColorMode, nano: bool, stream: &[u8]) -> (grid: Grid)
    requires
        size >= 3,
        size * size * 3 <= usize::MAX,
    ensures
        grid_carries(grid, size as nat, mode, nano, stream@),
{
    let mut grid = Grid::new(size, mode);
    grid.apply_skeletons(nano);
    let coords = Grid::data_coordinates(size, nano);
    let bpc = mode.bits_per_cell();
    let mask_val: u8 = if bpc == 1 {
        1
    } else if bpc == 2 {
        3
    } else {
        7
    };
    let ghost nc = mode.spec_num_colors();
    let mut k: usize = 0;
    while k < coords.len()
        invariant
            k <= coords@.len(),
            coords@ == data_coords(size as nat, nano),
            size >= 3,
            size * size * 3 <= usize::MAX,
            coords@.len() <= size * size,
            1 <= bpc <= 3,
            bpc == mode.spec_bits_per_cell(),
            mask_val == cell_mask(bpc as nat),
            nc == mode.spec_num_colors(),
            forall|j: int|
                0 <= j < coords@.len() ==> is_data_cell(
                    size as int,
                    nano,
                    #[trigger] coords@[j].0 as int,
                    coords@[j].1 as int,
                ),
            forall|i: int, j: int|
                0 <= i < j < coords@.len() ==> rank(size as nat, #[trigger] coords@[i]) < rank(
                    size as nat,
                    #[trigger] coords@[j],
                ),
            grid.wf(),
            grid.size == size,
            grid.mode == mode,
            forall|j: int|
                0 <= j < k ==> #[trigger] grid.cell(coords@[j].0 as int, coords@[j].1 as int)
                    == data_cell_value(
                    stream@,
                    j,
                    bpc as nat,
                    coords@[j].0 as int,
                    coords@[j].1 as int,
                ),
            forall|x: int, y: int|
                0 <= x < size && 0 <= y < size && !is_data_cell(size as int, nano, x, y)
                    ==> #[trigger] grid.cell(x, y) == skeleton_or_zero(
                    size as nat,
                    nc,
                    nano,
                    x,
                    y,
                ),
        decreases coords@.len() - k,
    {
        let (x, y) = coords[k];
        assert(is_data_cell(size as int, nano, x as int, y as int));
        assert(x + y <= size * size * 3) by (nonlinear_arith)
            requires
                x < size,
                y < size,
                size >= 3,
        ;
        assert(k * bpc + bpc <= size * size * 3) by (nonlinear_arith)
            requires
                k < coords@.len(),
                coords@.len() <= size * size,
                bpc <= 3,
        ;
        let mut val = read_symbol(stream, k * bpc, bpc);
        if Grid::mask(x, y) {
            val = val ^ mask_val;
        }
        let ghost before = grid;
        grid.set(x, y, val);
        proof {
            assert forall|j: int| 0 <= j < k + 1 implies #[trigger] grid.cell(
                coords@[j].0 as int,
                coords@[j].1 as int,
            ) == data_cell_value(
                stream@,
                j,
                bpc as nat,
                coords@[j].0 as int,
                coords@[j].1 as int,
            ) by {
                if j < k {
                    assert(rank(size as nat, coords@[j]) < rank(size as nat, coords@[k as int]));
                    assert(before.cell(coords@[j].0 as int, coords@[j].1 as int) == data_cell_value(
                        stream@,
                        j,
                        bpc as nat,
                        coords@[j].0 as int,
                        coords@[j].1 as int,
                    ));
                }
            }
        }
        k += 1;
    }
    grid
}

/// The text of an optional string.
fn opt_str(o: &Option<String>) -> (r: Option<&str>)
    ensures
        key_bytes(r) == text_key_bytes(*o),
{
    match o {
        Some(s) => Some(s.as_str()),
        None => None,
    }
}

/// Builds codes: settings for colours, error correction, encryption, signing and layout.
#[derive(Debug, Clone)]
pub struct TSpineEncoder {
    color_mode: ColorMode,
    ecc_level: EccLevel,
    password: Option<String>,
    sign_key: Option<String>,
    forced_size: Option<usize>,
    is_nano: bool,
    min_header: bool,
}

impl View for TSpineEncoder {
    type V = EncoderView;

    closed spec fn view(&self) -> EncoderView {
        EncoderView {
            color_mode: self.color_mode,
            ecc_level: self.ecc_level,
            password: text_key_bytes(self.password),
            sign_key: text_key_bytes(self.sign_key),
            forced_size: self.forced_size,
            nano: self.is_nano,
            min_header: self.min_header,
        }
    }
}

impl Default for TSpineEncoder {
    fn default() -> (e: Self)
        ensures
            e@ == default_encoder(),
    {
        TSpineEncoder {
            color_mode: ColorMode::FourColor,
            ecc_level: EccLevel::Medium,
            password: None,
            sign_key: None,
            forced_size: None,
            is_nano: false,
            min_header: false,
        }
    }
}

impl TSpineEncoder {
    /// An encoder with the default settings.
    pub fn new() -> (e: Self)
        ensures
            e@ == default_encoder(),
    {
        Self::default()
    }

    /// Sets the colour mode.
    pub fn color_mode(self, mode: ColorMode) -> (e: Self)
        ensures
            e@ == (EncoderView { color_mode: mode, ..self@ }),
    {
        let mut e = self;
        e.color_mode = mode;
        e
    }

    /// Sets the error-correction level.
    pub fn ecc_level(self, level: EccLevel) -> (e: Self)
        ensures
            e@ == (EncoderView { ecc_level: level, ..self@ }),
    {
        let mut e = self;
        e.ecc_level = level;
        e
    }

    /// Encrypts the payload under `pwd`.
    pub fn password(self, pwd: &str) -> (e: Self)
        ensures
            e@ == (EncoderView { password: Some(encode_utf8(pwd@)), ..self@ }),
    {
        let mut e = self;
        e.password = Some(pwd.to_owned());
        e
    }

    /// Signs the payload with `key`.
    pub fn sign_key(self, key: &str) -> (e: Self)
        ensures
            e@ == (EncoderView { sign_key: Some(encode_utf8(key@)), ..self@ }),
    {
        let mut e = self;
        e.sign_key = Some(key.to_owned());
        e
    }

    /// Forces the side of the grid; an even side is raised to the next odd one.
    pub fn forced_size(self, size: usize) -> (e: Self)
        ensures
            e@ == (EncoderView {
                forced_size: Some(
                    if size % 2 == 0 {
                        (size + 1) as usize
                    } else {
                        size
                    },
                ),
                ..self@
            }),
    {
        let mut e = self;
        e.forced_size = Some(
            if size % 2 == 0 {
                size + 1
            } else {
                size
            },
        );
        e
    }

    /// Uses the nano layout, whatever the side.
    pub fn nano(self, enable: bool) -> (e: Self)
        ensures
            e@ == (EncoderView { nano: enable, ..self@ }),
    {
        let mut e = self;
        e.is_nano = enable;
        e
    }

    /// Uses the minimal header: one flags byte, 16-byte signatures and 1-byte lengths.
    pub fn min_header(self, enable: bool) -> (e: Self)
        ensures
            e@ == (EncoderView { min_header: enable, ..self@ }),
    {
        let mut e = self;
        e.min_header = enable;
        e
    }

    /// Encodes `data` as a single payload: packs it (compressed, encrypted and signed as set)
    /// and lays the packed block over the smallest grid that holds it, or the forced one.
    pub fn encode(&self, data: &[u8]) -> (r: Result<(Grid, Metadata), TSpineError>)
        requires
            data@.len() <= usize::MAX / 4,
            forced_size_ok(self@),
        ensures
            exists|raw: Seq<u8>, body: Seq<u8>, iv: Seq<u8>, ts: u64|
                #[trigger] single_packing(
                    raw,
                    body,
                    data@,
                    self@.password,
                    self@.sign_key,
                    self@.min_header,
                    iv,
                    ts,
                ) && built(self@, raw, body.len(), data@.len(), false, r),
    {
        let pw = opt_str(&self.password);
        let sk = opt_str(&self.sign_key);
        let (raw, body) = match Payload::prepare_single(data, pw, sk, self.min_header) {
            Ok(p) => p,
            Err(e) => {
                return Err(e);
            },
        };
        let ghost (iv, ts) = choose|iv: Seq<u8>, ts: u64|
            #![trigger crate::payload::encryption_ok(key_bytes(pw), crate::payload::spec_stored(data@).0, iv, ts)]
            single_packing(raw@, body@, data@, key_bytes(pw), key_bytes(sk), self.min_header, iv, ts);
        assert(single_packing(raw@, body@, data@, self@.password, self@.sign_key, self@.min_header, iv, ts));
        let r = self.build_grid(raw.as_slice(), body.as_slice(), data.len(), false);
        assert(single_packing(raw@, body@, data@, self@.password, self@.sign_key, self@.min_header, iv, ts)
            && built(self@, raw@, body@.len(), data@.len(), false, r));
        r
    }

    /// Encodes a dual payload: `public_data` as it is, `private_data` compressed and
    /// encrypted as set; laid over the smallest grid that holds the packed block.
    pub fn encode_dual(&self, public_data: &[u8], private_data: &[u8]) -> (r: Result<
        (Grid, Metadata),
        TSpineError,
    >)
        requires
            private_data@.len() < usize::MAX / 4,
            public_data@.len() + private_data@.len() <= usize::MAX,
            forced_size_ok(self@),
        ensures
            exists|raw: Seq<u8>, body: Seq<u8>, iv: Seq<u8>, ts: u64|
                #[trigger] dual_packing(
                    raw,
                    body,
                    public_data@,
                    private_data@,
                    self@.password,
                    self@.sign_key,
                    self@.min_header,
                    iv,
                    ts,
                ) && built(
                    self@,
                    raw,
                    body.len(),
                    public_data@.len() + private_data@.len(),
                    true,
                    r,
                ),
    {
        let pw = opt_str(&self.password);
        let sk = opt_str(&self.sign_key);
        let (raw, body) = match Payload::prepare_dual(public_data, private_data, pw, sk, self.min_header) {
            Ok(p) => p,
            Err(e) => {
                return Err(e);
            },
        };
        let ghost (iv, ts) = choose|iv: Seq<u8>, ts: u64|
            #![trigger crate::payload::encryption_ok(key_bytes(pw), crate::payload::spec_private_stored(private_data@), iv, ts)]
            dual_packing(
                raw@,
                body@,
                public_data@,
                private_data@,
                key_bytes(pw),
                key_bytes(sk),
                self.min_header,
                iv,
                ts,
            );
        let r = self.build_grid(raw.as_slice(), body.as_slice(), public_data.len() + private_data.len(), true);
        assert(dual_packing(
            raw@,
            body@,
            public_data@,
            private_data@,
            self@.password,
            self@.sign_key,
            self@.min_header,
            iv,
            ts,
        ));
        r
    }

    /// The parity bytes per block this encoder uses.
    fn effective_ecc(&self) -> (e: usize)
        ensures
            e == effective_ecc(self@),
    {
        let mut ecc_b = self.ecc_level.parity_bytes();
        if self.is_nano || matches!(self.forced_size, Some(s) if s <= 5) {
            match self.forced_size {
                Some(s) => {
                    if s <= 5 {
                        if ecc_b > 1 {
                            ecc_b = 1;
                        }
                    } else if s <= 7 {
                        if ecc_b > 2 {
                            ecc_b = 2;
                        }
                    }
                },
                None => {},
            }
        }
        ecc_b
    }

    /// The side of the grid for a packed block of `raw_bytes_len` bytes.
    fn calculate_size(&self, raw_bytes_len: usize, ecc_b: usize) -> (r: Result<usize, TSpineError>)
        requires
            forced_size_ok(self@),
            ecc_b <= 255,
        ensures
            match size_choice(self@, raw_bytes_len as nat, ecc_b as nat) {
                Ok(s) => r == Ok::<usize, TSpineError>(s as usize),
                Err(e) => r == Err::<usize, TSpineError>(e),
            },
    {
        match self.forced_size {
            Some(forced) => {
                assert(forced * forced >= 2 * forced + 1) by (nonlinear_arith)
                    requires
                        forced >= 3,
                ;
                let total_cap = Grid::capacity_bytes(forced, self.color_mode, self.is_nano);
                let data_cap = Grid::data_capacity_from_total(total_cap, ecc_b);
                if data_cap < raw_bytes_len {
                    return Err(TSpineError::DataTooLarge { required: raw_bytes_len, capacity: data_cap });
                }
                return Ok(forced);
            },
            None => {},
        }
        let mut size: usize = if self.is_nano || self.min_header {
            5
        } else {
            9
        };
        let ghost start = size as nat;
        loop
            invariant
                self.forced_size is None,
                ecc_b <= 255,
                5 <= size <= 251,
                size % 2 == 1,
                start == (if self@.nano || self@.min_header {
                    5nat
                } else {
                    9nat
                }),
                first_fitting(self@, raw_bytes_len as nat, ecc_b as nat, start) == first_fitting(
                    self@,
                    raw_bytes_len as nat,
                    ecc_b as nat,
                    size as nat,
                ),
            decreases 253 - size,
        {
            let is_nano_grid = Grid::is_nano(size, self.is_nano);
            assert(size * size * 3 <= 251 * 251 * 3) by (nonlinear_arith)
                requires
                    size <= 251,
            ;
            assert(size * size >= 2 * size + 1) by (nonlinear_arith)
                requires
                    size >= 5,
            ;
            let total_cap = Grid::capacity_bytes(size, self.color_mode, is_nano_grid);
            let data_cap = Grid::data_capacity_from_total(total_cap, ecc_b);
            if data_cap >= raw_bytes_len {
                return Ok(size);
            }
            size += 2;
            if size > 251 {
                return Err(TSpineError::SizeExceedsLimit { size });
            }
        }
    }

    /// Lays a packed block over a grid: chooses the side, pads the block to the data capacity,
    /// adds the Reed-Solomon parity, pads to the grid's capacity and writes the bits, `bpc` to
    /// a cell, over the data cells in order, inverting the checkerboard cells.
    #[verifier::rlimit(60)]
    fn build_grid(&self, raw_data: &[u8], body: &[u8], raw_input_len: usize, is_dual: bool) -> (r:
        Result<(Grid, Metadata), TSpineError>)
        requires
            forced_size_ok(self@),
            raw_data@.len() >= if self@.min_header {
                1nat
            } else {
                4nat
            },
        ensures
            built(self@, raw_data@, body@.len(), raw_input_len as nat, is_dual, r),
    {
        let ecc_b = self.effective_ecc();
        let size = match self.calculate_size(raw_data.len(), ecc_b) {
            Ok(s) => s,
            Err(e) => {
                return Err(e);
            },
        };
        let ghost v = self@;
        proof {
            lemma_first_fitting(
                v,
                raw_data@.len(),
                ecc_b as nat,
                if v.nano || v.min_header {
                    5
                } else {
                    9
                },
            );
            if ecc_b == 255 {
                lemma_no_room_for_data(spec_capacity_bytes(size as nat, v.color_mode.spec_bits_per_cell(), v.nano));
                lemma_no_room_for_data(spec_capacity_bytes(size as nat, v.color_mode.spec_bits_per_cell(), v.nano || size <= 7));
            }
        }
        let is_nano_grid = Grid::is_nano(size, self.is_nano);
        assert(size >= 3 && size * size * 3 <= usize::MAX) by {
            if self.forced_size is None {
                assert(size * size * 3 <= 251 * 251 * 3) by (nonlinear_arith)
                    requires
                        size <= 251,
                ;
            }
        }
        assert(size * size >= 2 * size + 1) by (nonlinear_arith)
            requires
                size >= 3,
        ;
        let total_cap_bytes = Grid::capacity_bytes(size, self.color_mode, is_nano_grid);
        let data_cap_bytes = Grid::data_capacity_from_total(total_cap_bytes, ecc_b);
        assert(ecc_b < 255);
        let padded = resize_bytes(raw_data, data_cap_bytes);
        let rs = ReedSolomon::new(ecc_b);
        let encoded = rs.encode(padded.as_slice());
        let stream = resize_bytes(encoded.as_slice(), total_cap_bytes);
        let grid = lay_out(size, self.color_mode, is_nano_grid, stream.as_slice());
        let bpc = self.color_mode.bits_per_cell();
        let flags: u8 = if self.min_header {
            raw_data[0] & 0x7f
        } else {
            raw_data[3]
        };
        let header_bytes_count: usize = (if self.min_header {
            1
        } else {
            4
        }) + (if self.sign_key.is_some() {
            if self.min_header {
                16
            } else {
                32
            }
        } else {
            0
        }) + (if is_dual {
            if self.min_header {
                2
            } else {
                8
            }
        } else if self.min_header {
            1
        } else {
            4
        });
        let metadata = Metadata {
            size,
            raw_bytes: raw_input_len,
            packed_bytes: raw_data.len(),
            header_bytes_count,
            data_bytes_count: body.len(),
            ecc_start_byte: data_cap_bytes,
            total_cap_bytes,
            ecc_bytes: ecc_b,
            colors: self.color_mode.num_colors(),
            bits_per_cell: bpc,
            flags,
            is_dual,
            is_binary: (flags & 0x10) != 0,
            is_signed: self.sign_key.is_some(),
            is_encrypted: self.password.is_some(),
            is_min_header: self.min_header,
            is_nano: is_nano_grid,
        };
        proof {
            let total = spec_capacity_bytes(size as nat, v.color_mode.spec_bits_per_cell(), is_nano_grid);
            let cap = spec_data_capacity(total, ecc_b as nat);
            assert(size_choice(v, raw_data@.len(), ecc_b as nat) == Ok::<nat, TSpineError>(size as nat));
            assert(padded@ == resized(raw_data@, cap));
            assert(stream@ == resized(encoded@, total));
            assert(grid_carries(grid, size as nat, self.color_mode, is_nano_grid, stream@));
            assert(is_rs_encoding(padded@, encoded@, ecc_b as nat));
            assert(metadata == built_metadata(
                v,
                raw_data@,
                body@.len(),
                raw_input_len as nat,
                is_dual,
                size as nat,
                is_nano_grid,
                total,
                cap,
                ecc_b as nat,
            ));
            assert(exists|enc: Seq<u8>|
                #[trigger] is_rs_encoding(resized(raw_data@, cap), enc, ecc_b as nat) && grid_carries(
                    grid,
                    size as nat,
                    v.color_mode,
                    is_nano_grid,
                    resized(enc, total),
                ));
        }
        proof {
            lemma_built_ok(
                v,
                raw_data@,
                body@.len(),
                raw_input_len as nat,
                is_dual,
                size as nat,
                encoded@,
                grid,
                metadata,
            );
        }
        Ok((grid, metadata))
    }
}

} // verus!
