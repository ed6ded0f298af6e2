//! Reading a code back: the bits of its data cells, Reed-Solomon decoding and unpacking.
use vstd::prelude::*;
use vstd::utf8::encode_utf8;

use crate::encoder::{
    built_from, cell_mask, data_cap_at, data_cell_value, effective_ecc, forced_size_ok, grid_carries,
    lemma_first_fitting, resized, size_choice, stream_bit, stream_bits, text_key_bytes, EncoderView,
};
use crate::error::TSpineError;
use crate::grid::{
    data_coords, is_data_cell, num_data_cells, spec_capacity_bytes, spec_data_capacity, Grid,
};
use crate::payload::{
    dual_fields_fit, dual_packing, dual_readable, key_bytes, sig_block, single_field_fits,
    single_packing, single_readable, single_view,
    spec_unpack, lossy_text, Payload, PayloadView,
};
use crate::payload::{error_is, result_is, UnpackFailure};
use crate::crypto::tag_matches;
use crate::rs::{
    blocks_are_codewords, blocks_near, data_part, first_block_len, lemma_decode_inverts_encode,
    lemma_rs_encoded_len_blocks, lemma_rs_encoding_len, rs_encoded_len, ReedSolomon,
};
use crate::types::{DecodedPayload, Metadata};
use crate::poly::{is_codeword, poly_eval};
use crate::gf::apow;

verus! {

/// The value of the `k`-th data cell with the checkerboard inversion undone.
pub open spec fn unmasked_cell(g: Grid, nano: bool, k: int) -> u8 {
    let c = data_coords(g.size as nat, nano)[k];
    let v = g.cell(c.0 as int, c.1 as int);
    if (c.0 + c.1) % 2 == 0 {
        v ^ cell_mask(g.mode.spec_bits_per_cell())
    } else {
        v
    }
}

/// The bits a grid's data cells carry, in order, `bpc` to a cell, most significant first.
pub open spec fn grid_bits(g: Grid, nano: bool) -> Seq<u8> {
    let bpc = g.mode.spec_bits_per_cell();
    Seq::new(
        data_coords(g.size as nat, nano).len() * bpc,
        |i: int| (unmasked_cell(g, nano, i / bpc as int) >> ((bpc - 1 - i % bpc as int) as u8)) & 1u8,
    )
}

/// The number the `n` bits from `i` spell, most significant first.
pub open spec fn bits_value(bits: Seq<u8>, i: int, n: nat) -> nat
    decreases n,
{
    if n == 0 {
        0
    } else {
        2 * bits_value(bits, i, (n - 1) as nat) + bits[i + n - 1] as nat
    }
}

/// The first `len` bytes the bits spell, eight bits to a byte.
pub open spec fn pack_bits(bits: Seq<u8>, len: nat) -> Seq<u8> {
    Seq::new(len, |n: int| bits_value(bits, 8 * n, 8) as u8)
}

/// The parity bytes per block tried first: 12 in the standard layout, none in the nano one.
pub open spec fn first_candidate(nano: bool) -> nat {
    if nano {
        0
    } else {
        12
    }
}

/// Whether `g`, with metadata `m`, is what an encoder with settings `v` built from `data`:
/// packed as a single payload into `raw` and `body` with the IV `iv` at time `ts`, on a grid
/// of side `size` whose data cells carry the Reed-Solomon encoding `enc`.
pub open spec fn fresh_single_code(
    g: Grid,
    data: Seq<u8>,
    v: EncoderView,
    raw: Seq<u8>,
    body: Seq<u8>,
    iv: Seq<u8>,
    ts: u64,
    size: nat,
    enc: Seq<u8>,
    m: Metadata,
) -> bool {
    &&& single_packing(raw, body, data, v.password, v.sign_key, v.min_header, iv, ts)
    &&& built_from(v, raw, body.len(), data.len(), false, Ok((g, m)), size, enc)
}

/// Whether `g`, with metadata `m`, is what an encoder with settings `v` built from
/// `public_data` and `private_data`: packed as a dual payload into `raw` and `body` with the IV
/// `iv` at time `ts`, on a grid of side `size` whose data cells carry the Reed-Solomon
/// encoding `enc`.
pub open spec fn fresh_dual_code(
    g: Grid,
    public_data: Seq<u8>,
    private_data: Seq<u8>,
    v: EncoderView,
    raw: Seq<u8>,
    body: Seq<u8>,
    iv: Seq<u8>,
    ts: u64,
    size: nat,
    enc: Seq<u8>,
    m: Metadata,
) -> bool {
    &&& dual_packing(raw, body, public_data, private_data, v.password, v.sign_key, v.min_header, iv, ts)
    &&& built_from(
        v,
        raw,
        body.len(),
        public_data.len() + private_data.len(),
        true,
        Ok((g, m)),
        size,
        enc,
    )
}

/// Whether a code built with settings `v` on a grid of side `size` is read in the layout it
/// was built in (`nano_read`), and the parity count tried first there reads it: in the
/// standard layout, 12 reads codes built with 12 parity bytes, and codes built with 28 whose
/// capacity is a single block; in the nano layout, read without parity, the packed block must
/// lie in the first Reed-Solomon block. A forced side is one an encoder accepts.
pub open spec fn read_as_built(v: EncoderView, raw: Seq<u8>, size: nat, nano_read: bool) -> bool {
    &&& forced_size_ok(v)
    &&& nano_read == (v.nano || size <= 7)
    &&& if nano_read {
        effective_ecc(v) == 0 || raw.len() <= 255 - effective_ecc(v)
    } else {
        effective_ecc(v) == 12 || (effective_ecc(v) == 28 && spec_capacity_bytes(
            size,
            v.color_mode.spec_bits_per_cell(),
            false,
        ) <= 255)
    }
}

/// Whether a code built with settings `v` on a grid of side `size` is read in the standard
/// layout it was built in. A forced side is one an encoder accepts.
pub open spec fn read_in_standard(v: EncoderView, size: nat, nano_read: bool) -> bool {
    &&& forced_size_ok(v)
    &&& !nano_read
    &&& !(v.nano || size <= 7)
}

/// A decoder's settings as values; texts are given by their UTF-8 bytes.
pub struct DecoderView {
    pub password: Option<Seq<u8>>,
    pub verify_key: Option<Seq<u8>>,
}

/// Reads codes back; holds the password and the signature verification key, if any.
#[derive(Debug, Clone)]
pub struct TSpineDecoder {
    password: Option<String>,
    verify_key: Option<String>,
}

impl View for TSpineDecoder {
    type V = DecoderView;

    closed spec fn view(&self) -> DecoderView {
        DecoderView {
            password: text_key_bytes(self.password),
            verify_key: text_key_bytes(self.verify_key),
        }
    }
}

impl Default for TSpineDecoder {
    fn default() -> (d: Self)
        ensures
            d@ == (DecoderView { password: None, verify_key: None }),
    {
        TSpineDecoder { password: None, verify_key: None }
    }
}

proof fn lemma_bit_is_bit(v: u8, s: u8)
    ensures
        (v >> s) & 1u8 <= 1,
        v < 128 ==> forall|b: u8| b <= 1 ==> #[trigger] ((v << 1u8) | b) == 2 * v + b,
{
    assert((v >> s) & 1u8 <= 1) by (bit_vector);
    assert forall|b: u8| b <= 1 && v < 128 implies #[trigger] ((v << 1u8) | b) == 2 * v + b by {
        assert(b <= 1 && v < 128 ==> (v << 1u8) | b == 2 * v + b) by (bit_vector);
    }
}

/// The text of an optional string.
fn opt_str(o: &Option<String>) -> (r: Option<&str>)
    ensures
        key_bytes(r) == text_key_bytes(*o),
{
    match o {
        Some(s) => Some(s.as_str()),
        None => None,
    }
}

/// The bits of a grid's data cells.
fn read_grid_bits(grid: &Grid, nano: bool) -> (bits: Vec<u8>)
    requires
        grid.wf(),
        grid.size >= 3,
        grid.size * grid.size * 3 <= usize::MAX,
    ensures
        bits@ == grid_bits(*grid, nano),
        grid_bits(*grid, nano).len() == num_data_cells(grid.size as nat, nano)
            * grid.mode.spec_bits_per_cell(),
{
    let size = grid.size;
    let coords = Grid::data_coordinates(size, nano);
    let bpc = grid.mode.bits_per_cell();
    let mask_val: u8 = if bpc == 1 {
        1
    } else if bpc == 2 {
        3
    } else {
        7
    };
    let ghost gb = grid_bits(*grid, nano);
    let mut bits: Vec<u8> = Vec::new();
    let mut k: usize = 0;
    while k < coords.len()
        invariant
            k <= coords@.len(),
            coords@ == data_coords(size as nat, nano),
            coords@.len() <= size * size,
            size == grid.size,
            grid.wf(),
            size * size * 3 <= usize::MAX,
            1 <= bpc <= 3,
            bpc == grid.mode.spec_bits_per_cell(),
            mask_val == cell_mask(bpc as nat),
            gb == grid_bits(*grid, nano),
            gb.len() == coords@.len() * bpc,
            bits@.len() == k * bpc,
            forall|i: int| 0 <= i < k * bpc ==> #[trigger] bits@[i] == gb[i],
            forall|j: int|
                0 <= j < coords@.len() ==> is_data_cell(
                    size as int,
                    nano,
                    #[trigger] coords@[j].0 as int,
                    coords@[j].1 as int,
                ),
        decreases coords@.len() - k,
    {
        let (x, y) = coords[k];
        assert(is_data_cell(size as int, nano, x as int, y as int));
        assert(x + y <= size * size * 3) by (nonlinear_arith)
            requires
                x < size,
                y < size,
                size >= 3,
        ;
        let mut val = grid.get(x, y);
        if Grid::mask(x, y) {
            val = val ^ mask_val;
        }
        assert(val == unmasked_cell(*grid, nano, k as int));
        let mut j: usize = 0;
        while j < bpc
            invariant
                j <= bpc <= 3,
                k < coords@.len(),
                coords@.len() <= size * size,
                size * size * 3 <= usize::MAX,
                bpc == grid.mode.spec_bits_per_cell(),
                val == unmasked_cell(*grid, nano, k as int),
                gb == grid_bits(*grid, nano),
                gb.len() == coords@.len() * bpc,
                bits@.len() == k * bpc + j,
                forall|i: int| 0 <= i < k * bpc + j ==> #[trigger] bits@[i] == gb[i],
            decreases bpc - j,
        {
            let shift = (bpc - 1 - j) as u8;
            let b = (val >> shift) & 1;
            proof {
                let i = k * bpc + j;
                assert(i < coords@.len() * bpc) by (nonlinear_arith)
                    requires
                        k < coords@.len(),
                        j < bpc,
                        i == k * bpc + j,
                ;
                vstd::arithmetic::div_mod::lemma_fundamental_div_mod_converse(
                    i as int,
                    bpc as int,
                    k as int,
                    j as int,
                );
                assert(gb[i as int] == b);
            }
            bits.push(b);
            j += 1;
        }
        assert((k + 1) * bpc == k * bpc + bpc) by (nonlinear_arith);
        k += 1;
    }
    proof {
        assert(bits@ =~= gb);
    }
    bits
}

/// The first `len` bytes that `bits` spell.
pub(crate) fn pack_bytes(bits: &[u8], len: usize) -> (bytes: Vec<u8>)
    requires
        len * 8 <= bits@.len() <= usize::MAX,
        forall|i: int| 0 <= i < bits@.len() ==> #[trigger] bits@[i] <= 1,
    ensures
        bytes@ == pack_bits(bits@, len as nat),
{
    let mut bytes: Vec<u8> = Vec::new();
    let mut n: usize = 0;
    while n < len
        invariant
            n <= len,
            len * 8 <= bits@.len() <= usize::MAX,
            forall|i: int| 0 <= i < bits@.len() ==> #[trigger] bits@[i] <= 1,
            bytes@.len() == n,
            forall|m: int| 0 <= m < n ==> #[trigger] bytes@[m] == pack_bits(bits@, len as nat)[m],
        decreases len - n,
    {
        let mut byte: u8 = 0;
        let mut t: usize = 0;
        assert(n * 8 + 8 <= len * 8) by (nonlinear_arith)
            requires
                n < len,
        ;
        while t < 8
            invariant
                t <= 8,
                n < len,
                n * 8 + 8 <= bits@.len() <= usize::MAX,
                forall|i: int| 0 <= i < bits@.len() ==> #[trigger] bits@[i] <= 1,
                byte == bits_value(bits@, 8 * n as int, t as nat),
                t == 0 ==> byte == 0,
                t <= 1 ==> byte < 2,
                t <= 2 ==> byte < 4,
                t <= 3 ==> byte < 8,
                t <= 4 ==> byte < 16,
                t <= 5 ==> byte < 32,
                t <= 6 ==> byte < 64,
                t <= 7 ==> byte < 128,
            decreases 8 - t,
        {
            let b = bits[n * 8 + t];
            proof {
                lemma_bit_is_bit(byte, 0);
                assert(bits_value(bits@, 8 * n as int, (t + 1) as nat) == 2 * bits_value(
                    bits@,
                    8 * n as int,
                    t as nat,
                ) + bits@[8 * n + t] as nat);
            }
            byte = (byte << 1) | b;
            t += 1;
        }
        bytes.push(byte);
        n += 1;
    }
    proof {
        assert(bytes@ =~= pack_bits(bits@, len as nat));
    }
    bytes
}

proof fn lemma_symbol_bit_cases(b0: u8, b1: u8, b2: u8)
    requires
        b0 <= 1,
        b1 <= 1,
        b2 <= 1,
    ensures
        (b0 >> 0u8) & 1u8 == b0,
        ((2 * b0 + b1) as u8 >> 1u8) & 1u8 == b0,
        ((2 * b0 + b1) as u8 >> 0u8) & 1u8 == b1,
        ((4 * b0 + 2 * b1 + b2) as u8 >> 2u8) & 1u8 == b0,
        ((4 * b0 + 2 * b1 + b2) as u8 >> 1u8) & 1u8 == b1,
        ((4 * b0 + 2 * b1 + b2) as u8 >> 0u8) & 1u8 == b2,
{
    assert((b0 >> 0u8) & 1u8 == b0) by (bit_vector)
        requires
            b0 <= 1,
    ;
    assert(((2 * b0 + b1) as u8 >> 1u8) & 1u8 == b0 && ((2 * b0 + b1) as u8 >> 0u8) & 1u8 == b1)
        by (bit_vector)
        requires
            b0 <= 1,
            b1 <= 1,
    ;
    assert(((4 * b0 + 2 * b1 + b2) as u8 >> 2u8) & 1u8 == b0 && ((4 * b0 + 2 * b1 + b2) as u8
        >> 1u8) & 1u8 == b1 && ((4 * b0 + 2 * b1 + b2) as u8 >> 0u8) & 1u8 == b2) by (bit_vector)
        requires
            b0 <= 1,
            b1 <= 1,
            b2 <= 1,
    ;
}

/// Bit `j` of a run of `bpc` stream bits, counted from the most significant, is stream bit
/// `base + j`.
pub proof fn lemma_symbol_bit(stream: Seq<u8>, base: int, bpc: nat, j: int)
    requires
        1 <= bpc <= 3,
        0 <= j < bpc,
    ensures
        ((stream_bits(stream, base, bpc) as u8) >> ((bpc - 1 - j) as u8)) & 1u8 == stream_bit(
            stream,
            base + j,
        ),
{
    let b0 = stream_bit(stream, base);
    let b1 = stream_bit(stream, base + 1);
    let b2 = stream_bit(stream, base + 2);
    lemma_stream_bit_is_bit(stream, base);
    lemma_stream_bit_is_bit(stream, base + 1);
    lemma_stream_bit_is_bit(stream, base + 2);
    reveal_with_fuel(stream_bits, 4);
    lemma_symbol_bit_cases(b0, b1, b2);
    if bpc == 1 {
        assert(stream_bits(stream, base, bpc) == b0);
    } else if bpc == 2 {
        assert(stream_bits(stream, base, bpc) == 2 * b0 + b1);
    } else {
        assert(stream_bits(stream, base, bpc) == 4 * b0 + 2 * b1 + b2);
    }
}

pub proof fn lemma_stream_bit_is_bit(stream: Seq<u8>, i: int)
    ensures
        stream_bit(stream, i) <= 1,
{
    if 0 <= i && i / 8 < stream.len() {
        lemma_bit_is_bit(stream[i / 8], (7 - i % 8) as u8);
    }
}

/// Undoing the inversion of a data cell gives back the run of stream bits it carries.
proof fn lemma_unmasked_cell(g: Grid, size: nat, nano: bool, stream: Seq<u8>, k: int)
    requires
        grid_carries(g, size, g.mode, nano, stream),
        0 <= k < data_coords(size, nano).len(),
    ensures
        unmasked_cell(g, nano, k) == stream_bits(stream, k * g.mode.spec_bits_per_cell(), g.mode.spec_bits_per_cell()) as u8,
{
    let bpc = g.mode.spec_bits_per_cell();
    let c = data_coords(size, nano)[k];
    let v = stream_bits(stream, k * bpc, bpc) as u8;
    let m = cell_mask(bpc);
    assert(g.cell(c.0 as int, c.1 as int) == data_cell_value(stream, k, bpc, c.0 as int, c.1 as int));
    assert((v ^ m) ^ m == v) by (bit_vector);
}

/// The bits a grid's data cells carry are the stream's.
proof fn lemma_grid_bits(g: Grid, size: nat, nano: bool, stream: Seq<u8>, i: int)
    requires
        grid_carries(g, size, g.mode, nano, stream),
        0 <= i < grid_bits(g, nano).len(),
    ensures
        grid_bits(g, nano)[i] == stream_bit(stream, i),
{
    let bpc = g.mode.spec_bits_per_cell();
    let k = i / bpc as int;
    let j = i % bpc as int;
    vstd::arithmetic::div_mod::lemma_fundamental_div_mod(i, bpc as int);
    assert(k < data_coords(size, nano).len()) by (nonlinear_arith)
        requires
            i < data_coords(size, nano).len() * bpc,
            i == bpc * k + j,
            0 <= j,
            bpc >= 1,
    ;
    assert(k >= 0) by (nonlinear_arith)
        requires
            i >= 0,
            bpc >= 1,
            k == i / bpc as int,
    ;
    lemma_unmasked_cell(g, size, nano, stream, k);
    lemma_symbol_bit(stream, k * bpc, bpc, j);
    assert(k * bpc + j == i) by (nonlinear_arith)
        requires
            i == bpc * k + j,
    ;
}

/// Equal bits spell equal numbers.
pub proof fn lemma_bits_value_stream(bits: Seq<u8>, stream: Seq<u8>, i: int, c: nat)
    requires
        forall|t: int| 0 <= t < c ==> #[trigger] bits[i + t] == stream_bit(stream, i + t),
    ensures
        bits_value(bits, i, c) == stream_bits(stream, i, c),
    decreases c,
{
    if c > 0 {
        lemma_bits_value_stream(bits, stream, i, (c - 1) as nat);
        assert(bits[i + (c - 1)] == stream_bit(stream, i + (c - 1)));
    }
}

/// The eight stream bits of byte `n` spell the byte.
pub proof fn lemma_stream_byte(s: Seq<u8>, n: int)
    requires
        0 <= n < s.len(),
    ensures
        stream_bits(s, 8 * n, 8) == s[n] as nat,
{
    let b = s[n];
    assert forall|t: int| 0 <= t < 8 implies #[trigger] stream_bit(s, 8 * n + t) == (b >> ((7 - t)
        as u8)) & 1u8 by {
        vstd::arithmetic::div_mod::lemma_fundamental_div_mod_converse(8 * n + t, 8, n, t);
    }
    reveal_with_fuel(stream_bits, 9);
    assert(stream_bit(s, 8 * n + 0) == (b >> 7u8) & 1u8);
    assert(stream_bit(s, 8 * n + 1) == (b >> 6u8) & 1u8);
    assert(stream_bit(s, 8 * n + 2) == (b >> 5u8) & 1u8);
    assert(stream_bit(s, 8 * n + 3) == (b >> 4u8) & 1u8);
    assert(stream_bit(s, 8 * n + 4) == (b >> 3u8) & 1u8);
    assert(stream_bit(s, 8 * n + 5) == (b >> 2u8) & 1u8);
    assert(stream_bit(s, 8 * n + 6) == (b >> 1u8) & 1u8);
    assert(stream_bit(s, 8 * n + 7) == (b >> 0u8) & 1u8);
    assert(2 * (2 * (2 * (2 * (2 * (2 * (2 * ((b >> 7u8) & 1u8) + ((b >> 6u8) & 1u8)) + ((b
        >> 5u8) & 1u8)) + ((b >> 4u8) & 1u8)) + ((b >> 3u8) & 1u8)) + ((b >> 2u8) & 1u8)) + ((b
        >> 1u8) & 1u8)) + ((b >> 0u8) & 1u8) == b) by (bit_vector);
}

/// The bytes a grid's data cells spell are those of the stream they carry.
proof fn lemma_grid_bytes(g: Grid, size: nat, nano: bool, stream: Seq<u8>, len: nat)
    requires
        grid_carries(g, size, g.mode, nano, stream),
        len <= stream.len(),
        len * 8 <= grid_bits(g, nano).len(),
    ensures
        pack_bits(grid_bits(g, nano), len) == stream.take(len as int),
{
    let bits = grid_bits(g, nano);
    assert forall|n: int| 0 <= n < len implies #[trigger] pack_bits(bits, len)[n] == stream[n] by {
        assert forall|t: int| 0 <= t < 8 implies #[trigger] bits[8 * n + t] == stream_bit(
            stream,
            8 * n + t,
        ) by {
            lemma_grid_bits(g, size, nano, stream, 8 * n + t);
        }
        lemma_bits_value_stream(bits, stream, 8 * n, 8);
        lemma_stream_byte(stream, n);
    }
    assert(pack_bits(bits, len) =~= stream.take(len as int));
}

/// Fewer bytes than a block's parity leave no room for data.
proof fn lemma_small_capacity(t: nat, k: nat)
    requires
        t < k < 255,
    ensures
        spec_data_capacity(t, k) == 0,
{
    vstd::arithmetic::div_mod::lemma_fundamental_div_mod_converse(t as int, 255, 0, t as int);
    let full = t / 255;
    assert(full == 0);
    assert(full * ((255 - k) as nat) == 0) by (nonlinear_arith)
        requires
            full == 0,
    ;
}

/// The data bytes of a capacity are at most its bytes.
proof fn lemma_capacity_at_most_total(t: nat, e: nat)
    requires
        e <= 255,
    ensures
        spec_data_capacity(t, e) <= t,
{
    if e > 0 {
        let q: int = (t / 255) as int;
        let rem: int = (t % 255) as int;
        vstd::arithmetic::div_mod::lemma_fundamental_div_mod(t as int, 255);
        assert(q * (255 - e) <= q * 255) by (nonlinear_arith)
            requires
                q >= 0,
                e >= 0,
        ;
        assert(t == 255 * q + rem);
    }
}

/// More bytes in all hold at least as many data bytes.
proof fn lemma_capacity_monotone(a: nat, b: nat, e: nat)
    requires
        a <= b,
        e <= 255,
    ensures
        spec_data_capacity(a, e) <= spec_data_capacity(b, e),
{
    if e > 0 {
        let qa: int = (a / 255) as int;
        let ra: int = (a % 255) as int;
        let qb: int = (b / 255) as int;
        let rb: int = (b % 255) as int;
        vstd::arithmetic::div_mod::lemma_fundamental_div_mod(a as int, 255);
        vstd::arithmetic::div_mod::lemma_fundamental_div_mod(b as int, 255);
        assert(qa <= qb) by (nonlinear_arith)
            requires
                a == 255 * qa + ra,
                b == 255 * qb + rb,
                0 <= ra < 255,
                0 <= rb < 255,
                a <= b,
        ;
        if qa == qb {
            assert(ra <= rb);
        } else {
            assert(qa * (255 - e) + (255 - e) <= qb * (255 - e)) by (nonlinear_arith)
                requires
                    qa < qb,
                    e <= 255,
            ;
        }
    }
}

/// On a side of at least 3 the nano layout holds at least as many data bytes as the
/// standard one.
proof fn lemma_nano_holds_more(size: nat, bpc: nat, e: nat)
    requires
        size >= 3,
        e <= 255,
    ensures
        spec_data_capacity(spec_capacity_bytes(size, bpc, false), e) <= spec_data_capacity(
            spec_capacity_bytes(size, bpc, true),
            e,
        ),
{
    let std_cells = num_data_cells(size, false);
    let nano_cells = num_data_cells(size, true);
    assert(0 <= std_cells <= nano_cells) by (nonlinear_arith)
        requires
            size >= 3,
            std_cells == size * size - 2 * size - 1,
            nano_cells == size * size - 6,
    ;
    assert(std_cells * bpc <= nano_cells * bpc) by (nonlinear_arith)
        requires
            0 <= std_cells <= nano_cells,
    ;
    assert(0 <= std_cells * bpc) by (nonlinear_arith)
        requires
            0 <= std_cells,
    ;
    vstd::arithmetic::div_mod::lemma_div_is_ordered(std_cells * bpc, nano_cells * bpc, 8);
    lemma_capacity_monotone(spec_capacity_bytes(size, bpc, false), spec_capacity_bytes(size, bpc, true), e);
}

/// The encoding of as many data bytes as a capacity allows fits in that capacity.
proof fn lemma_encoding_fits(t: nat, k: nat)
    requires
        0 < k < 255,
    ensures
        rs_encoded_len(spec_data_capacity(t, k), k) <= t,
{
    let cd = (255 - k) as nat;
    let full = t / 255;
    let rem = t % 255;
    let rd: nat = if rem >= k {
        (rem - k) as nat
    } else {
        0
    };
    let cap = spec_data_capacity(t, k);
    assert(cap == full * cd + rd);
    assert(rd < cd);
    vstd::arithmetic::div_mod::lemma_fundamental_div_mod_converse(cap as int, cd as int, full as int, rd as int);
    vstd::arithmetic::div_mod::lemma_fundamental_div_mod(t as int, 255);
}

/// The number of bytes a decoder reads from `g` in layout `nano` when it tries `k` parity
/// bytes per block: the whole capacity without parity, else the block-wise encoding of the
/// data capacity at `k`.
pub open spec fn candidate_len(g: Grid, nano: bool, k: nat) -> nat {
    let total = spec_capacity_bytes(g.size as nat, g.mode.spec_bits_per_cell(), nano);
    if k == 0 {
        total
    } else {
        rs_encoded_len(spec_data_capacity(total, k), k)
    }
}

/// The bytes a decoder reads from `g` in layout `nano` when it tries `k` parity bytes.
pub open spec fn candidate_bytes(g: Grid, nano: bool, k: nat) -> Seq<u8> {
    pack_bits(grid_bits(g, nano), candidate_len(g, nano, k))
}

/// Whether trying `k` parity bytes on `g` reads a block that starts with `raw`: the grid has
/// the bytes, and without parity they start with `raw`; with parity, their blocks are
/// codewords whose data bytes start with `raw`.
pub open spec fn candidate_reads(g: Grid, nano: bool, raw: Seq<u8>, k: nat) -> bool {
    let total = spec_capacity_bytes(g.size as nat, g.mode.spec_bits_per_cell(), nano);
    &&& k <= total
    &&& candidate_len(g, nano, k) * 8 <= grid_bits(g, nano).len()
    &&& if k == 0 {
        raw.is_prefix_of(candidate_bytes(g, nano, 0))
    } else {
        &&& blocks_are_codewords(candidate_bytes(g, nano, k), k)
        &&& raw.is_prefix_of(data_part(candidate_bytes(g, nano, k), k))
    }
}

/// Whether an unpacking result is a failure other than a signature mismatch.
pub open spec fn unpack_refused(r: Result<PayloadView, UnpackFailure>) -> bool {
    r matches Err(f) && !(f is SignatureMismatch)
}

/// Whether trying `k` parity bytes on `g` yields neither a payload nor a signature mismatch
/// under the password and verification key: the grid is too small for it, or the block it
/// reads (without parity), or the data bytes of every stream of codewords within half the
/// parity count of each of its blocks (with parity), fail to unpack.
pub open spec fn candidate_fails(
    g: Grid,
    nano: bool,
    k: nat,
    password: Option<Seq<u8>>,
    verify_key: Option<Seq<u8>>,
) -> bool {
    let total = spec_capacity_bytes(g.size as nat, g.mode.spec_bits_per_cell(), nano);
    if k > total || grid_bits(g, nano).len() / 8 < candidate_len(g, nano, k) {
        true
    } else if k == 0 {
        unpack_refused(spec_unpack(candidate_bytes(g, nano, 0), password, verify_key))
    } else {
        forall|cw: Seq<u8>|
            #[trigger] blocks_near(candidate_bytes(g, nano, k), cw, k) ==> unpack_refused(
                spec_unpack(data_part(cw, k), password, verify_key),
            )
    }
}

/// Whether, in the standard layout, every parity count the decoder tries before `e` (in the
/// order 12, 0, 4, 28) fails on `g`.
pub open spec fn earlier_candidates_fail(
    g: Grid,
    e: nat,
    password: Option<Seq<u8>>,
    verify_key: Option<Seq<u8>>,
) -> bool {
    let f12 = candidate_fails(g, false, 12, password, verify_key);
    let f0 = candidate_fails(g, false, 0, password, verify_key);
    let f4 = candidate_fails(g, false, 4, password, verify_key);
    if e == 0 {
        f12
    } else if e == 4 {
        f12 && f0
    } else if e == 28 {
        f12 && f0 && f4
    } else {
        false
    }
}

/// What reading the grid `g` in layout `nano` with the parity count tried first finds: the
/// bytes its data cells spell, Reed-Solomon decoded, start with the packed block `raw`.
spec fn fresh_code_read(g: Grid, nano: bool, raw: Seq<u8>, enc: Seq<u8>) -> bool {
    candidate_reads(g, nano, raw, first_candidate(nano))
}

/// The side an encoder settles on holds the packed block.
proof fn lemma_block_fits(v: EncoderView, len: nat, size: nat)
    requires
        size_choice(v, len, effective_ecc(v)) == Ok::<nat, TSpineError>(size),
        forced_size_ok(v),
    ensures
        len <= data_cap_at(v.color_mode, size, v.nano || size <= 7, effective_ecc(v)),
{
    let ecc = effective_ecc(v);
    match v.forced_size {
        Some(f) => {
            if !v.nano && f <= 7 {
                lemma_nano_holds_more(size, v.color_mode.spec_bits_per_cell(), ecc);
            }
        },
        None => {
            lemma_first_fitting(v, len, ecc, if v.nano || v.min_header {
                5
            } else {
                9
            });
        },
    }
}

/// What a decoder finds in a code built by an encoder, reading it with the layout it
/// was built in and, first, the parity count it tries first in that layout: in the standard
/// layout (12 parity bytes) the blocks are codewords whose data bytes are the padded packed
/// block; in the nano layout (read without parity) the bytes read start with the packed
/// block, when it fits in the first Reed-Solomon block.
#[verifier::spinoff_prover]
#[verifier::rlimit(40)]
proof fn lemma_fresh_code(
    g: Grid,
    v: EncoderView,
    raw: Seq<u8>,
    body_len: nat,
    data_len: nat,
    dual: bool,
    size: nat,
    enc: Seq<u8>,
    m: Metadata,
    nano: bool,
)
    requires
        built_from(v, raw, body_len, data_len, dual, Ok((g, m)), size, enc),
        forced_size_ok(v),
        raw.len() >= 1,
        nano == (v.nano || size <= 7),
        if nano {
            effective_ecc(v) == 0 || raw.len() <= 255 - effective_ecc(v)
        } else {
            effective_ecc(v) == 12 || (effective_ecc(v) == 28 && spec_capacity_bytes(
                size,
                v.color_mode.spec_bits_per_cell(),
                false,
            ) <= 255)
        },
        grid_bits(g, nano).len() == num_data_cells(size, nano) * g.mode.spec_bits_per_cell(),
    ensures
        g.size == size,
        fresh_code_read(g, nano, raw, enc),
{
    let ecc = effective_ecc(v);
    let bpc = v.color_mode.spec_bits_per_cell();
    let total = spec_capacity_bytes(size, bpc, nano);
    let cap = spec_data_capacity(total, ecc);
    let stream = resized(enc, total);
    lemma_block_fits(v, raw.len(), size);
    assert(raw.len() <= cap);
    assert(grid_carries(g, size, v.color_mode, nano, stream));
    let cells = num_data_cells(size, nano);
    assert(total * 8 <= cells * bpc) by {
        vstd::arithmetic::div_mod::lemma_fundamental_div_mod((cells * bpc) as int, 8);
    }
    if nano {
        if ecc == 0 {
            assert(enc == resized(raw, cap));
        } else {
            let n: nat = if cap < 255 - ecc {
                cap
            } else {
                (255 - ecc) as nat
            };
            assert(enc.take(n as int) == resized(raw, cap).take(n as int));
            lemma_capacity_at_most_total(total, ecc);
            assert(raw.len() <= n <= cap <= total);
            assert(n <= enc.len());
            assert forall|i: int| 0 <= i < raw.len() implies #[trigger] stream[i] == raw[i] by {
                assert(enc.take(n as int)[i] == enc[i]);
                assert(resized(raw, cap).take(n as int)[i] == resized(raw, cap)[i]);
                assert(resized(raw, cap)[i] == raw[i]);
                assert(stream[i] == enc[i]);
            }
        }
        lemma_grid_bytes(g, size, nano, stream, total);
        assert(stream.take(total as int) =~= stream);
    } else {
        lemma_std_code_reads(g, v, raw, body_len, data_len, dual, size, enc, m);
    }
}

/// A code built in the standard layout reads back with its own parity count; one built with
/// 28 parity bytes whose capacity is a single block reads back with 12 as well, since a
/// codeword with 28 parity bytes is one with 12.
#[verifier::spinoff_prover]
#[verifier::rlimit(40)]
proof fn lemma_std_code_reads(
    g: Grid,
    v: EncoderView,
    raw: Seq<u8>,
    body_len: nat,
    data_len: nat,
    dual: bool,
    size: nat,
    enc: Seq<u8>,
    m: Metadata,
)
    requires
        built_from(v, raw, body_len, data_len, dual, Ok((g, m)), size, enc),
        forced_size_ok(v),
        raw.len() >= 1,
        !(v.nano || size <= 7),
        grid_bits(g, false).len() == num_data_cells(size, false) * g.mode.spec_bits_per_cell(),
    ensures
        g.size == size,
        candidate_reads(g, false, raw, effective_ecc(v)),
        effective_ecc(v) == 28 && spec_capacity_bytes(size, g.mode.spec_bits_per_cell(), false)
            <= 255 ==> candidate_reads(g, false, raw, 12),
{
    let ecc = effective_ecc(v);
    let bpc = v.color_mode.spec_bits_per_cell();
    let total = spec_capacity_bytes(size, bpc, false);
    let cap = spec_data_capacity(total, ecc);
    let stream = resized(enc, total);
    lemma_block_fits(v, raw.len(), size);
    assert(raw.len() <= cap);
    assert(grid_carries(g, size, v.color_mode, false, stream));
    let cells = num_data_cells(size, false);
    assert(total * 8 <= cells * bpc) by {
        vstd::arithmetic::div_mod::lemma_fundamental_div_mod((cells * bpc) as int, 8);
    }
    assert(ecc < 255);
    if ecc == 0 {
        assert(enc == resized(raw, cap));
        assert(cap == total);
        assert(enc.len() == total);
        assert(stream == enc);
        lemma_grid_bytes(g, size, false, stream, total);
        assert(stream.take(total as int) =~= stream);
        assert(candidate_bytes(g, false, 0) == enc);
    } else {
        if total < ecc {
            lemma_small_capacity(total, ecc);
        }
        assert(total >= ecc);
        lemma_rs_encoding_len(resized(raw, cap), enc, ecc);
        lemma_encoding_fits(total, ecc);
        lemma_grid_bytes(g, size, false, stream, enc.len());
        assert(stream.take(enc.len() as int) =~= enc);
        lemma_decode_inverts_encode(resized(raw, cap), enc, ecc);
        assert(candidate_bytes(g, false, ecc) == enc);
        if ecc == 28 && total <= 255 {
            let c12 = spec_data_capacity(total, 12);
            if total == 255 {
                vstd::arithmetic::div_mod::lemma_fundamental_div_mod_converse(255, 255, 1, 0);
                assert(cap == 227);
                assert(c12 == 243);
                vstd::arithmetic::div_mod::lemma_fundamental_div_mod_converse(227, 227, 1, 0);
                vstd::arithmetic::div_mod::lemma_fundamental_div_mod_converse(243, 243, 1, 0);
            } else {
                vstd::arithmetic::div_mod::lemma_fundamental_div_mod_converse(total as int, 255, 0, total as int);
                assert(cap == total - 28);
                assert(c12 == total - 12);
                vstd::arithmetic::div_mod::lemma_fundamental_div_mod_converse(cap as int, 227, 0, cap as int);
                vstd::arithmetic::div_mod::lemma_fundamental_div_mod_converse(c12 as int, 243, 0, c12 as int);
            }
            assert(rs_encoded_len(cap, 28) == total);
            assert(rs_encoded_len(c12, 12) == total);
            assert(candidate_len(g, false, 12) == total);
            assert(enc.len() == total);
            assert(candidate_bytes(g, false, 12) == enc);
            assert(first_block_len(enc) == total);
            assert(enc.take(total as int) =~= enc);
            assert(enc.skip(total as int) =~= seq![]);
            assert(is_codeword(enc, 28));
            assert forall|t: nat| t < 12 implies #[trigger] poly_eval(enc, apow(t)) == 0 by {
                assert(poly_eval(enc, apow(t)) == 0);
            }
            assert(blocks_are_codewords(enc.skip(total as int), 12));
            assert(blocks_are_codewords(enc, 12));
            assert(data_part(enc.skip(total as int), 28) =~= seq![]);
            assert(data_part(enc.skip(total as int), 12) =~= seq![]);
            assert(data_part(enc, 28) =~= enc.take(total - 28));
            assert(data_part(enc, 12) =~= enc.take(total - 12));
            assert(raw.is_prefix_of(enc.take(total - 28)));
            assert forall|i: int| 0 <= i < raw.len() implies #[trigger] enc.take(total - 12)[i]
                == raw[i] by {
                assert(enc.take(total - 28)[i] == raw[i]);
            }
        }
    }
}

/// Every fresh code read in the layout it was built in reads as built.
proof fn lemma_fresh_codes_read(grid: Grid, is_nano: bool)
    requires
        grid_bits(grid, is_nano).len() == num_data_cells(grid.size as nat, is_nano)
            * grid.mode.spec_bits_per_cell(),
    ensures
        forall|
            data: Seq<u8>,
            v: EncoderView,
            raw: Seq<u8>,
            body: Seq<u8>,
            iv: Seq<u8>,
            ts: u64,
            size: nat,
            enc: Seq<u8>,
            m: Metadata,
        |
            #[trigger] fresh_single_code(grid, data, v, raw, body, iv, ts, size, enc, m)
                && read_as_built(v, raw, size, is_nano) ==> fresh_code_read(
            grid,
            is_nano,
            raw,
            enc,
        ),
        forall|
            public_data: Seq<u8>,
            private_data: Seq<u8>,
            v: EncoderView,
            raw: Seq<u8>,
            body: Seq<u8>,
            iv: Seq<u8>,
            ts: u64,
            size: nat,
            enc: Seq<u8>,
            m: Metadata,
        |
            #[trigger] fresh_dual_code(
                grid,
                public_data,
                private_data,
                v,
                raw,
                body,
                iv,
                ts,
                size,
                enc,
                m,
            ) && read_as_built(v, raw, size, is_nano) ==> fresh_code_read(
            grid,
            is_nano,
            raw,
            enc,
        ),
{
    assert forall|
        data: Seq<u8>,
        v: EncoderView,
        raw: Seq<u8>,
        body: Seq<u8>,
        iv: Seq<u8>,
        ts: u64,
        size: nat,
        enc: Seq<u8>,
        m: Metadata,
    |
        #[trigger] fresh_single_code(grid, data, v, raw, body, iv, ts, size, enc, m)
            && read_as_built(v, raw, size, is_nano) implies fresh_code_read(
        grid,
        is_nano,
        raw,
        enc,
    ) by {
        assert(grid.size == size);
        lemma_fresh_code(grid, v, raw, body.len(), data.len(), false, size, enc, m, is_nano);
    }
    assert forall|
        public_data: Seq<u8>,
        private_data: Seq<u8>,
        v: EncoderView,
        raw: Seq<u8>,
        body: Seq<u8>,
        iv: Seq<u8>,
        ts: u64,
        size: nat,
        enc: Seq<u8>,
        m: Metadata,
    |
        #[trigger] fresh_dual_code(
            grid,
            public_data,
            private_data,
            v,
            raw,
            body,
            iv,
            ts,
            size,
            enc,
            m,
        ) && read_as_built(v, raw, size, is_nano) implies fresh_code_read(
        grid,
        is_nano,
        raw,
        enc,
    ) by {
        assert(grid.size == size);
        lemma_fresh_code(
            grid,
            v,
            raw,
            body.len(),
            public_data.len() + private_data.len(),
            true,
            size,
            enc,
            m,
            is_nano,
        );
    }
}

/// Whether `g` is a fresh single code built in the standard layout and read there, with the
/// password it was encrypted under and a verification key that accepts its signature, such
/// that the parity counts the decoder tries before the one it was built with all fail.
pub open spec fn fresh_single_after_failures(
    g: Grid,
    data: Seq<u8>,
    v: EncoderView,
    raw: Seq<u8>,
    body: Seq<u8>,
    iv: Seq<u8>,
    ts: u64,
    size: nat,
    enc: Seq<u8>,
    m: Metadata,
    nano_read: bool,
    password: Option<Seq<u8>>,
    verify_key: Option<Seq<u8>>,
) -> bool {
    &&& fresh_single_code(g, data, v, raw, body, iv, ts, size, enc, m)
    &&& read_in_standard(v, size, nano_read)
    &&& earlier_candidates_fail(g, effective_ecc(v), password, verify_key)
    &&& v.password == password
    &&& single_readable(body, data, v.sign_key, verify_key, v.min_header)
}

/// Whether `g` is a fresh dual code built in the standard layout and read there, with the
/// password it was encrypted under and a verification key that accepts its signature, such
/// that the parity counts the decoder tries before the one it was built with all fail.
pub open spec fn fresh_dual_after_failures(
    g: Grid,
    public_data: Seq<u8>,
    private_data: Seq<u8>,
    v: EncoderView,
    raw: Seq<u8>,
    body: Seq<u8>,
    iv: Seq<u8>,
    ts: u64,
    size: nat,
    enc: Seq<u8>,
    m: Metadata,
    nano_read: bool,
    password: Option<Seq<u8>>,
    verify_key: Option<Seq<u8>>,
) -> bool {
    &&& fresh_dual_code(g, public_data, private_data, v, raw, body, iv, ts, size, enc, m)
    &&& read_in_standard(v, size, nano_read)
    &&& earlier_candidates_fail(g, effective_ecc(v), password, verify_key)
    &&& v.password == password
    &&& dual_readable(body, public_data, private_data, v.sign_key, verify_key, v.min_header)
}

/// The layout a decoder reads a grid of side `size` in: the one forced, else nano for sides
/// up to 7.
pub open spec fn read_layout(forced: Option<bool>, size: usize) -> bool {
    match forced {
        Some(b) => b,
        None => size <= 7,
    }
}

/// The place of `e` in the order in which the decoder tries parity counts in the standard
/// layout: 12, 0, 4, 28.
pub open spec fn candidate_place(e: nat) -> int {
    if e == 12 {
        0
    } else if e == 0 {
        1
    } else if e == 4 {
        2
    } else {
        3
    }
}

/// Every fresh code read in the standard layout it was built in reads back with its own parity
/// count.
proof fn lemma_std_codes_read(grid: Grid, is_nano: bool)
    requires
        grid_bits(grid, is_nano).len() == num_data_cells(grid.size as nat, is_nano)
            * grid.mode.spec_bits_per_cell(),
    ensures
        forall|
            data: Seq<u8>,
            v: EncoderView,
            raw: Seq<u8>,
            body: Seq<u8>,
            iv: Seq<u8>,
            ts: u64,
            size: nat,
            enc: Seq<u8>,
            m: Metadata,
        |
            #[trigger] fresh_single_code(grid, data, v, raw, body, iv, ts, size, enc, m)
                && read_in_standard(v, size, is_nano) ==> candidate_reads(
            grid,
            false,
            raw,
            effective_ecc(v),
        ),
        forall|
            public_data: Seq<u8>,
            private_data: Seq<u8>,
            v: EncoderView,
            raw: Seq<u8>,
            body: Seq<u8>,
            iv: Seq<u8>,
            ts: u64,
            size: nat,
            enc: Seq<u8>,
            m: Metadata,
        |
            #[trigger] fresh_dual_code(
                grid,
                public_data,
                private_data,
                v,
                raw,
                body,
                iv,
                ts,
                size,
                enc,
                m,
            ) && read_in_standard(v, size, is_nano) ==> candidate_reads(
            grid,
            false,
            raw,
            effective_ecc(v),
        ),
{
    assert forall|
        data: Seq<u8>,
        v: EncoderView,
        raw: Seq<u8>,
        body: Seq<u8>,
        iv: Seq<u8>,
        ts: u64,
        size: nat,
        enc: Seq<u8>,
        m: Metadata,
    |
        #[trigger] fresh_single_code(grid, data, v, raw, body, iv, ts, size, enc, m)
            && read_in_standard(v, size, is_nano) implies candidate_reads(
        grid,
        false,
        raw,
        effective_ecc(v),
    ) by {
        assert(grid.size == size);
        lemma_std_code_reads(grid, v, raw, body.len(), data.len(), false, size, enc, m);
    }
    assert forall|
        public_data: Seq<u8>,
        private_data: Seq<u8>,
        v: EncoderView,
        raw: Seq<u8>,
        body: Seq<u8>,
        iv: Seq<u8>,
        ts: u64,
        size: nat,
        enc: Seq<u8>,
        m: Metadata,
    |
        #[trigger] fresh_dual_code(
            grid,
            public_data,
            private_data,
            v,
            raw,
            body,
            iv,
            ts,
            size,
            enc,
            m,
        ) && read_in_standard(v, size, is_nano) implies candidate_reads(
        grid,
        false,
        raw,
        effective_ecc(v),
    ) by {
        assert(grid.size == size);
        lemma_std_code_reads(
            grid,
            v,
            raw,
            body.len(),
            public_data.len() + private_data.len(),
            true,
            size,
            enc,
            m,
        );
    }
}

/// A parity count that fails, tried on a grid that has its bytes, gives a block that does not
/// unpack, and whose failure is no signature mismatch.
proof fn lemma_failed_candidate(
    g: Grid,
    nano: bool,
    k: nat,
    block: Seq<u8>,
    password: Option<Seq<u8>>,
    verify_key: Option<Seq<u8>>,
)
    requires
        candidate_fails(g, nano, k, password, verify_key),
        k <= spec_capacity_bytes(g.size as nat, g.mode.spec_bits_per_cell(), nano),
        grid_bits(g, nano).len() / 8 >= candidate_len(g, nano, k),
        k == 0 ==> block == candidate_bytes(g, nano, 0),
        k > 0 ==> exists|cw: Seq<u8>|
            #[trigger] blocks_near(candidate_bytes(g, nano, k), cw, k) && block == data_part(cw, k),
    ensures
        unpack_refused(spec_unpack(block, password, verify_key)),
{
    if k > 0 {
        let cw = choose|cw: Seq<u8>|
            #[trigger] blocks_near(candidate_bytes(g, nano, k), cw, k) && block == data_part(cw, k);
        assert(blocks_near(candidate_bytes(g, nano, k), cw, k));
    }
}

/// Whether every parity count the decoder tries on `g` in layout `nano` (0, 1, 2, 4 in the
/// nano layout; 12, 0, 4, 28 in the standard one) fails.
pub open spec fn all_candidates_fail(
    g: Grid,
    nano: bool,
    password: Option<Seq<u8>>,
    verify_key: Option<Seq<u8>>,
) -> bool {
    if nano {
        &&& candidate_fails(g, true, 0, password, verify_key)
        &&& candidate_fails(g, true, 1, password, verify_key)
        &&& candidate_fails(g, true, 2, password, verify_key)
        &&& candidate_fails(g, true, 4, password, verify_key)
    } else {
        &&& candidate_fails(g, false, 12, password, verify_key)
        &&& candidate_fails(g, false, 0, password, verify_key)
        &&& candidate_fails(g, false, 4, password, verify_key)
        &&& candidate_fails(g, false, 28, password, verify_key)
    }
}

/// One attempt of the decoder in the standard layout on a fresh single code whose earlier
/// parity counts fail: at the place of the code's own parity count the block unpacks to the
/// data; before it, it fails, with no signature mismatch.
#[verifier::spinoff_prover]
#[verifier::rlimit(40)]
proof fn lemma_attempt_after_failures(
    g: Grid,
    i: int,
    k: nat,
    block: Seq<u8>,
    res: Result<DecodedPayload, TSpineError>,
    password: Option<Seq<u8>>,
    verify_key: Option<Seq<u8>>,
)
    requires
        0 <= i < 4,
        k == seq![12nat, 0nat, 4nat, 28nat][i],
        k <= spec_capacity_bytes(g.size as nat, g.mode.spec_bits_per_cell(), false),
        grid_bits(g, false).len() / 8 >= candidate_len(g, false, k),
        k == 0 ==> block == candidate_bytes(g, false, 0),
        k > 0 ==> exists|cw: Seq<u8>|
            #[trigger] blocks_near(candidate_bytes(g, false, k), cw, k) && block == data_part(cw, k),
        k > 0 && blocks_are_codewords(candidate_bytes(g, false, k), k) ==> block == data_part(
            candidate_bytes(g, false, k),
            k,
        ),
        unpack_reads(block, password, verify_key, res),
    ensures
        forall|
            data: Seq<u8>,
            v: EncoderView,
            raw: Seq<u8>,
            body: Seq<u8>,
            iv: Seq<u8>,
            ts: u64,
            size: nat,
            enc: Seq<u8>,
            m: Metadata,
        |
            #[trigger] fresh_single_after_failures(
                g,
                data,
                v,
                raw,
                body,
                iv,
                ts,
                size,
                enc,
                m,
                false,
                password,
                verify_key,
            ) && i <= candidate_place(effective_ecc(v)) && candidate_reads(
                g,
                false,
                raw,
                effective_ecc(v),
            ) ==> (i == candidate_place(effective_ecc(v)) ==> (res matches Ok(p) && p@ == single_view(
                data,
            ))) && (i < candidate_place(effective_ecc(v)) ==> (res matches Err(e)
                && !(e is SignatureMismatch))),
        forall|
            public_data: Seq<u8>,
            private_data: Seq<u8>,
            v: EncoderView,
            raw: Seq<u8>,
            body: Seq<u8>,
            iv: Seq<u8>,
            ts: u64,
            size: nat,
            enc: Seq<u8>,
            m: Metadata,
        |
            #[trigger] fresh_dual_after_failures(
                g,
                public_data,
                private_data,
                v,
                raw,
                body,
                iv,
                ts,
                size,
                enc,
                m,
                false,
                password,
                verify_key,
            ) && i <= candidate_place(effective_ecc(v)) && candidate_reads(
                g,
                false,
                raw,
                effective_ecc(v),
            ) ==> (i == candidate_place(effective_ecc(v)) ==> (res matches Ok(p) && p@
                == PayloadView::Dual(lossy_text(public_data), lossy_text(private_data)))) && (i
                < candidate_place(effective_ecc(v)) ==> (res matches Err(e)
                && !(e is SignatureMismatch))),
{
    assert forall|
        data: Seq<u8>,
        v: EncoderView,
        raw: Seq<u8>,
        body: Seq<u8>,
        iv: Seq<u8>,
        ts: u64,
        size: nat,
        enc: Seq<u8>,
        m: Metadata,
    |
        #[trigger] fresh_single_after_failures(
            g,
            data,
            v,
            raw,
            body,
            iv,
            ts,
            size,
            enc,
            m,
            false,
            password,
            verify_key,
        ) && i <= candidate_place(effective_ecc(v)) && candidate_reads(
            g,
            false,
            raw,
            effective_ecc(v),
        ) implies (i == candidate_place(effective_ecc(v)) ==> (res matches Ok(p) && p@
        == single_view(data))) && (i < candidate_place(effective_ecc(v)) ==> (res matches Err(e)
        && !(e is SignatureMismatch))) by {
        let e = effective_ecc(v);
        if i < candidate_place(e) {
            assert(candidate_fails(g, false, k, password, verify_key));
            lemma_failed_candidate(g, false, k, block, password, verify_key);
        } else {
            assert(k == e);
            assert(raw.is_prefix_of(block));
            assert(single_packing(raw, body, data, password, v.sign_key, v.min_header, iv, ts));
        }
    }
    assert forall|
        public_data: Seq<u8>,
        private_data: Seq<u8>,
        v: EncoderView,
        raw: Seq<u8>,
        body: Seq<u8>,
        iv: Seq<u8>,
        ts: u64,
        size: nat,
        enc: Seq<u8>,
        m: Metadata,
    |
        #[trigger] fresh_dual_after_failures(
            g,
            public_data,
            private_data,
            v,
            raw,
            body,
            iv,
            ts,
            size,
            enc,
            m,
            false,
            password,
            verify_key,
        ) && i <= candidate_place(effective_ecc(v)) && candidate_reads(
            g,
            false,
            raw,
            effective_ecc(v),
        ) implies (i == candidate_place(effective_ecc(v)) ==> (res matches Ok(p) && p@
        == PayloadView::Dual(lossy_text(public_data), lossy_text(private_data)))) && (i
        < candidate_place(effective_ecc(v)) ==> (res matches Err(e) && !(e is SignatureMismatch))) by {
        let e = effective_ecc(v);
        if i < candidate_place(e) {
            assert(candidate_fails(g, false, k, password, verify_key));
            lemma_failed_candidate(g, false, k, block, password, verify_key);
        } else {
            assert(k == e);
            assert(raw.is_prefix_of(block));
            assert(dual_packing(
                raw,
                body,
                public_data,
                private_data,
                password,
                v.sign_key,
                v.min_header,
                iv,
                ts,
            ));
        }
    }
}

/// What unpacking `block` under the password and verification key gives, as far as fresh
/// codes go: the data of a readable single packing it starts with; a signature mismatch for a
/// signed single packing whose signature the key refuses; the texts of a readable dual
/// packing; without a password, the public text of an encrypted dual packing.
spec fn unpack_reads(
    block: Seq<u8>,
    password: Option<Seq<u8>>,
    verify_key: Option<Seq<u8>>,
    res: Result<DecodedPayload, TSpineError>,
) -> bool {
    &&& result_is(res, spec_unpack(block, password, verify_key))
    &&& forall|
        raw: Seq<u8>,
        body: Seq<u8>,
        data: Seq<u8>,
        sign_key: Option<Seq<u8>>,
        min_header: bool,
        iv: Seq<u8>,
        ts: u64,
    |
        #[trigger] single_packing(raw, body, data, password, sign_key, min_header, iv, ts)
            && single_readable(body, data, sign_key, verify_key, min_header)
            && raw.is_prefix_of(block) ==> (res matches Ok(d) && d@ == single_view(data))
    &&& forall|
        raw: Seq<u8>,
        body: Seq<u8>,
        data: Seq<u8>,
        pwd: Option<Seq<u8>>,
        sign_key: Option<Seq<u8>>,
        min_header: bool,
        iv: Seq<u8>,
        ts: u64,
    |
        #[trigger] single_packing(raw, body, data, pwd, sign_key, min_header, iv, ts)
            && single_field_fits(body, min_header) && raw.is_prefix_of(block) && sign_key is Some
            && verify_key is Some && !tag_matches(
            verify_key.unwrap(),
            body,
            sig_block(sign_key, body, min_header),
        ) ==> res == Err::<DecodedPayload, TSpineError>(TSpineError::SignatureMismatch)
    &&& forall|
        raw: Seq<u8>,
        body: Seq<u8>,
        public_data: Seq<u8>,
        private_data: Seq<u8>,
        sign_key: Option<Seq<u8>>,
        min_header: bool,
        iv: Seq<u8>,
        ts: u64,
    |
        #[trigger] dual_packing(
            raw,
            body,
            public_data,
            private_data,
            password,
            sign_key,
            min_header,
            iv,
            ts,
        ) && dual_readable(body, public_data, private_data, sign_key, verify_key, min_header)
            && raw.is_prefix_of(block) ==> (res matches Ok(d) && d@ == PayloadView::Dual(
            lossy_text(public_data),
            lossy_text(private_data),
        ))
    &&& password is None ==> forall|
        raw: Seq<u8>,
        body: Seq<u8>,
        public_data: Seq<u8>,
        private_data: Seq<u8>,
        pw: Seq<u8>,
        sign_key: Option<Seq<u8>>,
        min_header: bool,
        iv: Seq<u8>,
        ts: u64,
    |
        #[trigger] dual_packing(
            raw,
            body,
            public_data,
            private_data,
            Some(pw),
            sign_key,
            min_header,
            iv,
            ts,
        ) && dual_fields_fit(body, public_data, sign_key, verify_key, min_header)
            && raw.is_prefix_of(block) ==> (res matches Ok(d) && d@ == PayloadView::Dual(
            lossy_text(public_data),
            "[Pass password to decrypt]"@,
        ))
}

/// The block one attempt of the decoder reads with `k` parity bytes: the bytes themselves
/// without parity; with parity, the data bytes of a stream of codewords near them, those of
/// the bytes themselves when their blocks are codewords.
spec fn attempt_block(g: Grid, nano: bool, k: nat, block: Seq<u8>) -> bool {
    &&& k <= spec_capacity_bytes(g.size as nat, g.mode.spec_bits_per_cell(), nano)
    &&& grid_bits(g, nano).len() / 8 >= candidate_len(g, nano, k)
    &&& k == 0 ==> block == candidate_bytes(g, nano, 0)
    &&& k > 0 ==> exists|cw: Seq<u8>|
        #[trigger] blocks_near(candidate_bytes(g, nano, k), cw, k) && block == data_part(cw, k)
    &&& k > 0 && blocks_are_codewords(candidate_bytes(g, nano, k), k) ==> block == data_part(
        candidate_bytes(g, nano, k),
        k,
    )
}

/// One attempt of the decoder, with `k` parity bytes at place `i`, on a fresh code: the first
/// attempt reads the codes its parity count reads as built; in the standard layout, the
/// attempt at a code's own parity count reads it when the earlier ones fail, and the earlier
/// ones fail with no signature mismatch.
#[verifier::spinoff_prover]
#[verifier::rlimit(60)]
proof fn lemma_attempt(
    g: Grid,
    nano: bool,
    i: int,
    k: nat,
    block: Seq<u8>,
    res: Result<DecodedPayload, TSpineError>,
    password: Option<Seq<u8>>,
    verify_key: Option<Seq<u8>>,
)
    requires
        0 <= i < 4,
        i == 0 ==> k == first_candidate(nano),
        !nano ==> k == seq![12nat, 0nat, 4nat, 28nat][i],
        nano ==> k == seq![0nat, 1nat, 2nat, 4nat][i],
        attempt_block(g, nano, k, block),
        unpack_reads(block, password, verify_key, res),
    ensures
        all_candidates_fail(g, nano, password, verify_key) ==> res is Err,
        forall|
            data: Seq<u8>,
            v: EncoderView,
            raw: Seq<u8>,
            body: Seq<u8>,
            iv: Seq<u8>,
            ts: u64,
            size: nat,
            enc: Seq<u8>,
            m: Metadata,
        |
            #[trigger] fresh_single_code(g, data, v, raw, body, iv, ts, size, enc, m) && i == 0
                && fresh_code_read(g, nano, raw, enc) && single_field_fits(body, v.min_header)
                && v.sign_key is Some && verify_key is Some && !tag_matches(
                verify_key.unwrap(),
                body,
                sig_block(v.sign_key, body, v.min_header),
            ) ==> res == Err::<DecodedPayload, TSpineError>(TSpineError::SignatureMismatch),
        forall|
            data: Seq<u8>,
            v: EncoderView,
            raw: Seq<u8>,
            body: Seq<u8>,
            iv: Seq<u8>,
            ts: u64,
            size: nat,
            enc: Seq<u8>,
            m: Metadata,
        |
            #[trigger] fresh_single_code(g, data, v, raw, body, iv, ts, size, enc, m) && i == 0
                && fresh_code_read(g, nano, raw, enc) && v.password == password
                && single_readable(body, data, v.sign_key, verify_key, v.min_header) ==> (res matches Ok(
                p,
            ) && p@ == single_view(data)),
        forall|
            public_data: Seq<u8>,
            private_data: Seq<u8>,
            v: EncoderView,
            raw: Seq<u8>,
            body: Seq<u8>,
            iv: Seq<u8>,
            ts: u64,
            size: nat,
            enc: Seq<u8>,
            m: Metadata,
        |
            #[trigger] fresh_dual_code(
                g,
                public_data,
                private_data,
                v,
                raw,
                body,
                iv,
                ts,
                size,
                enc,
                m,
            ) && i == 0 && fresh_code_read(g, nano, raw, enc) && v.password == password
                && dual_readable(body, public_data, private_data, v.sign_key, verify_key, v.min_header)
                ==> (res matches Ok(p) && p@ == PayloadView::Dual(
                lossy_text(public_data),
                lossy_text(private_data),
            )),
        forall|
            public_data: Seq<u8>,
            private_data: Seq<u8>,
            v: EncoderView,
            raw: Seq<u8>,
            body: Seq<u8>,
            iv: Seq<u8>,
            ts: u64,
            size: nat,
            enc: Seq<u8>,
            m: Metadata,
        |
            #[trigger] fresh_dual_code(
                g,
                public_data,
                private_data,
                v,
                raw,
                body,
                iv,
                ts,
                size,
                enc,
                m,
            ) && i == 0 && fresh_code_read(g, nano, raw, enc) && password is None
                && v.password is Some && dual_fields_fit(
                body,
                public_data,
                v.sign_key,
                verify_key,
                v.min_header,
            ) ==> (res matches Ok(p) && p@ == PayloadView::Dual(
                lossy_text(public_data),
                "[Pass password to decrypt]"@,
            )),
        forall|
            data: Seq<u8>,
            v: EncoderView,
            raw: Seq<u8>,
            body: Seq<u8>,
            iv: Seq<u8>,
            ts: u64,
            size: nat,
            enc: Seq<u8>,
            m: Metadata,
        |
            #[trigger] fresh_single_after_failures(
                g,
                data,
                v,
                raw,
                body,
                iv,
                ts,
                size,
                enc,
                m,
                nano,
                password,
                verify_key,
            ) && i <= candidate_place(effective_ecc(v)) && candidate_reads(
                g,
                false,
                raw,
                effective_ecc(v),
            ) ==> (i == candidate_place(effective_ecc(v)) ==> (res matches Ok(p) && p@ == single_view(
                data,
            ))) && (i < candidate_place(effective_ecc(v)) ==> (res matches Err(e)
                && !(e is SignatureMismatch))),
        forall|
            public_data: Seq<u8>,
            private_data: Seq<u8>,
            v: EncoderView,
            raw: Seq<u8>,
            body: Seq<u8>,
            iv: Seq<u8>,
            ts: u64,
            size: nat,
            enc: Seq<u8>,
            m: Metadata,
        |
            #[trigger] fresh_dual_after_failures(
                g,
                public_data,
                private_data,
                v,
                raw,
                body,
                iv,
                ts,
                size,
                enc,
                m,
                nano,
                password,
                verify_key,
            ) && i <= candidate_place(effective_ecc(v)) && candidate_reads(
                g,
                false,
                raw,
                effective_ecc(v),
            ) ==> (i == candidate_place(effective_ecc(v)) ==> (res matches Ok(p) && p@
                == PayloadView::Dual(lossy_text(public_data), lossy_text(private_data)))) && (i
                < candidate_place(effective_ecc(v)) ==> (res matches Err(e)
                && !(e is SignatureMismatch))),
{
    assert forall|
        data: Seq<u8>,
        v: EncoderView,
        raw: Seq<u8>,
        body: Seq<u8>,
        iv: Seq<u8>,
        ts: u64,
        size: nat,
        enc: Seq<u8>,
        m: Metadata,
    |
        #[trigger] fresh_single_code(g, data, v, raw, body, iv, ts, size, enc, m) && i == 0
            && fresh_code_read(g, nano, raw, enc) && single_field_fits(body, v.min_header)
            && v.sign_key is Some && verify_key is Some && !tag_matches(
            verify_key.unwrap(),
            body,
            sig_block(v.sign_key, body, v.min_header),
        ) implies res == Err::<DecodedPayload, TSpineError>(TSpineError::SignatureMismatch) by {
        assert(raw.is_prefix_of(block));
        assert(single_packing(raw, body, data, v.password, v.sign_key, v.min_header, iv, ts));
    }
    assert forall|
        data: Seq<u8>,
        v: EncoderView,
        raw: Seq<u8>,
        body: Seq<u8>,
        iv: Seq<u8>,
        ts: u64,
        size: nat,
        enc: Seq<u8>,
        m: Metadata,
    |
        #[trigger] fresh_single_code(g, data, v, raw, body, iv, ts, size, enc, m) && i == 0
            && fresh_code_read(g, nano, raw, enc) && v.password == password
            && single_readable(body, data, v.sign_key, verify_key, v.min_header) implies (res matches Ok(
        p,
    ) && p@ == single_view(data)) by {
        assert(raw.is_prefix_of(block));
        assert(single_packing(raw, body, data, password, v.sign_key, v.min_header, iv, ts));
    }
    assert forall|
        public_data: Seq<u8>,
        private_data: Seq<u8>,
        v: EncoderView,
        raw: Seq<u8>,
        body: Seq<u8>,
        iv: Seq<u8>,
        ts: u64,
        size: nat,
        enc: Seq<u8>,
        m: Metadata,
    |
        #[trigger] fresh_dual_code(
            g,
            public_data,
            private_data,
            v,
            raw,
            body,
            iv,
            ts,
            size,
            enc,
            m,
        ) && i == 0 && fresh_code_read(g, nano, raw, enc) && v.password == password
            && dual_readable(body, public_data, private_data, v.sign_key, verify_key, v.min_header)
            implies (res matches Ok(p) && p@ == PayloadView::Dual(
        lossy_text(public_data),
        lossy_text(private_data),
    )) by {
        assert(raw.is_prefix_of(block));
        assert(dual_packing(
            raw,
            body,
            public_data,
            private_data,
            password,
            v.sign_key,
            v.min_header,
            iv,
            ts,
        ));
    }
    assert forall|
        public_data: Seq<u8>,
        private_data: Seq<u8>,
        v: EncoderView,
        raw: Seq<u8>,
        body: Seq<u8>,
        iv: Seq<u8>,
        ts: u64,
        size: nat,
        enc: Seq<u8>,
        m: Metadata,
    |
        #[trigger] fresh_dual_code(
            g,
            public_data,
            private_data,
            v,
            raw,
            body,
            iv,
            ts,
            size,
            enc,
            m,
        ) && i == 0 && fresh_code_read(g, nano, raw, enc) && password is None
            && v.password is Some && dual_fields_fit(
            body,
            public_data,
            v.sign_key,
            verify_key,
            v.min_header,
        ) implies (res matches Ok(p) && p@ == PayloadView::Dual(
        lossy_text(public_data),
        "[Pass password to decrypt]"@,
    )) by {
        assert(raw.is_prefix_of(block));
        assert(dual_packing(
            raw,
            body,
            public_data,
            private_data,
            Some(v.password.unwrap()),
            v.sign_key,
            v.min_header,
            iv,
            ts,
        ));
    }
    if !nano {
        lemma_attempt_after_failures(g, i, k, block, res, password, verify_key);
    }
    if all_candidates_fail(g, nano, password, verify_key) {
        assert(candidate_fails(g, nano, k, password, verify_key));
        lemma_failed_candidate(g, nano, k, block, password, verify_key);
    }
}

/// An attempt of the decoder in the standard layout that reads no block (the grid is too
/// small for it, or the bytes it reads are not codewords) is not at the place of the parity
/// count of a fresh code that its own count reads.
proof fn lemma_attempt_skipped(g: Grid, i: int, k: nat, password: Option<Seq<u8>>, verify_key: Option<Seq<u8>>)
    requires
        0 <= i < 4,
        k == seq![12nat, 0nat, 4nat, 28nat][i],
        k > spec_capacity_bytes(g.size as nat, g.mode.spec_bits_per_cell(), false)
            || grid_bits(g, false).len() / 8 < candidate_len(g, false, k) || (k > 0
            && !blocks_are_codewords(candidate_bytes(g, false, k), k)),
    ensures
        forall|
            data: Seq<u8>,
            v: EncoderView,
            raw: Seq<u8>,
            body: Seq<u8>,
            iv: Seq<u8>,
            ts: u64,
            size: nat,
            enc: Seq<u8>,
            m: Metadata,
        |
            #[trigger] fresh_single_after_failures(
                g,
                data,
                v,
                raw,
                body,
                iv,
                ts,
                size,
                enc,
                m,
                false,
                password,
                verify_key,
            ) && i <= candidate_place(effective_ecc(v)) && candidate_reads(
                g,
                false,
                raw,
                effective_ecc(v),
            ) ==> i < candidate_place(effective_ecc(v)),
        forall|
            public_data: Seq<u8>,
            private_data: Seq<u8>,
            v: EncoderView,
            raw: Seq<u8>,
            body: Seq<u8>,
            iv: Seq<u8>,
            ts: u64,
            size: nat,
            enc: Seq<u8>,
            m: Metadata,
        |
            #[trigger] fresh_dual_after_failures(
                g,
                public_data,
                private_data,
                v,
                raw,
                body,
                iv,
                ts,
                size,
                enc,
                m,
                false,
                password,
                verify_key,
            ) && i <= candidate_place(effective_ecc(v)) && candidate_reads(
                g,
                false,
                raw,
                effective_ecc(v),
            ) ==> i < candidate_place(effective_ecc(v)),
{
    let bl = grid_bits(g, false).len();
    let cl = candidate_len(g, false, k);
    if cl * 8 <= bl {
        vstd::arithmetic::div_mod::lemma_fundamental_div_mod(bl as int, 8);
        assert(bl / 8 >= cl);
    }
}

impl TSpineDecoder {
    /// A decoder with no password and no verification key.
    pub fn new() -> (d: Self)
        ensures
            d@ == (DecoderView { password: None, verify_key: None }),
    {
        Self::default()
    }

    /// Reads a grid back: takes the bits of its data cells (nano layout as forced, else for
    /// sides up to 7), then for each parity count tried in turn (12, 0, 4, 28 in the standard
    /// layout; 0, 1, 2, 4 in the nano one) Reed-Solomon decodes the bytes those bits spell and
    /// unpacks the result. The first payload that unpacks is returned; a signature mismatch
    /// ends the search; otherwise the last error, or `InvalidHeader` when nothing was tried.
    /// A fresh code read as built comes back as it was packed, at any level in the standard
    /// layout once the parity counts tried before its own fail.
    #[verifier::spinoff_prover]
    #[verifier::rlimit(60)]
    pub fn decode_grid(&self, grid: &Grid, is_nano_forced: Option<bool>) -> (r: Result<
        DecodedPayload,
        TSpineError,
    >)
        requires
            grid.wf(),
            grid.size >= 3,
            grid.size * grid.size * 3 <= usize::MAX,
        ensures
            r matches Ok(p) ==> exists|block: Seq<u8>|
                #[trigger] spec_unpack(block, self@.password, self@.verify_key) == Ok::<
                    PayloadView,
                    UnpackFailure,
                >(p@),
            r matches Err(e) ==> e is ReedSolomon || e == TSpineError::InvalidHeader || exists|
                block: Seq<u8>,
            |
                #[trigger] spec_unpack(block, self@.password, self@.verify_key) matches Err(f)
                    && error_is(e, f),
            forall|
                data: Seq<u8>,
                v: EncoderView,
                raw: Seq<u8>,
                body: Seq<u8>,
                iv: Seq<u8>,
                ts: u64,
                size: nat,
                enc: Seq<u8>,
                m: Metadata,
            |
                #[trigger] fresh_single_code(*grid, data, v, raw, body, iv, ts, size, enc, m)
                    && read_as_built(
                    v,
                    raw,
                    size,
                    match is_nano_forced {
                        Some(b) => b,
                        None => grid.size <= 7,
                    },
                ) && v.password == self@.password && single_readable(
                    body,
                    data,
                    v.sign_key,
                    self@.verify_key,
                    v.min_header,
                ) ==> (r matches Ok(p) && p@ == single_view(data)),
            forall|
                data: Seq<u8>,
                v: EncoderView,
                raw: Seq<u8>,
                body: Seq<u8>,
                iv: Seq<u8>,
                ts: u64,
                size: nat,
                enc: Seq<u8>,
                m: Metadata,
            |
                #[trigger] fresh_single_after_failures(
                    *grid,
                    data,
                    v,
                    raw,
                    body,
                    iv,
                    ts,
                    size,
                    enc,
                    m,
                    read_layout(is_nano_forced, grid.size),
                    self@.password,
                    self@.verify_key,
                ) ==> (r matches Ok(p) && p@ == single_view(data)),
            all_candidates_fail(*grid, read_layout(is_nano_forced, grid.size), self@.password, self@.verify_key)
                ==> r is Err,
            forall|
                public_data: Seq<u8>,
                private_data: Seq<u8>,
                v: EncoderView,
                raw: Seq<u8>,
                body: Seq<u8>,
                iv: Seq<u8>,
                ts: u64,
                size: nat,
                enc: Seq<u8>,
                m: Metadata,
            |
                #[trigger] fresh_dual_after_failures(
                    *grid,
                    public_data,
                    private_data,
                    v,
                    raw,
                    body,
                    iv,
                    ts,
                    size,
                    enc,
                    m,
                    read_layout(is_nano_forced, grid.size),
                    self@.password,
                    self@.verify_key,
                ) ==> (r matches Ok(p) && p@ == PayloadView::Dual(
                    lossy_text(public_data),
                    lossy_text(private_data),
                )),
            forall|
                data: Seq<u8>,
                v: EncoderView,
                raw: Seq<u8>,
                body: Seq<u8>,
                iv: Seq<u8>,
                ts: u64,
                size: nat,
                enc: Seq<u8>,
                m: Metadata,
            |
                #[trigger] fresh_single_code(*grid, data, v, raw, body, iv, ts, size, enc, m)
                    && read_as_built(
                    v,
                    raw,
                    size,
                    match is_nano_forced {
                        Some(b) => b,
                        None => grid.size <= 7,
                    },
                ) && single_field_fits(body, v.min_header) && v.sign_key is Some
                    && self@.verify_key is Some && !tag_matches(
                    self@.verify_key.unwrap(),
                    body,
                    sig_block(v.sign_key, body, v.min_header),
                ) ==> r == Err::<DecodedPayload, TSpineError>(TSpineError::SignatureMismatch),
            forall|
                public_data: Seq<u8>,
                private_data: Seq<u8>,
                v: EncoderView,
                raw: Seq<u8>,
                body: Seq<u8>,
                iv: Seq<u8>,
                ts: u64,
                size: nat,
                enc: Seq<u8>,
                m: Metadata,
            |
                #[trigger] fresh_dual_code(
                    *grid,
                    public_data,
                    private_data,
                    v,
                    raw,
                    body,
                    iv,
                    ts,
                    size,
                    enc,
                    m,
                ) && read_as_built(
                    v,
                    raw,
                    size,
                    match is_nano_forced {
                        Some(b) => b,
                        None => grid.size <= 7,
                    },
                ) && v.password == self@.password && dual_readable(
                    body,
                    public_data,
                    private_data,
                    v.sign_key,
                    self@.verify_key,
                    v.min_header,
                ) ==> (r matches Ok(p) && p@ == PayloadView::Dual(
                    lossy_text(public_data),
                    lossy_text(private_data),
                )),
            forall|
                public_data: Seq<u8>,
                private_data: Seq<u8>,
                v: EncoderView,
                raw: Seq<u8>,
                body: Seq<u8>,
                iv: Seq<u8>,
                ts: u64,
                size: nat,
                enc: Seq<u8>,
                m: Metadata,
            |
                #[trigger] fresh_dual_code(
                    *grid,
                    public_data,
                    private_data,
                    v,
                    raw,
                    body,
                    iv,
                    ts,
                    size,
                    enc,
                    m,
                ) && read_as_built(
                    v,
                    raw,
                    size,
                    match is_nano_forced {
                        Some(b) => b,
                        None => grid.size <= 7,
                    },
                ) && self@.password is None && v.password is Some && dual_fields_fit(
                    body,
                    public_data,
                    v.sign_key,
                    self@.verify_key,
                    v.min_header,
                ) ==> (r matches Ok(p) && p@ == PayloadView::Dual(
                    lossy_text(public_data),
                    "[Pass password to decrypt]"@,
                )),
    {
        let size = grid.size;
        let is_nano = match is_nano_forced {
            Some(b) => b,
            None => Grid::is_nano(size, false),
        };
        assert(is_nano == match is_nano_forced {
            Some(b) => b,
            None => grid.size <= 7,
        });
        let bits = read_grid_bits(grid, is_nano);
        let nbits = bits.len();
        proof {
            lemma_fresh_codes_read(*grid, is_nano);
            lemma_std_codes_read(*grid, is_nano);
        }
        proof {
            assert forall|i: int| 0 <= i < bits@.len() implies #[trigger] bits@[i] <= 1 by {
                let bpc = grid.mode.spec_bits_per_cell();
                lemma_bit_is_bit(
                    unmasked_cell(*grid, is_nano, i / bpc as int),
                    (bpc - 1 - i % bpc as int) as u8,
                );
            }
        }
        assert(size * size >= 2 * size + 1) by (nonlinear_arith)
            requires
                size >= 3,
        ;
        let total_cap_bytes = Grid::capacity_bytes(size, grid.mode, is_nano);
        proof {
            let cells = num_data_cells(size as nat, is_nano);
            let bpc = grid.mode.spec_bits_per_cell();
            assert(0 <= cells <= size * size);
            assert(cells * bpc <= size * size * 3) by (nonlinear_arith)
                requires
                    0 <= cells <= size * size,
                    bpc <= 3,
            ;
        }
        assert(total_cap_bytes <= usize::MAX / 8);
        let candidates: [usize; 4] = if is_nano {
            [0, 1, 2, 4]
        } else {
            [12, 0, 4, 28]
        };
        let pw = opt_str(&self.password);
        let vk = opt_str(&self.verify_key);
        let mut last_err: Option<TSpineError> = None;
        let mut i: usize = 0;
        while i < 4
            invariant
                i <= 4,
                candidates@.len() == 4,
                forall|j: int| 0 <= j < 4 ==> #[trigger] candidates@[j] <= 28,
                forall|j: int| 0 <= j < bits@.len() ==> #[trigger] bits@[j] <= 1,
                key_bytes(pw) == self@.password,
                key_bytes(vk) == self@.verify_key,
                bits@.len() <= usize::MAX,
                total_cap_bytes <= usize::MAX / 8,
                total_cap_bytes == spec_capacity_bytes(
                    grid.size as nat,
                    grid.mode.spec_bits_per_cell(),
                    is_nano,
                ),
                bits@ == grid_bits(*grid, is_nano),
                candidates@[0] == first_candidate(is_nano),
                !is_nano ==> candidates@ == seq![12usize, 0usize, 4usize, 28usize],
                is_nano ==> candidates@ == seq![0usize, 1usize, 2usize, 4usize],
                forall|
                    data: Seq<u8>,
                    v: EncoderView,
                    raw: Seq<u8>,
                    body: Seq<u8>,
                    iv: Seq<u8>,
                    ts: u64,
                    size: nat,
                    enc: Seq<u8>,
                    m: Metadata,
                |
                    #[trigger] fresh_single_after_failures(
                        *grid,
                        data,
                        v,
                        raw,
                        body,
                        iv,
                        ts,
                        size,
                        enc,
                        m,
                        is_nano,
                        self@.password,
                        self@.verify_key,
                    ) ==> i <= candidate_place(effective_ecc(v)) && candidate_reads(
                        *grid,
                        false,
                        raw,
                        effective_ecc(v),
                    ),
                forall|
                    public_data: Seq<u8>,
                    private_data: Seq<u8>,
                    v: EncoderView,
                    raw: Seq<u8>,
                    body: Seq<u8>,
                    iv: Seq<u8>,
                    ts: u64,
                    size: nat,
                    enc: Seq<u8>,
                    m: Metadata,
                |
                    #[trigger] fresh_dual_after_failures(
                        *grid,
                        public_data,
                        private_data,
                        v,
                        raw,
                        body,
                        iv,
                        ts,
                        size,
                        enc,
                        m,
                        is_nano,
                        self@.password,
                        self@.verify_key,
                    ) ==> i <= candidate_place(effective_ecc(v)) && candidate_reads(
                        *grid,
                        false,
                        raw,
                        effective_ecc(v),
                    ),
                is_nano == match is_nano_forced {
                    Some(b) => b,
                    None => grid.size <= 7,
                },
                forall|
                    data: Seq<u8>,
                    v: EncoderView,
                    raw: Seq<u8>,
                    body: Seq<u8>,
                    iv: Seq<u8>,
                    ts: u64,
                    size: nat,
                    enc: Seq<u8>,
                    m: Metadata,
                |
                    #[trigger] fresh_single_code(*grid, data, v, raw, body, iv, ts, size, enc, m)
                        && read_as_built(v, raw, size, is_nano) && v.password == self@.password
                        && single_readable(body, data, v.sign_key, self@.verify_key, v.min_header)
                        ==> i == 0 && fresh_code_read(*grid, is_nano, raw, enc),
                forall|
                    data: Seq<u8>,
                    v: EncoderView,
                    raw: Seq<u8>,
                    body: Seq<u8>,
                    iv: Seq<u8>,
                    ts: u64,
                    size: nat,
                    enc: Seq<u8>,
                    m: Metadata,
                |
                    #[trigger] fresh_single_code(*grid, data, v, raw, body, iv, ts, size, enc, m)
                        && read_as_built(v, raw, size, is_nano) && single_field_fits(
                        body,
                        v.min_header,
                    ) && v.sign_key is Some && self@.verify_key is Some && !tag_matches(
                        self@.verify_key.unwrap(),
                        body,
                        sig_block(v.sign_key, body, v.min_header),
                    ) ==> i == 0 && fresh_code_read(*grid, is_nano, raw, enc),
                forall|
                    public_data: Seq<u8>,
                    private_data: Seq<u8>,
                    v: EncoderView,
                    raw: Seq<u8>,
                    body: Seq<u8>,
                    iv: Seq<u8>,
                    ts: u64,
                    size: nat,
                    enc: Seq<u8>,
                    m: Metadata,
                |
                    #[trigger] fresh_dual_code(
                        *grid,
                        public_data,
                        private_data,
                        v,
                        raw,
                        body,
                        iv,
                        ts,
                        size,
                        enc,
                        m,
                    ) && read_as_built(v, raw, size, is_nano) && v.password == self@.password
                        && dual_readable(
                        body,
                        public_data,
                        private_data,
                        v.sign_key,
                        self@.verify_key,
                        v.min_header,
                    ) ==> i == 0 && fresh_code_read(*grid, is_nano, raw, enc),
                forall|
                    public_data: Seq<u8>,
                    private_data: Seq<u8>,
                    v: EncoderView,
                    raw: Seq<u8>,
                    body: Seq<u8>,
                    iv: Seq<u8>,
                    ts: u64,
                    size: nat,
                    enc: Seq<u8>,
                    m: Metadata,
                |
                    #[trigger] fresh_dual_code(
                        *grid,
                        public_data,
                        private_data,
                        v,
                        raw,
                        body,
                        iv,
                        ts,
                        size,
                        enc,
                        m,
                    ) && read_as_built(v, raw, size, is_nano) && self@.password is None
                        && v.password is Some && dual_fields_fit(
                        body,
                        public_data,
                        v.sign_key,
                        self@.verify_key,
                        v.min_header,
                    ) ==> i == 0 && fresh_code_read(*grid, is_nano, raw, enc),
                last_err matches Some(e) ==> e is ReedSolomon || exists|block: Seq<u8>|
                    #[trigger] spec_unpack(block, self@.password, self@.verify_key) matches Err(f)
                        && error_is(e, f),
            decreases 4 - i,
        {
            let ecc_b = candidates[i];
            proof {
                if !is_nano && ecc_b > total_cap_bytes {
                    lemma_attempt_skipped(*grid, i as int, ecc_b as nat, self@.password, self@.verify_key);
                }
            }
            if ecc_b <= total_cap_bytes {
                let data_cap = Grid::data_capacity_from_total(total_cap_bytes, ecc_b);
                let encoded_len: usize = if ecc_b == 0 {
                    total_cap_bytes
                } else {
                    let cd = 255 - ecc_b;
                    assert((data_cap / cd) * 255 <= 2 * data_cap) by (nonlinear_arith)
                        requires
                            cd >= 128,
                    ;
                    (data_cap / cd) * 255 + if data_cap % cd > 0 {
                        data_cap % cd + ecc_b
                    } else {
                        0
                    }
                };
                proof {
                    if !is_nano && bits.len() / 8 < encoded_len {
                        assert(encoded_len == candidate_len(*grid, false, ecc_b as nat));
                        lemma_attempt_skipped(*grid, i as int, ecc_b as nat, self@.password, self@.verify_key);
                    }
                }
                if bits.len() / 8 >= encoded_len {
                    let byte_array = pack_bytes(bits.as_slice(), encoded_len);
                    let rs = ReedSolomon::new(ecc_b);
                    proof {
                        lemma_rs_encoded_len_blocks(data_cap as nat, ecc_b as nat);
                    }
                    match rs.decode(byte_array.as_slice()) {
                        Ok(block) => {
                            let res = Payload::unpack(block.as_slice(), pw, vk);
                            proof {
                                assert(byte_array@ == candidate_bytes(*grid, is_nano, ecc_b as nat));
                                assert(attempt_block(*grid, is_nano, ecc_b as nat, block@));
                                assert(unpack_reads(block@, self@.password, self@.verify_key, res));
                                lemma_attempt(
                                    *grid,
                                    is_nano,
                                    i as int,
                                    ecc_b as nat,
                                    block@,
                                    res,
                                    self@.password,
                                    self@.verify_key,
                                );
                            }
                            match res {
                                Ok(p) => {
                                    return Ok(p);
                                },
                                Err(e) => match e {
                                    TSpineError::SignatureMismatch => {
                                        return Err(TSpineError::SignatureMismatch);
                                    },
                                    other => {
                                        last_err = Some(other);
                                    },
                                },
                            }
                        },
                        Err(e) => {
                            proof {
                                if !is_nano {
                                    assert(byte_array@ == candidate_bytes(*grid, false, ecc_b as nat));
                                    lemma_attempt_skipped(
                                        *grid,
                                        i as int,
                                        ecc_b as nat,
                                        self@.password,
                                        self@.verify_key,
                                    );
                                }
                            }
                            last_err = Some(e);
                        },
                    }
                }
            }
            i += 1;
        }
        match last_err {
            Some(e) => Err(e),
            None => Err(TSpineError::InvalidHeader),
        }
    }

    /// Decrypts with `pwd`.
    pub fn password(self, pwd: &str) -> (d: Self)
        ensures
            d@ == (DecoderView { password: Some(encode_utf8(pwd@)), ..self@ }),
    {
        let mut d = self;
        d.password = Some(pwd.to_owned());
        d
    }

    /// Checks signatures against `key`.
    pub fn verify_key(self, key: &str) -> (d: Self)
        ensures
            d@ == (DecoderView { verify_key: Some(encode_utf8(key@)), ..self@ }),
    {
        let mut d = self;
        d.verify_key = Some(key.to_owned());
        d
    }
}

} // verus!
