//! Reading a code from colours sampled at the centres of its cells.
use vstd::prelude::*;

use crate::decoder::{
    all_candidates_fail, fresh_dual_code, fresh_single_code, lemma_stream_bit_is_bit, read_as_built, TSpineDecoder,
};
use crate::encoder::{
    cell_mask, data_cell_value, grid_carries, skeleton_or_zero, stream_bits, EncoderView,
};
use crate::export::svg::cell_rgb;
use crate::grid::{data_coords, is_data_cell, Grid};
use crate::payload::{
    dual_readable, key_bytes, single_readable, single_view, spec_unpack, lossy_text, PayloadView,
    UnpackFailure,
};
use crate::types::{spec_distance_sq, spec_palette, ColorMode, DecodedPayload, Metadata, Rgb};

verus! {

/// Whether `samples` holds `size` rows of `size` colours.
pub open spec fn samples_wf(samples: Seq<Vec<Rgb>>, size: nat) -> bool {
    &&& samples.len() == size
    &&& forall|y: int| 0 <= y < size ==> #[trigger] samples[y]@.len() == size
}

/// The colour sampled at `(x, y)`.
pub open spec fn sample_at(samples: Seq<Vec<Rgb>>, x: int, y: int) -> Rgb {
    samples[y]@[x]
}

/// The palette samples are read against: the first `nc` palette colours; in the standard
/// layout colour `c` is instead the one sampled on the spine at row `size - 1 - c`, for the
/// rows from `first_row` on.
pub open spec fn calibrated(
    samples: Seq<Vec<Rgb>>,
    size: nat,
    nano: bool,
    nc: nat,
    first_row: nat,
) -> Seq<Rgb> {
    Seq::new(
        nc,
        |c: int|
            if !nano && c + 1 <= size && size - 1 - c >= first_row {
                sample_at(samples, (size / 2) as int, size - 1 - c)
            } else {
                spec_palette(c)
            },
    )
}

/// The index of the palette colour nearest to `c` among the first `n`, the first of equally
/// near ones.
pub open spec fn nearest_upto(palette: Seq<Rgb>, c: Rgb, n: nat) -> nat
    decreases n,
{
    if n <= 1 {
        0
    } else {
        let b = nearest_upto(palette, c, (n - 1) as nat);
        if spec_distance_sq(c, palette[n - 1]) < spec_distance_sq(c, palette[b as int]) {
            (n - 1) as nat
        } else {
            b
        }
    }
}

/// The index of the palette colour nearest to `c`, the first of equally near ones.
pub open spec fn nearest(palette: Seq<Rgb>, c: Rgb) -> nat {
    nearest_upto(palette, c, palette.len())
}

/// Whether `g` is the grid of side `size` in `mode` whose every cell is the index of the
/// palette colour nearest to its sample.
pub open spec fn classified(g: Grid, samples: Seq<Vec<Rgb>>, size: nat, mode: ColorMode, palette: Seq<Rgb>) -> bool {
    &&& g.wf()
    &&& g.size == size
    &&& g.mode == mode
    &&& forall|x: int, y: int|
        0 <= x < size && 0 <= y < size ==> #[trigger] g.cell(x, y) == nearest(
            palette,
            sample_at(samples, x, y),
        ) as u8
}

/// Whether the bottom-left sample is dark and the bottom-right one light, by their red.
pub open spec fn corners_ok(samples: Seq<Vec<Rgb>>, size: nat) -> bool {
    &&& sample_at(samples, 0, size - 1).0 < 128
    &&& sample_at(samples, size - 1, size - 1).0 >= 128
}

/// Whether the four cells of the nano finder are dark.
pub open spec fn nano_finder_dark(samples: Seq<Vec<Rgb>>) -> bool {
    &&& sample_at(samples, 0, 0).0 < 128
    &&& sample_at(samples, 1, 0).0 < 128
    &&& sample_at(samples, 2, 0).0 < 128
    &&& sample_at(samples, 1, 1).0 < 128
}

/// The rows of the spine checked for darkness: all but the last 8, at least one.
pub open spec fn spine_rows_checked(size: nat) -> nat {
    if size > 9 {
        (size - 8) as nat
    } else {
        1
    }
}

/// Whether the roof and the upper spine are dark.
pub open spec fn standard_finder_dark(samples: Seq<Vec<Rgb>>, size: nat) -> bool {
    &&& forall|x: int| 0 <= x < size ==> #[trigger] sample_at(samples, x, 0).0 < 128
    &&& forall|y: int|
        0 <= y < spine_rows_checked(size) ==> #[trigger] sample_at(samples, (size / 2) as int, y).0
            < 128
}

/// Whether every sample is exactly the palette colour of its cell of `g`.
pub open spec fn samples_show(samples: Seq<Vec<Rgb>>, g: Grid) -> bool {
    forall|x: int, y: int|
        0 <= x < g.size && 0 <= y < g.size ==> #[trigger] sample_at(samples, x, y) == cell_rgb(g, x, y)
}

/// The first colour mode tried: the forced one, else four colours.
pub open spec fn first_mode_of(forced_mode: Option<ColorMode>) -> ColorMode {
    match forced_mode {
        Some(f) => f,
        None => ColorMode::FourColor,
    }
}

/// The colour modes the scanner tries, in order: the forced one, else four, eight and two
/// colours.
pub open spec fn modes_tried(forced_mode: Option<ColorMode>) -> Seq<ColorMode> {
    match forced_mode {
        Some(f) => seq![f],
        None => seq![ColorMode::FourColor, ColorMode::EightColor, ColorMode::Monochrome],
    }
}

/// The place of `mode` among the modes the scanner tries; -1 when it is not tried.
pub open spec fn mode_place(forced_mode: Option<ColorMode>, mode: ColorMode) -> int {
    match forced_mode {
        Some(f) => if mode == f {
            0
        } else {
            -1
        },
        None => match mode {
            ColorMode::FourColor => 0,
            ColorMode::EightColor => 1,
            ColorMode::Monochrome => 2,
        },
    }
}

/// Whether reading the samples in colour mode `mode` and layout `nano_read` decodes nothing:
/// every grid they classify to against the palette calibrated for that mode (on the spine from
/// row `first_row`) fails every parity count the decoder tries.
pub open spec fn mode_reads_nothing(
    samples: Seq<Vec<Rgb>>,
    size: nat,
    first_row: nat,
    nano_read: bool,
    mode: ColorMode,
    password: Option<Seq<u8>>,
    verify_key: Option<Seq<u8>>,
) -> bool {
    forall|g: Grid|
        #[trigger] classified(
            g,
            samples,
            size,
            mode,
            calibrated(samples, size, nano_read, mode.spec_num_colors(), first_row),
        ) ==> all_candidates_fail(g, nano_read, password, verify_key)
}

/// Whether the scanner tries `mode`, and every mode it tries before it reads nothing.
pub open spec fn earlier_modes_read_nothing(
    samples: Seq<Vec<Rgb>>,
    size: nat,
    first_row: nat,
    nano_read: bool,
    forced_mode: Option<ColorMode>,
    mode: ColorMode,
    password: Option<Seq<u8>>,
    verify_key: Option<Seq<u8>>,
) -> bool {
    &&& mode_place(forced_mode, mode) >= 0
    &&& forall|j: int|
        0 <= j < mode_place(forced_mode, mode) ==> mode_reads_nothing(
            samples,
            size,
            first_row,
            nano_read,
            #[trigger] modes_tried(forced_mode)[j],
            password,
            verify_key,
        )
}

/// Whether every mode the scanner tries reads nothing in the nano layout.
pub open spec fn nano_layout_reads_nothing(
    samples: Seq<Vec<Rgb>>,
    size: nat,
    forced_mode: Option<ColorMode>,
    password: Option<Seq<u8>>,
    verify_key: Option<Seq<u8>>,
) -> bool {
    forall|j: int|
        0 <= j < modes_tried(forced_mode).len() ==> mode_reads_nothing(
            samples,
            size,
            0,
            true,
            #[trigger] modes_tried(forced_mode)[j],
            password,
            verify_key,
        )
}

/// Whether the scanner reaches layout `nano_read`: it is the layout the finder cells show, or
/// it is the standard layout and the nano layout, tried first because its finder cells look
/// dark too, reads nothing.
pub open spec fn layout_reached(
    samples: Seq<Vec<Rgb>>,
    size: nat,
    nano_read: bool,
    forced_mode: Option<ColorMode>,
    password: Option<Seq<u8>>,
    verify_key: Option<Seq<u8>>,
) -> bool {
    nano_read == nano_finder_dark(samples) || (!nano_read && nano_layout_reads_nothing(
        samples,
        size,
        forced_mode,
        password,
        verify_key,
    ))
}

/// Exact samples of a single code (see `exact_single_samples`) in a mode the scanner reaches.
pub open spec fn exact_single_reached(
    samples: Seq<Vec<Rgb>>,
    forced_mode: Option<ColorMode>,
    size: nat,
    first_row: nat,
    mode: ColorMode,
    nano_read: bool,
    password: Option<Seq<u8>>,
    verify_key: Option<Seq<u8>>,
    g: Grid,
    data: Seq<u8>,
    v: EncoderView,
    raw: Seq<u8>,
    body: Seq<u8>,
    iv: Seq<u8>,
    ts: u64,
    sz: nat,
    enc: Seq<u8>,
    m: Metadata,
) -> bool {
    &&& exact_single_samples(samples, mode, nano_read, password, verify_key, g, data, v, raw, body, iv, ts, sz, enc, m)
    &&& earlier_modes_read_nothing(samples, size, first_row, nano_read, forced_mode, mode, password, verify_key)
}

/// Exact samples of a dual code (see `exact_dual_samples`) in a mode the scanner reaches.
pub open spec fn exact_dual_reached(
    samples: Seq<Vec<Rgb>>,
    forced_mode: Option<ColorMode>,
    size: nat,
    first_row: nat,
    mode: ColorMode,
    nano_read: bool,
    password: Option<Seq<u8>>,
    verify_key: Option<Seq<u8>>,
    g: Grid,
    public_data: Seq<u8>,
    private_data: Seq<u8>,
    v: EncoderView,
    raw: Seq<u8>,
    body: Seq<u8>,
    iv: Seq<u8>,
    ts: u64,
    sz: nat,
    enc: Seq<u8>,
    m: Metadata,
) -> bool {
    &&& exact_dual_samples(samples, mode, nano_read, password, verify_key, g, public_data, private_data, v, raw, body, iv, ts, sz, enc, m)
    &&& earlier_modes_read_nothing(samples, size, first_row, nano_read, forced_mode, mode, password, verify_key)
}

/// Whether `samples` are the exact colours of a single code `g` built from `data` (see
/// `fresh_single_code`) in colour mode `mode`, to be read in the layout it was built in
/// (`nano_read`) with the password it was built with and a verification key that its
/// signature, if any, passes.
pub open spec fn exact_single_samples(
    samples: Seq<Vec<Rgb>>,
    mode: ColorMode,
    nano_read: bool,
    password: Option<Seq<u8>>,
    verify_key: Option<Seq<u8>>,
    g: Grid,
    data: Seq<u8>,
    v: EncoderView,
    raw: Seq<u8>,
    body: Seq<u8>,
    iv: Seq<u8>,
    ts: u64,
    sz: nat,
    enc: Seq<u8>,
    m: Metadata,
) -> bool {
    &&& fresh_single_code(g, data, v, raw, body, iv, ts, sz, enc, m)
    &&& samples_show(samples, g)
    &&& g.mode == mode
    &&& read_as_built(v, raw, sz, nano_read)
    &&& v.password == password
    &&& single_readable(body, data, v.sign_key, verify_key, v.min_header)
}

/// Whether `samples` are the exact colours of a dual code `g` built from `public_data` and
/// `private_data` (see `fresh_dual_code`) in colour mode `mode`, to be read in the layout it
/// was built in (`nano_read`) with the password it was built with and a verification key that
/// its signature, if any, passes.
pub open spec fn exact_dual_samples(
    samples: Seq<Vec<Rgb>>,
    mode: ColorMode,
    nano_read: bool,
    password: Option<Seq<u8>>,
    verify_key: Option<Seq<u8>>,
    g: Grid,
    public_data: Seq<u8>,
    private_data: Seq<u8>,
    v: EncoderView,
    raw: Seq<u8>,
    body: Seq<u8>,
    iv: Seq<u8>,
    ts: u64,
    sz: nat,
    enc: Seq<u8>,
    m: Metadata,
) -> bool {
    &&& fresh_dual_code(g, public_data, private_data, v, raw, body, iv, ts, sz, enc, m)
    &&& samples_show(samples, g)
    &&& g.mode == mode
    &&& read_as_built(v, raw, sz, nano_read)
    &&& v.password == password
    &&& dual_readable(body, public_data, private_data, v.sign_key, verify_key, v.min_header)
}

/// The first `n` palette colours.
pub open spec fn palette_prefix(n: nat) -> Seq<Rgb> {
    Seq::new(n, |c: int| spec_palette(c))
}

/// A colour is at distance 0 from itself, and at a positive distance from any other.
proof fn lemma_distance(a: Rgb, b: Rgb)
    ensures
        spec_distance_sq(a, a) == 0,
        a != b ==> spec_distance_sq(a, b) > 0,
{
    let (r, g, bl) = ((a.0 - b.0) as int, (a.1 - b.1) as int, (a.2 - b.2) as int);
    assert(r * r >= 0 && g * g >= 0 && bl * bl >= 0) by (nonlinear_arith);
    assert((r != 0 ==> r * r > 0) && (g != 0 ==> g * g > 0) && (bl != 0 ==> bl * bl > 0))
        by (nonlinear_arith);
    assert(spec_distance_sq(a, a) == 0) by (nonlinear_arith)
        requires
            spec_distance_sq(a, a) == (a.0 - a.0) * (a.0 - a.0) + (a.1 - a.1) * (a.1 - a.1) + (a.2
                - a.2) * (a.2 - a.2),
    ;
    if a != b {
        assert(r != 0 || g != 0 || bl != 0);
    }
}

/// Distinct palette colours lie apart.
proof fn lemma_palette_distinct(a: int, b: int)
    requires
        0 <= a < 8,
        0 <= b < 8,
        a != b,
    ensures
        spec_distance_sq(spec_palette(a), spec_palette(b)) > 0,
{
    assert(spec_palette(a) != spec_palette(b)) by {
        if a == 0 {
        } else if a == 1 {
        } else if a == 2 {
        } else if a == 3 {
        } else if a == 4 {
        } else if a == 5 {
        } else if a == 6 {
        } else {
        }
    }
    lemma_distance(spec_palette(a), spec_palette(b));
}

/// The nearest colour to the first `n` palette colours lies among them.
proof fn lemma_nearest_below(palette: Seq<Rgb>, c: Rgb, n: nat)
    ensures
        nearest_upto(palette, c, n) < if n == 0 {
            1
        } else {
            n
        },
    decreases n,
{
    if n > 1 {
        lemma_nearest_below(palette, c, (n - 1) as nat);
    }
}

proof fn lemma_nearest_upto_closest(palette: Seq<Rgb>, c: Rgb, n: nat)
    requires
        1 <= n <= palette.len(),
    ensures
        nearest_upto(palette, c, n) < n,
        forall|i: int|
            0 <= i < n ==> spec_distance_sq(c, palette[nearest_upto(palette, c, n) as int])
                <= #[trigger] spec_distance_sq(c, palette[i]),
        forall|i: int|
            0 <= i < nearest_upto(palette, c, n) ==> spec_distance_sq(
                c,
                palette[nearest_upto(palette, c, n) as int],
            ) < #[trigger] spec_distance_sq(c, palette[i]),
    decreases n,
{
    if n > 1 {
        lemma_nearest_upto_closest(palette, c, (n - 1) as nat);
    }
}

/// A sample is read as the palette colour nearest to it: no palette colour is nearer, and
/// every colour before the one chosen is farther, so of equally near colours the first wins.
pub proof fn lemma_nearest_is_first_closest(palette: Seq<Rgb>, c: Rgb)
    requires
        palette.len() >= 1,
    ensures
        nearest(palette, c) < palette.len(),
        forall|i: int|
            0 <= i < palette.len() ==> spec_distance_sq(c, palette[nearest(palette, c) as int])
                <= #[trigger] spec_distance_sq(c, palette[i]),
        forall|i: int|
            0 <= i < nearest(palette, c) ==> spec_distance_sq(c, palette[nearest(palette, c) as int])
                < #[trigger] spec_distance_sq(c, palette[i]),
{
    lemma_nearest_upto_closest(palette, c, palette.len());
}

/// A palette colour is read back as its own index.
proof fn lemma_nearest_exact(nc: nat, v: nat, n: nat)
    requires
        v < n <= nc <= 8,
    ensures
        nearest_upto(palette_prefix(nc), spec_palette(v as int), n) == v,
    decreases n,
{
    let p = palette_prefix(nc);
    let c = spec_palette(v as int);
    if n > 1 {
        if v < n - 1 {
            lemma_nearest_exact(nc, v, (n - 1) as nat);
            lemma_distance(c, c);
            lemma_palette_distinct(v as int, n - 1);
            assert(p[v as int] == c);
            assert(p[n - 1] == spec_palette(n - 1));
        } else {
            let b = nearest_upto(p, c, (n - 1) as nat);
            lemma_nearest_below(p, c, (n - 1) as nat);
            lemma_palette_distinct(v as int, b as int);
            lemma_distance(c, c);
            assert(p[v as int] == c);
            assert(p[b as int] == spec_palette(b as int));
        }
    }
}

/// A colour of a palette with distinct colours is read back as its own index.
proof fn lemma_nearest_own(p: Seq<Rgb>, v: nat, n: nat)
    requires
        v < n <= p.len(),
        forall|i: int, j: int| 0 <= i < j < p.len() ==> p[i] != p[j],
    ensures
        nearest_upto(p, p[v as int], n) == v,
    decreases n,
{
    let c = p[v as int];
    if n > 1 {
        if v < n - 1 {
            lemma_nearest_own(p, v, (n - 1) as nat);
            lemma_distance(c, c);
            lemma_distance(c, p[n - 1]);
        } else {
            let b = nearest_upto(p, c, (n - 1) as nat);
            lemma_nearest_below(p, c, (n - 1) as nat);
            lemma_distance(c, c);
            lemma_distance(c, p[b as int]);
        }
    }
}

/// Samples of a grid in the standard layout taken under any one-to-one change of its colours
/// (colour `i` shows as `colours[i]`) read back as the grid: the palette calibrated on the
/// spine is exactly the colours the calibration cells show, and every sample classifies to
/// the cell it was taken from. Needed of the grid: its cells take values below the number of
/// colours, and the calibration cell at the foot of the spine, `c` rows up, holds `c`.
pub proof fn lemma_recoloured_samples_read_back(
    g: Grid,
    g2: Grid,
    samples: Seq<Vec<Rgb>>,
    colours: Seq<Rgb>,
    first_row: nat,
)
    requires
        g.wf(),
        samples_wf(samples, g.size as nat),
        colours.len() == g.mode.spec_num_colors(),
        forall|i: int, j: int| 0 <= i < j < colours.len() ==> colours[i] != colours[j],
        forall|x: int, y: int|
            0 <= x < g.size && 0 <= y < g.size ==> (#[trigger] g.cell(x, y) as int) < colours.len()
                && sample_at(samples, x, y) == colours[g.cell(x, y) as int],
        forall|c: int|
            0 <= c < colours.len() ==> #[trigger] g.cell((g.size / 2) as int, g.size - 1 - c) == c,
        first_row + colours.len() <= g.size,
        classified(
            g2,
            samples,
            g.size as nat,
            g.mode,
            calibrated(samples, g.size as nat, false, colours.len(), first_row),
        ),
    ensures
        calibrated(samples, g.size as nat, false, colours.len(), first_row) == colours,
        forall|x: int, y: int| 0 <= x < g.size && 0 <= y < g.size ==> #[trigger] g2.cell(x, y) == g.cell(x, y),
{
    let size = g.size as nat;
    let nc = colours.len();
    let pal = calibrated(samples, size, false, nc, first_row);
    assert forall|c: int| 0 <= c < nc implies #[trigger] pal[c] == colours[c] by {
        let x = (size / 2) as int;
        let y = size - 1 - c;
        assert(g.cell(x, y) == c);
        assert(sample_at(samples, x, y) == colours[g.cell(x, y) as int]);
    }
    assert(pal =~= colours);
    assert forall|x: int, y: int| 0 <= x < g.size && 0 <= y < g.size implies #[trigger] g2.cell(x, y)
        == g.cell(x, y) by {
        let v = g.cell(x, y) as nat;
        assert(v < nc);
        assert(sample_at(samples, x, y) == colours[v as int]);
        lemma_nearest_own(colours, v, nc);
        assert(g2.cell(x, y) == nearest(pal, sample_at(samples, x, y)) as u8);
    }
}

/// Whether `samples` show grid `g` with its palette colours changed one-to-one: cell value `i`
/// shows as `colours[i]`, for as many distinct colours as its mode has.
pub open spec fn samples_recolour(samples: Seq<Vec<Rgb>>, g: Grid, colours: Seq<Rgb>) -> bool {
    &&& colours.len() == g.mode.spec_num_colors()
    &&& forall|i: int, j: int| 0 <= i < j < colours.len() ==> colours[i] != colours[j]
    &&& forall|x: int, y: int|
        0 <= x < g.size && 0 <= y < g.size ==> #[trigger] sample_at(samples, x, y) == colours[g.cell(
            x,
            y,
        ) as int]
}

/// Samples of a fresh code in the standard layout, taken under a one-to-one change of its
/// colours, read back as the code: the palette calibrated on the spine (from row `first_row`)
/// is the changed colours, and the classified grid carries what the code carries.
pub proof fn lemma_recoloured_code_read_back(
    g: Grid,
    g2: Grid,
    samples: Seq<Vec<Rgb>>,
    colours: Seq<Rgb>,
    size: nat,
    stream: Seq<u8>,
    first_row: nat,
)
    requires
        grid_carries(g, size, g.mode, false, stream),
        samples_wf(samples, size),
        samples_recolour(samples, g, colours),
        first_row + g.mode.spec_num_colors() <= size,
        classified(
            g2,
            samples,
            size,
            g.mode,
            calibrated(samples, size, false, g.mode.spec_num_colors(), first_row),
        ),
    ensures
        calibrated(samples, size, false, g.mode.spec_num_colors(), first_row) == colours,
        grid_carries(g2, size, g.mode, false, stream),
{
    let nc = g.mode.spec_num_colors();
    let coords = data_coords(size, false);
    let pal = calibrated(samples, size, false, nc, first_row);
    assert forall|c: int| 0 <= c < nc implies #[trigger] pal[c] == colours[c] by {
        let x = (size / 2) as int;
        let y = size - 1 - c;
        assert(!is_data_cell(size as int, false, x, y));
        assert(g.cell(x, y) == skeleton_or_zero(size, nc, false, x, y));
        assert(g.cell(x, y) == c);
        assert(sample_at(samples, x, y) == colours[g.cell(x, y) as int]);
    }
    assert(pal =~= colours);
    assert forall|x: int, y: int|
        0 <= x < size && 0 <= y < size && (g.cell(x, y) as nat) < nc implies #[trigger] g2.cell(x, y)
        == g.cell(x, y) by {
        let v = g.cell(x, y) as nat;
        assert(sample_at(samples, x, y) == colours[v as int]);
        lemma_nearest_own(colours, v, nc);
    }
    assert forall|k: int| 0 <= k < coords.len() implies #[trigger] g2.cell(
        coords[k].0 as int,
        coords[k].1 as int,
    ) == data_cell_value(stream, k, g.mode.spec_bits_per_cell(), coords[k].0 as int, coords[k].1 as int) by {
        let x = coords[k].0 as int;
        let y = coords[k].1 as int;
        assert(g.cell(x, y) == data_cell_value(stream, k, g.mode.spec_bits_per_cell(), x, y));
        lemma_data_value_fits(stream, k, g.mode, x, y);
        crate::grid::lemma_data_coords_in_grid(size, false, k);
    }
    assert forall|x: int, y: int|
        0 <= x < size && 0 <= y < size && !is_data_cell(size as int, false, x, y) implies #[trigger] g2.cell(
        x,
        y,
    ) == skeleton_or_zero(size, nc, false, x, y) by {
        assert(g.cell(x, y) == skeleton_or_zero(size, nc, false, x, y));
    }
}

/// The number spelled by up to 3 bits of a stream is below 2 to that power.
proof fn lemma_stream_bits_small(stream: Seq<u8>, i: int, n: nat)
    requires
        1 <= n <= 3,
    ensures
        stream_bits(stream, i, n) < if n == 1 {
            2nat
        } else if n == 2 {
            4nat
        } else {
            8nat
        },
{
    lemma_stream_bit_is_bit(stream, i);
    lemma_stream_bit_is_bit(stream, i + 1);
    lemma_stream_bit_is_bit(stream, i + 2);
    reveal_with_fuel(stream_bits, 4);
}

/// The value of a data cell fits the colours of its mode.
proof fn lemma_data_value_fits(stream: Seq<u8>, k: int, mode: ColorMode, x: int, y: int)
    ensures
        data_cell_value(stream, k, mode.spec_bits_per_cell(), x, y) < mode.spec_num_colors(),
{
    let bpc = mode.spec_bits_per_cell();
    lemma_stream_bits_small(stream, k * bpc, bpc);
    let w = stream_bits(stream, k * bpc, bpc) as u8;
    let m = cell_mask(bpc);
    if bpc == 1 {
        assert(w <= 1 && m == 1 ==> w ^ m <= 1) by (bit_vector);
    } else if bpc == 2 {
        assert(w <= 3 && m == 3 ==> w ^ m <= 3) by (bit_vector);
    } else {
        assert(w <= 7 && m == 7 ==> w ^ m <= 7) by (bit_vector);
    }
}

/// Reading exact samples of a built grid against its palette gives the grid's cells back.
pub(crate) proof fn lemma_exact_samples_read_back(
    g: Grid,
    g2: Grid,
    samples: Seq<Vec<Rgb>>,
    size: nat,
    nano: bool,
    stream: Seq<u8>,
)
    requires
        grid_carries(g, size, g.mode, nano, stream),
        samples_show(samples, g),
        classified(g2, samples, size, g.mode, palette_prefix(g.mode.spec_num_colors())),
    ensures
        grid_carries(g2, size, g.mode, nano, stream),
{
    let nc = g.mode.spec_num_colors();
    let coords = data_coords(size, nano);
    assert forall|x: int, y: int|
        0 <= x < size && 0 <= y < size && (g.cell(x, y) as nat) < nc implies #[trigger] g2.cell(x, y)
        == g.cell(x, y) by {
        assert(sample_at(samples, x, y) == cell_rgb(g, x, y));
        lemma_nearest_exact(nc, g.cell(x, y) as nat, nc);
    }
    assert forall|k: int| 0 <= k < coords.len() implies #[trigger] g2.cell(
        coords[k].0 as int,
        coords[k].1 as int,
    ) == data_cell_value(stream, k, g.mode.spec_bits_per_cell(), coords[k].0 as int, coords[k].1 as int) by {
        let x = coords[k].0 as int;
        let y = coords[k].1 as int;
        assert(g.cell(x, y) == data_cell_value(stream, k, g.mode.spec_bits_per_cell(), x, y));
        lemma_data_value_fits(stream, k, g.mode, x, y);
        crate::grid::lemma_data_coords_in_grid(size, nano, k);
    }
    assert forall|x: int, y: int|
        0 <= x < size && 0 <= y < size && !is_data_cell(size as int, nano, x, y) implies #[trigger] g2.cell(
        x,
        y,
    ) == skeleton_or_zero(size, nc, nano, x, y) by {
        assert(g.cell(x, y) == skeleton_or_zero(size, nc, nano, x, y));
    }
}

/// In the standard layout the spine shows the palette: calibrating on exact samples of a
/// built grid gives the first palette colours.
pub(crate) proof fn lemma_exact_calibration(
    g: Grid,
    samples: Seq<Vec<Rgb>>,
    size: nat,
    nano: bool,
    stream: Seq<u8>,
    first_row: nat,
)
    requires
        grid_carries(g, size, g.mode, nano, stream),
        samples_show(samples, g),
        size >= 3,
    ensures
        calibrated(samples, size, nano, g.mode.spec_num_colors(), first_row) == palette_prefix(
            g.mode.spec_num_colors(),
        ),
{
    let nc = g.mode.spec_num_colors();
    assert forall|c: int| 0 <= c < nc implies #[trigger] calibrated(samples, size, nano, nc, first_row)[c]
        == palette_prefix(nc)[c] by {
        if !nano && c + 1 <= size && size - 1 - c >= first_row {
            let x = (size / 2) as int;
            let y = size - 1 - c;
            assert(!is_data_cell(size as int, nano, x, y));
            assert(sample_at(samples, x, y) == cell_rgb(g, x, y));
            assert(g.cell(x, y) == skeleton_or_zero(size, nc, nano, x, y));
        }
    }
    assert(calibrated(samples, size, nano, nc, first_row) =~= palette_prefix(nc));
}

/// Exact samples of a built grid show its corners and the finder of its layout.
proof fn lemma_exact_skeleton(g: Grid, samples: Seq<Vec<Rgb>>, size: nat, nano: bool, stream: Seq<u8>)
    requires
        grid_carries(g, size, g.mode, nano, stream),
        samples_show(samples, g),
        size >= 5,
        !nano ==> size > g.mode.spec_num_colors(),
    ensures
        corners_ok(samples, size),
        nano ==> nano_finder_dark(samples),
        !nano ==> standard_finder_dark(samples, size),
{
    let nc = g.mode.spec_num_colors();
    let last = size - 1;
    assert(!is_data_cell(size as int, nano, 0, last));
    assert(!is_data_cell(size as int, nano, last, last));
    assert(sample_at(samples, 0, last) == cell_rgb(g, 0, last));
    assert(sample_at(samples, last, last) == cell_rgb(g, last, last));
    assert(g.cell(0, last) == skeleton_or_zero(size, nc, nano, 0, last));
    assert(g.cell(last, last) == skeleton_or_zero(size, nc, nano, last, last));
    if nano {
        assert forall|x: int, y: int| (y == 0 && 0 <= x <= 2) || (x == 1 && y == 1) implies #[trigger] sample_at(
            samples,
            x,
            y,
        ).0 < 128 by {
            assert(!is_data_cell(size as int, nano, x, y));
            assert(sample_at(samples, x, y) == cell_rgb(g, x, y));
            assert(g.cell(x, y) == skeleton_or_zero(size, nc, nano, x, y));
        }
        assert(sample_at(samples, 0, 0).0 < 128);
        assert(sample_at(samples, 1, 0).0 < 128);
        assert(sample_at(samples, 2, 0).0 < 128);
        assert(sample_at(samples, 1, 1).0 < 128);
    } else {
        assert forall|x: int| 0 <= x < size implies #[trigger] sample_at(samples, x, 0).0 < 128 by {
            assert(!is_data_cell(size as int, nano, x, 0));
            assert(sample_at(samples, x, 0) == cell_rgb(g, x, 0));
            assert(g.cell(x, 0) == skeleton_or_zero(size, nc, nano, x, 0));
        }
        let sx = (size / 2) as int;
        assert forall|y: int| 0 <= y < spine_rows_checked(size) implies #[trigger] sample_at(
            samples,
            sx,
            y,
        ).0 < 128 by {
            assert(!is_data_cell(size as int, nano, sx, y));
            assert(sample_at(samples, sx, y) == cell_rgb(g, sx, y));
            assert(g.cell(sx, y) == skeleton_or_zero(size, nc, nano, sx, y));
        }
    }
}

/// The index of the palette colour nearest to `c`.
pub fn nearest_color(palette: &Vec<Rgb>, c: Rgb) -> (i: usize)
    requires
        palette@.len() >= 1,
    ensures
        i == nearest(palette@, c),
        i < palette@.len(),
{
    let mut best: usize = 0;
    let mut best_d = c.distance_sq(&palette[0]);
    let mut k: usize = 1;
    while k < palette.len()
        invariant
            1 <= k <= palette@.len(),
            best == nearest_upto(palette@, c, k as nat),
            best < k,
            best_d == spec_distance_sq(c, palette@[best as int]),
        decreases palette@.len() - k,
    {
        let d = c.distance_sq(&palette[k]);
        if d < best_d {
            best = k;
            best_d = d;
        }
        k += 1;
    }
    best
}

/// The palette a sampled grid is read against (see `calibrated`).
pub fn calibrate(
    samples: &Vec<Vec<Rgb>>,
    size: usize,
    nano: bool,
    mode: ColorMode,
    first_row: usize,
) -> (palette: Vec<Rgb>)
    requires
        samples_wf(samples@, size as nat),
        size >= 1,
    ensures
        palette@ == calibrated(samples@, size as nat, nano, mode.spec_num_colors(), first_row as nat),
        palette@.len() == mode.spec_num_colors(),
        forall|c: int|
            0 <= c < mode.spec_num_colors() && !nano && c + 1 <= size && size - 1 - c >= first_row
                ==> #[trigger] palette@[c] == samples@[size - 1 - c]@[(size / 2) as int],
        forall|c: int|
            0 <= c < mode.spec_num_colors() && !(!nano && c + 1 <= size && size - 1 - c >= first_row)
                ==> #[trigger] palette@[c] == spec_palette(c),
{
    let nc = mode.num_colors();
    let mut palette: Vec<Rgb> = Vec::new();
    let mut c: usize = 0;
    while c < nc
        invariant
            c <= nc,
            nc == mode.spec_num_colors(),
            nc <= 8,
            samples_wf(samples@, size as nat),
            size >= 1,
            palette@.len() == c,
            forall|j: int| 0 <= j < c ==> #[trigger] palette@[j] == calibrated(
                samples@,
                size as nat,
                nano,
                nc as nat,
                first_row as nat,
            )[j],
        decreases nc - c,
    {
        if !nano && c + 1 <= size && size - 1 - c >= first_row {
            let row = size - 1 - c;
            assert(samples@[row as int]@.len() == size);
            palette.push(samples[row][size / 2]);
        } else {
            palette.push(Rgb::palette(c));
        }
        c += 1;
    }
    proof {
        assert(palette@ =~= calibrated(samples@, size as nat, nano, nc as nat, first_row as nat));
    }
    palette
}

/// The grid whose cells are the indices of the palette colours nearest to their samples.
pub fn classify(samples: &Vec<Vec<Rgb>>, size: usize, mode: ColorMode, palette: &Vec<Rgb>) -> (g: Grid)
    requires
        samples_wf(samples@, size as nat),
        1 <= palette@.len() <= 256,
    ensures
        classified(g, samples@, size as nat, mode, palette@),
{
    let mut g = Grid::new(size, mode);
    let mut y: usize = 0;
    while y < size
        invariant
            y <= size,
            samples_wf(samples@, size as nat),
            1 <= palette@.len() <= 256,
            g.wf(),
            g.size == size,
            g.mode == mode,
            forall|i: int, j: int|
                0 <= i < size && 0 <= j < y ==> #[trigger] g.cell(i, j) == nearest(
                    palette@,
                    sample_at(samples@, i, j),
                ) as u8,
        decreases size - y,
    {
        let mut x: usize = 0;
        while x < size
            invariant
                x <= size,
                y < size,
                samples_wf(samples@, size as nat),
                1 <= palette@.len() <= 256,
                g.wf(),
                g.size == size,
                g.mode == mode,
                forall|i: int, j: int|
                    0 <= i < size && 0 <= j < y ==> #[trigger] g.cell(i, j) == nearest(
                        palette@,
                        sample_at(samples@, i, j),
                    ) as u8,
                forall|i: int| 0 <= i < x ==> #[trigger] g.cell(i, y as int) == nearest(
                    palette@,
                    sample_at(samples@, i, y as int),
                ) as u8,
            decreases size - x,
        {
            assert(samples@[y as int]@.len() == size);
            let idx = nearest_color(palette, samples[y][x]);
            g.set(x, y, idx as u8);
            x += 1;
        }
        y += 1;
    }
    g
}

/// One colour mode of the scanner on exact samples: at the place of the mode a code was
/// built in, read in its own layout, the classified grid is the code; before it, or in the nano
/// layout tried before a standard code's own, the classified grid fails every parity count.
#[verifier::spinoff_prover]
#[verifier::rlimit(100)]
proof fn lemma_mode_attempt(
    samples: Seq<Vec<Rgb>>,
    size: usize,
    forced_mode: Option<ColorMode>,
    is_nano: bool,
    k: usize,
    grid: Grid,
    password: Option<Seq<u8>>,
    verify_key: Option<Seq<u8>>,
)
    requires
        samples_wf(samples, size as nat),
        5 <= size <= 251,
        k < modes_tried(forced_mode).len(),
        is_nano ==> nano_finder_dark(samples),
        classified(
            grid,
            samples,
            size as nat,
            modes_tried(forced_mode)[k as int],
            calibrated(samples, size as nat, is_nano, modes_tried(forced_mode)[k as int].spec_num_colors(), 0),
        ),
    ensures
        forall|
            mode: ColorMode,
            nano_read: bool,
            g: Grid,
            data: Seq<u8>,
            v: EncoderView,
            raw: Seq<u8>,
            body: Seq<u8>,
            iv: Seq<u8>,
            ts: u64,
            sz: nat,
            enc: Seq<u8>,
            m: Metadata,
        |
            #[trigger] exact_single_reached(
                samples,
                forced_mode,
                size as nat,
                0,
                mode,
                nano_read,
                password,
                verify_key,
                g,
                data,
                v,
                raw,
                body,
                iv,
                ts,
                sz,
                enc,
                m,
            ) && layout_reached(samples, size as nat, nano_read, forced_mode, password, verify_key) && g.size == size && sz % 2 == 1
                ==> (is_nano == nano_read && k == mode_place(forced_mode, mode) ==> fresh_single_code(grid, data, v, raw, body, iv, ts, sz, enc, m)) && (is_nano == nano_read && k < mode_place(forced_mode, mode) ==> all_candidates_fail(grid, is_nano, password, verify_key)) && (is_nano && !nano_read ==> all_candidates_fail(grid, is_nano, password, verify_key)),
{
        assert forall|
            mode: ColorMode,
            nano_read: bool,
            g: Grid,
            data: Seq<u8>,
            v: EncoderView,
            raw: Seq<u8>,
            body: Seq<u8>,
            iv: Seq<u8>,
            ts: u64,
            sz: nat,
            enc: Seq<u8>,
            m: Metadata,
        |
            #[trigger] exact_single_reached(
                samples,
                forced_mode,
                size as nat,
                0,
                mode,
                nano_read,
                password,
                verify_key,
                g,
                data,
                v,
                raw,
                body,
                iv,
                ts,
                sz,
                enc,
                m,
            ) && layout_reached(samples, size as nat, nano_read, forced_mode, password, verify_key) && g.size == size && sz % 2 == 1
                implies (is_nano == nano_read && k == mode_place(forced_mode, mode) ==> fresh_single_code(grid, data, v, raw, body, iv, ts, sz, enc, m)) && (is_nano == nano_read && k < mode_place(forced_mode, mode) ==> all_candidates_fail(grid, is_nano, password, verify_key)) && (is_nano && !nano_read ==> all_candidates_fail(grid, is_nano, password, verify_key)) by {
            if is_nano && !nano_read {
                assert(nano_layout_reads_nothing(samples, size as nat, forced_mode, password, verify_key));
                assert(mode_reads_nothing(samples, size as nat, 0, true, modes_tried(forced_mode)[k as int], password, verify_key));
                assert(classified(grid, samples, size as nat, modes_tried(forced_mode)[k as int], calibrated(samples, size as nat, true, modes_tried(forced_mode)[k as int].spec_num_colors(), 0)));
            } else if is_nano != nano_read {
            } else if k < mode_place(forced_mode, mode) {
                assert(mode_reads_nothing(samples, size as nat, 0, is_nano, modes_tried(forced_mode)[k as int], password, verify_key));
                assert(classified(grid, samples, size as nat, modes_tried(forced_mode)[k as int], calibrated(samples, size as nat, is_nano, modes_tried(forced_mode)[k as int].spec_num_colors(), 0)));
            } else if k == mode_place(forced_mode, mode) {
            let nano_b = v.nano || sz <= 7;
            let stream = crate::encoder::resized(
                enc,
                crate::grid::spec_capacity_bytes(sz, g.mode.spec_bits_per_cell(), nano_b),
            );
            assert(grid_carries(g, sz, g.mode, nano_b, stream));
            assert(mode == g.mode);
            lemma_exact_calibration(g, samples, sz, nano_b, stream, 0);
            lemma_exact_samples_read_back(g, grid, samples, sz, nano_b, stream);
            }
        }
}

/// Whether `samples` show a fresh single code `g` built in the standard layout (see
/// `fresh_single_code`) with its palette colours changed one-to-one to `colours`, its black
/// still reading dark and its white light by their red, to be read with the password it was
/// built with and a verification key that its signature, if any, passes; the standard layout
/// reached and the modes tried before its own reading nothing.
pub open spec fn recoloured_std_single_reached(
    samples: Seq<Vec<Rgb>>,
    forced_mode: Option<ColorMode>,
    size: nat,
    colours: Seq<Rgb>,
    password: Option<Seq<u8>>,
    verify_key: Option<Seq<u8>>,
    g: Grid,
    data: Seq<u8>,
    v: EncoderView,
    raw: Seq<u8>,
    body: Seq<u8>,
    iv: Seq<u8>,
    ts: u64,
    sz: nat,
    enc: Seq<u8>,
    m: Metadata,
) -> bool {
    &&& fresh_single_code(g, data, v, raw, body, iv, ts, sz, enc, m)
    &&& read_as_built(v, raw, sz, false)
    &&& v.password == password
    &&& single_readable(body, data, v.sign_key, verify_key, v.min_header)
    &&& samples_recolour(samples, g, colours)
    &&& colours[1].0 < 128
    &&& colours[0].0 >= 128
    &&& layout_reached(samples, size, false, forced_mode, password, verify_key)
    &&& earlier_modes_read_nothing(samples, size, 0, false, forced_mode, g.mode, password, verify_key)
}

/// The dual counterpart of `recoloured_std_single_reached` (see `fresh_dual_code`).
pub open spec fn recoloured_std_dual_reached(
    samples: Seq<Vec<Rgb>>,
    forced_mode: Option<ColorMode>,
    size: nat,
    colours: Seq<Rgb>,
    password: Option<Seq<u8>>,
    verify_key: Option<Seq<u8>>,
    g: Grid,
    public_data: Seq<u8>,
    private_data: Seq<u8>,
    v: EncoderView,
    raw: Seq<u8>,
    body: Seq<u8>,
    iv: Seq<u8>,
    ts: u64,
    sz: nat,
    enc: Seq<u8>,
    m: Metadata,
) -> bool {
    &&& fresh_dual_code(g, public_data, private_data, v, raw, body, iv, ts, sz, enc, m)
    &&& read_as_built(v, raw, sz, false)
    &&& v.password == password
    &&& dual_readable(body, public_data, private_data, v.sign_key, verify_key, v.min_header)
    &&& samples_recolour(samples, g, colours)
    &&& colours[1].0 < 128
    &&& colours[0].0 >= 128
    &&& layout_reached(samples, size, false, forced_mode, password, verify_key)
    &&& earlier_modes_read_nothing(samples, size, 0, false, forced_mode, g.mode, password, verify_key)
}

/// Recoloured samples of a code in the standard layout whose black reads dark and white light
/// pass the scanner's checks: the bottom corners, the roof and the upper spine.
proof fn lemma_recoloured_skeleton(
    g: Grid,
    samples: Seq<Vec<Rgb>>,
    colours: Seq<Rgb>,
    size: nat,
    stream: Seq<u8>,
)
    requires
        grid_carries(g, size, g.mode, false, stream),
        samples_recolour(samples, g, colours),
        colours[1].0 < 128,
        colours[0].0 >= 128,
        size >= 5,
        size > g.mode.spec_num_colors(),
    ensures
        corners_ok(samples, size),
        standard_finder_dark(samples, size),
{
    let nc = g.mode.spec_num_colors();
    let last = size - 1;
    assert(!is_data_cell(size as int, false, 0, last));
    assert(!is_data_cell(size as int, false, last, last));
    assert(g.cell(0, last) == skeleton_or_zero(size, nc, false, 0, last));
    assert(g.cell(last, last) == skeleton_or_zero(size, nc, false, last, last));
    assert(sample_at(samples, 0, last) == colours[g.cell(0, last) as int]);
    assert(sample_at(samples, last, last) == colours[g.cell(last, last) as int]);
    assert forall|x: int| 0 <= x < size implies #[trigger] sample_at(samples, x, 0).0 < 128 by {
        assert(!is_data_cell(size as int, false, x, 0));
        assert(g.cell(x, 0) == skeleton_or_zero(size, nc, false, x, 0));
        assert(sample_at(samples, x, 0) == colours[g.cell(x, 0) as int]);
    }
    let sx = (size / 2) as int;
    assert forall|y: int| 0 <= y < spine_rows_checked(size) implies #[trigger] sample_at(
        samples,
        sx,
        y,
    ).0 < 128 by {
        assert(!is_data_cell(size as int, false, sx, y));
        assert(g.cell(sx, y) == skeleton_or_zero(size, nc, false, sx, y));
        assert(sample_at(samples, sx, y) == colours[g.cell(sx, y) as int]);
    }
}

/// One colour mode of the scanner on recoloured samples of a single code in the standard
/// layout: in the nano layout, tried first, and at the modes before the code's own, the
/// classified grid fails every parity count; at the code's own mode the palette is the changed
/// colours and the classified grid is the code.
#[verifier::spinoff_prover]
#[verifier::rlimit(60)]
proof fn lemma_recoloured_std_attempt(
    samples: Seq<Vec<Rgb>>,
    size: usize,
    forced_mode: Option<ColorMode>,
    is_nano: bool,
    k: usize,
    grid: Grid,
    password: Option<Seq<u8>>,
    verify_key: Option<Seq<u8>>,
)
    requires
        samples_wf(samples, size as nat),
        5 <= size <= 251,
        k < modes_tried(forced_mode).len(),
        is_nano ==> nano_finder_dark(samples),
        classified(
            grid,
            samples,
            size as nat,
            modes_tried(forced_mode)[k as int],
            calibrated(samples, size as nat, is_nano, modes_tried(forced_mode)[k as int].spec_num_colors(), 0),
        ),
    ensures
        forall|
            colours: Seq<Rgb>,
            g: Grid,
            data: Seq<u8>,
            v: EncoderView,
            raw: Seq<u8>,
            body: Seq<u8>,
            iv: Seq<u8>,
            ts: u64,
            sz: nat,
            enc: Seq<u8>,
            m: Metadata,
        |
            #[trigger] recoloured_std_single_reached(
                samples,
                forced_mode,
                size as nat,
                colours,
                password,
                verify_key,
                g,
                data,
                v,
                raw,
                body,
                iv,
                ts,
                sz,
                enc,
                m,
            ) && g.size == size && sz % 2 == 1 ==> (!is_nano && k == mode_place(forced_mode, g.mode)
                ==> fresh_single_code(grid, data, v, raw, body, iv, ts, sz, enc, m) && calibrated(
                samples,
                size as nat,
                false,
                g.mode.spec_num_colors(),
                0,
            ) == colours) && (!is_nano && k < mode_place(forced_mode, g.mode) ==> all_candidates_fail(
                grid,
                false,
                password,
                verify_key,
            )) && (is_nano ==> all_candidates_fail(grid, true, password, verify_key)),
{
    assert forall|
        colours: Seq<Rgb>,
        g: Grid,
        data: Seq<u8>,
        v: EncoderView,
        raw: Seq<u8>,
        body: Seq<u8>,
        iv: Seq<u8>,
        ts: u64,
        sz: nat,
        enc: Seq<u8>,
        m: Metadata,
    |
        #[trigger] recoloured_std_single_reached(
            samples,
            forced_mode,
            size as nat,
            colours,
            password,
            verify_key,
            g,
            data,
            v,
            raw,
            body,
            iv,
            ts,
            sz,
            enc,
            m,
        ) && g.size == size && sz % 2 == 1 implies (!is_nano && k == mode_place(forced_mode, g.mode)
        ==> fresh_single_code(grid, data, v, raw, body, iv, ts, sz, enc, m) && calibrated(
        samples,
        size as nat,
        false,
        g.mode.spec_num_colors(),
        0,
    ) == colours) && (!is_nano && k < mode_place(forced_mode, g.mode) ==> all_candidates_fail(
        grid,
        false,
        password,
        verify_key,
    )) && (is_nano ==> all_candidates_fail(grid, true, password, verify_key)) by {
        if is_nano {
            assert(nano_layout_reads_nothing(samples, size as nat, forced_mode, password, verify_key));
            assert(mode_reads_nothing(samples, size as nat, 0, true, modes_tried(forced_mode)[k as int], password, verify_key));
        } else if k < mode_place(forced_mode, g.mode) {
            assert(mode_reads_nothing(samples, size as nat, 0, false, modes_tried(forced_mode)[k as int], password, verify_key));
        } else if k == mode_place(forced_mode, g.mode) {
            assert(modes_tried(forced_mode)[k as int] == g.mode);
            let stream = crate::encoder::resized(
                enc,
                crate::grid::spec_capacity_bytes(sz, g.mode.spec_bits_per_cell(), false),
            );
            assert(grid_carries(g, sz, g.mode, false, stream));
            assert(sz >= 9);
            lemma_recoloured_code_read_back(g, grid, samples, colours, sz, stream, 0);
        }
    }
}

/// One colour mode of the scanner on recoloured samples of a dual code in the standard
/// layout: in the nano layout, tried first, and at the modes before the code's own, the
/// classified grid fails every parity count; at the code's own mode the palette is the changed
/// colours and the classified grid is the code.
#[verifier::spinoff_prover]
#[verifier::rlimit(60)]
proof fn lemma_recoloured_std_dual_attempt(
    samples: Seq<Vec<Rgb>>,
    size: usize,
    forced_mode: Option<ColorMode>,
    is_nano: bool,
    k: usize,
    grid: Grid,
    password: Option<Seq<u8>>,
    verify_key: Option<Seq<u8>>,
)
    requires
        samples_wf(samples, size as nat),
        5 <= size <= 251,
        k < modes_tried(forced_mode).len(),
        is_nano ==> nano_finder_dark(samples),
        classified(
            grid,
            samples,
            size as nat,
            modes_tried(forced_mode)[k as int],
            calibrated(samples, size as nat, is_nano, modes_tried(forced_mode)[k as int].spec_num_colors(), 0),
        ),
    ensures
        forall|
            colours: Seq<Rgb>,
            g: Grid,
            public_data: Seq<u8>,
            private_data: Seq<u8>,
            v: EncoderView,
            raw: Seq<u8>,
            body: Seq<u8>,
            iv: Seq<u8>,
            ts: u64,
            sz: nat,
            enc: Seq<u8>,
            m: Metadata,
        |
            #[trigger] recoloured_std_dual_reached(
                samples,
                forced_mode,
                size as nat,
                colours,
                password,
                verify_key,
                g,
                public_data,
                private_data,
                v,
                raw,
                body,
                iv,
                ts,
                sz,
                enc,
                m,
            ) && g.size == size && sz % 2 == 1 ==> (!is_nano && k == mode_place(forced_mode, g.mode)
                ==> fresh_dual_code(grid, public_data, private_data, v, raw, body, iv, ts, sz, enc, m) && calibrated(
                samples,
                size as nat,
                false,
                g.mode.spec_num_colors(),
                0,
            ) == colours) && (!is_nano && k < mode_place(forced_mode, g.mode) ==> all_candidates_fail(
                grid,
                false,
                password,
                verify_key,
            )) && (is_nano ==> all_candidates_fail(grid, true, password, verify_key)),
{
    assert forall|
        colours: Seq<Rgb>,
        g: Grid,
        public_data: Seq<u8>,
        private_data: Seq<u8>,
        v: EncoderView,
        raw: Seq<u8>,
        body: Seq<u8>,
        iv: Seq<u8>,
        ts: u64,
        sz: nat,
        enc: Seq<u8>,
        m: Metadata,
    |
        #[trigger] recoloured_std_dual_reached(
            samples,
            forced_mode,
            size as nat,
            colours,
            password,
            verify_key,
            g,
            public_data,
            private_data,
            v,
            raw,
            body,
            iv,
            ts,
            sz,
            enc,
            m,
        ) && g.size == size && sz % 2 == 1 implies (!is_nano && k == mode_place(forced_mode, g.mode)
        ==> fresh_dual_code(grid, public_data, private_data, v, raw, body, iv, ts, sz, enc, m) && calibrated(
        samples,
        size as nat,
        false,
        g.mode.spec_num_colors(),
        0,
    ) == colours) && (!is_nano && k < mode_place(forced_mode, g.mode) ==> all_candidates_fail(
        grid,
        false,
        password,
        verify_key,
    )) && (is_nano ==> all_candidates_fail(grid, true, password, verify_key)) by {
        if is_nano {
            assert(nano_layout_reads_nothing(samples, size as nat, forced_mode, password, verify_key));
            assert(mode_reads_nothing(samples, size as nat, 0, true, modes_tried(forced_mode)[k as int], password, verify_key));
        } else if k < mode_place(forced_mode, g.mode) {
            assert(mode_reads_nothing(samples, size as nat, 0, false, modes_tried(forced_mode)[k as int], password, verify_key));
        } else if k == mode_place(forced_mode, g.mode) {
            assert(modes_tried(forced_mode)[k as int] == g.mode);
            let stream = crate::encoder::resized(
                enc,
                crate::grid::spec_capacity_bytes(sz, g.mode.spec_bits_per_cell(), false),
            );
            assert(grid_carries(g, sz, g.mode, false, stream));
            assert(sz >= 9);
            lemma_recoloured_code_read_back(g, grid, samples, colours, sz, stream, 0);
        }
    }
}

/// One colour mode of the scanner on exact samples of a dual code: at the place of the mode a code was
/// built in, read in its own layout, the classified grid is the code; before it, or in the nano
/// layout tried before a standard code's own, the classified grid fails every parity count.
#[verifier::spinoff_prover]
#[verifier::rlimit(100)]
proof fn lemma_mode_attempt_dual(
    samples: Seq<Vec<Rgb>>,
    size: usize,
    forced_mode: Option<ColorMode>,
    is_nano: bool,
    k: usize,
    grid: Grid,
    password: Option<Seq<u8>>,
    verify_key: Option<Seq<u8>>,
)
    requires
        samples_wf(samples, size as nat),
        5 <= size <= 251,
        k < modes_tried(forced_mode).len(),
        is_nano ==> nano_finder_dark(samples),
        classified(
            grid,
            samples,
            size as nat,
            modes_tried(forced_mode)[k as int],
            calibrated(samples, size as nat, is_nano, modes_tried(forced_mode)[k as int].spec_num_colors(), 0),
        ),
    ensures
        forall|
            mode: ColorMode,
            nano_read: bool,
            g: Grid,
            public_data: Seq<u8>,
            private_data: Seq<u8>,
            v: EncoderView,
            raw: Seq<u8>,
            body: Seq<u8>,
            iv: Seq<u8>,
            ts: u64,
            sz: nat,
            enc: Seq<u8>,
            m: Metadata,
        |
            #[trigger] exact_dual_reached(
                samples,
                forced_mode,
                size as nat,
                0,
                mode,
                nano_read,
                password,
                verify_key,
                g,
                public_data,
                private_data,
                v,
                raw,
                body,
                iv,
                ts,
                sz,
                enc,
                m,
            ) && layout_reached(samples, size as nat, nano_read, forced_mode, password, verify_key) && g.size == size && sz % 2 == 1
                ==> (is_nano == nano_read && k == mode_place(forced_mode, mode) ==> fresh_dual_code(grid, public_data, private_data, v, raw, body, iv, ts, sz, enc, m)) && (is_nano == nano_read && k < mode_place(forced_mode, mode) ==> all_candidates_fail(grid, is_nano, password, verify_key)) && (is_nano && !nano_read ==> all_candidates_fail(grid, is_nano, password, verify_key)),
{
assert forall|
            mode: ColorMode,
            nano_read: bool,
            g: Grid,
            public_data: Seq<u8>,
            private_data: Seq<u8>,
            v: EncoderView,
            raw: Seq<u8>,
            body: Seq<u8>,
            iv: Seq<u8>,
            ts: u64,
            sz: nat,
            enc: Seq<u8>,
            m: Metadata,
        |
            #[trigger] exact_dual_reached(
                samples,
                forced_mode,
                size as nat,
                0,
                mode,
                nano_read,
                password,
                verify_key,
                g,
                public_data,
                private_data,
                v,
                raw,
                body,
                iv,
                ts,
                sz,
                enc,
                m,
            ) && layout_reached(samples, size as nat, nano_read, forced_mode, password, verify_key) && g.size == size && sz % 2 == 1
                implies (is_nano == nano_read && k == mode_place(forced_mode, mode) ==> fresh_dual_code(grid, public_data, private_data, v, raw, body, iv, ts, sz, enc, m)) && (is_nano == nano_read && k < mode_place(forced_mode, mode) ==> all_candidates_fail(grid, is_nano, password, verify_key)) && (is_nano && !nano_read ==> all_candidates_fail(grid, is_nano, password, verify_key)) by {
            if is_nano && !nano_read {
                assert(nano_layout_reads_nothing(samples, size as nat, forced_mode, password, verify_key));
                assert(mode_reads_nothing(samples, size as nat, 0, true, modes_tried(forced_mode)[k as int], password, verify_key));
                assert(classified(grid, samples, size as nat, modes_tried(forced_mode)[k as int], calibrated(samples, size as nat, true, modes_tried(forced_mode)[k as int].spec_num_colors(), 0)));
            } else if is_nano != nano_read {
            } else if k < mode_place(forced_mode, mode) {
                assert(mode_reads_nothing(samples, size as nat, 0, is_nano, modes_tried(forced_mode)[k as int], password, verify_key));
                assert(classified(grid, samples, size as nat, modes_tried(forced_mode)[k as int], calibrated(samples, size as nat, is_nano, modes_tried(forced_mode)[k as int].spec_num_colors(), 0)));
            } else if k == mode_place(forced_mode, mode) {
            let nano_b = v.nano || sz <= 7;
            let stream = crate::encoder::resized(
                enc,
                crate::grid::spec_capacity_bytes(sz, g.mode.spec_bits_per_cell(), nano_b),
            );
            assert(grid_carries(g, sz, g.mode, nano_b, stream));
            assert(mode == g.mode);
            lemma_exact_calibration(g, samples, sz, nano_b, stream, 0);
            lemma_exact_samples_read_back(g, grid, samples, sz, nano_b, stream);
            }
        }
}

/// Reads codes from images whose cells lie on a regular grid.
pub struct ImageScanner;

impl ImageScanner {
    /// Tries to read a code of side `size` from the colours sampled at the centres of its
    /// cells. Nothing is tried unless the bottom-left sample is dark and the bottom-right
    /// light. Then the nano layout (when its finder is dark) and the standard one (when its
    /// roof and upper spine are dark) are tried in turn, each with the forced colour mode or
    /// with four, eight and two colours in turn: the samples are read against the palette
    /// (calibrated on the spine in the standard layout) and the grid decoded. The first payload
    /// decoded is returned. Exact samples of a code built in a mode tried give back what was
    /// encoded when the modes tried before it read nothing; for a code in the standard layout
    /// whose nano finder cells look dark too, when the nano layout, tried first, reads nothing.
    /// So do samples of a standard code whose colours all show changed one-to-one, its black
    /// still dark and its white light: the palette calibrated on the spine follows the change.
    #[verifier::spinoff_prover]
    #[verifier::rlimit(40)]
    pub fn scan_samples(
        samples: &Vec<Vec<Rgb>>,
        size: usize,
        password: Option<&str>,
        verify_key: Option<&str>,
        forced_mode: Option<ColorMode>,
    ) -> (r: Option<DecodedPayload>)
        requires
            samples_wf(samples@, size as nat),
            5 <= size <= 251,
        ensures
            r is Some ==> corners_ok(samples@, size as nat) && (nano_finder_dark(samples@)
                || standard_finder_dark(samples@, size as nat)),
            r matches Some(p) ==> exists|block: Seq<u8>|
                #[trigger] spec_unpack(block, key_bytes(password), key_bytes(verify_key)) == Ok::<
                    PayloadView,
                    UnpackFailure,
                >(p@),
            forall|
                mode: ColorMode,
                g: Grid,
                data: Seq<u8>,
                v: EncoderView,
                raw: Seq<u8>,
                body: Seq<u8>,
                iv: Seq<u8>,
                ts: u64,
                sz: nat,
                enc: Seq<u8>,
                m: Metadata,
            |
                #[trigger] exact_single_reached(
                    samples@,
                    forced_mode,
                    size as nat,
                    0,
                    mode,
                    nano_finder_dark(samples@),
                    key_bytes(password),
                    key_bytes(verify_key),
                    g,
                    data,
                    v,
                    raw,
                    body,
                    iv,
                    ts,
                    sz,
                    enc,
                    m,
                ) && g.size == size && sz % 2 == 1
                    ==> (r matches Some(p) && p@ == single_view(data)),
            forall|
                mode: ColorMode,
                g: Grid,
                public_data: Seq<u8>,
                private_data: Seq<u8>,
                v: EncoderView,
                raw: Seq<u8>,
                body: Seq<u8>,
                iv: Seq<u8>,
                ts: u64,
                sz: nat,
                enc: Seq<u8>,
                m: Metadata,
            |
                #[trigger] exact_dual_reached(
                    samples@,
                    forced_mode,
                    size as nat,
                    0,
                    mode,
                    nano_finder_dark(samples@),
                    key_bytes(password),
                    key_bytes(verify_key),
                    g,
                    public_data,
                    private_data,
                    v,
                    raw,
                    body,
                    iv,
                    ts,
                    sz,
                    enc,
                    m,
                ) && g.size == size && sz % 2 == 1
                    ==> (r matches Some(p) && p@ == PayloadView::Dual(lossy_text(public_data), lossy_text(private_data))),
            forall|
                mode: ColorMode,
                nano_read: bool,
                g: Grid,
                data: Seq<u8>,
                v: EncoderView,
                raw: Seq<u8>,
                body: Seq<u8>,
                iv: Seq<u8>,
                ts: u64,
                sz: nat,
                enc: Seq<u8>,
                m: Metadata,
            |
                #[trigger] exact_single_reached(
                    samples@,
                    forced_mode,
                    size as nat,
                    0,
                    mode,
                    nano_read,
                    key_bytes(password),
                    key_bytes(verify_key),
                    g,
                    data,
                    v,
                    raw,
                    body,
                    iv,
                    ts,
                    sz,
                    enc,
                    m,
                ) && layout_reached(samples@, size as nat, nano_read, forced_mode, key_bytes(password), key_bytes(verify_key)) && g.size == size && sz % 2 == 1
                    ==> (r matches Some(p) && p@ == single_view(data)),
            forall|
                mode: ColorMode,
                nano_read: bool,
                g: Grid,
                public_data: Seq<u8>,
                private_data: Seq<u8>,
                v: EncoderView,
                raw: Seq<u8>,
                body: Seq<u8>,
                iv: Seq<u8>,
                ts: u64,
                sz: nat,
                enc: Seq<u8>,
                m: Metadata,
            |
                #[trigger] exact_dual_reached(
                    samples@,
                    forced_mode,
                    size as nat,
                    0,
                    mode,
                    nano_read,
                    key_bytes(password),
                    key_bytes(verify_key),
                    g,
                    public_data,
                    private_data,
                    v,
                    raw,
                    body,
                    iv,
                    ts,
                    sz,
                    enc,
                    m,
                ) && layout_reached(samples@, size as nat, nano_read, forced_mode, key_bytes(password), key_bytes(verify_key)) && g.size == size && sz % 2 == 1
                    ==> (r matches Some(p) && p@ == PayloadView::Dual(lossy_text(public_data), lossy_text(private_data))),
            forall|
                colours: Seq<Rgb>,
                g: Grid,
                data: Seq<u8>,
                v: EncoderView,
                raw: Seq<u8>,
                body: Seq<u8>,
                iv: Seq<u8>,
                ts: u64,
                sz: nat,
                enc: Seq<u8>,
                m: Metadata,
            |
                #[trigger] recoloured_std_single_reached(
                    samples@,
                    forced_mode,
                    size as nat,
                    colours,
                    key_bytes(password),
                    key_bytes(verify_key),
                    g,
                    data,
                    v,
                    raw,
                    body,
                    iv,
                    ts,
                    sz,
                    enc,
                    m,
                ) && g.size == size && sz % 2 == 1 ==> (r matches Some(p) && p@ == single_view(data)),
            forall|
                colours: Seq<Rgb>,
                g: Grid,
                public_data: Seq<u8>,
                private_data: Seq<u8>,
                v: EncoderView,
                raw: Seq<u8>,
                body: Seq<u8>,
                iv: Seq<u8>,
                ts: u64,
                sz: nat,
                enc: Seq<u8>,
                m: Metadata,
            |
                #[trigger] recoloured_std_dual_reached(
                    samples@,
                    forced_mode,
                    size as nat,
                    colours,
                    key_bytes(password),
                    key_bytes(verify_key),
                    g,
                    public_data,
                    private_data,
                    v,
                    raw,
                    body,
                    iv,
                    ts,
                    sz,
                    enc,
                    m,
                ) && g.size == size && sz % 2 == 1 ==> (r matches Some(p) && p@ == PayloadView::Dual(lossy_text(public_data), lossy_text(private_data))),
    {
        proof {
            assert forall|
                colours: Seq<Rgb>,
                g: Grid,
                data: Seq<u8>,
                v: EncoderView,
                raw: Seq<u8>,
                body: Seq<u8>,
                iv: Seq<u8>,
                ts: u64,
                sz: nat,
                enc: Seq<u8>,
                m: Metadata,
            |
                #[trigger] recoloured_std_single_reached(
                    samples@,
                    forced_mode,
                    size as nat,
                    colours,
                    key_bytes(password),
                    key_bytes(verify_key),
                    g,
                    data,
                    v,
                    raw,
                    body,
                    iv,
                    ts,
                    sz,
                    enc,
                    m,
                ) && g.size == size && sz % 2 == 1 implies corners_ok(samples@, size as nat)
                && standard_finder_dark(samples@, size as nat) by {
                let stream = crate::encoder::resized(
                    enc,
                    crate::grid::spec_capacity_bytes(sz, g.mode.spec_bits_per_cell(), false),
                );
                assert(grid_carries(g, sz, g.mode, false, stream));
                assert(sz >= 9);
                lemma_recoloured_skeleton(g, samples@, colours, sz, stream);
            }
            assert forall|
                colours: Seq<Rgb>,
                g: Grid,
                public_data: Seq<u8>,
                private_data: Seq<u8>,
                v: EncoderView,
                raw: Seq<u8>,
                body: Seq<u8>,
                iv: Seq<u8>,
                ts: u64,
                sz: nat,
                enc: Seq<u8>,
                m: Metadata,
            |
                #[trigger] recoloured_std_dual_reached(
                    samples@,
                    forced_mode,
                    size as nat,
                    colours,
                    key_bytes(password),
                    key_bytes(verify_key),
                    g,
                    public_data,
                    private_data,
                    v,
                    raw,
                    body,
                    iv,
                    ts,
                    sz,
                    enc,
                    m,
                ) && g.size == size && sz % 2 == 1 implies corners_ok(samples@, size as nat)
                && standard_finder_dark(samples@, size as nat) by {
                let stream = crate::encoder::resized(
                    enc,
                    crate::grid::spec_capacity_bytes(sz, g.mode.spec_bits_per_cell(), false),
                );
                assert(grid_carries(g, sz, g.mode, false, stream));
                assert(sz >= 9);
                lemma_recoloured_skeleton(g, samples@, colours, sz, stream);
            }
            assert forall|
                mode: ColorMode,
                nano_read: bool,
                g: Grid,
                data: Seq<u8>,
                v: EncoderView,
                raw: Seq<u8>,
                body: Seq<u8>,
                iv: Seq<u8>,
                ts: u64,
                sz: nat,
                enc: Seq<u8>,
                m: Metadata,
            |
                #[trigger] exact_single_reached(
                    samples@,
                    forced_mode,
                    size as nat,
                    0,
                    mode,
                    nano_read,
                    key_bytes(password),
                    key_bytes(verify_key),
                    g,
                    data,
                    v,
                    raw,
                    body,
                    iv,
                    ts,
                    sz,
                    enc,
                    m,
                ) && layout_reached(samples@, size as nat, nano_read, forced_mode, key_bytes(password), key_bytes(verify_key)) && g.size == size && sz % 2 == 1
                    implies corners_ok(samples@, size as nat) && (v.nano || sz <= 7 ==> nano_finder_dark(samples@)) && (!(v.nano || sz <= 7) ==> standard_finder_dark(samples@, size as nat)) by {
                let nano_b = v.nano || sz <= 7;
                let stream = crate::encoder::resized(
                    enc,
                    crate::grid::spec_capacity_bytes(sz, g.mode.spec_bits_per_cell(), nano_b),
                );
                assert(grid_carries(g, sz, g.mode, nano_b, stream));
                lemma_exact_skeleton(g, samples@, sz, nano_b, stream);
            }
            assert forall|
                mode: ColorMode,
                nano_read: bool,
                g: Grid,
                public_data: Seq<u8>,
                private_data: Seq<u8>,
                v: EncoderView,
                raw: Seq<u8>,
                body: Seq<u8>,
                iv: Seq<u8>,
                ts: u64,
                sz: nat,
                enc: Seq<u8>,
                m: Metadata,
            |
                #[trigger] exact_dual_reached(
                    samples@,
                    forced_mode,
                    size as nat,
                    0,
                    mode,
                    nano_read,
                    key_bytes(password),
                    key_bytes(verify_key),
                    g,
                    public_data,
                    private_data,
                    v,
                    raw,
                    body,
                    iv,
                    ts,
                    sz,
                    enc,
                    m,
                ) && layout_reached(samples@, size as nat, nano_read, forced_mode, key_bytes(password), key_bytes(verify_key)) && g.size == size && sz % 2 == 1
                    implies corners_ok(samples@, size as nat) && (v.nano || sz <= 7 ==> nano_finder_dark(samples@)) && (!(v.nano || sz <= 7) ==> standard_finder_dark(samples@, size as nat)) by {
                let nano_b = v.nano || sz <= 7;
                let stream = crate::encoder::resized(
                    enc,
                    crate::grid::spec_capacity_bytes(sz, g.mode.spec_bits_per_cell(), nano_b),
                );
                assert(grid_carries(g, sz, g.mode, nano_b, stream));
                lemma_exact_skeleton(g, samples@, sz, nano_b, stream);
            }
        }
        assert(samples@[(size - 1) as int]@.len() == size);
        assert(samples@[0]@.len() == size);
        assert(samples@[1]@.len() == size);
        let bl_dark = samples[size - 1][0].0 < 128;
        let br_bright = samples[size - 1][size - 1].0 >= 128;
        if !bl_dark || !br_bright {
            return None;
        }
        let valid_nano = samples[0][0].0 < 128 && samples[0][1].0 < 128 && samples[0][2].0 < 128
            && samples[1][1].0 < 128;
        let spine_x = size / 2;
        let mut valid_std = true;
        let mut x: usize = 0;
        while x < size
            invariant
                x <= size,
                samples_wf(samples@, size as nat),
                valid_std == (forall|i: int| 0 <= i < x ==> #[trigger] sample_at(samples@, i, 0).0 < 128),
            decreases size - x,
        {
            assert(samples@[0]@.len() == size);
            let v = samples[0][x].0;
            assert(sample_at(samples@, x as int, 0).0 == v);
            if v >= 128 {
                valid_std = false;
            }
            x += 1;
        }
        let check_len: usize = if size > 9 {
            size - 8
        } else {
            1
        };
        let mut spine_ok = true;
        let mut y: usize = 0;
        while y < check_len
            invariant
                y <= check_len,
                check_len == spine_rows_checked(size as nat),
                check_len <= size,
                spine_x == size / 2,
                samples_wf(samples@, size as nat),
                spine_ok == (forall|j: int| 0 <= j < y ==> #[trigger] sample_at(samples@, spine_x as int, j).0 < 128),
            decreases check_len - y,
        {
            assert(samples@[y as int]@.len() == size);
            let v = samples[y][spine_x].0;
            assert(sample_at(samples@, spine_x as int, y as int).0 == v);
            if v >= 128 {
                spine_ok = false;
            }
            y += 1;
        }
        let valid_std = valid_std && spine_ok;
        let mut decoder = TSpineDecoder::new();
        match password {
            Some(p) => {
                decoder = decoder.password(p);
            },
            None => {},
        }
        match verify_key {
            Some(k) => {
                decoder = decoder.verify_key(k);
            },
            None => {},
        }
        assert(decoder@.password == key_bytes(password));
        assert(decoder@.verify_key == key_bytes(verify_key));
        let modes: Vec<ColorMode> = match forced_mode {
            Some(m) => vec![m],
            None => vec![ColorMode::FourColor, ColorMode::EightColor, ColorMode::Monochrome],
        };
        let mut layout: usize = 0;
        while layout < 2
            invariant
                layout <= 2,
                samples_wf(samples@, size as nat),
                5 <= size <= 251,
                decoder@.password == key_bytes(password),
                decoder@.verify_key == key_bytes(verify_key),
                corners_ok(samples@, size as nat),
                valid_nano == nano_finder_dark(samples@),
                valid_std == standard_finder_dark(samples@, size as nat),
                modes@ == match forced_mode {
                    Some(f) => seq![f],
                    None => seq![ColorMode::FourColor, ColorMode::EightColor, ColorMode::Monochrome],
                },
                forall|
                    mode: ColorMode,
                    nano_read: bool,
                    g: Grid,
                    data: Seq<u8>,
                    v: EncoderView,
                    raw: Seq<u8>,
                    body: Seq<u8>,
                    iv: Seq<u8>,
                    ts: u64,
                    sz: nat,
                    enc: Seq<u8>,
                    m: Metadata,
                |
                    #[trigger] exact_single_reached(
                        samples@,
                        forced_mode,
                        size as nat,
                        0,
                        mode,
                        nano_read,
                        key_bytes(password),
                        key_bytes(verify_key),
                        g,
                        data,
                        v,
                        raw,
                        body,
                        iv,
                        ts,
                        sz,
                        enc,
                        m,
                    ) && layout_reached(samples@, size as nat, nano_read, forced_mode, key_bytes(password), key_bytes(verify_key)) && g.size == size && sz % 2 == 1
                        ==> (layout == 0 || (layout == 1 && !nano_read)),
                forall|
                    mode: ColorMode,
                    nano_read: bool,
                    g: Grid,
                    public_data: Seq<u8>,
                    private_data: Seq<u8>,
                    v: EncoderView,
                    raw: Seq<u8>,
                    body: Seq<u8>,
                    iv: Seq<u8>,
                    ts: u64,
                    sz: nat,
                    enc: Seq<u8>,
                    m: Metadata,
                |
                    #[trigger] exact_dual_reached(
                        samples@,
                        forced_mode,
                        size as nat,
                        0,
                        mode,
                        nano_read,
                        key_bytes(password),
                        key_bytes(verify_key),
                        g,
                        public_data,
                        private_data,
                        v,
                        raw,
                        body,
                        iv,
                        ts,
                        sz,
                        enc,
                        m,
                    ) && layout_reached(samples@, size as nat, nano_read, forced_mode, key_bytes(password), key_bytes(verify_key)) && g.size == size && sz % 2 == 1
                        ==> (layout == 0 || (layout == 1 && !nano_read)),
                forall|
                    colours: Seq<Rgb>,
                    g: Grid,
                    data: Seq<u8>,
                    v: EncoderView,
                    raw: Seq<u8>,
                    body: Seq<u8>,
                    iv: Seq<u8>,
                    ts: u64,
                    sz: nat,
                    enc: Seq<u8>,
                    m: Metadata,
                |
                    #[trigger] recoloured_std_single_reached(
                        samples@,
                        forced_mode,
                        size as nat,
                        colours,
                        key_bytes(password),
                        key_bytes(verify_key),
                        g,
                        data,
                        v,
                        raw,
                        body,
                        iv,
                        ts,
                        sz,
                        enc,
                        m,
                    ) && g.size == size && sz % 2 == 1 ==> layout <= 1 && standard_finder_dark(samples@, size as nat),
                forall|
                    colours: Seq<Rgb>,
                    g: Grid,
                    public_data: Seq<u8>,
                    private_data: Seq<u8>,
                    v: EncoderView,
                    raw: Seq<u8>,
                    body: Seq<u8>,
                    iv: Seq<u8>,
                    ts: u64,
                    sz: nat,
                    enc: Seq<u8>,
                    m: Metadata,
                |
                    #[trigger] recoloured_std_dual_reached(
                        samples@,
                        forced_mode,
                        size as nat,
                        colours,
                        key_bytes(password),
                        key_bytes(verify_key),
                        g,
                        public_data,
                        private_data,
                        v,
                        raw,
                        body,
                        iv,
                        ts,
                        sz,
                        enc,
                        m,
                    ) && g.size == size && sz % 2 == 1 ==> layout <= 1 && standard_finder_dark(samples@, size as nat),
            decreases 2 - layout,
        {
            let is_nano = layout == 0;
            if (is_nano && valid_nano) || (!is_nano && valid_std) {
                let mut k: usize = 0;
                while k < modes.len()
                    invariant
                        k <= modes@.len(),
                        samples_wf(samples@, size as nat),
                        5 <= size <= 251,
                        decoder@.password == key_bytes(password),
                        decoder@.verify_key == key_bytes(verify_key),
                        corners_ok(samples@, size as nat),
                        valid_nano || valid_std,
                        is_nano ==> valid_nano,
                        valid_nano == nano_finder_dark(samples@),
                        valid_std == standard_finder_dark(samples@, size as nat),
                        is_nano == (layout == 0),
                        modes@ == match forced_mode {
                            Some(f) => seq![f],
                            None => seq![ColorMode::FourColor, ColorMode::EightColor, ColorMode::Monochrome],
                        },
                        forall|
                            mode: ColorMode,
                            nano_read: bool,
                            g: Grid,
                            data: Seq<u8>,
                            v: EncoderView,
                            raw: Seq<u8>,
                            body: Seq<u8>,
                            iv: Seq<u8>,
                            ts: u64,
                            sz: nat,
                            enc: Seq<u8>,
                            m: Metadata,
                        |
                            #[trigger] exact_single_reached(
                                samples@,
                                forced_mode,
                                size as nat,
                                0,
                                mode,
                                nano_read,
                                key_bytes(password),
                                key_bytes(verify_key),
                                g,
                                data,
                                v,
                                raw,
                                body,
                                iv,
                                ts,
                                sz,
                                enc,
                                m,
                            ) && layout_reached(samples@, size as nat, nano_read, forced_mode, key_bytes(password), key_bytes(verify_key)) && g.size == size && sz % 2 == 1
                                ==> (nano_read ==> is_nano) && (is_nano == nano_read ==> k <= mode_place(forced_mode, mode)) && (is_nano && !nano_read ==> nano_layout_reads_nothing(samples@, size as nat, forced_mode, key_bytes(password), key_bytes(verify_key))),
                        forall|
                            mode: ColorMode,
                            nano_read: bool,
                            g: Grid,
                            public_data: Seq<u8>,
                            private_data: Seq<u8>,
                            v: EncoderView,
                            raw: Seq<u8>,
                            body: Seq<u8>,
                            iv: Seq<u8>,
                            ts: u64,
                            sz: nat,
                            enc: Seq<u8>,
                            m: Metadata,
                        |
                            #[trigger] exact_dual_reached(
                                samples@,
                                forced_mode,
                                size as nat,
                                0,
                                mode,
                                nano_read,
                                key_bytes(password),
                                key_bytes(verify_key),
                                g,
                                public_data,
                                private_data,
                                v,
                                raw,
                                body,
                                iv,
                                ts,
                                sz,
                                enc,
                                m,
                            ) && layout_reached(samples@, size as nat, nano_read, forced_mode, key_bytes(password), key_bytes(verify_key)) && g.size == size && sz % 2 == 1
                                ==> (nano_read ==> is_nano) && (is_nano == nano_read ==> k <= mode_place(forced_mode, mode)) && (is_nano && !nano_read ==> nano_layout_reads_nothing(samples@, size as nat, forced_mode, key_bytes(password), key_bytes(verify_key))),
                        forall|
                            colours: Seq<Rgb>,
                            g: Grid,
                            data: Seq<u8>,
                            v: EncoderView,
                            raw: Seq<u8>,
                            body: Seq<u8>,
                            iv: Seq<u8>,
                            ts: u64,
                            sz: nat,
                            enc: Seq<u8>,
                            m: Metadata,
                        |
                            #[trigger] recoloured_std_single_reached(
                                samples@,
                                forced_mode,
                                size as nat,
                                colours,
                                key_bytes(password),
                                key_bytes(verify_key),
                                g,
                                data,
                                v,
                                raw,
                                body,
                                iv,
                                ts,
                                sz,
                                enc,
                                m,
                            ) && g.size == size && sz % 2 == 1 ==> layout <= 1 && standard_finder_dark(samples@, size as nat) && (!is_nano ==> k <= mode_place(forced_mode, g.mode)),
                        forall|
                            colours: Seq<Rgb>,
                            g: Grid,
                            public_data: Seq<u8>,
                            private_data: Seq<u8>,
                            v: EncoderView,
                            raw: Seq<u8>,
                            body: Seq<u8>,
                            iv: Seq<u8>,
                            ts: u64,
                            sz: nat,
                            enc: Seq<u8>,
                            m: Metadata,
                        |
                            #[trigger] recoloured_std_dual_reached(
                                samples@,
                                forced_mode,
                                size as nat,
                                colours,
                                key_bytes(password),
                                key_bytes(verify_key),
                                g,
                                public_data,
                                private_data,
                                v,
                                raw,
                                body,
                                iv,
                                ts,
                                sz,
                                enc,
                                m,
                            ) && g.size == size && sz % 2 == 1 ==> layout <= 1 && standard_finder_dark(samples@, size as nat) && (!is_nano ==> k <= mode_place(forced_mode, g.mode)),
                    decreases modes@.len() - k,
                {
                    let mode = modes[k];
                    let palette = calibrate(samples, size, is_nano, mode, 0);
                    let grid = classify(samples, size, mode, &palette);
                    assert(size * size * 3 <= usize::MAX) by (nonlinear_arith)
                        requires
                            size <= 251,
                    ;
                    proof {
                        lemma_mode_attempt(
                            samples@,
                            size,
                            forced_mode,
                            is_nano,
                            k,
                            grid,
                            key_bytes(password),
                            key_bytes(verify_key),
                        );
                        lemma_mode_attempt_dual(
                            samples@,
                            size,
                            forced_mode,
                            is_nano,
                            k,
                            grid,
                            key_bytes(password),
                            key_bytes(verify_key),
                        );
                        lemma_recoloured_std_attempt(
                            samples@,
                            size,
                            forced_mode,
                            is_nano,
                            k,
                            grid,
                            key_bytes(password),
                            key_bytes(verify_key),
                        );
                        lemma_recoloured_std_dual_attempt(
                            samples@,
                            size,
                            forced_mode,
                            is_nano,
                            k,
                            grid,
                            key_bytes(password),
                            key_bytes(verify_key),
                        );
                    }
                    match decoder.decode_grid(&grid, Some(is_nano)) {
                        Ok(p) => {
                            return Some(p);
                        },
                        Err(_) => {},
                    }
                    k += 1;
                }
            }
            layout += 1;
        }
        None
    }
}

} // verus!
