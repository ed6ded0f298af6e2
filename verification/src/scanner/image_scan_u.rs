//! The integer stages of the universal scanner: luminance, adaptive binarization, contour
//! tracing, candidate sides, skeleton checks and the decoding of sampled grids.
use vstd::prelude::*;
use vstd::utf8::{decode_utf8, encode_utf8, encode_utf8_decode_utf8, valid_utf8};

use crate::decoder::{all_candidates_fail, fresh_dual_code, fresh_single_code, read_as_built, TSpineDecoder};
use crate::encoder::{grid_carries, text_key_bytes, EncoderView};
use crate::grid::Grid;
use crate::payload::{
    dual_readable, single_readable, single_view, spec_unpack, lossy_text, utf8_string, PayloadView,
    UnpackFailure,
};
use crate::scanner::image_scan::{
    calibrate, calibrated, classified, classify, exact_dual_reached, exact_single_reached, first_mode_of, mode_place, mode_reads_nothing, modes_tried,
    earlier_modes_read_nothing, lemma_exact_calibration, lemma_exact_samples_read_back,
    lemma_recoloured_code_read_back, samples_recolour, samples_wf,
};
use crate::types::{ColorMode, DecodedPayload, Metadata, Rgb};

verus! {

/// The luminance of a colour: `(77 r + 150 g + 29 b) / 256`, rounded down.
pub open spec fn spec_luminance(c: Rgb) -> nat {
    (77 * c.0 + 150 * c.1 + 29 * c.2) as nat / 256
}

/// A grey reads as its own level, the weights of the luminance adding up to 256; so black
/// reads 0 and white 255.
pub proof fn lemma_luminance_of_grey(v: u8)
    ensures
        spec_luminance(Rgb(v, v, v)) == v,
{
    assert(77 * v + 150 * v + 29 * v == 256 * v);
    vstd::arithmetic::div_mod::lemma_fundamental_div_mod_converse((256 * v) as int, 256, v as int, 0);
}

/// The luminance of a colour, from 0 to 255.
pub fn rgb_luminance(c: &Rgb) -> (l: u8)
    ensures
        l == spec_luminance(*c),
{
    let s: u32 = 77 * c.0 as u32 + 150 * c.1 as u32 + 29 * c.2 as u32;
    assert(s >> 8u32 == s / 256) by (bit_vector);
    (s >> 8) as u8
}

/// The text of a payload: a text itself, the public text of a dual payload, or bytes that
/// are valid UTF-8.
pub open spec fn payload_text_view(p: PayloadView) -> Option<Seq<char>> {
    match p {
        PayloadView::Text(s) => Some(s),
        PayloadView::Dual(public, _) => Some(public),
        PayloadView::Binary(b) => if valid_utf8(b) {
            Some(decode_utf8(b))
        } else {
            None
        },
    }
}

/// The text of a payload, where it has one.
pub fn payload_text(p: &DecodedPayload) -> (t: Option<String>)
    ensures
        match payload_text_view(p@) {
            Some(s) => t matches Some(x) && x@ == s,
            None => t is None,
        },
{
    match p {
        DecodedPayload::Text(s) => Some(s.clone()),
        DecodedPayload::Dual { public_data, .. } => Some(public_data.clone()),
        DecodedPayload::Binary(bytes) => {
            let copy = vstd::slice::slice_to_vec(bytes.as_slice());
            match utf8_string(copy) {
                Some(s) => {
                    proof {
                        encode_utf8_decode_utf8(s@);
                    }
                    Some(s)
                },
                None => None,
            }
        },
    }
}

/// Whether the bottom-right corner is clearly lighter than the bottom-left one, by at least
/// `margin`.
pub open spec fn lighter_by(bl_lum: u8, br_lum: u8, margin: int) -> bool {
    br_lum - bl_lum >= margin
}

/// Whether a candidate orientation has its light corner at the bottom right: that corner at
/// least 25 lighter than the bottom-left one.
pub fn orientation_ok(bl_lum: u8, br_lum: u8) -> (ok: bool)
    ensures
        ok == lighter_by(bl_lum, br_lum, 25),
{
    br_lum as i32 - bl_lum as i32 >= 25
}

/// `v - d`, or 0 below it.
pub open spec fn sat_sub(v: u8, d: u8) -> u8 {
    if v >= d {
        (v - d) as u8
    } else {
        0
    }
}

/// The number of the first `n` luminances below `limit`.
pub open spec fn count_below(lums: Seq<u8>, limit: u8, n: nat) -> nat
    decreases n,
{
    if n == 0 {
        0
    } else {
        count_below(lums, limit, (n - 1) as nat) + if lums[n - 1] < limit {
            1nat
        } else {
            0nat
        }
    }
}

/// Whether the finder of a layout shows in the luminances sampled on it: the bottom-right
/// corner at least 20 lighter than the bottom-left; in the nano layout every finder cell no
/// lighter than 15 below the light corner; in the standard layout at least 70 in 100 of the
/// spine cells checked darker than 20 below it.
pub open spec fn skeleton_seen(bl_lum: u8, br_lum: u8, finder_lums: Seq<u8>, nano: bool) -> bool {
    &&& lighter_by(bl_lum, br_lum, 20)
    &&& if nano {
        forall|i: int| 0 <= i < finder_lums.len() ==> #[trigger] finder_lums[i] <= sat_sub(br_lum, 15)
    } else {
        count_below(finder_lums, sat_sub(br_lum, 20), finder_lums.len()) * 100 / finder_lums.len()
            >= 70
    }
}

/// Decides whether the finder of a layout shows, from the luminances of the corners and of
/// the finder cells (the four nano finder cells, or the upper spine cells).
pub fn skeleton_holds(bl_lum: u8, br_lum: u8, finder_lums: &Vec<u8>, nano: bool) -> (ok: bool)
    requires
        !nano ==> 1 <= finder_lums@.len(),
    ensures
        ok == skeleton_seen(bl_lum, br_lum, finder_lums@, nano),
{
    if (br_lum as i32) - (bl_lum as i32) < 20 {
        return false;
    }
    if nano {
        let limit: u8 = if br_lum >= 15 {
            br_lum - 15
        } else {
            0
        };
        let mut i: usize = 0;
        while i < finder_lums.len()
            invariant
                i <= finder_lums@.len(),
                nano,
                lighter_by(bl_lum, br_lum, 20),
                limit == sat_sub(br_lum, 15),
                forall|j: int| 0 <= j < i ==> #[trigger] finder_lums@[j] <= limit,
            decreases finder_lums@.len() - i,
        {
            if finder_lums[i] > limit {
                assert(!(finder_lums@[i as int] <= sat_sub(br_lum, 15)));
                return false;
            }
            i += 1;
        }
        true
    } else {
        let limit: u8 = if br_lum >= 20 {
            br_lum - 20
        } else {
            0
        };
        let mut dark: usize = 0;
        let mut i: usize = 0;
        while i < finder_lums.len()
            invariant
                i <= finder_lums@.len(),
                limit == sat_sub(br_lum, 20),
                dark == count_below(finder_lums@, limit, i as nat),
                dark <= i,
            decreases finder_lums@.len() - i,
        {
            if finder_lums[i] < limit {
                dark += 1;
            }
            i += 1;
        }
        (dark as u128) * 100 / (finder_lums.len() as u128) >= 70
    }
}

/// `n`, raised to the next odd number when even.
pub open spec fn odd_up(n: nat) -> nat {
    if n % 2 == 0 {
        n + 1
    } else {
        n
    }
}

/// The sides near an estimate, nearest first: the odd centre and 2, 4 and 6 below and above
/// it, those from 5 to 251.
pub open spec fn sides_near(center: int) -> Seq<usize> {
    let deltas = seq![0int, -2, 2, -4, 4, -6, 6];
    deltas.map_values(|d: int| center + d).filter(|s: int| 5 <= s <= 251).map_values(|s: int| s as usize)
}

/// The odd sides from 5 to 251.
pub open spec fn all_sides() -> Seq<usize> {
    Seq::new(124, |i: int| (5 + 2 * i) as usize)
}

/// `s` with each run of equal neighbours cut to one.
pub open spec fn dedup_runs(s: Seq<usize>) -> Seq<usize>
    decreases s.len(),
{
    if s.len() <= 1 {
        s
    } else if s.last() == s[s.len() - 2] {
        dedup_runs(s.drop_last())
    } else {
        dedup_runs(s.drop_last()).push(s.last())
    }
}

/// A universal scanner's settings as values; texts are given by their UTF-8 bytes.
pub struct UniversalScannerView {
    pub password: Option<Seq<u8>>,
    pub verify_key: Option<Seq<u8>>,
    pub forced_mode: Option<ColorMode>,
    pub forced_size: Option<usize>,
}

/// The sides a universal scanner tries: the forced one made odd; else the sides near the
/// estimate, if any, then every odd side from 5 to 251, without repeated neighbours.
pub open spec fn candidate_sides(v: UniversalScannerView, estimate: Option<usize>) -> Seq<usize> {
    match v.forced_size {
        Some(f) => seq![odd_up(f as nat) as usize],
        None => dedup_runs(
            match estimate {
                Some(e) => sides_near(odd_up(e as nat) as int),
                None => seq![],
            } + all_sides(),
        ),
    }
}

/// The first colour mode a scanner tries.
pub open spec fn first_mode(v: UniversalScannerView) -> ColorMode {
    first_mode_of(v.forced_mode)
}

/// Whether `samples` show a fresh single code `g` built in the standard layout (see
/// `fresh_single_code`) with its palette colours changed one-to-one to `colours`, to be read
/// with the password it was built with and a verification key that its signature, if any,
/// passes, the modes tried before its own reading nothing.
pub open spec fn recoloured_single_reached(
    samples: Seq<Vec<Rgb>>,
    forced_mode: Option<ColorMode>,
    size: nat,
    colours: Seq<Rgb>,
    password: Option<Seq<u8>>,
    verify_key: Option<Seq<u8>>,
    g: Grid,
    data: Seq<u8>,
    v: EncoderView,
    raw: Seq<u8>,
    body: Seq<u8>,
    iv: Seq<u8>,
    ts: u64,
    sz: nat,
    enc: Seq<u8>,
    m: Metadata,
) -> bool {
    &&& fresh_single_code(g, data, v, raw, body, iv, ts, sz, enc, m)
    &&& read_as_built(v, raw, sz, false)
    &&& v.password == password
    &&& single_readable(body, data, v.sign_key, verify_key, v.min_header)
    &&& samples_recolour(samples, g, colours)
    &&& earlier_modes_read_nothing(samples, size, 1, false, forced_mode, g.mode, password, verify_key)
}

/// Whether `samples` show a fresh dual code `g` built in the standard layout (see
/// `fresh_dual_code`) with its palette colours changed one-to-one to `colours`, to be read
/// with the password it was built with and a verification key that its signature, if any,
/// passes, the modes tried before its own reading nothing.
pub open spec fn recoloured_dual_reached(
    samples: Seq<Vec<Rgb>>,
    forced_mode: Option<ColorMode>,
    size: nat,
    colours: Seq<Rgb>,
    password: Option<Seq<u8>>,
    verify_key: Option<Seq<u8>>,
    g: Grid,
    public_data: Seq<u8>,
    private_data: Seq<u8>,
    v: EncoderView,
    raw: Seq<u8>,
    body: Seq<u8>,
    iv: Seq<u8>,
    ts: u64,
    sz: nat,
    enc: Seq<u8>,
    m: Metadata,
) -> bool {
    &&& fresh_dual_code(g, public_data, private_data, v, raw, body, iv, ts, sz, enc, m)
    &&& read_as_built(v, raw, sz, false)
    &&& v.password == password
    &&& dual_readable(body, public_data, private_data, v.sign_key, verify_key, v.min_header)
    &&& samples_recolour(samples, g, colours)
    &&& earlier_modes_read_nothing(samples, size, 1, false, forced_mode, g.mode, password, verify_key)
}

/// One colour mode of the scanner on recoloured samples of a standard code: at the place of
/// the code's mode the palette is the changed colours and the classified grid is the code;
/// before it, the classified grid fails every parity count.
#[verifier::spinoff_prover]
#[verifier::rlimit(60)]
proof fn lemma_recoloured_attempt(
    samples: Seq<Vec<Rgb>>,
    size: usize,
    forced_mode: Option<ColorMode>,
    k: usize,
    grid: Grid,
    password: Option<Seq<u8>>,
    verify_key: Option<Seq<u8>>,
)
    requires
        samples_wf(samples, size as nat),
        3 <= size,
        k < modes_tried(forced_mode).len(),
        classified(
            grid,
            samples,
            size as nat,
            modes_tried(forced_mode)[k as int],
            calibrated(samples, size as nat, false, modes_tried(forced_mode)[k as int].spec_num_colors(), 1),
        ),
    ensures
        forall|
            colours: Seq<Rgb>,
            g: Grid,
            data: Seq<u8>,
            v: EncoderView,
            raw: Seq<u8>,
            body: Seq<u8>,
            iv: Seq<u8>,
            ts: u64,
            sz: nat,
            enc: Seq<u8>,
            m: Metadata,
        |
            #[trigger] recoloured_single_reached(
                samples,
                forced_mode,
                size as nat,
                colours,
                password,
                verify_key,
                g,
                data,
                v,
                raw,
                body,
                iv,
                ts,
                sz,
                enc,
                m,
            ) && g.size == size && sz % 2 == 1 ==> (k == mode_place(forced_mode, g.mode)
                ==> fresh_single_code(grid, data, v, raw, body, iv, ts, sz, enc, m) && calibrated(
                samples,
                size as nat,
                false,
                g.mode.spec_num_colors(),
                1,
            ) == colours) && (k < mode_place(forced_mode, g.mode) ==> all_candidates_fail(
                grid,
                false,
                password,
                verify_key,
            )),
{
    assert forall|
        colours: Seq<Rgb>,
        g: Grid,
        data: Seq<u8>,
        v: EncoderView,
        raw: Seq<u8>,
        body: Seq<u8>,
        iv: Seq<u8>,
        ts: u64,
        sz: nat,
        enc: Seq<u8>,
        m: Metadata,
    |
        #[trigger] recoloured_single_reached(
            samples,
            forced_mode,
            size as nat,
            colours,
            password,
            verify_key,
            g,
            data,
            v,
            raw,
            body,
            iv,
            ts,
            sz,
            enc,
            m,
        ) && g.size == size && sz % 2 == 1 implies (k == mode_place(forced_mode, g.mode)
        ==> fresh_single_code(grid, data, v, raw, body, iv, ts, sz, enc, m) && calibrated(
        samples,
        size as nat,
        false,
        g.mode.spec_num_colors(),
        1,
    ) == colours) && (k < mode_place(forced_mode, g.mode) ==> all_candidates_fail(
        grid,
        false,
        password,
        verify_key,
    )) by {
        if k < mode_place(forced_mode, g.mode) {
            assert(mode_reads_nothing(samples, size as nat, 1, false, modes_tried(forced_mode)[k as int], password, verify_key));
        } else if k == mode_place(forced_mode, g.mode) {
            assert(modes_tried(forced_mode)[k as int] == g.mode);
            let stream = crate::encoder::resized(
                enc,
                crate::grid::spec_capacity_bytes(sz, g.mode.spec_bits_per_cell(), false),
            );
            assert(grid_carries(g, sz, g.mode, false, stream));
            assert(sz >= 9);
            lemma_recoloured_code_read_back(g, grid, samples, colours, sz, stream, 1);
        }
    }
}

/// One colour mode of the scanner on recoloured samples of a standard dual code: at the place of
/// the code's mode the palette is the changed colours and the classified grid is the code;
/// before it, the classified grid fails every parity count.
#[verifier::spinoff_prover]
#[verifier::rlimit(60)]
proof fn lemma_recoloured_dual_attempt(
    samples: Seq<Vec<Rgb>>,
    size: usize,
    forced_mode: Option<ColorMode>,
    k: usize,
    grid: Grid,
    password: Option<Seq<u8>>,
    verify_key: Option<Seq<u8>>,
)
    requires
        samples_wf(samples, size as nat),
        3 <= size,
        k < modes_tried(forced_mode).len(),
        classified(
            grid,
            samples,
            size as nat,
            modes_tried(forced_mode)[k as int],
            calibrated(samples, size as nat, false, modes_tried(forced_mode)[k as int].spec_num_colors(), 1),
        ),
    ensures
        forall|
            colours: Seq<Rgb>,
            g: Grid,
            public_data: Seq<u8>,
            private_data: Seq<u8>,
            v: EncoderView,
            raw: Seq<u8>,
            body: Seq<u8>,
            iv: Seq<u8>,
            ts: u64,
            sz: nat,
            enc: Seq<u8>,
            m: Metadata,
        |
            #[trigger] recoloured_dual_reached(
                samples,
                forced_mode,
                size as nat,
                colours,
                password,
                verify_key,
                g,
                public_data,
                private_data,
                v,
                raw,
                body,
                iv,
                ts,
                sz,
                enc,
                m,
            ) && g.size == size && sz % 2 == 1 ==> (k == mode_place(forced_mode, g.mode)
                ==> fresh_dual_code(grid, public_data, private_data, v, raw, body, iv, ts, sz, enc, m) && calibrated(
                samples,
                size as nat,
                false,
                g.mode.spec_num_colors(),
                1,
            ) == colours) && (k < mode_place(forced_mode, g.mode) ==> all_candidates_fail(
                grid,
                false,
                password,
                verify_key,
            )),
{
    assert forall|
        colours: Seq<Rgb>,
        g: Grid,
        public_data: Seq<u8>,
        private_data: Seq<u8>,
        v: EncoderView,
        raw: Seq<u8>,
        body: Seq<u8>,
        iv: Seq<u8>,
        ts: u64,
        sz: nat,
        enc: Seq<u8>,
        m: Metadata,
    |
        #[trigger] recoloured_dual_reached(
            samples,
            forced_mode,
            size as nat,
            colours,
            password,
            verify_key,
            g,
            public_data,
            private_data,
            v,
            raw,
            body,
            iv,
            ts,
            sz,
            enc,
            m,
        ) && g.size == size && sz % 2 == 1 implies (k == mode_place(forced_mode, g.mode)
        ==> fresh_dual_code(grid, public_data, private_data, v, raw, body, iv, ts, sz, enc, m) && calibrated(
        samples,
        size as nat,
        false,
        g.mode.spec_num_colors(),
        1,
    ) == colours) && (k < mode_place(forced_mode, g.mode) ==> all_candidates_fail(
        grid,
        false,
        password,
        verify_key,
    )) by {
        if k < mode_place(forced_mode, g.mode) {
            assert(mode_reads_nothing(samples, size as nat, 1, false, modes_tried(forced_mode)[k as int], password, verify_key));
        } else if k == mode_place(forced_mode, g.mode) {
            assert(modes_tried(forced_mode)[k as int] == g.mode);
            let stream = crate::encoder::resized(
                enc,
                crate::grid::spec_capacity_bytes(sz, g.mode.spec_bits_per_cell(), false),
            );
            assert(grid_carries(g, sz, g.mode, false, stream));
            assert(sz >= 9);
            lemma_recoloured_code_read_back(g, grid, samples, colours, sz, stream, 1);
        }
    }
}

/// Finds and reads codes in photographs: settings for the password, the verification key, and
/// a colour mode and a side to force.
pub struct UniversalScanner {
    password: Option<String>,
    verify_key: Option<String>,
    forced_mode: Option<ColorMode>,
    forced_size: Option<usize>,
}

impl View for UniversalScanner {
    type V = UniversalScannerView;

    closed spec fn view(&self) -> UniversalScannerView {
        UniversalScannerView {
            password: text_key_bytes(self.password),
            verify_key: text_key_bytes(self.verify_key),
            forced_mode: self.forced_mode,
            forced_size: self.forced_size,
        }
    }
}

impl Default for UniversalScanner {
    fn default() -> (s: Self)
        ensures
            s@ == (UniversalScannerView {
                password: None,
                verify_key: None,
                forced_mode: None,
                forced_size: None,
            }),
    {
        UniversalScanner { password: None, verify_key: None, forced_mode: None, forced_size: None }
    }
}

impl UniversalScanner {
    /// A scanner with no password, no verification key and nothing forced.
    pub fn new() -> (s: Self)
        ensures
            s@ == (UniversalScannerView {
                password: None,
                verify_key: None,
                forced_mode: None,
                forced_size: None,
            }),
    {
        Self::default()
    }

    /// Decrypts with `pwd`.
    pub fn password(self, pwd: &str) -> (s: Self)
        ensures
            s@ == (UniversalScannerView { password: Some(encode_utf8(pwd@)), ..self@ }),
    {
        let mut s = self;
        s.password = Some(pwd.to_owned());
        s
    }

    /// Checks signatures against `key`.
    pub fn verify_key(self, key: &str) -> (s: Self)
        ensures
            s@ == (UniversalScannerView { verify_key: Some(encode_utf8(key@)), ..self@ }),
    {
        let mut s = self;
        s.verify_key = Some(key.to_owned());
        s
    }

    /// Reads only in colour mode `mode`.
    pub fn forced_mode(self, mode: ColorMode) -> (s: Self)
        ensures
            s@ == (UniversalScannerView { forced_mode: Some(mode), ..self@ }),
    {
        let mut s = self;
        s.forced_mode = Some(mode);
        s
    }

    /// Reads only grids of side `size` (made odd).
    pub fn forced_size(self, size: usize) -> (s: Self)
        ensures
            s@ == (UniversalScannerView { forced_size: Some(size), ..self@ }),
    {
        let mut s = self;
        s.forced_size = Some(size);
        s
    }

    /// The layouts tried for a side, nano first: both up to 7, else the standard one.
    pub fn layouts_for(size: usize) -> (v: Vec<bool>)
        ensures
            v@ == if size <= 7 {
                seq![true, false]
            } else {
                seq![false]
            },
    {
        if size <= 7 {
            vec![true, false]
        } else {
            vec![false]
        }
    }

    /// The colour modes tried, in order: the forced one, or four, eight and two colours.
    pub fn modes_to_test(&self) -> (m: Vec<ColorMode>)
        ensures
            m@ == match self@.forced_mode {
                Some(f) => seq![f],
                None => seq![ColorMode::FourColor, ColorMode::EightColor, ColorMode::Monochrome],
            },
    {
        match self.forced_mode {
            Some(m) => vec![m],
            None => vec![ColorMode::FourColor, ColorMode::EightColor, ColorMode::Monochrome],
        }
    }

    /// Reads a grid of side `size` in layout `nano` from its sampled colours: for each colour
    /// mode tried, the samples are read against the palette (calibrated on the spine, above
    /// the last row, in the standard layout) and the grid decoded; the first payload decoded
    /// is returned with its mode and palette. Exact samples of a code built in a mode tried,
    /// read in the layout it was built in, give back what was encoded when the modes tried
    /// before it read nothing; so do samples of a standard code whose colours all show
    /// changed one-to-one (as under a coloured light), with the changed colours as palette.
    #[verifier::spinoff_prover]
    #[verifier::rlimit(40)]
    pub fn decode_sampled(&self, samples: &Vec<Vec<Rgb>>, size: usize, nano: bool) -> (r: Option<
        (DecodedPayload, ColorMode, Vec<Rgb>),
    >)
        requires
            samples_wf(samples@, size as nat),
            3 <= size,
            size * size * 3 <= usize::MAX,
        ensures
            r matches Some((p, mode, palette)) ==> palette@ == calibrated(
                samples@,
                size as nat,
                nano,
                mode.spec_num_colors(),
                1,
            ) && (exists|block: Seq<u8>|
                #[trigger] spec_unpack(block, self@.password, self@.verify_key) == Ok::<
                    PayloadView,
                    UnpackFailure,
                >(p@)) && (self@.forced_mode matches Some(f) ==> mode == f),
            forall|
                mode: ColorMode,
                g: Grid,
                data: Seq<u8>,
                v: EncoderView,
                raw: Seq<u8>,
                body: Seq<u8>,
                iv: Seq<u8>,
                ts: u64,
                sz: nat,
                enc: Seq<u8>,
                m: Metadata,
            |
                #[trigger] exact_single_reached(
                    samples@,
                    self@.forced_mode,
                    size as nat,
                    1,
                    mode,
                    nano,
                    self@.password,
                    self@.verify_key,
                    g,
                    data,
                    v,
                    raw,
                    body,
                    iv,
                    ts,
                    sz,
                    enc,
                    m,
                ) && g.size == size
                    ==> (r matches Some((p, md, _)) && p@ == single_view(data) && md == g.mode),
            forall|
                mode: ColorMode,
                g: Grid,
                public_data: Seq<u8>,
                private_data: Seq<u8>,
                v: EncoderView,
                raw: Seq<u8>,
                body: Seq<u8>,
                iv: Seq<u8>,
                ts: u64,
                sz: nat,
                enc: Seq<u8>,
                m: Metadata,
            |
                #[trigger] exact_dual_reached(
                    samples@,
                    self@.forced_mode,
                    size as nat,
                    1,
                    mode,
                    nano,
                    self@.password,
                    self@.verify_key,
                    g,
                    public_data,
                    private_data,
                    v,
                    raw,
                    body,
                    iv,
                    ts,
                    sz,
                    enc,
                    m,
                ) && g.size == size
                    ==> (r matches Some((p, md, _)) && p@ == PayloadView::Dual(lossy_text(public_data), lossy_text(private_data)) && md == g.mode),
            forall|
                colours: Seq<Rgb>,
                g: Grid,
                data: Seq<u8>,
                v: EncoderView,
                raw: Seq<u8>,
                body: Seq<u8>,
                iv: Seq<u8>,
                ts: u64,
                sz: nat,
                enc: Seq<u8>,
                m: Metadata,
            |
                #[trigger] recoloured_single_reached(
                    samples@,
                    self@.forced_mode,
                    size as nat,
                    colours,
                    self@.password,
                    self@.verify_key,
                    g,
                    data,
                    v,
                    raw,
                    body,
                    iv,
                    ts,
                    sz,
                    enc,
                    m,
                ) && g.size == size && sz % 2 == 1 && !nano ==> (r matches Some((p, md, pal)) && p@
                    == single_view(data) && md == g.mode && pal@ == colours),
            forall|
                colours: Seq<Rgb>,
                g: Grid,
                public_data: Seq<u8>,
                private_data: Seq<u8>,
                v: EncoderView,
                raw: Seq<u8>,
                body: Seq<u8>,
                iv: Seq<u8>,
                ts: u64,
                sz: nat,
                enc: Seq<u8>,
                m: Metadata,
            |
                #[trigger] recoloured_dual_reached(
                    samples@,
                    self@.forced_mode,
                    size as nat,
                    colours,
                    self@.password,
                    self@.verify_key,
                    g,
                    public_data,
                    private_data,
                    v,
                    raw,
                    body,
                    iv,
                    ts,
                    sz,
                    enc,
                    m,
                ) && g.size == size && sz % 2 == 1 && !nano ==> (r matches Some((p, md, pal)) && p@
                    == PayloadView::Dual(lossy_text(public_data), lossy_text(private_data)) && md == g.mode && pal@ == colours),
    {
        let decoder = self.decoder();
        let modes = self.modes_to_test();
        let mut k: usize = 0;
        while k < modes.len()
            invariant
                k <= modes@.len(),
                samples_wf(samples@, size as nat),
                3 <= size,
                size * size * 3 <= usize::MAX,
                decoder@.password == self@.password,
                decoder@.verify_key == self@.verify_key,
                modes@ == match self@.forced_mode {
                    Some(f) => seq![f],
                    None => seq![ColorMode::FourColor, ColorMode::EightColor, ColorMode::Monochrome],
                },
                forall|
                    colours: Seq<Rgb>,
                    g: Grid,
                    data: Seq<u8>,
                    v: EncoderView,
                    raw: Seq<u8>,
                    body: Seq<u8>,
                    iv: Seq<u8>,
                    ts: u64,
                    sz: nat,
                    enc: Seq<u8>,
                    m: Metadata,
                |
                    #[trigger] recoloured_single_reached(
                        samples@,
                        self@.forced_mode,
                        size as nat,
                        colours,
                        self@.password,
                        self@.verify_key,
                        g,
                        data,
                        v,
                        raw,
                        body,
                        iv,
                        ts,
                        sz,
                        enc,
                        m,
                    ) && g.size == size && sz % 2 == 1 && !nano ==> k <= mode_place(
                        self@.forced_mode,
                        g.mode,
                    ),
                forall|
                    colours: Seq<Rgb>,
                    g: Grid,
                    public_data: Seq<u8>,
                    private_data: Seq<u8>,
                    v: EncoderView,
                    raw: Seq<u8>,
                    body: Seq<u8>,
                    iv: Seq<u8>,
                    ts: u64,
                    sz: nat,
                    enc: Seq<u8>,
                    m: Metadata,
                |
                    #[trigger] recoloured_dual_reached(
                        samples@,
                        self@.forced_mode,
                        size as nat,
                        colours,
                        self@.password,
                        self@.verify_key,
                        g,
                        public_data,
                        private_data,
                        v,
                        raw,
                        body,
                        iv,
                        ts,
                        sz,
                        enc,
                        m,
                    ) && g.size == size && sz % 2 == 1 && !nano ==> k <= mode_place(
                        self@.forced_mode,
                        g.mode,
                    ),
                forall|
                    mode: ColorMode,
                    g: Grid,
                    data: Seq<u8>,
                    v: EncoderView,
                    raw: Seq<u8>,
                    body: Seq<u8>,
                    iv: Seq<u8>,
                    ts: u64,
                    sz: nat,
                    enc: Seq<u8>,
                    m: Metadata,
                |
                    #[trigger] exact_single_reached(
                        samples@,
                        self@.forced_mode,
                        size as nat,
                        1,
                        mode,
                        nano,
                        self@.password,
                        self@.verify_key,
                        g,
                        data,
                        v,
                        raw,
                        body,
                        iv,
                        ts,
                        sz,
                        enc,
                        m,
                    ) && g.size == size
                        ==> k <= mode_place(self@.forced_mode, mode),
                forall|
                    mode: ColorMode,
                    g: Grid,
                    public_data: Seq<u8>,
                    private_data: Seq<u8>,
                    v: EncoderView,
                    raw: Seq<u8>,
                    body: Seq<u8>,
                    iv: Seq<u8>,
                    ts: u64,
                    sz: nat,
                    enc: Seq<u8>,
                    m: Metadata,
                |
                    #[trigger] exact_dual_reached(
                        samples@,
                        self@.forced_mode,
                        size as nat,
                        1,
                        mode,
                        nano,
                        self@.password,
                        self@.verify_key,
                        g,
                        public_data,
                        private_data,
                        v,
                        raw,
                        body,
                        iv,
                        ts,
                        sz,
                        enc,
                        m,
                    ) && g.size == size
                        ==> k <= mode_place(self@.forced_mode, mode),
            decreases modes@.len() - k,
        {
            let mode = modes[k];
            let palette = calibrate(samples, size, nano, mode, 1);
            let grid = classify(samples, size, mode, &palette);
            proof {
                if !nano {
                    lemma_recoloured_attempt(
                        samples@,
                        size,
                        self@.forced_mode,
                        k,
                        grid,
                        self@.password,
                        self@.verify_key,
                    );
                    lemma_recoloured_dual_attempt(
                        samples@,
                        size,
                        self@.forced_mode,
                        k,
                        grid,
                        self@.password,
                        self@.verify_key,
                    );
                }
                assert forall|
                    mode: ColorMode,
                    g: Grid,
                    data: Seq<u8>,
                    v: EncoderView,
                    raw: Seq<u8>,
                    body: Seq<u8>,
                    iv: Seq<u8>,
                    ts: u64,
                    sz: nat,
                    enc: Seq<u8>,
                    m: Metadata,
                |
                    #[trigger] exact_single_reached(
                        samples@,
                        self@.forced_mode,
                        size as nat,
                        1,
                        mode,
                        nano,
                        self@.password,
                        self@.verify_key,
                        g,
                        data,
                        v,
                        raw,
                        body,
                        iv,
                        ts,
                        sz,
                        enc,
                        m,
                    ) && g.size == size
                        implies (k == mode_place(self@.forced_mode, mode) ==> fresh_single_code(grid, data, v, raw, body, iv, ts, sz, enc, m)
                    && modes@[k as int] == g.mode) && (k < mode_place(self@.forced_mode, mode) ==> all_candidates_fail(grid, nano, self@.password, self@.verify_key)) by {
                    if k < mode_place(self@.forced_mode, mode) {
                        assert(mode_reads_nothing(samples@, size as nat, 1, nano, modes_tried(self@.forced_mode)[k as int], self@.password, self@.verify_key));
                        assert(classified(grid, samples@, size as nat, modes@[k as int], calibrated(samples@, size as nat, nano, modes@[k as int].spec_num_colors(), 1)));
                    } else if k == mode_place(self@.forced_mode, mode) {
                    assert(modes@[k as int] == g.mode);
                    let stream = crate::encoder::resized(
                        enc,
                        crate::grid::spec_capacity_bytes(sz, g.mode.spec_bits_per_cell(), nano),
                    );
                    assert(grid_carries(g, sz, g.mode, nano, stream));
                    lemma_exact_calibration(g, samples@, sz, nano, stream, 1);
                    lemma_exact_samples_read_back(g, grid, samples@, sz, nano, stream);
                    }
                }
                assert forall|
                    mode: ColorMode,
                    g: Grid,
                    public_data: Seq<u8>,
                    private_data: Seq<u8>,
                    v: EncoderView,
                    raw: Seq<u8>,
                    body: Seq<u8>,
                    iv: Seq<u8>,
                    ts: u64,
                    sz: nat,
                    enc: Seq<u8>,
                    m: Metadata,
                |
                    #[trigger] exact_dual_reached(
                        samples@,
                        self@.forced_mode,
                        size as nat,
                        1,
                        mode,
                        nano,
                        self@.password,
                        self@.verify_key,
                        g,
                        public_data,
                        private_data,
                        v,
                        raw,
                        body,
                        iv,
                        ts,
                        sz,
                        enc,
                        m,
                    ) && g.size == size
                        implies (k == mode_place(self@.forced_mode, mode) ==> fresh_dual_code(grid, public_data, private_data, v, raw, body, iv, ts, sz, enc, m)
                    && modes@[k as int] == g.mode) && (k < mode_place(self@.forced_mode, mode) ==> all_candidates_fail(grid, nano, self@.password, self@.verify_key)) by {
                    if k < mode_place(self@.forced_mode, mode) {
                        assert(mode_reads_nothing(samples@, size as nat, 1, nano, modes_tried(self@.forced_mode)[k as int], self@.password, self@.verify_key));
                        assert(classified(grid, samples@, size as nat, modes@[k as int], calibrated(samples@, size as nat, nano, modes@[k as int].spec_num_colors(), 1)));
                    } else if k == mode_place(self@.forced_mode, mode) {
                    assert(modes@[k as int] == g.mode);
                    let stream = crate::encoder::resized(
                        enc,
                        crate::grid::spec_capacity_bytes(sz, g.mode.spec_bits_per_cell(), nano),
                    );
                    assert(grid_carries(g, sz, g.mode, nano, stream));
                    lemma_exact_calibration(g, samples@, sz, nano, stream, 1);
                    lemma_exact_samples_read_back(g, grid, samples@, sz, nano, stream);
                    }
                }
            }
            match decoder.decode_grid(&grid, Some(nano)) {
                Ok(p) => {
                    return Some((p, mode, palette));
                },
                Err(_) => {},
            }
            k += 1;
        }
        None
    }

    /// The decoder with this scanner's password and verification key.
    fn decoder(&self) -> (d: TSpineDecoder)
        ensures
            d@.password == self@.password,
            d@.verify_key == self@.verify_key,
    {
        let mut d = TSpineDecoder::new();
        match &self.password {
            Some(p) => {
                d = d.password(p.as_str());
            },
            None => {},
        }
        match &self.verify_key {
            Some(k) => {
                d = d.verify_key(k.as_str());
            },
            None => {},
        }
        d
    }

    /// The sides tried for a code, given the side estimated from the length of its dark
    /// spine, if the estimate could be made.
    pub fn candidate_sizes(&self, estimate: Option<usize>) -> (sizes: Vec<usize>)
        requires
            estimate matches Some(e) ==> e < usize::MAX - 8,
            self@.forced_size matches Some(f) ==> f < usize::MAX,
        ensures
            sizes@ == candidate_sides(self@, estimate),
    {
        match self.forced_size {
            Some(f) => {
                let odd = if f % 2 == 0 {
                    f + 1
                } else {
                    f
                };
                return vec![odd];
            },
            None => {},
        }
        let mut all: Vec<usize> = Vec::new();
        match estimate {
            Some(e) => {
                let center = if e % 2 == 0 {
                    e + 1
                } else {
                    e
                };
                push_if_side(&mut all, center as i128);
                push_if_side(&mut all, center as i128 - 2);
                push_if_side(&mut all, center as i128 + 2);
                push_if_side(&mut all, center as i128 - 4);
                push_if_side(&mut all, center as i128 + 4);
                push_if_side(&mut all, center as i128 - 6);
                push_if_side(&mut all, center as i128 + 6);
                proof {
                    lemma_sides_near(center as int);
                    assert(all@ == sides_near(center as int));
                    assert(center == odd_up(e as nat));
                }
            },
            None => {},
        }
        assert(all@ == match estimate {
            Some(e) => sides_near(odd_up(e as nat) as int),
            None => Seq::<usize>::empty(),
        });
        let ghost prefix = all@;
        let mut s: usize = 5;
        while s <= 251
            invariant
                5 <= s <= 253,
                s % 2 == 1,
                all@ == prefix + all_sides().take(((s - 5) / 2) as int),
            decreases 253 - s,
        {
            all.push(s);
            proof {
                assert(all_sides().take(((s + 2 - 5) / 2) as int) =~= all_sides().take(((s - 5) / 2) as int).push(s));
            }
            s += 2;
        }
        proof {
            assert(all_sides().take(124) =~= all_sides());
        }
        assert(all@ == (match estimate {
            Some(e) => sides_near(odd_up(e as nat) as int),
            None => Seq::<usize>::empty(),
        }) + all_sides());
        dedup(&all)
    }
}

/// Appends `s` when it is a side from 5 to 251.
fn push_if_side(out: &mut Vec<usize>, s: i128)
    ensures
        final(out)@ == if 5 <= s <= 251 {
            old(out)@.push(s as usize)
        } else {
            old(out)@
        },
{
    if 5 <= s && s <= 251 {
        out.push(s as usize);
    }
}

proof fn lemma_sides_near(center: int)
    ensures
        sides_near(center) == {
            let c = center;
            let keep = |s: int| 5 <= s <= 251;
            let step = |v: Seq<usize>, s: int|
                if keep(s) {
                    v.push(s as usize)
                } else {
                    v
                };
            step(step(step(step(step(step(step(seq![], c), c - 2), c + 2), c - 4), c + 4), c - 6), c + 6)
        },
{
    let deltas = seq![0int, -2, 2, -4, 4, -6, 6];
    let mapped = deltas.map_values(|d: int| center + d);
    assert(mapped =~= seq![center, center - 2, center + 2, center - 4, center + 4, center - 6, center + 6]);
    reveal_with_fuel(Seq::filter, 8);
    assert(sides_near(center) =~= {
        let c = center;
        let keep = |s: int| 5 <= s <= 251;
        let step = |v: Seq<usize>, s: int|
            if keep(s) {
                v.push(s as usize)
            } else {
                v
            };
        step(step(step(step(step(step(step(seq![], c), c - 2), c + 2), c - 4), c + 4), c - 6), c + 6)
    });
}

/// Cutting runs of equal neighbours keeps every value that occurs, and the last one last.
proof fn lemma_dedup_runs_contains(s: Seq<usize>)
    ensures
        forall|x: usize| #[trigger] dedup_runs(s).contains(x) <==> s.contains(x),
        s.len() >= 1 ==> dedup_runs(s).len() >= 1 && dedup_runs(s).last() == s.last(),
    decreases s.len(),
{
    if s.len() > 1 {
        let p = s.drop_last();
        lemma_dedup_runs_contains(p);
        let d = dedup_runs(s);
        let dp = dedup_runs(p);
        let n = s.len() - 1;
        assert(p.last() == s[n - 1]);
        if s.last() == s[n - 1] {
            assert(d == dp);
            assert forall|x: usize| #[trigger] d.contains(x) <==> s.contains(x) by {
                if s.contains(x) {
                    let i = choose|i: int| 0 <= i < s.len() && s[i] == x;
                    if i < n {
                        assert(p[i] == x);
                    } else {
                        assert(p[n - 1] == x);
                    }
                    assert(p.contains(x));
                }
                if p.contains(x) {
                    let i = choose|i: int| 0 <= i < p.len() && p[i] == x;
                    assert(s[i] == x);
                }
            }
        } else {
            assert(d == dp.push(s.last()));
            assert forall|x: usize| #[trigger] d.contains(x) <==> s.contains(x) by {
                if s.contains(x) {
                    let i = choose|i: int| 0 <= i < s.len() && s[i] == x;
                    if i < n {
                        assert(p[i] == x);
                        assert(p.contains(x));
                        assert(dp.contains(x));
                        let j = choose|j: int| 0 <= j < dp.len() && dp[j] == x;
                        assert(d[j] == x);
                    } else {
                        assert(d[d.len() - 1] == x);
                    }
                }
                if d.contains(x) {
                    let j = choose|j: int| 0 <= j < d.len() && d[j] == x;
                    if j < dp.len() {
                        assert(dp[j] == x);
                        assert(dp.contains(x));
                        assert(p.contains(x));
                        let i = choose|i: int| 0 <= i < p.len() && p[i] == x;
                        assert(s[i] == x);
                    } else {
                        assert(s[n] == x);
                    }
                }
            }
        }
    }
}

/// Whether every value is an odd side from 5 to 251.
pub open spec fn odd_sides_only(v: Seq<usize>) -> bool {
    forall|i: int| 0 <= i < v.len() ==> 5 <= #[trigger] v[i] <= 251 && v[i] % 2 == 1
}

/// Without a forced side a universal scanner tries every odd side from 5 to 251, and no
/// other side.
pub proof fn lemma_candidate_sides_cover(v: UniversalScannerView, estimate: Option<usize>)
    requires
        v.forced_size is None,
    ensures
        forall|s: usize|
            5 <= s <= 251 && s % 2 == 1 ==> #[trigger] candidate_sides(v, estimate).contains(s),
        odd_sides_only(candidate_sides(v, estimate)),
{
    let near = match estimate {
        Some(e) => sides_near(odd_up(e as nat) as int),
        None => seq![],
    };
    let all = near + all_sides();
    let cs = candidate_sides(v, estimate);
    assert(cs == dedup_runs(all));
    lemma_dedup_runs_contains(all);
    if let Some(e) = estimate {
        let c = odd_up(e as nat) as int;
        assert(c % 2 == 1);
        lemma_sides_near(c);
        let keep = |s: int| 5 <= s <= 251;
        let step = |w: Seq<usize>, s: int|
            if keep(s) {
                w.push(s as usize)
            } else {
                w
            };
        let v0: Seq<usize> = seq![];
        let v1 = step(v0, c);
        assert(odd_sides_only(v1));
        let v2 = step(v1, c - 2);
        assert(odd_sides_only(v2));
        let v3 = step(v2, c + 2);
        assert(odd_sides_only(v3));
        let v4 = step(v3, c - 4);
        assert(odd_sides_only(v4));
        let v5 = step(v4, c + 4);
        assert(odd_sides_only(v5));
        let v6 = step(v5, c - 6);
        assert(odd_sides_only(v6));
        let v7 = step(v6, c + 6);
        assert(odd_sides_only(v7));
        assert(near == v7);
    }
    assert(odd_sides_only(near));
    assert forall|s: usize| 5 <= s <= 251 && s % 2 == 1 implies #[trigger] cs.contains(s) by {
        let i = (s - 5) / 2;
        assert(all_sides()[i] == s);
        assert(all[near.len() + i] == s);
        assert(all.contains(s));
    }
    assert forall|i: int| 0 <= i < cs.len() implies 5 <= #[trigger] cs[i] <= 251 && cs[i] % 2 == 1 by {
        let x = cs[i];
        assert(cs.contains(x));
        assert(all.contains(x));
        let j = choose|j: int| 0 <= j < all.len() && all[j] == x;
        if j < near.len() {
            assert(near[j] == x);
        } else {
            assert(all_sides()[j - near.len()] == x);
        }
    }
}

/// `s` with each run of equal neighbours cut to one.
fn dedup(s: &Vec<usize>) -> (r: Vec<usize>)
    ensures
        r@ == dedup_runs(s@),
{
    let mut r: Vec<usize> = Vec::new();
    let mut i: usize = 0;
    while i < s.len()
        invariant
            i <= s@.len(),
            r@ == dedup_runs(s@.take(i as int)),
            i > 0 ==> r@.len() > 0 && r@.last() == s@[i - 1],
        decreases s@.len() - i,
    {
        let ghost t = s@.take(i as int + 1);
        assert(t.drop_last() =~= s@.take(i as int));
        if i == 0 || s[i] != s[i - 1] {
            r.push(s[i]);
        }
        proof {
            lemma_dedup_last(s@.take(i as int));
        }
        i += 1;
    }
    proof {
        assert(s@.take(s@.len() as int) =~= s@);
    }
    r
}

proof fn lemma_dedup_last(s: Seq<usize>)
    ensures
        s.len() > 0 ==> dedup_runs(s).len() > 0 && dedup_runs(s).last() == s.last(),
    decreases s.len(),
{
    if s.len() > 1 {
        lemma_dedup_last(s.drop_last());
    }
}

} // verus!
