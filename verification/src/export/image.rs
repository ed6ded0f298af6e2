//! A grid as an RGB raster image of the image crate.
use vstd::prelude::*;

use crate::export::svg::cell_rgb;
use crate::grid::{lemma_cell_of_rank, Grid};
use crate::types::Rgb;

verus! {

/// An RGB image of the image crate, eight bits per channel. Its pixels are known through the
/// names below.
#[verifier::external_body]
pub struct RasterImage(pub image::RgbImage);

/// The samples an RGB image holds, three bytes per pixel, row by row.
pub uninterp spec fn image_samples(img: RasterImage) -> Seq<u8>;

/// The width of an RGB image, in pixels.
pub uninterp spec fn image_width(img: RasterImage) -> u32;

/// The height of an RGB image, in pixels.
pub uninterp spec fn image_height(img: RasterImage) -> u32;

/// `ImageBuffer::from_raw` of the image crate for RGB pixels: it keeps `samples` as the
/// image's samples, with the given width and height, when they hold at least three bytes for
/// each pixel; else it gives `None`.
#[verifier::external_body]
fn rgb_image_from_raw(width: u32, height: u32, samples: Vec<u8>) -> (img: Option<RasterImage>)
    ensures
        img is Some <==> width * height * 3 <= samples@.len(),
        img matches Some(i) ==> image_samples(i) == samples@ && image_width(i) == width
            && image_height(i) == height,
{
    match image::ImageBuffer::from_raw(width, height, samples) {
        Some(i) => Some(RasterImage(i)),
        None => None,
    }
}

/// The colour of pixel `(px, py)` of the picture of `g` drawn with modules `ms` pixels wide
/// inside a quiet zone of `qz` modules: its module's colour, white in the quiet zone.
pub open spec fn image_pixel(g: Grid, ms: nat, qz: nat, px: nat, py: nat) -> Rgb {
    let mx = px / ms;
    let my = py / ms;
    if qz <= mx < qz + g.size && qz <= my < qz + g.size {
        cell_rgb(g, mx - qz, my - qz)
    } else {
        Rgb(255, 255, 255)
    }
}

/// Byte `i` of the samples of a picture `dim` pixels wide: channel `i % 3` of pixel `i / 3`,
/// pixels taken row by row.
pub open spec fn raster_byte(g: Grid, ms: nat, qz: nat, dim: nat, i: nat) -> u8 {
    let p = i / 3;
    let c = image_pixel(g, ms, qz, p % dim, p / dim);
    if i % 3 == 0 {
        c.0
    } else if i % 3 == 1 {
        c.1
    } else {
        c.2
    }
}

/// The samples of the picture of `g`: `(size + 2·qz)·ms` pixels square, three bytes each.
pub open spec fn image_raster(g: Grid, ms: nat, qz: nat) -> Seq<u8> {
    let dim = ((g.size + 2 * qz) * ms) as nat;
    Seq::new(dim * dim * 3, |i: int| raster_byte(g, ms, qz, dim, i as nat))
}

/// The colour of pixel `(px, py)`.
fn pixel_at(grid: &Grid, ms: u32, qz: u32, px: u32, py: u32) -> (c: Rgb)
    requires
        grid.wf(),
        ms > 0,
        grid.size <= u32::MAX,
    ensures
        c == image_pixel(*grid, ms as nat, qz as nat, px as nat, py as nat),
{
    let mx = px / ms;
    let my = py / ms;
    let size = grid.size as u64;
    if qz <= mx && (mx as u64) < qz as u64 + size && qz <= my && (my as u64) < qz as u64 + size {
        grid.get_rgb((mx - qz) as usize, (my - qz) as usize)
    } else {
        Rgb(255, 255, 255)
    }
}

proof fn lemma_channel(k: nat, c: nat)
    requires
        c < 3,
    ensures
        (3 * k + c) / 3 == k,
        (3 * k + c) % 3 == c,
{
    vstd::arithmetic::div_mod::lemma_fundamental_div_mod_converse(
        (3 * k + c) as int,
        3,
        k as int,
        c as int,
    );
}

/// The three bytes of pixel `(px, py)` in the samples of the picture are its colour.
proof fn lemma_raster_pixel(g: Grid, ms: nat, qz: nat, px: nat, py: nat)
    requires
        px < (g.size + 2 * qz) * ms,
        py < (g.size + 2 * qz) * ms,
    ensures
        ({
            let dim = ((g.size + 2 * qz) * ms) as nat;
            let r = image_raster(g, ms, qz);
            let i = (3 * (py * dim + px)) as int;
            let c = image_pixel(g, ms, qz, px, py);
            &&& i + 2 < r.len()
            &&& r[i] == c.0
            &&& r[i + 1] == c.1
            &&& r[i + 2] == c.2
        }),
{
    let dim = ((g.size + 2 * qz) * ms) as nat;
    let k = py * dim + px;
    lemma_cell_of_rank(dim, px, py);
    lemma_channel(k, 0);
    lemma_channel(k, 1);
    lemma_channel(k, 2);
    assert(3 * k + 3 <= dim * dim * 3) by (nonlinear_arith)
        requires
            k == py * dim + px,
            py < dim,
            px < dim,
    ;
}

/// Each module of the picture is a square of `ms` by `ms` pixels in the colour of its cell:
/// the pixel `a` across and `b` down in the square of cell `(x, y)`, which starts `x + qz`
/// modules across and `y + qz` down, holds the cell's palette colour in its three bytes.
pub proof fn lemma_image_module(g: Grid, ms: nat, qz: nat, x: nat, y: nat, a: nat, b: nat)
    requires
        x < g.size,
        y < g.size,
        a < ms,
        b < ms,
    ensures
        ({
            let dim = ((g.size + 2 * qz) * ms) as nat;
            let r = image_raster(g, ms, qz);
            let px = (x + qz) * ms + a;
            let py = (y + qz) * ms + b;
            let i = (3 * (py * dim + px)) as int;
            let c = cell_rgb(g, x as int, y as int);
            &&& px < dim && py < dim
            &&& r[i] == c.0 && r[i + 1] == c.1 && r[i + 2] == c.2
        }),
{
    let px = (x + qz) * ms + a;
    let py = (y + qz) * ms + b;
    assert(px < (g.size + 2 * qz) * ms) by (nonlinear_arith)
        requires
            px == (x + qz) * ms + a,
            a < ms,
            x < g.size,
    ;
    assert(py < (g.size + 2 * qz) * ms) by (nonlinear_arith)
        requires
            py == (y + qz) * ms + b,
            b < ms,
            y < g.size,
    ;
    lemma_cell_of_rank(ms, a, x + qz);
    lemma_cell_of_rank(ms, b, y + qz);
    assert(px / ms == x + qz);
    assert(py / ms == y + qz);
    lemma_raster_pixel(g, ms, qz, px, py);
}

/// The quiet zone of the picture is white: a pixel less than `qz` modules from an edge holds
/// 255 in its three bytes.
pub proof fn lemma_image_quiet_zone(g: Grid, ms: nat, qz: nat, px: nat, py: nat)
    requires
        px < (g.size + 2 * qz) * ms,
        py < (g.size + 2 * qz) * ms,
        px < qz * ms || px >= (qz + g.size) * ms || py < qz * ms || py >= (qz + g.size) * ms,
    ensures
        ({
            let dim = ((g.size + 2 * qz) * ms) as nat;
            let r = image_raster(g, ms, qz);
            let i = (3 * (py * dim + px)) as int;
            &&& r[i] == 255 && r[i + 1] == 255 && r[i + 2] == 255
        }),
{
    assert(ms > 0) by (nonlinear_arith)
        requires
            px < (g.size + 2 * qz) * ms,
    ;
    let mx = px / ms;
    let my = py / ms;
    assert(mx * ms <= px < mx * ms + ms) by (nonlinear_arith)
        requires
            mx == px / ms,
            ms > 0,
    ;
    assert(my * ms <= py < my * ms + ms) by (nonlinear_arith)
        requires
            my == py / ms,
            ms > 0,
    ;
    assert(px < qz * ms ==> mx < qz) by (nonlinear_arith)
        requires
            mx * ms <= px,
            ms > 0,
    ;
    assert(px >= (qz + g.size) * ms ==> mx >= qz + g.size) by (nonlinear_arith)
        requires
            px < mx * ms + ms,
            ms > 0,
    ;
    assert(py < qz * ms ==> my < qz) by (nonlinear_arith)
        requires
            my * ms <= py,
            ms > 0,
    ;
    assert(py >= (qz + g.size) * ms ==> my >= qz + g.size) by (nonlinear_arith)
        requires
            py < my * ms + ms,
            ms > 0,
    ;
    lemma_raster_pixel(g, ms, qz, px, py);
}

/// Renders grids as raster images.
pub struct ImageExporter;

impl ImageExporter {
    /// The picture of `grid`: each module a square `module_size` pixels wide in its palette
    /// colour, inside a white quiet zone `quiet_zone` modules wide.
    #[verifier::rlimit(40)]
    pub fn to_image_buffer(grid: &Grid, module_size: u32, quiet_zone: u32) -> (img: RasterImage)
        requires
            grid.wf(),
            grid.size + 2 * quiet_zone <= u32::MAX,
            (grid.size + 2 * quiet_zone) * module_size <= u32::MAX,
            (grid.size + 2 * quiet_zone) * module_size * (grid.size + 2 * quiet_zone) * module_size
                * 3 <= usize::MAX,
        ensures
            image_samples(img) == image_raster(*grid, module_size as nat, quiet_zone as nat),
            image_width(img) == (grid.size + 2 * quiet_zone) * module_size,
            image_height(img) == (grid.size + 2 * quiet_zone) * module_size,
    {
        let ghost g = *grid;
        let ghost ms = module_size as nat;
        let ghost qz = quiet_zone as nat;
        let dim: u32 = (grid.size as u32 + 2 * quiet_zone) * module_size;
        let ghost d = dim as nat;
        assert(d * d * 3 <= usize::MAX) by (nonlinear_arith)
            requires
                d == (grid.size + 2 * quiet_zone) * module_size,
                (grid.size + 2 * quiet_zone) * module_size * (grid.size + 2 * quiet_zone) * module_size
                    * 3 <= usize::MAX,
        ;
        let mut buf: Vec<u8> = Vec::new();
        let mut py: u32 = 0;
        while py < dim
            invariant
                grid.wf(),
                *grid == g,
                ms == module_size,
                qz == quiet_zone,
                d == dim,
                grid.size <= u32::MAX,
                dim > 0 ==> module_size > 0,
                d * d * 3 <= usize::MAX,
                py <= dim,
                buf@.len() == 3 * (py * d),
                forall|i: int| 0 <= i < buf@.len() ==> #[trigger] buf@[i] == raster_byte(g, ms, qz, d, i as nat),
            decreases dim - py,
        {
            let mut px: u32 = 0;
            while px < dim
                invariant
                    grid.wf(),
                    *grid == g,
                    ms == module_size,
                    qz == quiet_zone,
                    d == dim,
                    grid.size <= u32::MAX,
                    module_size > 0,
                    d * d * 3 <= usize::MAX,
                    py < dim,
                    px <= dim,
                    buf@.len() == 3 * (py * d + px),
                    forall|i: int| 0 <= i < buf@.len() ==> #[trigger] buf@[i] == raster_byte(g, ms, qz, d, i as nat),
                decreases dim - px,
            {
                let c = pixel_at(grid, module_size, quiet_zone, px, py);
                let ghost k = (py * d + px) as nat;
                proof {
                    lemma_cell_of_rank(d, px as nat, py as nat);
                    lemma_channel(k, 0);
                    lemma_channel(k, 1);
                    lemma_channel(k, 2);
                    assert(3 * (py * d + px) + 3 <= d * d * 3) by (nonlinear_arith)
                        requires
                            py < d,
                            px < d,
                    ;
                }
                buf.push(c.0);
                buf.push(c.1);
                buf.push(c.2);
                px += 1;
            }
            assert(py * d + d == (py + 1) * d) by (nonlinear_arith);
            py += 1;
        }
        proof {
            assert(buf@ =~= image_raster(g, ms, qz));
            assert(dim * dim * 3 <= buf@.len()) by (nonlinear_arith)
                requires
                    buf@.len() == 3 * (dim * d),
                    d == dim,
            ;
        }
        rgb_image_from_raw(dim, dim, buf).unwrap()
    }
}

} // verus!
