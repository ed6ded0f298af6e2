//! A grid as scalable vector graphics.
use vstd::prelude::*;
use vstd::string::StringExecFns;

use crate::grid::{lemma_cell_of_rank, Grid};
use crate::text::{decimal, push_decimal};
use crate::types::{spec_palette, Rgb};

verus! {

/// The colour of cell `(x, y)`: its palette colour, black past the palette.
pub open spec fn cell_rgb(g: Grid, x: int, y: int) -> Rgb {
    if g.cell(x, y) < 8 {
        spec_palette(g.cell(x, y) as int)
    } else {
        Rgb(0, 0, 0)
    }
}

/// The SVG square of one module at `(px, py)`, `ms` wide, in colour `c`.
pub open spec fn svg_rect(px: nat, py: nat, ms: nat, c: Rgb) -> Seq<char> {
    "<rect x=\""@ + decimal(px) + "\" y=\""@ + decimal(py) + "\" width=\""@ + decimal(ms)
        + "\" height=\""@ + decimal(ms) + "\" fill=\"rgb("@ + decimal(c.0 as nat) + ","@ + decimal(
        c.1 as nat,
    ) + ","@ + decimal(c.2 as nat) + ")\"/>"@
}

/// The line of cell `(x, y)`: its square on a line of its own, nothing for a 0 cell.
pub open spec fn svg_cell(g: Grid, ms: nat, qz: nat, x: nat, y: nat) -> Seq<char> {
    if g.cell(x as int, y as int) != 0 {
        "\n"@ + svg_rect((x + qz) * ms, (y + qz) * ms, ms, cell_rgb(g, x as int, y as int))
    } else {
        seq![]
    }
}

/// The lines of the first `n` cells, row by row: one square, on a line of its own, for each
/// cell that is not 0.
pub open spec fn svg_cells(g: Grid, ms: nat, qz: nat, n: nat) -> Seq<char>
    decreases n,
{
    if n == 0 || g.size == 0 {
        seq![]
    } else {
        let i = (n - 1) as nat;
        let x = i % (g.size as nat);
        let y = i / (g.size as nat);
        svg_cells(g, ms, qz, i) + svg_cell(g, ms, qz, x, y)
    }
}

/// The SVG document of a grid drawn with modules `ms` wide inside a quiet zone of `qz`
/// modules: a white background and a square for each cell that is not 0.
pub open spec fn svg_document(g: Grid, ms: nat, qz: nat) -> Seq<char> {
    let d = ((g.size + 2 * qz) * ms) as nat;
    "<svg width=\""@ + decimal(d) + "\" height=\""@ + decimal(d)
        + "\" xmlns=\"http://www.w3.org/2000/svg\">"@ + "\n"@ + "<rect width=\""@ + decimal(d)
        + "\" height=\""@ + decimal(d) + "\" fill=\"#ffffff\"/>"@ + svg_cells(
        g,
        ms,
        qz,
        (g.size * g.size) as nat,
    ) + "\n</svg>"@
}

/// Appends the line of cell `(x, y)`.
fn push_cell(out: &mut String, grid: &Grid, x: usize, y: usize, ms: u64, qz: u64)
    requires
        grid.wf(),
        x < grid.size,
        y < grid.size,
        grid.size <= u32::MAX,
        qz <= u32::MAX,
        ms <= u32::MAX,
        (grid.size + 2 * qz) * ms <= u32::MAX,
    ensures
        final(out)@ == old(out)@ + svg_cell(*grid, ms as nat, qz as nat, x as nat, y as nat),
{
    let val = grid.get(x, y);
    if val != 0 {
        let rgb = grid.get_rgb(x, y);
        let xq: u64 = x as u64 + qz;
        let yq: u64 = y as u64 + qz;
        assert(xq * ms <= (grid.size + 2 * qz) * ms && yq * ms <= (grid.size + 2 * qz) * ms)
            by (nonlinear_arith)
            requires
                xq < grid.size + qz,
                yq < grid.size + qz,
        ;
        let px = xq * ms;
        let py = yq * ms;
        let rect = rect_text(px, py, ms, rgb);
        out.append("\n");
        out.append(rect.as_str());
    }
}

/// The SVG square of one module.
#[verifier::rlimit(40)]
fn rect_text(px: u64, py: u64, ms: u64, c: Rgb) -> (r: String)
    ensures
        r@ == svg_rect(px as nat, py as nat, ms as nat, c),
{
    let mut out = String::new();
    out.append("<rect x=\"");
    push_decimal(&mut out, px);
    out.append("\" y=\"");
    push_decimal(&mut out, py);
    out.append("\" width=\"");
    push_decimal(&mut out, ms);
    out.append("\" height=\"");
    push_decimal(&mut out, ms);
    out.append("\" fill=\"rgb(");
    push_decimal(&mut out, c.0 as u64);
    out.append(",");
    push_decimal(&mut out, c.1 as u64);
    out.append(",");
    push_decimal(&mut out, c.2 as u64);
    out.append(")\"/>");
    proof {
        assert(out@ =~= svg_rect(px as nat, py as nat, ms as nat, c));
    }
    out
}

/// Writes grids as SVG.
pub struct SvgExporter;

impl SvgExporter {
    /// The SVG document of `grid`, each module `module_size` pixels wide, inside a quiet zone
    /// of `quiet_zone` modules.
    pub fn to_svg_string(grid: &Grid, module_size: u32, quiet_zone: u32) -> (s: String)
        requires
            grid.wf(),
            grid.size <= u32::MAX,
            (grid.size + 2 * quiet_zone) * module_size <= u32::MAX,
        ensures
            s@ == svg_document(*grid, module_size as nat, quiet_zone as nat),
    {
        let size = grid.size;
        let ms = module_size as u64;
        let qz = quiet_zone as u64;
        let sz = size as u64;
        assert(sz * sz <= u64::MAX) by (nonlinear_arith)
            requires
                sz <= u32::MAX,
        ;
        let d: u64 = (sz + 2 * qz) * ms;
        let mut out = String::new();
        out.append("<svg width=\"");
        push_decimal(&mut out, d);
        out.append("\" height=\"");
        push_decimal(&mut out, d);
        out.append("\" xmlns=\"http://www.w3.org/2000/svg\">");
        out.append("\n");
        out.append("<rect width=\"");
        push_decimal(&mut out, d);
        out.append("\" height=\"");
        push_decimal(&mut out, d);
        out.append("\" fill=\"#ffffff\"/>");
        let ghost head = out@;
        let mut y: usize = 0;
        while y < size
            invariant
                grid.wf(),
                size == grid.size,
                y <= size,
                ms == module_size,
                qz == quiet_zone,
                (size + 2 * qz) * ms <= u32::MAX,
                size <= u32::MAX,
                out@ == head + svg_cells(*grid, ms as nat, qz as nat, (y * size) as nat),
            decreases size - y,
        {
            let mut x: usize = 0;
            while x < size
                invariant
                    grid.wf(),
                    size == grid.size,
                    y < size,
                    x <= size,
                    ms == module_size,
                    qz == quiet_zone,
                    (size + 2 * qz) * ms <= u32::MAX,
                    size <= u32::MAX,
                    qz <= u32::MAX,
                    ms <= u32::MAX,
                    out@ == head + svg_cells(*grid, ms as nat, qz as nat, (y * size + x) as nat),
                decreases size - x,
            {
                proof {
                    lemma_cell_of_rank(size as nat, x as nat, y as nat);
                }
                push_cell(&mut out, grid, x, y, ms, qz);
                proof {
                    assert(out@ =~= head + svg_cells(*grid, ms as nat, qz as nat, (y * size + x + 1) as nat));
                }
                x += 1;
            }
            assert((y + 1) * size == y * size + size) by (nonlinear_arith);
            y += 1;
        }
        out.append("\n</svg>");
        proof {
            assert(out@ =~= svg_document(*grid, module_size as nat, quiet_zone as nat));
        }
        out
    }
}

} // verus!
