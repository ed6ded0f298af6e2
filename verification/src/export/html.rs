//! A grid as an interactive HTML page: an SVG of its modules, each labelled with its
//! coordinates, value, colour and role, beside a table of the code's metadata.
use vstd::prelude::*;
use vstd::string::StringExecFns;

use crate::grid::{is_nano_finder, lemma_cell_of_rank, data_coords, Grid};
use crate::text::{binary_padded, decimal, push_binary, push_decimal};
use crate::types::{rgb_text, Metadata};
use crate::export::svg::cell_rgb;

verus! {

pub const PAGE_TOP: &'static str = "<!DOCTYPE html>\n<html lang=\"en\">\n<head>\n<meta charset=\"utf-8\">\n<title>T-Spine Code (TSC) Inspector</title>\n<style>\n* { box-sizing: border-box; margin: 0; padding: 0; font-family: ui-monospace, SFMono-Regular, Menlo, Monaco, Consolas, monospace; }\nbody { background: #000000; color: #e2e8f0; display: flex; flex-direction: column; align-items: center; min-height: 100vh; padding: 2rem; }\nh1 { color: #38bdf8; font-size: 1.5rem; margin-bottom: 0.5rem; }\n.subtitle { color: #64748b; font-size: 0.85rem; margin-bottom: 2rem; }\n.wrapper { display: flex; gap: 2rem; flex-wrap: wrap; justify-content: center; max-width: 1100px; width: 100%; }\n.matrix-card { background: #090d16; border: 1px solid #1e293b; border-radius: 8px; padding: 1.5rem; }\nsvg { border: 2px solid #334155; border-radius: 4px; cursor: crosshair; }\n.cell:hover { stroke: #38bdf8; stroke-width: 2px; }\n.panel { flex: 1; min-width: 320px; display: flex; flex-direction: column; gap: 1.5rem; }\n.card { background: #090d16; border: 1px solid #1e293b; border-radius: 8px; padding: 1.25rem; }\n.card h2 { font-size: 1rem; color: #38bdf8; border-bottom: 1px solid #1e293b; padding-bottom: 0.5rem; margin-bottom: 1rem; }\ntable { width: 100%; font-size: 0.85rem; border-collapse: collapse; }\ntd { padding: 0.4rem 0; }\ntd.label { color: #64748b; width: 45%; }\ntd.val { color: #f8fafc; font-weight: bold; }\n.swatch { display: inline-block; width: 12px; height: 12px; border-radius: 2px; vertical-align: middle; margin-left: 6px; }\n</style>\n</head>\n<body>\n<h1>T-Spine Code (TSC) Inspector</h1>\n<p class=\"subtitle\">Interactive Module Inspection & Diagnostic Tool</p>\n<div class=\"wrapper\">\n  <div class=\"matrix-card\">\n    <svg width=\"";

pub const PAGE_HEIGHT: &'static str = "\" height=\"";

pub const PAGE_VIEWBOX: &'static str = "\" viewBox=\"0 0 ";

pub const PAGE_SPACE: &'static str = " ";

pub const PAGE_SVG: &'static str = "\">\n      ";

pub const PAGE_DIMENSIONS: &'static str = "\n    </svg>\n  </div>\n  <div class=\"panel\">\n    <div class=\"card\">\n      <h2>Cell Inspector</h2>\n      <table>\n        <tr><td class=\"label\">Coordinates:</td><td class=\"val\" id=\"ins-coord\">(Hover over a module...)</td></tr>\n        <tr><td class=\"label\">Cell Role:</td><td class=\"val\" id=\"ins-role\">-</td></tr>\n        <tr><td class=\"label\">Raw Value (DEC):</td><td class=\"val\" id=\"ins-val\">-</td></tr>\n        <tr><td class=\"label\">Raw Value (BIN):</td><td class=\"val\" id=\"ins-bin\">-</td></tr>\n        <tr><td class=\"label\">Color (RGB):</td><td class=\"val\" id=\"ins-rgb\">- <span id=\"ins-swatch\" class=\"swatch\"></span></td></tr>\n      </table>\n    </div>\n    <div class=\"card\">\n      <h2>Metadata</h2>\n      <table>\n        <tr><td class=\"label\">Dimensions:</td><td class=\"val\">";

pub const PAGE_TIMES: &'static str = " &times; ";

pub const PAGE_COLOR_MODE: &'static str = " modules</td></tr>\n        <tr><td class=\"label\">Color Mode:</td><td class=\"val\">";

pub const PAGE_COLORS: &'static str = " colors (";

pub const PAGE_ECC: &'static str = " bits/cell)</td></tr>\n        <tr><td class=\"label\">ECC Parity:</td><td class=\"val\">";

pub const PAGE_PAYLOAD: &'static str = " bytes</td></tr>\n        <tr><td class=\"label\">Data Payload:</td><td class=\"val\">";

pub const PAGE_ENCRYPTED: &'static str = " bytes</td></tr>\n        <tr><td class=\"label\">Encrypted:</td><td class=\"val\">";

pub const PAGE_SIGNED: &'static str = "</td></tr>\n        <tr><td class=\"label\">HMAC Signed:</td><td class=\"val\">";

pub const PAGE_END: &'static str = "</td></tr>\n      </table>\n    </div>\n  </div>\n</div>\n<script>\ndocument.querySelectorAll('.cell').forEach(cell => {\n  cell.addEventListener('mouseenter', () => {\n    document.getElementById('ins-coord').textContent = `X: ${cell.dataset.x}, Y: ${cell.dataset.y}`;\n    document.getElementById('ins-role').textContent = cell.dataset.role;\n    document.getElementById('ins-val').textContent = cell.dataset.val;\n    document.getElementById('ins-bin').textContent = cell.dataset.bin;\n    document.getElementById('ins-rgb').textContent = cell.dataset.rgb;\n    const swatch = document.getElementById('ins-swatch');\n    swatch.style.background = cell.dataset.rgb;\n  });\n});\n</script>\n</body>\n</html>";


/// The first index of `c` in `s` from `i` on.
pub open spec fn index_from(s: Seq<(usize, usize)>, c: (usize, usize), i: nat) -> Option<nat>
    decreases s.len() - i,
{
    if i >= s.len() {
        None
    } else if s[i as int] == c {
        Some(i)
    } else {
        index_from(s, c, i + 1)
    }
}

/// The role of cell `(x, y)` shown by the inspector: for a data cell, by the offset of the
/// byte it carries, header, payload, error correction or padding; else the part of the
/// skeleton it belongs to.
pub open spec fn html_role(
    g: Grid,
    nano: bool,
    header_bytes: nat,
    data_bytes: nat,
    ecc_start: nat,
    x: nat,
    y: nat,
) -> Seq<char> {
    let size = g.size as nat;
    let bpc = g.mode.spec_bits_per_cell();
    match index_from(data_coords(size, nano), (x as usize, y as usize), 0) {
        Some(idx) => {
            let off = idx * bpc / 8;
            if off < header_bytes {
                "Header / Metadata"@
            } else if off < header_bytes + data_bytes {
                "Data Payload"@
            } else if off >= ecc_start {
                "Error Correction Code"@
            } else {
                "Padding"@
            }
        },
        None => if nano && is_nano_finder(x as int, y as int) {
            "TSC Nano T-Finder"@
        } else if !nano && y == 0 {
            "T-Finder Roof"@
        } else if !nano && x == size / 2 {
            if y >= size - g.mode.spec_num_colors() {
                "Color Calibration"@
            } else {
                "T-Finder Spine"@
            }
        } else if y == size - 1 && x == 0 {
            "Left Notch (Black)"@
        } else if y == size - 1 && x == size - 1 {
            "Right Notch (White)"@
        } else {
            "Skeleton"@
        },
    }
}

/// The inspector labels a data cell by where the byte it carries lies in the stream: the
/// header below `header_bytes`, the payload for the next `data_bytes` bytes, the error
/// correction from `ecc_start` on, and padding between the end of the payload and the start
/// of the error correction.
pub proof fn lemma_html_role_of_data_cell(
    g: Grid,
    nano: bool,
    header_bytes: nat,
    data_bytes: nat,
    ecc_start: nat,
    x: nat,
    y: nat,
    idx: nat,
)
    requires
        index_from(data_coords(g.size as nat, nano), (x as usize, y as usize), 0) == Some(idx),
    ensures
        ({
            let off = idx * g.mode.spec_bits_per_cell() / 8;
            let role = html_role(g, nano, header_bytes, data_bytes, ecc_start, x, y);
            &&& off < header_bytes ==> role == "Header / Metadata"@
            &&& header_bytes <= off < header_bytes + data_bytes ==> role == "Data Payload"@
            &&& header_bytes + data_bytes <= off < ecc_start ==> role == "Padding"@
            &&& header_bytes + data_bytes <= off && ecc_start <= off ==> role
                == "Error Correction Code"@
        }),
{
}

/// The inspector labels a cell that carries no data by the part of the skeleton it belongs
/// to: in a nano code the four cells of its T-finder; in a standard code the top row as the
/// roof, and on the spine the bottom cells, one per colour of the mode, as the colour
/// calibration and the rest as the spine; then the bottom corners as the black and white
/// notches, and every other cell as skeleton.
pub proof fn lemma_html_role_of_layout_cell(
    g: Grid,
    nano: bool,
    header_bytes: nat,
    data_bytes: nat,
    ecc_start: nat,
    x: nat,
    y: nat,
)
    requires
        index_from(data_coords(g.size as nat, nano), (x as usize, y as usize), 0) is None,
        x < g.size,
        y < g.size,
    ensures
        ({
            let size = g.size as nat;
            let role = html_role(g, nano, header_bytes, data_bytes, ecc_start, x, y);
            let finder = nano && ((y == 0 && x <= 2) || (x == 1 && y == 1));
            let roof = !nano && y == 0;
            let spine = !nano && y != 0 && x == size / 2;
            &&& finder ==> role == "TSC Nano T-Finder"@
            &&& roof ==> role == "T-Finder Roof"@
            &&& spine && y + g.mode.spec_num_colors() >= size ==> role == "Color Calibration"@
            &&& spine && y + g.mode.spec_num_colors() < size ==> role == "T-Finder Spine"@
            &&& !finder && !roof && !spine && y + 1 == size && x == 0 ==> role
                == "Left Notch (Black)"@
            &&& !finder && !roof && !spine && y + 1 == size && x + 1 == size && x != 0 ==> role
                == "Right Notch (White)"@
            &&& !finder && !roof && !spine && !(y + 1 == size && (x == 0 || x + 1 == size))
                ==> role == "Skeleton"@
        }),
{
}

/// The opening of the square of cell `(x, y)`: its place and size, up to its fill.
pub open spec fn cell_head(ms: nat, qz: nat, x: nat, y: nat) -> Seq<char> {
    "<rect class=\"cell\" x=\""@ + decimal((x + qz) * ms) + "\" y=\""@ + decimal((y + qz) * ms)
        + "\" width=\""@ + decimal(ms) + "\" height=\""@ + decimal(ms) + "\" fill=\""@
}

/// The data attributes of cell `(x, y)` holding `v`, up to its role.
pub open spec fn cell_attrs(x: nat, y: nat, v: nat, bpc: nat) -> Seq<char> {
    "\" data-x=\""@ + decimal(x) + "\" data-y=\""@ + decimal(y) + "\" data-val=\""@ + decimal(v)
        + "\" data-bin=\""@ + binary_padded(v, bpc) + "\" data-role=\""@
}

/// The SVG square of the inspector for cell `(x, y)` with its data attributes.
pub open spec fn html_cell(
    g: Grid,
    nano: bool,
    header_bytes: nat,
    data_bytes: nat,
    ecc_start: nat,
    ms: nat,
    qz: nat,
    x: nat,
    y: nat,
) -> Seq<char> {
    let fill = rgb_text(cell_rgb(g, x as int, y as int));
    cell_head(ms, qz, x, y) + fill + cell_attrs(x, y, g.cell(x as int, y as int) as nat, g.mode.spec_bits_per_cell())
        + html_role(g, nano, header_bytes, data_bytes, ecc_start, x, y) + "\" data-rgb=\""@ + fill
        + "\"/>"@
}

/// The squares of the first `n` cells, row by row, each on a line of its own.
pub open spec fn html_cells(
    g: Grid,
    nano: bool,
    header_bytes: nat,
    data_bytes: nat,
    ecc_start: nat,
    ms: nat,
    qz: nat,
    n: nat,
) -> Seq<char>
    decreases n,
{
    if n == 0 || g.size == 0 {
        seq![]
    } else {
        let i = (n - 1) as nat;
        html_cells(g, nano, header_bytes, data_bytes, ecc_start, ms, qz, i) + "\n"@ + html_cell(
            g,
            nano,
            header_bytes,
            data_bytes,
            ecc_start,
            ms,
            qz,
            i % (g.size as nat),
            i / (g.size as nat),
        )
    }
}

/// "Yes" or "No".
pub open spec fn yes_no(b: bool) -> Seq<char> {
    if b {
        "Yes"@
    } else {
        "No"@
    }
}

/// The inspector page of a grid, with the byte layout of `meta` (when absent: 4 header
/// bytes, 10 payload bytes, error correction from byte 20, and zero metadata).
pub open spec fn html_page(g: Grid, meta: Option<&Metadata>, ms: nat, qz: nat) -> Seq<char> {
    let size = g.size as nat;
    let nano = size <= 7;
    let d = decimal((size + 2 * qz) * ms);
    let (hb, db, es, ecc, packed, enc, signed) = match meta {
        Some(m) => (
            m.header_bytes_count as nat,
            m.data_bytes_count as nat,
            m.ecc_start_byte as nat,
            m.ecc_bytes as nat,
            m.packed_bytes as nat,
            m.is_encrypted,
            m.is_signed,
        ),
        None => (4nat, 10nat, 20nat, 0nat, 0nat, false, false),
    };
    PAGE_TOP@ + d + PAGE_HEIGHT@ + d + PAGE_VIEWBOX@ + d + PAGE_SPACE@ + d + PAGE_SVG@ + "<rect width=\""@
        + d + "\" height=\""@ + d + "\" fill=\"#ffffff\"/>"@ + html_cells(g, nano, hb, db, es, ms, qz, size * size)
        + PAGE_DIMENSIONS@ + decimal(size) + PAGE_TIMES@ + decimal(size) + PAGE_COLOR_MODE@ + decimal(
        g.mode.spec_num_colors(),
    ) + PAGE_COLORS@ + decimal(g.mode.spec_bits_per_cell()) + PAGE_ECC@ + decimal(ecc) + PAGE_PAYLOAD@
        + decimal(packed) + PAGE_ENCRYPTED@ + yes_no(enc) + PAGE_SIGNED@ + yes_no(signed) + PAGE_END@
}

proof fn lemma_index_from_bound(s: Seq<(usize, usize)>, c: (usize, usize), i: nat)
    ensures
        index_from(s, c, i) matches Some(k) ==> i <= k < s.len(),
    decreases s.len() - i,
{
    if i < s.len() && s[i as int] != c {
        lemma_index_from_bound(s, c, i + 1);
    }
}

/// The first index of `c` in `coords`.
fn index_in(coords: &Vec<(usize, usize)>, c: (usize, usize)) -> (r: Option<usize>)
    ensures
        r is None <==> index_from(coords@, c, 0) is None,
        r matches Some(i) ==> index_from(coords@, c, 0) == Some(i as nat) && i < coords@.len(),
{
    proof {
        lemma_index_from_bound(coords@, c, 0);
    }
    let mut i: usize = 0;
    while i < coords.len()
        invariant
            i <= coords@.len(),
            index_from(coords@, c, 0) == index_from(coords@, c, i as nat),
        decreases coords@.len() - i,
    {
        let (a, b) = coords[i];
        if a == c.0 && b == c.1 {
            return Some(i);
        }
        i += 1;
    }
    None
}

/// The role of cell `(x, y)`.
#[verifier::rlimit(30)]
fn role_text(
    grid: &Grid,
    coords: &Vec<(usize, usize)>,
    nano: bool,
    hb: usize,
    db: usize,
    es: usize,
    x: usize,
    y: usize,
) -> (r: &'static str)
    requires
        grid.wf(),
        coords@ == data_coords(grid.size as nat, nano),
        coords@.len() <= grid.size * grid.size,
        grid.size * grid.size * 3 <= usize::MAX,
        hb + db <= usize::MAX,
        x < grid.size,
        y < grid.size,
        nano == (grid.size <= 7),
    ensures
        r@ == html_role(*grid, nano, hb as nat, db as nat, es as nat, x as nat, y as nat),
{
    let size = grid.size;
    let bpc = grid.mode.bits_per_cell();
    let found = index_in(coords, (x, y));
    match found {
        Some(idx) => {
            assert(idx * bpc <= size * size * 3) by (nonlinear_arith)
                requires
                    idx < size * size,
                    bpc <= 3,
            ;
            let off = idx * bpc / 8;
            if off < hb {
                "Header / Metadata"
            } else if off < hb + db {
                "Data Payload"
            } else if off >= es {
                "Error Correction Code"
            } else {
                "Padding"
            }
        },
        None => {
            if nano && ((y == 0 && x <= 2) || (x == 1 && y == 1)) {
                "TSC Nano T-Finder"
            } else if !nano && y == 0 {
                "T-Finder Roof"
            } else if !nano && x == size / 2 {
                if y >= size - grid.mode.num_colors() {
                    "Color Calibration"
                } else {
                    "T-Finder Spine"
                }
            } else if y == size - 1 && x == 0 {
                "Left Notch (Black)"
            } else if y == size - 1 && x == size - 1 {
                "Right Notch (White)"
            } else {
                "Skeleton"
            }
        },
    }
}

/// Appends the opening of the square of cell `(x, y)`.
fn push_cell_head(out: &mut String, ms: u64, qz: u64, x: u64, y: u64, limit: u64)
    requires
        x < limit,
        y < limit,
        limit + 2 * qz <= u64::MAX,
        (limit + 2 * qz) * ms <= u32::MAX,
    ensures
        final(out)@ == old(out)@ + cell_head(ms as nat, qz as nat, x as nat, y as nat),
{
    let xq: u64 = x + qz;
    let yq: u64 = y + qz;
    assert(xq * ms <= (limit + 2 * qz) * ms && yq * ms <= (limit + 2 * qz) * ms && ms <= (limit + 2 * qz) * ms)
        by (nonlinear_arith)
        requires
            xq < limit + qz,
            yq < limit + qz,
            1 <= limit,
    ;
    out.append("<rect class=\"cell\" x=\"");
    push_decimal(out, xq * ms);
    out.append("\" y=\"");
    push_decimal(out, yq * ms);
    out.append("\" width=\"");
    push_decimal(out, ms);
    out.append("\" height=\"");
    push_decimal(out, ms);
    out.append("\" fill=\"");
    proof {
        assert(final(out)@ =~= old(out)@ + cell_head(ms as nat, qz as nat, x as nat, y as nat));
    }
}

/// Appends the data attributes of cell `(x, y)` holding `v`.
fn push_cell_attrs(out: &mut String, x: u64, y: u64, v: u64, bpc: u64)
    ensures
        final(out)@ == old(out)@ + cell_attrs(x as nat, y as nat, v as nat, bpc as nat),
{
    out.append("\" data-x=\"");
    push_decimal(out, x);
    out.append("\" data-y=\"");
    push_decimal(out, y);
    out.append("\" data-val=\"");
    push_decimal(out, v);
    out.append("\" data-bin=\"");
    push_binary(out, v, bpc);
    out.append("\" data-role=\"");
    proof {
        assert(final(out)@ =~= old(out)@ + cell_attrs(x as nat, y as nat, v as nat, bpc as nat));
    }
}

/// Appends the square of cell `(x, y)`.
#[verifier::spinoff_prover]
#[verifier::rlimit(50)]
fn push_html_cell(
    out: &mut String,
    grid: &Grid,
    coords: &Vec<(usize, usize)>,
    nano: bool,
    hb: usize,
    db: usize,
    es: usize,
    ms: u64,
    qz: u64,
    x: usize,
    y: usize,
)
    requires
        grid.wf(),
        coords@ == data_coords(grid.size as nat, nano),
        coords@.len() <= grid.size * grid.size,
        grid.size * grid.size * 3 <= usize::MAX,
        hb + db <= usize::MAX,
        x < grid.size,
        y < grid.size,
        nano == (grid.size <= 7),
        grid.size <= u32::MAX,
        qz <= u32::MAX,
        ms <= u32::MAX,
        (grid.size + 2 * qz) * ms <= u32::MAX,
    ensures
        final(out)@ == old(out)@ + html_cell(
            *grid,
            nano,
            hb as nat,
            db as nat,
            es as nat,
            ms as nat,
            qz as nat,
            x as nat,
            y as nat,
        ),
{
    let val = grid.get(x, y);
    let rgb = grid.get_rgb(x, y);
    let role = role_text(grid, coords, nano, hb, db, es, x, y);
    let fill = rgb.to_text();
    let ghost start = out@;
    push_cell_head(out, ms, qz, x as u64, y as u64, grid.size as u64);
    out.append(fill.as_str());
    push_cell_attrs(out, x as u64, y as u64, val as u64, grid.mode.bits_per_cell() as u64);
    out.append(role);
    out.append("\" data-rgb=\"");
    out.append(fill.as_str());
    out.append("\"/>");
    proof {
        assert(final(out)@ =~= start + html_cell(
            *grid,
            nano,
            hb as nat,
            db as nat,
            es as nat,
            ms as nat,
            qz as nat,
            x as nat,
            y as nat,
        ));
    }
}

/// Writes the inspector page.
pub struct HtmlExporter;

impl HtmlExporter {
    /// The inspector page of `grid`: each module `module_size` pixels wide inside a quiet zone
    /// of `quiet_zone` modules, labelled with the byte layout of `meta` (4 header bytes, 10
    /// payload bytes and error correction from byte 20 when absent), beside its metadata.
    #[verifier::spinoff_prover]
    #[verifier::rlimit(60)]
    pub fn to_html_string(grid: &Grid, meta: Option<&Metadata>, module_size: u32, quiet_zone: u32) -> (s:
        String)
        requires
            grid.wf(),
            grid.size <= u32::MAX,
            grid.size * grid.size * 3 <= usize::MAX,
            (grid.size + 2 * quiet_zone) * module_size <= u32::MAX,
            meta matches Some(m) ==> m.header_bytes_count + m.data_bytes_count <= usize::MAX,
        ensures
            s@ == html_page(*grid, meta, module_size as nat, quiet_zone as nat),
    {
        let size = grid.size;
        let nano = Grid::is_nano(size, false);
        let ms = module_size as u64;
        let qz = quiet_zone as u64;
        let d: u64 = (size as u64 + 2 * qz) * ms;
        let coords = Grid::data_coordinates(size, nano);
        let (hb, db, es, ecc, packed, enc, signed) = match meta {
            Some(m) => (
                m.header_bytes_count,
                m.data_bytes_count,
                m.ecc_start_byte,
                m.ecc_bytes,
                m.packed_bytes,
                m.is_encrypted,
                m.is_signed,
            ),
            None => (4, 10, 20, 0, 0, false, false),
        };
        let mut out = String::new();
        out.append(PAGE_TOP);
        push_decimal(&mut out, d);
        out.append(PAGE_HEIGHT);
        push_decimal(&mut out, d);
        out.append(PAGE_VIEWBOX);
        push_decimal(&mut out, d);
        out.append(PAGE_SPACE);
        push_decimal(&mut out, d);
        out.append(PAGE_SVG);
        out.append("<rect width=\"");
        push_decimal(&mut out, d);
        out.append("\" height=\"");
        push_decimal(&mut out, d);
        out.append("\" fill=\"#ffffff\"/>");
        let ghost head = out@;
        let mut y: usize = 0;
        while y < size
            invariant
                grid.wf(),
                size == grid.size,
                y <= size,
                coords@ == data_coords(size as nat, nano),
                coords@.len() <= size * size,
                size * size * 3 <= usize::MAX,
                hb + db <= usize::MAX,
                nano == (size <= 7),
                size <= u32::MAX,
                qz <= u32::MAX,
                ms <= u32::MAX,
                (size + 2 * qz) * ms <= u32::MAX,
                out@ == head + html_cells(*grid, nano, hb as nat, db as nat, es as nat, ms as nat, qz as nat, (y * size) as nat),
            decreases size - y,
        {
            let mut x: usize = 0;
            while x < size
                invariant
                    grid.wf(),
                    size == grid.size,
                    y < size,
                    x <= size,
                    coords@ == data_coords(size as nat, nano),
                    coords@.len() <= size * size,
                    size * size * 3 <= usize::MAX,
                    hb + db <= usize::MAX,
                    nano == (size <= 7),
                    size <= u32::MAX,
                    qz <= u32::MAX,
                    ms <= u32::MAX,
                    (size + 2 * qz) * ms <= u32::MAX,
                    out@ == head + html_cells(*grid, nano, hb as nat, db as nat, es as nat, ms as nat, qz as nat, (y * size + x) as nat),
                decreases size - x,
            {
                proof {
                    lemma_cell_of_rank(size as nat, x as nat, y as nat);
                }
                out.append("\n");
                push_html_cell(&mut out, grid, &coords, nano, hb, db, es, ms, qz, x, y);
                proof {
                    assert(out@ =~= head + html_cells(*grid, nano, hb as nat, db as nat, es as nat, ms as nat, qz as nat, (y * size + x + 1) as nat));
                }
                x += 1;
            }
            assert((y + 1) * size == y * size + size) by (nonlinear_arith);
            y += 1;
        }
        out.append(PAGE_DIMENSIONS);
        push_decimal(&mut out, size as u64);
        out.append(PAGE_TIMES);
        push_decimal(&mut out, size as u64);
        out.append(PAGE_COLOR_MODE);
        push_decimal(&mut out, grid.mode.num_colors() as u64);
        out.append(PAGE_COLORS);
        push_decimal(&mut out, grid.mode.bits_per_cell() as u64);
        out.append(PAGE_ECC);
        push_decimal(&mut out, ecc as u64);
        out.append(PAGE_PAYLOAD);
        push_decimal(&mut out, packed as u64);
        out.append(PAGE_ENCRYPTED);
        out.append(if enc {
            "Yes"
        } else {
            "No"
        });
        out.append(PAGE_SIGNED);
        out.append(if signed {
            "Yes"
        } else {
            "No"
        });
        out.append(PAGE_END);
        proof {
            assert(out@ =~= html_page(*grid, meta, module_size as nat, quiet_zone as nat));
        }
        out
    }
}

} // verus!
