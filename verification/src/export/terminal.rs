//! A grid as coloured blocks for a terminal.
use vstd::prelude::*;
use vstd::string::StringExecFns;

use colored::Colorize;

use crate::grid::Grid;
use crate::text::{push_repeated, repeated};

verus! {

/// The ANSI background code of palette colour `i`: white, black, red, blue, green, cyan,
/// magenta, yellow.
pub open spec fn background_code(i: nat) -> Seq<char> {
    if i == 0 {
        "47"@
    } else if i == 1 {
        "40"@
    } else if i == 2 {
        "41"@
    } else if i == 3 {
        "44"@
    } else if i == 4 {
        "42"@
    } else if i == 5 {
        "46"@
    } else if i == 6 {
        "45"@
    } else {
        "43"@
    }
}

/// Whether `s` is a block of two spaces on palette colour `i` as the terminal colouring
/// writes it: behind its escape codes when colours are on, plain when they are off.
pub open spec fn is_block(s: Seq<char>, i: nat) -> bool {
    s == "  "@ || s == "\x1B["@ + background_code(i) + "m  \x1B[0m"@
}

/// Two spaces on white, from the `colored` crate (`on_white`, then `to_string`). Whether
/// colours are on depends on the environment and the terminal, so either form may come back.
#[verifier::external_body]
fn white_block() -> (s: String)
    ensures
        is_block(s@, 0),
{
    "  ".on_white().to_string()
}

/// Two spaces on black (`on_black`); coloured or plain, as the environment decides.
#[verifier::external_body]
fn black_block() -> (s: String)
    ensures
        is_block(s@, 1),
{
    "  ".on_black().to_string()
}

/// Two spaces on red (`on_red`); coloured or plain, as the environment decides.
#[verifier::external_body]
fn red_block() -> (s: String)
    ensures
        is_block(s@, 2),
{
    "  ".on_red().to_string()
}

/// Two spaces on blue (`on_blue`); coloured or plain, as the environment decides.
#[verifier::external_body]
fn blue_block() -> (s: String)
    ensures
        is_block(s@, 3),
{
    "  ".on_blue().to_string()
}

/// Two spaces on green (`on_green`); coloured or plain, as the environment decides.
#[verifier::external_body]
fn green_block() -> (s: String)
    ensures
        is_block(s@, 4),
{
    "  ".on_green().to_string()
}

/// Two spaces on cyan (`on_cyan`); coloured or plain, as the environment decides.
#[verifier::external_body]
fn cyan_block() -> (s: String)
    ensures
        is_block(s@, 5),
{
    "  ".on_cyan().to_string()
}

/// Two spaces on magenta (`on_magenta`); coloured or plain, as the environment decides.
#[verifier::external_body]
fn magenta_block() -> (s: String)
    ensures
        is_block(s@, 6),
{
    "  ".on_magenta().to_string()
}

/// Two spaces on yellow (`on_yellow`); coloured or plain, as the environment decides.
#[verifier::external_body]
fn yellow_block() -> (s: String)
    ensures
        is_block(s@, 7),
{
    "  ".on_yellow().to_string()
}

/// The block of a cell value: its palette colour, black past the palette.
pub open spec fn cell_block(blocks: Seq<Seq<char>>, v: u8) -> Seq<char> {
    if v < 8 {
        blocks[v as int]
    } else {
        blocks[1]
    }
}

/// The blocks of the first `n` cells of row `y`.
pub open spec fn row_blocks(g: Grid, blocks: Seq<Seq<char>>, y: int, n: nat) -> Seq<char>
    decreases n,
{
    if n == 0 {
        seq![]
    } else {
        row_blocks(g, blocks, y, (n - 1) as nat) + cell_block(blocks, g.cell(n - 1, y))
    }
}

/// The first `n` rows, each between white blocks and ended by a line break.
pub open spec fn terminal_rows(g: Grid, blocks: Seq<Seq<char>>, n: nat) -> Seq<char>
    decreases n,
{
    if n == 0 {
        seq![]
    } else {
        terminal_rows(g, blocks, (n - 1) as nat) + blocks[0] + row_blocks(
            g,
            blocks,
            n - 1,
            g.size as nat,
        ) + blocks[0] + "\n"@
    }
}

/// A grid drawn with the given blocks of the palette colours: a white border one block wide
/// around its rows of cells.
pub open spec fn terminal_text(g: Grid, blocks: Seq<Seq<char>>) -> Seq<char> {
    let border = repeated(blocks[0], (g.size + 2) as nat);
    border + "\n"@ + terminal_rows(g, blocks, g.size as nat) + border + "\n"@
}

/// Whether all eight blocks have the same length `w`.
pub open spec fn blocks_of_width(blocks: Seq<Seq<char>>, w: int) -> bool {
    &&& w >= 0
    &&& blocks.len() == 8
    &&& forall|i: int| 0 <= i < 8 ==> (#[trigger] blocks[i]).len() == w
}

/// The length of a line of the drawing of `g` when every block has length `w`: `size + 2`
/// blocks and a line break.
pub open spec fn line_width(g: Grid, w: int) -> int {
    (g.size + 2) * w + 1
}

proof fn lemma_repeated_len(b: Seq<char>, n: nat)
    ensures
        repeated(b, n).len() == n * b.len(),
    decreases n,
{
    if n > 0 {
        lemma_repeated_len(b, (n - 1) as nat);
        assert(repeated(b, n) == repeated(b, (n - 1) as nat) + b);
        let m = (n - 1) as nat;
        assert(repeated(b, n).len() == repeated(b, m).len() + b.len());
        assert(repeated(b, m).len() == m * b.len());
        assert(m * b.len() + b.len() == n * b.len()) by (nonlinear_arith)
            requires
                m + 1 == n,
        ;
    } else {
        assert(n * b.len() == 0) by (nonlinear_arith)
            requires
                n == 0,
        ;
    }
}

proof fn lemma_row_blocks(g: Grid, blocks: Seq<Seq<char>>, w: int, y: int, n: nat)
    requires
        blocks_of_width(blocks, w),
    ensures
        row_blocks(g, blocks, y, n).len() == n * w,
        forall|x: int|
            0 <= x < n ==> #[trigger] row_blocks(g, blocks, y, n).subrange(x * w, x * w + w) == (if g.cell(
                x as int,
                y,
            ) < 8 {
                blocks[g.cell(x as int, y) as int]
            } else {
                blocks[1]
            }),
    decreases n,
{
    if n > 0 {
        let prev = row_blocks(g, blocks, y, (n - 1) as nat);
        let last = cell_block(blocks, g.cell(n - 1, y));
        lemma_row_blocks(g, blocks, w, y, (n - 1) as nat);
        assert(last.len() == w);
        assert((n - 1) * w + w == n * w) by (nonlinear_arith);
        assert forall|x: int| 0 <= x < n implies #[trigger] row_blocks(g, blocks, y, n).subrange(
            x * w,
            x * w + w,
        ) == (if g.cell(x as int, y) < 8 {
            blocks[g.cell(x as int, y) as int]
        } else {
            blocks[1]
        }) by {
            let r = row_blocks(g, blocks, y, n);
            assert(r == prev + last);
            if x < n - 1 {
                assert(x * w + w <= (n - 1) * w) by (nonlinear_arith)
                    requires
                        x < n - 1,
                        w >= 0,
                ;
                assert(r.subrange(x * w, x * w + w) =~= prev.subrange(x * w, x * w + w));
            } else {
                assert(x * w == (n - 1) * w);
                assert(r.subrange(x * w, x * w + w) =~= last);
            }
        }
    } else {
        assert(n * w == 0) by (nonlinear_arith)
            requires
                n == 0,
        ;
    }
}

proof fn lemma_terminal_rows(g: Grid, blocks: Seq<Seq<char>>, w: int, n: nat)
    requires
        blocks_of_width(blocks, w),
    ensures
        terminal_rows(g, blocks, n).len() == n * line_width(g, w),
        forall|y: int|
            0 <= y < n ==> #[trigger] terminal_rows(g, blocks, n).subrange(
                y * line_width(g, w),
                y * line_width(g, w) + line_width(g, w),
            ) == blocks[0] + row_blocks(g, blocks, y as int, g.size as nat) + blocks[0] + "\n"@,
    decreases n,
{
    let rw = line_width(g, w);
    reveal_strlit("\n");
    assert(rw >= 1) by (nonlinear_arith)
        requires
            rw == (g.size + 2) * w + 1,
            w >= 0,
    ;
    if n > 0 {
        let prev = terminal_rows(g, blocks, (n - 1) as nat);
        lemma_terminal_rows(g, blocks, w, (n - 1) as nat);
        lemma_row_blocks(g, blocks, w, n - 1, g.size as nat);
        let line = blocks[0] + row_blocks(g, blocks, n - 1, g.size as nat) + blocks[0] + "\n"@;
        assert(line.len() == w + g.size * w + w + 1);
        assert(w + g.size * w + w + 1 == rw) by (nonlinear_arith)
            requires
                rw == (g.size + 2) * w + 1,
        ;
        assert(terminal_rows(g, blocks, n) =~= prev + line);
        assert((n - 1) * rw + rw == n * rw) by (nonlinear_arith);
        assert forall|y: int| 0 <= y < n implies #[trigger] terminal_rows(g, blocks, n).subrange(
            y * rw,
            y * rw + rw,
        ) == blocks[0] + row_blocks(g, blocks, y as int, g.size as nat) + blocks[0] + "\n"@ by {
            let t = terminal_rows(g, blocks, n);
            assert(prev.len() == (n - 1) * rw);
            assert(t.len() == n * rw);
            if y < n - 1 {
                assert(prev.subrange(y * rw, y * rw + rw) == blocks[0] + row_blocks(g, blocks, y, g.size as nat) + blocks[0] + "\n"@);
                assert(y * rw + rw <= (n - 1) * rw) by (nonlinear_arith)
                    requires
                        y < n - 1,
                        rw >= 0,
                ;
                assert(t.subrange(y * rw, y * rw + rw) =~= prev.subrange(y * rw, y * rw + rw));
            } else {
                assert(y * rw == (n - 1) * rw);
                assert(t.subrange(y * rw, y * rw + rw) =~= line);
            }
        }
    } else {
        assert(n * rw == 0) by (nonlinear_arith)
            requires
                n == 0,
        ;
    }
}

/// Where a terminal drawing shows each cell: when the blocks all have width `w`, every line is
/// `size + 2` blocks and a line break, the first line is the white border, and cell `(x, y)`
/// is the block after the border block of line `y + 1`, drawn in the palette colour of the
/// cell's value (black for values past the palette).
pub proof fn lemma_terminal_cell(g: Grid, blocks: Seq<Seq<char>>, w: int, x: int, y: int)
    requires
        blocks_of_width(blocks, w),
        0 <= x < g.size,
        0 <= y < g.size,
    ensures
        ({
            let rw = line_width(g, w);
            let start = (y + 1) * rw + (x + 1) * w;
            let v = g.cell(x, y);
            &&& terminal_text(g, blocks).len() == (g.size + 2) * rw
            &&& terminal_text(g, blocks).subrange(start, start + w) == if v < 8 {
                blocks[v as int]
            } else {
                blocks[1]
            }
        }),
{
    let rw = line_width(g, w);
    reveal_strlit("\n");
    let border = repeated(blocks[0], (g.size + 2) as nat);
    lemma_repeated_len(blocks[0], (g.size + 2) as nat);
    lemma_terminal_rows(g, blocks, w, g.size as nat);
    lemma_row_blocks(g, blocks, w, y, g.size as nat);
    let rows = terminal_rows(g, blocks, g.size as nat);
    let t = terminal_text(g, blocks);
    assert(t == border + "\n"@ + rows + border + "\n"@);
    assert(border.len() + 1 == rw);
    assert(rw + g.size * rw + rw == (g.size + 2) * rw) by (nonlinear_arith);
    let line = rows.subrange(y * rw, y * rw + rw);
    assert(line == blocks[0] + row_blocks(g, blocks, y as int, g.size as nat) + blocks[0] + "\n"@);
    assert(rw >= 1) by (nonlinear_arith)
        requires
            rw == (g.size + 2) * w + 1,
            w >= 0,
    ;
    assert(y * rw + rw <= g.size * rw) by (nonlinear_arith)
        requires
            y < g.size,
            rw >= 0,
    ;
    assert((y + 1) * rw == rw + y * rw) by (nonlinear_arith);
    assert((x + 1) * w == w + x * w) by (nonlinear_arith);
    assert(x * w + w <= g.size * w) by (nonlinear_arith)
        requires
            x < g.size,
            w >= 0,
    ;
    let start = (y + 1) * rw + (x + 1) * w;
    let rb = row_blocks(g, blocks, y, g.size as nat);
    assert(t.subrange(start, start + w) =~= rows.subrange(y * rw + w + x * w, y * rw + w + x * w + w));
    assert(rows.subrange(y * rw + w + x * w, y * rw + w + x * w + w) =~= line.subrange(w + x * w, w + x * w + w));
    assert(line.subrange(w + x * w, w + x * w + w) =~= rb.subrange(x * w, x * w + w));
}

proof fn lemma_repeated_block(b: Seq<char>, n: nat, k: int)
    requires
        0 <= k < n,
    ensures
        repeated(b, n).subrange(k * b.len(), k * b.len() + b.len()) == b,
    decreases n,
{
    let bl = b.len() as int;
    let m = (n - 1) as nat;
    let prev = repeated(b, m);
    lemma_repeated_len(b, m);
    assert(repeated(b, n) == prev + b);
    if k < n - 1 {
        lemma_repeated_block(b, m, k);
        assert(k * bl + bl <= m * bl) by (nonlinear_arith)
            requires
                k < m,
                bl >= 0,
        ;
        assert(repeated(b, n).subrange(k * bl, k * bl + bl) =~= prev.subrange(k * bl, k * bl + bl));
    } else {
        assert(k * bl == m * bl);
        assert(repeated(b, n).subrange(k * bl, k * bl + bl) =~= b);
    }
}

/// The frame of a terminal drawing: when the blocks all have width `w`, every one of its
/// `size + 2` lines ends in a line break, the first and last lines are white blocks only, and
/// every line between them starts and ends with a white block.
pub proof fn lemma_terminal_frame(g: Grid, blocks: Seq<Seq<char>>, w: int, j: int, k: int)
    requires
        blocks_of_width(blocks, w),
        0 <= j < g.size + 2,
        0 <= k < g.size + 2,
    ensures
        ({
            let rw = line_width(g, w);
            let t = terminal_text(g, blocks);
            &&& t[(j + 1) * rw - 1] == '\n'
            &&& (j == 0 || j == g.size + 1 || k == 0 || k == g.size + 1) ==> t.subrange(
                j * rw + k * w,
                j * rw + k * w + w,
            ) == blocks[0]
        }),
{
    let rw = line_width(g, w);
    let n2 = (g.size + 2) as nat;
    reveal_strlit("\n");
    let border = repeated(blocks[0], n2);
    lemma_repeated_len(blocks[0], n2);
    lemma_terminal_rows(g, blocks, w, g.size as nat);
    let rows = terminal_rows(g, blocks, g.size as nat);
    let t = terminal_text(g, blocks);
    assert(t == border + "\n"@ + rows + border + "\n"@);
    assert(border.len() + 1 == rw);
    assert(rw >= 1) by (nonlinear_arith)
        requires
            rw == (g.size + 2) * w + 1,
            w >= 0,
    ;
    assert(k * w + w <= n2 * w) by (nonlinear_arith)
        requires
            k < n2,
            w >= 0,
    ;
    assert(k * w >= 0) by (nonlinear_arith)
        requires
            k >= 0,
            w >= 0,
    ;
    assert((j + 1) * rw == j * rw + rw) by (nonlinear_arith);
    assert(j * rw >= 0) by (nonlinear_arith)
        requires
            j >= 0,
            rw >= 0,
    ;
    let line = t.subrange(j * rw, j * rw + rw);
    let cell = line.subrange(k * w, k * w + w);
    if j == 0 {
        assert(line =~= border + "\n"@);
        lemma_repeated_block(blocks[0], n2, k);
        assert(cell =~= border.subrange(k * w, k * w + w));
    } else if j == g.size + 1 {
        assert(j * rw == rw + g.size * rw) by (nonlinear_arith)
            requires
                j == g.size + 1,
        ;
        assert(line =~= border + "\n"@);
        lemma_repeated_block(blocks[0], n2, k);
        assert(cell =~= border.subrange(k * w, k * w + w));
    } else {
        let y = j - 1;
        assert(j * rw == rw + y * rw) by (nonlinear_arith)
            requires
                y == j - 1,
        ;
        assert(y * rw + rw <= g.size * rw) by (nonlinear_arith)
            requires
                y < g.size,
                rw >= 0,
        ;
        assert(y * rw >= 0) by (nonlinear_arith)
            requires
                y >= 0,
                rw >= 0,
        ;
        lemma_row_blocks(g, blocks, w, y, g.size as nat);
        let rb = row_blocks(g, blocks, y, g.size as nat);
        let l = rows.subrange(y * rw, y * rw + rw);
        assert(l == blocks[0] + rb + blocks[0] + "\n"@);
        assert(line =~= l);
        if k == 0 {
            assert(cell =~= blocks[0]);
        } else if k == g.size + 1 {
            assert(k * w == w + g.size * w) by (nonlinear_arith)
                requires
                    k == g.size + 1,
            ;
            assert(cell =~= blocks[0]);
        }
    }
    assert(t.subrange(j * rw + k * w, j * rw + k * w + w) =~= cell);
    assert(t[(j + 1) * rw - 1] == line[rw - 1]);
}

/// Draws grids with terminal colours.
pub struct TerminalExporter;

impl TerminalExporter {
    /// The grid as rows of coloured blocks inside a white border; the blocks carry escape
    /// codes when the terminal colouring is on, and are plain spaces when it is off.
    pub fn render(grid: &Grid) -> (s: String)
        requires
            grid.wf(),
            grid.size + 2 <= usize::MAX,
        ensures
            exists|blocks: Seq<Seq<char>>|
                #![trigger terminal_text(*grid, blocks)]
                blocks.len() == 8 && (forall|i: int| 0 <= i < 8 ==> #[trigger] is_block(
                    blocks[i],
                    i as nat,
                )) && s@ == terminal_text(*grid, blocks),
    {
        let mut blocks: Vec<String> = Vec::new();
        blocks.push(white_block());
        blocks.push(black_block());
        blocks.push(red_block());
        blocks.push(blue_block());
        blocks.push(green_block());
        blocks.push(cyan_block());
        blocks.push(magenta_block());
        blocks.push(yellow_block());
        let ghost views = Seq::new(8, |i: int| blocks@[i]@);
        let s = Self::render_blocks(grid, &blocks);
        assert(forall|i: int| 0 <= i < 8 ==> #[trigger] is_block(views[i], i as nat));
        assert(views.len() == 8 && s@ == terminal_text(*grid, views));
        s
    }

    /// The grid drawn with the given blocks of the eight palette colours, white first.
    pub fn render_blocks(grid: &Grid, blocks: &Vec<String>) -> (s: String)
        requires
            grid.wf(),
            grid.size + 2 <= usize::MAX,
            blocks@.len() == 8,
        ensures
            s@ == terminal_text(*grid, Seq::new(8, |i: int| blocks@[i]@)),
    {
        let ghost views = Seq::new(8, |i: int| blocks@[i]@);
        let size = grid.size;
        let mut out = String::new();
        push_repeated(&mut out, blocks[0].as_str(), size + 2);
        out.append("\n");
        let ghost head = out@;
        let mut y: usize = 0;
        while y < size
            invariant
                grid.wf(),
                size == grid.size,
                y <= size,
                blocks@.len() == 8,
                views == Seq::new(8, |i: int| blocks@[i]@),
                out@ == head + terminal_rows(*grid, views, y as nat),
            decreases size - y,
        {
            let ghost row_start = out@;
            out.append(blocks[0].as_str());
            let ghost cells_start = out@;
            let mut x: usize = 0;
            while x < size
                invariant
                    grid.wf(),
                    size == grid.size,
                    y < size,
                    x <= size,
                    blocks@.len() == 8,
                    views == Seq::new(8, |i: int| blocks@[i]@),
                    out@ == cells_start + row_blocks(*grid, views, y as int, x as nat),
                decreases size - x,
            {
                let v = grid.get(x, y);
                let idx: usize = if v < 8 {
                    v as usize
                } else {
                    1
                };
                out.append(blocks[idx].as_str());
                proof {
                    assert(out@ =~= cells_start + row_blocks(*grid, views, y as int, (x + 1) as nat));
                }
                x += 1;
            }
            out.append(blocks[0].as_str());
            out.append("\n");
            proof {
                assert(out@ =~= head + terminal_rows(*grid, views, (y + 1) as nat));
            }
            y += 1;
        }
        push_repeated(&mut out, blocks[0].as_str(), size + 2);
        out.append("\n");
        proof {
            assert(out@ =~= terminal_text(*grid, views));
        }
        out
    }
}

} // verus!
