//! Adaptive binarization of a grey image and tracing of the contours of its dark regions.
use vstd::prelude::*;

use crate::grid::lemma_cell_of_rank;

verus! {

/// The sum of the grey levels of row `y` from column `x0` up to `x1`.
pub open spec fn row_sum(gray: Seq<u8>, w: nat, y: nat, x0: nat, x1: nat) -> nat
    decreases x1,
{
    if x1 <= x0 {
        0
    } else {
        row_sum(gray, w, y, x0, (x1 - 1) as nat) + gray[(y * w + x1 - 1) as int] as nat
    }
}

/// The sum of the grey levels of the rows `y0` up to `y1`, columns `x0` up to `x1`.
pub open spec fn area_sum(gray: Seq<u8>, w: nat, x0: nat, x1: nat, y0: nat, y1: nat) -> nat
    decreases y1,
{
    if y1 <= y0 {
        0
    } else {
        area_sum(gray, w, x0, x1, y0, (y1 - 1) as nat) + row_sum(gray, w, (y1 - 1) as nat, x0, x1)
    }
}

/// The smaller of two numbers.
pub open spec fn min_nat(a: nat, b: nat) -> nat {
    if a < b {
        a
    } else {
        b
    }
}

/// The mean grey level of block `(bx, by)` of 32 by 32 pixels (smaller at the right and bottom
/// edges), rounded down.
pub open spec fn block_mean(gray: Seq<u8>, w: nat, h: nat, bx: nat, by: nat) -> nat {
    let x0 = bx * 32;
    let x1 = min_nat((bx + 1) * 32, w);
    let y0 = by * 32;
    let y1 = min_nat((by + 1) * 32, h);
    let count = (x1 - x0) * (y1 - y0);
    if x0 < x1 && y0 < y1 {
        area_sum(gray, w, x0, x1, y0, y1) / count as nat
    } else {
        128
    }
}

/// The threshold below which a pixel is dark in a block of mean `mean`: 10 below the mean, and
/// at least 15.
pub open spec fn threshold(mean: nat) -> nat {
    if mean >= 25 {
        (mean - 10) as nat
    } else {
        15
    }
}

/// The dark pixels of a `w` by `h` grey image, row by row: those darker than the threshold of
/// the mean of their block.
pub open spec fn binarized(gray: Seq<u8>, w: nat, h: nat) -> Seq<bool> {
    Seq::new(
        w * h,
        |i: int| (gray[i] as nat) < threshold(block_mean(gray, w, h, (i % w as int) as nat / 32, (i / w as int) as nat / 32)),
    )
}

proof fn lemma_row_sum_bound(gray: Seq<u8>, w: nat, y: nat, x0: nat, x1: nat)
    ensures
        row_sum(gray, w, y, x0, x1) <= 255 * (if x1 > x0 {
            (x1 - x0) as nat
        } else {
            0
        }),
    decreases x1,
{
    if x1 > x0 {
        lemma_row_sum_bound(gray, w, y, x0, (x1 - 1) as nat);
    }
}

proof fn lemma_area_sum_bound(gray: Seq<u8>, w: nat, x0: nat, x1: nat, y0: nat, y1: nat)
    requires
        x0 <= x1,
    ensures
        area_sum(gray, w, x0, x1, y0, y1) <= 255 * (x1 - x0) * (if y1 > y0 {
            (y1 - y0) as nat
        } else {
            0
        }),
    decreases y1,
{
    if y1 > y0 {
        lemma_area_sum_bound(gray, w, x0, x1, y0, (y1 - 1) as nat);
        lemma_row_sum_bound(gray, w, (y1 - 1) as nat, x0, x1);
        let a: int = x1 - x0;
        let b: int = y1 - 1 - y0;
        assert(255 * a * b + 255 * a == 255 * a * (b + 1)) by (nonlinear_arith);
    }
}

/// The sum of row `y` from `x0` up to `x1`.
fn sum_row(gray: &Vec<u8>, w: usize, y: usize, x0: usize, x1: usize) -> (s: u32)
    requires
        x0 <= x1 <= w,
        x1 - x0 <= 32,
        (y + 1) * w <= gray@.len() <= usize::MAX,
    ensures
        s == row_sum(gray@, w as nat, y as nat, x0 as nat, x1 as nat),
        s <= 255 * (x1 - x0),
{
    let mut s: u32 = 0;
    let mut x: usize = x0;
    while x < x1
        invariant
            x0 <= x <= x1 <= w,
            x1 - x0 <= 32,
            (y + 1) * w <= gray@.len() <= usize::MAX,
            s == row_sum(gray@, w as nat, y as nat, x0 as nat, x as nat),
            s <= 255 * (x - x0),
        decreases x1 - x,
    {
        assert(y * w + x < (y + 1) * w && y * w <= (y + 1) * w) by (nonlinear_arith)
            requires
                x < w,
        ;
        let i = y * w + x;
        s = s + gray[i] as u32;
        x += 1;
    }
    s
}

/// The mean grey level of block `(bx, by)`.
fn mean_of_block(gray: &Vec<u8>, w: usize, h: usize, bx: usize, by: usize) -> (m: u32)
    requires
        gray@.len() == w * h,
        bx * 32 < w,
        by * 32 < h,
        w * h <= u32::MAX,
        w * h <= usize::MAX,
    ensures
        m == block_mean(gray@, w as nat, h as nat, bx as nat, by as nat),
        m <= 255,
{
    let x0 = bx * 32;
    let x1 = if w - x0 > 32 {
        x0 + 32
    } else {
        w
    };
    let y0 = by * 32;
    let y1 = if h - y0 > 32 {
        y0 + 32
    } else {
        h
    };
    let mut sum: u32 = 0;
    let mut y: usize = y0;
    while y < y1
        invariant
            y0 <= y <= y1 <= h,
            y1 - y0 <= 32,
            x0 < x1 <= w,
            x1 - x0 <= 32,
            gray@.len() == w * h,
            w * h <= usize::MAX,
            sum == area_sum(gray@, w as nat, x0 as nat, x1 as nat, y0 as nat, y as nat),
            sum <= 8160 * (y - y0),
        decreases y1 - y,
    {
        assert((y + 1) * w <= w * h) by (nonlinear_arith)
            requires
                y < h,
        ;
        let r = sum_row(gray, w, y, x0, x1);
        assert(r <= 8160);
        assert(8160 * (y - y0) + 255 * 32 == 8160 * (y + 1 - y0));
        sum = sum + r;
        y += 1;
    }
    assert((x1 - x0) * (y1 - y0) <= 1024) by (nonlinear_arith)
        requires
            x0 < x1,
            y0 < y1,
            x1 - x0 <= 32,
            y1 - y0 <= 32,
    ;
    let count: u32 = ((x1 - x0) * (y1 - y0)) as u32;
    assert(count >= 1) by (nonlinear_arith)
        requires
            x1 - x0 >= 1,
            y1 - y0 >= 1,
            count == (x1 - x0) * (y1 - y0),
    ;
    proof {
        lemma_area_sum_bound(gray@, w as nat, x0 as nat, x1 as nat, y0 as nat, y1 as nat);
        assert(sum / count <= 255) by (nonlinear_arith)
            requires
                sum <= 255 * (x1 - x0) * (y1 - y0),
                count == (x1 - x0) * (y1 - y0),
                count >= 1,
        ;
    }
    sum / count
}

/// The number of blocks of 32 that cover `n` pixels.
pub open spec fn blocks_for(n: nat) -> nat {
    n / 32 + if n % 32 > 0 {
        1nat
    } else {
        0nat
    }
}

proof fn lemma_block_of(x: nat, n: nat)
    requires
        x < n,
    ensures
        x / 32 < blocks_for(n),
        (x / 32) * 32 <= x,
{
    vstd::arithmetic::div_mod::lemma_fundamental_div_mod(x as int, 32);
    vstd::arithmetic::div_mod::lemma_fundamental_div_mod(n as int, 32);
    if x / 32 >= blocks_for(n) {
        assert((x / 32) * 32 >= (n / 32 + 1) * 32 || (n % 32 == 0 && (x / 32) * 32 >= (n / 32) * 32))
            by (nonlinear_arith)
            requires
                x / 32 >= blocks_for(n),
                blocks_for(n) == n / 32 + if n % 32 > 0 {
                    1nat
                } else {
                    0nat
                },
        ;
    }
}

/// The dark pixels of a grey image, by the mean of the 32 by 32 block each lies in.
pub fn binarize(gray: &Vec<u8>, w: usize, h: usize) -> (binary: Vec<bool>)
    requires
        gray@.len() == w * h,
        w * h <= u32::MAX,
        w * h <= usize::MAX,
    ensures
        binary@ == binarized(gray@, w as nat, h as nat),
{
    let bxn: usize = w / 32 + if w % 32 > 0 {
        1
    } else {
        0
    };
    let byn: usize = h / 32 + if h % 32 > 0 {
        1
    } else {
        0
    };
    assert(bxn <= w && byn <= h);
    assert(bxn * byn <= w * h) by (nonlinear_arith)
        requires
            bxn <= w,
            byn <= h,
    ;
    let mut means: Vec<u32> = Vec::new();
    let mut by: usize = 0;
    while by < byn
        invariant
            by <= byn,
            bxn == blocks_for(w as nat),
            byn == blocks_for(h as nat),
            bxn * byn <= w * h,
            gray@.len() == w * h,
            w * h <= u32::MAX,
            w * h <= usize::MAX,
            means@.len() == by * bxn,
            forall|j: int|
                0 <= j < means@.len() ==> #[trigger] means@[j] == block_mean(
                    gray@,
                    w as nat,
                    h as nat,
                    (j % bxn as int) as nat,
                    (j / bxn as int) as nat,
                ),
        decreases byn - by,
    {
        let mut bx: usize = 0;
        while bx < bxn
            invariant
                bx <= bxn,
                by < byn,
                bxn == blocks_for(w as nat),
                byn == blocks_for(h as nat),
                bxn * byn <= w * h,
                gray@.len() == w * h,
                w * h <= u32::MAX,
                w * h <= usize::MAX,
                means@.len() == by * bxn + bx,
                forall|j: int|
                    0 <= j < means@.len() ==> #[trigger] means@[j] == block_mean(
                        gray@,
                        w as nat,
                        h as nat,
                        (j % bxn as int) as nat,
                        (j / bxn as int) as nat,
                    ),
            decreases bxn - bx,
        {
            proof {
                vstd::arithmetic::div_mod::lemma_fundamental_div_mod(w as int, 32);
                vstd::arithmetic::div_mod::lemma_fundamental_div_mod(h as int, 32);
                lemma_cell_of_rank(bxn as nat, bx as nat, by as nat);
            }
            assert(bx * 32 < w) by (nonlinear_arith)
                requires
                    bx < bxn,
                    bxn == w / 32 + if w % 32 > 0 {
                        1int
                    } else {
                        0int
                    },
                    w == 32 * (w / 32) + w % 32,
                    0 <= w % 32 < 32,
            ;
            assert(by * 32 < h) by (nonlinear_arith)
                requires
                    by < byn,
                    byn == h / 32 + if h % 32 > 0 {
                        1int
                    } else {
                        0int
                    },
                    h == 32 * (h / 32) + h % 32,
                    0 <= h % 32 < 32,
            ;
            let m = mean_of_block(gray, w, h, bx, by);
            means.push(m);
            bx += 1;
        }
        assert(by * bxn + bxn == (by + 1) * bxn) by (nonlinear_arith);
        by += 1;
    }
    let mut binary: Vec<bool> = Vec::new();
    let mut y: usize = 0;
    while y < h
        invariant
            y <= h,
            bxn == blocks_for(w as nat),
            byn == blocks_for(h as nat),
            bxn * byn <= w * h,
            gray@.len() == w * h,
            w * h <= usize::MAX,
            means@.len() == byn * bxn,
            forall|j: int|
                0 <= j < means@.len() ==> #[trigger] means@[j] == block_mean(
                    gray@,
                    w as nat,
                    h as nat,
                    (j % bxn as int) as nat,
                    (j / bxn as int) as nat,
                ),
            binary@.len() == y * w,
            forall|i: int| 0 <= i < binary@.len() ==> #[trigger] binary@[i] == binarized(gray@, w as nat, h as nat)[i],
        decreases h - y,
    {
        let mut x: usize = 0;
        while x < w
            invariant
                x <= w,
                y < h,
                bxn == blocks_for(w as nat),
                byn == blocks_for(h as nat),
                bxn * byn <= w * h,
                gray@.len() == w * h,
                w * h <= usize::MAX,
                means@.len() == byn * bxn,
                forall|j: int|
                    0 <= j < means@.len() ==> #[trigger] means@[j] == block_mean(
                        gray@,
                        w as nat,
                        h as nat,
                        (j % bxn as int) as nat,
                        (j / bxn as int) as nat,
                    ),
                binary@.len() == y * w + x,
                forall|i: int| 0 <= i < binary@.len() ==> #[trigger] binary@[i] == binarized(gray@, w as nat, h as nat)[i],
            decreases w - x,
        {
            proof {
                lemma_block_of(x as nat, w as nat);
                lemma_block_of(y as nat, h as nat);
                lemma_cell_of_rank(bxn as nat, (x / 32) as nat, (y / 32) as nat);
                lemma_cell_of_rank(w as nat, x as nat, y as nat);
            }
            assert((y / 32) * bxn + x / 32 < byn * bxn) by (nonlinear_arith)
                requires
                    y / 32 < byn,
                    x / 32 < bxn,
            ;
            assert(y * w + x < w * h) by (nonlinear_arith)
                requires
                    y < h,
                    x < w,
            ;
            let j = (y / 32) * bxn + x / 32;
            let m = means[j];
            let th: u32 = if m >= 25 {
                m - 10
            } else {
                15
            };
            let i = y * w + x;
            binary.push((gray[i] as u32) < th);
            x += 1;
        }
        assert(y * w + w == (y + 1) * w) by (nonlinear_arith);
        y += 1;
    }
    proof {
        assert(binary@.len() == w * h) by (nonlinear_arith)
            requires
                binary@.len() == h * w,
        ;
        assert(binary@ =~= binarized(gray@, w as nat, h as nat));
    }
    binary
}

/// The column step of direction `d` (0 up, then clockwise in eighths).
pub open spec fn step_dx(d: int) -> int {
    if d == 1 || d == 2 || d == 3 {
        1
    } else if d == 5 || d == 6 || d == 7 {
        -1
    } else {
        0
    }
}

/// The row step of direction `d`.
pub open spec fn step_dy(d: int) -> int {
    if d == 0 || d == 1 || d == 7 {
        -1
    } else if d == 3 || d == 4 || d == 5 {
        1
    } else {
        0
    }
}

/// The first dark neighbour of `(cx, cy)` in the directions `(dir + 5 + j) % 8` for `j` from
/// `i` to 7, with its direction.
pub open spec fn probe(binary: Seq<bool>, w: nat, h: nat, cx: int, cy: int, dir: int, i: nat) -> Option<
    (int, int, int),
>
    decreases 8 - i,
{
    if i >= 8 {
        None
    } else {
        let nd = (dir + 5 + i) % 8;
        let nx = cx + step_dx(nd);
        let ny = cy + step_dy(nd);
        if 0 <= nx < w && 0 <= ny < h && binary[ny * w + nx] {
            Some((nx, ny, nd))
        } else {
            probe(binary, w, h, cx, cy, dir, i + 1)
        }
    }
}

/// The boundary traced from `(cx, cy)` heading `dir` with `n` points traced: the point, then,
/// while a dark neighbour is found and the trace has not come back to `(sx, sy)` after more
/// than two points, the trace from that neighbour; 4000 points at most.
pub open spec fn trace_points(
    binary: Seq<bool>,
    w: nat,
    h: nat,
    sx: int,
    sy: int,
    cx: int,
    cy: int,
    dir: int,
    n: nat,
) -> Seq<(usize, usize)>
    decreases 4000 - n,
{
    if n >= 4000 {
        seq![]
    } else {
        seq![(cx as usize, cy as usize)] + match probe(binary, w, h, cx, cy, dir, 0) {
            None => seq![],
            Some((nx, ny, nd)) => if nx == sx && ny == sy && n + 1 > 2 {
                seq![]
            } else {
                trace_points(binary, w, h, sx, sy, nx, ny, nd, n + 1)
            },
        }
    }
}

/// `v` with the pixels of `pts` marked.
pub open spec fn marked(v: Seq<bool>, w: nat, pts: Seq<(usize, usize)>) -> Seq<bool>
    decreases pts.len(),
{
    if pts.len() == 0 {
        v
    } else {
        marked(v, w, pts.drop_last()).update(pts.last().1 * w + pts.last().0, true)
    }
}

/// The first dark neighbour of `(cx, cy)`, trying the directions from `dir + 5` on.
fn probe_exec(binary: &Vec<bool>, w: usize, h: usize, cx: usize, cy: usize, dir: usize) -> (r: Option<
    (usize, usize, usize),
>)
    requires
        binary@.len() == w * h,
        w * h <= usize::MAX,
        cx < w,
        cy < h,
        dir < 8,
    ensures
        match probe(binary@, w as nat, h as nat, cx as int, cy as int, dir as int, 0) {
            Some((nx, ny, nd)) => r == Some((nx as usize, ny as usize, nd as usize)) && 0 <= nx < w
                && 0 <= ny < h && 0 <= nd < 8,
            None => r is None,
        },
{
    let mut i: usize = 0;
    while i < 8
        invariant
            i <= 8,
            binary@.len() == w * h,
            w * h <= usize::MAX,
            cx < w,
            cy < h,
            dir < 8,
            probe(binary@, w as nat, h as nat, cx as int, cy as int, dir as int, 0) == probe(
                binary@,
                w as nat,
                h as nat,
                cx as int,
                cy as int,
                dir as int,
                i as nat,
            ),
        decreases 8 - i,
    {
        let nd = (dir + 5 + i) % 8;
        let dx: i64 = if nd == 1 || nd == 2 || nd == 3 {
            1
        } else if nd == 5 || nd == 6 || nd == 7 {
            -1
        } else {
            0
        };
        let dy: i64 = if nd == 0 || nd == 1 || nd == 7 {
            -1
        } else if nd == 3 || nd == 4 || nd == 5 {
            1
        } else {
            0
        };
        assert(w <= usize::MAX && h <= usize::MAX);
        let nx: i128 = cx as i128 + dx as i128;
        let ny: i128 = cy as i128 + dy as i128;
        if 0 <= nx && nx < w as i128 && 0 <= ny && ny < h as i128 {
            let ux = nx as usize;
            let uy = ny as usize;
            assert(uy * w + ux < w * h) by (nonlinear_arith)
                requires
                    ux < w,
                    uy < h,
            ;
            if binary[uy * w + ux] {
                return Some((ux, uy, nd));
            }
        }
        i += 1;
    }
    None
}

/// Traces the boundary of the dark region at `(sx, sy)`, marking its pixels in `visited`.
pub fn trace_boundary(
    binary: &Vec<bool>,
    w: usize,
    h: usize,
    sx: usize,
    sy: usize,
    visited: &mut Vec<bool>,
) -> (contour: Vec<(usize, usize)>)
    requires
        binary@.len() == w * h,
        old(visited)@.len() == w * h,
        w * h <= usize::MAX,
        sx < w,
        sy < h,
    ensures
        contour@ == trace_points(binary@, w as nat, h as nat, sx as int, sy as int, sx as int, sy as int, 7, 0),
        final(visited)@ == marked(old(visited)@, w as nat, contour@),
        final(visited)@.len() == w * h,
{
    let ghost full = trace_points(binary@, w as nat, h as nat, sx as int, sy as int, sx as int, sy as int, 7, 0);
    let ghost v0 = visited@;
    let mut contour: Vec<(usize, usize)> = Vec::new();
    let mut cx = sx;
    let mut cy = sy;
    let mut dir: usize = 7;
    let mut n: usize = 0;
    while n < 4000
        invariant_except_break
            n < 4000 ==> contour@ + trace_points(binary@, w as nat, h as nat, sx as int, sy as int, cx as int, cy as int, dir as int, n as nat) == full,
            contour@.len() == n,
        invariant
            n <= 4000,
            binary@.len() == w * h,
            visited@.len() == w * h,
            w * h <= usize::MAX,
            cx < w,
            cy < h,
            dir < 8,
            sx < w,
            sy < h,
            visited@ == marked(v0, w as nat, contour@),
            n == 4000 ==> contour@ == full,
        ensures
            contour@ == full,
            visited@ == marked(v0, w as nat, contour@),
        decreases 4000 - n,
    {
        let ghost before = contour@;
        let ghost rest = trace_points(
            binary@,
            w as nat,
            h as nat,
            sx as int,
            sy as int,
            cx as int,
            cy as int,
            dir as int,
            n as nat,
        );
        let ghost pr = probe(binary@, w as nat, h as nat, cx as int, cy as int, dir as int, 0);
        assert(rest == seq![(cx, cy)] + match pr {
            None => Seq::<(usize, usize)>::empty(),
            Some((nx, ny, nd)) => if nx == sx && ny == sy && n + 1 > 2 {
                Seq::<(usize, usize)>::empty()
            } else {
                trace_points(binary@, w as nat, h as nat, sx as int, sy as int, nx, ny, nd, (n + 1) as nat)
            },
        });
        assert(cy * w + cx < w * h) by (nonlinear_arith)
            requires
                cx < w,
                cy < h,
        ;
        contour.push((cx, cy));
        visited.set(cy * w + cx, true);
        proof {
            assert(contour@.drop_last() =~= before);
        }
        match probe_exec(binary, w, h, cx, cy, dir) {
            None => {
                proof {
                    assert(contour@ =~= full);
                }
                break;
            },
            Some((nx, ny, nd)) => {
                let back = nx == sx && ny == sy && n + 1 > 2;
                cx = nx;
                cy = ny;
                dir = nd;
                n += 1;
                if back {
                    proof {
                        assert(contour@ =~= full);
                    }
                    break;
                }
                proof {
                    assert(before + rest == full);
                    assert(rest == seq![(contour@.last())] + trace_points(
                        binary@,
                        w as nat,
                        h as nat,
                        sx as int,
                        sy as int,
                        cx as int,
                        cy as int,
                        dir as int,
                        n as nat,
                    ));
                    assert(contour@ + trace_points(
                        binary@,
                        w as nat,
                        h as nat,
                        sx as int,
                        sy as int,
                        cx as int,
                        cy as int,
                        dir as int,
                        n as nat,
                    ) =~= before + rest);
                    if n == 4000 {
                        assert(contour@ =~= full);
                    }
                }
            },
        }
    }
    contour
}

/// The contours found scanning the inner pixels from the `k`-th on (two pixels in from each
/// edge, row by row) with `visited` marked: at each dark pixel whose left neighbour is light and
/// that no earlier contour passed, the boundary is traced and its pixels marked; contours of
/// at least 24 points are kept.
pub open spec fn scan_contours(binary: Seq<bool>, w: nat, h: nat, k: nat, visited: Seq<bool>) -> Seq<
    Seq<(usize, usize)>,
>
    decreases ((w - 4) * (h - 4)) - k,
{
    if w <= 4 || h <= 4 || k >= (w - 4) * (h - 4) {
        seq![]
    } else {
        let x: int = (2 + k % ((w - 4) as nat)) as int;
        let y: int = (2 + k / ((w - 4) as nat)) as int;
        let idx: int = y * w + x;
        if binary[idx] && !binary[idx - 1] && !visited[idx] {
            let c = trace_points(binary, w, h, x, y, x, y, 7, 0);
            (if c.len() >= 24 {
                seq![c]
            } else {
                seq![]
            }) + scan_contours(binary, w, h, k + 1, marked(visited, w, c))
        } else {
            scan_contours(binary, w, h, k + 1, visited)
        }
    }
}

/// The contours of the dark regions of a `w` by `h` binary image.
pub open spec fn found_contours(binary: Seq<bool>, w: nat, h: nat) -> Seq<Seq<(usize, usize)>> {
    scan_contours(binary, w, h, 0, Seq::new(w * h, |i: int| false))
}

/// The contours of the dark regions of a binary image, scanning row by row two pixels in from
/// the edges.
pub fn find_contours(binary: &Vec<bool>, w: usize, h: usize) -> (contours: Vec<Vec<(usize, usize)>>)
    requires
        binary@.len() == w * h,
        w * h <= usize::MAX,
    ensures
        contours@.map_values(|c: Vec<(usize, usize)>| c@) == found_contours(binary@, w as nat, h as nat),
{
    let mut visited: Vec<bool> = Vec::new();
    let mut i: usize = 0;
    while i < w * h
        invariant
            i <= w * h,
            w * h <= usize::MAX,
            visited@.len() == i,
            forall|j: int| 0 <= j < i ==> visited@[j] == false,
        decreases w * h - i,
    {
        visited.push(false);
        i += 1;
    }
    assert(visited@ =~= Seq::new((w * h) as nat, |i: int| false));
    let mut out: Vec<Vec<(usize, usize)>> = Vec::new();
    if w <= 4 || h <= 4 {
        assert(out@.map_values(|c: Vec<(usize, usize)>| c@) =~= found_contours(binary@, w as nat, h as nat));
        return out;
    }
    let iw = w - 4;
    let ih = h - 4;
    let ghost full = found_contours(binary@, w as nat, h as nat);
    let mut y: usize = 0;
    while y < ih
        invariant
            y <= ih,
            iw == w - 4,
            ih == h - 4,
            w > 4,
            h > 4,
            binary@.len() == w * h,
            visited@.len() == w * h,
            w * h <= usize::MAX,
            full == found_contours(binary@, w as nat, h as nat),
            out@.map_values(|c: Vec<(usize, usize)>| c@) + scan_contours(binary@, w as nat, h as nat, (y * iw) as nat, visited@) == full,
        decreases ih - y,
    {
        let mut x: usize = 0;
        while x < iw
            invariant
                x <= iw,
                y < ih,
                iw == w - 4,
                ih == h - 4,
                w > 4,
                h > 4,
                binary@.len() == w * h,
                visited@.len() == w * h,
                w * h <= usize::MAX,
                full == found_contours(binary@, w as nat, h as nat),
                out@.map_values(|c: Vec<(usize, usize)>| c@) + scan_contours(binary@, w as nat, h as nat, (y * iw + x) as nat, visited@) == full,
            decreases iw - x,
        {
            let ghost k = (y * iw + x) as nat;
            proof {
                lemma_cell_of_rank(iw as nat, x as nat, y as nat);
            }
            assert(k < iw * ih) by (nonlinear_arith)
                requires
                    k == y * iw + x,
                    x < iw,
                    y < ih,
            ;
            let px = x + 2;
            let py = y + 2;
            assert(py * w + px < w * h && py * w + px >= 1) by (nonlinear_arith)
                requires
                    px < w,
                    py < h,
                    px >= 2,
            ;
            let idx = py * w + px;
            let ghost old_out = out@.map_values(|c: Vec<(usize, usize)>| c@);
            let ghost old_visited = visited@;
            if binary[idx] && !binary[idx - 1] && !visited[idx] {
                let c = trace_boundary(binary, w, h, px, py, &mut visited);
                let keep = c.len() >= 24;
                if keep {
                    out.push(c);
                }
                proof {
                    assert(out@.map_values(|c: Vec<(usize, usize)>| c@) =~= old_out + (if keep {
                        seq![c@]
                    } else {
                        Seq::<Seq<(usize, usize)>>::empty()
                    }));
                }
            }
            x += 1;
        }
        assert(y * iw + iw == (y + 1) * iw) by (nonlinear_arith);
        y += 1;
    }
    proof {
        assert(scan_contours(binary@, w as nat, h as nat, (ih * iw) as nat, visited@) == Seq::<Seq<(usize, usize)>>::empty()) by {
            assert(ih * iw == iw * ih) by (nonlinear_arith);
        }
        assert(out@.map_values(|c: Vec<(usize, usize)>| c@) =~= full);
    }
    out
}

} // verus!
