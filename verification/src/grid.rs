//! The square grid of cells, its layouts, its skeleton and its data capacity.
use vstd::prelude::*;

use crate::types::{spec_palette, ColorMode, Rgb};

verus! {

/// Whether `(x, y)` is one of the four cells of the nano T-finder.
pub open spec fn is_nano_finder(x: int, y: int) -> bool {
    (y == 0 && 0 <= x <= 2) || (x == 1 && y == 1)
}

/// Whether cell `(x, y)` of a grid of side `size` carries data.
pub open spec fn is_data_cell(size: int, nano: bool, x: int, y: int) -> bool {
    &&& 0 <= x < size
    &&& 0 <= y < size
    &&& !(y == size - 1 && (x == 0 || x == size - 1))
    &&& if nano {
        !is_nano_finder(x, y)
    } else {
        y >= 1 && x != size / 2
    }
}

/// The data cells among the first `n` cells in row-major order, in that order.
pub open spec fn data_coords_upto(size: nat, nano: bool, n: nat) -> Seq<(usize, usize)>
    decreases n,
{
    if n == 0 || size == 0 {
        seq![]
    } else {
        let i = (n - 1) as nat;
        let x = (i % size) as int;
        let y = (i / size) as int;
        let prev = data_coords_upto(size, nano, i);
        if is_data_cell(size as int, nano, x, y) {
            prev.push((x as usize, y as usize))
        } else {
            prev
        }
    }
}

/// The data cells of a grid, row by row, left to right.
pub open spec fn data_coords(size: nat, nano: bool) -> Seq<(usize, usize)> {
    data_coords_upto(size, nano, size * size)
}

/// The number of data cells of a grid of side at least 3.
pub open spec fn num_data_cells(size: nat, nano: bool) -> int {
    if nano {
        size * size - 6
    } else {
        size * size - 2 * size - 1
    }
}

/// Bytes a grid holds: its data cells times the bits per cell, in whole bytes.
pub open spec fn spec_capacity_bytes(size: nat, bpc: nat, nano: bool) -> nat {
    ((num_data_cells(size, nano) * bpc) / 8) as nat
}

/// Data bytes that fit in `total_cap` bytes once each block of 255 carries `ecc` parity bytes.
pub open spec fn spec_data_capacity(total_cap: nat, ecc: nat) -> nat {
    if ecc == 0 {
        total_cap
    } else {
        let full = total_cap / 255;
        let rem = total_cap % 255;
        let rem_data: nat = if rem >= ecc {
            (rem - ecc) as nat
        } else {
            0
        };
        full * (255 - ecc) as nat + rem_data
    }
}

/// The data capacity of `total_cap` bytes is the most data whose Reed-Solomon encoding with
/// `ecc` parity bytes per block fits in them: that much fits, one byte more does not.
pub proof fn lemma_data_capacity_fits(total_cap: nat, ecc: nat)
    requires
        ecc < 255,
    ensures
        crate::rs::rs_encoded_len(spec_data_capacity(total_cap, ecc), ecc) <= total_cap,
        crate::rs::rs_encoded_len(spec_data_capacity(total_cap, ecc) + 1, ecc) > total_cap,
{
    if ecc > 0 {
        let cd = (255 - ecc) as nat;
        let f = total_cap / 255;
        let r = total_cap % 255;
        let rd: nat = if r >= ecc {
            (r - ecc) as nat
        } else {
            0
        };
        let cap = spec_data_capacity(total_cap, ecc);
        assert(cap == f * cd + rd);
        assert(total_cap == f * 255 + r) by {
            vstd::arithmetic::div_mod::lemma_fundamental_div_mod(total_cap as int, 255);
        }
        assert(rd < cd);
        vstd::arithmetic::div_mod::lemma_fundamental_div_mod_converse(
            cap as int,
            cd as int,
            f as int,
            rd as int,
        );
        if rd + 1 < cd {
            vstd::arithmetic::div_mod::lemma_fundamental_div_mod_converse(
                (cap + 1) as int,
                cd as int,
                f as int,
                (rd + 1) as int,
            );
        } else {
            assert(cap + 1 == (f + 1) * cd) by (nonlinear_arith)
                requires
                    cap == f * cd + rd,
                    rd + 1 == cd,
            ;
            vstd::arithmetic::div_mod::lemma_fundamental_div_mod_converse(
                (cap + 1) as int,
                cd as int,
                (f + 1) as int,
                0,
            );
            assert((f + 1) * 255 == f * 255 + 255) by (nonlinear_arith);
        }
    }
}

/// The value the skeleton gives cell `(x, y)`, if it gives one.
pub open spec fn skeleton_value(size: int, num_colors: int, nano: bool, x: int, y: int) -> Option<
    u8,
> {
    if x == size - 1 && y == size - 1 {
        Some(0u8)
    } else if x == 0 && y == size - 1 {
        Some(1u8)
    } else if nano {
        if is_nano_finder(x, y) {
            Some(1u8)
        } else {
            None
        }
    } else if x == size / 2 && 0 <= y < size && y >= size - num_colors {
        Some((size - 1 - y) as u8)
    } else if x == size / 2 && 0 <= y < size {
        Some(1u8)
    } else if y == 0 && 0 <= x < size {
        Some(1u8)
    } else {
        None
    }
}

/// The row-major position of a cell.
pub open spec fn rank(size: nat, c: (usize, usize)) -> int {
    c.1 * size + c.0
}

/// The number of data cells among the first `x` cells of row `y` (side at least 3).
pub open spec fn row_prefix(size: int, nano: bool, y: int, x: int) -> int {
    if nano {
        if y == 0 {
            x - (if x < 3 {
                x
            } else {
                3
            })
        } else if y == 1 {
            x - (if x > 1 {
                1int
            } else {
                0
            })
        } else if y == size - 1 {
            x - (if x > 0 {
                1int
            } else {
                0
            }) - (if x > size - 1 {
                1int
            } else {
                0
            })
        } else {
            x
        }
    } else {
        if y == 0 {
            0
        } else {
            x - (if x > size / 2 {
                1int
            } else {
                0
            }) - (if y == size - 1 {
                (if x > 0 {
                    1int
                } else {
                    0
                }) + (if x > size - 1 {
                    1int
                } else {
                    0
                })
            } else {
                0
            })
        }
    }
}

/// The number of data cells in the first `y` rows (side at least 3).
pub open spec fn rows_count(size: int, nano: bool, y: int) -> int {
    if nano {
        if y == 0 {
            0
        } else if y == 1 {
            size - 3
        } else if y <= size - 1 {
            (size - 3) + (size - 1) + (y - 2) * size
        } else {
            (size - 3) + (size - 1) + (size - 3) * size + (size - 2)
        }
    } else {
        if y == 0 {
            0
        } else if y <= size - 1 {
            (y - 1) * (size - 1)
        } else {
            (size - 2) * (size - 1) + size - 3
        }
    }
}

pub proof fn lemma_cell_of_rank(size: nat, x: nat, y: nat)
    requires
        x < size,
    ensures
        (y * size + x) % size == x,
        (y * size + x) / size == y,
{
    vstd::arithmetic::div_mod::lemma_fundamental_div_mod_converse(
        (y * size + x) as int,
        size as int,
        y as int,
        x as int,
    );
}

/// Each cell listed among the data cells is one.
pub proof fn lemma_data_coords_in_grid(size: nat, nano: bool, k: int)
    requires
        size <= usize::MAX,
        0 <= k < data_coords(size, nano).len(),
    ensures
        is_data_cell(size as int, nano, data_coords(size, nano)[k].0 as int, data_coords(size, nano)[k].1 as int),
{
    lemma_data_coords_upto_cells(size, nano, size * size, k);
}

/// Painting the finder keeps the data: no data cell is a cell of the finder pattern, so after
/// `apply_skeletons` every cell in `data_coords` holds what it held before.
pub proof fn lemma_skeleton_spares_data(size: nat, num_colors: int, nano: bool, k: int)
    requires
        size <= usize::MAX,
        0 <= k < data_coords(size, nano).len(),
    ensures
        skeleton_value(
            size as int,
            num_colors,
            nano,
            data_coords(size, nano)[k].0 as int,
            data_coords(size, nano)[k].1 as int,
        ) is None,
{
    lemma_data_coords_in_grid(size, nano, k);
}

proof fn lemma_data_coords_upto_cells(size: nat, nano: bool, n: nat, k: int)
    requires
        size <= usize::MAX,
        0 <= k < data_coords_upto(size, nano, n).len(),
    ensures
        is_data_cell(
            size as int,
            nano,
            data_coords_upto(size, nano, n)[k].0 as int,
            data_coords_upto(size, nano, n)[k].1 as int,
        ),
    decreases n,
{
    if n > 0 && size > 0 {
        let i = (n - 1) as nat;
        let prev = data_coords_upto(size, nano, i);
        if k < prev.len() {
            lemma_data_coords_upto_cells(size, nano, i, k);
        }
    }
}

/// Scanning `n` cells finds at most `n` data cells.
proof fn lemma_data_coords_len(size: nat, nano: bool, n: nat)
    ensures
        data_coords_upto(size, nano, n).len() <= n,
    decreases n,
{
    if n > 0 && size > 0 {
        lemma_data_coords_len(size, nano, (n - 1) as nat);
    }
}

proof fn lemma_first_row_has_no_data(size: nat, n: nat)
    requires
        n <= size,
    ensures
        data_coords_upto(size, false, n) == Seq::<(usize, usize)>::empty(),
    decreases n,
{
    if n > 0 && size > 0 {
        lemma_first_row_has_no_data(size, (n - 1) as nat);
        assert(((n - 1) as nat) / size == 0) by {
            vstd::arithmetic::div_mod::lemma_basic_div((n - 1) as int, size as int);
        }
    }
}

/// A square grid of cell values, `cells[y][x]`.
#[derive(Debug, Clone, PartialEq, Eq)]
pub struct Grid {
    pub size: usize,
    pub cells: Vec<Vec<u8>>,
    pub mode: ColorMode,
}

impl Grid {
    /// `cells` is `size` rows of `size` values.
    pub open spec fn wf(&self) -> bool {
        &&& self.cells@.len() == self.size
        &&& forall|y: int| 0 <= y < self.size ==> #[trigger] self.cells@[y]@.len() == self.size
    }

    /// The value of cell `(x, y)`.
    pub open spec fn cell(&self, x: int, y: int) -> u8 {
        self.cells@[y]@[x]
    }

    /// A grid of zeros.
    pub fn new(size: usize, mode: ColorMode) -> (g: Self)
        ensures
            g.wf(),
            g.size == size,
            g.mode == mode,
            forall|x: int, y: int| 0 <= x < size && 0 <= y < size ==> #[trigger] g.cell(x, y) == 0,
    {
        let mut cells: Vec<Vec<u8>> = Vec::new();
        let mut y: usize = 0;
        while y < size
            invariant
                y <= size,
                cells@.len() == y,
                forall|r: int| 0 <= r < y ==> #[trigger] cells@[r]@.len() == size,
                forall|r: int, x: int| 0 <= r < y && 0 <= x < size ==> #[trigger] cells@[r]@[x] == 0,
            decreases size - y,
        {
            let row: Vec<u8> = vec![0u8; size];
            cells.push(row);
            y += 1;
        }
        Grid { size, cells, mode }
    }

    /// The value of cell `(x, y)`.
    pub fn get(&self, x: usize, y: usize) -> (v: u8)
        requires
            self.wf(),
            x < self.size,
            y < self.size,
        ensures
            v == self.cell(x as int, y as int),
    {
        self.cells[y][x]
    }

    /// Sets cell `(x, y)` to `val`, leaving every other cell as it was.
    pub fn set(&mut self, x: usize, y: usize, val: u8)
        requires
            old(self).wf(),
            x < old(self).size,
            y < old(self).size,
        ensures
            final(self).wf(),
            final(self).size == old(self).size,
            final(self).mode == old(self).mode,
            forall|i: int, j: int|
                #![trigger final(self).cell(i, j)]
                0 <= i < final(self).size && 0 <= j < final(self).size ==> final(self).cell(i, j)
                    == if i == x && j == y {
                    val
                } else {
                    old(self).cell(i, j)
                },
    {
        let ghost old_cells = self.cells@;
        let mut row = self.cells[y].clone();
        row.set(x, val);
        self.cells.set(y, row);
        proof {
            assert forall|r: int| 0 <= r < self.size implies #[trigger] self.cells@[r]@.len()
                == self.size by {
                if r != y {
                    assert(self.cells@[r] == old_cells[r]);
                }
            }
        }
    }

    /// Grids of side at most 7 always use the nano layout; `force_nano` forces it for any side.
    pub fn is_nano(size: usize, force_nano: bool) -> (r: bool)
        ensures
            r == (force_nano || size <= 7),
    {
        force_nano || size <= 7
    }

    /// The checkerboard mask: cells whose coordinates sum to an even number are inverted.
    pub fn mask(x: usize, y: usize) -> (r: bool)
        requires
            x + y <= usize::MAX,
        ensures
            r == ((x + y) % 2 == 0),
    {
        (x + y) % 2 == 0
    }

    /// Bytes a grid of side `size` holds in mode `mode`.
    pub fn capacity_bytes(size: usize, mode: ColorMode, is_nano: bool) -> (r: usize)
        requires
            size * size * 3 <= usize::MAX,
            is_nano ==> size * size >= 6,
            !is_nano ==> size * size >= 2 * size + 1,
        ensures
            r == spec_capacity_bytes(size as nat, mode.spec_bits_per_cell(), is_nano),
    {
        let bpc = mode.bits_per_cell();
        let sq = size * size;
        let cells = if is_nano {
            sq - 6
        } else {
            sq - 2 * size - 1
        };
        assert(cells * bpc <= sq * 3) by (nonlinear_arith)
            requires
                cells <= sq,
                bpc <= 3,
        ;
        let bits = cells * bpc;
        bits / 8
    }

    /// Data bytes that fit in `total_cap` bytes with `ecc_bytes` parity bytes per block.
    pub fn data_capacity_from_total(total_cap: usize, ecc_bytes: usize) -> (r: usize)
        requires
            ecc_bytes <= 255,
        ensures
            r == spec_data_capacity(total_cap as nat, ecc_bytes as nat),
            r <= total_cap,
    {
        if ecc_bytes == 0 {
            return total_cap;
        }
        let chunk_cap: usize = 255;
        let chunk_data = 255 - ecc_bytes;
        let full_chunks = total_cap / chunk_cap;
        let rem = total_cap % chunk_cap;
        let rem_data = if rem >= ecc_bytes {
            rem - ecc_bytes
        } else {
            0
        };
        assert(full_chunks * chunk_data <= full_chunks * 255) by (nonlinear_arith)
            requires
                chunk_data <= 255,
        ;
        assert(full_chunks * 255 <= total_cap) by (nonlinear_arith)
            requires
                full_chunks == total_cap / 255,
        ;
        (full_chunks * chunk_data) + rem_data
    }

    /// The data cells of a grid of side `size`, row by row, left to right: every cell but
    /// the finder, the two bottom corners and, in the standard layout, the spine.
    pub fn data_coordinates(size: usize, is_nano: bool) -> (coords: Vec<(usize, usize)>)
        requires
            size * size <= usize::MAX,
        ensures
            coords@ == data_coords(size as nat, is_nano),
            coords@.len() <= size * size,
            size >= 3 ==> coords@.len() == num_data_cells(size as nat, is_nano),
            forall|j: int|
                0 <= j < coords@.len() ==> is_data_cell(
                    size as int,
                    is_nano,
                    #[trigger] coords@[j].0 as int,
                    coords@[j].1 as int,
                ),
            forall|i: int, j: int|
                0 <= i < j < coords@.len() ==> rank(size as nat, #[trigger] coords@[i]) < rank(
                    size as nat,
                    #[trigger] coords@[j],
                ),
    {
        let mut coords: Vec<(usize, usize)> = Vec::new();
        let ghost sz = size as nat;
        let mut y: usize = if is_nano {
            0
        } else {
            1
        };
        if size == 0 {
            return coords;
        }
        proof {
            lemma_data_coords_len(sz, is_nano, sz * sz);
            if !is_nano {
                lemma_first_row_has_no_data(sz, sz);
                assert(1 * sz == sz);
            }
        }
        let spine_x = size / 2;
        while y < size
            invariant
                sz == size,
                size >= 1,
                size * size <= usize::MAX,
                spine_x == size / 2,
                y <= size,
                !is_nano ==> y >= 1,
                coords@ == data_coords_upto(sz, is_nano, (y * sz) as nat),
                size >= 3 ==> coords@.len() == rows_count(size as int, is_nano, y as int),
                forall|j: int|
                    0 <= j < coords@.len() ==> is_data_cell(
                        size as int,
                        is_nano,
                        #[trigger] coords@[j].0 as int,
                        coords@[j].1 as int,
                    ),
                forall|j: int| 0 <= j < coords@.len() ==> rank(sz, #[trigger] coords@[j]) < y * sz,
                forall|i: int, j: int|
                    0 <= i < j < coords@.len() ==> rank(sz, #[trigger] coords@[i]) < rank(
                        sz,
                        #[trigger] coords@[j],
                    ),
            decreases size - y,
        {
            let mut x: usize = 0;
            proof {
                assert(y * sz + 0 == y * sz);
            }
            while x < size
                invariant
                    sz == size,
                    size >= 1,
                    spine_x == size / 2,
                    y < size,
                    x <= size,
                    !is_nano ==> y >= 1,
                    coords@ == data_coords_upto(sz, is_nano, (y * sz + x) as nat),
                    size >= 3 ==> coords@.len() == rows_count(size as int, is_nano, y as int)
                        + row_prefix(size as int, is_nano, y as int, x as int),
                    forall|j: int|
                        0 <= j < coords@.len() ==> is_data_cell(
                            size as int,
                            is_nano,
                            #[trigger] coords@[j].0 as int,
                            coords@[j].1 as int,
                        ),
                    forall|j: int| 0 <= j < coords@.len() ==> rank(sz, #[trigger] coords@[j]) < y
                        * sz + x,
                    forall|i: int, j: int|
                        0 <= i < j < coords@.len() ==> rank(sz, #[trigger] coords@[i]) < rank(
                            sz,
                            #[trigger] coords@[j],
                        ),
                decreases size - x,
            {
                proof {
                    lemma_cell_of_rank(sz, x as nat, y as nat);
                }
                let skip = if is_nano {
                    (y == 0 && x <= 2) || (x == 1 && y == 1) || (y == size - 1 && (x == 0 || x
                        == size - 1))
                } else {
                    x == spine_x || (y == size - 1 && (x == 0 || x == size - 1))
                };
                proof {
                    assert(skip == !is_data_cell(size as int, is_nano, x as int, y as int));
                }
                if !skip {
                    coords.push((x, y));
                    proof {
                        assert(rank(sz, (x, y)) == y * sz + x);
                    }
                }
                x += 1;
            }
            proof {
                assert(y * sz + sz == (y + 1) * sz) by (nonlinear_arith);
                if size >= 3 {
                    let s = size as int;
                    let yy = y as int;
                    if is_nano {
                        if yy >= 2 && yy < s - 1 {
                            assert((yy - 2) * s + s == (yy + 1 - 2) * s) by (nonlinear_arith);
                        } else if yy == 1 {
                            assert((yy + 1 - 2) * s == 0) by (nonlinear_arith)
                                requires
                                    yy == 1,
                            ;
                        } else if yy == s - 1 && yy >= 2 {
                            assert((yy - 2) * s == (s - 3) * s) by (nonlinear_arith)
                                requires
                                    yy == s - 1,
                            ;
                        }
                        assert(rows_count(s, true, yy + 1) == rows_count(s, true, yy) + row_prefix(
                            s,
                            true,
                            yy,
                            s,
                        ));
                    } else {
                        if yy >= 1 && yy < s - 1 {
                            assert((yy - 1) * (s - 1) + (s - 1) == (yy + 1 - 1) * (s - 1))
                                by (nonlinear_arith);
                        } else if yy == s - 1 {
                            assert((yy - 1) * (s - 1) == (s - 2) * (s - 1)) by (nonlinear_arith)
                                requires
                                    yy == s - 1,
                            ;
                        }
                        assert(rows_count(s, false, yy + 1) == rows_count(s, false, yy)
                            + row_prefix(s, false, yy, s));
                    }
                }
            }
            y += 1;
        }
        proof {
            if size >= 3 {
                let s = size as int;
                if is_nano {
                    assert((s - 3) + (s - 1) + (s - 3) * s + (s - 2) == s * s - 6)
                        by (nonlinear_arith);
                } else {
                    assert((s - 2) * (s - 1) + s - 3 == s * s - 2 * s - 1) by (nonlinear_arith);
                }
            }
        }
        coords
    }

    /// Paints the finder pattern. Nano: the T of four cells at the top left. Standard: the
    /// roof (top row), the spine (middle column) and, at the foot of the spine, one cell of
    /// each colour for calibration. Both: a dark bottom-left and a light bottom-right corner.
    pub fn apply_skeletons(&mut self, is_nano: bool)
        requires
            old(self).wf(),
            is_nano ==> old(self).size >= 3,
            old(self).size >= 1,
        ensures
            final(self).wf(),
            final(self).size == old(self).size,
            final(self).mode == old(self).mode,
            forall|x: int, y: int|
                0 <= x < final(self).size && 0 <= y < final(self).size ==> #[trigger] final(self).cell(x, y) == match skeleton_value(
                    old(self).size as int,
                    old(self).mode.spec_num_colors() as int,
                    is_nano,
                    x,
                    y,
                ) {
                    Some(v) => v,
                    None => old(self).cell(x, y),
                },
    {
        let ghost old_self = *self;
        let size = self.size;
        if is_nano {
            self.set(0, 0, 1);
            self.set(1, 0, 1);
            self.set(2, 0, 1);
            self.set(1, 1, 1);
            self.set(0, size - 1, 1);
            self.set(size - 1, size - 1, 0);
        } else {
            let mut x: usize = 0;
            while x < size
                invariant
                    self.wf(),
                    self.size == size,
                    self.mode == old_self.mode,
                    x <= size,
                    forall|i: int, j: int|
                        0 <= i < size && 0 <= j < size ==> #[trigger] self.cell(i, j) == if j == 0
                            && i < x {
                            1u8
                        } else {
                            old_self.cell(i, j)
                        },
                decreases size - x,
            {
                self.set(x, 0, 1);
                x += 1;
            }
            let spine_x = size / 2;
            let mut y: usize = 0;
            while y < size
                invariant
                    self.wf(),
                    self.size == size,
                    self.mode == old_self.mode,
                    spine_x == size / 2,
                    y <= size,
                    forall|i: int, j: int|
                        0 <= i < size && 0 <= j < size ==> #[trigger] self.cell(i, j) == if i
                            == spine_x && j < y {
                            1u8
                        } else if j == 0 {
                            1u8
                        } else {
                            old_self.cell(i, j)
                        },
                decreases size - y,
            {
                self.set(spine_x, y, 1);
                y += 1;
            }
            let nc = self.mode.num_colors();
            let mut c: usize = 0;
            while c < nc
                invariant
                    self.wf(),
                    self.size == size,
                    size >= 1,
                    self.mode == old_self.mode,
                    nc == old_self.mode.spec_num_colors(),
                    nc <= 8,
                    spine_x == size / 2,
                    c <= nc,
                    forall|i: int, j: int|
                        0 <= i < size && 0 <= j < size ==> #[trigger] self.cell(i, j) == if i
                            == spine_x && j >= size - c {
                            (size - 1 - j) as u8
                        } else if i == spine_x {
                            1u8
                        } else if j == 0 {
                            1u8
                        } else {
                            old_self.cell(i, j)
                        },
                decreases nc - c,
            {
                if size >= 1 + c {
                    self.set(spine_x, size - 1 - c, c as u8);
                }
                c += 1;
            }
            self.set(0, size - 1, 1);
            self.set(size - 1, size - 1, 0);
        }
    }

    /// The value of cell `(x, y)` as a colour: its palette colour, or black past the palette.
    pub fn get_rgb(&self, x: usize, y: usize) -> (c: Rgb)
        requires
            self.wf(),
            x < self.size,
            y < self.size,
        ensures
            c == if self.cell(x as int, y as int) < 8 {
                spec_palette(self.cell(x as int, y as int) as int)
            } else {
                Rgb(0, 0, 0)
            },
    {
        let val = self.get(x, y) as usize;
        if val < 8 {
            Rgb::palette(val)
        } else {
            Rgb(0, 0, 0)
        }
    }
}

} // verus!
