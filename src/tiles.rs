use vstd::prelude::*;

verus! {

/// Row-major index of cell `(cx, cy)` in a grid `width` cells wide.
pub open spec fn cell_index(width: int, cx: int, cy: int) -> int {
    cy * width + cx
}

/// Distinct cells of a grid have distinct row-major indices, and each index
/// lies before the grid's end.
proof fn lemma_cell_index(width: int, height: int, cx: int, cy: int, dx: int, dy: int)
    requires
        0 <= cx < width,
        0 <= dx < width,
        0 <= cy < height,
        0 <= dy < height,
    ensures
        0 <= cell_index(width, cx, cy) < width * height,
        cell_index(width, cx, cy) == cell_index(width, dx, dy) ==> cx == dx && cy == dy,
{
    assert(0 <= cy * width + cx < width * height) by (nonlinear_arith)
        requires
            0 <= cx < width,
            0 <= cy < height,
    ;
    if cy < dy {
        assert(cy * width + cx < dy * width + dx) by (nonlinear_arith)
            requires
                0 <= cx < width,
                0 <= dx,
                cy < dy,
        ;
    } else if dy < cy {
        assert(dy * width + dx < cy * width + cx) by (nonlinear_arith)
            requires
                0 <= dx < width,
                0 <= cx,
                dy < cy,
        ;
    }
}

/// Whether cell `(cx, cy)` lies in the `w` by `h` rectangle whose lowest
/// corner is `(x, y)`.
pub open spec fn in_rect(x: int, y: int, w: int, h: int, cx: int, cy: int) -> bool {
    x <= cx < x + w && y <= cy < y + h
}

/// The byte that row-major `data`, `w` bytes a row, holds for cell `(cx, cy)`
/// when its first byte is placed at `(x, y)`.
pub open spec fn patch_byte(data: Seq<u8>, x: int, y: int, w: int, cx: int, cy: int) -> u8 {
    data[cell_index(w, cx - x, cy - y)]
}

/// Whether cell `a` comes before cell `b` in row-major order; a cell is
/// written `(column, row)`.
pub open spec fn row_major_before(a: (u32, u32), b: (u32, u32)) -> bool {
    a.1 < b.1 || (a.1 == b.1 && a.0 < b.0)
}

/// Whether `(cx, cy)` lies in the inclusive cell range `(x0, y0)..=(x1, y1)`.
pub open spec fn in_cell_range(x0: int, y0: int, x1: int, y1: int, cx: int, cy: int) -> bool {
    x0 <= cx <= x1 && y0 <= cy <= y1
}

/// The solid/empty cells of one tilemap: `width * height` bytes in row-major
/// order, where a nonzero byte is solid.
pub struct TileGrid {
    width: u32,
    height: u32,
    solids: Vec<u8>,
}

impl TileGrid {
    /// The grid holds one byte per cell.
    pub closed spec fn wf(&self) -> bool {
        self.solids@.len() == self.width * self.height
    }

    pub closed spec fn width_spec(&self) -> int {
        self.width as int
    }

    pub closed spec fn height_spec(&self) -> int {
        self.height as int
    }

    /// The byte stored for cell `(cx, cy)`, for a cell inside the grid.
    pub closed spec fn byte_at(&self, cx: int, cy: int) -> u8 {
        self.solids@[cell_index(self.width as int, cx, cy)]
    }

    /// Whether `(cx, cy)` is a cell of the grid.
    pub open spec fn in_bounds(&self, cx: int, cy: int) -> bool {
        0 <= cx < self.width_spec() && 0 <= cy < self.height_spec()
    }

    /// Whether `(cx, cy)` is a solid cell of the grid.
    pub open spec fn solid(&self, cx: int, cy: int) -> bool {
        self.in_bounds(cx, cy) && self.byte_at(cx, cy) != 0
    }

    /// A grid of `width` by `height` cells whose bytes are `solids`, row by row.
    pub fn new(width: u32, height: u32, solids: &[u8]) -> (r: Self)
        requires
            solids@.len() == width * height,
        ensures
            r.wf(),
            r.width_spec() == width,
            r.height_spec() == height,
            forall|cx: int, cy: int|
                r.in_bounds(cx, cy) ==> #[trigger] r.byte_at(cx, cy) == solids@[cell_index(
                    width as int,
                    cx,
                    cy,
                )],
    {
        TileGrid { width, height, solids: vstd::slice::slice_to_vec(solids) }
    }

    pub fn width(&self) -> (r: u32)
        ensures
            r == self.width_spec(),
    {
        self.width
    }

    pub fn height(&self) -> (r: u32)
        ensures
            r == self.height_spec(),
    {
        self.height
    }

    /// The row-major index of cell `(ix, iy)`, or `None` outside the grid.
    pub fn tile_at(&self, ix: i32, iy: i32) -> (r: Option<usize>)
        requires
            self.wf(),
        ensures
            r.is_some() == self.in_bounds(ix as int, iy as int),
            r matches Some(i) ==> i == cell_index(self.width_spec(), ix as int, iy as int),
    {
        if ix < 0 || iy < 0 {
            return None;
        }
        let ux = ix as u32;
        let uy = iy as u32;
        let n = self.solids.len();
        if ux >= self.width || uy >= self.height {
            return None;
        }
        proof {
            lemma_cell_index(self.width as int, self.height as int, ux as int, uy as int, 0, 0);
            assert(uy * self.width <= uy * self.width + ux);
            assert(uy * self.width + ux < n);
        }
        Some(uy as usize * self.width as usize + ux as usize)
    }

    /// Whether cell `(ix, iy)` lies inside the grid and is solid.
    pub fn is_solid(&self, ix: i32, iy: i32) -> (r: bool)
        requires
            self.wf(),
        ensures
            r == self.solid(ix as int, iy as int),
    {
        match self.tile_at(ix, iy) {
            Some(idx) => {
                proof {
                    lemma_cell_index(self.width as int, self.height as int, ix as int, iy as int, 0, 0);
                }
                self.solids[idx] != 0
            },
            None => false,
        }
    }

    /// Overwrites the cells of the `w` by `h` rectangle at `(x, y)` with
    /// `data`, row by row; the parts of the rectangle outside the grid are
    /// dropped.
    pub fn update_tiles(&mut self, x: u32, y: u32, w: u32, h: u32, data: &[u8])
        requires
            old(self).wf(),
            data@.len() == w * h,
        ensures
            final(self).wf(),
            final(self).width_spec() == old(self).width_spec(),
            final(self).height_spec() == old(self).height_spec(),
            forall|cx: int, cy: int|
                final(self).in_bounds(cx, cy) ==> #[trigger] final(self).byte_at(cx, cy) == (if in_rect(
                    x as int,
                    y as int,
                    w as int,
                    h as int,
                    cx,
                    cy,
                ) {
                    patch_byte(data@, x as int, y as int, w as int, cx, cy)
                } else {
                    old(self).byte_at(cx, cy)
                }),
    {
        let rows: u32 = if y >= self.height {
            0
        } else if h < self.height - y {
            h
        } else {
            self.height - y
        };
        let cols: u32 = if x >= self.width {
            0
        } else if w < self.width - x {
            w
        } else {
            self.width - x
        };
        let ghost g_width = self.width as int;
        let ghost g_height = self.height as int;
        let mut row: u32 = 0;
        while row < rows
            invariant
                self.wf(),
                self.width == g_width,
                self.height == g_height,
                g_width == old(self).width_spec(),
                g_height == old(self).height_spec(),
                data@.len() == w * h,
                rows <= h,
                rows == 0 || y + rows <= g_height,
                cols <= w,
                cols == 0 || x + cols <= g_width,
                x + w > g_width ==> x + cols >= g_width,
                y + h > g_height ==> y + rows >= g_height,
                row <= rows,
                forall|cx: int, cy: int|
                    self.in_bounds(cx, cy) ==> #[trigger] self.byte_at(cx, cy) == (if in_rect(
                        x as int,
                        y as int,
                        cols as int,
                        row as int,
                        cx,
                        cy,
                    ) {
                        patch_byte(data@, x as int, y as int, w as int, cx, cy)
                    } else {
                        old(self).byte_at(cx, cy)
                    }),
            decreases rows - row,
        {
            let dy: u32 = y + row;
            let mut col: u32 = 0;
            while col < cols
                invariant
                    self.wf(),
                    self.width == g_width,
                    self.height == g_height,
                    data@.len() == w * h,
                    rows <= h,
                    rows == 0 || y + rows <= g_height,
                    cols <= w,
                    cols == 0 || x + cols <= g_width,
                    row < rows,
                    dy == y + row,
                    col <= cols,
                    forall|cx: int, cy: int|
                        self.in_bounds(cx, cy) ==> #[trigger] self.byte_at(cx, cy) == (if in_rect(
                            x as int,
                            y as int,
                            cols as int,
                            row as int,
                            cx,
                            cy,
                        ) || (cy == dy && x <= cx < x + col) {
                            patch_byte(data@, x as int, y as int, w as int, cx, cy)
                        } else {
                            old(self).byte_at(cx, cy)
                        }),
                decreases cols - col,
            {
                let dx: u32 = x + col;
                let n: usize = self.solids.len();
                let m: usize = data.len();
                proof {
                    lemma_cell_index(g_width, g_height, dx as int, dy as int, 0, 0);
                    lemma_cell_index(w as int, h as int, col as int, row as int, 0, 0);
                    assert(dy * g_width <= dy * g_width + dx);
                    assert(dy * g_width + dx < n);
                    assert(row * w <= row * w + col);
                    assert(row * w + col < m);
                }
                let dst: usize = dy as usize * self.width as usize + dx as usize;
                let src: usize = row as usize * w as usize + col as usize;
                let ghost prev = *self;
                self.solids.set(dst, data[src]);
                proof {
                    assert forall|cx: int, cy: int| self.in_bounds(cx, cy) implies
                        #[trigger] self.byte_at(cx, cy) == (if cx == dx && cy == dy {
                            data@[src as int]
                        } else {
                            prev.byte_at(cx, cy)
                        }) by {
                        lemma_cell_index(g_width, g_height, cx, cy, dx as int, dy as int);
                    }
                }
                col = col + 1;
            }
            row = row + 1;
        }
    }

    /// The solid cells of the grid inside the inclusive cell range
    /// `(x0, y0)..=(x1, y1)`, in row-major order.
    pub fn solid_cells_in(&self, x0: i32, y0: i32, x1: i32, y1: i32) -> (r: Vec<(u32, u32)>)
        requires
            self.wf(),
        ensures
            forall|k: int|
                0 <= k < r@.len() ==> {
                    let c = #[trigger] r@[k];
                    &&& self.solid(c.0 as int, c.1 as int)
                    &&& in_cell_range(x0 as int, y0 as int, x1 as int, y1 as int, c.0 as int, c.1 as int)
                },
            forall|cx: int, cy: int|
                self.solid(cx, cy) && in_cell_range(x0 as int, y0 as int, x1 as int, y1 as int, cx, cy)
                    ==> #[trigger] r@.contains((cx as u32, cy as u32)),
            forall|i: int, j: int|
                0 <= i < j < r@.len() ==> row_major_before(#[trigger] r@[i], #[trigger] r@[j]),
    {
        let y_lo: i64 = if y0 < 0 { 0 } else { y0 as i64 };
        let y_hi: i64 = if (y1 as i64) < self.height as i64 { y1 as i64 + 1 } else { self.height as i64 };
        let x_lo: i64 = if x0 < 0 { 0 } else { x0 as i64 };
        let x_hi: i64 = if (x1 as i64) < self.width as i64 { x1 as i64 + 1 } else { self.width as i64 };
        let mut out: Vec<(u32, u32)> = Vec::new();
        let mut cy: i64 = y_lo;
        while cy < y_hi
            invariant
                self.wf(),
                0 <= y_lo <= cy,
                cy <= y_hi || cy == y_lo,
                y_hi <= self.height_spec(),
                y_lo == (if y0 < 0 { 0 } else { y0 as int }),
                y_hi == (if y1 < self.height_spec() { y1 + 1 } else { self.height_spec() }),
                0 <= x_lo,
                x_hi <= self.width_spec(),
                x_lo == (if x0 < 0 { 0 } else { x0 as int }),
                x_hi == (if x1 < self.width_spec() { x1 + 1 } else { self.width_spec() }),
                forall|k: int|
                    0 <= k < out@.len() ==> {
                        let c = #[trigger] out@[k];
                        &&& self.solid(c.0 as int, c.1 as int)
                        &&& in_cell_range(x0 as int, y0 as int, x1 as int, y1 as int, c.0 as int, c.1 as int)
                        &&& c.1 < cy
                    },
                forall|ex: int, ey: int|
                    self.solid(ex, ey) && in_cell_range(x0 as int, y0 as int, x1 as int, y1 as int, ex, ey)
                        && ey < cy ==> #[trigger] out@.contains((ex as u32, ey as u32)),
                forall|i: int, j: int|
                    0 <= i < j < out@.len() ==> row_major_before(#[trigger] out@[i], #[trigger] out@[j]),
            decreases y_hi - cy,
        {
            let mut cx: i64 = x_lo;
            while cx < x_hi
                invariant
                    self.wf(),
                    0 <= y_lo <= cy < y_hi,
                    y_hi <= self.height_spec(),
                    y_lo == (if y0 < 0 { 0 } else { y0 as int }),
                    y_hi == (if y1 < self.height_spec() { y1 + 1 } else { self.height_spec() }),
                    0 <= x_lo <= cx,
                    cx <= x_hi || cx == x_lo,
                    x_hi <= self.width_spec(),
                    x_lo == (if x0 < 0 { 0 } else { x0 as int }),
                    x_hi == (if x1 < self.width_spec() { x1 + 1 } else { self.width_spec() }),
                    forall|k: int|
                        0 <= k < out@.len() ==> {
                            let c = #[trigger] out@[k];
                            &&& self.solid(c.0 as int, c.1 as int)
                            &&& in_cell_range(x0 as int, y0 as int, x1 as int, y1 as int, c.0 as int, c.1 as int)
                            &&& (c.1 < cy || (c.1 == cy && c.0 < cx))
                        },
                    forall|ex: int, ey: int|
                        self.solid(ex, ey) && in_cell_range(x0 as int, y0 as int, x1 as int, y1 as int, ex, ey)
                            && (ey < cy || (ey == cy && ex < cx)) ==> #[trigger] out@.contains(
                            (ex as u32, ey as u32),
                        ),
                    forall|i: int, j: int|
                        0 <= i < j < out@.len() ==> row_major_before(#[trigger] out@[i], #[trigger] out@[j]),
                decreases x_hi - cx,
            {
                if self.is_solid(cx as i32, cy as i32) {
                    let ghost prev = out@;
                    out.push((cx as u32, cy as u32));
                    proof {
                        assert forall|ex: int, ey: int|
                            self.solid(ex, ey) && in_cell_range(x0 as int, y0 as int, x1 as int, y1 as int, ex, ey)
                                && (ey < cy || (ey == cy && ex < cx + 1)) implies #[trigger] out@.contains(
                                (ex as u32, ey as u32),
                            ) by {
                            if ey < cy || (ey == cy && ex < cx) {
                                assert(prev.contains((ex as u32, ey as u32)));
                                let k = choose|k: int| 0 <= k < prev.len() && prev[k] == (ex as u32, ey as u32);
                                assert(out@[k] == (ex as u32, ey as u32));
                            } else {
                                assert(out@[prev.len() as int] == (ex as u32, ey as u32));
                            }
                        }
                    }
                }
                cx = cx + 1;
            }
            cy = cy + 1;
        }
        out
    }
}

} // verus!
