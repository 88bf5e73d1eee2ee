use vstd::prelude::*;

verus! {

/// A uniform partition of an image into a fixed number of rows and columns.
///
/// Cell sides come from truncating integer division of the image dimensions,
/// so remainder pixels past the last full cell in each axis are never covered
/// by any cell; a zero division count gives cells of zero size on that axis.
#[derive(Debug, Clone)]
pub struct Grid {
    width: u32,
    height: u32,
    cell_width: u32,
    cell_height: u32,
}

impl Grid {
    /// Number of columns.
    pub closed spec fn spec_width(&self) -> u32 {
        self.width
    }

    /// Number of rows.
    pub closed spec fn spec_height(&self) -> u32 {
        self.height
    }

    pub closed spec fn spec_cell_width(&self) -> u32 {
        self.cell_width
    }

    pub closed spec fn spec_cell_height(&self) -> u32 {
        self.cell_height
    }

    /// Every cell origin fits in 32 bits: the column count times the cell
    /// width is bounded by the image width the grid was built from, and
    /// likewise for rows.
    pub closed spec fn wf(&self) -> bool {
        self.width * self.cell_width <= u32::MAX && self.height * self.cell_height <= u32::MAX
    }

    pub fn new(image_width: u32, image_height: u32, grid_width: u32, grid_height: u32) -> (g:
        Grid)
        ensures
            g.wf(),
            g.spec_width() == grid_width,
            g.spec_height() == grid_height,
            g.spec_cell_width() == (if grid_width > 0 {
                image_width as int / grid_width as int
            } else {
                0
            }),
            g.spec_cell_height() == (if grid_height > 0 {
                image_height as int / grid_height as int
            } else {
                0
            }),
    {
        let cell_width: u32 = if grid_width > 0 {
            image_width / grid_width
        } else {
            0
        };
        let cell_height: u32 = if grid_height > 0 {
            image_height / grid_height
        } else {
            0
        };
        proof {
            if grid_width > 0 {
                assert(grid_width * (image_width as int / grid_width as int) <= image_width)
                    by (nonlinear_arith)
                    requires
                        grid_width > 0,
                ;
            } else {
                assert(grid_width * cell_width == 0) by (nonlinear_arith)
                    requires
                        grid_width == 0,
                ;
            }
            if grid_height > 0 {
                assert(grid_height * (image_height as int / grid_height as int) <= image_height)
                    by (nonlinear_arith)
                    requires
                        grid_height > 0,
                ;
            } else {
                assert(grid_height * cell_height == 0) by (nonlinear_arith)
                    requires
                        grid_height == 0,
                ;
            }
        }
        Grid { width: grid_width, height: grid_height, cell_width, cell_height }
    }

    /// The rectangle of cell `(row, col)`: origin at
    /// `(col * cell_width, row * cell_height)`, extent one cell.
    pub fn get_cell_bounds(&self, row: u32, col: u32) -> (bounds: (u32, u32, u32, u32))
        requires
            self.wf(),
            row < self.spec_height(),
            col < self.spec_width(),
        ensures
            bounds.0 == col * self.spec_cell_width(),
            bounds.1 == row * self.spec_cell_height(),
            bounds.2 == self.spec_cell_width(),
            bounds.3 == self.spec_cell_height(),
    {
        proof {
            assert(col * self.cell_width <= self.width * self.cell_width) by (nonlinear_arith)
                requires
                    0 <= col < self.width,
                    self.cell_width >= 0,
            ;
            assert(row * self.cell_height <= self.height * self.cell_height) by (nonlinear_arith)
                requires
                    0 <= row < self.height,
                    self.cell_height >= 0,
            ;
        }
        let x = col * self.cell_width;
        let y = row * self.cell_height;
        (x, y, self.cell_width, self.cell_height)
    }

    /// Total number of cells.
    pub fn cell_count(&self) -> (n: u32)
        requires
            self.spec_width() * self.spec_height() <= u32::MAX,
        ensures
            n == self.spec_width() * self.spec_height(),
    {
        self.width * self.height
    }

    /// All `(row, col)` pairs in row-major order.
    pub fn iter_cells(&self) -> (cells: Vec<(u32, u32)>)
        requires
            self.spec_width() * self.spec_height() <= u32::MAX,
        ensures
            cells@.len() == self.spec_height() * self.spec_width(),
            forall|k: int|
                0 <= k < cells@.len() ==> #[trigger] cells@[k] == (
                    ((k / self.spec_width() as int) as u32),
                    ((k % self.spec_width() as int) as u32),
                ),
    {
        let w = self.width;
        let h = self.height;
        let mut cells: Vec<(u32, u32)> = Vec::new();
        proof {
            assert(h * w == w * h) by (nonlinear_arith);
        }
        let mut row: u32 = 0;
        while row < h
            invariant
                row <= h,
                w == self.spec_width(),
                h == self.spec_height(),
                w * h <= u32::MAX,
                cells@.len() == row * w,
                forall|k: int|
                    0 <= k < cells@.len() ==> #[trigger] cells@[k] == (
                        ((k / w as int) as u32),
                        ((k % w as int) as u32),
                    ),
            decreases h - row,
        {
            let mut col: u32 = 0;
            while col < w
                invariant
                    col <= w,
                    row < h,
                    w == self.spec_width(),
                    h == self.spec_height(),
                    w * h <= u32::MAX,
                    cells@.len() == row * w + col,
                    forall|k: int|
                        0 <= k < cells@.len() ==> #[trigger] cells@[k] == (
                            ((k / w as int) as u32),
                            ((k % w as int) as u32),
                        ),
                decreases w - col,
            {
                proof {
                    let k = row * w + col;
                    assert(k < w * h && (row + 1) * w <= w * h) by (nonlinear_arith)
                        requires
                            0 <= row < h,
                            0 <= col < w,
                            k == row * w + col,
                    ;
                    vstd::arithmetic::div_mod::lemma_fundamental_div_mod_converse(
                        k as int,
                        w as int,
                        row as int,
                        col as int,
                    );
                }
                cells.push((row, col));
                col = col + 1;
            }
            proof {
                assert(row * w + w == (row + 1) * w) by (nonlinear_arith);
            }
            row = row + 1;
        }
        proof {
            assert(h * w == w * h) by (nonlinear_arith);
        }
        cells
    }

    pub fn width(&self) -> (w: u32)
        ensures
            w == self.spec_width(),
    {
        self.width
    }

    pub fn height(&self) -> (h: u32)
        ensures
            h == self.spec_height(),
    {
        self.height
    }

    pub fn cell_width(&self) -> (w: u32)
        ensures
            w == self.spec_cell_width(),
    {
        self.cell_width
    }

    pub fn cell_height(&self) -> (h: u32)
        ensures
            h == self.spec_cell_height(),
    {
        self.cell_height
    }
}

} // verus!
