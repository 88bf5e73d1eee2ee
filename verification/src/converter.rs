use vstd::prelude::*;

use crate::buffer::PixelBuffer;
use crate::color::ExtractorChoice;
use crate::color::Rgba;
use crate::grid::Grid;
use crate::quadtree::spec_tree_models;
use crate::quadtree::QuadNode;
use crate::quadtree::QuadTree;
use rayon::iter::IntoParallelRefIterator;
use rayon::iter::ParallelIterator;

verus! {

/// A flat cell: a rectangle and the color painted over it.
pub type Cell = (u32, u32, u32, u32, Rgba);

/// Whether the cell's rectangle contains the point.
pub open spec fn spec_cell_covers(c: Cell, x: int, y: int) -> bool {
    c.0 <= x < c.0 + c.2 && c.1 <= y < c.1 + c.3
}

/// The color a cell list leaves at a point: the color of the last cell
/// covering it, or fully transparent black where no cell does.
pub open spec fn spec_cells_color_at(cells: Seq<Cell>, x: int, y: int) -> Rgba
    decreases cells.len(),
{
    if cells.len() == 0 {
        Rgba { r: 0, g: 0, b: 0, a: 0 }
    } else if spec_cell_covers(cells.last(), x, y) {
        cells.last().4
    } else {
        spec_cells_color_at(cells.drop_last(), x, y)
    }
}

/// Paints `color` over the part of the rectangle that lies inside the
/// bitmap, leaving every other sample as it was.
fn paint_rect(buf: &mut PixelBuffer, x0: u32, y0: u32, w: u32, h: u32, color: Rgba)
    requires
        old(buf).wf(),
    ensures
        final(buf).wf(),
        final(buf).spec_width() == old(buf).spec_width(),
        final(buf).spec_height() == old(buf).spec_height(),
        forall|px: int, py: int|
            0 <= px < old(buf).spec_width() && 0 <= py < old(buf).spec_height()
                ==> final(buf).pixel_at(px, py) == (if x0 <= px < x0 + w && y0 <= py < y0 + h {
                color
            } else {
                old(buf).pixel_at(px, py)
            }),
{
    let width = buf.width();
    let height = buf.height();
    let ghost w0 = buf.spec_width() as int;
    let ghost h0 = buf.spec_height() as int;
    let mut dy: u32 = 0;
    while dy < h
        invariant
            dy <= h,
            buf.wf(),
            buf.spec_width() == w0,
            buf.spec_height() == h0,
            width == w0,
            height == h0,
            forall|px: int, py: int|
                0 <= px < w0 && 0 <= py < h0 ==> buf.pixel_at(px, py) == (if x0 <= px < x0 + w
                    && y0 <= py < y0 + dy {
                    color
                } else {
                    old(buf).pixel_at(px, py)
                }),
        decreases h - dy,
    {
        let py: u64 = y0 as u64 + dy as u64;
        if py < height as u64 {
            let ghost before_row = *buf;
            let mut dx: u32 = 0;
            while dx < w
                invariant
                    dx <= w,
                    buf.wf(),
                    buf.spec_width() == w0,
                    buf.spec_height() == h0,
                    width == w0,
                    height == h0,
                    py == y0 as int + dy as int,
                    py < h0,
                    forall|px2: int, py2: int|
                        0 <= px2 < w0 && 0 <= py2 < h0 && !(py2 == py && x0 <= px2 < x0 + dx)
                            ==> buf.pixel_at(px2, py2) == before_row.pixel_at(px2, py2),
                    forall|px2: int|
                        0 <= px2 < w0 && x0 <= px2 < x0 + dx ==> buf.pixel_at(px2, py as int)
                            == color,
                decreases w - dx,
            {
                let px: u64 = x0 as u64 + dx as u64;
                if px < width as u64 {
                    buf.set_pixel(px as u32, py as u32, color);
                }
                dx = dx + 1;
            }
            proof {
                assert forall|px2: int, py2: int|
                    0 <= px2 < w0 && 0 <= py2 < h0 implies buf.pixel_at(px2, py2) == (if x0
                    <= px2 < x0 + w && y0 <= py2 < y0 + (dy + 1) {
                    color
                } else {
                    old(buf).pixel_at(px2, py2)
                }) by {
                    if py2 == py && x0 <= px2 < x0 + w {
                    } else {
                        assert(buf.pixel_at(px2, py2) == before_row.pixel_at(px2, py2));
                    }
                }
            }
        } else {
            proof {
                assert forall|px2: int, py2: int|
                    0 <= px2 < w0 && 0 <= py2 < h0 implies buf.pixel_at(px2, py2) == (if x0
                    <= px2 < x0 + w && y0 <= py2 < y0 + (dy + 1) {
                    color
                } else {
                    old(buf).pixel_at(px2, py2)
                }) by {
                    assert(py2 < h0 <= py);
                }
            }
        }
        dy = dy + 1;
    }
}

/// Paints the cells of `cells` in order onto a fresh transparent bitmap of
/// the given dimensions.
pub fn render_cells_to_buffer(width: u32, height: u32, cells: &Vec<Cell>) -> (out: PixelBuffer)
    requires
        width * height * 4 <= usize::MAX,
    ensures
        out.wf(),
        out.spec_width() == width,
        out.spec_height() == height,
        forall|px: int, py: int|
            0 <= px < width && 0 <= py < height ==> out.pixel_at(px, py) == spec_cells_color_at(
                cells@,
                px,
                py,
            ),
{
    let mut out = PixelBuffer::zeroed(width, height);
    proof {
        assert forall|px: int, py: int|
            0 <= px < width && 0 <= py < height implies out.pixel_at(px, py)
            == spec_cells_color_at(cells@.take(0), px, py) by {
            out.lemma_pixel_base_in_bounds(px, py);
            assert(spec_cells_color_at(cells@.take(0), px, py) == (Rgba { r: 0, g: 0, b: 0, a: 0 }));
        }
    }
    let n = cells.len();
    let mut k: usize = 0;
    while k < n
        invariant
            k <= n,
            n == cells@.len(),
            out.wf(),
            out.spec_width() == width,
            out.spec_height() == height,
            forall|px: int, py: int|
                0 <= px < width && 0 <= py < height ==> out.pixel_at(px, py)
                    == spec_cells_color_at(cells@.take(k as int), px, py),
        decreases n - k,
    {
        let ghost before = out;
        let cell = cells[k];
        paint_rect(&mut out, cell.0, cell.1, cell.2, cell.3, cell.4);
        proof {
            assert(cells@.take(k + 1).drop_last() =~= cells@.take(k as int));
            assert(cells@.take(k + 1).last() == cells@[k as int]);
            assert forall|px: int, py: int|
                0 <= px < width && 0 <= py < height implies out.pixel_at(px, py)
                == spec_cells_color_at(cells@.take(k + 1), px, py) by {
                if spec_cell_covers(cells@[k as int], px, py) {
                } else {
                    assert(out.pixel_at(px, py) == before.pixel_at(px, py));
                }
            }
        }
        k = k + 1;
    }
    proof {
        assert(cells@.take(n as int) =~= cells@);
    }
    out
}

/// Depth and variance threshold the conversion path rebuilds its tree with,
/// whatever the tree at hand was built from.
pub const REBUILD_MAX_DEPTH: u32 = 4;

/// Fifty squared color units, at the variance scale.
pub const REBUILD_VARIANCE_THRESHOLD: u64 = 50 * crate::lab::VARIANCE_SCALE;

/// The partitioning discipline a converter runs: a fixed uniform grid or an
/// adaptive quadtree.
pub enum ProcessingStrategy {
    UniformGrid(Grid),
    AdaptiveQuadTree(QuadTree),
}

/// Binds a partitioning strategy to a color extractor and paints each
/// region's extracted color back into a fresh output bitmap.
pub struct PixelArtConverter {
    strategy: ProcessingStrategy,
    color_extractor: ExtractorChoice,
}

impl PixelArtConverter {
    pub closed spec fn strategy_of(&self) -> ProcessingStrategy {
        self.strategy
    }

    pub closed spec fn extractor_of(&self) -> ExtractorChoice {
        self.color_extractor
    }

    pub open spec fn spec_is_grid(&self) -> bool {
        self.strategy_of() matches ProcessingStrategy::UniformGrid(_)
    }

    pub open spec fn spec_grid(&self) -> Grid {
        match self.strategy_of() {
            ProcessingStrategy::UniformGrid(g) => g,
            ProcessingStrategy::AdaptiveQuadTree(_) => vstd::pervasive::arbitrary(),
        }
    }

    /// A grid strategy carries a well-formed grid of machine-countable
    /// extent.
    pub open spec fn wf(&self) -> bool {
        match self.strategy_of() {
            ProcessingStrategy::UniformGrid(g) => g.wf() && g.spec_width() * g.spec_height()
                <= u32::MAX,
            ProcessingStrategy::AdaptiveQuadTree(_) => true,
        }
    }

    pub fn with_grid(grid: Grid, extractor: ExtractorChoice) -> (conv: PixelArtConverter)
        requires
            grid.wf(),
            grid.spec_width() * grid.spec_height() <= u32::MAX,
        ensures
            conv.wf(),
            conv.strategy_of() == ProcessingStrategy::UniformGrid(grid),
            conv.extractor_of() == extractor,
    {
        PixelArtConverter { strategy: ProcessingStrategy::UniformGrid(grid), color_extractor: extractor }
    }

    /// The tree built here only records the requested parameters: the
    /// conversion path builds its own tree over the bitmap it converts.
    pub fn with_quadtree(max_depth: u32, variance_threshold: u64, extractor: ExtractorChoice) -> (
        conv: PixelArtConverter)
        ensures
            conv.wf(),
            !conv.spec_is_grid(),
            conv.strategy_of() matches ProcessingStrategy::AdaptiveQuadTree(t) && t.max_depth
                == max_depth && t.variance_threshold == variance_threshold,
            conv.extractor_of() == extractor,
    {
        let placeholder = PixelBuffer::zeroed(1, 1);
        let quadtree = QuadTree::build(&placeholder, max_depth, variance_threshold);
        PixelArtConverter {
            strategy: ProcessingStrategy::AdaptiveQuadTree(quadtree),
            color_extractor: extractor,
        }
    }

    /// The samples of grid cell `(row, col)` of `image`.
    pub open spec fn spec_cell_pixels(grid: Grid, image: PixelBuffer, row: int, col: int) -> Seq<
        Rgba,
    > {
        image.spec_rect_pixels(
            col * grid.spec_cell_width(),
            row * grid.spec_cell_height(),
            grid.spec_cell_width() as int,
            grid.spec_cell_height() as int,
        )
    }

    /// Extracts the representative color of grid cell `(row, col)`.
    pub fn process_grid_cell(&self, image: &PixelBuffer, row: u32, col: u32) -> (c: Rgba)
        requires
            self.wf(),
            self.spec_is_grid(),
            image.wf(),
            row < self.spec_grid().spec_height(),
            col < self.spec_grid().spec_width(),
        ensures
            self.extractor_of().valid_extraction(
                Self::spec_cell_pixels(self.spec_grid(), *image, row as int, col as int),
                c,
            ),
    {
        match &self.strategy {
            ProcessingStrategy::UniformGrid(grid) => {
                let bounds = grid.get_cell_bounds(row, col);
                let pixels = image.pixels_in_rect(bounds.0, bounds.1, bounds.2, bounds.3);
                self.color_extractor.extract_color(&pixels)
            },
            ProcessingStrategy::AdaptiveQuadTree(_) => {
                proof {
                    assert(false);
                }
                Rgba::opaque_black()
            },
        }
    }
}

/// How a grid conversion's output relates to its input: `cells` lists one
/// rectangle per grid cell in row-major order, each colored by a correct
/// extraction of its samples, and the output holds exactly the colors those
/// cells paint, transparent black where no cell reaches.
pub open spec fn spec_grid_conversion(
    conv: PixelArtConverter,
    input: PixelBuffer,
    cells: Seq<Cell>,
    out: PixelBuffer,
) -> bool {
    let g = conv.spec_grid();
    let cols = g.spec_width() as int;
    let rows = g.spec_height() as int;
    let cw = g.spec_cell_width();
    let ch = g.spec_cell_height();
    &&& cells.len() == rows * cols
    &&& forall|k: int|
        0 <= k < cells.len() ==> {
            let row = k / cols;
            let col = k % cols;
            &&& (#[trigger] cells[k]).0 == col * cw
            &&& cells[k].1 == row * ch
            &&& cells[k].2 == cw
            &&& cells[k].3 == ch
            &&& conv.extractor_of().valid_extraction(
                PixelArtConverter::spec_cell_pixels(g, input, row, col),
                cells[k].4,
            )
        }
    &&& out.wf()
    &&& out.spec_width() == input.spec_width()
    &&& out.spec_height() == input.spec_height()
    &&& forall|px: int, py: int|
        0 <= px < input.spec_width() && 0 <= py < input.spec_height() ==> out.pixel_at(px, py)
            == spec_cells_color_at(cells, px, py)
}

/// How a quadtree conversion's output relates to its input: some tree,
/// rooted on the image's square hull and built with the rebuild parameters,
/// has its preorder leaf cells painted over a transparent bitmap.
pub open spec fn spec_quadtree_conversion(
    input: PixelBuffer,
    root: QuadNode,
    out: PixelBuffer,
) -> bool {
    &&& root.x == 0 && root.y == 0
    &&& root.size == (if input.spec_width() >= input.spec_height() {
        input.spec_width()
    } else {
        input.spec_height()
    })
    &&& spec_tree_models(root, input, REBUILD_VARIANCE_THRESHOLD, REBUILD_MAX_DEPTH as int)
    &&& out.wf()
    &&& out.spec_width() == input.spec_width()
    &&& out.spec_height() == input.spec_height()
    &&& forall|px: int, py: int|
        0 <= px < input.spec_width() && 0 <= py < input.spec_height() ==> out.pixel_at(px, py)
            == spec_cells_color_at(root.spec_leaf_cells(), px, py)
}


/// Relies on rayon's parallel iterator over a slice: mapping a slice in
/// parallel and collecting into a `Vec` yields one result per element, in
/// the elements' order.
#[verifier::external_body]
fn par_extract_cells(
    conv: &PixelArtConverter,
    image: &PixelBuffer,
    cells: &Vec<(u32, u32)>,
) -> (out: Vec<(u32, u32, Rgba)>)
    requires
        conv.wf(),
        conv.spec_is_grid(),
        image.wf(),
        forall|k: int|
            0 <= k < cells@.len() ==> (#[trigger] cells@[k]).0 < conv.spec_grid().spec_height()
                && cells@[k].1 < conv.spec_grid().spec_width(),
    ensures
        out@.len() == cells@.len(),
        forall|k: int|
            0 <= k < out@.len() ==> (#[trigger] out@[k]).0 == cells@[k].0 && out@[k].1
                == cells@[k].1 && conv.extractor_of().valid_extraction(
                PixelArtConverter::spec_cell_pixels(
                    conv.spec_grid(),
                    *image,
                    cells@[k].0 as int,
                    cells@[k].1 as int,
                ),
                out@[k].2,
            ),
{
    cells.par_iter().map(
        |rc: &(u32, u32)| (rc.0, rc.1, conv.process_grid_cell(image, rc.0, rc.1)),
    ).collect()
}

impl PixelArtConverter {
    /// One colored rectangle per grid cell, row-major.
    fn grid_cells(&self, image: &PixelBuffer) -> (cells: Vec<Cell>)
        requires
            self.wf(),
            self.spec_is_grid(),
            image.wf(),
        ensures
            grid_cells_ok(*self, *image, cells@),
    {
        let coords = match &self.strategy {
            ProcessingStrategy::UniformGrid(grid) => grid.iter_cells(),
            ProcessingStrategy::AdaptiveQuadTree(_) => {
                proof {
                    assert(false);
                }
                Vec::new()
            },
        };
        let ghost g = self.spec_grid();
        let ghost cols = g.spec_width() as int;
        let ghost rows = g.spec_height() as int;
        let n = coords.len();
        let mut cells: Vec<Cell> = Vec::new();
        let mut k: usize = 0;
        while k < n
            invariant
                k <= n,
                n == coords@.len(),
                self.wf(),
                self.spec_is_grid(),
                image.wf(),
                g == self.spec_grid(),
                cols == g.spec_width() as int,
                rows == g.spec_height() as int,
                coords@.len() == rows * cols,
                forall|j: int|
                    0 <= j < coords@.len() ==> #[trigger] coords@[j] == (
                        ((j / cols) as u32),
                        ((j % cols) as u32),
                    ),
                cells@.len() == k,
                forall|j: int|
                    0 <= j < k ==> {
                        let row = j / cols;
                        let col = j % cols;
                        &&& (#[trigger] cells@[j]).0 == col * g.spec_cell_width()
                        &&& cells@[j].1 == row * g.spec_cell_height()
                        &&& cells@[j].2 == g.spec_cell_width()
                        &&& cells@[j].3 == g.spec_cell_height()
                        &&& self.extractor_of().valid_extraction(
                            Self::spec_cell_pixels(g, *image, row, col),
                            cells@[j].4,
                        )
                    },
            decreases n - k,
        {
            proof {
                assert(0 <= k < rows * cols);
                assert(cols > 0 && (k as int) / cols < rows && (k as int) % cols < cols)
                    by (nonlinear_arith)
                    requires
                        0 <= (k as int) < rows * cols,
                        rows >= 0,
                        cols >= 0,
                ;
            }
            let rc = coords[k];
            let row = rc.0;
            let col = rc.1;
            let color = self.process_grid_cell(image, row, col);
            let bounds = match &self.strategy {
                ProcessingStrategy::UniformGrid(grid) => grid.get_cell_bounds(row, col),
                ProcessingStrategy::AdaptiveQuadTree(_) => {
                    proof {
                        assert(false);
                    }
                    (0, 0, 0, 0)
                },
            };
            cells.push((bounds.0, bounds.1, bounds.2, bounds.3, color));
            k = k + 1;
        }
        cells
    }

    /// Partitions, extracts and paints, one region after the next.
    pub fn convert(&self, image: &PixelBuffer) -> (out: PixelBuffer)
        requires
            self.wf(),
            image.wf(),
        ensures
            out.wf(),
            out.spec_width() == image.spec_width(),
            out.spec_height() == image.spec_height(),
            self.spec_is_grid() ==> exists|cells: Seq<Cell>|
                spec_grid_conversion(*self, *image, cells, out),
            !self.spec_is_grid() ==> exists|root: QuadNode|
                spec_quadtree_conversion(*image, root, out),
    {
        if self.is_grid_strategy() {
            let cells = self.grid_cells(image);
            proof {
                image.lemma_byte_len();
            }
            let out = render_cells_to_buffer(image.width(), image.height(), &cells);
            proof {
                assert(spec_grid_conversion(*self, *image, cells@, out));
            }
            out
        } else {
            self.process_with_quadtree(image)
        }
    }

    /// As `convert`, but the per-region colors are computed by a parallel
    /// fan-out before the single-threaded paint pass.
    pub fn convert_parallel(&self, image: &PixelBuffer) -> (out: PixelBuffer)
        requires
            self.wf(),
            image.wf(),
        ensures
            out.wf(),
            out.spec_width() == image.spec_width(),
            out.spec_height() == image.spec_height(),
            self.spec_is_grid() ==> exists|cells: Seq<Cell>|
                spec_grid_conversion(*self, *image, cells, out),
            !self.spec_is_grid() ==> exists|root: QuadNode|
                spec_quadtree_conversion(*image, root, out),
    {
        if self.is_grid_strategy() {
            let coords = match &self.strategy {
                ProcessingStrategy::UniformGrid(grid) => grid.iter_cells(),
                ProcessingStrategy::AdaptiveQuadTree(_) => {
                    proof {
                        assert(false);
                    }
                    Vec::new()
                },
            };
            let ghost g = self.spec_grid();
            let ghost cols = g.spec_width() as int;
            let ghost rows = g.spec_height() as int;
            proof {
                assert forall|k: int| 0 <= k < coords@.len() implies (#[trigger] coords@[k]).0
                    < g.spec_height() && coords@[k].1 < g.spec_width() by {
                    assert(cols > 0 && k / cols < rows && k % cols < cols) by (nonlinear_arith)
                        requires
                            0 <= k < rows * cols,
                            rows >= 0,
                            cols >= 0,
                    ;
                }
            }
            let colored = par_extract_cells(self, image, &coords);
            proof {
                assert forall|j: int|
                    0 <= j < colored@.len() implies ((#[trigger] colored@[j]).0 == ((j
                    / cols) as u32) && colored@[j].1 == ((j % cols) as u32)
                    && self.extractor_of().valid_extraction(
                    Self::spec_cell_pixels(g, *image, j / cols, j % cols),
                    colored@[j].2,
                )) by {
                    assert(cols > 0 && 0 <= j / cols && j / cols < rows && 0 <= j % cols && j
                        % cols < cols) by (nonlinear_arith)
                        requires
                            0 <= j < rows * cols,
                            rows >= 0,
                            cols >= 0,
                    ;
                    assert(coords@[j] == (((j / cols) as u32), ((j % cols) as u32)));
                    assert(colored@[j].0 == coords@[j].0 && colored@[j].1 == coords@[j].1);
                    assert(self.extractor_of().valid_extraction(
                        Self::spec_cell_pixels(
                            g,
                            *image,
                            coords@[j].0 as int,
                            coords@[j].1 as int,
                        ),
                        colored@[j].2,
                    ));
                    assert(coords@[j].0 as int == j / cols);
                    assert(coords@[j].1 as int == j % cols);
                }
            }
            let n = colored.len();
            let mut cells: Vec<Cell> = Vec::new();
            let mut k: usize = 0;
            while k < n
                invariant
                    k <= n,
                    n == colored@.len(),
                    self.wf(),
                    self.spec_is_grid(),
                    image.wf(),
                    g == self.spec_grid(),
                    cols == g.spec_width() as int,
                    rows == g.spec_height() as int,
                    colored@.len() == rows * cols,
                    forall|j: int|
                        0 <= j < colored@.len() ==> (#[trigger] colored@[j]).0 == ((j / cols) as u32)
                            && colored@[j].1 == ((j % cols) as u32)
                            && self.extractor_of().valid_extraction(
                            Self::spec_cell_pixels(g, *image, j / cols, j % cols),
                            colored@[j].2,
                        ),
                    cells@.len() == k,
                    forall|j: int|
                        0 <= j < k ==> {
                            let row = j / cols;
                            let col = j % cols;
                            &&& (#[trigger] cells@[j]).0 == col * g.spec_cell_width()
                            &&& cells@[j].1 == row * g.spec_cell_height()
                            &&& cells@[j].2 == g.spec_cell_width()
                            &&& cells@[j].3 == g.spec_cell_height()
                            &&& self.extractor_of().valid_extraction(
                                Self::spec_cell_pixels(g, *image, row, col),
                                cells@[j].4,
                            )
                        },
                decreases n - k,
            {
                proof {
                    assert(0 <= k < rows * cols);
                    assert(cols > 0 && (k as int) / cols < rows && (k as int) % cols < cols)
                        by (nonlinear_arith)
                        requires
                            0 <= (k as int) < rows * cols,
                            rows >= 0,
                            cols >= 0,
                    ;
                }
                let entry = colored[k];
                let bounds = match &self.strategy {
                    ProcessingStrategy::UniformGrid(grid) => grid.get_cell_bounds(
                        entry.0,
                        entry.1,
                    ),
                    ProcessingStrategy::AdaptiveQuadTree(_) => {
                        proof {
                            assert(false);
                        }
                        (0, 0, 0, 0)
                    },
                };
                cells.push((bounds.0, bounds.1, bounds.2, bounds.3, entry.2));
                k = k + 1;
            }
            proof {
                image.lemma_byte_len();
            }
            let out = render_cells_to_buffer(image.width(), image.height(), &cells);
            proof {
                assert(spec_grid_conversion(*self, *image, cells@, out));
            }
            out
        } else {
            self.process_with_quadtree(image)
        }
    }

    fn is_grid_strategy(&self) -> (r: bool)
        ensures
            r == self.spec_is_grid(),
    {
        match &self.strategy {
            ProcessingStrategy::UniformGrid(_) => true,
            ProcessingStrategy::AdaptiveQuadTree(_) => false,
        }
    }

    /// Rebuilds a tree over this bitmap with the fixed rebuild parameters
    /// and paints its leaves.
    fn process_with_quadtree(&self, image: &PixelBuffer) -> (out: PixelBuffer)
        requires
            image.wf(),
        ensures
            out.wf(),
            out.spec_width() == image.spec_width(),
            out.spec_height() == image.spec_height(),
            exists|root: QuadNode| spec_quadtree_conversion(*image, root, out),
    {
        let tree = QuadTree::build(image, REBUILD_MAX_DEPTH, REBUILD_VARIANCE_THRESHOLD);
        let cells = tree.to_grid_cells();
        proof {
            image.lemma_byte_len();
        }
        let out = render_cells_to_buffer(image.width(), image.height(), &cells);
        proof {
            assert(spec_quadtree_conversion(*image, tree.root, out));
        }
        out
    }
}

/// The cell list a grid conversion paints: one rectangle per cell in
/// row-major order, each colored by a correct extraction of its samples.
pub open spec fn grid_cells_ok(conv: PixelArtConverter, input: PixelBuffer, cells: Seq<Cell>) -> bool {
    let g = conv.spec_grid();
    let cols = g.spec_width() as int;
    let rows = g.spec_height() as int;
    &&& cells.len() == rows * cols
    &&& forall|k: int|
        0 <= k < cells.len() ==> {
            let row = k / cols;
            let col = k % cols;
            &&& (#[trigger] cells[k]).0 == col * g.spec_cell_width()
            &&& cells[k].1 == row * g.spec_cell_height()
            &&& cells[k].2 == g.spec_cell_width()
            &&& cells[k].3 == g.spec_cell_height()
            &&& conv.extractor_of().valid_extraction(
                PixelArtConverter::spec_cell_pixels(g, input, row, col),
                cells[k].4,
            )
        }
}

} // verus!
