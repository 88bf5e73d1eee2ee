use vstd::prelude::*;

use crate::buffer::PixelBuffer;
use crate::color::spec_average;
use crate::color::Rgba;
use crate::lab::spec_variance;

verus! {

/// The four quadrants of a split node.
pub struct QuadChildren {
    pub nw: QuadNode,
    pub ne: QuadNode,
    pub sw: QuadNode,
    pub se: QuadNode,
}

/// One square region of the adaptive partition: its position and side, the
/// mean color and color variance of its in-bounds samples, an optional
/// palette slot, and either no children (a leaf) or exactly four.
pub struct QuadNode {
    pub x: u32,
    pub y: u32,
    pub size: u32,
    pub mean_color: Rgba,
    pub variance: u64,
    pub palette_idx: Option<u8>,
    pub children: Option<Box<QuadChildren>>,
}

impl QuadNode {
    pub fn new(x: u32, y: u32, size: u32, mean_color: Rgba, variance: u64) -> (n: QuadNode)
        ensures
            n == (QuadNode {
                x,
                y,
                size,
                mean_color,
                variance,
                palette_idx: None,
                children: None,
            }),
    {
        QuadNode { x, y, size, mean_color, variance, palette_idx: None, children: None }
    }

    /// Height of the subtree: zero for a leaf, one more than the tallest
    /// child otherwise.
    pub open spec fn depth(&self) -> nat
        decreases self,
    {
        match self.children {
            None => 0,
            Some(c) => {
                let a = c.nw.depth();
                let b = c.ne.depth();
                let d = c.sw.depth();
                let e = c.se.depth();
                let m1 = if a > b {
                    a
                } else {
                    b
                };
                let m2 = if d > e {
                    d
                } else {
                    e
                };
                1 + (if m1 > m2 {
                    m1
                } else {
                    m2
                })
            },
        }
    }

    /// Number of nodes in the subtree, the node itself included.
    pub open spec fn count(&self) -> nat
        decreases self,
    {
        match self.children {
            None => 1,
            Some(c) => 1 + c.nw.count() + c.ne.count() + c.sw.count() + c.se.count(),
        }
    }

    /// Number of leaves in the subtree.
    pub open spec fn leaf_count(&self) -> nat
        decreases self,
    {
        match self.children {
            None => 1,
            Some(c) => c.nw.leaf_count() + c.ne.leaf_count() + c.sw.leaf_count()
                + c.se.leaf_count(),
        }
    }

    /// Whether some leaf of the subtree carries a palette slot.
    pub open spec fn spec_has_palette(&self) -> bool
        decreases self,
    {
        match self.children {
            None => self.palette_idx is Some,
            Some(c) => c.nw.spec_has_palette() || c.ne.spec_has_palette()
                || c.sw.spec_has_palette() || c.se.spec_has_palette(),
        }
    }

    /// The flat cell list of the subtree's leaves in preorder, each as
    /// `(x, y, side, side, mean color)`.
    pub open spec fn spec_leaf_cells(&self) -> Seq<(u32, u32, u32, u32, Rgba)>
        decreases self,
    {
        match self.children {
            None => seq![(self.x, self.y, self.size, self.size, self.mean_color)],
            Some(c) => c.nw.spec_leaf_cells() + c.ne.spec_leaf_cells() + c.sw.spec_leaf_cells()
                + c.se.spec_leaf_cells(),
        }
    }
}

/// How a built subtree relates to the bitmap it was built from: every node
/// carries the mean and variance of its square's in-bounds samples, splits
/// exactly when depth remains, the variance exceeds the threshold and the
/// square is larger than one pixel, and children tile the square as its four
/// half-size quadrants.
pub open spec fn spec_tree_models(
    node: QuadNode,
    buf: PixelBuffer,
    threshold: u64,
    depth: int,
) -> bool
    decreases node,
{
    let pixels = buf.spec_rect_pixels(node.x as int, node.y as int, node.size as int,
        node.size as int);
    &&& node.mean_color == spec_average(pixels)
    &&& node.variance == spec_variance(pixels)
    &&& node.palette_idx is None
    &&& (node.children is Some <==> (depth > 0 && node.variance > threshold && node.size > 1))
    &&& match node.children {
        None => true,
        Some(c) => {
            let half = node.size / 2;
            &&& c.nw.x == node.x && c.nw.y == node.y && c.nw.size == half
            &&& c.ne.x == node.x + half && c.ne.y == node.y && c.ne.size == half
            &&& c.sw.x == node.x && c.sw.y == node.y + half && c.sw.size == half
            &&& c.se.x == node.x + half && c.se.y == node.y + half && c.se.size == half
            &&& spec_tree_models(c.nw, buf, threshold, depth - 1)
            &&& spec_tree_models(c.ne, buf, threshold, depth - 1)
            &&& spec_tree_models(c.sw, buf, threshold, depth - 1)
            &&& spec_tree_models(c.se, buf, threshold, depth - 1)
        },
    }
}

/// An adaptive quadtree over a bitmap, split where local color variance
/// exceeds `variance_threshold`, to at most `max_depth` levels.
pub struct QuadTree {
    pub root: QuadNode,
    pub max_depth: u32,
    pub variance_threshold: u64,
}

/// Computes the mean color and color variance of a sampled region.
pub fn calculate_region_variance(pixels: &Vec<Rgba>) -> (r: (Rgba, u64))
    ensures
        r.0 == spec_average(pixels@),
        r.1 == spec_variance(pixels@),
{
    crate::lab::calculate_color_variance(pixels)
}

/// Whether a node of the given variance splits: depth must remain and the
/// variance must exceed the threshold.
pub fn should_split_node(node: &QuadNode, max_depth: u32, variance_threshold: u64) -> (r: bool)
    ensures
        r == (max_depth > 0 && node.variance > variance_threshold),
{
    max_depth > 0 && node.variance > variance_threshold
}

fn build_recursive(
    image: &PixelBuffer,
    x: u32,
    y: u32,
    size: u32,
    max_depth: u32,
    variance_threshold: u64,
) -> (node: QuadNode)
    requires
        image.wf(),
        x + size <= u32::MAX,
        y + size <= u32::MAX,
    ensures
        node.x == x && node.y == y && node.size == size,
        spec_tree_models(node, *image, variance_threshold, max_depth as int),
        node.depth() <= max_depth,
    decreases max_depth,
{
    let pixels = image.pixels_in_rect(x, y, size, size);
    let (mean_color, variance) = calculate_region_variance(&pixels);
    let mut node = QuadNode::new(x, y, size, mean_color, variance);
    if should_split_node(&node, max_depth, variance_threshold) && size > 1 {
        let half_size = size / 2;
        let nw = build_recursive(image, x, y, half_size, max_depth - 1, variance_threshold);
        let ne = build_recursive(
            image,
            x + half_size,
            y,
            half_size,
            max_depth - 1,
            variance_threshold,
        );
        let sw = build_recursive(
            image,
            x,
            y + half_size,
            half_size,
            max_depth - 1,
            variance_threshold,
        );
        let se = build_recursive(
            image,
            x + half_size,
            y + half_size,
            half_size,
            max_depth - 1,
            variance_threshold,
        );
        node.children = Some(Box::new(QuadChildren { nw, ne, sw, se }));
    }
    node
}

impl QuadTree {
    /// Builds the tree top-down from a square superset of the image whose
    /// side is the larger image dimension.
    pub fn build(image: &PixelBuffer, max_depth: u32, variance_threshold: u64) -> (t: QuadTree)
        requires
            image.wf(),
        ensures
            t.max_depth == max_depth,
            t.variance_threshold == variance_threshold,
            t.root.x == 0 && t.root.y == 0,
            t.root.size == (if image.spec_width() >= image.spec_height() {
                image.spec_width()
            } else {
                image.spec_height()
            }),
            spec_tree_models(t.root, *image, variance_threshold, max_depth as int),
            t.root.depth() <= max_depth,
    {
        let width = image.width();
        let height = image.height();
        let size = if width >= height {
            width
        } else {
            height
        };
        let root = build_recursive(image, 0, 0, size, max_depth, variance_threshold);
        QuadTree { root, max_depth, variance_threshold }
    }

    /// Numbers the leaves with sequential palette slots in preorder,
    /// wrapping past 255; the requested palette size does not enter the
    /// numbering.
    pub fn quantize_with_palette(&mut self, palette_size: u32)
        ensures
            spec_palette_assigned(old(self).root, final(self).root, 0),
            final(self).max_depth == old(self).max_depth,
            final(self).variance_threshold == old(self).variance_threshold,
    {
        let _ = palette_size;
        let mut root = QuadNode::new(0, 0, 0, crate::color::Rgba::opaque_black(), 0);
        core::mem::swap(&mut self.root, &mut root);
        let (new_root, _next) = assign_palette_indices(root, 0);
        self.root = new_root;
    }

    /// The realized height of the built tree.
    pub fn get_max_depth(&self) -> (d: u32)
        requires
            self.root.depth() <= u32::MAX,
        ensures
            d == self.root.depth(),
    {
        node_depth(&self.root)
    }

    /// Total number of nodes in the tree.
    pub fn node_count(&self) -> (n: u32)
        requires
            self.root.count() <= u32::MAX,
        ensures
            n == self.root.count(),
    {
        count_nodes_recursive(&self.root)
    }

    /// Whether any leaf already carries a palette slot.
    pub fn has_palette_assignments(&self) -> (r: bool)
        ensures
            r == self.root.spec_has_palette(),
    {
        node_has_palette_assignments(&self.root)
    }

    /// Every leaf cell of the tree in preorder, as `(x, y, w, h, color)`.
    pub fn to_grid_cells(&self) -> (cells: Vec<(u32, u32, u32, u32, Rgba)>)
        ensures
            cells@ == self.root.spec_leaf_cells(),
    {
        let mut cells: Vec<(u32, u32, u32, u32, Rgba)> = Vec::new();
        collect_leaf_cells(&self.root, &mut cells);
        proof {
            assert(cells@ =~= self.root.spec_leaf_cells());
        }
        cells
    }
}

fn node_depth(node: &QuadNode) -> (d: u32)
    requires
        node.depth() <= u32::MAX,
    ensures
        d == node.depth(),
    decreases *node,
{
    match &node.children {
        None => 0,
        Some(c) => {
            let a = node_depth(&c.nw);
            let b = node_depth(&c.ne);
            let d2 = node_depth(&c.sw);
            let e = node_depth(&c.se);
            let m1 = if a > b {
                a
            } else {
                b
            };
            let m2 = if d2 > e {
                d2
            } else {
                e
            };
            1 + (if m1 > m2 {
                m1
            } else {
                m2
            })
        },
    }
}

fn count_nodes_recursive(node: &QuadNode) -> (n: u32)
    requires
        node.count() <= u32::MAX,
    ensures
        n == node.count(),
    decreases *node,
{
    match &node.children {
        None => 1,
        Some(c) => 1 + count_nodes_recursive(&c.nw) + count_nodes_recursive(&c.ne)
            + count_nodes_recursive(&c.sw) + count_nodes_recursive(&c.se),
    }
}

fn node_has_palette_assignments(node: &QuadNode) -> (r: bool)
    ensures
        r == node.spec_has_palette(),
    decreases *node,
{
    match &node.children {
        None => node.palette_idx.is_some(),
        Some(c) => node_has_palette_assignments(&c.nw) || node_has_palette_assignments(&c.ne)
            || node_has_palette_assignments(&c.sw) || node_has_palette_assignments(&c.se),
    }
}

fn collect_leaf_cells(node: &QuadNode, cells: &mut Vec<(u32, u32, u32, u32, Rgba)>)
    ensures
        final(cells)@ == old(cells)@ + node.spec_leaf_cells(),
    decreases *node,
{
    match &node.children {
        None => {
            cells.push((node.x, node.y, node.size, node.size, node.mean_color));
            proof {
                assert(cells@ =~= old(cells)@ + node.spec_leaf_cells());
            }
        },
        Some(c) => {
            collect_leaf_cells(&c.nw, cells);
            collect_leaf_cells(&c.ne, cells);
            collect_leaf_cells(&c.sw, cells);
            collect_leaf_cells(&c.se, cells);
            proof {
                assert(cells@ =~= old(cells)@ + node.spec_leaf_cells());
            }
        },
    }
}


/// How the palette-assignment pass rewrites a subtree: geometry, colors and
/// structure stay as they were, and the leaves receive consecutive slots in
/// preorder, wrapping past 255, the first at `start`.
pub open spec fn spec_palette_assigned(orig: QuadNode, now: QuadNode, start: int) -> bool
    decreases orig,
{
    &&& now.x == orig.x && now.y == orig.y && now.size == orig.size
    &&& now.mean_color == orig.mean_color && now.variance == orig.variance
    &&& match (orig.children, now.children) {
        (None, None) => now.palette_idx == Some((start % 256) as u8),
        (Some(o), Some(n)) => {
            &&& now.palette_idx == orig.palette_idx
            &&& spec_palette_assigned(o.nw, n.nw, start)
            &&& spec_palette_assigned(o.ne, n.ne, start + o.nw.leaf_count())
            &&& spec_palette_assigned(o.sw, n.sw, start + o.nw.leaf_count() + o.ne.leaf_count())
            &&& spec_palette_assigned(
                o.se,
                n.se,
                start + o.nw.leaf_count() + o.ne.leaf_count() + o.sw.leaf_count(),
            )
        },
        _ => false,
    }
}

/// Assignment only reads the start slot modulo 256.
proof fn lemma_palette_assigned_mod(orig: QuadNode, now: QuadNode, s1: int, s2: int)
    requires
        spec_palette_assigned(orig, now, s1),
        0 <= s1,
        0 <= s2,
        s1 % 256 == s2 % 256,
    ensures
        spec_palette_assigned(orig, now, s2),
    decreases orig,
{
    match (orig.children, now.children) {
        (None, None) => {
        },
        (Some(o), Some(n)) => {
            lemma_palette_assigned_mod(o.nw, n.nw, s1, s2);
            let a = o.nw.leaf_count() as int;
            let b = o.ne.leaf_count() as int;
            let c = o.sw.leaf_count() as int;
            vstd::arithmetic::div_mod::lemma_add_mod_noop(s1, a, 256);
            vstd::arithmetic::div_mod::lemma_add_mod_noop(s2, a, 256);
            lemma_palette_assigned_mod(o.ne, n.ne, s1 + a, s2 + a);
            vstd::arithmetic::div_mod::lemma_add_mod_noop(s1, a + b, 256);
            vstd::arithmetic::div_mod::lemma_add_mod_noop(s2, a + b, 256);
            lemma_palette_assigned_mod(o.sw, n.sw, s1 + a + b, s2 + a + b);
            vstd::arithmetic::div_mod::lemma_add_mod_noop(s1, a + b + c, 256);
            vstd::arithmetic::div_mod::lemma_add_mod_noop(s2, a + b + c, 256);
            lemma_palette_assigned_mod(o.se, n.se, s1 + a + b + c, s2 + a + b + c);
        },
        _ => {
        },
    }
}

/// Numbers the leaves of `node` in preorder starting at `palette_index`,
/// wrapping past 255; returns the rewritten subtree and the next free slot.
fn assign_palette_indices(node: QuadNode, palette_index: u8) -> (r: (QuadNode, u8))
    ensures
        spec_palette_assigned(node, r.0, palette_index as int),
        r.1 as int == (palette_index + node.leaf_count()) % 256,
    decreases node,
{
    let QuadNode { x, y, size, mean_color, variance, palette_idx, children } = node;
    match children {
        None => {
            let next = palette_index.wrapping_add(1);
            let now = QuadNode {
                x,
                y,
                size,
                mean_color,
                variance,
                palette_idx: Some(palette_index),
                children: None,
            };
            proof {
                assert(palette_index as int % 256 == palette_index as int);
                assert(next as int == (palette_index + 1) % 256);
            }
            (now, next)
        },
        Some(c) => {
            let QuadChildren { nw, ne, sw, se } = *c;
            let ghost start = palette_index as int;
            let ghost a = nw.leaf_count() as int;
            let ghost b = ne.leaf_count() as int;
            let ghost cc = sw.leaf_count() as int;
            let ghost d = se.leaf_count() as int;
            let (nw2, p1) = assign_palette_indices(nw, palette_index);
            let (ne2, p2) = assign_palette_indices(ne, p1);
            let (sw2, p3) = assign_palette_indices(sw, p2);
            let (se2, p4) = assign_palette_indices(se, p3);
            proof {
                vstd::arithmetic::div_mod::lemma_mod_twice(start + a, 256);
                vstd::arithmetic::div_mod::lemma_add_mod_noop((start + a) % 256, b, 256);
                vstd::arithmetic::div_mod::lemma_add_mod_noop(start + a, b, 256);
                lemma_palette_assigned_mod(ne, ne2, p1 as int, start + a);
                assert(p2 as int == (start + a + b) % 256);
                vstd::arithmetic::div_mod::lemma_mod_twice(start + a + b, 256);
                vstd::arithmetic::div_mod::lemma_add_mod_noop((start + a + b) % 256, cc, 256);
                vstd::arithmetic::div_mod::lemma_add_mod_noop(start + a + b, cc, 256);
                lemma_palette_assigned_mod(sw, sw2, p2 as int, start + a + b);
                assert(p3 as int == (start + a + b + cc) % 256);
                vstd::arithmetic::div_mod::lemma_mod_twice(start + a + b + cc, 256);
                vstd::arithmetic::div_mod::lemma_add_mod_noop((start + a + b + cc) % 256, d, 256);
                vstd::arithmetic::div_mod::lemma_add_mod_noop(start + a + b + cc, d, 256);
                lemma_palette_assigned_mod(se, se2, p3 as int, start + a + b + cc);
                assert(p4 as int == (start + a + b + cc + d) % 256);
            }
            let now = QuadNode {
                x,
                y,
                size,
                mean_color,
                variance,
                palette_idx,
                children: Some(Box::new(QuadChildren { nw: nw2, ne: ne2, sw: sw2, se: se2 })),
            };
            (now, p4)
        },
    }
}


/// A node over a region of identical samples never splits: such a region
/// has variance zero, and no threshold lies below zero.
pub proof fn lemma_uniform_region_is_leaf(
    node: QuadNode,
    buf: PixelBuffer,
    threshold: u64,
    depth: int,
    c: Rgba,
)
    requires
        spec_tree_models(node, buf, threshold, depth),
        forall|i: int|
            0 <= i < buf.spec_rect_pixels(
                node.x as int,
                node.y as int,
                node.size as int,
                node.size as int,
            ).len() ==> buf.spec_rect_pixels(
                node.x as int,
                node.y as int,
                node.size as int,
                node.size as int,
            )[i] == c,
    ensures
        node.children is None,
{
    let pixels = buf.spec_rect_pixels(node.x as int, node.y as int, node.size as int,
        node.size as int);
    crate::lab::lemma_variance_of_uniform(pixels, c);
}

/// A sampled square region of a bitmap: its geometry and the in-bounds
/// samples it covers.
pub struct ImageRegion {
    pub x: u32,
    pub y: u32,
    pub size: u32,
    pub pixels: Vec<Rgba>,
}

impl ImageRegion {
    pub fn new(image: &PixelBuffer, x: u32, y: u32, size: u32) -> (r: ImageRegion)
        requires
            image.wf(),
        ensures
            r.x == x && r.y == y && r.size == size,
            r.pixels@ == image.spec_rect_pixels(x as int, y as int, size as int, size as int),
    {
        let pixels = image.pixels_in_rect(x, y, size, size);
        ImageRegion { x, y, size, pixels }
    }
}

} // verus!
