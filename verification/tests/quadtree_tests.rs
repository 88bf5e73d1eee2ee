use pixel_art_rust::calculate_region_variance;
use pixel_art_rust::should_split_node;
use pixel_art_rust::ImageRegion;
use pixel_art_rust::PixelBuffer;
use pixel_art_rust::QuadChildren;
use pixel_art_rust::QuadNode;
use pixel_art_rust::QuadTree;
use pixel_art_rust::Rgba;
use pixel_art_rust::VARIANCE_SCALE;

fn buffer_from_fn(width: u32, height: u32, f: impl Fn(u32, u32) -> Rgba) -> PixelBuffer {
    let mut data = Vec::new();
    for y in 0..height {
        for x in 0..width {
            let c = f(x, y);
            data.push(c.r);
            data.push(c.g);
            data.push(c.b);
            data.push(c.a);
        }
    }
    PixelBuffer::from_raw(width, height, data).unwrap()
}

#[test]
fn test_quadtree_creation() {
    let image = buffer_from_fn(4, 4, |_, _| Rgba::new(128, 128, 128, 255));

    let tree = QuadTree::build(&image, 3, 50 * VARIANCE_SCALE);

    assert_eq!(tree.root.x, 0);
    assert_eq!(tree.root.y, 0);
    assert_eq!(tree.root.size, 4);
    assert_eq!(tree.root.mean_color, Rgba::new(128, 128, 128, 255));
    assert!(tree.root.variance < 10 * VARIANCE_SCALE);
    assert!(tree.root.children.is_none());
}

#[test]
fn test_quadtree_splitting() {
    let image = buffer_from_fn(4, 4, |x, y| {
        if (x + y) % 2 == 0 {
            Rgba::new(255, 255, 255, 255)
        } else {
            Rgba::new(0, 0, 0, 255)
        }
    });

    let tree = QuadTree::build(&image, 3, 10 * VARIANCE_SCALE);

    assert!(tree.root.children.is_some());
    assert!(tree.root.variance > 50 * VARIANCE_SCALE);
}

#[test]
fn test_quadtree_depth_limit() {
    let image = buffer_from_fn(8, 8, |x, y| {
        Rgba::new(((x * 32) % 256) as u8, ((y * 32) % 256) as u8, 0, 255)
    });

    let tree = QuadTree::build(&image, 2, VARIANCE_SCALE);

    let max_depth = tree.get_max_depth();
    assert!(max_depth <= 2);
}

#[test]
fn test_quadtree_quantization() {
    let image = buffer_from_fn(4, 4, |x, y| {
        Rgba::new(((x * 64) % 256) as u8, ((y * 64) % 256) as u8, 128, 255)
    });

    let mut tree = QuadTree::build(&image, 3, 20 * VARIANCE_SCALE);
    tree.quantize_with_palette(4);

    let has_palette_indices = tree.has_palette_assignments();
    assert!(has_palette_indices);
}

#[test]
fn test_quadtree_to_grid_cells() {
    let image = buffer_from_fn(2, 2, |x, y| match (x, y) {
        (0, 0) => Rgba::new(255, 0, 0, 255),
        (1, 0) => Rgba::new(0, 255, 0, 255),
        (0, 1) => Rgba::new(0, 0, 255, 255),
        _ => Rgba::new(255, 255, 0, 255),
    });

    let tree = QuadTree::build(&image, 3, 10 * VARIANCE_SCALE);
    let cells = tree.to_grid_cells();

    assert!(!cells.is_empty());
    for (x, y, w, h, _color) in &cells {
        assert!(*x < 2);
        assert!(*y < 2);
        assert!(*w > 0);
        assert!(*h > 0);
    }
}

#[test]
fn test_quad_node_creation() {
    let node = QuadNode::new(0, 0, 4, Rgba::new(128, 128, 128, 255), 25 * VARIANCE_SCALE);

    assert_eq!(node.x, 0);
    assert_eq!(node.y, 0);
    assert_eq!(node.size, 4);
    assert_eq!(node.mean_color, Rgba::new(128, 128, 128, 255));
    assert_eq!(node.variance, 25 * VARIANCE_SCALE);
    assert!(node.palette_idx.is_none());
    assert!(node.children.is_none());
}

#[test]
fn test_quad_node_splitting() {
    let mut node = QuadNode::new(0, 0, 4, Rgba::new(128, 128, 128, 255), 25 * VARIANCE_SCALE);

    let child1 = QuadNode::new(0, 0, 2, Rgba::new(255, 0, 0, 255), 10 * VARIANCE_SCALE);
    let child2 = QuadNode::new(2, 0, 2, Rgba::new(0, 255, 0, 255), 10 * VARIANCE_SCALE);
    let child3 = QuadNode::new(0, 2, 2, Rgba::new(0, 0, 255, 255), 10 * VARIANCE_SCALE);
    let child4 = QuadNode::new(2, 2, 2, Rgba::new(255, 255, 0, 255), 10 * VARIANCE_SCALE);

    node.children = Some(Box::new(QuadChildren {
        nw: child1,
        ne: child2,
        sw: child3,
        se: child4,
    }));

    assert!(node.children.is_some());
    let children = node.children.as_ref().unwrap();
    assert_eq!(children.nw.size, 2);
    assert_eq!(children.ne.size, 2);
    assert_eq!(children.sw.size, 2);
    assert_eq!(children.se.size, 2);
}

#[test]
fn test_image_region_creation() {
    let image = buffer_from_fn(4, 4, |x, y| {
        Rgba::new(x as u8 * 64, y as u8 * 64, 128, 255)
    });

    let region = ImageRegion::new(&image, 0, 0, 4);

    assert_eq!(region.x, 0);
    assert_eq!(region.y, 0);
    assert_eq!(region.size, 4);
    assert!(!region.pixels.is_empty());
}

#[test]
fn test_variance_calculation() {
    let pixels = vec![
        Rgba::new(100, 100, 100, 255),
        Rgba::new(200, 200, 200, 255),
        Rgba::new(150, 150, 150, 255),
    ];

    let (mean, variance) = calculate_region_variance(&pixels);

    assert_eq!(mean, Rgba::new(150, 150, 150, 255));
    assert!(variance > 0);
}

#[test]
fn test_should_split_decision() {
    let high_variance_node =
        QuadNode::new(0, 0, 4, Rgba::new(128, 128, 128, 255), 100 * VARIANCE_SCALE);
    let low_variance_node =
        QuadNode::new(0, 0, 4, Rgba::new(128, 128, 128, 255), 5 * VARIANCE_SCALE);

    assert!(should_split_node(&high_variance_node, 2, 50 * VARIANCE_SCALE));
    assert!(!should_split_node(&low_variance_node, 2, 50 * VARIANCE_SCALE));

    assert!(!should_split_node(&high_variance_node, 0, 50 * VARIANCE_SCALE));
}

#[test]
fn test_quadtree_node_counting() {
    let image = buffer_from_fn(4, 4, |x, _y| {
        if x < 2 {
            Rgba::new(255, 0, 0, 255)
        } else {
            Rgba::new(0, 255, 0, 255)
        }
    });

    let tree = QuadTree::build(&image, 3, 10 * VARIANCE_SCALE);
    let node_count = tree.node_count();

    assert!(node_count >= 1);
    assert!(node_count <= 85);
}

#[test]
fn test_adaptive_progress_calculation() {
    let image = buffer_from_fn(8, 8, |x, y| {
        if x < 4 && y < 4 {
            Rgba::new(((x * y * 64) % 256) as u8, ((x + y) * 32) as u8, 0, 255)
        } else {
            Rgba::new(128, 128, 128, 255)
        }
    });

    let tree = QuadTree::build(&image, 4, 20 * VARIANCE_SCALE);
    let node_count = tree.node_count();

    assert!(node_count > 1);

    for processed in 0..=node_count {
        let progress_percent = (processed * 100) / node_count;
        assert!(progress_percent <= 100);
    }
}

#[test]
fn test_uniform_image_stays_single_leaf() {
    let image = buffer_from_fn(4, 4, |_, _| Rgba::new(128, 128, 128, 255));
    let tree = QuadTree::build(&image, 3, 50 * VARIANCE_SCALE);
    assert_eq!(tree.root.variance, 0);
    assert!(tree.root.children.is_none());
    assert_eq!(tree.to_grid_cells().len(), 1);
}
