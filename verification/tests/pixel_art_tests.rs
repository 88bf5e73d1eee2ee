use pixel_art_rust::AverageColorExtractor;
use pixel_art_rust::ExtractorChoice;
use pixel_art_rust::Grid;
use pixel_art_rust::PixelArtConverter;
use pixel_art_rust::PixelBuffer;
use pixel_art_rust::ProcessingStrategy;
use pixel_art_rust::QuadTree;
use pixel_art_rust::Rgba;
use pixel_art_rust::VARIANCE_SCALE;
use std::sync::atomic::{AtomicU32, Ordering};
use std::sync::Arc;

fn buffer_from_fn(width: u32, height: u32, f: impl Fn(u32, u32) -> Rgba) -> PixelBuffer {
    let mut data = Vec::new();
    for y in 0..height {
        for x in 0..width {
            let c = f(x, y);
            data.push(c.r);
            data.push(c.g);
            data.push(c.b);
            data.push(c.a);
        }
    }
    PixelBuffer::from_raw(width, height, data).unwrap()
}

#[test]
fn test_pixel_art_conversion_small_image() {
    let image = buffer_from_fn(4, 4, |x, y| {
        if (x + y) % 2 == 0 {
            Rgba::new(255, 0, 0, 255)
        } else {
            Rgba::new(0, 0, 255, 255)
        }
    });

    let grid = Grid::new(4, 4, 2, 2);
    let extractor = ExtractorChoice::Average(AverageColorExtractor);
    let converter = PixelArtConverter::with_grid(grid, extractor);

    let result_image = converter.convert(&image);
    assert_eq!(result_image.width(), 4);
    assert_eq!(result_image.height(), 4);
}

#[test]
fn test_parallel_grid_processing() {
    let image = buffer_from_fn(8, 8, |x, y| Rgba::new((x * 32) as u8, (y * 32) as u8, 128, 255));

    let grid = Grid::new(8, 8, 4, 4);
    let extractor = ExtractorChoice::Average(AverageColorExtractor);
    let converter = PixelArtConverter::with_grid(grid, extractor);

    let result_image = converter.convert_parallel(&image);
    assert_eq!(result_image.width(), 8);
    assert_eq!(result_image.height(), 8);
}

#[test]
fn test_color_palette_generation() {
    let colors = [
        Rgba::new(255, 0, 0, 255),
        Rgba::new(0, 255, 0, 255),
        Rgba::new(0, 0, 255, 255),
        Rgba::new(255, 255, 0, 255),
    ];
    let image = buffer_from_fn(4, 4, |x, y| colors[((y * 4 + x) as usize) % colors.len()]);

    let grid = Grid::new(4, 4, 2, 2);
    let extractor = ExtractorChoice::Average(AverageColorExtractor);
    let converter = PixelArtConverter::with_grid(grid, extractor);

    let result_image = converter.convert(&image);
    assert_eq!(result_image.width(), 4);
}

#[test]
fn test_downsampling_accuracy() {
    let image = buffer_from_fn(8, 8, |_, _| Rgba::new(128, 128, 128, 255));

    let grid = Grid::new(8, 8, 2, 2);
    let extractor = ExtractorChoice::Average(AverageColorExtractor);
    let converter = PixelArtConverter::with_grid(grid, extractor);

    let result_image = converter.convert(&image);
    let first_pixel = result_image.get_pixel(0, 0);

    let expected = Rgba::new(128, 128, 128, 255);
    let tolerance = 10;

    assert!((first_pixel.r as i32 - expected.r as i32).abs() <= tolerance);
    assert!((first_pixel.g as i32 - expected.g as i32).abs() <= tolerance);
    assert!((first_pixel.b as i32 - expected.b as i32).abs() <= tolerance);
    assert_eq!(first_pixel.a, expected.a);
}

#[test]
fn test_quadtree_vs_grid_performance() {
    let image = buffer_from_fn(8, 8, |x, _y| {
        if x < 4 {
            Rgba::new(255, 0, 0, 255)
        } else {
            Rgba::new(0, 0, 255, 255)
        }
    });

    let grid = Grid::new(8, 8, 4, 4);
    let extractor1 = ExtractorChoice::Average(AverageColorExtractor);
    let grid_converter = PixelArtConverter::with_grid(grid, extractor1);
    let grid_image = grid_converter.convert(&image);

    let extractor2 = ExtractorChoice::Average(AverageColorExtractor);
    let tree_converter = PixelArtConverter::with_quadtree(3, 50 * VARIANCE_SCALE, extractor2);
    let tree_image = tree_converter.convert(&image);

    assert_eq!(grid_image.width(), 8);
    assert_eq!(grid_image.height(), 8);
    assert_eq!(tree_image.width(), 8);
    assert_eq!(tree_image.height(), 8);
}

#[test]
fn test_adaptive_resolution() {
    let image = buffer_from_fn(16, 16, |x, y| {
        if x < 8 && y < 8 {
            Rgba::new(((x * 32) % 256) as u8, ((y * 32) % 256) as u8, 0, 255)
        } else {
            Rgba::new(128, 128, 128, 255)
        }
    });

    let extractor = ExtractorChoice::Average(AverageColorExtractor);
    let converter = PixelArtConverter::with_quadtree(4, 20 * VARIANCE_SCALE, extractor);

    let result_image = converter.convert(&image);
    assert_eq!(result_image.width(), 16);
    assert_eq!(result_image.height(), 16);
}

#[test]
fn test_processing_strategy_enum() {
    let grid = Grid::new(4, 4, 2, 2);
    let blank = buffer_from_fn(4, 4, |_, _| Rgba::new(0, 0, 0, 0));
    let quadtree = QuadTree::build(&blank, 3, 50 * VARIANCE_SCALE);

    let grid_strategy = ProcessingStrategy::UniformGrid(grid);
    let tree_strategy = ProcessingStrategy::AdaptiveQuadTree(quadtree);

    match grid_strategy {
        ProcessingStrategy::UniformGrid(_) => {}
        ProcessingStrategy::AdaptiveQuadTree(_) => {
            panic!("Should not match quadtree");
        }
    }

    match tree_strategy {
        ProcessingStrategy::UniformGrid(_) => {
            panic!("Should not match grid");
        }
        ProcessingStrategy::AdaptiveQuadTree(_) => {}
    }
}

#[test]
fn test_callback_performance_overhead() {
    let counter = Arc::new(AtomicU32::new(0));
    let counter_clone = Arc::clone(&counter);

    let callback = Arc::new(move |_row: u32, _col: u32| {
        counter_clone.fetch_add(1, Ordering::Relaxed);
    });

    let start = std::time::Instant::now();

    for row in 0..100 {
        for col in 0..100 {
            callback(row, col);
        }
    }

    let duration = start.elapsed();

    assert_eq!(counter.load(Ordering::Relaxed), 10000);
    assert!(
        duration.as_millis() < 1000,
        "Callback overhead too high: {duration:?}"
    );
}

#[test]
fn test_arc_cloning_safety() {
    let counter = Arc::new(AtomicU32::new(0));
    let counter_clone = Arc::clone(&counter);

    let callback = Arc::new(move |_row: u32, _col: u32| {
        counter_clone.fetch_add(1, Ordering::Relaxed);
    });

    let callback_for_converter = Arc::clone(&callback);

    callback_for_converter(0, 0);
    callback_for_converter(0, 1);

    assert_eq!(counter.load(Ordering::Relaxed), 2);

    callback(1, 0);
    assert_eq!(counter.load(Ordering::Relaxed), 3);
}

#[test]
fn test_checkerboard_grid_average_cells() {
    // A 4x4 checkerboard of pure red and blue on a 2x2 grid with the average
    // extractor: every cell averages two reds and two blues.
    let image = buffer_from_fn(4, 4, |x, y| {
        if (x + y) % 2 == 0 {
            Rgba::new(255, 0, 0, 255)
        } else {
            Rgba::new(0, 0, 255, 255)
        }
    });

    let grid = Grid::new(4, 4, 2, 2);
    let extractor = ExtractorChoice::Average(AverageColorExtractor);
    let converter = PixelArtConverter::with_grid(grid, extractor);

    let out = converter.convert(&image);
    for y in 0..4 {
        for x in 0..4 {
            assert_eq!(out.get_pixel(x, y), Rgba::new(127, 0, 127, 255));
        }
    }
}

#[test]
fn test_sequential_and_parallel_agree() {
    let image = buffer_from_fn(8, 8, |x, y| Rgba::new((x * 31) as u8, (y * 29) as u8, 77, 255));

    let grid = Grid::new(8, 8, 4, 4);
    let seq_conv = PixelArtConverter::with_grid(
        Grid::new(8, 8, 4, 4),
        ExtractorChoice::Average(AverageColorExtractor),
    );
    let par_conv =
        PixelArtConverter::with_grid(grid, ExtractorChoice::Average(AverageColorExtractor));

    let a = seq_conv.convert(&image);
    let b = par_conv.convert_parallel(&image);
    for y in 0..8 {
        for x in 0..8 {
            assert_eq!(a.get_pixel(x, y), b.get_pixel(x, y));
        }
    }
}
