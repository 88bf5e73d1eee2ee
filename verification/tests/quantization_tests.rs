use pixel_art_rust::analyze_color_frequency;
use pixel_art_rust::is_uniform_region;
use pixel_art_rust::Axis;
use pixel_art_rust::ColorBucket;
use pixel_art_rust::FastMedianCut;
use pixel_art_rust::MedianCutQuantizer;
use pixel_art_rust::Rgba;

#[test]
fn test_median_cut_quantizer_basic() {
    let pixels = vec![
        Rgba::new(255, 0, 0, 255),
        Rgba::new(0, 255, 0, 255),
        Rgba::new(0, 0, 255, 255),
        Rgba::new(255, 255, 0, 255),
        Rgba::new(255, 0, 255, 255),
        Rgba::new(0, 255, 255, 255),
    ];

    let palette = MedianCutQuantizer::quantize(&pixels, 3);

    assert_eq!(palette.len(), 3);
    for color in &palette {
        assert_eq!(color.a, 255);
    }
}

#[test]
fn test_median_cut_quantizer_single_color() {
    let pixels = vec![
        Rgba::new(128, 128, 128, 255),
        Rgba::new(128, 128, 128, 255),
        Rgba::new(128, 128, 128, 255),
    ];

    let palette = MedianCutQuantizer::quantize(&pixels, 3);

    assert_eq!(palette.len(), 1);
    assert_eq!(palette[0], Rgba::new(128, 128, 128, 255));
}

#[test]
fn test_median_cut_quantizer_empty() {
    let pixels = vec![];
    let palette = MedianCutQuantizer::quantize(&pixels, 3);

    assert!(palette.is_empty());
}

#[test]
fn test_median_cut_quantizer_more_colors_than_pixels() {
    let pixels = vec![Rgba::new(255, 0, 0, 255), Rgba::new(0, 255, 0, 255)];

    let palette = MedianCutQuantizer::quantize(&pixels, 5);

    assert_eq!(palette.len(), 2);
    assert!(palette.contains(&Rgba::new(255, 0, 0, 255)));
    assert!(palette.contains(&Rgba::new(0, 255, 0, 255)));
}

#[test]
fn test_color_bucket_creation() {
    let pixels = vec![
        Rgba::new(255, 0, 0, 255),
        Rgba::new(0, 255, 0, 255),
        Rgba::new(0, 0, 255, 255),
    ];

    let bucket = ColorBucket::new(pixels.clone());

    assert_eq!(bucket.pixels.len(), 3);
    assert_eq!(bucket.pixels, pixels);
}

#[test]
fn test_color_bucket_range_calculation() {
    let pixels = vec![
        Rgba::new(100, 50, 200, 255),
        Rgba::new(150, 100, 100, 255),
        Rgba::new(200, 150, 50, 255),
    ];

    let bucket = ColorBucket::new(pixels);
    let ranges = bucket.get_color_ranges();

    assert_eq!(ranges.0, 100);
    assert_eq!(ranges.1, 100);
    assert_eq!(ranges.2, 150);
}

#[test]
fn test_find_largest_axis() {
    let pixels = vec![Rgba::new(0, 50, 100, 255), Rgba::new(255, 60, 110, 255)];

    let bucket = ColorBucket::new(pixels);
    let axis = MedianCutQuantizer::find_largest_axis(&bucket);

    assert_eq!(axis, Axis::Red);
}

#[test]
fn test_bucket_splitting() {
    let pixels = vec![
        Rgba::new(50, 100, 150, 255),
        Rgba::new(100, 100, 150, 255),
        Rgba::new(150, 100, 150, 255),
        Rgba::new(200, 100, 150, 255),
    ];

    let bucket = ColorBucket::new(pixels);
    let (left, right) = MedianCutQuantizer::split_bucket(bucket, Axis::Red);

    assert_eq!(left.pixels.len(), 2);
    assert_eq!(right.pixels.len(), 2);

    for pixel in &left.pixels {
        assert!(pixel.r <= 100);
    }

    for pixel in &right.pixels {
        assert!(pixel.r >= 100);
    }
}

#[test]
fn test_representative_color_extraction() {
    let pixels = vec![
        Rgba::new(100, 150, 200, 255),
        Rgba::new(110, 160, 210, 255),
        Rgba::new(90, 140, 190, 255),
    ];

    let bucket = ColorBucket::new(pixels);
    let representative = bucket.get_representative_color();

    assert!(representative.r >= 95 && representative.r <= 105);
    assert!(representative.g >= 145 && representative.g <= 155);
    assert!(representative.b >= 195 && representative.b <= 205);
    assert_eq!(representative.a, 255);
}

#[test]
fn test_fast_median_cut_dominant_colors() {
    let mut quantizer = FastMedianCut::new();
    let mut pixels = Vec::new();
    for _ in 0..9 {
        pixels.push(Rgba::new(200, 16, 8, 255));
    }
    for _ in 0..4 {
        pixels.push(Rgba::new(8, 200, 16, 255));
    }
    pixels.push(Rgba::new(16, 8, 200, 255));
    quantizer.build_histogram(&pixels);
    let dominant = quantizer.get_dominant_colors(2);
    assert_eq!(dominant.len(), 2);
    assert_eq!(dominant[0], Rgba::new(200, 16, 8, 255));
    assert_eq!(dominant[1], Rgba::new(8, 200, 16, 255));
}

#[test]
fn test_is_uniform_region_cases() {
    let empty: Vec<Rgba> = Vec::new();
    assert_eq!(is_uniform_region(&empty, 4), None);

    let close = vec![
        Rgba::new(100, 100, 100, 255),
        Rgba::new(102, 99, 101, 255),
    ];
    assert_eq!(is_uniform_region(&close, 4), Some(Rgba::new(100, 100, 100, 255)));

    let far = vec![
        Rgba::new(100, 100, 100, 255),
        Rgba::new(120, 99, 101, 255),
    ];
    assert_eq!(is_uniform_region(&far, 4), None);
}

#[test]
fn test_analyze_color_frequency_counts() {
    let pixels = vec![
        Rgba::new(1, 2, 3, 255),
        Rgba::new(4, 5, 6, 255),
        Rgba::new(1, 2, 3, 255),
        Rgba::new(1, 2, 3, 255),
    ];
    let freq = analyze_color_frequency(&pixels);
    assert_eq!(freq.len(), 2);
    assert_eq!(freq[0], (Rgba::new(1, 2, 3, 255), 3));
    assert_eq!(freq[1], (Rgba::new(4, 5, 6, 255), 1));
}
