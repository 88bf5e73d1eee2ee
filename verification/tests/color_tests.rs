use pixel_art_rust::calculate_color_variance;
use pixel_art_rust::color_distance_lab;
use pixel_art_rust::AverageColorExtractor;
use pixel_art_rust::ColorExtractor;
use pixel_art_rust::KMeansExtractor;
use pixel_art_rust::MedianCutExtractor;
use pixel_art_rust::Rgba;
use pixel_art_rust::COLOR_SCALE;
use pixel_art_rust::VARIANCE_SCALE;

#[test]
fn test_average_color_extraction() {
    let extractor = AverageColorExtractor;

    let pixels = vec![
        Rgba::new(255, 0, 0, 255),
        Rgba::new(255, 0, 0, 255),
        Rgba::new(255, 0, 0, 255),
    ];
    let result = extractor.extract_color(&pixels);
    assert_eq!(result, Rgba::new(255, 0, 0, 255));

    let pixels = vec![
        Rgba::new(255, 0, 0, 255),
        Rgba::new(0, 255, 0, 255),
        Rgba::new(0, 0, 255, 255),
    ];
    let result = extractor.extract_color(&pixels);
    assert_eq!(result, Rgba::new(85, 85, 85, 255));

    let pixels = vec![];
    let result = extractor.extract_color(&pixels);
    assert_eq!(result, Rgba::new(0, 0, 0, 255));
}

#[test]
fn test_median_cut_algorithm() {
    let extractor = MedianCutExtractor { max_colors: 2 };

    let pixels = vec![
        Rgba::new(255, 0, 0, 255),
        Rgba::new(0, 255, 0, 255),
        Rgba::new(0, 0, 255, 255),
        Rgba::new(255, 255, 0, 255),
    ];

    let result = extractor.extract_color(&pixels);
    assert!(result.a == 255);

    let pixels = vec![Rgba::new(128, 128, 128, 255)];
    let result = extractor.extract_color(&pixels);
    assert_eq!(result, Rgba::new(128, 128, 128, 255));
}

#[test]
fn test_kmeans_clustering() {
    let extractor = KMeansExtractor {
        k: 3,
        max_iterations: 10,
    };

    let pixels = vec![
        Rgba::new(255, 0, 0, 255),
        Rgba::new(250, 5, 5, 255),
        Rgba::new(0, 255, 0, 255),
        Rgba::new(5, 250, 5, 255),
        Rgba::new(0, 0, 255, 255),
        Rgba::new(5, 5, 250, 255),
    ];

    let result = extractor.extract_color(&pixels);
    assert!(result.a == 255);
}

#[test]
fn test_color_distance_in_lab_space() {
    // Identical colors sit at distance zero.
    let color1 = Rgba::new(255, 0, 0, 255);
    let color2 = Rgba::new(255, 0, 0, 255);
    let distance = color_distance_lab(&color1, &color2);
    assert!(distance < COLOR_SCALE / 100);

    // Red and green are far apart.
    let color1 = Rgba::new(255, 0, 0, 255);
    let color2 = Rgba::new(0, 255, 0, 255);
    let distance = color_distance_lab(&color1, &color2);
    assert!(distance > 10 * COLOR_SCALE);

    // Black and white span the whole lightness axis.
    let color1 = Rgba::new(0, 0, 0, 255);
    let color2 = Rgba::new(255, 255, 255, 255);
    let distance = color_distance_lab(&color1, &color2);
    assert!(distance > 50 * COLOR_SCALE);
}

#[test]
fn test_quadtree_color_variance() {
    let pixels = vec![
        Rgba::new(100, 100, 100, 255),
        Rgba::new(101, 101, 101, 255),
        Rgba::new(99, 99, 99, 255),
    ];
    let (mean, variance) = calculate_color_variance(&pixels);
    assert!(variance < 5 * VARIANCE_SCALE);
    assert!(mean.r >= 99 && mean.r <= 101);

    let pixels = vec![
        Rgba::new(0, 0, 0, 255),
        Rgba::new(255, 255, 255, 255),
        Rgba::new(255, 0, 0, 255),
        Rgba::new(0, 255, 0, 255),
    ];
    let (_mean, variance) = calculate_color_variance(&pixels);
    assert!(variance > 50 * VARIANCE_SCALE);
}

#[test]
fn test_color_distance_symmetry_pairs() {
    let samples = [
        (Rgba::new(12, 200, 33, 255), Rgba::new(199, 4, 250, 255)),
        (Rgba::new(0, 0, 0, 255), Rgba::new(255, 255, 255, 255)),
        (Rgba::new(128, 128, 128, 0), Rgba::new(127, 130, 125, 9)),
    ];
    for (a, b) in samples.iter() {
        assert_eq!(color_distance_lab(a, b), color_distance_lab(b, a));
        assert_eq!(color_distance_lab(a, a), 0);
        assert_eq!(color_distance_lab(b, b), 0);
    }
}

#[test]
fn test_variance_of_identical_pixels_is_zero() {
    let pixels = vec![Rgba::new(77, 12, 250, 13); 9];
    let (mean, variance) = calculate_color_variance(&pixels);
    assert_eq!(mean, Rgba::new(77, 12, 250, 255));
    assert_eq!(variance, 0);
}

#[test]
fn test_fast_distance_matches_exact_within_tolerance() {
    let tables = pixel_art_rust::DistanceTables::new();
    let samples = [
        (Rgba::new(0, 0, 0, 255), Rgba::new(255, 255, 255, 255)),
        (Rgba::new(255, 0, 0, 255), Rgba::new(0, 255, 0, 255)),
        (Rgba::new(13, 120, 250, 255), Rgba::new(14, 121, 250, 255)),
        (Rgba::new(90, 90, 90, 255), Rgba::new(90, 90, 90, 255)),
    ];
    for (a, b) in samples.iter() {
        let exact = pixel_art_rust::color_distance_lab(a, b);
        let fast = pixel_art_rust::color_distance_lab_fast(&tables, a, b);
        // The knee table quantizes its argument to 4096 cells; both variants
        // agree to well under one L*a*b* unit.
        let diff = if exact >= fast { exact - fast } else { fast - exact };
        assert!(diff < COLOR_SCALE);
        assert_eq!(
            fast,
            pixel_art_rust::color_distance_lab_fast(&tables, b, a)
        );
    }
    let black = Rgba::new(0, 0, 0, 255);
    let white = Rgba::new(255, 255, 255, 255);
    assert!(pixel_art_rust::color_distance_lab_fast(&tables, &black, &white) > 50 * COLOR_SCALE);
    assert_eq!(pixel_art_rust::color_distance_lab_fast(&tables, &black, &black), 0);
}
