use pixel_art_rust::ConfigError;
use pixel_art_rust::ConversionRequest;
use pixel_art_rust::VARIANCE_SCALE;

fn base_request() -> ConversionRequest {
    ConversionRequest {
        width: 32,
        height: 10,
        input_path_empty: false,
        output_path_empty: false,
        colors: Some(50),
        adaptive: false,
        max_depth: 10,
        variance_threshold: 50 * VARIANCE_SCALE,
    }
}

#[test]
fn test_validation_valid_args() {
    let request = base_request();
    assert!(request.validate().is_ok());
}

#[test]
fn test_validation_max_depth_constraints() {
    let mut request = base_request();
    request.adaptive = true;
    request.max_depth = 21;
    assert_eq!(request.validate(), Err(ConfigError::MaxDepthTooLarge));

    request.max_depth = 0;
    assert_eq!(request.validate(), Err(ConfigError::MaxDepthZero));
}

#[test]
fn test_validation_variance_threshold_constraints() {
    let mut request = base_request();
    request.adaptive = true;
    request.variance_threshold = 1000 * VARIANCE_SCALE;
    assert_eq!(
        request.validate(),
        Err(ConfigError::VarianceThresholdTooLarge)
    );

    request.variance_threshold = 255 * VARIANCE_SCALE;
    assert!(request.validate().is_ok());
}

#[test]
fn test_validation_rejects_zero_dimensions() {
    let mut request = base_request();
    request.width = 0;
    assert_eq!(request.validate(), Err(ConfigError::WidthZero));

    let mut request = base_request();
    request.height = 0;
    assert_eq!(request.validate(), Err(ConfigError::HeightZero));
}

#[test]
fn test_validation_rejects_bad_palette_sizes() {
    let mut request = base_request();
    request.colors = Some(0);
    assert_eq!(request.validate(), Err(ConfigError::ColorsZero));

    request.colors = Some(257);
    assert_eq!(request.validate(), Err(ConfigError::ColorsTooMany));

    request.colors = Some(256);
    assert!(request.validate().is_ok());

    request.colors = None;
    assert!(request.validate().is_ok());
}

#[test]
fn test_validation_rejects_empty_paths() {
    let mut request = base_request();
    request.input_path_empty = true;
    assert_eq!(request.validate(), Err(ConfigError::InputPathEmpty));

    let mut request = base_request();
    request.output_path_empty = true;
    assert_eq!(request.validate(), Err(ConfigError::OutputPathEmpty));
}
