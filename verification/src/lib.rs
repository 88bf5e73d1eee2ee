use vstd::prelude::*;

mod buffer;
mod color;
mod config;
mod converter;
mod grid;
mod lab;
mod quadtree;
mod quantization;

pub use buffer::PixelBuffer;
pub use color::average_color;
pub use color::create_color_extractor;
pub use color::AverageColorExtractor;
pub use color::ColorAlgorithm;
pub use color::ColorExtractor;
pub use color::ExtractorChoice;
pub use color::KMeansExtractor;
pub use color::MedianCutExtractor;
pub use color::PixelDataSoA;
pub use color::Rgba;
pub use color::SimdAverageColorExtractor;
pub use color::SoAAverageColorExtractor;
pub use config::ConfigError;
pub use config::ConversionRequest;
pub use converter::PixelArtConverter;
pub use converter::ProcessingStrategy;
pub use grid::Grid;
pub use lab::calculate_color_variance;
pub use lab::color_distance_lab;
pub use lab::color_distance_lab_fast;
pub use lab::DistanceTables;
pub use lab::COLOR_SCALE;
pub use lab::VARIANCE_SCALE;
pub use quadtree::calculate_region_variance;
pub use quadtree::should_split_node;
pub use quadtree::ImageRegion;
pub use quadtree::QuadChildren;
pub use quadtree::QuadNode;
pub use quadtree::QuadTree;
pub use quantization::analyze_color_frequency;
pub use quantization::is_uniform_region;
pub use quantization::Axis;
pub use quantization::ColorBucket;
pub use quantization::FastMedianCut;
pub use quantization::MedianCutQuantizer;

verus! {

} // verus!
