use vstd::prelude::*;

verus! {

/// The checks a conversion request must pass before any processing starts.
/// The variance threshold is carried at the variance scale: 255 units is
/// `255 * VARIANCE_SCALE`.
#[derive(Clone, Debug, PartialEq, Eq, Structural)]
pub struct ConversionRequest {
    pub width: u32,
    pub height: u32,
    pub input_path_empty: bool,
    pub output_path_empty: bool,
    pub colors: Option<u32>,
    pub adaptive: bool,
    pub max_depth: u32,
    pub variance_threshold: u64,
}

/// Why a conversion request is rejected; at most one reason is reported,
/// the first in the order the checks run.
#[derive(Clone, Debug, PartialEq, Eq, Structural)]
pub enum ConfigError {
    WidthZero,
    HeightZero,
    InputPathEmpty,
    OutputPathEmpty,
    ColorsZero,
    ColorsTooMany,
    MaxDepthZero,
    MaxDepthTooLarge,
    VarianceThresholdTooLarge,
}

pub const MAX_VARIANCE_THRESHOLD: u64 = 255 * crate::lab::VARIANCE_SCALE;

impl ConversionRequest {
    /// Every check the request must pass: positive grid divisions, paths
    /// given, a palette size between one and 256 when given, and, under the
    /// adaptive strategy, a recursion depth between one and twenty and a
    /// variance threshold of at most 255 units.
    pub open spec fn spec_valid(&self) -> bool {
        &&& self.width > 0
        &&& self.height > 0
        &&& !self.input_path_empty
        &&& !self.output_path_empty
        &&& (self.colors matches Some(c) ==> 1 <= c <= 256)
        &&& (self.adaptive ==> 1 <= self.max_depth <= 20 && self.variance_threshold
            <= MAX_VARIANCE_THRESHOLD)
    }

    /// Accepts exactly the valid requests; a rejected request names the
    /// first check it failed.
    pub fn validate(&self) -> (r: Result<(), ConfigError>)
        ensures
            r is Ok <==> self.spec_valid(),
            self.width == 0 ==> r == Result::<(), ConfigError>::Err(ConfigError::WidthZero),
            self.width > 0 && self.height == 0 ==> r == Result::<(), ConfigError>::Err(
                ConfigError::HeightZero,
            ),
    {
        if self.width == 0 {
            return Err(ConfigError::WidthZero);
        }
        if self.height == 0 {
            return Err(ConfigError::HeightZero);
        }
        if self.input_path_empty {
            return Err(ConfigError::InputPathEmpty);
        }
        if self.output_path_empty {
            return Err(ConfigError::OutputPathEmpty);
        }
        match self.colors {
            Some(colors) => {
                if colors == 0 {
                    return Err(ConfigError::ColorsZero);
                }
                if colors > 256 {
                    return Err(ConfigError::ColorsTooMany);
                }
            },
            None => {},
        }
        if self.adaptive {
            if self.max_depth == 0 {
                return Err(ConfigError::MaxDepthZero);
            }
            if self.max_depth > 20 {
                return Err(ConfigError::MaxDepthTooLarge);
            }
            if self.variance_threshold > MAX_VARIANCE_THRESHOLD {
                return Err(ConfigError::VarianceThresholdTooLarge);
            }
        }
        Ok(())
    }
}

} // verus!
