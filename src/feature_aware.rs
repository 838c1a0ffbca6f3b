//! The feature-aware strategy, which for now delegates to jump flooding.

use vstd::prelude::*;
use crate::algorithms::SDFAlgorithm;
use crate::error::SDFError;
use crate::fixed::UNITS_PER_PIXEL;
use crate::jfa::JumpFloodingAlgorithm;
use crate::multi_channel::MultiChannelInput;
use crate::sdf::SDFData;

verus! {

/// The slot for feature-aware generation. Normal and curvature channels
/// are meant to bias the distances near sharp features; until that exists
/// it produces exactly what jump flooding produces with the same threshold
/// and maximum distance.
pub struct FeatureAwareJFA {
    pub threshold: u8,
    pub max_distance: u32,
    /// Influence of the normal channel, in percent.
    pub normal_influence: u32,
    /// Influence of the curvature channel, in percent.
    pub curvature_influence: u32,
}

impl FeatureAwareJFA {
    /// Threshold 128, a maximum distance of 32 pixels, influences of 50%
    /// (normal) and 30% (curvature).
    pub fn new() -> (r: Self)
        ensures
            r.threshold == 128,
            r.max_distance == 32 * UNITS_PER_PIXEL,
            r.normal_influence == 50,
            r.curvature_influence == 30,
    {
        FeatureAwareJFA {
            threshold: 128,
            max_distance: 32 * UNITS_PER_PIXEL,
            normal_influence: 50,
            curvature_influence: 30,
        }
    }

    pub fn with_threshold(self, threshold: u8) -> (r: Self)
        ensures
            r == (FeatureAwareJFA { threshold, ..self }),
    {
        FeatureAwareJFA { threshold, ..self }
    }

    /// Sets the maximum distance, in distance units.
    pub fn with_max_distance(self, max_distance: u32) -> (r: Self)
        ensures
            r == (FeatureAwareJFA { max_distance, ..self }),
    {
        FeatureAwareJFA { max_distance, ..self }
    }

    /// Sets the influence of the normal channel, in percent.
    pub fn with_normal_influence(self, influence: u32) -> (r: Self)
        ensures
            r == (FeatureAwareJFA { normal_influence: influence, ..self }),
    {
        FeatureAwareJFA { normal_influence: influence, ..self }
    }

    /// Sets the influence of the curvature channel, in percent.
    pub fn with_curvature_influence(self, influence: u32) -> (r: Self)
        ensures
            r == (FeatureAwareJFA { curvature_influence: influence, ..self }),
    {
        FeatureAwareJFA { curvature_influence: influence, ..self }
    }

    /// The jump-flooding configuration this strategy delegates to.
    pub open spec fn delegate(&self) -> JumpFloodingAlgorithm {
        JumpFloodingAlgorithm {
            threshold: self.threshold,
            max_distance: self.max_distance,
            subpixel_precision: false,
        }
    }
}

impl SDFAlgorithm for FeatureAwareJFA {
    open spec fn produces(&self, input: &MultiChannelInput, r: Result<SDFData, SDFError>) -> bool {
        self.delegate().result_ok(input, r)
    }

    open spec fn spec_name(&self) -> Seq<char> {
        "feature-aware-jfa"@
    }

    /// Computes the signed distance field of the primary channel, as jump
    /// flooding with the same threshold and maximum distance does.
    fn process(&self, input: &MultiChannelInput) -> (r: Result<SDFData, SDFError>) {
        let basic = JumpFloodingAlgorithm::new().with_threshold(self.threshold).with_max_distance(
            self.max_distance,
        );
        basic.process(input)
    }

    fn name(&self) -> (r: &'static str) {
        "feature-aware-jfa"
    }
}

} // verus!
