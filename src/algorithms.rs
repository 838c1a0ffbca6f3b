//! The generation strategies behind one interface, and choosing one by name.

use vstd::prelude::*;
use vstd::string::StringExecFns;
use crate::brute_force::BruteForce;
use crate::error::SDFError;
use crate::feature_aware::FeatureAwareJFA;
use crate::fixed::UNITS_PER_PIXEL;
use crate::jfa::JumpFloodingAlgorithm;
use crate::multi_channel::MultiChannelInput;
use crate::sdf::SDFData;

verus! {

/// A strategy that turns a channel store into a distance grid.
pub trait SDFAlgorithm {
    /// What `process` returns for `input`.
    spec fn produces(&self, input: &MultiChannelInput, r: Result<SDFData, SDFError>) -> bool;

    /// The strategy's name.
    spec fn spec_name(&self) -> Seq<char>;

    fn process(&self, input: &MultiChannelInput) -> (r: Result<SDFData, SDFError>)
        requires
            input.wf(),
        ensures
            self.produces(input, r),
    ;

    fn name(&self) -> (r: &'static str)
        ensures
            r@ == self.spec_name(),
    ;
}

/// The closed set of strategies, as chosen by name.
pub enum Algorithm {
    BruteForce(BruteForce),
    JumpFlooding(JumpFloodingAlgorithm),
    FeatureAware(FeatureAwareJFA),
}

impl SDFAlgorithm for Algorithm {
    open spec fn produces(&self, input: &MultiChannelInput, r: Result<SDFData, SDFError>) -> bool {
        match self {
            Algorithm::BruteForce(a) => a.result_ok(input, r),
            Algorithm::JumpFlooding(a) => a.result_ok(input, r),
            Algorithm::FeatureAware(a) => a.delegate().result_ok(input, r),
        }
    }

    open spec fn spec_name(&self) -> Seq<char> {
        match self {
            Algorithm::BruteForce(_) => "brute-force"@,
            Algorithm::JumpFlooding(_) => "jump-flooding"@,
            Algorithm::FeatureAware(_) => "feature-aware-jfa"@,
        }
    }

    fn process(&self, input: &MultiChannelInput) -> (r: Result<SDFData, SDFError>) {
        match self {
            Algorithm::BruteForce(a) => a.process(input),
            Algorithm::JumpFlooding(a) => a.process(input),
            Algorithm::FeatureAware(a) => a.process(input),
        }
    }

    fn name(&self) -> (r: &'static str) {
        match self {
            Algorithm::BruteForce(_) => "brute-force",
            Algorithm::JumpFlooding(_) => "jump-flooding",
            Algorithm::FeatureAware(_) => "feature-aware-jfa",
        }
    }
}

/// A name for the result of `str::to_lowercase`.
pub uninterp spec fn lowercase_of(s: Seq<char>) -> Seq<char>;

/// Relies on `str::to_lowercase`: Unicode lowercase mapping, whose result
/// depends on the characters alone.
#[verifier::external_body]
fn to_lower(s: &str) -> (r: String)
    ensures
        r@ == lowercase_of(s@),
{
    s.to_lowercase()
}

pub open spec fn names_brute_force(s: Seq<char>) -> bool {
    s == "brute"@ || s == "brute-force"@
}

pub open spec fn names_jump_flooding(s: Seq<char>) -> bool {
    s == "jfa"@ || s == "jump-flooding"@
}

pub open spec fn names_feature_aware(s: Seq<char>) -> bool {
    s == "feature-aware"@ || s == "feature-aware-jfa"@
}

/// The strategy named by `lower` (a lowercased selector), with default
/// settings; `name` is the selector as given, for the error message.
pub open spec fn selects(lower: Seq<char>, name: Seq<char>, r: Result<Algorithm, SDFError>) -> bool {
    if names_brute_force(lower) {
        r matches Ok(Algorithm::BruteForce(a)) && a.threshold == 128 && a.max_distance == 32
            * UNITS_PER_PIXEL
    } else if names_jump_flooding(lower) {
        r matches Ok(Algorithm::JumpFlooding(a)) && a.threshold == 128 && a.max_distance == 32
            * UNITS_PER_PIXEL && !a.subpixel_precision
    } else if names_feature_aware(lower) {
        r matches Ok(Algorithm::FeatureAware(a)) && a.threshold == 128 && a.max_distance == 32
            * UNITS_PER_PIXEL && a.normal_influence == 50 && a.curvature_influence == 30
    } else {
        r matches Err(SDFError::ProcessingFailed { reason }) && reason@ == "Unknown algorithm: "@ + name
    }
}

/// Chooses a strategy from an already lowercased selector.
pub fn algorithm_from_lowercase(lower: &str, name: &str) -> (r: Result<Algorithm, SDFError>)
    ensures
        selects(lower@, name@, r),
{
    let l = lower.to_owned();
    if l == String::from_str("brute") || l == String::from_str("brute-force") {
        Ok(Algorithm::BruteForce(BruteForce::new()))
    } else if l == String::from_str("jfa") || l == String::from_str("jump-flooding") {
        Ok(Algorithm::JumpFlooding(JumpFloodingAlgorithm::new()))
    } else if l == String::from_str("feature-aware") || l == String::from_str("feature-aware-jfa") {
        Ok(Algorithm::FeatureAware(FeatureAwareJFA::new()))
    } else {
        Err(SDFError::ProcessingFailed { reason: String::from_str("Unknown algorithm: ").concat(name) })
    }
}

/// Chooses a strategy by name, ignoring case.
pub fn create_algorithm(name: &str) -> (r: Result<Algorithm, SDFError>)
    ensures
        selects(lowercase_of(name@), name@, r),
{
    let lower = to_lower(name);
    algorithm_from_lowercase(lower.as_str(), name)
}

} // verus!
