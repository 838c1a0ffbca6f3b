//! The library's error kinds.

use vstd::prelude::*;
use vstd::string::StringExecFns;

verus! {

/// The ways in which building or processing a distance field can fail.
#[derive(Debug)]
pub enum SDFError {
    InvalidChannelConfig(String),
    DimensionMismatch { expected: u32, expected_h: u32, actual_w: u32, actual_h: u32 },
    UnsupportedFormat { format: String },
    ProcessingFailed { reason: String },
    OutOfMemory { requested: usize },
    ValidationError { details: String },
}

impl SDFError {
    /// An advisory hint for the user; it never affects control flow.
    pub fn recovery_suggestion(&self) -> (r: Option<String>)
        ensures
            match self {
                SDFError::DimensionMismatch { .. } => r is Some && r->0@
                    == "Try resizing all input channels to the same dimensions"@,
                SDFError::OutOfMemory { .. } => r is Some && r->0@
                    == "Try reducing the image size or using streaming processing"@,
                SDFError::UnsupportedFormat { format } => r is Some && r->0@ == "Convert "@
                    + format@ + " to PNG, JPEG, or TGA format"@,
                _ => r is None,
            },
    {
        match self {
            SDFError::DimensionMismatch { .. } => {
                Some(String::from_str("Try resizing all input channels to the same dimensions"))
            },
            SDFError::OutOfMemory { .. } => {
                Some(String::from_str("Try reducing the image size or using streaming processing"))
            },
            SDFError::UnsupportedFormat { format } => {
                let s = String::from_str("Convert ").concat(format.as_str());
                Some(s.concat(" to PNG, JPEG, or TGA format"))
            },
            _ => None,
        }
    }
}

} // verus!
