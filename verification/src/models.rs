//! Plain data exchanged with the user interface.
use vstd::prelude::*;

verus! {

/// One observed byte/text transition of a recovery path.
#[derive(Clone, Debug)]
pub struct TransformationStep {
    pub operation: String,
    pub encoding: String,
    pub input_type: String,
    pub output_type: String,
    pub input_preview: String,
    pub output_preview: String,
    pub input_size: usize,
    pub output_size: usize,
    pub lossy: bool,
    pub replacement_count: usize,
}

} // verus!
