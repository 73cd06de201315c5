//! Run configurations, assembled at the boundary and handed to the library
//! as plain values.

use vstd::prelude::*;
use crate::models::sigma::Sigma;
use crate::smoothing::SmoothingType;
use crate::Mode;

verus! {

/// Configuration of a training run.
pub struct ModelConfig {
    pub filename: String,
    pub modelname: String,
    pub outpath: String,
    pub application_mode: Mode,
    pub sigma: Sigma,
    pub ngram_length: usize,
    pub set_marker: Option<u8>,
    pub smoothing_type: SmoothingType,
}

/// Configuration of a classification run.
pub struct GuessConfig {
    pub filename: String,
    pub model_dir: String,
    pub application_mode: Mode,
    pub sigma: Sigma,
    pub ngram_length: usize,
    pub set_marker: Option<u8>,
    pub in_parallel: bool,
}

} // verus!
