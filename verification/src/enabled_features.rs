//! Choices that an encoder makes and a decoder has to repeat.

use vstd::prelude::*;

verus! {

#[derive(Clone, Copy, Debug)]
pub struct EnabledFeatures {
    /// Whether DC predictions are computed on 16-bit lanes.
    pub use_16bit_adv_predict: bool,
}

} // verus!
