//! Statistics of a coding run.

use vstd::prelude::*;

verus! {

/// What a coder reports of its work. The coder itself counts nothing: the
/// record is there for the surrounding program to fill in.
#[derive(Clone, Copy, Debug)]
pub struct Metrics {
}

impl Default for Metrics {
    fn default() -> Self {
        Metrics {  }
    }
}

impl Metrics {
    /// Hands out the record and starts a new one.
    pub fn drain(&mut self) -> (r: Metrics)
        ensures
            r == *old(self),
    {
        *self
    }
}

} // verus!
