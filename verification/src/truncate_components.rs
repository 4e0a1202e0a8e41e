//! How much of each component is coded.

use vstd::prelude::*;

verus! {

/// For every component, the number of blocks and the number of rows of
/// blocks that are coded, and the number of rows of MCUs in the image.
pub struct TruncateComponents {
    pub component_sizes_in_blocks: Vec<i32>,
    pub max_coded_heights: Vec<i32>,
    pub mcu_count_vertical: i32,
}

impl TruncateComponents {
    pub fn get_component_sizes_in_blocks(&self) -> (r: &Vec<i32>)
        ensures
            r@ == self.component_sizes_in_blocks@,
    {
        &self.component_sizes_in_blocks
    }

    pub fn get_max_coded_heights(&self) -> (r: &Vec<i32>)
        ensures
            r@ == self.max_coded_heights@,
    {
        &self.max_coded_heights
    }
}

} // verus!
