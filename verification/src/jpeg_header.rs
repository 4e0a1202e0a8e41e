//! What the coefficient coder reads of a JPEG header.

use vstd::prelude::*;

verus! {

/// Geometry and table choice of one colour component.
#[derive(Clone, Copy, Debug)]
pub struct ComponentInfo {
    /// Index of the component's quantization table.
    pub q_table_index: u8,
    /// Height of the component, in blocks.
    pub bcv: i32,
    /// Width of the component, in blocks.
    pub bch: i32,
}

/// The header fields that the coder depends on.
#[derive(Clone, Copy, Debug)]
pub struct JPegHeader {
    /// The quantization tables, each in zigzag order.
    pub q_tables: [[u16; 64]; 4],
    /// The colour components.
    pub components: [ComponentInfo; 4],
}

} // verus!
