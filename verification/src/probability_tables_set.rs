//! The kinds of places that a block can have in a component.

use crate::probability_tables::ProbabilityTables;
use vstd::prelude::*;

verus! {

/// For every colour component, the neighbours that exist at each kind of
/// place: in the corner, in the first row, at the left border, in the
/// middle, at the right border, and in a component one block wide.
pub struct ProbabilityTablesSet {
    pub corner: [ProbabilityTables; 4],
    pub top: [ProbabilityTables; 4],
    pub mid_left: [ProbabilityTables; 4],
    pub middle: [ProbabilityTables; 4],
    pub mid_right: [ProbabilityTables; 4],
    pub width_one: [ProbabilityTables; 4],
}

/// Whether `pt` belongs to the colour `color` and has the given neighbours.
pub open spec fn tables_are(pt: ProbabilityTables, color: int, left: bool, above: bool) -> bool {
    pt.color() == color && pt.left_present() == left && pt.above_present() == above
}

impl ProbabilityTablesSet {
    /// Every table is what its place calls for.
    pub open spec fn wf(&self) -> bool {
        forall|i: int|
            0 <= i < 4 ==> tables_are(#[trigger] self.corner[i], i, false, false) && tables_are(
                self.top[i],
                i,
                true,
                false,
            ) && tables_are(self.mid_left[i], i, false, true) && tables_are(
                self.middle[i],
                i,
                true,
                true,
            ) && tables_are(self.mid_right[i], i, true, true) && tables_are(
                self.width_one[i],
                i,
                false,
                true,
            )
    }

    pub fn new() -> (r: Self)
        ensures
            r.wf(),
    {
        ProbabilityTablesSet {
            corner: Self::for_colors(false, false),
            top: Self::for_colors(true, false),
            mid_left: Self::for_colors(false, true),
            middle: Self::for_colors(true, true),
            mid_right: Self::for_colors(true, true),
            width_one: Self::for_colors(false, true),
        }
    }

    fn for_colors(left: bool, above: bool) -> (r: [ProbabilityTables; 4])
        ensures
            forall|i: int| 0 <= i < 4 ==> tables_are(#[trigger] r[i], i, left, above),
    {
        [
            ProbabilityTables::new(0, left, above),
            ProbabilityTables::new(1, left, above),
            ProbabilityTables::new(2, left, above),
            ProbabilityTables::new(3, left, above),
        ]
    }
}

} // verus!
