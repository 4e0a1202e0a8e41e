//! The order in which the rows of blocks of the components are coded.
//!
//! The rows are coded one row of MCUs after the other. Within a row of
//! MCUs the rows of the last component come first and those of the first
//! component, luma, come last.

use vstd::prelude::*;

verus! {

/// One step of the coding order.
#[derive(Clone, Copy, Debug, PartialEq, Eq, Structural)]
pub struct RowSpec {
    /// First luma row of the row of MCUs.
    pub min_row_luma_y: i32,
    /// First luma row of the next row of MCUs.
    pub next_row_luma_y: i32,
    /// The luma row that the step belongs to.
    pub luma_y: i32,
    /// The component of the row to code.
    pub component: usize,
    /// The row to code, counted in the component.
    pub curr_y: i32,
    /// The row of MCUs.
    pub mcu_row_index: i32,
    /// Whether the row completes its row of MCUs.
    pub last_row_to_complete_mcu: bool,
    /// Whether there is nothing to code at this step.
    pub skip: bool,
    /// Whether there is nothing to code from this step on.
    pub done: bool,
}

/// Number of rows of blocks that a component of height `height` has in
/// each row of MCUs.
pub open spec fn rows_per_mcu(height: int, mcuv: int) -> int {
    height / mcuv
}

/// Number of rows of blocks, over the first `upto` components, in each row
/// of MCUs.
pub open spec fn rows_per_mcu_sum(heights: Seq<i32>, mcuv: int, upto: int) -> int
    decreases upto,
{
    if upto <= 0 {
        0
    } else {
        rows_per_mcu_sum(heights, mcuv, upto - 1) + rows_per_mcu(heights[upto - 1] as int, mcuv)
    }
}

/// Whether a row of MCUs holds a row to code of one of the first `upto`
/// components.
pub open spec fn any_left_to_code(
    heights: Seq<i32>,
    mcuv: int,
    max_coded_heights: Seq<i32>,
    mcu_row: int,
    upto: int,
) -> bool
    decreases upto,
{
    if upto <= 0 {
        false
    } else {
        any_left_to_code(heights, mcuv, max_coded_heights, mcu_row, upto - 1) || mcu_row
            * rows_per_mcu(heights[upto - 1] as int, mcuv) < max_coded_heights[upto - 1]
    }
}

/// The step for the place `place` within the row of MCUs `mcu_row`, found
/// by going through the components from `i` down.
pub open spec fn located(
    heights: Seq<i32>,
    mcuv: int,
    max_coded_heights: Seq<i32>,
    mcu_row: int,
    place: int,
    i: int,
) -> RowSpec
    decreases i,
{
    let per_mcu = rows_per_mcu(heights[i] as int, mcuv);
    let luma = mcu_row * rows_per_mcu(heights[0] as int, mcuv);
    let base = RowSpec {
        min_row_luma_y: luma as i32,
        next_row_luma_y: (luma + rows_per_mcu(heights[0] as int, mcuv)) as i32,
        luma_y: luma as i32,
        component: heights.len() as usize,
        curr_y: 0,
        mcu_row_index: mcu_row as i32,
        last_row_to_complete_mcu: false,
        skip: false,
        done: false,
    };
    if place < per_mcu {
        let curr_y = mcu_row * per_mcu + place;
        let skipped = curr_y >= max_coded_heights[i];
        RowSpec {
            component: i as usize,
            curr_y: curr_y as i32,
            last_row_to_complete_mcu: place + 1 == per_mcu && i == 0,
            skip: skipped,
            done: skipped && !any_left_to_code(
                heights,
                mcuv,
                max_coded_heights,
                mcu_row,
                heights.len() - 1,
            ),
            luma_y: if i == 0 {
                curr_y as i32
            } else {
                luma as i32
            },
            ..base
        }
    } else if i <= 0 {
        RowSpec { skip: true, done: true, ..base }
    } else {
        located(heights, mcuv, max_coded_heights, mcu_row, place - per_mcu, i - 1)
    }
}

/// The `decode_index`-th step of the coding order of an image whose
/// components have the heights `heights`, in blocks, of which
/// `max_coded_heights` are coded, and which has `mcuv` rows of MCUs.
pub open spec fn row_spec_of(
    decode_index: int,
    heights: Seq<i32>,
    mcuv: int,
    max_coded_heights: Seq<i32>,
) -> RowSpec {
    let per_mcu = rows_per_mcu_sum(heights, mcuv, heights.len() as int);
    let mcu_row = decode_index / per_mcu;
    located(
        heights,
        mcuv,
        max_coded_heights,
        mcu_row,
        decode_index - mcu_row * per_mcu,
        heights.len() - 1,
    )
}

/// Whether an image has a coding order: it has between one and four
/// components, their heights are not negative, and a row of MCUs holds a
/// row of blocks.
pub open spec fn order_exists(heights: Seq<i32>, mcuv: int, max_coded_heights: Seq<i32>) -> bool {
    &&& 1 <= heights.len() <= 4
    &&& max_coded_heights.len() == heights.len()
    &&& mcuv > 0
    &&& forall|i: int| 0 <= i < heights.len() ==> 0 <= #[trigger] heights[i]
    &&& rows_per_mcu_sum(heights, mcuv, heights.len() as int) > 0
}

/// Whether the coding order is defined and can be computed in 32 bits up to
/// the step `decode_index`.
pub open spec fn order_defined(
    decode_index: int,
    heights: Seq<i32>,
    mcuv: int,
    max_coded_heights: Seq<i32>,
) -> bool {
    &&& order_exists(heights, mcuv, max_coded_heights)
    &&& 0 <= decode_index
    &&& decode_index + rows_per_mcu(heights[0] as int, mcuv) <= i32::MAX
}

/// The rows per row of MCUs are not negative, and no component has more
/// of them than all have together.
pub proof fn lemma_sum_bounds(heights: Seq<i32>, mcuv: int, upto: int)
    requires
        mcuv > 0,
        0 <= upto <= heights.len(),
        forall|i: int| 0 <= i < heights.len() ==> 0 <= #[trigger] heights[i],
    ensures
        0 <= rows_per_mcu_sum(heights, mcuv, upto) <= upto * i32::MAX,
        forall|i: int|
            0 <= i < upto ==> 0 <= rows_per_mcu(#[trigger] heights[i] as int, mcuv)
                <= rows_per_mcu_sum(heights, mcuv, upto),
    decreases upto,
{
    if upto > 0 {
        lemma_sum_bounds(heights, mcuv, upto - 1);
        let h = heights[upto - 1] as int;
        assert(0 <= h / mcuv <= h) by (nonlinear_arith)
            requires
                0 <= h,
                mcuv > 0,
        ;
    }
}

impl RowSpec {
    /// The `decode_index`-th step of the coding order.
    pub fn get_row_spec_from_index(
        decode_index: i32,
        heights: &Vec<i32>,
        mcuv: i32,
        max_coded_heights: &Vec<i32>,
    ) -> (r: RowSpec)
        requires
            order_defined(decode_index as int, heights@, mcuv as int, max_coded_heights@),
        ensures
            r == row_spec_of(decode_index as int, heights@, mcuv as int, max_coded_heights@),
            r.component <= heights.len(),
            !r.skip ==> r.component < heights.len() && 0 <= r.curr_y
                < max_coded_heights[r.component as int],
    {
        let num_components = heights.len();
        let mut component_multiple: Vec<i32> = Vec::new();
        let mut mcu_multiple: i64 = 0;
        let mut i: usize = 0;
        while i < num_components
            invariant
                i <= num_components,
                num_components == heights.len(),
                num_components <= 4,
                mcuv > 0,
                forall|k: int| 0 <= k < heights.len() ==> 0 <= #[trigger] heights[k],
                component_multiple.len() == i,
                forall|k: int|
                    0 <= k < i ==> #[trigger] component_multiple[k] == rows_per_mcu(
                        heights[k] as int,
                        mcuv as int,
                    ),
                mcu_multiple == rows_per_mcu_sum(heights@, mcuv as int, i as int),
                0 <= mcu_multiple <= i * i32::MAX,
            decreases num_components - i,
        {
            proof {
                lemma_sum_bounds(heights@, mcuv as int, i + 1);
            }
            component_multiple.push(heights[i] / mcuv);
            mcu_multiple = mcu_multiple + component_multiple[i] as i64;
            i += 1;
        }
        proof {
            lemma_sum_bounds(heights@, mcuv as int, num_components as int);
        }
        let index: i64 = decode_index as i64;
        let mcu_row: i64 = index / mcu_multiple;
        let per_luma: i64 = component_multiple[0] as i64;
        assert(0 <= mcu_row <= index && mcu_row * mcu_multiple <= index && index - mcu_row
            * mcu_multiple < mcu_multiple) by (nonlinear_arith)
            requires
                mcu_row == (index as int) / (mcu_multiple as int),
                0 <= index,
                mcu_multiple > 0,
        ;
        assert(0 <= mcu_row * per_luma <= mcu_row * mcu_multiple) by (nonlinear_arith)
            requires
                0 <= mcu_row,
                0 <= per_luma <= mcu_multiple,
        ;
        let min_row_luma_y = (mcu_row * per_luma) as i32;
        let base = RowSpec {
            skip: false,
            done: false,
            mcu_row_index: mcu_row as i32,
            component: num_components,
            min_row_luma_y,
            next_row_luma_y: min_row_luma_y + component_multiple[0],
            luma_y: min_row_luma_y,
            curr_y: 0,
            last_row_to_complete_mcu: false,
        };
        let mut place_within_scan: i64 = index - (mcu_row * mcu_multiple);
        let mut i: usize = num_components - 1;
        loop
            invariant
                i < num_components,
                num_components == heights.len(),
                num_components == max_coded_heights.len(),
                1 <= num_components <= 4,
                mcuv > 0,
                component_multiple.len() == num_components,
                forall|k: int|
                    0 <= k < num_components ==> #[trigger] component_multiple[k] == rows_per_mcu(
                        heights[k] as int,
                        mcuv as int,
                    ),
                forall|k: int|
                    0 <= k < num_components ==> 0 <= #[trigger] component_multiple[k] <= mcu_multiple,
                0 <= mcu_row <= index <= i32::MAX,
                mcu_row * mcu_multiple <= index,
                0 <= place_within_scan <= index - mcu_row * mcu_multiple,
                base == (RowSpec {
                    skip: false,
                    done: false,
                    mcu_row_index: mcu_row as i32,
                    component: num_components,
                    min_row_luma_y: (mcu_row * rows_per_mcu(heights[0] as int, mcuv as int)) as i32,
                    next_row_luma_y: (mcu_row * rows_per_mcu(heights[0] as int, mcuv as int)
                        + rows_per_mcu(heights[0] as int, mcuv as int)) as i32,
                    luma_y: (mcu_row * rows_per_mcu(heights[0] as int, mcuv as int)) as i32,
                    curr_y: 0,
                    last_row_to_complete_mcu: false,
                }),
                located(
                    heights@,
                    mcuv as int,
                    max_coded_heights@,
                    mcu_row as int,
                    place_within_scan as int,
                    i as int,
                ) == row_spec_of(decode_index as int, heights@, mcuv as int, max_coded_heights@),
            decreases i,
        {
            let per_mcu: i64 = component_multiple[i] as i64;
            if place_within_scan < per_mcu {
                assert(0 <= mcu_row * per_mcu <= mcu_row * mcu_multiple) by (nonlinear_arith)
                    requires
                        0 <= mcu_row,
                        0 <= per_mcu <= mcu_multiple,
                ;
                let curr_y: i32 = (mcu_row * per_mcu + place_within_scan) as i32;
                let skip = curr_y >= max_coded_heights[i];
                let mut done = false;
                if skip {
                    done = true;
                    let mut j: usize = 0;
                    while j < num_components - 1
                        invariant
                            j <= num_components - 1,
                            num_components == heights.len(),
                            num_components == max_coded_heights.len(),
                            component_multiple.len() == num_components,
                            0 <= mcu_row <= i32::MAX,
                            forall|k: int|
                                0 <= k < num_components ==> #[trigger] component_multiple[k]
                                    == rows_per_mcu(heights[k] as int, mcuv as int),
                            done == !any_left_to_code(
                                heights@,
                                mcuv as int,
                                max_coded_heights@,
                                mcu_row as int,
                                j as int,
                            ),
                        decreases num_components - j,
                    {
                        let rows: i64 = component_multiple[j] as i64;
                        assert(-0x7fff_ffff * 0x8000_0000 <= mcu_row * rows <= 0x7fff_ffff
                            * 0x7fff_ffff) by (nonlinear_arith)
                            requires
                                0 <= mcu_row <= 0x7fff_ffff,
                                -0x8000_0000 <= rows <= 0x7fff_ffff,
                        ;
                        if mcu_row * rows < max_coded_heights[j] as i64 {
                            done = false;
                        }
                        j += 1;
                    }
                }
                return RowSpec {
                    component: i,
                    curr_y,
                    last_row_to_complete_mcu: (place_within_scan + 1 == per_mcu) && (i == 0),
                    skip,
                    done,
                    luma_y: if i == 0 {
                        curr_y
                    } else {
                        base.luma_y
                    },
                    ..base
                };
            } else {
                place_within_scan = place_within_scan - per_mcu;
            }
            if i == 0 {
                return RowSpec { skip: true, done: true, ..base };
            }
            i -= 1;
        }
    }
}

} // verus!
