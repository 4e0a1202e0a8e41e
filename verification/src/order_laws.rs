//! What the coding order does with the rows of one component: it takes
//! them one after the other, from the first on and without a gap.

use crate::row_spec::{
    lemma_sum_bounds, located, order_exists, row_spec_of, rows_per_mcu, rows_per_mcu_sum,
};
use vstd::arithmetic::div_mod::{lemma_fundamental_div_mod, lemma_fundamental_div_mod_converse};
use vstd::prelude::*;

verus! {

/// The place within a row of MCUs at which the rows of the component `c`
/// start: the rows of the components after it come first.
pub open spec fn first_place(heights: Seq<i32>, mcuv: int, c: int) -> int {
    rows_per_mcu_sum(heights, mcuv, heights.len() as int) - rows_per_mcu_sum(heights, mcuv, c + 1)
}

/// `v`, but no less than zero and no more than `most`.
pub open spec fn clamped(v: int, most: int) -> int {
    if v < 0 {
        0
    } else if v > most {
        most
    } else {
        v
    }
}

/// The number of rows of the component `c` among the first `index` steps
/// of the coding order, rows that are passed over counted too.
pub open spec fn rows_before(index: int, heights: Seq<i32>, mcuv: int, c: int) -> int {
    let all = rows_per_mcu_sum(heights, mcuv, heights.len() as int);
    let per_mcu = rows_per_mcu(heights[c] as int, mcuv);
    let mcu_row = index / all;
    mcu_row * per_mcu + clamped(index - mcu_row * all - first_place(heights, mcuv, c), per_mcu)
}

/// The sum over more components is no less.
proof fn lemma_sum_grows(heights: Seq<i32>, mcuv: int, a: int, b: int)
    requires
        mcuv > 0,
        0 <= a <= b <= heights.len(),
        forall|i: int| 0 <= i < heights.len() ==> 0 <= #[trigger] heights[i],
    ensures
        0 <= rows_per_mcu_sum(heights, mcuv, a) <= rows_per_mcu_sum(heights, mcuv, b),
    decreases b - a,
{
    lemma_sum_bounds(heights, mcuv, a);
    if a < b {
        lemma_sum_bounds(heights, mcuv, b);
        lemma_sum_grows(heights, mcuv, a, b - 1);
    }
}

/// The rows of a component with a higher number come before those of a
/// component with a lower number.
proof fn lemma_places_in_order(heights: Seq<i32>, mcuv: int, low: int, high: int)
    requires
        mcuv > 0,
        0 <= low < high < heights.len(),
        forall|i: int| 0 <= i < heights.len() ==> 0 <= #[trigger] heights[i],
    ensures
        0 <= first_place(heights, mcuv, high),
        first_place(heights, mcuv, high) + rows_per_mcu(heights[high] as int, mcuv) <= first_place(
            heights,
            mcuv,
            low,
        ),
{
    lemma_sum_grows(heights, mcuv, low + 1, high);
    lemma_sum_grows(heights, mcuv, high + 1, heights.len() as int);
    assert(rows_per_mcu_sum(heights, mcuv, high + 1) == rows_per_mcu_sum(heights, mcuv, high)
        + rows_per_mcu(heights[high] as int, mcuv));
}

/// A product of two numbers is no more than that of two larger ones.
proof fn lemma_product_grows(a: int, b: int, c: int)
    requires
        0 <= a,
        0 <= b <= c,
    ensures
        0 <= a * b <= a * c,
{
    assert(0 <= a * b <= a * c) by (nonlinear_arith)
        requires
            0 <= a,
            0 <= b <= c,
    ;
}

/// What the search for a place within a row of MCUs finds: the component
/// whose rows hold the place, and the row of that component.
proof fn lemma_located(
    heights: Seq<i32>,
    mcuv: int,
    max_coded_heights: Seq<i32>,
    mcu_row: int,
    place: int,
    i: int,
)
    requires
        mcuv > 0,
        0 <= i < heights.len() <= 4,
        max_coded_heights.len() == heights.len(),
        forall|k: int| 0 <= k < heights.len() ==> 0 <= #[trigger] heights[k],
        0 <= mcu_row,
        0 <= place < rows_per_mcu_sum(heights, mcuv, i + 1),
        mcu_row * rows_per_mcu_sum(heights, mcuv, heights.len() as int) + place + first_place(
            heights,
            mcuv,
            i,
        ) <= i32::MAX,
    ensures
        ({
            let r = located(heights, mcuv, max_coded_heights, mcu_row, place, i);
            let c = r.component as int;
            let at = place + first_place(heights, mcuv, i);
            let per_mcu = rows_per_mcu(heights[c] as int, mcuv);
            &&& 0 <= c <= i
            &&& first_place(heights, mcuv, c) <= at < first_place(heights, mcuv, c) + per_mcu
            &&& r.curr_y == mcu_row * per_mcu + at - first_place(heights, mcuv, c)
            &&& r.luma_y == if c == 0 {
                r.curr_y as int
            } else {
                mcu_row * rows_per_mcu(heights[0] as int, mcuv)
            }
            &&& r.skip == (r.curr_y >= max_coded_heights[c])
            &&& r.done ==> r.skip
        }),
    decreases i,
{
    let all = rows_per_mcu_sum(heights, mcuv, heights.len() as int);
    let per_mcu = rows_per_mcu(heights[i] as int, mcuv);
    lemma_sum_bounds(heights, mcuv, heights.len() as int);
    lemma_sum_grows(heights, mcuv, i + 1, heights.len() as int);
    lemma_sum_grows(heights, mcuv, 0, i);
    assert(rows_per_mcu_sum(heights, mcuv, i + 1) == rows_per_mcu_sum(heights, mcuv, i) + per_mcu);
    lemma_product_grows(mcu_row, per_mcu, all);
    lemma_product_grows(mcu_row, rows_per_mcu(heights[0] as int, mcuv), all);
    if place < per_mcu {
    } else {
        assert(i > 0) by {
            assert(rows_per_mcu_sum(heights, mcuv, 0) == 0);
        }
        assert(first_place(heights, mcuv, i - 1) == first_place(heights, mcuv, i) + per_mcu);
        lemma_located(heights, mcuv, max_coded_heights, mcu_row, place - per_mcu, i - 1);
    }
}

/// The step `index` of the coding order names a component and the next row
/// of that component; its luma row is the next row of the first component;
/// the row is passed over exactly where it is not coded.
pub proof fn lemma_step_names_next_row(
    index: int,
    heights: Seq<i32>,
    mcuv: int,
    max_coded_heights: Seq<i32>,
)
    requires
        order_exists(heights, mcuv, max_coded_heights),
        0 <= index <= i32::MAX,
    ensures
        ({
            let r = row_spec_of(index, heights, mcuv, max_coded_heights);
            let c = r.component as int;
            &&& 0 <= c < heights.len()
            &&& r.curr_y == rows_before(index, heights, mcuv, c)
            &&& r.luma_y == rows_before(index, heights, mcuv, 0)
            &&& r.skip == (r.curr_y >= max_coded_heights[c])
            &&& r.done ==> r.skip
        }),
{
    let n = heights.len() as int;
    let all = rows_per_mcu_sum(heights, mcuv, n);
    let mcu_row = index / all;
    let place = index - mcu_row * all;
    lemma_fundamental_div_mod(index, all);
    assert(0 <= mcu_row && 0 <= place < all) by (nonlinear_arith)
        requires
            0 <= index,
            all > 0,
            mcu_row == index / all,
            place == index - mcu_row * all,
    ;
    assert(first_place(heights, mcuv, n - 1) == 0);
    lemma_located(heights, mcuv, max_coded_heights, mcu_row, place, n - 1);
    let r = row_spec_of(index, heights, mcuv, max_coded_heights);
    let c = r.component as int;
    if c > 0 {
        lemma_places_in_order(heights, mcuv, 0, c);
    }
}

/// From one step of the coding order to the next, the component that the
/// step names has one row more behind it, and the others as many as
/// before.
pub proof fn lemma_step_counts_one_row(
    index: int,
    heights: Seq<i32>,
    mcuv: int,
    max_coded_heights: Seq<i32>,
    c: int,
)
    requires
        order_exists(heights, mcuv, max_coded_heights),
        0 <= index <= i32::MAX,
        0 <= c < heights.len(),
    ensures
        rows_before(index + 1, heights, mcuv, c) == rows_before(index, heights, mcuv, c) + if c
            == row_spec_of(index, heights, mcuv, max_coded_heights).component {
            1int
        } else {
            0int
        },
        0 <= rows_before(index, heights, mcuv, c),
{
    let n = heights.len() as int;
    let all = rows_per_mcu_sum(heights, mcuv, n);
    let mcu_row = index / all;
    let place = index - mcu_row * all;
    let per_mcu = rows_per_mcu(heights[c] as int, mcuv);
    lemma_fundamental_div_mod(index, all);
    assert(0 <= mcu_row && 0 <= place < all) by (nonlinear_arith)
        requires
            0 <= index,
            all > 0,
            mcu_row == index / all,
            place == index - mcu_row * all,
    ;
    lemma_sum_bounds(heights, mcuv, n);
    lemma_product_grows(mcu_row, per_mcu, all);
    assert(first_place(heights, mcuv, n - 1) == 0);
    lemma_located(heights, mcuv, max_coded_heights, mcu_row, place, n - 1);
    let named = row_spec_of(index, heights, mcuv, max_coded_heights).component as int;
    if c < named {
        lemma_places_in_order(heights, mcuv, c, named);
    } else if named < c {
        lemma_places_in_order(heights, mcuv, named, c);
    }
    lemma_sum_grows(heights, mcuv, c + 1, n);
    lemma_sum_grows(heights, mcuv, 0, c);
    assert(rows_per_mcu_sum(heights, mcuv, c + 1) == rows_per_mcu_sum(heights, mcuv, c) + per_mcu);
    if place + 1 < all {
        assert(index + 1 == mcu_row * all + (place + 1));
        lemma_fundamental_div_mod_converse(index + 1, all, mcu_row, place + 1);
    } else {
        assert(index + 1 == (mcu_row + 1) * all + 0) by (nonlinear_arith)
            requires
                index == mcu_row * all + place,
                place + 1 == all,
        ;
        lemma_fundamental_div_mod_converse(index + 1, all, mcu_row + 1, 0);
        assert((mcu_row + 1) * per_mcu == mcu_row * per_mcu + per_mcu) by (nonlinear_arith);
        assert((mcu_row + 1) * all == mcu_row * all + all) by (nonlinear_arith);
    }
}

} // verus!
