//! Which neighbours a block has, and the predictions made from them.

use crate::block_based_image::AlignedBlock;
use crate::block_context::NeighborData;
use crate::consts::{
    ICOS_BASED_8192_SCALED, ICOS_BASED_8192_SCALED_PM, NON_ZERO_TO_BIN, NON_ZERO_TO_BIN_7X7,
};
use crate::enabled_features::EnabledFeatures;
use crate::idct::{idct_of, run_idct, scaled};
use crate::lanes::{
    add16, add32, gather16, lanes_add16, lanes_add32, lanes_greatest16, lanes_least16, lanes_max16,
    lanes_min16, lanes_mul32, lanes_sub16, lanes_sub32, lanes_sum32, lanes_widen, max16, min16,
    mul32, reduce_add32, reduce_max16, reduce_min16, row32, row_of, splat16, splat32, strided,
    sub16, sub32, widen16,
};
use crate::neighbor_summary::{half16, half_toward_zero, lanes_half16};
use crate::quantization_tables::QuantizationTables;
use vstd::prelude::*;

verus! {

/// `i16::unsigned_abs` of the standard library: the absolute value, which
/// always fits the unsigned type.
pub assume_specification[ i16::unsigned_abs ](x: i16) -> (r: u16)
    ensures
        r == magnitude(x as int),
;

/// `i32::unsigned_abs` of the standard library: the absolute value, which
/// always fits the unsigned type.
pub assume_specification[ i32::unsigned_abs ](x: i32) -> (r: u32)
    ensures
        r == magnitude(x as int),
;

/// The absolute value of `x`.
pub open spec fn magnitude(x: int) -> int {
    if x < 0 {
        -x
    } else {
        x
    }
}

/// `a / b` rounded toward zero, and zero where `b` is zero.
pub open spec fn quotient_toward_zero(a: int, b: int) -> int {
    if b == 0 {
        0
    } else if a >= 0 {
        a / b
    } else {
        -((-a) / b)
    }
}

/// Largest magnitude of a DC coefficient.
pub const MAX_DC: i32 = 1024;

/// Adds a prediction to a coded difference, or takes it off a coefficient,
/// and folds what leaves the range -1024..=1024 back into it.
pub open spec fn fold_dc(saved_dc: int, recover_original: bool, predicted_val: int) -> int {
    let sum = saved_dc + if recover_original {
        predicted_val
    } else {
        -predicted_val
    };
    let raised = if sum < -MAX_DC {
        sum + (2 * MAX_DC + 1)
    } else {
        sum
    };
    if raised > MAX_DC {
        raised - (2 * MAX_DC + 1)
    } else {
        raised
    }
}

/// Context of the number of non-zero inner coefficients, from the numbers
/// of the neighbours above and to the left that exist.
pub open spec fn non_zero_context(above: Option<int>, left: Option<int>) -> int {
    match (above, left) {
        (Some(a), Some(l)) => (a + l + 2) / 4,
        (Some(a), None) => (a + 1) / 2,
        (None, Some(l)) => (l + 1) / 2,
        (None, None) => 0,
    }
}

/// Weighted mean of the magnitudes of a coefficient in the three
/// neighbours: 13 parts each of left and above, 6 of above-left, out of 32.
pub open spec fn weighted_prior(left: i16, above: i16, above_left: i16) -> int {
    ((magnitude(left as int) + magnitude(above as int)) * 13 + 6 * magnitude(above_left as int))
        / 32
}

/// DC estimates on 16-bit lanes, one per border pixel: what the neighbour
/// expects at the border, `border`, less what the block has there without its
/// DC term: the pixel `near` the border, level-shifted, carried on by half
/// the step from the pixel `inner` to it.
pub open spec fn narrow_estimates(near: Seq<i16>, inner: Seq<i16>, border: Seq<i16>) -> Seq<i16> {
    let a = lanes_add16(near, Seq::new(8, |i: int| 1024i16));
    let b = lanes_sub16(border, lanes_half16(lanes_sub16(near, inner)));
    lanes_sub16(b, a)
}

/// One DC estimate computed in 32 bits and cut to 16.
pub open spec fn wide_estimate(near: i16, inner: i16, border: i16) -> i16 {
    ((border - half_toward_zero(near - inner)) - (near + 1024)) as i16
}

/// DC estimates computed in 32 bits.
pub open spec fn wide_estimates(near: Seq<i16>, inner: Seq<i16>, border: Seq<i16>) -> Seq<i16> {
    Seq::new(8, |i: int| wide_estimate(near[i], inner[i], border[i]))
}

/// The DC estimates that `features` asks for.
pub open spec fn estimates_of(
    features: EnabledFeatures,
    near: Seq<i16>,
    inner: Seq<i16>,
    border: Seq<i16>,
) -> Seq<i16> {
    if features.use_16bit_adv_predict {
        narrow_estimates(near, inner, border)
    } else {
        wide_estimates(near, inner, border)
    }
}

/// A DC prediction and how far it can be trusted.
pub struct Prediction {
    pub predicted_dc: i32,
    pub uncertainty: i16,
    pub uncertainty2: i16,
}

/// The prediction made from the estimates along the left border, `horiz`,
/// and along the upper border, `vert`, where they exist, for a block whose
/// DC coefficient is quantized in steps of `q0`.
#[verifier::opaque]
pub open spec fn prediction_from(horiz: Option<Seq<i16>>, vert: Option<Seq<i16>>, q0: i32) -> Prediction {
    if horiz.is_none() && vert.is_none() {
        Prediction { predicted_dc: 0, uncertainty: 0, uncertainty2: 0 }
    } else {
        let h = if horiz.is_some() {
            horiz.unwrap()
        } else {
            vert.unwrap()
        };
        let v = if vert.is_some() {
            vert.unwrap()
        } else {
            horiz.unwrap()
        };
        let min_dc = lanes_least16(lanes_min16(h, v));
        let max_dc = lanes_greatest16(lanes_max16(h, v));
        let avg_h = lanes_sum32(lanes_widen(h));
        let avg_v = lanes_sum32(lanes_widen(v));
        let avgmed = ((avg_v + avg_h) as i32) >> 1u32;
        let far = if magnitude(avg_h - avgmed) < magnitude(avg_v - avgmed) {
            magnitude(avg_h - avgmed)
        } else {
            magnitude(avg_v - avgmed)
        };
        Prediction {
            predicted_dc: ((quotient_toward_zero(avgmed as int, q0 as int) + 4) as i32) >> 3u32,
            uncertainty: (((max_dc - min_dc) as i32) >> 3u32) as i16,
            uncertainty2: ((far as i32) >> 3u32) as i16,
        }
    }
}

/// The DC prediction for a block with the pixels `pixels` (without its DC
/// term, row by row, times eight), next to neighbours that expect
/// `left_border` and `above_border` at the common borders.
pub open spec fn prediction_of(
    features: EnabledFeatures,
    pixels: Seq<i16>,
    left_border: Option<Seq<i16>>,
    above_border: Option<Seq<i16>>,
    q0: i32,
) -> Prediction {
    prediction_from(
        if left_border.is_some() {
            Some(
                estimates_of(
                    features,
                    strided(pixels, 0, 8),
                    strided(pixels, 1, 8),
                    left_border.unwrap(),
                ),
            )
        } else {
            None
        },
        if above_border.is_some() {
            Some(
                estimates_of(
                    features,
                    strided(pixels, 0, 1),
                    strided(pixels, 8, 1),
                    above_border.unwrap(),
                ),
            )
        } else {
            None
        },
        q0,
    )
}

/// Whether the pixels at a border, `near`, and the pixels next to them,
/// `inner`, differ by less than 2^15.
pub open spec fn steps_fit(near: Seq<i16>, inner: Seq<i16>) -> bool {
    forall|i: int| 0 <= i < 8 ==> -32768 <= #[trigger] near[i] - inner[i] <= 32767
}

proof fn lemma_estimate_agrees(near: i16, inner: i16, border: i16)
    by (bit_vector)
    requires
        -32768 <= near - inner <= 32767,
    ensures
        border.wrapping_sub(
            (near.wrapping_sub(inner).wrapping_sub(near.wrapping_sub(inner) >> 15u32)) >> 1u32,
        ).wrapping_sub(near.wrapping_add(1024i16)) == ((border - (if near - inner >= 0 {
            (near - inner) / 2
        } else {
            -((-(near - inner)) / 2)
        })) - (near + 1024)) as i16,
{
}

/// The estimates computed on 16-bit lanes and those computed in 32 bits are
/// the same wherever the steps at the border fit into 16 bits.
pub proof fn lemma_estimates_agree(near: Seq<i16>, inner: Seq<i16>, border: Seq<i16>)
    requires
        near.len() == 8,
        inner.len() == 8,
        border.len() == 8,
        steps_fit(near, inner),
    ensures
        narrow_estimates(near, inner, border) == wide_estimates(near, inner, border),
{
    assert forall|i: int| 0 <= i < 8 implies narrow_estimates(near, inner, border)[i]
        == wide_estimates(near, inner, border)[i] by {
        assert(-32768 <= near[i] - inner[i] <= 32767);
        lemma_estimate_agrees(near[i], inner[i], border[i]);
    }
    assert(narrow_estimates(near, inner, border) =~= wide_estimates(near, inner, border));
}

/// The DC prediction and both measures of its uncertainty do not depend on
/// whether they are computed on 16-bit lanes or in 32 bits, as long as each
/// pixel at a border used and the pixel next to it differ by less than
/// 2^15; pixels between -1024 and 1023 do.
pub proof fn lemma_prediction_same_in_16_and_32_bits(
    pixels: Seq<i16>,
    left_border: Option<Seq<i16>>,
    above_border: Option<Seq<i16>>,
    q0: i32,
)
    requires
        pixels.len() == 64,
        left_border.is_some() ==> left_border.unwrap().len() == 8 && steps_fit(
            strided(pixels, 0, 8),
            strided(pixels, 1, 8),
        ),
        above_border.is_some() ==> above_border.unwrap().len() == 8 && steps_fit(
            strided(pixels, 0, 1),
            strided(pixels, 8, 1),
        ),
    ensures
        prediction_of(
            EnabledFeatures { use_16bit_adv_predict: true },
            pixels,
            left_border,
            above_border,
            q0,
        ) == prediction_of(
            EnabledFeatures { use_16bit_adv_predict: false },
            pixels,
            left_border,
            above_border,
            q0,
        ),
{
    if left_border.is_some() {
        lemma_estimates_agree(strided(pixels, 0, 8), strided(pixels, 1, 8), left_border.unwrap());
    }
    if above_border.is_some() {
        lemma_estimates_agree(strided(pixels, 0, 1), strided(pixels, 8, 1), above_border.unwrap());
    }
}

/// Pixels between -1024 and 1023 differ by less than 2^15.
pub proof fn lemma_small_pixels_fit(near: Seq<i16>, inner: Seq<i16>)
    requires
        forall|i: int| 0 <= i < 8 ==> -1024 <= #[trigger] near[i] <= 1023,
        forall|i: int| 0 <= i < 8 ==> -1024 <= #[trigger] inner[i] <= 1023,
    ensures
        steps_fit(near, inner),
{
}

/// For a block whose pixels lie between -1024 and 1023, the DC prediction
/// and both measures of its uncertainty do not depend on whether they are
/// computed on 16-bit lanes or in 32 bits.
pub proof fn lemma_prediction_same_for_small_pixels(
    pixels: Seq<i16>,
    left_border: Option<Seq<i16>>,
    above_border: Option<Seq<i16>>,
    q0: i32,
)
    requires
        pixels.len() == 64,
        forall|i: int| 0 <= i < 64 ==> -1024 <= #[trigger] pixels[i] <= 1023,
        left_border.is_some() ==> left_border.unwrap().len() == 8,
        above_border.is_some() ==> above_border.unwrap().len() == 8,
    ensures
        prediction_of(
            EnabledFeatures { use_16bit_adv_predict: true },
            pixels,
            left_border,
            above_border,
            q0,
        ) == prediction_of(
            EnabledFeatures { use_16bit_adv_predict: false },
            pixels,
            left_border,
            above_border,
            q0,
        ),
{
    assert forall|i: int| 0 <= i < 8 implies -1024 <= #[trigger] strided(pixels, 0, 8)[i] <= 1023
        && -1024 <= #[trigger] strided(pixels, 1, 8)[i] <= 1023 && -1024 <= #[trigger] strided(
        pixels,
        0,
        1,
    )[i] <= 1023 && -1024 <= #[trigger] strided(pixels, 8, 1)[i] <= 1023 by {
        assert(-1024 <= pixels[0 + i * 8] <= 1023);
        assert(-1024 <= pixels[1 + i * 8] <= 1023);
        assert(-1024 <= pixels[0 + i * 1] <= 1023);
        assert(-1024 <= pixels[8 + i * 1] <= 1023);
    }
    lemma_small_pixels_fit(strided(pixels, 0, 8), strided(pixels, 1, 8));
    lemma_small_pixels_fit(strided(pixels, 0, 1), strided(pixels, 8, 1));
    lemma_prediction_same_in_16_and_32_bits(pixels, left_border, above_border, q0);
}

/// What `predict_current_edges` takes off the predictor of the first
/// column: the sum, over the columns from 1 to `col`, of the column times
/// its cosine at the border.
pub open spec fn vertical_current(raster: Seq<i32>, start: Seq<i32>, col: int) -> Seq<i32>
    decreases col,
{
    if col <= 0 {
        start
    } else {
        lanes_sub32(
            vertical_current(raster, start, col - 1),
            scaled(ICOS_BASED_8192_SCALED[col], row_of(raster, col)),
        )
    }
}

/// Predictor of the first row of this block: that of the block above, less
/// in each column but the first the border value of the column's own
/// coefficients.
pub open spec fn horizontal_current(raster: Seq<i32>, start: Seq<i32>) -> Seq<i32> {
    Seq::new(
        8,
        |col: int|
            if col == 0 {
                start[0]
            } else {
                start[col].wrapping_sub(
                    lanes_sum32(lanes_mul32(row_of(raster, col), ICOS_BASED_8192_SCALED@)),
                )
            },
    )
}

/// Predictor of the first column of the block to the right: the sum, over
/// the columns up to `col`, of the column times its cosine at the far border.
pub open spec fn vertical_next(raster: Seq<i32>, col: int) -> Seq<i32>
    decreases col,
{
    if col <= 0 {
        scaled(ICOS_BASED_8192_SCALED_PM[0], row_of(raster, 0))
    } else {
        lanes_add32(
            vertical_next(raster, col - 1),
            scaled(ICOS_BASED_8192_SCALED_PM[col], row_of(raster, col)),
        )
    }
}

/// Predictor of the first row of the block below: in each column but the
/// first, the value of the column's coefficients at the far border.
pub open spec fn horizontal_next(raster: Seq<i32>) -> Seq<i32> {
    Seq::new(
        8,
        |col: int|
            if col == 0 {
                0i32
            } else {
                lanes_sum32(lanes_mul32(ICOS_BASED_8192_SCALED_PM@, row_of(raster, col)))
            },
    )
}

/// Which neighbours exist for the blocks at one kind of place in a
/// component, and which colour the component has.
#[derive(Clone, Copy, Debug)]
pub struct ProbabilityTables {
    left_present: bool,
    above_present: bool,
    all_present: bool,
    color: usize,
}

/// A DC prediction together with the pixels it was made from.
pub struct PredictDCResult {
    pub predicted_dc: i32,
    pub uncertainty: i16,
    pub uncertainty2: i16,
    pub advanced_predict_dc_pixels_sans_dc: AlignedBlock,
}

fn estimates(
    features: &EnabledFeatures,
    near: &[i16; 8],
    inner: &[i16; 8],
    border: &[i16; 8],
) -> (r: [i16; 8])
    ensures
        r@ == estimates_of(*features, near@, inner@, border@),
{
    if features.use_16bit_adv_predict {
        let pixel_delta = sub16(near, inner);
        let a = add16(near, &splat16(1024));
        let b = sub16(border, &half16(&pixel_delta));
        sub16(&b, &a)
    } else {
        let mut dc_estimates = [0i16; 8];
        let mut i: usize = 0;
        while i < 8
            invariant
                i <= 8,
                forall|j: int|
                    0 <= j < i ==> #[trigger] dc_estimates[j] == wide_estimate(
                        near[j],
                        inner[j],
                        border[j],
                    ),
            decreases 8 - i,
        {
            let a: i32 = near[i] as i32 + 1024;
            let pixel_delta: i32 = near[i] as i32 - inner[i] as i32;
            let b: i32 = border[i] as i32 - (pixel_delta / 2);
            dc_estimates[i] = (b - a) as i16;
            i += 1;
        }
        assert(dc_estimates@ =~= wide_estimates(near@, inner@, border@));
        dc_estimates
    }
}

proof fn lemma_sum_of_widened(a: Seq<i16>)
    requires
        a.len() == 8,
    ensures
        -262144 <= lanes_sum32(lanes_widen(a)) <= 262136,
{
    let w = lanes_widen(a);
    assert(forall|i: int| 0 <= i < 8 ==> -32768 <= #[trigger] w[i] <= 32767);
}

fn summarize(horiz: &[i16; 8], vert: &[i16; 8], q0: i32) -> (r: (i32, i16, i16))
    requires
        0 <= q0,
    ensures
        r.0 == prediction_from(Some(horiz@), Some(vert@), q0).predicted_dc,
        r.1 == prediction_from(Some(horiz@), Some(vert@), q0).uncertainty,
        r.2 == prediction_from(Some(horiz@), Some(vert@), q0).uncertainty2,
        -32768 <= r.0 <= 32768,
{
    reveal(prediction_from);
    let min_dc = reduce_min16(&min16(horiz, vert));
    let max_dc = reduce_max16(&max16(horiz, vert));
    let avg_horizontal = reduce_add32(&widen16(horiz));
    let avg_vertical = reduce_add32(&widen16(vert));
    proof {
        lemma_sum_of_widened(horiz@);
        lemma_sum_of_widened(vert@);
    }
    let avgmed: i32 = (avg_vertical + avg_horizontal) >> 1;
    assert(-262144 <= avgmed <= 262136) by (bit_vector)
        requires
            avgmed == (avg_vertical + avg_horizontal) as i32 >> 1u32,
            -262144 <= avg_vertical <= 262136,
            -262144 <= avg_horizontal <= 262136,
    ;
    let uncertainty_val = ((max_dc as i32 - min_dc as i32) >> 3) as i16;
    let away_h = avg_horizontal - avgmed;
    let away_v = avg_vertical - avgmed;
    let away_h = if away_h < 0 {
        -away_h
    } else {
        away_h
    };
    let away_v = if away_v < 0 {
        -away_v
    } else {
        away_v
    };
    let far_afield_value = if away_h < away_v {
        away_h
    } else {
        away_v
    };
    let uncertainty2_val = (far_afield_value >> 3) as i16;
    let quotient = if q0 == 0 {
        0
    } else {
        avgmed / q0
    };
    assert(quotient == quotient_toward_zero(avgmed as int, q0 as int));
    assert(-262144 <= quotient <= 262136) by (nonlinear_arith)
        requires
            quotient == quotient_toward_zero(avgmed as int, q0 as int),
            -262144 <= avgmed <= 262136,
            0 <= q0,
    ;
    let biased: i32 = quotient + 4;
    assert(-32768 <= biased >> 3u32 <= 32768) by (bit_vector)
        requires
            -262140 <= biased <= 262140,
    ;
    (biased >> 3, uncertainty_val, uncertainty2_val)
}

impl ProbabilityTables {
    #[verifier::type_invariant]
    spec fn inv(self) -> bool {
        self.all_present == (self.left_present && self.above_present)
    }

    pub closed spec fn left_present(&self) -> bool {
        self.left_present
    }

    pub closed spec fn above_present(&self) -> bool {
        self.above_present
    }

    pub closed spec fn color(&self) -> usize {
        self.color
    }

    pub fn new(kcolor: usize, in_left_present: bool, in_above_present: bool) -> (r:
        ProbabilityTables)
        ensures
            r.left_present() == in_left_present,
            r.above_present() == in_above_present,
            r.color() == kcolor,
    {
        ProbabilityTables {
            left_present: in_left_present,
            above_present: in_above_present,
            all_present: in_left_present && in_above_present,
            color: kcolor,
        }
    }

    pub fn is_all_present(&self) -> (r: bool)
        ensures
            r == (self.left_present() && self.above_present()),
    {
        proof {
            use_type_invariant(self);
        }
        self.all_present
    }

    pub fn is_left_present(&self) -> (r: bool)
        ensures
            r == self.left_present(),
    {
        self.left_present
    }

    pub fn is_above_present(&self) -> (r: bool)
        ensures
            r == self.above_present(),
    {
        self.above_present
    }

    /// With `recover_original`, the DC coefficient that the coded difference
    /// `saved_dc` stands for next to the prediction `predicted_val`; without,
    /// the difference to code for the coefficient `saved_dc`.
    pub fn adv_predict_or_unpredict_dc(saved_dc: i16, recover_original: bool, predicted_val: i32) -> (r:
        i32)
        requires
            i32::MIN + 32768 <= predicted_val <= i32::MAX - 32768,
        ensures
            r == fold_dc(saved_dc as int, recover_original, predicted_val as int),
    {
        let max_value: i32 = MAX_DC;
        let min_value: i32 = -max_value;
        let adjustment_factor: i32 = (2 * max_value) + 1;
        let mut retval: i32 = predicted_val;
        retval = saved_dc as i32 + if recover_original {
            retval
        } else {
            -retval
        };
        if retval < min_value {
            retval = retval + adjustment_factor;
        }
        if retval > max_value {
            retval = retval - adjustment_factor;
        }
        retval
    }

    /// 0 for the first colour component, 1 for the others.
    pub fn get_color_index(&self) -> (r: usize)
        ensures
            r == if self.color() == 0 {
                0usize
            } else {
                1usize
            },
    {
        if self.color == 0 {
            0
        } else {
            1
        }
    }

    /// Context bin of a number of non-zero inner coefficients still to come.
    pub fn num_non_zeros_to_bin_7x7(num_non_zeros: usize) -> (r: usize)
        requires
            num_non_zeros < 50,
        ensures
            r == NON_ZERO_TO_BIN_7X7[num_non_zeros as int],
            r < 9,
    {
        NON_ZERO_TO_BIN_7X7[num_non_zeros] as usize
    }

    /// Whether the neighbour above counts: it exists, or all are said to.
    pub open spec fn uses_above(&self, all_present: bool) -> bool {
        all_present || self.above_present()
    }

    /// Whether the neighbour to the left counts: it exists, or all are said to.
    pub open spec fn uses_left(&self, all_present: bool) -> bool {
        all_present || self.left_present()
    }

    /// Context bin of the number of non-zero inner coefficients of a block,
    /// from the numbers of its neighbours.
    pub fn calc_num_non_zeros_7x7_context_bin<const ALL_PRESENT: bool>(
        &self,
        neighbor_data: &NeighborData,
    ) -> (r: u8)
        ensures
            r == NON_ZERO_TO_BIN[non_zero_context(
                if self.uses_above(ALL_PRESENT) {
                    Some(neighbor_data.neighbor_context_above.num_non_zeros() as int)
                } else {
                    None
                },
                if self.uses_left(ALL_PRESENT) {
                    Some(neighbor_data.neighbor_context_left.num_non_zeros() as int)
                } else {
                    None
                },
            )],
            r < 9,
    {
        let mut num_non_zeros_above: u8 = 0;
        let mut num_non_zeros_left: u8 = 0;
        if ALL_PRESENT || self.above_present {
            num_non_zeros_above = neighbor_data.neighbor_context_above.get_num_non_zeros();
        }
        if ALL_PRESENT || self.left_present {
            num_non_zeros_left = neighbor_data.neighbor_context_left.get_num_non_zeros();
        }
        let num_non_zeros_context: u8;
        if (!ALL_PRESENT) && self.above_present && !self.left_present {
            num_non_zeros_context = (num_non_zeros_above + 1) / 2;
        } else if (!ALL_PRESENT) && self.left_present && !self.above_present {
            num_non_zeros_context = (num_non_zeros_left + 1) / 2;
        } else if ALL_PRESENT || (self.left_present && self.above_present) {
            num_non_zeros_context = (num_non_zeros_above + num_non_zeros_left + 2) / 4;
        } else {
            num_non_zeros_context = 0;
        }
        NON_ZERO_TO_BIN[num_non_zeros_context as usize]
    }

    /// The magnitude expected at position `i` of a block from its
    /// neighbours: nothing in the first column; elsewhere the weighted mean
    /// of the three where all exist, else the magnitude in the left
    /// neighbour, else in the one above, else zero.
    pub open spec fn expected_magnitude(
        &self,
        all_present: bool,
        left: Seq<i16>,
        above: Seq<i16>,
        above_left: Seq<i16>,
        i: int,
    ) -> int {
        if i < 8 {
            0
        } else if all_present {
            weighted_prior(left[i], above[i], above_left[i])
        } else if self.left_present() {
            magnitude(left[i] as int)
        } else if self.above_present() {
            magnitude(above[i] as int)
        } else {
            0
        }
    }

    /// For each position of a block, the magnitude expected from the
    /// neighbours.
    pub fn calc_coefficient_context_7x7_aavg_block<const ALL_PRESENT: bool>(
        &self,
        left: &AlignedBlock,
        above: &AlignedBlock,
        above_left: &AlignedBlock,
    ) -> (r: [u16; 64])
        requires
            ALL_PRESENT ==> forall|i: int|
                8 <= i < 64 ==> (magnitude(#[trigger] left@[i] as int) + magnitude(above@[i] as int))
                    * 13 + 6 * magnitude(above_left@[i] as int) <= u16::MAX,
        ensures
            forall|i: int|
                0 <= i < 64 ==> #[trigger] r[i] == self.expected_magnitude(
                    ALL_PRESENT,
                    left@,
                    above@,
                    above_left@,
                    i,
                ),
    {
        let mut best_prior = [0u16; 64];
        assert(best_prior@ =~= Seq::new(64, |i: int| 0u16));
        proof {
            left.lemma_len();
            above.lemma_len();
            above_left.lemma_len();
        }
        let mut i: usize = 8;
        while i < 64
            invariant
                8 <= i <= 64,
                ALL_PRESENT ==> forall|i: int|
                    8 <= i < 64 ==> (magnitude(#[trigger] left@[i] as int) + magnitude(
                        above@[i] as int,
                    )) * 13 + 6 * magnitude(above_left@[i] as int) <= u16::MAX,
                forall|j: int| 0 <= j < 8 ==> #[trigger] best_prior[j] == 0,
                forall|j: int| i <= j < 64 ==> #[trigger] best_prior[j] == 0,
                forall|j: int|
                    8 <= j < i ==> #[trigger] best_prior[j] == if ALL_PRESENT {
                        weighted_prior(left@[j], above@[j], above_left@[j])
                    } else if self.left_present() {
                        magnitude(left@[j] as int)
                    } else if self.above_present() {
                        magnitude(above@[j] as int)
                    } else {
                        0
                    },
            decreases 64 - i,
        {
            if ALL_PRESENT {
                assert((magnitude(left@[i as int] as int) + magnitude(above@[i as int] as int)) * 13
                    + 6 * magnitude(above_left@[i as int] as int) <= u16::MAX);
                let sum: u16 = (left.get_coefficient(i).unsigned_abs() + above.get_coefficient(
                    i,
                ).unsigned_abs()) * 13 + 6 * above_left.get_coefficient(i).unsigned_abs();
                best_prior[i] = sum / 32;
            } else if self.left_present {
                best_prior[i] = left.get_coefficient(i).unsigned_abs();
            } else if self.above_present {
                best_prior[i] = above.get_coefficient(i).unsigned_abs();
            }
            i += 1;
        }
        best_prior
    }

    /// Predictors of the first row and of the first column of a block, from
    /// the summaries of its neighbours and from its own coefficients off the
    /// first row and column, dequantized and held column by column in `raster`.
    pub fn predict_current_edges(neighbors_data: &NeighborData, raster: &[i32; 64]) -> (r: (
        [i32; 8],
        [i32; 8],
    ))
        ensures
            r.0@ == horizontal_current(
                raster@,
                neighbors_data.neighbor_context_above.horizontal_coef(),
            ),
            r.1@ == vertical_current(raster@, neighbors_data.neighbor_context_left.vertical_coef(), 7),
    {
        let start = neighbors_data.neighbor_context_above.get_horizontal_coef();
        let mut h_pred: [i32; 8] = start;
        let mut vert_pred: [i32; 8] = neighbors_data.neighbor_context_left.get_vertical_coef();
        let mult: [i32; 8] = ICOS_BASED_8192_SCALED;
        let mut col: usize = 1;
        while col < 8
            invariant
                1 <= col <= 8,
                mult@ == ICOS_BASED_8192_SCALED@,
                start@ == neighbors_data.neighbor_context_above.horizontal_coef(),
                vert_pred@ == vertical_current(
                    raster@,
                    neighbors_data.neighbor_context_left.vertical_coef(),
                    col - 1,
                ),
                forall|j: int|
                    0 <= j < col ==> #[trigger] h_pred[j] == horizontal_current(raster@, start@)[j],
                forall|j: int| col <= j < 8 ==> #[trigger] h_pred[j] == start[j],
            decreases 8 - col,
        {
            let column = row32(raster, col);
            vert_pred = sub32(&vert_pred, &mul32(&splat32(ICOS_BASED_8192_SCALED[col]), &column));
            h_pred[col] = h_pred[col].wrapping_sub(reduce_add32(&mul32(&column, &mult)));
            col += 1;
        }
        assert(h_pred@ =~= horizontal_current(raster@, start@));
        (h_pred, vert_pred)
    }

    /// Predictors of the first row of the block below and of the first
    /// column of the block to the right, from the dequantized coefficients
    /// of a block, held column by column in `raster`.
    pub fn predict_next_edges(raster: &[i32; 64]) -> (r: ([i32; 8], [i32; 8]))
        ensures
            r.0@ == horizontal_next(raster@),
            r.1@ == vertical_next(raster@, 7),
    {
        let mut horiz_pred: [i32; 8] = [0i32; 8];
        let mult: [i32; 8] = ICOS_BASED_8192_SCALED_PM;
        let mut vert_pred = mul32(&splat32(ICOS_BASED_8192_SCALED_PM[0]), &row32(raster, 0));
        let mut col: usize = 1;
        while col < 8
            invariant
                1 <= col <= 8,
                mult@ == ICOS_BASED_8192_SCALED_PM@,
                vert_pred@ == vertical_next(raster@, col - 1),
                horiz_pred[0] == 0,
                forall|j: int|
                    1 <= j < col ==> #[trigger] horiz_pred[j] == horizontal_next(raster@)[j],
            decreases 8 - col,
        {
            let column = row32(raster, col);
            horiz_pred[col] = reduce_add32(&mul32(&mult, &column));
            vert_pred = add32(
                &vert_pred,
                &mul32(&splat32(ICOS_BASED_8192_SCALED_PM[col]), &column),
            );
            col += 1;
        }
        assert(horiz_pred@ =~= horizontal_next(raster@));
        (horiz_pred, vert_pred)
    }

    /// Expected value of the edge coefficient at the column-major position
    /// `coefficient_tr`, in quantization steps times 8192: the predictor of
    /// its row or column divided by its step, toward zero; zero where the
    /// neighbour it comes from does not exist or the step is zero.
    pub open spec fn lak_of(
        &self,
        all_present: bool,
        horizontal: bool,
        steps_transposed: Seq<u16>,
        coefficient_tr: int,
        pred: Seq<i32>,
    ) -> int {
        if horizontal && !self.uses_above(all_present) || !horizontal && !self.uses_left(
            all_present,
        ) {
            0
        } else {
            quotient_toward_zero(
                pred[if horizontal {
                    coefficient_tr / 8
                } else {
                    coefficient_tr
                }] as int,
                steps_transposed[coefficient_tr] as int * 8192,
            )
        }
    }

    /// Expected value of the edge coefficient at the column-major position
    /// `coefficient_tr`.
    pub fn calc_coefficient_context8_lak<const ALL_PRESENT: bool, const HORIZONTAL: bool>(
        &self,
        qt: &QuantizationTables,
        coefficient_tr: usize,
        pred: &[i32; 8],
    ) -> (r: i32)
        requires
            coefficient_tr < 64,
            !HORIZONTAL ==> coefficient_tr < 8,
        ensures
            r == self.lak_of(
                ALL_PRESENT,
                HORIZONTAL,
                qt.table_transposed(),
                coefficient_tr as int,
                pred@,
            ),
    {
        if !ALL_PRESENT && ((HORIZONTAL && !self.above_present) || (!HORIZONTAL
            && !self.left_present)) {
            return 0;
        }
        let best_prior: i32 = pred[if HORIZONTAL {
            coefficient_tr / 8
        } else {
            coefficient_tr
        }];
        let q: i32 = qt.get_quantization_table_transposed()[coefficient_tr] as i32;
        if q == 0 {
            0
        } else {
            best_prior / (q * 8192)
        }
    }

    /// The DC prediction for a block, from its coefficients other than DC,
    /// dequantized and held column by column in `raster_cols` with zero in
    /// the place of DC, and from the borders that its neighbours expect.
    pub fn adv_predict_dc_pix<const ALL_PRESENT: bool>(
        &self,
        raster_cols: &[i32; 64],
        q0: i32,
        neighbor_data: &NeighborData,
        enabled_features: &EnabledFeatures,
    ) -> (r: PredictDCResult)
        requires
            0 <= q0,
        ensures
            -32768 <= r.predicted_dc <= 32768,
            r.advanced_predict_dc_pixels_sans_dc@ == idct_of(raster_cols@),
            (Prediction {
                predicted_dc: r.predicted_dc,
                uncertainty: r.uncertainty,
                uncertainty2: r.uncertainty2,
            }) == prediction_of(
                *enabled_features,
                idct_of(raster_cols@),
                if self.uses_left(ALL_PRESENT) {
                    Some(neighbor_data.neighbor_context_left.vertical())
                } else {
                    None
                },
                if self.uses_above(ALL_PRESENT) {
                    Some(neighbor_data.neighbor_context_above.horizontal())
                } else {
                    None
                },
                q0,
            ),
    {
        reveal(prediction_from);
        let pixels_sans_dc = run_idct(raster_cols);
        let horiz: [i16; 8];
        let vert: [i16; 8];
        if ALL_PRESENT || self.left_present {
            horiz = estimates(
                enabled_features,
                &gather16(pixels_sans_dc.get_block(), 0, 8),
                &gather16(pixels_sans_dc.get_block(), 1, 8),
                neighbor_data.neighbor_context_left.get_vertical(),
            );
            if ALL_PRESENT || self.above_present {
                vert = estimates(
                    enabled_features,
                    &gather16(pixels_sans_dc.get_block(), 0, 1),
                    &gather16(pixels_sans_dc.get_block(), 8, 1),
                    neighbor_data.neighbor_context_above.get_horizontal(),
                );
            } else {
                vert = horiz;
            }
        } else if self.above_present {
            vert = estimates(
                enabled_features,
                &gather16(pixels_sans_dc.get_block(), 0, 1),
                &gather16(pixels_sans_dc.get_block(), 8, 1),
                neighbor_data.neighbor_context_above.get_horizontal(),
            );
            horiz = vert;
        } else {
            return PredictDCResult {
                predicted_dc: 0,
                uncertainty: 0,
                uncertainty2: 0,
                advanced_predict_dc_pixels_sans_dc: pixels_sans_dc,
            };
        }
        let (predicted_dc, uncertainty, uncertainty2) = summarize(&horiz, &vert, q0);
        PredictDCResult {
            predicted_dc,
            uncertainty,
            uncertainty2,
            advanced_predict_dc_pixels_sans_dc: pixels_sans_dc,
        }
    }
}

} // verus!
