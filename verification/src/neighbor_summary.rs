//! What a coded block leaves behind for the blocks below and to the right.

use crate::block_based_image::AlignedBlock;
use crate::enabled_features::EnabledFeatures;
use crate::lanes::{add16, lanes_add16, lanes_shr16, lanes_sub16, shr16, splat16, strided, sub16};
use vstd::prelude::*;

verus! {

/// Half of `d`, rounded toward zero.
pub open spec fn half_toward_zero(d: int) -> int {
    if d >= 0 {
        d / 2
    } else {
        -((-d) / 2)
    }
}

/// Lane by lane, half of `d` rounded toward zero.
pub open spec fn lanes_half16(d: Seq<i16>) -> Seq<i16> {
    lanes_shr16(lanes_sub16(d, lanes_shr16(d, 15)), 1)
}

/// Border pixels computed on 16-bit lanes: the pixel at the border plus the
/// DC term and the level shift, carried on by half the step from the pixel
/// before it.
pub open spec fn narrow_border(dc: i16, last: Seq<i16>, before: Seq<i16>) -> Seq<i16> {
    lanes_add16(
        lanes_add16(lanes_add16(Seq::new(8, |i: int| dc), last), Seq::new(8, |i: int| 1024i16)),
        lanes_half16(lanes_sub16(last, before)),
    )
}

/// One border pixel computed in 32 bits and cut to 16.
pub open spec fn wide_border_pixel(dc_deq: i32, last: i16, before: i16) -> i16 {
    dc_deq.wrapping_add((last + 1024 + half_toward_zero(last - before)) as i32) as i16
}

/// Border pixels computed in 32 bits.
pub open spec fn wide_border(dc_deq: i32, last: Seq<i16>, before: Seq<i16>) -> Seq<i16> {
    Seq::new(8, |i: int| wide_border_pixel(dc_deq, last[i], before[i]))
}

/// The border pixels that `features` asks for.
pub open spec fn border_of(
    features: EnabledFeatures,
    dc_deq: i32,
    last: Seq<i16>,
    before: Seq<i16>,
) -> Seq<i16> {
    if features.use_16bit_adv_predict {
        narrow_border(dc_deq as i16, last, before)
    } else {
        wide_border(dc_deq, last, before)
    }
}

/// Lane by lane, half of `d` rounded toward zero.
pub fn half16(d: &[i16; 8]) -> (r: [i16; 8])
    ensures
        r@ == lanes_half16(d@),
{
    shr16(&sub16(d, &shr16(d, 15)), 1)
}

fn border(features: &EnabledFeatures, dc_deq: i32, last: &[i16; 8], before: &[i16; 8]) -> (r: [i16;
    8])
    ensures
        r@ == border_of(*features, dc_deq, last@, before@),
{
    if features.use_16bit_adv_predict {
        let level = add16(&add16(&splat16(dc_deq as i16), last), &splat16(1024));
        add16(&level, &half16(&sub16(last, before)))
    } else {
        let mut r = [0i16; 8];
        let mut i: usize = 0;
        while i < 8
            invariant
                i <= 8,
                forall|j: int|
                    0 <= j < i ==> #[trigger] r[j] == wide_border_pixel(dc_deq, last[j], before[j]),
            decreases 8 - i,
        {
            let step: i32 = (last[i] as i32 - before[i] as i32) / 2;
            assert(step == half_toward_zero(last[i as int] - before[i as int]));
            r[i] = dc_deq.wrapping_add(last[i] as i32 + 1024 + step) as i16;
            i += 1;
        }
        assert(r@ =~= wide_border(dc_deq, last@, before@));
        r
    }
}

/// What a summary holds.
pub ghost struct SummaryView {
    pub horizontal: Seq<i16>,
    pub vertical: Seq<i16>,
    pub horizontal_coef: Seq<i32>,
    pub vertical_coef: Seq<i32>,
    pub num_non_zeros: u8,
}

/// The summary of a block that was never coded.
pub open spec fn empty_summary() -> SummaryView {
    SummaryView {
        horizontal: Seq::new(8, |i: int| 0i16),
        vertical: Seq::new(8, |i: int| 0i16),
        horizontal_coef: Seq::new(8, |i: int| 0i32),
        vertical_coef: Seq::new(8, |i: int| 0i32),
        num_non_zeros: 0,
    }
}

/// Summary of a coded block.
#[derive(Clone, Copy, Debug)]
pub struct NeighborSummary {
    edge_pixels_h: [i16; 8],
    edge_pixels_v: [i16; 8],
    edge_coefs_h: [i32; 8],
    edge_coefs_v: [i32; 8],
    num_non_zeros: u8,
}

impl View for NeighborSummary {
    type V = SummaryView;

    open spec fn view(&self) -> SummaryView {
        SummaryView {
            horizontal: self.horizontal(),
            vertical: self.vertical(),
            horizontal_coef: self.horizontal_coef(),
            vertical_coef: self.vertical_coef(),
            num_non_zeros: self.num_non_zeros(),
        }
    }
}

impl Default for NeighborSummary {
    fn default() -> (r: Self)
        ensures
            r@ == empty_summary(),
    {
        let r = NeighborSummary {
            edge_pixels_h: [0i16; 8],
            edge_pixels_v: [0i16; 8],
            edge_coefs_h: [0i32; 8],
            edge_coefs_v: [0i32; 8],
            num_non_zeros: 0,
        };
        assert(r.horizontal() =~= Seq::new(8, |i: int| 0i16));
        assert(r.vertical() =~= Seq::new(8, |i: int| 0i16));
        assert(r.horizontal_coef() =~= Seq::new(8, |i: int| 0i32));
        assert(r.vertical_coef() =~= Seq::new(8, |i: int| 0i32));
        r
    }
}

impl NeighborSummary {
    #[verifier::type_invariant]
    spec fn count_in_range(self) -> bool {
        self.num_non_zeros <= 49
    }

    /// Pixels along the bottom border, for the block below.
    pub closed spec fn horizontal(&self) -> Seq<i16> {
        self.edge_pixels_h@
    }

    /// Pixels along the right border, for the block to the right.
    pub closed spec fn vertical(&self) -> Seq<i16> {
        self.edge_pixels_v@
    }

    /// Predictor of the first row of coefficients of the block below.
    pub closed spec fn horizontal_coef(&self) -> Seq<i32> {
        self.edge_coefs_h@
    }

    /// Predictor of the first column of coefficients of the block to the right.
    pub closed spec fn vertical_coef(&self) -> Seq<i32> {
        self.edge_coefs_v@
    }

    /// Number of non-zero coefficients off the first row and column.
    pub closed spec fn num_non_zeros(&self) -> u8 {
        self.num_non_zeros
    }

    /// The summary of a block, from its pixels without the DC term (row by
    /// row, times eight), its dequantized DC term, its count of non-zero
    /// inner coefficients and the predictors of its neighbours' edges.
    pub fn new(
        here: &AlignedBlock,
        dc_deq: i32,
        num_non_zeros_7x7: u8,
        horiz_pred: [i32; 8],
        vert_pred: [i32; 8],
        features: &EnabledFeatures,
    ) -> (r: Self)
        requires
            num_non_zeros_7x7 <= 49,
        ensures
            r.horizontal() == border_of(
                *features,
                dc_deq,
                strided(here@, 56, 1),
                strided(here@, 48, 1),
            ),
            r.vertical() == border_of(*features, dc_deq, strided(here@, 7, 8), strided(here@, 6, 8)),
            r.horizontal_coef() == horiz_pred@,
            r.vertical_coef() == vert_pred@,
            r.num_non_zeros() == num_non_zeros_7x7,
    {
        let edge_pixels_h = border(
            features,
            dc_deq,
            &here.from_stride(56, 1),
            &here.from_stride(48, 1),
        );
        let edge_pixels_v = border(
            features,
            dc_deq,
            &here.from_stride(7, 8),
            &here.from_stride(6, 8),
        );
        NeighborSummary {
            edge_pixels_h,
            edge_pixels_v,
            edge_coefs_h: horiz_pred,
            edge_coefs_v: vert_pred,
            num_non_zeros: num_non_zeros_7x7,
        }
    }

    pub fn get_num_non_zeros(&self) -> (r: u8)
        ensures
            r == self.num_non_zeros(),
            r <= 49,
    {
        proof {
            use_type_invariant(self);
        }
        self.num_non_zeros
    }

    pub fn get_vertical(&self) -> (r: &[i16; 8])
        ensures
            r@ == self.vertical(),
    {
        &self.edge_pixels_v
    }

    pub fn get_horizontal(&self) -> (r: &[i16; 8])
        ensures
            r@ == self.horizontal(),
    {
        &self.edge_pixels_h
    }

    pub fn get_vertical_coef(&self) -> (r: [i32; 8])
        ensures
            r@ == self.vertical_coef(),
    {
        self.edge_coefs_v
    }

    pub fn get_horizontal_coef(&self) -> (r: [i32; 8])
        ensures
            r@ == self.horizontal_coef(),
    {
        self.edge_coefs_h
    }
}

} // verus!
