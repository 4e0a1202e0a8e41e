//! Encoding of blocks, rows and bands of coefficients.

use crate::block_based_image::{
    ac_in_range, block_in, inner_non_zeros, AlignedBlock, BlockBasedImage,
};
use crate::block_context::{cache_view, neighbors_at, BlockContext, NeighborData};
use crate::consts::{lemma_unzigzag_49_inner, NON_ZERO_TO_BIN_7X7, UNZIGZAG_49_TR};
use crate::enabled_features::EnabledFeatures;
use crate::helpers::{bit_length, u16_bit_length};
use crate::idct::idct_of;
use crate::lepton_decoder::{
    band_setting_of, caches_view, color_of, context_bin_of, end_of_block_x, end_of_block_y,
    fresh_cache, has_all, images_view, lemma_end_of_block, neighbors_in_range, row_fits,
    row_shape_of, row_start, setting_of, shape_for, stepped, summary_from, BandSetting,
    BlockSetting, RowShape,
};
use crate::lepton_error::ExitCode;
use crate::model::{
    dc_put, edge_put, fresh_model, inner_put, model_shaped, non_zero_7x7_put, non_zero_edge_put,
    Model, ModelState, PerColorState,
};
use crate::neighbor_summary::{empty_summary, NeighborSummary, SummaryView};
use crate::probability_tables::{
    fold_dc, horizontal_current, horizontal_next, prediction_of, vertical_current, vertical_next,
    Prediction, ProbabilityTables,
};
use crate::probability_tables_set::ProbabilityTablesSet;
use crate::quantization_tables::QuantizationTables;
use crate::row_spec::{order_defined, row_spec_of, rows_per_mcu, RowSpec};
use crate::truncate_components::TruncateComponents;
use crate::vpx_bool_writer::{encoder_valid, flushed, EncoderState, VPXBoolWriter};
use vstd::prelude::*;

verus! {

/// The coding of a block under way: its coefficients coded so far,
/// dequantized, the set of places that hold a non-zero inner coefficient,
/// the number of non-zero coefficients still to come, and the state of the
/// encoder and of the cells.
pub ghost struct PutWork {
    pub raster: Seq<i32>,
    pub mask: u64,
    pub remaining: int,
    pub coder: EncoderState,
    pub cells: PerColorState,
}

/// The work after the coefficient `coef` at the place `coord` has been coded.
pub open spec fn coefficient_put(
    w: PutWork,
    c: BlockSetting,
    coord: int,
    coef: int,
    coder: EncoderState,
    cells: PerColorState,
    inner: bool,
) -> PutWork {
    if coef != 0 {
        PutWork {
            raster: w.raster.update(coord, (coef * c.steps_transposed[coord]) as i32),
            mask: if inner {
                w.mask | (1u64 << (coord as u64))
            } else {
                w.mask
            },
            remaining: w.remaining - 1,
            coder,
            cells,
        }
    } else {
        PutWork { coder, cells, ..w }
    }
}

/// The work after the inner coefficients of the block `here` from the
/// `zig`-th in coding order on have been coded, until no non-zero one is
/// left.
#[verifier::opaque]
pub open spec fn inner_put_from(w: PutWork, c: BlockSetting, here: Seq<i16>, zig: int) -> PutWork
    decreases 49 - zig,
{
    if zig >= 49 || zig < 0 || w.remaining <= 0 {
        w
    } else {
        let coord = UNZIGZAG_49_TR[zig] as int;
        let prior = c.pt.expected_magnitude(
            c.all_present,
            c.neighbors.left,
            c.neighbors.above,
            c.neighbors.above_left,
            coord,
        );
        let (coder, cells) = inner_put(
            w.coder,
            w.cells,
            zig,
            NON_ZERO_TO_BIN_7X7[w.remaining] as int,
            bit_length(prior),
            here[coord] as int,
        );
        inner_put_from(
            coefficient_put(w, c, coord, here[coord] as int, coder, cells, true),
            c,
            here,
            zig + 1,
        )
    }
}

/// Number of non-zero coefficients among the first `lanes` of one edge of
/// the block `here`.
pub open spec fn edge_non_zeros(here: Seq<i16>, horizontal: bool, lanes: int) -> int
    decreases lanes,
{
    if lanes <= 0 {
        0
    } else {
        edge_non_zeros(here, horizontal, lanes - 1) + if here[if horizontal {
            8 * lanes
        } else {
            lanes
        }] != 0 {
            1int
        } else {
            0int
        }
    }
}

/// The work after the coefficients of one edge of the block `here` from
/// the `lane`-th on have been coded, until no non-zero one is left.
#[verifier::opaque]
pub open spec fn edge_put_from(
    w: PutWork,
    c: BlockSetting,
    here: Seq<i16>,
    horizontal: bool,
    pred: Seq<i32>,
    lane: int,
) -> PutWork
    decreases 7 - lane,
{
    if lane >= 7 || lane < 0 || w.remaining <= 0 {
        w
    } else {
        let coord = if horizontal {
            8 * (lane + 1)
        } else {
            lane + 1
        };
        let zig15 = if horizontal {
            lane
        } else {
            7 + lane
        };
        let prior = c.pt.lak_of(c.all_present, horizontal, c.steps_transposed, coord, pred);
        let (coder, cells) = edge_put(
            w.coder,
            w.cells,
            c.thresholds[zig15] as int,
            zig15,
            w.remaining,
            prior,
            here[coord] as int,
        );
        edge_put_from(
            coefficient_put(w, c, coord, here[coord] as int, coder, cells, false),
            c,
            here,
            horizontal,
            pred,
            lane + 1,
        )
    }
}

/// The work after one edge of the block `here` has been coded: first the
/// number of its non-zero coefficients, then the coefficients.
#[verifier::opaque]
pub open spec fn edge_encoded(
    w: PutWork,
    c: BlockSetting,
    here: Seq<i16>,
    horizontal: bool,
    pred: Seq<i32>,
    eob: int,
    bin: int,
) -> PutWork {
    let count = edge_non_zeros(here, horizontal, 7);
    let (coder, cells) = non_zero_edge_put(w.coder, w.cells, horizontal, eob, bin, count);
    edge_put_from(PutWork { remaining: count, coder, cells, ..w }, c, here, horizontal, pred, 0)
}

/// The work after all coefficients of the block `here` but DC have been
/// coded.
#[verifier::opaque]
pub open spec fn ac_encoded(e: EncoderState, m: ModelState, c: BlockSetting, here: Seq<i16>) -> PutWork {
    let count = inner_non_zeros(here, 64);
    let (coder, cells) = non_zero_7x7_put(e, m.per_color[color_of(c)], context_bin_of(c), count);
    let w = inner_put_from(
        PutWork { raster: Seq::new(64, |i: int| 0i32), mask: 0, remaining: count, coder, cells },
        c,
        here,
        0,
    );
    let bin = (count + 3) / 7;
    let h_pred = horizontal_current(w.raster, c.neighbors.context_above.horizontal_coef);
    let v_pred = vertical_current(w.raster, c.neighbors.context_left.vertical_coef, 7);
    let h = edge_encoded(
        PutWork { remaining: 0, ..w },
        c,
        here,
        true,
        h_pred,
        end_of_block_x(w.mask),
        bin,
    );
    edge_encoded(
        PutWork { remaining: 0, ..h },
        c,
        here,
        false,
        v_pred,
        end_of_block_y(w.mask),
        bin,
    )
}

/// What the coding of a block leaves behind.
pub ghost struct EncodedBlock {
    pub summary: SummaryView,
    pub coder: EncoderState,
    pub model: ModelState,
}

/// The difference that is coded for the DC coefficient of the block
/// `here`, given the dequantized coefficients `raster` of the block.
pub open spec fn dc_difference_of(c: BlockSetting, here: Seq<i16>, raster: Seq<i32>) -> int {
    fold_dc(here[0] as int, false, dc_prediction_of(c, raster).predicted_dc as int)
}

/// The DC prediction for a block with the dequantized coefficients `raster`.
pub open spec fn dc_prediction_of(c: BlockSetting, raster: Seq<i32>) -> Prediction {
    prediction_of(
        c.features,
        idct_of(raster),
        if c.pt.uses_left(c.all_present) {
            Some(c.neighbors.context_left.vertical)
        } else {
            None
        },
        if c.pt.uses_above(c.all_present) {
            Some(c.neighbors.context_above.horizontal)
        } else {
            None
        },
        c.steps[0] as i32,
    )
}

/// Whether the block `here` can be coded: all its coefficients but DC have
/// magnitudes below 2048, and so has the difference between DC and its
/// prediction, from which DC can be had back.
pub open spec fn block_codable(e: EncoderState, m: ModelState, c: BlockSetting, here: Seq<i16>) -> bool {
    let w = ac_encoded(e, m, c, here);
    let difference = dc_difference_of(c, here, w.raster);
    &&& ac_in_range(here)
    &&& -2048 < difference < 2048
    &&& fold_dc(difference, true, dc_prediction_of(c, w.raster).predicted_dc as int) == here[0]
}

/// The state after the block `here` has been coded by an encoder in state
/// `e` with the model `m`.
#[verifier::opaque]
pub open spec fn block_encoded(e: EncoderState, m: ModelState, c: BlockSetting, here: Seq<i16>) -> EncodedBlock {
    let w = ac_encoded(e, m, c, here);
    let prediction = dc_prediction_of(c, w.raster);
    let (coder, model) = dc_put(
        w.coder,
        m.with_color(color_of(c), w.cells),
        color_of(c),
        prediction.uncertainty as int,
        prediction.uncertainty2 as int,
        dc_difference_of(c, here, w.raster),
    );
    EncodedBlock {
        summary: summary_from(
            c.features,
            idct_of(w.raster),
            (here[0] * c.steps[0]) as i32,
            inner_non_zeros(here, 64),
            horizontal_next(w.raster),
            vertical_next(w.raster, 7),
        ),
        coder,
        model,
    }
}

/// The work that the registers of the block encoder stand for.
pub open spec fn put_work_of(
    raster: Seq<i32>,
    mask: u64,
    remaining: int,
    coder: EncoderState,
    cells: PerColorState,
) -> PutWork {
    PutWork { raster, mask, remaining, coder, cells }
}

fn encode_inner<const ALL_PRESENT: bool>(
    pt: &ProbabilityTables,
    neighbor_data: &NeighborData,
    here_tr: &AlignedBlock,
    model: &mut Model,
    bool_writer: &mut VPXBoolWriter,
    qt: &QuantizationTables,
    count: u8,
    raster: &mut [i32; 64],
    Ghost(c): Ghost<BlockSetting>,
) -> (r: (u64, usize))
    requires
        model_shaped(old(model)@),
        qt.derived(),
        neighbors_in_range(neighbor_data@),
        ac_in_range(here_tr@),
        count <= 49,
        old(raster)@ == Seq::new(64, |i: int| 0i32),
        c.pt == *pt,
        c.all_present == ALL_PRESENT,
        c.neighbors == neighbor_data@,
        c.steps_transposed == qt.table_transposed(),
    ensures
        model_shaped(final(model)@),
        final(model)@ == old(model)@.with_color(
            color_of(c),
            final(model)@.per_color[color_of(c)],
        ),
        put_work_of(
            final(raster)@,
            r.0,
            r.1 as int,
            final(bool_writer).state(),
            final(model)@.per_color[color_of(c)],
        ) == inner_put_from(
            put_work_of(
                old(raster)@,
                0,
                count as int,
                old(bool_writer).state(),
                old(model)@.per_color[color_of(c)],
            ),
            c,
            here_tr@,
            0,
        ),
{
    let color = pt.get_color_index();
    reveal_with_fuel(inner_put_from, 2);
    let mut nonzero_mask: u64 = 0;
    let mut num_non_zeros_7x7_remaining: usize = count as usize;
    let ghost m0 = model@;
    let ghost start = put_work_of(
        raster@,
        0,
        count as int,
        bool_writer.state(),
        model@.per_color[color as int],
    );
    assert(m0 =~= m0.with_color(color as int, m0.per_color[color as int])) by {
        assert(m0.per_color =~= m0.per_color.update(color as int, m0.per_color[color as int]));
    }
    if num_non_zeros_7x7_remaining > 0 {
        proof {
            neighbor_data.left.lemma_len();
            neighbor_data.above.lemma_len();
            neighbor_data.above_left.lemma_len();
            here_tr.lemma_len();
        }
        let best_priors = pt.calc_coefficient_context_7x7_aavg_block::<ALL_PRESENT>(
            &neighbor_data.left,
            &neighbor_data.above,
            &neighbor_data.above_left,
        );
        let mut zig49: usize = 0;
        while zig49 < 49 && num_non_zeros_7x7_remaining > 0
            invariant
                zig49 <= 49,
                color == color_of(c),
                color < 2,
                num_non_zeros_7x7_remaining <= 49,
                model_shaped(model@),
                model_shaped(m0),
                qt.derived(),
                neighbors_in_range(neighbor_data@),
                ac_in_range(here_tr@),
                here_tr@.len() == 64,
                raster@.len() == 64,
                c.pt == *pt,
                c.all_present == ALL_PRESENT,
                c.neighbors == neighbor_data@,
                c.steps_transposed == qt.table_transposed(),
                model@ == m0.with_color(color as int, model@.per_color[color as int]),
                forall|i: int|
                    0 <= i < 64 ==> #[trigger] best_priors[i] == pt.expected_magnitude(
                        ALL_PRESENT,
                        neighbor_data.left@,
                        neighbor_data.above@,
                        neighbor_data.above_left@,
                        i,
                    ),
                inner_put_from(
                    put_work_of(
                        raster@,
                        nonzero_mask,
                        num_non_zeros_7x7_remaining as int,
                        bool_writer.state(),
                        model@.per_color[color as int],
                    ),
                    c,
                    here_tr@,
                    zig49 as int,
                ) == inner_put_from(start, c, here_tr@, 0),
            decreases 49 - zig49,
        {
            proof {
                lemma_unzigzag_49_inner(zig49 as int);
                reveal_with_fuel(inner_put_from, 2);
            }
            let coord = UNZIGZAG_49_TR[zig49] as usize;
            assert(best_priors[coord as int] <= 2047) by {
                assert(-2048 < neighbor_data.left@[coord as int] < 2048);
                assert(-2048 < neighbor_data.above@[coord as int] < 2048);
                assert(-2048 < neighbor_data.above_left@[coord as int] < 2048);
            }
            let best_prior_bit_length = u16_bit_length(best_priors[coord]);
            let num_non_zeros_bin = ProbabilityTables::num_non_zeros_to_bin_7x7(
                num_non_zeros_7x7_remaining,
            );
            let coef = here_tr.get_coefficient(coord);
            assert(-2048 < coef < 2048);
            let written = model.write_coef(
                bool_writer,
                color,
                coef,
                zig49,
                num_non_zeros_bin,
                best_prior_bit_length as usize,
            );
            assert(model@ =~= m0.with_color(color as int, model@.per_color[color as int])) by {
                assert(model@.per_color =~= m0.per_color.update(
                    color as int,
                    model@.per_color[color as int],
                ));
            }
            if coef != 0 {
                let q = qt.get_quantization_table_transposed()[coord];
                assert(-2048 * 65535 <= coef * q <= 2048 * 65535) by (nonlinear_arith)
                    requires
                        -2048 < coef < 2048,
                        0 <= q <= 65535,
                ;
                raster[coord] = coef as i32 * q as i32;
                nonzero_mask = nonzero_mask | (1u64 << (coord as u64));
                num_non_zeros_7x7_remaining = num_non_zeros_7x7_remaining - 1;
            }
            zig49 += 1;
        }
    }
    (nonzero_mask, num_non_zeros_7x7_remaining)
}

fn count_edge_non_zeros<const HORIZONTAL: bool>(here_tr: &AlignedBlock) -> (r: u8)
    ensures
        r == edge_non_zeros(here_tr@, HORIZONTAL, 7),
        r <= 7,
{
    let delta: usize = if HORIZONTAL {
        8
    } else {
        1
    };
    let mut num_non_zeros_edge: u8 = 0;
    let mut lane: usize = 0;
    while lane < 7
        invariant
            lane <= 7,
            delta == if HORIZONTAL {
                8usize
            } else {
                1usize
            },
            num_non_zeros_edge == edge_non_zeros(here_tr@, HORIZONTAL, lane as int),
            num_non_zeros_edge <= lane,
        decreases 7 - lane,
    {
        if here_tr.get_coefficient(delta * (lane + 1)) != 0 {
            num_non_zeros_edge += 1;
        }
        lane += 1;
    }
    num_non_zeros_edge
}

#[verifier::rlimit(60)]
fn encode_one_edge<const ALL_PRESENT: bool, const HORIZONTAL: bool>(
    here_tr: &AlignedBlock,
    model: &mut Model,
    bool_writer: &mut VPXBoolWriter,
    pred: &[i32; 8],
    qt: &QuantizationTables,
    pt: &ProbabilityTables,
    num_non_zeros_bin: u8,
    est_eob: u8,
    raster: &mut [i32; 64],
    Ghost(c): Ghost<BlockSetting>,
    Ghost(mask): Ghost<u64>,
)
    requires
        model_shaped(old(model)@),
        qt.derived(),
        ac_in_range(here_tr@),
        num_non_zeros_bin < 8,
        est_eob < 8,
        c.pt == *pt,
        c.all_present == ALL_PRESENT,
        c.steps_transposed == qt.table_transposed(),
        c.thresholds == qt.noise_thresholds(),
    ensures
        model_shaped(final(model)@),
        final(model)@ == old(model)@.with_color(
            color_of(c),
            final(model)@.per_color[color_of(c)],
        ),
        ({
            let e = edge_encoded(
                put_work_of(
                    old(raster)@,
                    mask,
                    0,
                    old(bool_writer).state(),
                    old(model)@.per_color[color_of(c)],
                ),
                c,
                here_tr@,
                HORIZONTAL,
                pred@,
                est_eob as int,
                num_non_zeros_bin as int,
            );
            put_work_of(
                final(raster)@,
                mask,
                e.remaining,
                final(bool_writer).state(),
                final(model)@.per_color[color_of(c)],
            ) == e
        }),
{
    let color = pt.get_color_index();
    reveal(edge_encoded);
    reveal_with_fuel(edge_put_from, 2);
    let ghost m0 = model@;
    let num_non_zeros_edge = count_edge_non_zeros::<HORIZONTAL>(here_tr);
    model.write_non_zero_edge_count::<HORIZONTAL>(
        bool_writer,
        color,
        est_eob,
        num_non_zeros_bin,
        num_non_zeros_edge,
    );
    let delta: usize = if HORIZONTAL {
        8
    } else {
        1
    };
    let mut zig15offset: usize = if HORIZONTAL {
        0
    } else {
        7
    };
    let mut coord_tr: usize = delta;
    let mut num_non_zeros_remaining: u8 = num_non_zeros_edge;
    let ghost start = put_work_of(
        raster@,
        mask,
        num_non_zeros_edge as int,
        bool_writer.state(),
        model@.per_color[color as int],
    );
    let mut lane: usize = 0;
    proof {
        here_tr.lemma_len();
    }
    while lane < 7 && num_non_zeros_remaining > 0
        invariant
            lane <= 7,
            color == color_of(c),
            color < 2,
            delta == if HORIZONTAL {
                8usize
            } else {
                1usize
            },
            coord_tr == delta * (lane + 1),
            zig15offset == lane + if HORIZONTAL {
                0usize
            } else {
                7usize
            },
            num_non_zeros_remaining <= 7,
            model_shaped(model@),
            model_shaped(m0),
            qt.derived(),
            ac_in_range(here_tr@),
            here_tr@.len() == 64,
            raster@.len() == 64,
            c.pt == *pt,
            c.all_present == ALL_PRESENT,
            c.steps_transposed == qt.table_transposed(),
            c.thresholds == qt.noise_thresholds(),
            model@ == m0.with_color(color as int, model@.per_color[color as int]),
            edge_put_from(
                put_work_of(
                    raster@,
                    mask,
                    num_non_zeros_remaining as int,
                    bool_writer.state(),
                    model@.per_color[color as int],
                ),
                c,
                here_tr@,
                HORIZONTAL,
                pred@,
                lane as int,
            ) == edge_put_from(start, c, here_tr@, HORIZONTAL, pred@, 0),
        decreases 7 - lane,
    {
        proof {
            reveal_with_fuel(edge_put_from, 2);
        }
        let best_prior = pt.calc_coefficient_context8_lak::<ALL_PRESENT, HORIZONTAL>(
            qt,
            coord_tr,
            pred,
        );
        let coef = here_tr.get_coefficient(coord_tr);
        assert(-2048 < coef < 2048);
        let written = model.write_edge_coefficient(
            bool_writer,
            color,
            qt,
            coef,
            zig15offset,
            num_non_zeros_remaining,
            best_prior,
        );
        assert(model@ =~= m0.with_color(color as int, model@.per_color[color as int])) by {
            assert(model@.per_color =~= m0.per_color.update(
                color as int,
                model@.per_color[color as int],
            ));
        }
        if coef != 0 {
            num_non_zeros_remaining = num_non_zeros_remaining - 1;
            let q = qt.get_quantization_table_transposed()[coord_tr];
            assert(-2048 * 65535 <= coef * q <= 2048 * 65535) by (nonlinear_arith)
                requires
                    -2048 < coef < 2048,
                    0 <= q <= 65535,
            ;
            raster[coord_tr] = coef as i32 * q as i32;
        }
        coord_tr = coord_tr + delta;
        zig15offset = zig15offset + 1;
        lane += 1;
    }
}

fn encode_ac<const ALL_PRESENT: bool>(
    pt: &ProbabilityTables,
    neighbor_data: &NeighborData,
    here_tr: &AlignedBlock,
    model: &mut Model,
    bool_writer: &mut VPXBoolWriter,
    qt: &QuantizationTables,
    raster: &mut [i32; 64],
    Ghost(c): Ghost<BlockSetting>,
) -> (r: u8)
    requires
        model_shaped(old(model)@),
        qt.derived(),
        neighbors_in_range(neighbor_data@),
        ac_in_range(here_tr@),
        old(raster)@ == Seq::new(64, |i: int| 0i32),
        c == setting_of(*pt, ALL_PRESENT, neighbor_data@, *qt, c.features),
    ensures
        model_shaped(final(model)@),
        final(model)@ == old(model)@.with_color(
            color_of(c),
            final(model)@.per_color[color_of(c)],
        ),
        r == inner_non_zeros(here_tr@, 64),
        r <= 49,
        ({
            let w = ac_encoded(old(bool_writer).state(), old(model)@, c, here_tr@);
            &&& final(raster)@ == w.raster
            &&& final(bool_writer).state() == w.coder
            &&& final(model)@.per_color[color_of(c)] == w.cells
        }),
{
    reveal(ac_encoded);
    let ghost m0 = model@;
    let color = pt.get_color_index();
    let num_non_zeros_7x7_context_bin = pt.calc_num_non_zeros_7x7_context_bin::<ALL_PRESENT>(
        neighbor_data,
    );
    let num_non_zeros_7x7 = here_tr.get_count_of_non_zeros_7x7();
    model.write_non_zero_7x7_count(
        bool_writer,
        color,
        num_non_zeros_7x7_context_bin,
        num_non_zeros_7x7,
    );
    let (nonzero_mask, _remaining) = encode_inner::<ALL_PRESENT>(
        pt,
        neighbor_data,
        here_tr,
        model,
        bool_writer,
        qt,
        num_non_zeros_7x7,
        raster,
        Ghost(c),
    );
    let mask_7x7 = nonzero_mask | 1;
    let mut mask_y = mask_7x7 | (mask_7x7 << 32);
    mask_y = mask_y | (mask_y << 16);
    mask_y = mask_y | (mask_y << 8);
    proof {
        lemma_end_of_block(nonzero_mask);
    }
    let eob_y = mask_y.leading_zeros() as u8;
    let eob_x = (mask_7x7.leading_zeros() / 8) as u8;
    let num_non_zeros_bin = (num_non_zeros_7x7 + 3) / 7;
    let (h_pred, v_pred) = ProbabilityTables::predict_current_edges(neighbor_data, raster);
    encode_one_edge::<ALL_PRESENT, true>(
        here_tr,
        model,
        bool_writer,
        &h_pred,
        qt,
        pt,
        num_non_zeros_bin,
        eob_x,
        raster,
        Ghost(c),
        Ghost(nonzero_mask),
    );
    encode_one_edge::<ALL_PRESENT, false>(
        here_tr,
        model,
        bool_writer,
        &v_pred,
        qt,
        pt,
        num_non_zeros_bin,
        eob_y,
        raster,
        Ghost(c),
        Ghost(nonzero_mask),
    );
    assert(model@ =~= m0.with_color(color as int, model@.per_color[color as int])) by {
        assert(model@.per_color =~= m0.per_color.update(color as int, model@.per_color[color as int]));
    }
    num_non_zeros_7x7
}

/// Codes a block of coefficients, given its neighbours, and makes the
/// summary that the blocks below and to the right will need.
///
/// A block cannot be coded where a coefficient other than DC, or the
/// difference between DC and its prediction, has a magnitude of 2048 or
/// more, or where DC cannot be had back from that difference.
pub fn write_coefficient_block<const ALL_PRESENT: bool>(
    pt: &ProbabilityTables,
    neighbors_data: &NeighborData,
    here_tr: &AlignedBlock,
    model: &mut Model,
    bool_writer: &mut VPXBoolWriter,
    qt: &QuantizationTables,
    features: &EnabledFeatures,
) -> (r: Result<NeighborSummary, ExitCode>)
    requires
        model_shaped(old(model)@),
        qt.derived(),
        neighbors_in_range(neighbors_data@),
    ensures
        model_shaped(final(model)@),
        encoder_valid(final(bool_writer).state()),
        r.is_err() ==> r == Err::<NeighborSummary, ExitCode>(ExitCode::CoefficientOutOfRange),
        ({
            let c = setting_of(*pt, ALL_PRESENT, neighbors_data@, *qt, *features);
            let b = block_encoded(old(bool_writer).state(), old(model)@, c, here_tr@);
            &&& r.is_ok() <==> block_codable(old(bool_writer).state(), old(model)@, c, here_tr@)
            &&& r.is_ok() ==> {
                &&& r.unwrap()@ == b.summary
                &&& final(bool_writer).state() == b.coder
                &&& final(model)@ == b.model
            }
        }),
{
    reveal(block_encoded);
    bool_writer.lemma_valid();
    let ghost c = setting_of(*pt, ALL_PRESENT, neighbors_data@, *qt, *features);
    if !here_tr.is_ac_in_range() {
        return Err(ExitCode::CoefficientOutOfRange);
    }
    let mut raster: [i32; 64] = [0i32; 64];
    assert(raster@ =~= Seq::new(64, |i: int| 0i32));
    let num_non_zeros_7x7 = encode_ac::<ALL_PRESENT>(
        pt,
        neighbors_data,
        here_tr,
        model,
        bool_writer,
        qt,
        &mut raster,
        Ghost(c),
    );
    bool_writer.lemma_valid();
    let q0 = qt.get_quantization_table()[0] as i32;
    let predicted_val = pt.adv_predict_dc_pix::<ALL_PRESENT>(
        &raster,
        q0,
        neighbors_data,
        features,
    );
    let avg_predicted_dc = ProbabilityTables::adv_predict_or_unpredict_dc(
        here_tr.get_dc(),
        false,
        predicted_val.predicted_dc,
    );
    if avg_predicted_dc <= -2048 || avg_predicted_dc >= 2048 {
        return Err(ExitCode::CoefficientOutOfRange);
    }
    if here_tr.get_dc() as i32 != ProbabilityTables::adv_predict_or_unpredict_dc(
        avg_predicted_dc as i16,
        true,
        predicted_val.predicted_dc,
    ) {
        return Err(ExitCode::CoefficientOutOfRange);
    }
    let color = pt.get_color_index();
    let written = model.write_dc(
        bool_writer,
        color,
        avg_predicted_dc as i16,
        predicted_val.uncertainty,
        predicted_val.uncertainty2,
    );
    let (horiz_pred, vert_pred) = ProbabilityTables::predict_next_edges(&raster);
    let dc = here_tr.get_dc();
    assert(-32768 * 65535 <= dc * q0 <= 32768 * 65535) by (nonlinear_arith)
        requires
            -32768 <= dc <= 32767,
            0 <= q0 <= 65535,
    ;
    let neighbor_summary = NeighborSummary::new(
        &predicted_val.advanced_predict_dc_pixels_sans_dc,
        dc as i32 * q0,
        num_non_zeros_7x7,
        horiz_pred,
        vert_pred,
        features,
    );
    Ok(neighbor_summary)
}

/// The state of encoding the blocks of one component: the state of the
/// encoder and of the model, the cache of summaries, and the cursor.
pub ghost struct PutRowWork {
    pub coder: EncoderState,
    pub model: ModelState,
    pub cache: Seq<SummaryView>,
    pub context: BlockContext,
}

/// What stays the same while the blocks of one component are encoded: the
/// blocks, the position of the first of them, the quantization tables and
/// the features.
pub ghost struct PutRowSetting {
    pub offset: int,
    pub coefficients: Seq<Seq<i16>>,
    pub qt: QuantizationTables,
    pub features: EnabledFeatures,
}

/// The setting in which the block under the cursor is coded.
pub open spec fn token_setting(
    w: PutRowWork,
    rs: PutRowSetting,
    pt: ProbabilityTables,
    all_present: bool,
) -> BlockSetting {
    setting_of(
        pt,
        all_present,
        neighbors_at(
            w.context,
            rs.offset,
            rs.coefficients,
            w.cache,
            pt.uses_left(all_present),
            pt.uses_above(all_present),
            all_present,
        ),
        rs.qt,
        rs.features,
    )
}

/// The state after the block under the cursor has been coded and summed up
/// in the cache; or nothing where the block or one of its neighbours
/// cannot be coded.
#[verifier::opaque]
pub open spec fn token_encoded(
    w: PutRowWork,
    rs: PutRowSetting,
    pt: ProbabilityTables,
    all_present: bool,
) -> Option<PutRowWork> {
    let c = token_setting(w, rs, pt, all_present);
    let here = block_in(rs.offset, rs.coefficients, w.context.cur_block_index as int);
    if !neighbors_in_range(c.neighbors) || !block_codable(w.coder, w.model, c, here) {
        None
    } else {
        let b = block_encoded(w.coder, w.model, c, here);
        Some(
            PutRowWork {
                coder: b.coder,
                model: b.model,
                cache: w.cache.update(w.context.cur_num_non_zeros_index as int, b.summary),
                context: w.context,
            },
        )
    }
}

/// The state after the last block of a row of more than one block has been
/// coded.
#[verifier::opaque]
pub open spec fn row_end_encoded(w: PutRowWork, rs: PutRowSetting, shape: RowShape) -> Option<
    PutRowWork,
> {
    if shape.block_width > 1 {
        let t = token_encoded(w, rs, shape.right, has_all(shape.right));
        if t.is_none() {
            None
        } else {
            Some(PutRowWork { context: stepped(t.unwrap().context, false), ..t.unwrap() })
        }
    } else {
        Some(w)
    }
}

/// The state after the blocks of a row from the `x`-th on have been coded;
/// the row is left early where the component ends within it.
#[verifier::opaque]
pub open spec fn row_put_from(w: PutRowWork, rs: PutRowSetting, shape: RowShape, x: int) -> Option<
    PutRowWork,
>
    decreases shape.block_width - x,
{
    if x < 1 || x >= shape.block_width - 1 {
        row_end_encoded(w, rs, shape)
    } else {
        let t = token_encoded(w, rs, shape.middle, has_all(shape.middle));
        if t.is_none() {
            None
        } else {
            let next = PutRowWork { context: stepped(t.unwrap().context, true), ..t.unwrap() };
            if next.context.cur_block_index >= shape.component_size_in_blocks {
                Some(next)
            } else {
                row_put_from(next, rs, shape, x + 1)
            }
        }
    }
}

/// The state after a row of blocks has been coded.
#[verifier::opaque]
pub open spec fn row_encoded(w: PutRowWork, rs: PutRowSetting, shape: RowShape) -> Option<
    PutRowWork,
> {
    if shape.block_width > 0 {
        let t = token_encoded(w, rs, shape.left, has_all(shape.left));
        if t.is_none() {
            None
        } else {
            let next = PutRowWork { context: stepped(t.unwrap().context, true), ..t.unwrap() };
            if next.context.cur_block_index >= shape.component_size_in_blocks {
                Some(next)
            } else {
                row_put_from(next, rs, shape, 1)
            }
        }
    } else {
        Some(w)
    }
}

/// The state that the registers of the row encoder stand for.
pub open spec fn put_row_work_of(
    bool_writer: VPXBoolWriter,
    model: Model,
    cache: Seq<NeighborSummary>,
    context: BlockContext,
) -> PutRowWork {
    PutRowWork {
        coder: bool_writer.state(),
        model: model@,
        cache: cache_view(cache),
        context,
    }
}

/// The setting that the arguments of the row encoder make up.
pub open spec fn put_row_setting_of(
    image_data: BlockBasedImage,
    qt: QuantizationTables,
    features: EnabledFeatures,
) -> PutRowSetting {
    PutRowSetting {
        offset: image_data.dpos_offset() as int,
        coefficients: image_data.coefficients(),
        qt,
        features,
    }
}

fn write_token<const ALL_PRESENT: bool>(
    model: &mut Model,
    bool_writer: &mut VPXBoolWriter,
    image_data: &BlockBasedImage,
    context: &BlockContext,
    neighbor_summary_cache: &mut Vec<NeighborSummary>,
    qt: &QuantizationTables,
    pt: &ProbabilityTables,
    features: &EnabledFeatures,
) -> (r: Result<(), ExitCode>)
    requires
        model_shaped(old(model)@),
        qt.derived(),
        context.in_cache(pt, ALL_PRESENT, old(neighbor_summary_cache).len() as int),
        0 <= context.cur_num_non_zeros_index < old(neighbor_summary_cache).len(),
    ensures
        model_shaped(final(model)@),
        final(neighbor_summary_cache).len() == old(neighbor_summary_cache).len(),
        r.is_err() ==> r == Err::<(), ExitCode>(ExitCode::CoefficientOutOfRange),
        ({
            let t = token_encoded(
                put_row_work_of(
                    *old(bool_writer),
                    *old(model),
                    old(neighbor_summary_cache)@,
                    *context,
                ),
                put_row_setting_of(*image_data, *qt, *features),
                *pt,
                ALL_PRESENT,
            );
            &&& r.is_ok() <==> t.is_some()
            &&& r.is_ok() ==> put_row_work_of(
                *final(bool_writer),
                *final(model),
                final(neighbor_summary_cache)@,
                *context,
            ) == t.unwrap()
        }),
{
    reveal(token_encoded);
    let neighbors = context.get_neighbor_data::<ALL_PRESENT>(
        image_data,
        neighbor_summary_cache,
        pt,
    );
    proof {
        neighbors.left.lemma_len();
        neighbors.above.lemma_len();
        neighbors.above_left.lemma_len();
    }
    if !neighbors.left.is_ac_in_range() || !neighbors.above.is_ac_in_range()
        || !neighbors.above_left.is_ac_in_range() {
        return Err(ExitCode::CoefficientOutOfRange);
    }
    let here = context.here(image_data);
    let ns = match write_coefficient_block::<ALL_PRESENT>(
        pt,
        &neighbors,
        here,
        model,
        bool_writer,
        qt,
        features,
    ) {
        Ok(ns) => ns,
        Err(_) => {
            return Err(ExitCode::CoefficientOutOfRange);
        },
    };
    context.set_neighbor_summary_here(neighbor_summary_cache, ns);
    Ok(())
}

/// Codes the block under the cursor with the tables `pt`.
fn write_block(
    model: &mut Model,
    bool_writer: &mut VPXBoolWriter,
    image_data: &BlockBasedImage,
    context: &BlockContext,
    neighbor_summary_cache: &mut Vec<NeighborSummary>,
    qt: &QuantizationTables,
    pt: &ProbabilityTables,
    features: &EnabledFeatures,
) -> (r: Result<(), ExitCode>)
    requires
        model_shaped(old(model)@),
        qt.derived(),
        context.in_cache(pt, has_all(*pt), old(neighbor_summary_cache).len() as int),
        0 <= context.cur_num_non_zeros_index < old(neighbor_summary_cache).len(),
    ensures
        model_shaped(final(model)@),
        final(neighbor_summary_cache).len() == old(neighbor_summary_cache).len(),
        r.is_err() ==> r == Err::<(), ExitCode>(ExitCode::CoefficientOutOfRange),
        ({
            let t = token_encoded(
                put_row_work_of(
                    *old(bool_writer),
                    *old(model),
                    old(neighbor_summary_cache)@,
                    *context,
                ),
                put_row_setting_of(*image_data, *qt, *features),
                *pt,
                has_all(*pt),
            );
            &&& r.is_ok() <==> t.is_some()
            &&& r.is_ok() ==> put_row_work_of(
                *final(bool_writer),
                *final(model),
                final(neighbor_summary_cache)@,
                *context,
            ) == t.unwrap()
        }),
{
    if pt.is_all_present() {
        write_token::<true>(
            model,
            bool_writer,
            image_data,
            context,
            neighbor_summary_cache,
            qt,
            pt,
            features,
        )
    } else {
        write_token::<false>(
            model,
            bool_writer,
            image_data,
            context,
            neighbor_summary_cache,
            qt,
            pt,
            features,
        )
    }
}

fn process_row(
    model: &mut Model,
    bool_writer: &mut VPXBoolWriter,
    qt: &QuantizationTables,
    left_model: &ProbabilityTables,
    middle_model: &ProbabilityTables,
    right_model: &ProbabilityTables,
    image_data: &BlockBasedImage,
    block_context: &mut BlockContext,
    neighbor_summary_cache: &mut Vec<NeighborSummary>,
    component_size_in_blocks: i32,
    features: &EnabledFeatures,
) -> (r: Result<(), ExitCode>)
    requires
        model_shaped(old(model)@),
        qt.derived(),
        !left_model.left_present(),
        row_fits(
            *old(block_context),
            image_data.block_width() as int,
            old(neighbor_summary_cache).len() as int,
        ),
    ensures
        model_shaped(final(model)@),
        final(neighbor_summary_cache).len() == old(neighbor_summary_cache).len(),
        r.is_err() ==> r == Err::<(), ExitCode>(ExitCode::CoefficientOutOfRange),
        ({
            let t = row_encoded(
                put_row_work_of(
                    *old(bool_writer),
                    *old(model),
                    old(neighbor_summary_cache)@,
                    *old(block_context),
                ),
                put_row_setting_of(*image_data, *qt, *features),
                row_shape_of(
                    *left_model,
                    *middle_model,
                    *right_model,
                    image_data.block_width() as int,
                    component_size_in_blocks as int,
                ),
            );
            &&& r.is_ok() <==> t.is_some()
            &&& r.is_ok() ==> put_row_work_of(
                *final(bool_writer),
                *final(model),
                final(neighbor_summary_cache)@,
                *final(block_context),
            ) == t.unwrap()
        }),
{
    reveal(row_encoded);
    reveal(row_end_encoded);
    let block_width = image_data.get_block_width();
    let ghost rs = put_row_setting_of(*image_data, *qt, *features);
    let ghost shape = row_shape_of(
        *left_model,
        *middle_model,
        *right_model,
        block_width as int,
        component_size_in_blocks as int,
    );
    let ghost start = *block_context;
    if block_width <= 0 {
        return Ok(());
    }
    if write_block(
        model,
        bool_writer,
        image_data,
        block_context,
        neighbor_summary_cache,
        qt,
        left_model,
        features,
    ).is_err() {
        return Err(ExitCode::CoefficientOutOfRange);
    }
    let offset = block_context.next(true);
    if offset >= component_size_in_blocks {
        return Ok(());
    }
    let mut jpeg_x: i32 = 1;
    while jpeg_x < block_width - 1
        invariant
            1 <= jpeg_x,
            jpeg_x <= block_width - 1 || block_width == 1,
            block_width == image_data.block_width(),
            model_shaped(model@),
            qt.derived(),
            row_fits(start, block_width as int, neighbor_summary_cache.len() as int),
            *block_context == (BlockContext {
                cur_block_index: (start.cur_block_index + jpeg_x) as i32,
                above_block_index: (start.above_block_index + jpeg_x) as i32,
                cur_num_non_zeros_index: (start.cur_num_non_zeros_index + jpeg_x) as i32,
                above_num_non_zero_index: (start.above_num_non_zero_index + jpeg_x) as i32,
            }),
            start == *old(block_context),
            !left_model.left_present(),
            neighbor_summary_cache.len() == old(neighbor_summary_cache).len(),
            rs == put_row_setting_of(*image_data, *qt, *features),
            shape == row_shape_of(
                *left_model,
                *middle_model,
                *right_model,
                block_width as int,
                component_size_in_blocks as int,
            ),
            row_put_from(
                put_row_work_of(*bool_writer, *model, neighbor_summary_cache@, *block_context),
                rs,
                shape,
                jpeg_x as int,
            ) == row_encoded(
                put_row_work_of(
                    *old(bool_writer),
                    *old(model),
                    old(neighbor_summary_cache)@,
                    start,
                ),
                rs,
                shape,
            ),
        decreases block_width - jpeg_x,
    {
        proof {
            reveal_with_fuel(row_put_from, 2);
        }
        if write_block(
            model,
            bool_writer,
            image_data,
            block_context,
            neighbor_summary_cache,
            qt,
            middle_model,
            features,
        ).is_err() {
            return Err(ExitCode::CoefficientOutOfRange);
        }
        let offset = block_context.next(true);
        if offset >= component_size_in_blocks {
            return Ok(());
        }
        jpeg_x += 1;
    }
    proof {
        reveal_with_fuel(row_put_from, 2);
    }
    if block_width > 1 {
        if write_block(
            model,
            bool_writer,
            image_data,
            block_context,
            neighbor_summary_cache,
            qt,
            right_model,
            features,
        ).is_err() {
            return Err(ExitCode::CoefficientOutOfRange);
        }
        block_context.next(false);
    }
    Ok(())
}

/// The state of encoding a band: the state of the encoder and of the
/// model and, for every component, the cache of summaries and whether no
/// row of it has been coded yet.
pub ghost struct PutBandWork {
    pub coder: EncoderState,
    pub model: ModelState,
    pub caches: Seq<Seq<SummaryView>>,
    pub is_top_row: Seq<bool>,
}

/// The first step of the coding order that cannot be computed any more.
pub open spec fn last_step(cfg: BandSetting) -> int {
    i32::MAX - rows_per_mcu(cfg.heights[0] as int, cfg.mcu_count_vertical) - 1
}

/// The state after the row that the step `row` of the coding order names
/// has been coded.
#[verifier::opaque]
pub open spec fn band_row_encoded(
    w: PutBandWork,
    cfg: BandSetting,
    images: Seq<Seq<Seq<i16>>>,
    row: RowSpec,
) -> Option<PutBandWork> {
    let c = row.component as int;
    let t = row_encoded(
        PutRowWork {
            coder: w.coder,
            model: w.model,
            cache: w.caches[c],
            context: row_start(cfg.block_widths[c], row.curr_y as int),
        },
        PutRowSetting {
            offset: cfg.offsets[c],
            coefficients: images[c],
            qt: cfg.qt[c],
            features: cfg.features,
        },
        shape_for(
            cfg.pts,
            c,
            w.is_top_row[c],
            cfg.block_widths[c],
            cfg.component_sizes_in_blocks[c] as int,
        ),
    );
    if t.is_none() {
        None
    } else {
        Some(
            PutBandWork {
                coder: t.unwrap().coder,
                model: t.unwrap().model,
                caches: w.caches.update(c, t.unwrap().cache),
                is_top_row: w.is_top_row.update(c, false),
            },
        )
    }
}

/// The state after the rows of a band from the step `decode_index` of the
/// coding order on have been coded. Coding ends at the step that is marked
/// done, or at the first luma row past the band unless the band goes to the
/// end of the image; rows before the band and rows that are not coded are
/// passed over. It fails where a block cannot be coded, and where the
/// coding order cannot be computed in 32 bits.
pub open spec fn band_put_from(
    w: PutBandWork,
    cfg: BandSetting,
    images: Seq<Seq<Seq<i16>>>,
    encode_index: int,
) -> Result<PutBandWork, ExitCode>
    decreases last_step(cfg) - encode_index + 1,
{
    if encode_index > last_step(cfg) || encode_index < 0 {
        Err(ExitCode::AssertionFailure)
    } else {
        let row = row_spec_of(
            encode_index,
            cfg.heights,
            cfg.mcu_count_vertical,
            cfg.max_coded_heights,
        );
        if row.done || (row.luma_y >= cfg.max_y && !cfg.to_the_end) {
            Ok(w)
        } else if row.skip || row.luma_y < cfg.min_y {
            band_put_from(w, cfg, images, encode_index + 1)
        } else {
            let t = band_row_encoded(w, cfg, images, row);
            if t.is_none() {
                Err(ExitCode::CoefficientOutOfRange)
            } else {
                band_put_from(t.unwrap(), cfg, images, encode_index + 1)
            }
        }
    }
}

/// The state in which the encoding of a band starts.
pub open spec fn put_band_start(images: Seq<BlockBasedImage>) -> PutBandWork {
    PutBandWork {
        coder: VPXBoolWriter::start_state(),
        model: fresh_model(),
        caches: Seq::new(
            images.len(),
            |i: int| Seq::new((2 * images[i].block_width()) as nat, |k: int| empty_summary()),
        ),
        is_top_row: Seq::new(images.len(), |i: int| true),
    }
}

/// Whether a band of `images` can be encoded: there are between one and
/// four components, every component has a quantization table, a size and a
/// coded height, the coding order is defined, and the positions of the
/// blocks to code fit into 32 bits.
pub open spec fn band_codable(
    qt: Seq<QuantizationTables>,
    trunc: TruncateComponents,
    images: Seq<BlockBasedImage>,
) -> bool {
    &&& 1 <= images.len() <= 4
    &&& qt.len() == images.len()
    &&& trunc.component_sizes_in_blocks.len() == images.len()
    &&& trunc.max_coded_heights.len() == images.len()
    &&& forall|i: int| 0 <= i < images.len() ==> (#[trigger] qt[i]).derived()
    &&& forall|i: int|
        0 <= i < images.len() ==> 1 <= (#[trigger] images[i]).block_width() && 2
            * images[i].block_width() < i32::MAX && 0 <= images[i].original_height()
            && images[i].block_width() * trunc.max_coded_heights[i] < i32::MAX
    &&& trunc.mcu_count_vertical > 0
    &&& order_defined(
        0,
        Seq::new(images.len(), |i: int| images[i].original_height()),
        trunc.mcu_count_vertical as int,
        trunc.max_coded_heights@,
    )
}

fn encode_band_row(
    model: &mut Model,
    bool_writer: &mut VPXBoolWriter,
    pts: &ProbabilityTablesSet,
    qt: &Vec<QuantizationTables>,
    trunc: &TruncateComponents,
    image_data: &Vec<BlockBasedImage>,
    neighbor_summary_cache: &mut Vec<Vec<NeighborSummary>>,
    is_top_row: &mut Vec<bool>,
    cur_row: RowSpec,
    features: &EnabledFeatures,
    Ghost(cfg): Ghost<BandSetting>,
) -> (r: Result<(), ExitCode>)
    requires
        pts.wf(),
        band_codable(qt@, *trunc, image_data@),
        old(is_top_row).len() == image_data.len(),
        old(neighbor_summary_cache).len() == image_data.len(),
        forall|k: int|
            0 <= k < image_data.len() ==> (#[trigger] old(neighbor_summary_cache)[k]).len() == 2
                * image_data[k].block_width(),
        model_shaped(old(model)@),
        cur_row.component < image_data.len(),
        0 <= cur_row.curr_y < trunc.max_coded_heights[cur_row.component as int],
        cfg == band_setting_of(
            *pts,
            qt@,
            *trunc,
            image_data@,
            cfg.min_y as i32,
            cfg.max_y as i32,
            cfg.to_the_end,
            *features,
        ),
    ensures
        model_shaped(final(model)@),
        final(is_top_row).len() == image_data.len(),
        final(neighbor_summary_cache).len() == image_data.len(),
        forall|k: int|
            0 <= k < image_data.len() ==> (#[trigger] final(neighbor_summary_cache)[k]).len() == 2
                * image_data[k].block_width(),
        r.is_err() ==> r == Err::<(), ExitCode>(ExitCode::CoefficientOutOfRange),
        ({
            let t = band_row_encoded(
                PutBandWork {
                    coder: old(bool_writer).state(),
                    model: old(model)@,
                    caches: caches_view(old(neighbor_summary_cache)@),
                    is_top_row: old(is_top_row)@,
                },
                cfg,
                images_view(image_data@),
                cur_row,
            );
            &&& r.is_ok() <==> t.is_some()
            &&& r.is_ok() ==> (PutBandWork {
                coder: final(bool_writer).state(),
                model: final(model)@,
                caches: caches_view(final(neighbor_summary_cache)@),
                is_top_row: final(is_top_row)@,
            }) == t.unwrap()
        }),
{
    reveal(band_row_encoded);
    let component = cur_row.component;
    let curr_y = cur_row.curr_y;
    let image = &image_data[component];
    let block_width = image.get_block_width();
    let ghost caches_before = neighbor_summary_cache@;
    assert(qt[component as int].derived());
    assert(0 <= block_width * curr_y && block_width * curr_y + block_width < i32::MAX && (curr_y
        > 0 ==> block_width * (curr_y - 1) + block_width == block_width * curr_y)
        && block_width <= block_width * (curr_y + 1)) by (nonlinear_arith)
        requires
            1 <= block_width,
            0 <= curr_y < trunc.max_coded_heights[component as int],
            block_width * trunc.max_coded_heights[component as int] < i32::MAX,
    ;
    let mut context = image.off_y(curr_y);
    assert(context == row_start(block_width as int, curr_y as int));
    let top = is_top_row[component];
    is_top_row[component] = false;
    let size = trunc.get_component_sizes_in_blocks()[component];
    let coded = if top {
        process_row(
            model,
            bool_writer,
            &qt[component],
            &pts.corner[component],
            &pts.top[component],
            &pts.top[component],
            image,
            &mut context,
            &mut neighbor_summary_cache[component],
            size,
            features,
        )
    } else if block_width > 1 {
        process_row(
            model,
            bool_writer,
            &qt[component],
            &pts.mid_left[component],
            &pts.middle[component],
            &pts.mid_right[component],
            image,
            &mut context,
            &mut neighbor_summary_cache[component],
            size,
            features,
        )
    } else {
        process_row(
            model,
            bool_writer,
            &qt[component],
            &pts.width_one[component],
            &pts.width_one[component],
            &pts.width_one[component],
            image,
            &mut context,
            &mut neighbor_summary_cache[component],
            size,
            features,
        )
    };
    assert(neighbor_summary_cache@ =~= caches_before.update(
        component as int,
        neighbor_summary_cache[component as int],
    ));
    assert(caches_view(neighbor_summary_cache@)
        =~= caches_view(caches_before).update(
        component as int,
        cache_view(neighbor_summary_cache[component as int]@),
    ));
    coded
}

/// Encodes the rows of a band of an image, of which `image_data` holds one
/// image for every component, and hands out the coded bytes.
///
/// The band holds the luma rows from `min_y` up to `max_y`; the band of the
/// last worker goes on to the end of the image where the whole file is
/// compressed.
pub fn lepton_encode_row_range(
    pts: &ProbabilityTablesSet,
    qt: &Vec<QuantizationTables>,
    trunc: &TruncateComponents,
    image_data: &Vec<BlockBasedImage>,
    min_y: i32,
    max_y: i32,
    is_last_thread: bool,
    full_file_compression: bool,
    features: &EnabledFeatures,
) -> (r: Result<Vec<u8>, ExitCode>)
    requires
        pts.wf(),
        band_codable(qt@, *trunc, image_data@),
    ensures
        ({
            let t = band_put_from(
                put_band_start(image_data@),
                band_setting_of(
                    *pts,
                    qt@,
                    *trunc,
                    image_data@,
                    min_y,
                    max_y,
                    is_last_thread && full_file_compression,
                    *features,
                ),
                images_view(image_data@),
                0,
            );
            &&& r.is_ok() <==> t.is_ok()
            &&& r matches Err(e) ==> t == Err::<PutBandWork, ExitCode>(e)
            &&& r.is_ok() ==> r.unwrap()@ == flushed(t.unwrap().coder, 32).buffer
        }),
{
    let max_coded_heights = trunc.get_max_coded_heights();
    let ghost cfg = band_setting_of(
        *pts,
        qt@,
        *trunc,
        image_data@,
        min_y,
        max_y,
        is_last_thread && full_file_compression,
        *features,
    );
    let ghost images = images_view(image_data@);
    let mut is_top_row: Vec<bool> = Vec::new();
    let mut neighbor_summary_cache: Vec<Vec<NeighborSummary>> = Vec::new();
    let mut heights: Vec<i32> = Vec::new();
    let mut i: usize = 0;
    while i < image_data.len()
        invariant
            i <= image_data.len(),
            band_codable(qt@, *trunc, image_data@),
            is_top_row.len() == i,
            neighbor_summary_cache.len() == i,
            heights.len() == i,
            forall|k: int| 0 <= k < i ==> #[trigger] is_top_row[k],
            forall|k: int|
                0 <= k < i ==> #[trigger] heights[k] == image_data[k].original_height(),
            forall|k: int|
                0 <= k < i ==> (#[trigger] neighbor_summary_cache[k]).len() == 2
                    * image_data[k].block_width() && cache_view(neighbor_summary_cache[k]@)
                    == Seq::new(
                    (2 * image_data[k].block_width()) as nat,
                    |j: int| empty_summary(),
                ),
        decreases image_data.len() - i,
    {
        is_top_row.push(true);
        heights.push(image_data[i].get_original_height());
        neighbor_summary_cache.push(
            fresh_cache(image_data[i].get_block_width()),
        );
        i += 1;
    }
    assert(heights@ =~= cfg.heights);
    let mut model = Model::new();
    let mut bool_writer = VPXBoolWriter::new();
    assert(is_top_row@ =~= put_band_start(image_data@).is_top_row);
    assert(caches_view(neighbor_summary_cache@) =~= put_band_start(
        image_data@,
    ).caches);
    let per_luma: i32 = heights[0] / trunc.mcu_count_vertical;
    assert(0 <= per_luma <= heights[0]) by (nonlinear_arith)
        requires
            per_luma == heights[0] as int / trunc.mcu_count_vertical as int,
            0 <= heights[0],
            trunc.mcu_count_vertical > 0,
    ;
    let last: i32 = i32::MAX - per_luma - 1;
    let mut encode_index: i32 = 0;
    loop
        invariant
            0 <= encode_index,
            pts.wf(),
            band_codable(qt@, *trunc, image_data@),
            heights@ == cfg.heights,
            last == last_step(cfg),
            -1 <= last < i32::MAX,
            max_coded_heights@ == trunc.max_coded_heights@,
            is_top_row.len() == image_data.len(),
            neighbor_summary_cache.len() == image_data.len(),
            forall|k: int|
                0 <= k < image_data.len() ==> (#[trigger] neighbor_summary_cache[k]).len() == 2
                    * image_data[k].block_width(),
            model_shaped(model@),
            images == images_view(image_data@),
            cfg == band_setting_of(
                *pts,
                qt@,
                *trunc,
                image_data@,
                min_y,
                max_y,
                is_last_thread && full_file_compression,
                *features,
            ),
            band_put_from(
                PutBandWork {
                    coder: bool_writer.state(),
                    model: model@,
                    caches: caches_view(neighbor_summary_cache@),
                    is_top_row: is_top_row@,
                },
                cfg,
                images,
                encode_index as int,
            ) == band_put_from(put_band_start(image_data@), cfg, images, 0),
        ensures
            band_put_from(put_band_start(image_data@), cfg, images, 0) == Ok::<
                PutBandWork,
                ExitCode,
            >(
                PutBandWork {
                    coder: bool_writer.state(),
                    model: model@,
                    caches: caches_view(neighbor_summary_cache@),
                    is_top_row: is_top_row@,
                },
            ),
        decreases last - encode_index + 1,
    {
        if encode_index > last {
            return Err(ExitCode::AssertionFailure);
        }
        let cur_row = RowSpec::get_row_spec_from_index(
            encode_index,
            &heights,
            trunc.mcu_count_vertical,
            max_coded_heights,
        );
        if cur_row.done {
            break;
        }
        if cur_row.luma_y >= max_y && !(is_last_thread && full_file_compression) {
            break;
        }
        encode_index += 1;
        if cur_row.skip {
            continue;
        }
        if cur_row.luma_y < min_y {
            continue;
        }
        if encode_band_row(
            &mut model,
            &mut bool_writer,
            pts,
            qt,
            trunc,
            image_data,
            &mut neighbor_summary_cache,
            &mut is_top_row,
            cur_row,
            features,
            Ghost(cfg),
        ).is_err() {
            return Err(ExitCode::CoefficientOutOfRange);
        }
    }
    Ok(bool_writer.finish())
}

} // verus!
