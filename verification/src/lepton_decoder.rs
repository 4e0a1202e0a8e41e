//! Decoding of blocks, rows and bands of coefficients.

use crate::block_based_image::{
    ac_in_range, blocks_in_range, zero_block, AlignedBlock, BlockBasedImage,
};
use crate::block_context::{cache_view, neighbors_at, BlockContext, NeighborData, NeighborsView};
use crate::consts::{lemma_unzigzag_49_inner, NON_ZERO_TO_BIN, NON_ZERO_TO_BIN_7X7, UNZIGZAG_49_TR};
use crate::enabled_features::EnabledFeatures;
use crate::helpers::{bit_length, u16_bit_length};
use crate::idct::idct_of;
use crate::lanes::strided;
use crate::lepton_error::ExitCode;
use crate::metrics::Metrics;
use crate::model::{
    dc_difference, edge_coef, fresh_model, inner_coef, model_shaped, non_zero_7x7_count,
    non_zero_edge_count, Model, ModelState, PerColorState,
};
use crate::neighbor_summary::{border_of, empty_summary, NeighborSummary, SummaryView};
use crate::probability_tables::{
    fold_dc, horizontal_current, horizontal_next, non_zero_context, prediction_of, vertical_current,
    vertical_next, ProbabilityTables,
};
use crate::probability_tables_set::ProbabilityTablesSet;
use crate::quantization_tables::QuantizationTables;
use crate::row_spec::{order_defined, row_spec_of, rows_per_mcu, RowSpec};
use crate::truncate_components::TruncateComponents;
use crate::vpx_bool_reader::{CoderState, VPXBoolReader};
use vstd::prelude::*;
use vstd::std_specs::bits::{axiom_u64_leading_zeros, u64_leading_zeros};

verus! {

/// A block in the making: its coefficients, the same dequantized, the set
/// of places that hold a non-zero coefficient, the number of non-zero
/// coefficients still owed, and the state of the decoder and of the cells.
pub ghost struct BlockWork {
    pub coefs: Seq<i16>,
    pub raster: Seq<i32>,
    pub mask: u64,
    pub remaining: int,
    pub coder: CoderState,
    pub cells: PerColorState,
}

/// What the tables and the neighbours of a block contribute to its coding.
pub ghost struct BlockSetting {
    pub pt: ProbabilityTables,
    pub all_present: bool,
    pub neighbors: NeighborsView,
    pub steps: Seq<u16>,
    pub steps_transposed: Seq<u16>,
    pub thresholds: Seq<u8>,
    pub features: EnabledFeatures,
}

/// The work after a coefficient `coef` has been read for the place `coord`.
pub open spec fn with_coefficient(
    w: BlockWork,
    c: BlockSetting,
    coord: int,
    coef: int,
    coder: CoderState,
    cells: PerColorState,
    inner: bool,
) -> BlockWork {
    if coef != 0 {
        BlockWork {
            coefs: w.coefs.update(coord, coef as i16),
            raster: w.raster.update(coord, (coef * c.steps_transposed[coord]) as i32),
            mask: if inner {
                w.mask | (1u64 << (coord as u64))
            } else {
                w.mask
            },
            remaining: w.remaining - 1,
            coder,
            cells,
        }
    } else {
        BlockWork { coder, cells, ..w }
    }
}

/// The work after the inner coefficients from the `zig`-th in coding order
/// on have been read: each in the context of its place, of the number of
/// non-zero coefficients still owed and of the magnitude expected from the
/// neighbours, until none is owed any more.
#[verifier::opaque]
pub open spec fn inner_from(data: Seq<u8>, w: BlockWork, c: BlockSetting, zig: int) -> BlockWork
    decreases 49 - zig,
{
    if zig >= 49 || zig < 0 || w.remaining <= 0 {
        w
    } else {
        let coord = UNZIGZAG_49_TR[zig] as int;
        let prior = c.pt.expected_magnitude(
            c.all_present,
            c.neighbors.left,
            c.neighbors.above,
            c.neighbors.above_left,
            coord,
        );
        let (coef, coder, cells) = inner_coef(
            data,
            w.coder,
            w.cells,
            zig,
            NON_ZERO_TO_BIN_7X7[w.remaining] as int,
            bit_length(prior),
        );
        inner_from(data, with_coefficient(w, c, coord, coef, coder, cells, true), c, zig + 1)
    }
}

/// The work after the coefficients of one edge from the `lane`-th on have
/// been read: each in the context of its place, of the number of non-zero
/// coefficients still owed on the edge and of the value expected from the
/// predictor `pred`, until none is owed any more.
#[verifier::opaque]
pub open spec fn edge_from(
    data: Seq<u8>,
    w: BlockWork,
    c: BlockSetting,
    horizontal: bool,
    pred: Seq<i32>,
    lane: int,
) -> BlockWork
    decreases 7 - lane,
{
    if lane >= 7 || lane < 0 || w.remaining <= 0 {
        w
    } else {
        let coord = if horizontal {
            8 * (lane + 1)
        } else {
            lane + 1
        };
        let zig15 = if horizontal {
            lane
        } else {
            7 + lane
        };
        let prior = c.pt.lak_of(c.all_present, horizontal, c.steps_transposed, coord, pred);
        let (coef, coder, cells) = edge_coef(
            data,
            w.coder,
            w.cells,
            c.thresholds[zig15] as int,
            zig15,
            w.remaining,
            prior,
        );
        edge_from(
            data,
            with_coefficient(w, c, coord, coef, coder, cells, false),
            c,
            horizontal,
            pred,
            lane + 1,
        )
    }
}

/// The work after one edge has been read: first the number of its non-zero
/// coefficients, in the context of the estimated end of the block `eob` and
/// of the bin `bin` of the count of non-zero inner coefficients, then the
/// coefficients.
#[verifier::opaque]
pub open spec fn edge_decoded(
    data: Seq<u8>,
    w: BlockWork,
    c: BlockSetting,
    horizontal: bool,
    pred: Seq<i32>,
    eob: int,
    bin: int,
) -> BlockWork {
    let (count, coder, cells) = non_zero_edge_count(data, w.coder, w.cells, horizontal, eob, bin);
    edge_from(data, BlockWork { remaining: count, coder, cells, ..w }, c, horizontal, pred, 0)
}

/// Seven less the number of the last column that holds a non-zero
/// coefficient, for a set `mask` of column-major places.
pub open spec fn end_of_block_x(mask: u64) -> int {
    u64_leading_zeros(mask | 1) / 8
}

/// The set `mask` of places with every row folded onto the last.
pub open spec fn folded(mask: u64) -> u64 {
    let a = (mask | 1) | ((mask | 1) << 32u64);
    let b = a | (a << 16u64);
    b | (b << 8u64)
}

/// Seven less the number of the last row that holds a non-zero coefficient,
/// for a set `mask` of column-major places.
pub open spec fn end_of_block_y(mask: u64) -> int {
    u64_leading_zeros(folded(mask)) as int
}

/// A decoded block and what it leaves behind.
pub ghost struct DecodedBlock {
    pub coefs: Seq<i16>,
    pub pixels: Seq<i16>,
    pub dc_deq: i32,
    pub num_non_zeros_7x7: int,
    pub horiz_pred: Seq<i32>,
    pub vert_pred: Seq<i32>,
    pub coder: CoderState,
    pub model: ModelState,
}

/// The summary of a block with the pixels `pixels` (without the DC term,
/// row by row, times eight), the dequantized DC term `dc_deq`, `count`
/// non-zero inner coefficients, and the given predictors for the edges of
/// its neighbours.
pub open spec fn summary_from(
    features: EnabledFeatures,
    pixels: Seq<i16>,
    dc_deq: i32,
    count: int,
    horiz_pred: Seq<i32>,
    vert_pred: Seq<i32>,
) -> SummaryView {
    SummaryView {
        horizontal: border_of(features, dc_deq, strided(pixels, 56, 1), strided(pixels, 48, 1)),
        vertical: border_of(features, dc_deq, strided(pixels, 7, 8), strided(pixels, 6, 8)),
        horizontal_coef: horiz_pred,
        vertical_coef: vert_pred,
        num_non_zeros: count as u8,
    }
}

/// The summary that a decoded block leaves behind.
pub open spec fn summary_view_of(d: DecodedBlock, features: EnabledFeatures) -> SummaryView {
    summary_from(features, d.pixels, d.dc_deq, d.num_non_zeros_7x7, d.horiz_pred, d.vert_pred)
}

/// The context bin of the number of non-zero inner coefficients of a block.
pub open spec fn context_bin_of(c: BlockSetting) -> int {
    NON_ZERO_TO_BIN[non_zero_context(
        if c.pt.uses_above(c.all_present) {
            Some(c.neighbors.context_above.num_non_zeros as int)
        } else {
            None
        },
        if c.pt.uses_left(c.all_present) {
            Some(c.neighbors.context_left.num_non_zeros as int)
        } else {
            None
        },
    )] as int
}

/// Colour index of a block: 0 for the first component, 1 for the others.
pub open spec fn color_of(c: BlockSetting) -> int {
    if c.pt.color() == 0 {
        0
    } else {
        1
    }
}

/// The work on a block after its inner coefficients have been read, or
/// nothing where the stream announces more than 49 of them.
#[verifier::opaque]
pub open spec fn inner_decoded(data: Seq<u8>, s: CoderState, m: ModelState, c: BlockSetting) -> Option<
    BlockWork,
> {
    let (count, coder, cells) = non_zero_7x7_count(
        data,
        s,
        m.per_color[color_of(c)],
        context_bin_of(c),
    );
    if count > 49 {
        None
    } else {
        Some(
            inner_from(
                data,
                BlockWork {
                    coefs: zero_block(),
                    raster: Seq::new(64, |i: int| 0i32),
                    mask: 0,
                    remaining: count,
                    coder,
                    cells,
                },
                c,
                0,
            ),
        )
    }
}

/// The number of non-zero inner coefficients that the stream announces for
/// a block.
pub open spec fn announced_count(data: Seq<u8>, s: CoderState, m: ModelState, c: BlockSetting) -> int {
    non_zero_7x7_count(data, s, m.per_color[color_of(c)], context_bin_of(c)).0
}

/// The work on a block after both edges have been read as well, or nothing
/// where the stream does not hold as many non-zero coefficients as it
/// announces.
#[verifier::opaque]
pub open spec fn edges_decoded(data: Seq<u8>, s: CoderState, m: ModelState, c: BlockSetting) -> Option<
    BlockWork,
> {
    let inner = inner_decoded(data, s, m, c);
    if inner.is_none() || inner.unwrap().remaining != 0 {
        None
    } else {
        let w = inner.unwrap();
        let bin = (announced_count(data, s, m, c) + 3) / 7;
        let h_pred = horizontal_current(w.raster, c.neighbors.context_above.horizontal_coef);
        let v_pred = vertical_current(w.raster, c.neighbors.context_left.vertical_coef, 7);
        let h = edge_decoded(data, w, c, true, h_pred, end_of_block_x(w.mask), bin);
        if h.remaining != 0 {
            None
        } else {
            let v = edge_decoded(data, h, c, false, v_pred, end_of_block_y(w.mask), bin);
            if v.remaining != 0 {
                None
            } else {
                Some(v)
            }
        }
    }
}

/// The block that a decoder in state `s` with the model `m` reads from
/// `data`, or nothing where the stream contradicts itself.
#[verifier::opaque]
pub open spec fn block_decoded(data: Seq<u8>, s: CoderState, m: ModelState, c: BlockSetting) -> Option<
    DecodedBlock,
> {
    let edges = edges_decoded(data, s, m, c);
    if edges.is_none() {
        None
    } else {
        let w = edges.unwrap();
        let pixels = idct_of(w.raster);
        let prediction = prediction_of(
            c.features,
            pixels,
            if c.pt.uses_left(c.all_present) {
                Some(c.neighbors.context_left.vertical)
            } else {
                None
            },
            if c.pt.uses_above(c.all_present) {
                Some(c.neighbors.context_above.horizontal)
            } else {
                None
            },
            c.steps[0] as i32,
        );
        let (difference, coder, model) = dc_difference(
            data,
            w.coder,
            m.with_color(color_of(c), w.cells),
            color_of(c),
            prediction.uncertainty as int,
            prediction.uncertainty2 as int,
        );
        let dc = fold_dc(difference, true, prediction.predicted_dc as int) as i16;
        Some(
            DecodedBlock {
                coefs: w.coefs.update(0, dc),
                pixels,
                dc_deq: (dc * c.steps[0]) as i32,
                num_non_zeros_7x7: announced_count(data, s, m, c),
                horiz_pred: horizontal_next(w.raster),
                vert_pred: vertical_next(w.raster, 7),
                coder,
                model,
            },
        )
    }
}

/// Whether the coefficients of the three neighbouring blocks, other than
/// DC, have magnitudes below 2048.
pub open spec fn neighbors_in_range(neighbors: NeighborsView) -> bool {
    &&& neighbors.left.len() == 64
    &&& neighbors.above.len() == 64
    &&& neighbors.above_left.len() == 64
    &&& ac_in_range(neighbors.left)
    &&& ac_in_range(neighbors.above)
    &&& ac_in_range(neighbors.above_left)
    &&& neighbors.context_above.num_non_zeros <= 49
    &&& neighbors.context_left.num_non_zeros <= 49
}

/// The setting that the arguments of the block decoder make up.
pub open spec fn setting_of(
    pt: ProbabilityTables,
    all_present: bool,
    neighbors: NeighborsView,
    qt: QuantizationTables,
    features: EnabledFeatures,
) -> BlockSetting {
    BlockSetting {
        pt,
        all_present,
        neighbors,
        steps: qt.table(),
        steps_transposed: qt.table_transposed(),
        thresholds: qt.noise_thresholds(),
        features,
    }
}

pub proof fn lemma_end_of_block(mask: u64)
    ensures
        0 <= end_of_block_x(mask) < 8,
        0 <= end_of_block_y(mask) < 8,
{
    let x = mask | 1;
    let y = folded(mask);
    axiom_u64_leading_zeros(x);
    axiom_u64_leading_zeros(y);
    let zy = u64_leading_zeros(y) as u64;
    assert(x != 0) by (bit_vector)
        requires
            x == mask | 1,
    ;
    assert(zy < 8) by (bit_vector)
        requires
            0 <= zy <= 64,
            y == ((mask | 1) | ((mask | 1) << 32u64) | (((mask | 1) | ((mask | 1) << 32u64))
                << 16u64)) | (((mask | 1) | ((mask | 1) << 32u64) | (((mask | 1) | ((mask | 1)
                << 32u64)) << 16u64)) << 8u64),
            y >> ((64 - zy) as u64) == 0 || zy == 0,
    ;
}

/// The work that the registers of the block decoder stand for.
pub open spec fn work_of(
    output: AlignedBlock,
    raster: Seq<i32>,
    mask: u64,
    remaining: int,
    coder: CoderState,
    cells: PerColorState,
) -> BlockWork {
    BlockWork { coefs: output@, raster, mask, remaining, coder, cells }
}

/// Whether all coefficients of `coefs` have magnitudes below 2048.
pub open spec fn all_in_range(coefs: Seq<i16>) -> bool {
    forall|i: int| 0 <= i < 64 ==> -2048 < #[trigger] coefs[i] < 2048
}

fn decode_inner<const ALL_PRESENT: bool>(
    pt: &ProbabilityTables,
    neighbor_data: &NeighborData,
    model: &mut Model,
    bool_reader: &mut VPXBoolReader,
    qt: &QuantizationTables,
    count: u8,
    output: &mut AlignedBlock,
    raster: &mut [i32; 64],
    Ghost(c): Ghost<BlockSetting>,
) -> (r: (u64, usize))
    requires
        model_shaped(old(model)@),
        qt.derived(),
        neighbors_in_range(neighbor_data@),
        count <= 49,
        old(output)@ == zero_block(),
        old(raster)@ == Seq::new(64, |i: int| 0i32),
        c.pt == *pt,
        c.all_present == ALL_PRESENT,
        c.neighbors == neighbor_data@,
        c.steps_transposed == qt.table_transposed(),
    ensures
        model_shaped(final(model)@),
        final(bool_reader).data() == old(bool_reader).data(),
        final(model)@ == old(model)@.with_color(
            color_of(c),
            final(model)@.per_color[color_of(c)],
        ),
        work_of(
            *final(output),
            final(raster)@,
            r.0,
            r.1 as int,
            final(bool_reader).state(),
            final(model)@.per_color[color_of(c)],
        ) == inner_from(
            old(bool_reader).data(),
            work_of(
                *old(output),
                old(raster)@,
                0,
                count as int,
                old(bool_reader).state(),
                old(model)@.per_color[color_of(c)],
            ),
            c,
            0,
        ),
        all_in_range(final(output)@),
        r.1 <= 49,
{
    let color = pt.get_color_index();
    reveal_with_fuel(inner_from, 2);
    let mut nonzero_mask: u64 = 0;
    let mut num_non_zeros_7x7_remaining: usize = count as usize;
    let ghost data = bool_reader.data();
    let ghost m0 = model@;
    let ghost start = work_of(
        *output,
        raster@,
        0,
        count as int,
        bool_reader.state(),
        model@.per_color[color as int],
    );
    assert(m0 =~= m0.with_color(color as int, m0.per_color[color as int])) by {
        assert(m0.per_color =~= m0.per_color.update(color as int, m0.per_color[color as int]));
    }
    if num_non_zeros_7x7_remaining > 0 {
        proof {
            neighbor_data.left.lemma_len();
            neighbor_data.above.lemma_len();
            neighbor_data.above_left.lemma_len();
        }
        let best_priors = pt.calc_coefficient_context_7x7_aavg_block::<ALL_PRESENT>(
            &neighbor_data.left,
            &neighbor_data.above,
            &neighbor_data.above_left,
        );
        let mut zig49: usize = 0;
        proof {
            output.lemma_len();
        }
        while zig49 < 49 && num_non_zeros_7x7_remaining > 0
            invariant
                zig49 <= 49,
                color == color_of(c),
                color < 2,
                num_non_zeros_7x7_remaining <= 49,
                model_shaped(model@),
                qt.derived(),
                neighbors_in_range(neighbor_data@),
                c.pt == *pt,
                c.all_present == ALL_PRESENT,
                c.neighbors == neighbor_data@,
                c.steps_transposed == qt.table_transposed(),
                bool_reader.data() == data,
                model_shaped(m0),
                output@.len() == 64,
                raster@.len() == 64,
                model@ == m0.with_color(color as int, model@.per_color[color as int]),
                forall|i: int|
                    0 <= i < 64 ==> #[trigger] best_priors[i] == pt.expected_magnitude(
                        ALL_PRESENT,
                        neighbor_data.left@,
                        neighbor_data.above@,
                        neighbor_data.above_left@,
                        i,
                    ),
                all_in_range(output@),
                inner_from(
                    data,
                    work_of(
                        *output,
                        raster@,
                        nonzero_mask,
                        num_non_zeros_7x7_remaining as int,
                        bool_reader.state(),
                        model@.per_color[color as int],
                    ),
                    c,
                    zig49 as int,
                ) == inner_from(data, start, c, 0),
            decreases 49 - zig49,
        {
            proof {
                lemma_unzigzag_49_inner(zig49 as int);
                reveal_with_fuel(inner_from, 2);
            }
            let coord = UNZIGZAG_49_TR[zig49] as usize;
            assert(best_priors[coord as int] <= 2047) by {
                assert(-2048 < neighbor_data.left@[coord as int] < 2048);
                assert(-2048 < neighbor_data.above@[coord as int] < 2048);
                assert(-2048 < neighbor_data.above_left@[coord as int] < 2048);
            }
            let best_prior_bit_length = u16_bit_length(best_priors[coord]);
            let num_non_zeros_bin = ProbabilityTables::num_non_zeros_to_bin_7x7(
                num_non_zeros_7x7_remaining,
            );
            let ghost before = model@;
            let coef = model.read_coef(
                bool_reader,
                color,
                zig49,
                num_non_zeros_bin,
                best_prior_bit_length as usize,
            );
            assert(model@ =~= m0.with_color(color as int, model@.per_color[color as int])) by {
                assert(model@.per_color =~= m0.per_color.update(
                    color as int,
                    model@.per_color[color as int],
                ));
            }
            if coef != 0 {
                output.set_coefficient(coord, coef);
                let q = qt.get_quantization_table_transposed()[coord];
                assert(-2048 * 65535 <= coef * q <= 2048 * 65535) by (nonlinear_arith)
                    requires
                        -2048 < coef < 2048,
                        0 <= q <= 65535,
                ;
                raster[coord] = coef as i32 * q as i32;
                nonzero_mask = nonzero_mask | (1u64 << (coord as u64));
                num_non_zeros_7x7_remaining = num_non_zeros_7x7_remaining - 1;
            }
            zig49 += 1;
        }
    }
    (nonzero_mask, num_non_zeros_7x7_remaining)
}

#[verifier::rlimit(60)]
fn decode_one_edge<const ALL_PRESENT: bool, const HORIZONTAL: bool>(
    model: &mut Model,
    bool_reader: &mut VPXBoolReader,
    pred: &[i32; 8],
    here_mut: &mut AlignedBlock,
    qt: &QuantizationTables,
    pt: &ProbabilityTables,
    num_non_zeros_bin: u8,
    est_eob: u8,
    raster: &mut [i32; 64],
    Ghost(c): Ghost<BlockSetting>,
    Ghost(mask): Ghost<u64>,
) -> (r: Result<(), ExitCode>)
    requires
        model_shaped(old(model)@),
        qt.derived(),
        num_non_zeros_bin < 8,
        est_eob < 8,
        all_in_range(old(here_mut)@),
        c.pt == *pt,
        c.all_present == ALL_PRESENT,
        c.steps_transposed == qt.table_transposed(),
        c.thresholds == qt.noise_thresholds(),
    ensures
        model_shaped(final(model)@),
        final(bool_reader).data() == old(bool_reader).data(),
        final(model)@ == old(model)@.with_color(
            color_of(c),
            final(model)@.per_color[color_of(c)],
        ),
        ({
            let e = edge_decoded(
                old(bool_reader).data(),
                work_of(
                    *old(here_mut),
                    old(raster)@,
                    mask,
                    0,
                    old(bool_reader).state(),
                    old(model)@.per_color[color_of(c)],
                ),
                c,
                HORIZONTAL,
                pred@,
                est_eob as int,
                num_non_zeros_bin as int,
            );
            &&& r.is_ok() <==> e.remaining == 0
            &&& work_of(
                *final(here_mut),
                final(raster)@,
                mask,
                e.remaining,
                final(bool_reader).state(),
                final(model)@.per_color[color_of(c)],
            ) == e
        }),
        r.is_err() ==> r == Err::<(), ExitCode>(ExitCode::StreamInconsistent),
        all_in_range(final(here_mut)@),
{
    let color = pt.get_color_index();
    reveal(edge_decoded);
    reveal_with_fuel(edge_from, 2);
    let ghost data = bool_reader.data();
    let ghost m0 = model@;
    let num_non_zeros_edge = model.read_non_zero_edge_count::<HORIZONTAL>(
        bool_reader,
        color,
        est_eob,
        num_non_zeros_bin,
    );
    let delta: usize = if HORIZONTAL {
        8
    } else {
        1
    };
    let mut zig15offset: usize = if HORIZONTAL {
        0
    } else {
        7
    };
    let mut coord_tr: usize = delta;
    let mut num_non_zeros_remaining: u8 = num_non_zeros_edge;
    let ghost start = work_of(
        *here_mut,
        raster@,
        mask,
        num_non_zeros_edge as int,
        bool_reader.state(),
        model@.per_color[color as int],
    );
    let mut lane: usize = 0;
    proof {
        here_mut.lemma_len();
    }
    while lane < 7 && num_non_zeros_remaining > 0
        invariant
            lane <= 7,
            color == color_of(c),
            color < 2,
            delta == if HORIZONTAL {
                8usize
            } else {
                1usize
            },
            coord_tr == delta * (lane + 1),
            zig15offset == lane + if HORIZONTAL {
                0usize
            } else {
                7usize
            },
            num_non_zeros_remaining <= 7,
            model_shaped(model@),
            qt.derived(),
            c.pt == *pt,
            c.all_present == ALL_PRESENT,
            c.steps_transposed == qt.table_transposed(),
            c.thresholds == qt.noise_thresholds(),
            bool_reader.data() == data,
            model_shaped(m0),
            here_mut@.len() == 64,
            raster@.len() == 64,
            model@ == m0.with_color(color as int, model@.per_color[color as int]),
            all_in_range(here_mut@),
            edge_from(
                data,
                work_of(
                    *here_mut,
                    raster@,
                    mask,
                    num_non_zeros_remaining as int,
                    bool_reader.state(),
                    model@.per_color[color as int],
                ),
                c,
                HORIZONTAL,
                pred@,
                lane as int,
            ) == edge_from(data, start, c, HORIZONTAL, pred@, 0),
        decreases 7 - lane,
    {
        proof {
            reveal_with_fuel(edge_from, 2);
        }
        let best_prior = pt.calc_coefficient_context8_lak::<ALL_PRESENT, HORIZONTAL>(
            qt,
            coord_tr,
            pred,
        );
        let coef = model.read_edge_coefficient(
            bool_reader,
            color,
            qt,
            zig15offset,
            num_non_zeros_remaining,
            best_prior,
        );
        assert(model@ =~= m0.with_color(color as int, model@.per_color[color as int])) by {
            assert(model@.per_color =~= m0.per_color.update(
                color as int,
                model@.per_color[color as int],
            ));
        }
        if coef != 0 {
            num_non_zeros_remaining = num_non_zeros_remaining - 1;
            here_mut.set_coefficient(coord_tr, coef);
            let q = qt.get_quantization_table_transposed()[coord_tr];
            assert(-2048 * 65535 <= coef * q <= 2048 * 65535) by (nonlinear_arith)
                requires
                    -2048 < coef < 2048,
                    0 <= q <= 65535,
            ;
            raster[coord_tr] = coef as i32 * q as i32;
        }
        coord_tr = coord_tr + delta;
        zig15offset = zig15offset + 1;
        lane += 1;
    }
    if num_non_zeros_remaining != 0 {
        return Err(ExitCode::StreamInconsistent);
    }
    Ok(())
}

fn decode_edge<const ALL_PRESENT: bool>(
    neighbor_data: &NeighborData,
    model: &mut Model,
    bool_reader: &mut VPXBoolReader,
    here_mut: &mut AlignedBlock,
    qt: &QuantizationTables,
    pt: &ProbabilityTables,
    num_non_zeros_7x7: u8,
    nonzero_mask: u64,
    raster: &mut [i32; 64],
    Ghost(c): Ghost<BlockSetting>,
) -> (r: Result<([i32; 8], [i32; 8]), ExitCode>)
    requires
        model_shaped(old(model)@),
        qt.derived(),
        num_non_zeros_7x7 <= 49,
        all_in_range(old(here_mut)@),
        c == setting_of(*pt, ALL_PRESENT, neighbor_data@, *qt, c.features),
    ensures
        model_shaped(final(model)@),
        final(bool_reader).data() == old(bool_reader).data(),
        final(model)@ == old(model)@.with_color(
            color_of(c),
            final(model)@.per_color[color_of(c)],
        ),
        all_in_range(final(here_mut)@),
        r.is_err() ==> r == Err::<([i32; 8], [i32; 8]), ExitCode>(ExitCode::StreamInconsistent),
        ({
            let w = work_of(
                *old(here_mut),
                old(raster)@,
                nonzero_mask,
                0,
                old(bool_reader).state(),
                old(model)@.per_color[color_of(c)],
            );
            let bin = (num_non_zeros_7x7 + 3) / 7;
            let h_pred = horizontal_current(
                w.raster,
                neighbor_data.neighbor_context_above.horizontal_coef(),
            );
            let v_pred = vertical_current(
                w.raster,
                neighbor_data.neighbor_context_left.vertical_coef(),
                7,
            );
            let h = edge_decoded(
                old(bool_reader).data(),
                w,
                c,
                true,
                h_pred,
                end_of_block_x(nonzero_mask),
                bin,
            );
            let v = edge_decoded(
                old(bool_reader).data(),
                h,
                c,
                false,
                v_pred,
                end_of_block_y(nonzero_mask),
                bin,
            );
            &&& r.is_ok() <==> h.remaining == 0 && v.remaining == 0
            &&& r.is_ok() ==> work_of(
                *final(here_mut),
                final(raster)@,
                nonzero_mask,
                0,
                final(bool_reader).state(),
                final(model)@.per_color[color_of(c)],
            ) == v && r.unwrap().0@ == horizontal_next(final(raster)@) && r.unwrap().1@
                == vertical_next(final(raster)@, 7)
        }),
{
    let mask_7x7 = nonzero_mask | 1;
    let mut mask_y = mask_7x7 | (mask_7x7 << 32);
    mask_y = mask_y | (mask_y << 16);
    mask_y = mask_y | (mask_y << 8);
    proof {
        lemma_end_of_block(nonzero_mask);
    }
    let eob_y = mask_y.leading_zeros() as u8;
    let eob_x = (mask_7x7.leading_zeros() / 8) as u8;
    let num_non_zeros_bin = (num_non_zeros_7x7 + 3) / 7;
    let (h_pred, v_pred) = ProbabilityTables::predict_current_edges(neighbor_data, raster);
    let ghost m0 = model@;
    let ghost color = color_of(c);
    let first = decode_one_edge::<ALL_PRESENT, true>(
        model,
        bool_reader,
        &h_pred,
        here_mut,
        qt,
        pt,
        num_non_zeros_bin,
        eob_x,
        raster,
        Ghost(c),
        Ghost(nonzero_mask),
    );
    if first.is_err() {
        return Err(ExitCode::StreamInconsistent);
    }
    let ghost m1 = model@;
    let second = decode_one_edge::<ALL_PRESENT, false>(
        model,
        bool_reader,
        &v_pred,
        here_mut,
        qt,
        pt,
        num_non_zeros_bin,
        eob_y,
        raster,
        Ghost(c),
        Ghost(nonzero_mask),
    );
    assert(model@ =~= m0.with_color(color, model@.per_color[color])) by {
        assert(model@.per_color =~= m0.per_color.update(color, model@.per_color[color]));
    }
    if second.is_err() {
        return Err(ExitCode::StreamInconsistent);
    }
    let (horiz_pred, vert_pred) = ProbabilityTables::predict_next_edges(raster);
    Ok((horiz_pred, vert_pred))
}

/// Reads a block of coefficients, given its neighbours, and makes the
/// summary that the blocks below and to the right will need.
///
/// The stream is found inconsistent where it announces more than 49
/// non-zero inner coefficients, or announces more non-zero coefficients
/// than it holds, among the inner ones or on an edge.
pub fn read_coefficient_block<const ALL_PRESENT: bool>(
    pt: &ProbabilityTables,
    neighbor_data: &NeighborData,
    model: &mut Model,
    bool_reader: &mut VPXBoolReader,
    qt: &QuantizationTables,
    features: &EnabledFeatures,
) -> (r: Result<(AlignedBlock, NeighborSummary), ExitCode>)
    requires
        model_shaped(old(model)@),
        qt.derived(),
        neighbors_in_range(neighbor_data@),
    ensures
        final(bool_reader).data() == old(bool_reader).data(),
        model_shaped(final(model)@),
        r.is_err() ==> r == Err::<(AlignedBlock, NeighborSummary), ExitCode>(
            ExitCode::StreamInconsistent,
        ),
        ({
            let d = block_decoded(
                old(bool_reader).data(),
                old(bool_reader).state(),
                old(model)@,
                setting_of(*pt, ALL_PRESENT, neighbor_data@, *qt, *features),
            );
            &&& r.is_ok() <==> d.is_some()
            &&& r.is_ok() ==> {
                &&& r.unwrap().0@ == d.unwrap().coefs
                &&& ac_in_range(r.unwrap().0@)
                &&& final(bool_reader).state() == d.unwrap().coder
                &&& final(model)@ == d.unwrap().model
                &&& r.unwrap().1@ == summary_view_of(d.unwrap(), *features)
            }
        }),
{
    reveal(block_decoded);
    reveal(edges_decoded);
    reveal(inner_decoded);
    let ghost c = setting_of(*pt, ALL_PRESENT, neighbor_data@, *qt, *features);
    let ghost m0 = model@;
    let color = pt.get_color_index();
    let num_non_zeros_7x7_context_bin = pt.calc_num_non_zeros_7x7_context_bin::<ALL_PRESENT>(
        neighbor_data,
    );
    let num_non_zeros_7x7 = model.read_non_zero_7x7_count(
        bool_reader,
        color,
        num_non_zeros_7x7_context_bin,
    );
    if num_non_zeros_7x7 > 49 {
        return Err(ExitCode::StreamInconsistent);
    }
    let ghost m1 = model@;
    let mut output = AlignedBlock::default();
    let mut raster: [i32; 64] = [0i32; 64];
    assert(raster@ =~= Seq::new(64, |i: int| 0i32));
    let (nonzero_mask, num_non_zeros_7x7_remaining) = decode_inner::<ALL_PRESENT>(
        pt,
        neighbor_data,
        model,
        bool_reader,
        qt,
        num_non_zeros_7x7,
        &mut output,
        &mut raster,
        Ghost(c),
    );
    if num_non_zeros_7x7_remaining > 0 {
        return Err(ExitCode::StreamInconsistent);
    }
    let ghost m2 = model@;
    let edges = decode_edge::<ALL_PRESENT>(
        neighbor_data,
        model,
        bool_reader,
        &mut output,
        qt,
        pt,
        num_non_zeros_7x7,
        nonzero_mask,
        &mut raster,
        Ghost(c),
    );
    let ghost m3 = model@;
    assert(m3 =~= m0.with_color(color as int, m3.per_color[color as int])) by {
        assert(m3.per_color =~= m0.per_color.update(color as int, m3.per_color[color as int]));
    }
    let (horiz_pred, vert_pred) = match edges {
        Ok(p) => p,
        Err(_) => {
            return Err(ExitCode::StreamInconsistent);
        },
    };
    let q0 = qt.get_quantization_table()[0] as i32;
    let predicted_dc = pt.adv_predict_dc_pix::<ALL_PRESENT>(&raster, q0, neighbor_data, features);
    let coef = model.read_dc(
        bool_reader,
        color,
        predicted_dc.uncertainty,
        predicted_dc.uncertainty2,
    );
    let dc = ProbabilityTables::adv_predict_or_unpredict_dc(
        coef,
        true,
        predicted_dc.predicted_dc,
    ) as i16;
    proof {
        output.lemma_len();
    }
    output.set_dc(dc);
    assert(-32768 * 65535 <= dc * q0 <= 32768 * 65535) by (nonlinear_arith)
        requires
            -32768 <= dc <= 32767,
            0 <= q0 <= 65535,
    ;
    let neighbor_summary = NeighborSummary::new(
        &predicted_dc.advanced_predict_dc_pixels_sans_dc,
        dc as i32 * q0,
        num_non_zeros_7x7,
        horiz_pred,
        vert_pred,
        features,
    );
    Ok((output, neighbor_summary))
}

/// The state of decoding the blocks of one component: the state of the
/// decoder and of the model, the blocks decoded so far, the cache of
/// summaries, and the cursor.
pub ghost struct RowWork {
    pub coder: CoderState,
    pub model: ModelState,
    pub coefficients: Seq<Seq<i16>>,
    pub cache: Seq<SummaryView>,
    pub context: BlockContext,
}

/// What stays the same while the blocks of one component are decoded: the
/// position of the first block held, the room for blocks, the quantization
/// tables and the features.
pub ghost struct RowSetting {
    pub offset: int,
    pub capacity: int,
    pub qt: QuantizationTables,
    pub features: EnabledFeatures,
}

/// The state after the block under the cursor has been decoded, appended
/// to the blocks and summed up in the cache; or nothing where the stream
/// contradicts itself or there is no room for the block.
#[verifier::opaque]
pub open spec fn token_decoded(
    data: Seq<u8>,
    w: RowWork,
    rs: RowSetting,
    pt: ProbabilityTables,
    all_present: bool,
) -> Option<RowWork> {
    let neighbors = neighbors_at(
        w.context,
        rs.offset,
        w.coefficients,
        w.cache,
        pt.uses_left(all_present),
        pt.uses_above(all_present),
        all_present,
    );
    let d = block_decoded(
        data,
        w.coder,
        w.model,
        setting_of(pt, all_present, neighbors, rs.qt, rs.features),
    );
    if d.is_none() || w.coefficients.len() >= rs.capacity {
        None
    } else {
        Some(
            RowWork {
                coder: d.unwrap().coder,
                model: d.unwrap().model,
                coefficients: w.coefficients.push(d.unwrap().coefs),
                cache: w.cache.update(
                    w.context.cur_num_non_zeros_index as int,
                    summary_view_of(d.unwrap(), rs.features),
                ),
                context: w.context,
            },
        )
    }
}

/// The cursor one block on. After the last block of a row only the position
/// of the current block moves.
pub open spec fn stepped(context: BlockContext, has_more: bool) -> BlockContext {
    if has_more {
        BlockContext {
            cur_block_index: (context.cur_block_index + 1) as i32,
            above_block_index: (context.above_block_index + 1) as i32,
            cur_num_non_zeros_index: (context.cur_num_non_zeros_index + 1) as i32,
            above_num_non_zero_index: (context.above_num_non_zero_index + 1) as i32,
        }
    } else {
        BlockContext { cur_block_index: (context.cur_block_index + 1) as i32, ..context }
    }
}

/// The three kinds of place in a row, and the size of the row and of its
/// component.
pub ghost struct RowShape {
    pub left: ProbabilityTables,
    pub middle: ProbabilityTables,
    pub right: ProbabilityTables,
    pub block_width: int,
    pub component_size_in_blocks: int,
}

/// Whether a block at a place of the kind `pt` has all its neighbours.
pub open spec fn has_all(pt: ProbabilityTables) -> bool {
    pt.left_present() && pt.above_present()
}

/// The state after the last block of a row of more than one block has been
/// decoded.
#[verifier::opaque]
pub open spec fn row_end_decoded(data: Seq<u8>, w: RowWork, rs: RowSetting, shape: RowShape) -> Option<
    RowWork,
> {
    if shape.block_width > 1 {
        let t = token_decoded(data, w, rs, shape.right, has_all(shape.right));
        if t.is_none() {
            None
        } else {
            Some(RowWork { context: stepped(t.unwrap().context, false), ..t.unwrap() })
        }
    } else {
        Some(w)
    }
}

/// The state after the blocks of a row from the `x`-th on have been
/// decoded; the row is left early where the component ends within it.
#[verifier::opaque]
pub open spec fn row_from(data: Seq<u8>, w: RowWork, rs: RowSetting, shape: RowShape, x: int) -> Option<
    RowWork,
>
    decreases shape.block_width - x,
{
    if x < 1 || x >= shape.block_width - 1 {
        row_end_decoded(data, w, rs, shape)
    } else {
        let t = token_decoded(data, w, rs, shape.middle, has_all(shape.middle));
        if t.is_none() {
            None
        } else {
            let next = RowWork { context: stepped(t.unwrap().context, true), ..t.unwrap() };
            if next.context.cur_block_index >= shape.component_size_in_blocks {
                Some(next)
            } else {
                row_from(data, next, rs, shape, x + 1)
            }
        }
    }
}

/// The state after a row of blocks has been decoded.
#[verifier::opaque]
pub open spec fn row_decoded(data: Seq<u8>, w: RowWork, rs: RowSetting, shape: RowShape) -> Option<
    RowWork,
> {
    if shape.block_width > 0 {
        let t = token_decoded(data, w, rs, shape.left, has_all(shape.left));
        if t.is_none() {
            None
        } else {
            let next = RowWork { context: stepped(t.unwrap().context, true), ..t.unwrap() };
            if next.context.cur_block_index >= shape.component_size_in_blocks {
                Some(next)
            } else {
                row_from(data, next, rs, shape, 1)
            }
        }
    } else {
        Some(w)
    }
}

/// The state that the registers of the row decoder stand for.
pub open spec fn row_work_of(
    bool_reader: VPXBoolReader,
    model: Model,
    image_data: BlockBasedImage,
    cache: Seq<NeighborSummary>,
    context: BlockContext,
) -> RowWork {
    RowWork {
        coder: bool_reader.state(),
        model: model@,
        coefficients: image_data.coefficients(),
        cache: cache_view(cache),
        context,
    }
}

/// The setting that the arguments of the row decoder make up.
pub open spec fn row_setting_of(
    image_data: BlockBasedImage,
    qt: QuantizationTables,
    features: EnabledFeatures,
) -> RowSetting {
    RowSetting {
        offset: image_data.dpos_offset() as int,
        capacity: image_data.capacity() as int,
        qt,
        features,
    }
}

/// Whether an image keeps its place and its sizes.
pub open spec fn same_frame(a: BlockBasedImage, b: BlockBasedImage) -> bool {
    &&& a.block_width() == b.block_width()
    &&& a.original_height() == b.original_height()
    &&& a.dpos_offset() == b.dpos_offset()
    &&& a.capacity() == b.capacity()
}

pub proof fn lemma_neighbors_in_range(
    context: BlockContext,
    offset: int,
    coefficients: Seq<Seq<i16>>,
    cache: Seq<SummaryView>,
    uses_left: bool,
    uses_above: bool,
    all_present: bool,
)
    requires
        blocks_in_range(coefficients),
    ensures
        ({
            let n = neighbors_at(
                context,
                offset,
                coefficients,
                cache,
                uses_left,
                uses_above,
                all_present,
            );
            &&& n.left.len() == 64 && ac_in_range(n.left)
            &&& n.above.len() == 64 && ac_in_range(n.above)
            &&& n.above_left.len() == 64 && ac_in_range(n.above_left)
        }),
{
}

fn parse_token<const ALL_PRESENT: bool>(
    model: &mut Model,
    bool_reader: &mut VPXBoolReader,
    image_data: &mut BlockBasedImage,
    context: &BlockContext,
    neighbor_summary_cache: &mut Vec<NeighborSummary>,
    qt: &QuantizationTables,
    pt: &ProbabilityTables,
    features: &EnabledFeatures,
) -> (r: Result<(), ExitCode>)
    requires
        model_shaped(old(model)@),
        qt.derived(),
        blocks_in_range(old(image_data).coefficients()),
        context.in_cache(pt, ALL_PRESENT, old(neighbor_summary_cache).len() as int),
        0 <= context.cur_num_non_zeros_index < old(neighbor_summary_cache).len(),
    ensures
        final(bool_reader).data() == old(bool_reader).data(),
        model_shaped(final(model)@),
        same_frame(*final(image_data), *old(image_data)),
        blocks_in_range(final(image_data).coefficients()),
        final(neighbor_summary_cache).len() == old(neighbor_summary_cache).len(),
        r.is_err() ==> r == Err::<(), ExitCode>(ExitCode::StreamInconsistent),
        ({
            let t = token_decoded(
                old(bool_reader).data(),
                row_work_of(
                    *old(bool_reader),
                    *old(model),
                    *old(image_data),
                    old(neighbor_summary_cache)@,
                    *context,
                ),
                row_setting_of(*old(image_data), *qt, *features),
                *pt,
                ALL_PRESENT,
            );
            &&& r.is_ok() <==> t.is_some()
            &&& r.is_ok() ==> row_work_of(
                *final(bool_reader),
                *final(model),
                *final(image_data),
                final(neighbor_summary_cache)@,
                *context,
            ) == t.unwrap()
        }),
{
    reveal(token_decoded);
    if !image_data.has_room() {
        return Err(ExitCode::StreamInconsistent);
    }
    let neighbors = context.get_neighbor_data::<ALL_PRESENT>(
        image_data,
        neighbor_summary_cache,
        pt,
    );
    proof {
        lemma_neighbors_in_range(
            *context,
            image_data.dpos_offset() as int,
            image_data.coefficients(),
            cache_view(neighbor_summary_cache@),
            ALL_PRESENT || pt.left_present(),
            ALL_PRESENT || pt.above_present(),
            ALL_PRESENT,
        );
    }
    let (output, ns) = match read_coefficient_block::<ALL_PRESENT>(
        pt,
        &neighbors,
        model,
        bool_reader,
        qt,
        features,
    ) {
        Ok(decoded) => decoded,
        Err(_) => {
            return Err(ExitCode::StreamInconsistent);
        },
    };
    context.set_neighbor_summary_here(neighbor_summary_cache, ns);
    proof {
        output.lemma_len();
    }
    image_data.append_block(output);
    Ok(())
}

/// Whether a row of `block_width` blocks that starts at `context` stays
/// inside a cache of `len` summaries and inside the range of positions.
pub open spec fn row_fits(context: BlockContext, block_width: int, len: int) -> bool {
    &&& 0 <= context.cur_num_non_zeros_index
    &&& context.cur_num_non_zeros_index + block_width <= len
    &&& context.cur_num_non_zeros_index + block_width < i32::MAX
    &&& 0 <= context.above_num_non_zero_index
    &&& context.above_num_non_zero_index + block_width <= len
    &&& context.above_num_non_zero_index + block_width < i32::MAX
    &&& 0 <= context.cur_block_index
    &&& context.cur_block_index + block_width < i32::MAX
    &&& -1 <= context.above_block_index
    &&& context.above_block_index + block_width < i32::MAX
}

/// The shape that the arguments of the row decoder make up.
pub open spec fn row_shape_of(
    left: ProbabilityTables,
    middle: ProbabilityTables,
    right: ProbabilityTables,
    block_width: int,
    component_size_in_blocks: int,
) -> RowShape {
    RowShape { left, middle, right, block_width, component_size_in_blocks }
}

/// Decodes the block under the cursor with the tables `pt`.
fn parse_block(
    model: &mut Model,
    bool_reader: &mut VPXBoolReader,
    image_data: &mut BlockBasedImage,
    context: &BlockContext,
    neighbor_summary_cache: &mut Vec<NeighborSummary>,
    qt: &QuantizationTables,
    pt: &ProbabilityTables,
    features: &EnabledFeatures,
) -> (r: Result<(), ExitCode>)
    requires
        model_shaped(old(model)@),
        qt.derived(),
        blocks_in_range(old(image_data).coefficients()),
        context.in_cache(pt, has_all(*pt), old(neighbor_summary_cache).len() as int),
        0 <= context.cur_num_non_zeros_index < old(neighbor_summary_cache).len(),
    ensures
        final(bool_reader).data() == old(bool_reader).data(),
        model_shaped(final(model)@),
        same_frame(*final(image_data), *old(image_data)),
        blocks_in_range(final(image_data).coefficients()),
        final(neighbor_summary_cache).len() == old(neighbor_summary_cache).len(),
        r.is_err() ==> r == Err::<(), ExitCode>(ExitCode::StreamInconsistent),
        ({
            let t = token_decoded(
                old(bool_reader).data(),
                row_work_of(
                    *old(bool_reader),
                    *old(model),
                    *old(image_data),
                    old(neighbor_summary_cache)@,
                    *context,
                ),
                row_setting_of(*old(image_data), *qt, *features),
                *pt,
                has_all(*pt),
            );
            &&& r.is_ok() <==> t.is_some()
            &&& r.is_ok() ==> row_work_of(
                *final(bool_reader),
                *final(model),
                *final(image_data),
                final(neighbor_summary_cache)@,
                *context,
            ) == t.unwrap()
        }),
{
    if pt.is_all_present() {
        parse_token::<true>(
            model,
            bool_reader,
            image_data,
            context,
            neighbor_summary_cache,
            qt,
            pt,
            features,
        )
    } else {
        parse_token::<false>(
            model,
            bool_reader,
            image_data,
            context,
            neighbor_summary_cache,
            qt,
            pt,
            features,
        )
    }
}

fn decode_row(
    model: &mut Model,
    bool_reader: &mut VPXBoolReader,
    qt: &QuantizationTables,
    left_model: &ProbabilityTables,
    middle_model: &ProbabilityTables,
    right_model: &ProbabilityTables,
    image_data: &mut BlockBasedImage,
    block_context: &mut BlockContext,
    neighbor_summary_cache: &mut Vec<NeighborSummary>,
    component_size_in_blocks: i32,
    features: &EnabledFeatures,
) -> (r: Result<(), ExitCode>)
    requires
        model_shaped(old(model)@),
        qt.derived(),
        blocks_in_range(old(image_data).coefficients()),
        !left_model.left_present(),
        row_fits(
            *old(block_context),
            old(image_data).block_width() as int,
            old(neighbor_summary_cache).len() as int,
        ),
    ensures
        final(bool_reader).data() == old(bool_reader).data(),
        model_shaped(final(model)@),
        same_frame(*final(image_data), *old(image_data)),
        blocks_in_range(final(image_data).coefficients()),
        final(neighbor_summary_cache).len() == old(neighbor_summary_cache).len(),
        r.is_err() ==> r == Err::<(), ExitCode>(ExitCode::StreamInconsistent),
        ({
            let t = row_decoded(
                old(bool_reader).data(),
                row_work_of(
                    *old(bool_reader),
                    *old(model),
                    *old(image_data),
                    old(neighbor_summary_cache)@,
                    *old(block_context),
                ),
                row_setting_of(*old(image_data), *qt, *features),
                row_shape_of(
                    *left_model,
                    *middle_model,
                    *right_model,
                    old(image_data).block_width() as int,
                    component_size_in_blocks as int,
                ),
            );
            &&& r.is_ok() <==> t.is_some()
            &&& r.is_ok() ==> row_work_of(
                *final(bool_reader),
                *final(model),
                *final(image_data),
                final(neighbor_summary_cache)@,
                *final(block_context),
            ) == t.unwrap()
        }),
{
    reveal(row_decoded);
    reveal(row_end_decoded);
    let block_width = image_data.get_block_width();
    let ghost data = bool_reader.data();
    let ghost rs = row_setting_of(*image_data, *qt, *features);
    let ghost shape = row_shape_of(
        *left_model,
        *middle_model,
        *right_model,
        block_width as int,
        component_size_in_blocks as int,
    );
    let ghost start = *block_context;
    if block_width <= 0 {
        return Ok(());
    }
    if parse_block(
        model,
        bool_reader,
        image_data,
        block_context,
        neighbor_summary_cache,
        qt,
        left_model,
        features,
    ).is_err() {
        return Err(ExitCode::StreamInconsistent);
    }
    let offset = block_context.next(true);
    if offset >= component_size_in_blocks {
        return Ok(());
    }
    let mut jpeg_x: i32 = 1;
    while jpeg_x < block_width - 1
        invariant
            1 <= jpeg_x,
            jpeg_x <= block_width - 1 || block_width == 1,
            block_width == image_data.block_width(),
            model_shaped(model@),
            qt.derived(),
            blocks_in_range(image_data.coefficients()),
            row_fits(start, block_width as int, neighbor_summary_cache.len() as int),
            *block_context == (BlockContext {
                cur_block_index: (start.cur_block_index + jpeg_x) as i32,
                above_block_index: (start.above_block_index + jpeg_x) as i32,
                cur_num_non_zeros_index: (start.cur_num_non_zeros_index + jpeg_x) as i32,
                above_num_non_zero_index: (start.above_num_non_zero_index + jpeg_x) as i32,
            }),
            bool_reader.data() == data,
            data == old(bool_reader).data(),
            start == *old(block_context),
            !left_model.left_present(),
            same_frame(*image_data, *old(image_data)),
            neighbor_summary_cache.len() == old(neighbor_summary_cache).len(),
            rs == row_setting_of(*image_data, *qt, *features),
            shape == row_shape_of(
                *left_model,
                *middle_model,
                *right_model,
                block_width as int,
                component_size_in_blocks as int,
            ),
            row_from(
                data,
                row_work_of(
                    *bool_reader,
                    *model,
                    *image_data,
                    neighbor_summary_cache@,
                    *block_context,
                ),
                rs,
                shape,
                jpeg_x as int,
            ) == row_decoded(
                data,
                row_work_of(
                    *old(bool_reader),
                    *old(model),
                    *old(image_data),
                    old(neighbor_summary_cache)@,
                    start,
                ),
                row_setting_of(*old(image_data), *qt, *features),
                shape,
            ),
        decreases block_width - jpeg_x,
    {
        proof {
            reveal_with_fuel(row_from, 2);
        }
        if parse_block(
            model,
            bool_reader,
            image_data,
            block_context,
            neighbor_summary_cache,
            qt,
            middle_model,
            features,
        ).is_err() {
            return Err(ExitCode::StreamInconsistent);
        }
        let offset = block_context.next(true);
        if offset >= component_size_in_blocks {
            return Ok(());
        }
        jpeg_x += 1;
    }
    proof {
        reveal_with_fuel(row_from, 2);
    }
    if block_width > 1 {
        if parse_block(
            model,
            bool_reader,
            image_data,
            block_context,
            neighbor_summary_cache,
            qt,
            right_model,
            features,
        ).is_err() {
            return Err(ExitCode::StreamInconsistent);
        }
        block_context.next(false);
    }
    Ok(())
}

/// The cursor at the first block of row `y` of a component that is
/// `block_width` blocks wide. The summaries of the rows take turns in the
/// two halves of the cache.
pub open spec fn row_start(block_width: int, y: int) -> BlockContext {
    BlockContext {
        cur_block_index: (block_width * y) as i32,
        above_block_index: if y != 0 {
            (block_width * (y - 1)) as i32
        } else {
            (-1) as i32
        },
        cur_num_non_zeros_index: if y % 2 != 0 {
            block_width as i32
        } else {
            0
        },
        above_num_non_zero_index: if y % 2 != 0 {
            0
        } else {
            block_width as i32
        },
    }
}

/// The kinds of place in a row of the component `component`: the first row
/// that a worker codes has no neighbours above, and a component one block
/// wide has none to the left.
pub open spec fn shape_for(
    pts: ProbabilityTablesSet,
    component: int,
    is_top_row: bool,
    block_width: int,
    component_size_in_blocks: int,
) -> RowShape {
    if is_top_row {
        RowShape {
            left: pts.corner[component],
            middle: pts.top[component],
            right: pts.top[component],
            block_width,
            component_size_in_blocks,
        }
    } else if block_width > 1 {
        RowShape {
            left: pts.mid_left[component],
            middle: pts.middle[component],
            right: pts.mid_right[component],
            block_width,
            component_size_in_blocks,
        }
    } else {
        RowShape {
            left: pts.width_one[component],
            middle: pts.width_one[component],
            right: pts.width_one[component],
            block_width,
            component_size_in_blocks,
        }
    }
}

/// The state after row `curr_y` of a component has been decoded.
pub open spec fn component_row_decoded(
    data: Seq<u8>,
    w: RowWork,
    rs: RowSetting,
    pts: ProbabilityTablesSet,
    component: int,
    is_top_row: bool,
    block_width: int,
    component_size_in_blocks: int,
    curr_y: int,
) -> Option<RowWork> {
    row_decoded(
        data,
        RowWork { context: row_start(block_width, curr_y), ..w },
        rs,
        shape_for(pts, component, is_top_row, block_width, component_size_in_blocks),
    )
}

fn decode_row_wrapper(
    model: &mut Model,
    bool_reader: &mut VPXBoolReader,
    pts: &ProbabilityTablesSet,
    image_data: &mut BlockBasedImage,
    qt: &QuantizationTables,
    neighbor_summary_cache: &mut Vec<NeighborSummary>,
    is_top_row: &mut Vec<bool>,
    component_size_in_blocks: &Vec<i32>,
    component: usize,
    curr_y: i32,
    features: &EnabledFeatures,
) -> (r: Result<(), ExitCode>)
    requires
        model_shaped(old(model)@),
        qt.derived(),
        pts.wf(),
        blocks_in_range(old(image_data).coefficients()),
        component < 4,
        component < old(is_top_row).len(),
        component < component_size_in_blocks.len(),
        0 <= curr_y,
        1 <= old(image_data).block_width(),
        2 * old(image_data).block_width() < i32::MAX,
        old(image_data).block_width() * (curr_y + 1) < i32::MAX,
        old(neighbor_summary_cache).len() == 2 * old(image_data).block_width(),
    ensures
        final(bool_reader).data() == old(bool_reader).data(),
        model_shaped(final(model)@),
        same_frame(*final(image_data), *old(image_data)),
        blocks_in_range(final(image_data).coefficients()),
        final(neighbor_summary_cache).len() == old(neighbor_summary_cache).len(),
        final(is_top_row)@ == old(is_top_row)@.update(component as int, false),
        r.is_err() ==> r == Err::<(), ExitCode>(ExitCode::StreamInconsistent),
        ({
            let t = component_row_decoded(
                old(bool_reader).data(),
                row_work_of(
                    *old(bool_reader),
                    *old(model),
                    *old(image_data),
                    old(neighbor_summary_cache)@,
                    row_start(old(image_data).block_width() as int, curr_y as int),
                ),
                row_setting_of(*old(image_data), *qt, *features),
                *pts,
                component as int,
                old(is_top_row)[component as int],
                old(image_data).block_width() as int,
                component_size_in_blocks[component as int] as int,
                curr_y as int,
            );
            &&& r.is_ok() <==> t.is_some()
            &&& r.is_ok() ==> row_work_of(
                *final(bool_reader),
                *final(model),
                *final(image_data),
                final(neighbor_summary_cache)@,
                t.unwrap().context,
            ) == t.unwrap()
        }),
{
    let block_width = image_data.get_block_width();
    assert(0 <= block_width * curr_y && block_width * curr_y + block_width < i32::MAX && (curr_y
        > 0 ==> block_width * (curr_y - 1) + block_width == block_width * curr_y)
        && block_width <= block_width * (curr_y + 1)) by (nonlinear_arith)
        requires
            1 <= block_width,
            0 <= curr_y,
            block_width * (curr_y + 1) < i32::MAX,
    ;
    let mut context = image_data.off_y(curr_y);
    assert(context == row_start(block_width as int, curr_y as int));
    let top = is_top_row[component];
    is_top_row[component] = false;
    if top {
        decode_row(
            model,
            bool_reader,
            qt,
            &pts.corner[component],
            &pts.top[component],
            &pts.top[component],
            image_data,
            &mut context,
            neighbor_summary_cache,
            component_size_in_blocks[component],
            features,
        )
    } else if block_width > 1 {
        decode_row(
            model,
            bool_reader,
            qt,
            &pts.mid_left[component],
            &pts.middle[component],
            &pts.mid_right[component],
            image_data,
            &mut context,
            neighbor_summary_cache,
            component_size_in_blocks[component],
            features,
        )
    } else {
        decode_row(
            model,
            bool_reader,
            qt,
            &pts.width_one[component],
            &pts.width_one[component],
            &pts.width_one[component],
            image_data,
            &mut context,
            neighbor_summary_cache,
            component_size_in_blocks[component],
            features,
        )
    }
}

/// The state of decoding a band: the state of the decoder and of the
/// model and, for every component, the blocks decoded so far, the cache of
/// summaries, and whether no row of it has been decoded yet.
pub ghost struct BandWork {
    pub coder: CoderState,
    pub model: ModelState,
    pub coefficients: Seq<Seq<Seq<i16>>>,
    pub caches: Seq<Seq<SummaryView>>,
    pub is_top_row: Seq<bool>,
}

/// What stays the same while a band is decoded.
pub ghost struct BandSetting {
    pub pts: ProbabilityTablesSet,
    pub qt: Seq<QuantizationTables>,
    pub offsets: Seq<int>,
    pub capacities: Seq<int>,
    pub block_widths: Seq<int>,
    pub heights: Seq<i32>,
    pub component_sizes_in_blocks: Seq<i32>,
    pub max_coded_heights: Seq<i32>,
    pub mcu_count_vertical: int,
    pub min_y: int,
    pub max_y: int,
    pub to_the_end: bool,
    pub features: EnabledFeatures,
}

/// The first step of the coding order that cannot be computed any more.
pub open spec fn last_index(cfg: BandSetting) -> int {
    i32::MAX - rows_per_mcu(cfg.heights[0] as int, cfg.mcu_count_vertical) - 1
}

/// The state after the row that the step `row` of the coding order names
/// has been decoded.
#[verifier::opaque]
pub open spec fn band_row_decoded(data: Seq<u8>, w: BandWork, cfg: BandSetting, row: RowSpec) -> Option<
    BandWork,
> {
    let c = row.component as int;
    let t = component_row_decoded(
        data,
        RowWork {
            coder: w.coder,
            model: w.model,
            coefficients: w.coefficients[c],
            cache: w.caches[c],
            context: row_start(cfg.block_widths[c], row.curr_y as int),
        },
        RowSetting {
            offset: cfg.offsets[c],
            capacity: cfg.capacities[c],
            qt: cfg.qt[c],
            features: cfg.features,
        },
        cfg.pts,
        c,
        w.is_top_row[c],
        cfg.block_widths[c],
        cfg.component_sizes_in_blocks[c] as int,
        row.curr_y as int,
    );
    if t.is_none() {
        None
    } else {
        Some(
            BandWork {
                coder: t.unwrap().coder,
                model: t.unwrap().model,
                coefficients: w.coefficients.update(c, t.unwrap().coefficients),
                caches: w.caches.update(c, t.unwrap().cache),
                is_top_row: w.is_top_row.update(c, false),
            },
        )
    }
}

/// The state after the rows of a band from the step `decode_index` of the
/// coding order on have been decoded. Decoding ends at the step that is
/// marked done, or at the first luma row past the band unless the band
/// goes to the end of the image; rows before the band and rows that are
/// not coded are passed over. It fails where the stream contradicts
/// itself, and where the coding order cannot be computed in 32 bits.
pub open spec fn band_from(data: Seq<u8>, w: BandWork, cfg: BandSetting, decode_index: int) -> Result<
    BandWork,
    ExitCode,
>
    decreases last_index(cfg) - decode_index + 1,
{
    if decode_index > last_index(cfg) || decode_index < 0 {
        Err(ExitCode::AssertionFailure)
    } else {
        let row = row_spec_of(
            decode_index,
            cfg.heights,
            cfg.mcu_count_vertical,
            cfg.max_coded_heights,
        );
        if row.done || (row.luma_y >= cfg.max_y && !cfg.to_the_end) {
            Ok(w)
        } else if row.skip || row.luma_y < cfg.min_y {
            band_from(data, w, cfg, decode_index + 1)
        } else {
            let t = band_row_decoded(data, w, cfg, row);
            if t.is_none() {
                Err(ExitCode::StreamInconsistent)
            } else {
                band_from(data, t.unwrap(), cfg, decode_index + 1)
            }
        }
    }
}

/// The coefficients of the blocks of each image.
pub open spec fn images_view(images: Seq<BlockBasedImage>) -> Seq<Seq<Seq<i16>>> {
    Seq::new(images.len(), |i: int| images[i].coefficients())
}

/// What the summaries of each cache hold.
pub open spec fn caches_view(caches: Seq<Vec<NeighborSummary>>) -> Seq<Seq<SummaryView>> {
    Seq::new(caches.len(), |i: int| cache_view(caches[i]@))
}

/// The setting that the arguments of the band decoder make up.
pub open spec fn band_setting_of(
    pts: ProbabilityTablesSet,
    qt: Seq<QuantizationTables>,
    trunc: TruncateComponents,
    images: Seq<BlockBasedImage>,
    min_y: i32,
    max_y: i32,
    to_the_end: bool,
    features: EnabledFeatures,
) -> BandSetting {
    BandSetting {
        pts,
        qt,
        offsets: Seq::new(images.len(), |i: int| images[i].dpos_offset() as int),
        capacities: Seq::new(images.len(), |i: int| images[i].capacity() as int),
        block_widths: Seq::new(images.len(), |i: int| images[i].block_width() as int),
        heights: Seq::new(images.len(), |i: int| images[i].original_height()),
        component_sizes_in_blocks: trunc.component_sizes_in_blocks@,
        max_coded_heights: trunc.max_coded_heights@,
        mcu_count_vertical: trunc.mcu_count_vertical as int,
        min_y: min_y as int,
        max_y: max_y as int,
        to_the_end,
        features,
    }
}

/// Whether a band can be decoded into `images`: there are between one and
/// four components, every component has a quantization table, a size and
/// a coded height, the coding order is defined, and the positions of the
/// blocks to decode fit into 32 bits.
pub open spec fn band_ready(
    qt: Seq<QuantizationTables>,
    trunc: TruncateComponents,
    images: Seq<BlockBasedImage>,
) -> bool {
    &&& 1 <= images.len() <= 4
    &&& qt.len() == images.len()
    &&& trunc.component_sizes_in_blocks.len() == images.len()
    &&& trunc.max_coded_heights.len() == images.len()
    &&& forall|i: int| 0 <= i < images.len() ==> (#[trigger] qt[i]).derived()
    &&& forall|i: int|
        0 <= i < images.len() ==> blocks_in_range((#[trigger] images[i]).coefficients())
    &&& forall|i: int|
        0 <= i < images.len() ==> 1 <= (#[trigger] images[i]).block_width() && 2
            * images[i].block_width() < i32::MAX && 0 <= images[i].original_height()
            && images[i].block_width() * trunc.max_coded_heights[i] < i32::MAX
    &&& trunc.mcu_count_vertical > 0
    &&& order_defined(
        0,
        Seq::new(images.len(), |i: int| images[i].original_height()),
        trunc.mcu_count_vertical as int,
        trunc.max_coded_heights@,
    )
}

pub fn fresh_cache(block_width: i32) -> (r: Vec<NeighborSummary>)
    requires
        0 <= block_width,
        2 * block_width < i32::MAX,
    ensures
        r.len() == 2 * block_width,
        cache_view(r@) == Seq::new((2 * block_width) as nat, |i: int| empty_summary()),
{
    let mut r: Vec<NeighborSummary> = Vec::new();
    let num_non_zeros_length = (block_width * 2) as usize;
    let mut i: usize = 0;
    while i < num_non_zeros_length
        invariant
            i <= num_non_zeros_length,
            r.len() == i,
            forall|k: int| 0 <= k < i ==> (#[trigger] r[k])@ == empty_summary(),
        decreases num_non_zeros_length - i,
    {
        r.push(NeighborSummary::default());
        i += 1;
    }
    assert(cache_view(r@) =~= Seq::new((2 * block_width) as nat, |i: int| empty_summary()));
    r
}

/// The state in which the decoding of a band starts.
pub open spec fn band_start(data: Seq<u8>, images: Seq<BlockBasedImage>) -> BandWork {
    BandWork {
        coder: VPXBoolReader::start_state(data),
        model: fresh_model(),
        coefficients: images_view(images),
        caches: Seq::new(
            images.len(),
            |i: int| Seq::new((2 * images[i].block_width()) as nat, |k: int| empty_summary()),
        ),
        is_top_row: Seq::new(images.len(), |i: int| true),
    }
}

/// Decodes the rows of a band of an image from `data` and appends their
/// blocks to `image_data`, which holds one image for every component.
///
/// The band holds the luma rows from `min_y` up to `max_y`; the band of the
/// last worker goes on to the end of the image where the whole file is
/// compressed.
pub fn lepton_decode_row_range(
    pts: &ProbabilityTablesSet,
    qt: &Vec<QuantizationTables>,
    trunc: &TruncateComponents,
    image_data: &mut Vec<BlockBasedImage>,
    data: Vec<u8>,
    min_y: i32,
    max_y: i32,
    is_last_thread: bool,
    full_file_compression: bool,
    features: &EnabledFeatures,
) -> (r: Result<Metrics, ExitCode>)
    requires
        pts.wf(),
        band_ready(qt@, *trunc, old(image_data)@),
    ensures
        final(image_data).len() == old(image_data).len(),
        forall|i: int|
            0 <= i < old(image_data).len() ==> same_frame(
                #[trigger] final(image_data)[i],
                old(image_data)[i],
            ),
        ({
            let t = band_from(
                data@,
                band_start(data@, old(image_data)@),
                band_setting_of(
                    *pts,
                    qt@,
                    *trunc,
                    old(image_data)@,
                    min_y,
                    max_y,
                    is_last_thread && full_file_compression,
                    *features,
                ),
                0,
            );
            &&& r.is_ok() <==> t.is_ok()
            &&& r matches Err(e) ==> t == Err::<BandWork, ExitCode>(e)
            &&& r.is_ok() ==> images_view(final(image_data)@) == t.unwrap().coefficients
        }),
{
    let component_size_in_blocks = trunc.get_component_sizes_in_blocks();
    let max_coded_heights = trunc.get_max_coded_heights();
    let ghost cfg = band_setting_of(
        *pts,
        qt@,
        *trunc,
        image_data@,
        min_y,
        max_y,
        is_last_thread && full_file_compression,
        *features,
    );
    let mut is_top_row: Vec<bool> = Vec::new();
    let mut neighbor_summary_cache: Vec<Vec<NeighborSummary>> = Vec::new();
    let mut heights: Vec<i32> = Vec::new();
    let mut i: usize = 0;
    while i < image_data.len()
        invariant
            i <= image_data.len(),
            image_data@ == old(image_data)@,
            band_ready(qt@, *trunc, image_data@),
            is_top_row.len() == i,
            neighbor_summary_cache.len() == i,
            heights.len() == i,
            forall|k: int| 0 <= k < i ==> #[trigger] is_top_row[k],
            forall|k: int|
                0 <= k < i ==> #[trigger] heights[k] == image_data[k].original_height(),
            forall|k: int|
                0 <= k < i ==> (#[trigger] neighbor_summary_cache[k]).len() == 2
                    * image_data[k].block_width() && cache_view(neighbor_summary_cache[k]@)
                    == Seq::new(
                    (2 * image_data[k].block_width()) as nat,
                    |j: int| empty_summary(),
                ),
        decreases image_data.len() - i,
    {
        is_top_row.push(true);
        heights.push(image_data[i].get_original_height());
        neighbor_summary_cache.push(fresh_cache(image_data[i].get_block_width()));
        i += 1;
    }
    assert(heights@ =~= cfg.heights);
    let mut model = Model::new();
    let ghost bytes = data@;
    let mut bool_reader = VPXBoolReader::new(data);
    assert(is_top_row@ =~= band_start(bytes, image_data@).is_top_row);
    assert(caches_view(neighbor_summary_cache@) =~= band_start(bytes, image_data@).caches);
    let per_luma: i32 = heights[0] / trunc.mcu_count_vertical;
    assert(0 <= per_luma <= heights[0]) by (nonlinear_arith)
        requires
            per_luma == heights[0] as int / trunc.mcu_count_vertical as int,
            0 <= heights[0],
            trunc.mcu_count_vertical > 0,
    ;
    let last: i32 = i32::MAX - per_luma - 1;
    let mut decode_index: i32 = 0;
    loop
        invariant
            0 <= decode_index,
            pts.wf(),
            band_ready(qt@, *trunc, old(image_data)@),
            heights@ == cfg.heights,
            last == last_index(cfg),
            -1 <= last < i32::MAX,
            component_size_in_blocks@ == trunc.component_sizes_in_blocks@,
            max_coded_heights@ == trunc.max_coded_heights@,
            image_data.len() == old(image_data).len(),
            is_top_row.len() == image_data.len(),
            neighbor_summary_cache.len() == image_data.len(),
            forall|k: int|
                0 <= k < image_data.len() ==> same_frame(
                    #[trigger] image_data[k],
                    old(image_data)[k],
                ),
            forall|k: int|
                0 <= k < image_data.len() ==> blocks_in_range(
                    (#[trigger] image_data[k]).coefficients(),
                ),
            forall|k: int|
                0 <= k < image_data.len() ==> (#[trigger] neighbor_summary_cache[k]).len() == 2
                    * old(image_data)[k].block_width(),
            model_shaped(model@),
            bool_reader.data() == bytes,
            bytes == data@,
            cfg == band_setting_of(
                *pts,
                qt@,
                *trunc,
                old(image_data)@,
                min_y,
                max_y,
                is_last_thread && full_file_compression,
                *features,
            ),
            band_from(
                bytes,
                BandWork {
                    coder: bool_reader.state(),
                    model: model@,
                    coefficients: images_view(image_data@),
                    caches: caches_view(neighbor_summary_cache@),
                    is_top_row: is_top_row@,
                },
                cfg,
                decode_index as int,
            ) == band_from(bytes, band_start(bytes, old(image_data)@), cfg, 0),
        ensures
            band_from(bytes, band_start(bytes, old(image_data)@), cfg, 0) == Ok::<
                BandWork,
                ExitCode,
            >(
                BandWork {
                    coder: bool_reader.state(),
                    model: model@,
                    coefficients: images_view(image_data@),
                    caches: caches_view(neighbor_summary_cache@),
                    is_top_row: is_top_row@,
                },
            ),
        decreases last - decode_index + 1,
    {
        if decode_index > last {
            return Err(ExitCode::AssertionFailure);
        }
        let cur_row = RowSpec::get_row_spec_from_index(
            decode_index,
            &heights,
            trunc.mcu_count_vertical,
            max_coded_heights,
        );
        if cur_row.done {
            break;
        }
        if cur_row.luma_y >= max_y && !(is_last_thread && full_file_compression) {
            break;
        }
        decode_index += 1;
        if cur_row.skip {
            continue;
        }
        if cur_row.luma_y < min_y {
            continue;
        }
        if decode_band_row(
            &mut model,
            &mut bool_reader,
            pts,
            qt,
            trunc,
            image_data,
            &mut neighbor_summary_cache,
            &mut is_top_row,
            cur_row,
            features,
            Ghost(cfg),
            Ghost(*old(image_data)),
        ).is_err() {
            return Err(ExitCode::StreamInconsistent);
        }
    }
    Ok(bool_reader.drain_stats())
}

fn decode_band_row(
    model: &mut Model,
    bool_reader: &mut VPXBoolReader,
    pts: &ProbabilityTablesSet,
    qt: &Vec<QuantizationTables>,
    trunc: &TruncateComponents,
    image_data: &mut Vec<BlockBasedImage>,
    neighbor_summary_cache: &mut Vec<Vec<NeighborSummary>>,
    is_top_row: &mut Vec<bool>,
    cur_row: RowSpec,
    features: &EnabledFeatures,
    Ghost(cfg): Ghost<BandSetting>,
    Ghost(first): Ghost<Vec<BlockBasedImage>>,
) -> (r: Result<(), ExitCode>)
    requires
        pts.wf(),
        band_ready(qt@, *trunc, first@),
        old(image_data).len() == first.len(),
        old(is_top_row).len() == first.len(),
        old(neighbor_summary_cache).len() == first.len(),
        forall|k: int|
            0 <= k < first.len() ==> same_frame(#[trigger] old(image_data)[k], first[k]),
        forall|k: int|
            0 <= k < first.len() ==> blocks_in_range((#[trigger] old(image_data)[k]).coefficients()),
        forall|k: int|
            0 <= k < first.len() ==> (#[trigger] old(neighbor_summary_cache)[k]).len() == 2
                * first[k].block_width(),
        model_shaped(old(model)@),
        cur_row.component < first.len(),
        0 <= cur_row.curr_y < trunc.max_coded_heights[cur_row.component as int],
        cfg == band_setting_of(
            *pts,
            qt@,
            *trunc,
            first@,
            cfg.min_y as i32,
            cfg.max_y as i32,
            cfg.to_the_end,
            *features,
        ),
    ensures
        final(bool_reader).data() == old(bool_reader).data(),
        model_shaped(final(model)@),
        final(image_data).len() == first.len(),
        final(is_top_row).len() == first.len(),
        final(neighbor_summary_cache).len() == first.len(),
        forall|k: int|
            0 <= k < first.len() ==> same_frame(#[trigger] final(image_data)[k], first[k]),
        forall|k: int|
            0 <= k < first.len() ==> blocks_in_range(
                (#[trigger] final(image_data)[k]).coefficients(),
            ),
        forall|k: int|
            0 <= k < first.len() ==> (#[trigger] final(neighbor_summary_cache)[k]).len() == 2
                * first[k].block_width(),
        ({
            let t = band_row_decoded(
                old(bool_reader).data(),
                BandWork {
                    coder: old(bool_reader).state(),
                    model: old(model)@,
                    coefficients: images_view(old(image_data)@),
                    caches: caches_view(old(neighbor_summary_cache)@),
                    is_top_row: old(is_top_row)@,
                },
                cfg,
                cur_row,
            );
            &&& r.is_ok() <==> t.is_some()
            &&& r.is_ok() ==> (BandWork {
                coder: final(bool_reader).state(),
                model: final(model)@,
                coefficients: images_view(final(image_data)@),
                caches: caches_view(final(neighbor_summary_cache)@),
                is_top_row: final(is_top_row)@,
            }) == t.unwrap()
        }),
{
    reveal(band_row_decoded);
    let component = cur_row.component;
    let ghost before = BandWork {
        coder: bool_reader.state(),
        model: model@,
        coefficients: images_view(image_data@),
        caches: caches_view(neighbor_summary_cache@),
        is_top_row: is_top_row@,
    };
    let ghost w = first[component as int].block_width() as int;
    assert(same_frame(image_data[component as int], first[component as int]));
    assert(w * (cur_row.curr_y + 1) < i32::MAX) by (nonlinear_arith)
        requires
            1 <= w,
            0 <= cur_row.curr_y < trunc.max_coded_heights[component as int],
            w * trunc.max_coded_heights[component as int] < i32::MAX,
    ;
    assert(qt[component as int].derived());
    let ghost images_before = image_data@;
    let ghost caches_before = neighbor_summary_cache@;
    let decoded = decode_row_wrapper(
        model,
        bool_reader,
        pts,
        &mut image_data[component],
        &qt[component],
        &mut neighbor_summary_cache[component],
        is_top_row,
        trunc.get_component_sizes_in_blocks(),
        component,
        cur_row.curr_y,
        features,
    );
    assert(image_data@ =~= images_before.update(component as int, image_data[component as int]));
    assert(neighbor_summary_cache@ =~= caches_before.update(
        component as int,
        neighbor_summary_cache[component as int],
    ));
    assert(images_view(image_data@) =~= before.coefficients.update(
        component as int,
        image_data[component as int].coefficients(),
    ));
    assert(caches_view(neighbor_summary_cache@) =~= before.caches.update(
        component as int,
        cache_view(neighbor_summary_cache[component as int]@),
    ));
    if decoded.is_err() {
        return Err(ExitCode::StreamInconsistent);
    }
    Ok(())
}

} // verus!
