//! Why a band that is decoded is the band that was encoded.
//!
//! A decoder that starts where the encoder started, with images that begin
//! at the rows with which the band begins, reads every row of the band as
//! the encoder coded it: after each step of the coding order the two are at
//! the same point, and the decoder holds a copy of the rows coded so far.

use crate::block_based_image::{block_in, BlockBasedImage};
use crate::branch::probability_of;
use crate::codec_laws::{lemma_fresh_model_shaped, lemma_put_narrows, narrows};
use crate::coder_laws::{
    lemma_decoding_follows, lemma_finished_stream, lemma_tracks_at_start, sound, tracks, within,
};
use crate::enabled_features::EnabledFeatures;
use crate::lepton_decoder::{
    band_from, band_ready, band_row_decoded, band_setting_of, band_start, images_view,
    last_index, row_decoded, row_start, shape_for, BandSetting, BandWork, RowSetting, RowWork,
};
use crate::lepton_encoder::{
    band_codable, band_put_from, band_row_encoded, last_step, put_band_start, row_encoded,
    PutBandWork, PutRowSetting, PutRowWork,
};
use crate::model::model_shaped;
use crate::probability_tables_set::ProbabilityTablesSet;
use crate::quantization_tables::QuantizationTables;
use crate::truncate_components::TruncateComponents;
use crate::vpx_bool_reader::VPXBoolReader;
use crate::vpx_bool_writer::{flushed, VPXBoolWriter};
use crate::order_laws::{lemma_step_counts_one_row, lemma_step_names_next_row, rows_before};
use crate::row_laws::{
    lemma_row_extent, lemma_row_narrows, lemma_row_round_trip, row_in_step, row_ready,
};
use crate::row_spec::{lemma_sum_bounds, order_exists, row_spec_of, RowSpec};
use vstd::prelude::*;

verus! {

/// The number of rows of the component `c` that are coded among the first
/// `index` steps of the coding order of the whole image.
pub open spec fn coded_rows(cfg: BandSetting, index: int, c: int) -> int {
    let seen = rows_before(index, cfg.heights, cfg.mcu_count_vertical, c);
    if seen < cfg.max_coded_heights[c] {
        seen
    } else {
        cfg.max_coded_heights[c] as int
    }
}

/// Whether the setting of a band of `n` components is one in which rows
/// can be coded: every component has a quantization table and a width,
/// the rows to code lie within the component and within the room that the
/// decoder has, and their positions fit into 32 bits.
pub open spec fn band_fit(cfg: BandSetting, n: int) -> bool {
    &&& 1 <= n <= 4
    &&& cfg.pts.wf()
    &&& cfg.qt.len() == n
    &&& cfg.offsets.len() == n
    &&& cfg.capacities.len() == n
    &&& cfg.block_widths.len() == n
    &&& cfg.heights.len() == n
    &&& cfg.component_sizes_in_blocks.len() == n
    &&& cfg.max_coded_heights.len() == n
    &&& order_exists(cfg.heights, cfg.mcu_count_vertical, cfg.max_coded_heights)
    &&& forall|c: int| 0 <= c < n ==> #[trigger] component_fit(cfg, c)
}

/// Whether the rows to code of the component `c` lie within the component
/// and within the room that the decoder has.
pub open spec fn component_fit(cfg: BandSetting, c: int) -> bool {
    &&& cfg.qt[c].derived()
    &&& 1 <= cfg.block_widths[c]
    &&& 2 * cfg.block_widths[c] < i32::MAX
    &&& 0 <= cfg.max_coded_heights[c]
    &&& cfg.block_widths[c] * cfg.max_coded_heights[c] < i32::MAX
    &&& cfg.block_widths[c] * cfg.max_coded_heights[c] <= cfg.component_sizes_in_blocks[c]
    &&& cfg.block_widths[c] * cfg.max_coded_heights[c] <= cfg.offsets[c] + cfg.capacities[c]
}

/// Whether the decoder holds, of the component `c`, a copy of the rows
/// that are coded among the first `index` steps of the coding order, from
/// the first position of its image on; where a row of the component has
/// been decoded, it holds the row before the next one.
pub open spec fn component_in_step(
    wd: BandWork,
    cd: BandSetting,
    we: PutBandWork,
    from: int,
    blocks: Seq<Seq<i16>>,
    index: int,
    c: int,
) -> bool {
    let held = wd.coefficients[c];
    let first = cd.offsets[c];
    let width = cd.block_widths[c];
    &&& wd.caches[c] == we.caches[c]
    &&& wd.is_top_row[c] == we.is_top_row[c]
    &&& wd.caches[c].len() == 2 * width
    &&& forall|i: int| 0 <= i < blocks.len() ==> (#[trigger] blocks[i]).len() == 64
    &&& forall|i: int| 0 <= i < held.len() ==> (#[trigger] held[i]).len() == 64
    &&& forall|p: int|
        first <= p < first + held.len() ==> #[trigger] block_in(first, held, p) == block_in(
            from,
            blocks,
            p,
        )
    &&& first + held.len() == width * coded_rows(cd, index, c)
    &&& !wd.is_top_row[c] ==> first + width <= width * coded_rows(cd, index, c)
}

/// Whether a decoder and an encoder that work on a band are at the same
/// point before the step `index` of the coding order: the decoder is
/// where the encoder is, with a model in the same state, the settings
/// differ at most in where the images begin and end, no row from here on
/// lies before the band, and the decoder holds a copy of what the encoder
/// has coded of every component.
pub open spec fn band_in_step(
    data: Seq<u8>,
    wd: BandWork,
    cd: BandSetting,
    we: PutBandWork,
    ce: BandSetting,
    images: Seq<Seq<Seq<i16>>>,
    index: int,
) -> bool {
    &&& cd == BandSetting { offsets: cd.offsets, capacities: cd.capacities, ..ce }
    &&& band_fit(cd, images.len() as int)
    &&& ce.offsets.len() == images.len()
    &&& sound(we.coder)
    &&& tracks(data, wd.coder, we.coder)
    &&& wd.model == we.model
    &&& model_shaped(we.model)
    &&& wd.coefficients.len() == images.len()
    &&& wd.caches.len() == images.len()
    &&& we.caches.len() == images.len()
    &&& wd.is_top_row.len() == images.len()
    &&& we.is_top_row.len() == images.len()
    &&& 0 <= index
    &&& cd.min_y <= rows_before(index, cd.heights, cd.mcu_count_vertical, 0)
    &&& forall|c: int|
        0 <= c < images.len() ==> #[trigger] component_in_step(
            wd,
            cd,
            we,
            ce.offsets[c],
            images[c],
            index,
            c,
        )
}

/// The step of the coding order at which the coding of a band that has
/// come to the step `index` ends.
pub open spec fn band_end(cfg: BandSetting, index: int) -> int
    decreases last_index(cfg) - index + 1,
{
    if index > last_index(cfg) || index < 0 {
        index
    } else {
        let row = row_spec_of(
            index,
            cfg.heights,
            cfg.mcu_count_vertical,
            cfg.max_coded_heights,
        );
        if row.done || (row.luma_y >= cfg.max_y && !cfg.to_the_end) {
            index
        } else {
            band_end(cfg, index + 1)
        }
    }
}

/// The state of the row decoder before a row of the component `c`.
spec fn row_work(w: BandWork, cfg: BandSetting, c: int, y: int) -> RowWork {
    RowWork {
        coder: w.coder,
        model: w.model,
        coefficients: w.coefficients[c],
        cache: w.caches[c],
        context: row_start(cfg.block_widths[c], y),
    }
}

/// The setting of the row decoder for the component `c`.
spec fn row_setting(cfg: BandSetting, c: int) -> RowSetting {
    RowSetting {
        offset: cfg.offsets[c],
        capacity: cfg.capacities[c],
        qt: cfg.qt[c],
        features: cfg.features,
    }
}

/// The state of the row encoder before a row of the component `c`.
spec fn put_row_work(w: PutBandWork, cfg: BandSetting, c: int, y: int) -> PutRowWork {
    PutRowWork {
        coder: w.coder,
        model: w.model,
        cache: w.caches[c],
        context: row_start(cfg.block_widths[c], y),
    }
}

/// The setting of the row encoder for the component `c`.
spec fn put_row_setting(cfg: BandSetting, images: Seq<Seq<Seq<i16>>>, c: int) -> PutRowSetting {
    PutRowSetting {
        offset: cfg.offsets[c],
        coefficients: images[c],
        qt: cfg.qt[c],
        features: cfg.features,
    }
}

/// The positions of the blocks of a row that is coded.
proof fn lemma_row_positions(width: int, y: int, rows: int)
    requires
        1 <= width,
        0 <= y < rows,
    ensures
        0 <= width * y,
        width * (y + 1) == width * y + width,
        width * (y - 1) == width * y - width,
        width * (y + 1) <= width * rows,
{
    assert(0 <= width * y && width * (y + 1) == width * y + width && width * (y - 1) == width * y
        - width && width * (y + 1) <= width * rows) by (nonlinear_arith)
        requires
            1 <= width,
            0 <= y < rows,
    ;
}

/// Coding the row that a step of the coding order names narrows the
/// interval.
proof fn lemma_band_row_narrows(
    w: PutBandWork,
    cfg: BandSetting,
    images: Seq<Seq<Seq<i16>>>,
    row: RowSpec,
)
    requires
        sound(w.coder),
        band_row_encoded(w, cfg, images, row).is_some(),
    ensures
        narrows(band_row_encoded(w, cfg, images, row).unwrap().coder, w.coder),
{
    reveal(band_row_encoded);
    let c = row.component as int;
    lemma_row_narrows(
        put_row_work(w, cfg, c, row.curr_y as int),
        put_row_setting(cfg, images, c),
        shape_for(
            cfg.pts,
            c,
            w.is_top_row[c],
            cfg.block_widths[c],
            cfg.component_sizes_in_blocks[c] as int,
        ),
    );
}

/// Coding the rest of a band narrows the interval.
pub proof fn lemma_band_narrows(
    w: PutBandWork,
    cfg: BandSetting,
    images: Seq<Seq<Seq<i16>>>,
    index: int,
)
    requires
        sound(w.coder),
        band_put_from(w, cfg, images, index).is_ok(),
    ensures
        narrows(band_put_from(w, cfg, images, index).unwrap().coder, w.coder),
    decreases last_step(cfg) - index + 1,
{
    if index > last_step(cfg) || index < 0 {
    } else {
        let row = row_spec_of(
            index,
            cfg.heights,
            cfg.mcu_count_vertical,
            cfg.max_coded_heights,
        );
        if row.done || (row.luma_y >= cfg.max_y && !cfg.to_the_end) {
        } else if row.skip || row.luma_y < cfg.min_y {
            lemma_band_narrows(w, cfg, images, index + 1);
        } else {
            lemma_band_row_narrows(w, cfg, images, row);
            let t = band_row_encoded(w, cfg, images, row).unwrap();
            lemma_band_narrows(t, cfg, images, index + 1);
        }
    }
}

/// A step of the coding order that is not past the last one has a number
/// that fits into 32 bits.
proof fn lemma_index_fits(cfg: BandSetting, index: int)
    requires
        order_exists(cfg.heights, cfg.mcu_count_vertical, cfg.max_coded_heights),
        index <= last_index(cfg),
    ensures
        index <= i32::MAX,
        last_index(cfg) == last_step(cfg),
{
    lemma_sum_bounds(cfg.heights, cfg.mcu_count_vertical, cfg.heights.len() as int);
}

/// A step of the coding order whose row is not coded leaves a decoder and
/// an encoder that are at the same point at the same point.
proof fn lemma_band_row_passed(
    data: Seq<u8>,
    wd: BandWork,
    cd: BandSetting,
    we: PutBandWork,
    ce: BandSetting,
    images: Seq<Seq<Seq<i16>>>,
    index: int,
)
    requires
        band_in_step(data, wd, cd, we, ce, images, index),
        index <= last_index(cd),
        row_spec_of(index, cd.heights, cd.mcu_count_vertical, cd.max_coded_heights).skip,
    ensures
        band_in_step(data, wd, cd, we, ce, images, index + 1),
{
    lemma_index_fits(cd, index);
    lemma_step_names_next_row(index, cd.heights, cd.mcu_count_vertical, cd.max_coded_heights);
    assert forall|c: int| 0 <= c < images.len() implies #[trigger] component_in_step(
        wd,
        cd,
        we,
        ce.offsets[c],
        images[c],
        index + 1,
        c,
    ) by {
        lemma_step_counts_one_row(
            index,
            cd.heights,
            cd.mcu_count_vertical,
            cd.max_coded_heights,
            c,
        );
        assert(component_in_step(wd, cd, we, ce.offsets[c], images[c], index, c));
        assert(coded_rows(cd, index + 1, c) == coded_rows(cd, index, c));
    }
    lemma_step_counts_one_row(index, cd.heights, cd.mcu_count_vertical, cd.max_coded_heights, 0);
}

/// The row that a step of the coding order names, and that is coded, is
/// read back: the decoder and the encoder are at the same point after it.
proof fn lemma_band_row_round_trip(
    data: Seq<u8>,
    wd: BandWork,
    cd: BandSetting,
    we: PutBandWork,
    ce: BandSetting,
    images: Seq<Seq<Seq<i16>>>,
    index: int,
)
    requires
        band_in_step(data, wd, cd, we, ce, images, index),
        index <= last_index(cd),
        !row_spec_of(index, cd.heights, cd.mcu_count_vertical, cd.max_coded_heights).skip,
        band_row_encoded(
            we,
            ce,
            images,
            row_spec_of(index, cd.heights, cd.mcu_count_vertical, cd.max_coded_heights),
        ).is_some(),
        within(
            data,
            band_row_encoded(
                we,
                ce,
                images,
                row_spec_of(index, cd.heights, cd.mcu_count_vertical, cd.max_coded_heights),
            ).unwrap().coder,
        ),
    ensures
        band_row_decoded(
            data,
            wd,
            cd,
            row_spec_of(index, cd.heights, cd.mcu_count_vertical, cd.max_coded_heights),
        ).is_some(),
        band_in_step(
            data,
            band_row_decoded(
                data,
                wd,
                cd,
                row_spec_of(index, cd.heights, cd.mcu_count_vertical, cd.max_coded_heights),
            ).unwrap(),
            cd,
            band_row_encoded(
                we,
                ce,
                images,
                row_spec_of(index, cd.heights, cd.mcu_count_vertical, cd.max_coded_heights),
            ).unwrap(),
            ce,
            images,
            index + 1,
        ),
{
    let row = row_spec_of(index, cd.heights, cd.mcu_count_vertical, cd.max_coded_heights);
    let c = row.component as int;
    let y = row.curr_y as int;
    lemma_index_fits(cd, index);
    lemma_step_names_next_row(index, cd.heights, cd.mcu_count_vertical, cd.max_coded_heights);
    lemma_step_counts_one_row(index, cd.heights, cd.mcu_count_vertical, cd.max_coded_heights, c);
    lemma_step_counts_one_row(index, cd.heights, cd.mcu_count_vertical, cd.max_coded_heights, 0);
    assert(component_fit(cd, c));
    assert(component_in_step(wd, cd, we, ce.offsets[c], images[c], index, c));
    let width = cd.block_widths[c];
    lemma_row_positions(width, y, cd.max_coded_heights[c] as int);
    let wr = row_work(wd, cd, c, y);
    let rd = row_setting(cd, c);
    let pw = put_row_work(we, ce, c, y);
    let re = put_row_setting(ce, images, c);
    let shape = shape_for(
        cd.pts,
        c,
        wd.is_top_row[c],
        width,
        cd.component_sizes_in_blocks[c] as int,
    );
    reveal(band_row_encoded);
    reveal(band_row_decoded);
    assert(row_in_step(data, wr, rd, pw, re));
    assert(row_ready(wr.context, rd, wr.coefficients.len() as int, wr.cache.len() as int, shape));
    lemma_row_round_trip(data, wr, rd, pw, re, shape);
    lemma_row_extent(pw, re, shape);
    let rows = row_decoded(data, wr, rd, shape).unwrap();
    let next_d = band_row_decoded(data, wd, cd, row).unwrap();
    let next_e = band_row_encoded(we, ce, images, row).unwrap();
    assert(row_in_step(data, rows, rd, row_encoded(pw, re, shape).unwrap(), re));
    assert forall|k: int| 0 <= k < images.len() implies #[trigger] component_in_step(
        next_d,
        cd,
        next_e,
        ce.offsets[k],
        images[k],
        index + 1,
        k,
    ) by {
        lemma_step_counts_one_row(
            index,
            cd.heights,
            cd.mcu_count_vertical,
            cd.max_coded_heights,
            k,
        );
        assert(component_in_step(wd, cd, we, ce.offsets[k], images[k], index, k));
        if k == c {
            assert(coded_rows(cd, index + 1, c) == y + 1);
            assert(next_d.coefficients[c] == rows.coefficients);
        } else {
            assert(coded_rows(cd, index + 1, k) == coded_rows(cd, index, k));
            assert(next_d.coefficients[k] == wd.coefficients[k]);
        }
    }
}

/// A band that is coded is read back. Where a decoder and an encoder are
/// at the same point before a step of the coding order, and the stream
/// lies in the interval that the encoder has come to at the end of the
/// band, the decoder reads the rest of the band without an error, and the
/// two are at the same point at the end of it: the decoder holds, of
/// every component, a copy of the rows of the band.
pub proof fn lemma_band_round_trip(
    data: Seq<u8>,
    wd: BandWork,
    cd: BandSetting,
    we: PutBandWork,
    ce: BandSetting,
    images: Seq<Seq<Seq<i16>>>,
    index: int,
)
    requires
        band_in_step(data, wd, cd, we, ce, images, index),
        band_put_from(we, ce, images, index).is_ok(),
        within(data, band_put_from(we, ce, images, index).unwrap().coder),
    ensures
        band_from(data, wd, cd, index).is_ok(),
        band_in_step(
            data,
            band_from(data, wd, cd, index).unwrap(),
            cd,
            band_put_from(we, ce, images, index).unwrap(),
            ce,
            images,
            band_end(cd, index),
        ),
    decreases last_index(cd) - index + 1,
{
    if index <= last_index(cd) {
        lemma_index_fits(cd, index);
        lemma_step_names_next_row(index, cd.heights, cd.mcu_count_vertical, cd.max_coded_heights);
        let row = row_spec_of(index, cd.heights, cd.mcu_count_vertical, cd.max_coded_heights);
        if row.done || (row.luma_y >= cd.max_y && !cd.to_the_end) {
        } else if row.skip || row.luma_y < cd.min_y {
            lemma_band_row_passed(data, wd, cd, we, ce, images, index);
            lemma_band_round_trip(data, wd, cd, we, ce, images, index + 1);
        } else {
            let next_e = band_row_encoded(we, ce, images, row).unwrap();
            lemma_band_row_narrows(we, ce, images, row);
            lemma_band_narrows(next_e, ce, images, index + 1);
            lemma_band_row_round_trip(data, wd, cd, we, ce, images, index);
            let next_d = band_row_decoded(data, wd, cd, row).unwrap();
            lemma_band_round_trip(data, next_d, cd, next_e, ce, images, index + 1);
        }
    }
}

/// Whether the step `index` of the coding order lies before the band: its
/// row is passed over, and the coding of the band goes on after it.
pub open spec fn passed_over(cfg: BandSetting, index: int) -> bool {
    let row = row_spec_of(index, cfg.heights, cfg.mcu_count_vertical, cfg.max_coded_heights);
    &&& 0 <= index <= last_index(cfg)
    &&& !row.done
    &&& !(row.luma_y >= cfg.max_y && !cfg.to_the_end)
    &&& row.skip || row.luma_y < cfg.min_y
}

/// Steps that are passed over change nothing for the encoder.
pub proof fn lemma_encoder_passes(
    w: PutBandWork,
    cfg: BandSetting,
    images: Seq<Seq<Seq<i16>>>,
    index: int,
    first: int,
)
    requires
        0 <= index <= first,
        forall|j: int| index <= j < first ==> passed_over(cfg, j),
    ensures
        band_put_from(w, cfg, images, index) == band_put_from(w, cfg, images, first),
    decreases first - index,
{
    if index < first {
        assert(passed_over(cfg, index));
        lemma_encoder_passes(w, cfg, images, index + 1, first);
    }
}

/// Steps that are passed over change nothing for the decoder.
pub proof fn lemma_decoder_passes(
    data: Seq<u8>,
    w: BandWork,
    cfg: BandSetting,
    index: int,
    first: int,
)
    requires
        0 <= index <= first,
        forall|j: int| index <= j < first ==> passed_over(cfg, j),
    ensures
        band_from(data, w, cfg, index) == band_from(data, w, cfg, first),
    decreases first - index,
{
    if index < first {
        assert(passed_over(cfg, index));
        lemma_decoder_passes(data, w, cfg, index + 1, first);
    }
}

/// Whether the images `fresh` can take the band that begins at the step
/// `first` of the coding order of the images `coded`: they are empty and
/// as wide and as high as those, each begins at the first row of its
/// component that the band codes, and has room for the rows to code, which
/// lie within the component.
pub open spec fn takes_band(
    fresh: Seq<BlockBasedImage>,
    coded: Seq<BlockBasedImage>,
    cfg: BandSetting,
    first: int,
) -> bool {
    &&& fresh.len() == coded.len()
    &&& forall|c: int|
        0 <= c < coded.len() ==> {
            let width = (#[trigger] fresh[c]).block_width() as int;
            let rows = cfg.max_coded_heights[c] as int;
            &&& width == coded[c].block_width()
            &&& fresh[c].original_height() == coded[c].original_height()
            &&& fresh[c].coefficients().len() == 0
            &&& fresh[c].dpos_offset() == width * coded_rows(cfg, first, c)
            &&& 0 <= rows
            &&& width * rows <= cfg.component_sizes_in_blocks[c]
            &&& width * rows <= fresh[c].dpos_offset() + fresh[c].capacity()
        }
}

/// A band that is encoded into a stream of its own is read back from that
/// stream. Where the band begins at the step `first` of the coding order,
/// all steps before it being passed over, and the encoder codes the band
/// of the images `coded` without an error, the decoder reads the stream
/// that the encoder ends into the images `fresh` without an error, and
/// then holds, of every component, a copy of the rows of the band.
pub proof fn lemma_band_comes_back(
    pts: ProbabilityTablesSet,
    qt: Seq<QuantizationTables>,
    trunc: TruncateComponents,
    coded: Seq<BlockBasedImage>,
    fresh: Seq<BlockBasedImage>,
    min_y: i32,
    max_y: i32,
    to_the_end: bool,
    features: EnabledFeatures,
    first: int,
)
    requires
        pts.wf(),
        band_codable(qt, trunc, coded),
        band_ready(qt, trunc, fresh),
        takes_band(
            fresh,
            coded,
            band_setting_of(pts, qt, trunc, coded, min_y, max_y, to_the_end, features),
            first,
        ),
        0 <= first,
        forall|j: int|
            0 <= j < first ==> passed_over(
                band_setting_of(pts, qt, trunc, coded, min_y, max_y, to_the_end, features),
                j,
            ),
        min_y <= rows_before(
            first,
            Seq::new(coded.len(), |i: int| coded[i].original_height()),
            trunc.mcu_count_vertical as int,
            0,
        ),
        band_put_from(
            put_band_start(coded),
            band_setting_of(pts, qt, trunc, coded, min_y, max_y, to_the_end, features),
            images_view(coded),
            0,
        ).is_ok(),
    ensures
        ({
            let ce = band_setting_of(pts, qt, trunc, coded, min_y, max_y, to_the_end, features);
            let cd = band_setting_of(pts, qt, trunc, fresh, min_y, max_y, to_the_end, features);
            let written = band_put_from(put_band_start(coded), ce, images_view(coded), 0).unwrap();
            let data = flushed(written.coder, 32).buffer;
            let read = band_from(data, band_start(data, fresh), cd, 0);
            &&& read.is_ok()
            &&& band_in_step(
                data,
                read.unwrap(),
                cd,
                written,
                ce,
                images_view(coded),
                band_end(cd, first),
            )
        }),
{
    let ce = band_setting_of(pts, qt, trunc, coded, min_y, max_y, to_the_end, features);
    let cd = band_setting_of(pts, qt, trunc, fresh, min_y, max_y, to_the_end, features);
    let images = images_view(coded);
    let start_e = put_band_start(coded);
    let written = band_put_from(start_e, ce, images, 0).unwrap();
    let data = flushed(written.coder, 32).buffer;
    let start_d = band_start(data, fresh);
    assert(cd.block_widths =~= ce.block_widths);
    assert(cd.heights =~= ce.heights);
    assert(cd == BandSetting { offsets: cd.offsets, capacities: cd.capacities, ..ce });
    assert(start_d.caches =~= start_e.caches);
    assert(start_d.is_top_row =~= start_e.is_top_row);
    assert forall|j: int| 0 <= j < first implies passed_over(cd, j) by {
        assert(passed_over(ce, j));
    }
    lemma_encoder_passes(start_e, ce, images, 0, first);
    lemma_decoder_passes(data, start_d, cd, 0, first);
    // the marker bit
    lemma_tracks_at_start(data);
    let first_e = VPXBoolWriter::initial_state();
    let first_d = VPXBoolReader::initial_state();
    lemma_put_narrows(first_e, probability_of(0x0101), false);
    lemma_band_narrows(start_e, ce, images, 0);
    lemma_finished_stream(written.coder);
    lemma_decoding_follows(data, first_d, first_e, probability_of(0x0101), false);
    lemma_fresh_model_shaped();
    assert forall|c: int| 0 <= c < images.len() implies #[trigger] component_fit(cd, c) by {
        assert(qt[c].derived());
        assert(1 <= fresh[c].block_width());
    }
    assert forall|c: int| 0 <= c < images.len() implies #[trigger] component_in_step(
        start_d,
        cd,
        start_e,
        ce.offsets[c],
        images[c],
        first,
        c,
    ) by {
        assert(1 <= fresh[c].block_width());
        assert forall|i: int| 0 <= i < images[c].len() implies (#[trigger] images[c][i]).len()
            == 64 by {
            coded[c].blocks()[i].lemma_len();
        }
    }
    lemma_band_round_trip(data, start_d, cd, start_e, ce, images, first);
}

} // verus!
