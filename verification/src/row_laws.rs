//! Why a row of blocks that is decoded is the row that was encoded.
//!
//! The encoder reads the blocks of a row and their neighbours from an image
//! that is complete; the decoder appends what it reads to an image that
//! grows. As long as the decoder holds a copy of the encoder's blocks up to
//! the block in turn, both see the same neighbours, and the decoder reads
//! the block that the encoder codes.

use crate::block_based_image::block_in;
use crate::block_context::{neighbors_at, BlockContext};
use crate::codec_laws::{
    lemma_block_narrows, lemma_block_round_trip, narrows, setting_valid,
};
use crate::coder_laws::{sound, tracks, within};
use crate::consts::FREQ_MAX;
use crate::lepton_decoder::{
    has_all, row_decoded, row_end_decoded, row_fits, row_from, setting_of, stepped,
    token_decoded, RowSetting, RowShape, RowWork,
};
use crate::lepton_encoder::{
    row_encoded, row_end_encoded, row_put_from, token_encoded, token_setting, PutRowSetting,
    PutRowWork,
};
use crate::model::model_shaped;
use crate::probability_tables::ProbabilityTables;
use crate::quantization_tables::{edge_position, lemma_noise_threshold_small};
use vstd::prelude::*;

verus! {

/// Whether a decoder and an encoder that work on a row are at the same
/// point: the decoder is where the encoder is, with a model and a cache of
/// summaries in the same state and the cursor at the same block; the
/// decoder has room for a block, and holds a copy of the blocks of the
/// encoder from the first position it holds up to the block in turn.
pub open spec fn row_in_step(
    data: Seq<u8>,
    wd: RowWork,
    rd: RowSetting,
    we: PutRowWork,
    re: PutRowSetting,
) -> bool {
    &&& sound(we.coder)
    &&& tracks(data, wd.coder, we.coder)
    &&& wd.model == we.model
    &&& model_shaped(we.model)
    &&& wd.cache == we.cache
    &&& wd.context == we.context
    &&& rd.qt == re.qt
    &&& rd.features == re.features
    &&& rd.qt.derived()
    &&& rd.offset + wd.coefficients.len() == wd.context.cur_block_index
    &&& forall|p: int|
        rd.offset <= p < rd.offset + wd.coefficients.len() ==> #[trigger] block_in(
            rd.offset,
            wd.coefficients,
            p,
        ) == block_in(re.offset, re.coefficients, p)
    &&& forall|i: int| 0 <= i < re.coefficients.len() ==> (#[trigger] re.coefficients[i]).len() == 64
    &&& forall|i: int| 0 <= i < wd.coefficients.len() ==> (#[trigger] wd.coefficients[i]).len() == 64
}

/// Whether the decoder holds the block above the block in turn, and the
/// one above to the left of it, where the tables call for them.
pub open spec fn holds_above(context: BlockContext, offset: int, pt: ProbabilityTables) -> bool {
    &&& pt.above_present() ==> offset <= context.above_block_index < context.cur_block_index
    &&& has_all(pt) ==> offset <= context.above_block_index - 1
    &&& pt.left_present() ==> offset <= context.cur_block_index - 1
}

/// Coding the block under the cursor narrows the interval.
pub proof fn lemma_token_narrows(
    w: PutRowWork,
    rs: PutRowSetting,
    pt: ProbabilityTables,
    all_present: bool,
)
    requires
        sound(w.coder),
        token_encoded(w, rs, pt, all_present).is_some(),
    ensures
        narrows(token_encoded(w, rs, pt, all_present).unwrap().coder, w.coder),
{
    reveal(token_encoded);
    lemma_block_narrows(
        w.coder,
        w.model,
        token_setting(w, rs, pt, all_present),
        block_in(rs.offset, rs.coefficients, w.context.cur_block_index as int),
    );
}

/// The tables of a component give noise thresholds of at most three.
proof fn lemma_thresholds(rs: RowSetting)
    requires
        rs.qt.derived(),
    ensures
        rs.qt.noise_thresholds().len() == 14,
        forall|i: int| 0 <= i < 14 ==> 0 <= #[trigger] rs.qt.noise_thresholds()[i] <= 3,
{
    assert forall|i: int| 0 <= i < 14 implies 0 <= #[trigger] rs.qt.noise_thresholds()[i] <= 3 by {
        assert(1 <= FREQ_MAX[i] <= 1020);
        lemma_noise_threshold_small(
            rs.qt.table()[edge_position(i)] as int,
            FREQ_MAX[i] as int,
        );
    }
}

/// The block under the cursor that is coded is read back and appended, and
/// leaves the same summary in the cache.
pub proof fn lemma_token_round_trip(
    data: Seq<u8>,
    wd: RowWork,
    rd: RowSetting,
    we: PutRowWork,
    re: PutRowSetting,
    pt: ProbabilityTables,
    has_more: bool,
)
    requires
        row_in_step(data, wd, rd, we, re),
        holds_above(wd.context, rd.offset, pt),
        wd.coefficients.len() < rd.capacity,
        0 <= wd.context.cur_num_non_zeros_index < wd.cache.len(),
        wd.context.cur_block_index < i32::MAX,
        token_encoded(we, re, pt, has_all(pt)).is_some(),
        within(data, token_encoded(we, re, pt, has_all(pt)).unwrap().coder),
    ensures
        token_decoded(data, wd, rd, pt, has_all(pt)).is_some(),
        row_in_step(
            data,
            RowWork {
                context: stepped(wd.context, has_more),
                ..token_decoded(data, wd, rd, pt, has_all(pt)).unwrap()
            },
            rd,
            PutRowWork {
                context: stepped(we.context, has_more),
                ..token_encoded(we, re, pt, has_all(pt)).unwrap()
            },
            re,
        ),
        token_decoded(data, wd, rd, pt, has_all(pt)).unwrap().coefficients
            == wd.coefficients.push(
            block_in(re.offset, re.coefficients, wd.context.cur_block_index as int),
        ),
        token_decoded(data, wd, rd, pt, has_all(pt)).unwrap().context == wd.context,
        token_decoded(data, wd, rd, pt, has_all(pt)).unwrap().cache.len() == wd.cache.len(),
        token_encoded(we, re, pt, has_all(pt)).unwrap().context == we.context,
{
    reveal(token_encoded);
    reveal(token_decoded);
    let all_present = has_all(pt);
    let cur = wd.context.cur_block_index as int;
    let here = block_in(re.offset, re.coefficients, cur);
    let c = token_setting(we, re, pt, all_present);
    lemma_thresholds(rd);
    // both see the same neighbours
    let seen = neighbors_at(
        wd.context,
        rd.offset,
        wd.coefficients,
        wd.cache,
        pt.uses_left(all_present),
        pt.uses_above(all_present),
        all_present,
    );
    assert(seen == c.neighbors) by {
        if all_present {
            assert(block_in(rd.offset, wd.coefficients, wd.context.above_block_index - 1)
                == block_in(re.offset, re.coefficients, wd.context.above_block_index - 1));
        }
        if pt.uses_above(all_present) {
            assert(block_in(rd.offset, wd.coefficients, wd.context.above_block_index as int)
                == block_in(re.offset, re.coefficients, wd.context.above_block_index as int));
        }
        if pt.uses_left(all_present) {
            assert(block_in(rd.offset, wd.coefficients, cur - 1) == block_in(
                re.offset,
                re.coefficients,
                cur - 1,
            ));
        }
    }
    assert(setting_of(pt, all_present, seen, rd.qt, rd.features) == c);
    assert(setting_valid(c));
    assert(here.len() == 64);
    lemma_block_round_trip(data, wd.coder, we.coder, we.model, c, here);
    let read = token_decoded(data, wd, rd, pt, all_present).unwrap();
    let grown = wd.coefficients.push(here);
    assert(read.coefficients == grown);
    assert forall|p: int| rd.offset <= p < rd.offset + grown.len() implies #[trigger] block_in(
        rd.offset,
        grown,
        p,
    ) == block_in(re.offset, re.coefficients, p) by {
        if p < rd.offset + wd.coefficients.len() {
            assert(block_in(rd.offset, wd.coefficients, p) == block_in(
                re.offset,
                re.coefficients,
                p,
            ));
            assert(grown[p - rd.offset] == wd.coefficients[p - rd.offset]);
        }
    }
}

/// Whether one of the three kinds of place in a row looks at the row above.
pub open spec fn looks_above(shape: RowShape) -> bool {
    shape.left.above_present() || shape.middle.above_present() || shape.right.above_present()
}

/// Whether a decoder that holds `held` blocks from the position `offset` on
/// can take a row of the shape `shape` from `context` on: the row fits into
/// the cache and into the room for blocks, only the first block of it may
/// be without a left neighbour, and the decoder holds the row above where
/// a place in the row looks at it.
pub open spec fn row_ready(
    context: BlockContext,
    rd: RowSetting,
    held: int,
    cache_len: int,
    shape: RowShape,
) -> bool {
    &&& row_fits(context, shape.block_width, cache_len)
    &&& held + shape.block_width <= rd.capacity
    &&& holds_above(context, rd.offset, shape.left)
    &&& looks_above(shape) ==> rd.offset <= context.above_block_index < context.cur_block_index
}

/// Whether the rest of a row, from the block `x` on, can be taken.
spec fn rest_ready(
    context: BlockContext,
    rd: RowSetting,
    held: int,
    cache_len: int,
    shape: RowShape,
    x: int,
) -> bool {
    &&& 1 <= x
    &&& x < shape.block_width || shape.block_width <= 1
    &&& row_fits(context, shape.block_width - x, cache_len)
    &&& held + shape.block_width - x <= rd.capacity
    &&& rd.offset < context.cur_block_index
    &&& looks_above(shape) ==> rd.offset < context.above_block_index < context.cur_block_index
}

/// Coding the last block of a row narrows the interval.
proof fn lemma_row_end_narrows(w: PutRowWork, rs: PutRowSetting, shape: RowShape)
    requires
        sound(w.coder),
        row_end_encoded(w, rs, shape).is_some(),
    ensures
        narrows(row_end_encoded(w, rs, shape).unwrap().coder, w.coder),
{
    reveal(row_end_encoded);
    if shape.block_width > 1 {
        lemma_token_narrows(w, rs, shape.right, has_all(shape.right));
    }
}

/// Coding the rest of a row narrows the interval.
proof fn lemma_row_from_narrows(w: PutRowWork, rs: PutRowSetting, shape: RowShape, x: int)
    requires
        sound(w.coder),
        row_put_from(w, rs, shape, x).is_some(),
    ensures
        narrows(row_put_from(w, rs, shape, x).unwrap().coder, w.coder),
    decreases shape.block_width - x,
{
    reveal(row_put_from);
    if x < 1 || x >= shape.block_width - 1 {
        lemma_row_end_narrows(w, rs, shape);
    } else {
        lemma_token_narrows(w, rs, shape.middle, has_all(shape.middle));
        let t = token_encoded(w, rs, shape.middle, has_all(shape.middle)).unwrap();
        let next = PutRowWork { context: stepped(t.context, true), ..t };
        if next.context.cur_block_index < shape.component_size_in_blocks {
            lemma_row_from_narrows(next, rs, shape, x + 1);
        }
    }
}

/// Coding a row narrows the interval.
pub proof fn lemma_row_narrows(w: PutRowWork, rs: PutRowSetting, shape: RowShape)
    requires
        sound(w.coder),
        row_encoded(w, rs, shape).is_some(),
    ensures
        narrows(row_encoded(w, rs, shape).unwrap().coder, w.coder),
{
    reveal(row_encoded);
    if shape.block_width > 0 {
        lemma_token_narrows(w, rs, shape.left, has_all(shape.left));
        let t = token_encoded(w, rs, shape.left, has_all(shape.left)).unwrap();
        let next = PutRowWork { context: stepped(t.context, true), ..t };
        if next.context.cur_block_index < shape.component_size_in_blocks {
            lemma_row_from_narrows(next, rs, shape, 1);
        }
    }
}

/// How many blocks of a row are still to code before the block `x` of it.
spec fn blocks_left(shape: RowShape, x: int) -> int {
    if shape.block_width > 1 {
        shape.block_width - x
    } else {
        0
    }
}

/// Coding the block under the cursor leaves the cursor where it is and the
/// cache as long as it is.
proof fn lemma_token_extent(
    w: PutRowWork,
    rs: PutRowSetting,
    pt: ProbabilityTables,
    all_present: bool,
)
    requires
        0 <= w.context.cur_num_non_zeros_index < w.cache.len(),
        token_encoded(w, rs, pt, all_present).is_some(),
    ensures
        token_encoded(w, rs, pt, all_present).unwrap().context == w.context,
        token_encoded(w, rs, pt, all_present).unwrap().cache.len() == w.cache.len(),
{
    reveal(token_encoded);
}

/// Coding the rest of a row that lies within its component moves the
/// cursor to the end of the row.
proof fn lemma_row_from_extent(w: PutRowWork, rs: PutRowSetting, shape: RowShape, x: int)
    requires
        1 <= x,
        x < shape.block_width || shape.block_width <= 1,
        w.context.cur_block_index + blocks_left(shape, x) <= shape.component_size_in_blocks,
        0 <= w.context.cur_block_index,
        w.context.cur_block_index + blocks_left(shape, x) < i32::MAX,
        0 <= w.context.cur_num_non_zeros_index,
        w.context.cur_num_non_zeros_index + blocks_left(shape, x) <= w.cache.len(),
        w.context.cur_num_non_zeros_index + blocks_left(shape, x) < i32::MAX,
        row_put_from(w, rs, shape, x).is_some(),
    ensures
        row_put_from(w, rs, shape, x).unwrap().context.cur_block_index
            == w.context.cur_block_index + blocks_left(shape, x),
        row_put_from(w, rs, shape, x).unwrap().cache.len() == w.cache.len(),
    decreases shape.block_width - x,
{
    reveal(row_put_from);
    reveal(row_end_encoded);
    if x >= shape.block_width - 1 {
        if shape.block_width > 1 {
            lemma_token_extent(w, rs, shape.right, has_all(shape.right));
        }
    } else {
        lemma_token_extent(w, rs, shape.middle, has_all(shape.middle));
        let t = token_encoded(w, rs, shape.middle, has_all(shape.middle)).unwrap();
        let next = PutRowWork { context: stepped(t.context, true), ..t };
        lemma_row_from_extent(next, rs, shape, x + 1);
    }
}

/// Coding a row that lies within its component moves the cursor by the
/// width of the row, and leaves the cache as long as it is.
pub proof fn lemma_row_extent(w: PutRowWork, rs: PutRowSetting, shape: RowShape)
    requires
        1 <= shape.block_width,
        w.context.cur_block_index + shape.block_width <= shape.component_size_in_blocks,
        0 <= w.context.cur_block_index,
        w.context.cur_block_index + shape.block_width < i32::MAX,
        0 <= w.context.cur_num_non_zeros_index,
        w.context.cur_num_non_zeros_index + shape.block_width <= w.cache.len(),
        w.context.cur_num_non_zeros_index + shape.block_width < i32::MAX,
        row_encoded(w, rs, shape).is_some(),
    ensures
        row_encoded(w, rs, shape).unwrap().context.cur_block_index == w.context.cur_block_index
            + shape.block_width,
        row_encoded(w, rs, shape).unwrap().cache.len() == w.cache.len(),
{
    reveal(row_encoded);
    lemma_token_extent(w, rs, shape.left, has_all(shape.left));
    let t = token_encoded(w, rs, shape.left, has_all(shape.left)).unwrap();
    let next = PutRowWork { context: stepped(t.context, true), ..t };
    if next.context.cur_block_index < shape.component_size_in_blocks {
        lemma_row_from_extent(next, rs, shape, 1);
    }
}

/// The last block of a row that is coded is read back.
proof fn lemma_row_end_round_trip(
    data: Seq<u8>,
    wd: RowWork,
    rd: RowSetting,
    we: PutRowWork,
    re: PutRowSetting,
    shape: RowShape,
    x: int,
)
    requires
        row_in_step(data, wd, rd, we, re),
        rest_ready(wd.context, rd, wd.coefficients.len() as int, wd.cache.len() as int, shape, x),
        row_end_encoded(we, re, shape).is_some(),
        within(data, row_end_encoded(we, re, shape).unwrap().coder),
    ensures
        row_end_decoded(data, wd, rd, shape).is_some(),
        row_in_step(
            data,
            row_end_decoded(data, wd, rd, shape).unwrap(),
            rd,
            row_end_encoded(we, re, shape).unwrap(),
            re,
        ),
{
    reveal(row_end_encoded);
    reveal(row_end_decoded);
    if shape.block_width > 1 {
        lemma_token_round_trip(data, wd, rd, we, re, shape.right, false);
    }
}

/// The rest of a row that is coded is read back.
proof fn lemma_row_from_round_trip(
    data: Seq<u8>,
    wd: RowWork,
    rd: RowSetting,
    we: PutRowWork,
    re: PutRowSetting,
    shape: RowShape,
    x: int,
)
    requires
        row_in_step(data, wd, rd, we, re),
        rest_ready(wd.context, rd, wd.coefficients.len() as int, wd.cache.len() as int, shape, x),
        row_put_from(we, re, shape, x).is_some(),
        within(data, row_put_from(we, re, shape, x).unwrap().coder),
    ensures
        row_from(data, wd, rd, shape, x).is_some(),
        row_in_step(
            data,
            row_from(data, wd, rd, shape, x).unwrap(),
            rd,
            row_put_from(we, re, shape, x).unwrap(),
            re,
        ),
    decreases shape.block_width - x,
{
    reveal(row_put_from);
    reveal(row_from);
    if x >= shape.block_width - 1 {
        lemma_row_end_round_trip(data, wd, rd, we, re, shape, x);
    } else {
        let pt = shape.middle;
        let te = token_encoded(we, re, pt, has_all(pt)).unwrap();
        let next_e = PutRowWork { context: stepped(te.context, true), ..te };
        lemma_token_narrows(we, re, pt, has_all(pt));
        if next_e.context.cur_block_index < shape.component_size_in_blocks {
            lemma_row_from_narrows(next_e, re, shape, x + 1);
        }
        lemma_token_round_trip(data, wd, rd, we, re, pt, true);
        let td = token_decoded(data, wd, rd, pt, has_all(pt)).unwrap();
        let next_d = RowWork { context: stepped(td.context, true), ..td };
        if next_e.context.cur_block_index < shape.component_size_in_blocks {
            lemma_row_from_round_trip(data, next_d, rd, next_e, re, shape, x + 1);
        }
    }
}

/// A row that is coded is read back: where a decoder and an encoder are at
/// the same point before a row, and the stream lies in the interval that
/// the encoder has come to after the row, the decoder reads the row
/// without an error, and the two are at the same point after it. So the
/// decoder has appended the blocks of the row as the encoder holds them.
pub proof fn lemma_row_round_trip(
    data: Seq<u8>,
    wd: RowWork,
    rd: RowSetting,
    we: PutRowWork,
    re: PutRowSetting,
    shape: RowShape,
)
    requires
        row_in_step(data, wd, rd, we, re),
        row_ready(wd.context, rd, wd.coefficients.len() as int, wd.cache.len() as int, shape),
        row_encoded(we, re, shape).is_some(),
        within(data, row_encoded(we, re, shape).unwrap().coder),
    ensures
        row_decoded(data, wd, rd, shape).is_some(),
        row_in_step(
            data,
            row_decoded(data, wd, rd, shape).unwrap(),
            rd,
            row_encoded(we, re, shape).unwrap(),
            re,
        ),
{
    reveal(row_encoded);
    reveal(row_decoded);
    if shape.block_width > 0 {
        let pt = shape.left;
        let te = token_encoded(we, re, pt, has_all(pt)).unwrap();
        let next_e = PutRowWork { context: stepped(te.context, true), ..te };
        lemma_token_narrows(we, re, pt, has_all(pt));
        if next_e.context.cur_block_index < shape.component_size_in_blocks {
            lemma_row_from_narrows(next_e, re, shape, 1);
        }
        lemma_token_round_trip(data, wd, rd, we, re, pt, true);
        let td = token_decoded(data, wd, rd, pt, has_all(pt)).unwrap();
        let next_d = RowWork { context: stepped(td.context, true), ..td };
        if next_e.context.cur_block_index < shape.component_size_in_blocks {
            lemma_row_from_round_trip(data, next_d, rd, next_e, re, shape, 1);
        }
    }
}

} // verus!
