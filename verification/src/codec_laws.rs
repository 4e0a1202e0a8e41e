//! Why a block that is decoded is the block that was encoded.
//!
//! Every way of coding a value with the cells of the model pairs with a way
//! of reading one. A decoder that is where the encoder was before the value,
//! with cells in the same states, reads the value back from any stream that
//! lies in the interval of the encoder afterwards, and is then where the
//! encoder is, with cells in the same states again.

use crate::block_based_image::{
    ac_in_range, inner_non_zeros, is_inner, lemma_inner_non_zeros_bounds, zero_block,
};
use crate::branch::{after_bit, probability_of};
use crate::coder_laws::{
    lemma_decoding_follows, lemma_finished_stream, lemma_put_meaning, lemma_tracks_at_start,
    lemma_within_before, sound, tracks, within,
};
use crate::consts::{lemma_bins_bounded, MAX_EXPONENT, NON_ZERO_TO_BIN_7X7, UNZIGZAG_49_TR};
use crate::helpers::{
    bit_length, lemma_two_to_grows, lemma_two_to_product, lemma_two_to_values, two_to,
};
use crate::lepton_decoder::{
    announced_count, block_decoded, color_of, context_bin_of, edge_decoded, edge_from,
    edges_decoded, end_of_block_x, end_of_block_y, inner_decoded, inner_from, lemma_end_of_block,
    neighbors_in_range, summary_view_of, with_coefficient, BlockSetting, BlockWork,
};
use crate::lepton_encoder::{
    ac_encoded, block_codable, block_encoded, coefficient_put, dc_difference_of, dc_prediction_of,
    edge_encoded, edge_non_zeros, edge_put_from, inner_put_from, PutWork,
};
use crate::model::{
    at_most, dc_difference, dc_put, edge_coef, edge_count_index, edge_put, exp7x7_index,
    exp_edge_index, fresh_model, inner_coef, inner_put, leading_digits, leading_digits_put,
    length_sign_coef, length_sign_put, model_shaped, non_zero_7x7_count, non_zero_7x7_put,
    non_zero_edge_count, non_zero_edge_put, NUMERIC_LENGTH_MAX, per_color_shaped, sign_index,
    ModelState, PerColorState,
};
use crate::probability_tables::{horizontal_current, magnitude, vertical_current};
use crate::vpx_bool_reader::{
    after_decoding, bits_from, grid_from, unary_from, CoderState, VPXBoolReader,
};
use crate::vpx_bool_writer::{
    after_putting, bits_put, flushed, grid_put, unary_put, EncoderState, VPXBoolWriter,
};
use vstd::arithmetic::div_mod::{
    lemma_div_denominator, lemma_fundamental_div_mod, lemma_fundamental_div_mod_converse,
};
use vstd::prelude::*;

verus! {

/// Whether the interval of the encoder `later` lies within the interval of
/// the encoder `earlier`: every stream in the one is in the other.
pub open spec fn narrows(later: EncoderState, earlier: EncoderState) -> bool {
    &&& sound(later)
    &&& forall|data: Seq<u8>| #[trigger] within(data, later) ==> within(data, earlier)
}

/// Coding a bit narrows the interval.
pub proof fn lemma_put_narrows(e: EncoderState, probability: u8, bit: bool)
    requires
        sound(e),
    ensures
        narrows(after_putting(e, probability, bit), e),
{
    lemma_put_meaning(e, probability, bit);
    assert forall|data: Seq<u8>| #[trigger]
        within(data, after_putting(e, probability, bit)) implies within(data, e) by {
        lemma_within_before(data, e, probability, bit);
    }
}

/// The last `n` digits of a number are its `n`-th digit from the end
/// followed by its last `n - 1` digits.
pub proof fn lemma_low_digits(x: int, n: int)
    requires
        0 <= x,
        1 <= n,
    ensures
        x % two_to(n) == ((x / two_to(n - 1)) % 2) * two_to(n - 1) + x % two_to(n - 1),
        0 <= x % two_to(n) < two_to(n),
{
    let h = two_to(n - 1);
    lemma_two_to_grows(n, n);
    lemma_two_to_grows(0, n - 1);
    let q = x / h;
    let r = x % h;
    lemma_fundamental_div_mod(x, h);
    lemma_fundamental_div_mod(q, 2);
    let top = q / 2;
    let b = q % 2;
    assert(x == top * (2 * h) + (b * h + r)) by (nonlinear_arith)
        requires
            x == h * q + r,
            q == 2 * top + b,
    ;
    assert(0 <= b * h + r < 2 * h) by (nonlinear_arith)
        requires
            0 <= b <= 1,
            0 <= r < h,
    ;
    lemma_fundamental_div_mod_converse(x, 2 * h, top, b * h + r);
}

/// Dropping `a` digits and then `b` digits drops `a + b` digits.
pub proof fn lemma_drop_digits(x: int, a: int, b: int)
    requires
        0 <= x,
        0 <= a,
        0 <= b,
    ensures
        (x / two_to(a)) / two_to(b) == x / two_to(a + b),
        0 <= x / two_to(a),
{
    lemma_two_to_grows(0, a);
    lemma_two_to_grows(0, b);
    lemma_two_to_product(a, a + b);
    lemma_div_denominator(x, two_to(a), two_to(b));
    let f = two_to(a);
    assert(0 <= x / f) by (nonlinear_arith)
        requires
            0 <= x,
            f > 0,
    ;
}

/// Coding a number in unary narrows the interval.
pub proof fn lemma_unary_narrows(e: EncoderState, cells: Seq<u16>, a: int, v: int, i: int)
    requires
        sound(e),
    ensures
        narrows(unary_put(e, cells, a, v, i).0, e),
    decreases v - i + 1,
{
    if !(i > v || i >= a || i < 0) {
        let p = probability_of(cells[i]);
        lemma_put_narrows(e, p, i < v);
        if i < v {
            lemma_unary_narrows(
                after_putting(e, p, true),
                cells.update(i, after_bit(cells[i], true)),
                a,
                v,
                i + 1,
            );
        }
    }
}

/// A number coded in unary is read back.
pub proof fn lemma_unary_round_trip(
    data: Seq<u8>,
    d: CoderState,
    e: EncoderState,
    cells: Seq<u16>,
    a: int,
    v: int,
    i: int,
)
    requires
        sound(e),
        tracks(data, d, e),
        0 <= i <= v <= a,
        within(data, unary_put(e, cells, a, v, i).0),
    ensures
        unary_from(data, d, cells, a, i).0 == v,
        unary_from(data, d, cells, a, i).2 == unary_put(e, cells, a, v, i).1,
        tracks(data, unary_from(data, d, cells, a, i).1, unary_put(e, cells, a, v, i).0),
    decreases v - i + 1,
{
    if i < a {
        let p = probability_of(cells[i]);
        let e1 = after_putting(e, p, i < v);
        let updated = cells.update(i, after_bit(cells[i], i < v));
        lemma_put_narrows(e, p, i < v);
        if i < v {
            lemma_unary_narrows(e1, updated, a, v, i + 1);
        }
        lemma_decoding_follows(data, d, e, p, i < v);
        if i < v {
            lemma_unary_round_trip(data, after_decoding(data, d, p), e1, updated, a, v, i + 1);
        }
    }
}

/// Coding digits narrows the interval.
pub proof fn lemma_bits_narrows(e: EncoderState, cells: Seq<u16>, bits: int, n: int)
    requires
        sound(e),
    ensures
        narrows(bits_put(e, cells, bits, n).0, e),
    decreases n,
{
    if n > 0 {
        let bit = (bits / two_to(n - 1)) % 2 == 1;
        let p = probability_of(cells[n - 1]);
        lemma_put_narrows(e, p, bit);
        lemma_bits_narrows(
            after_putting(e, p, bit),
            cells.update(n - 1, after_bit(cells[n - 1], bit)),
            bits,
            n - 1,
        );
    }
}

/// The digits that are coded are read back, after the digits read before.
pub proof fn lemma_bits_round_trip(
    data: Seq<u8>,
    d: CoderState,
    e: EncoderState,
    cells: Seq<u16>,
    bits: int,
    n: int,
    sofar: int,
)
    requires
        sound(e),
        tracks(data, d, e),
        0 <= n,
        0 <= bits,
        within(data, bits_put(e, cells, bits, n).0),
    ensures
        bits_from(data, d, cells, n, sofar).0 == sofar * two_to(n) + bits % two_to(n),
        bits_from(data, d, cells, n, sofar).2 == bits_put(e, cells, bits, n).1,
        tracks(data, bits_from(data, d, cells, n, sofar).1, bits_put(e, cells, bits, n).0),
    decreases n,
{
    if n > 0 {
        let bit = (bits / two_to(n - 1)) % 2 == 1;
        let p = probability_of(cells[n - 1]);
        let e1 = after_putting(e, p, bit);
        let updated = cells.update(n - 1, after_bit(cells[n - 1], bit));
        lemma_put_narrows(e, p, bit);
        lemma_bits_narrows(e1, updated, bits, n - 1);
        lemma_decoding_follows(data, d, e, p, bit);
        let b = if bit {
            1int
        } else {
            0int
        };
        lemma_bits_round_trip(
            data,
            after_decoding(data, d, p),
            e1,
            updated,
            bits,
            n - 1,
            2 * sofar + b,
        );
        lemma_low_digits(bits, n);
        lemma_two_to_grows(n, n);
        let h = two_to(n - 1);
        let low = bits % h;
        assert((2 * sofar + b) * h + low == sofar * (2 * h) + (b * h + low)) by (nonlinear_arith);
    } else {
        assert(two_to(0) == 1);
        assert(bits % 1 == 0);
    }
}

/// Coding a value along a path of a tree narrows the interval.
pub proof fn lemma_grid_narrows(e: EncoderState, cells: Seq<u16>, v: int, node: int, remaining: int)
    requires
        sound(e),
    ensures
        narrows(grid_put(e, cells, v, node, remaining).0, e),
    decreases remaining,
{
    if remaining > 0 {
        let bit = (v / two_to(remaining - 1)) % 2 == 1;
        let p = probability_of(cells[node]);
        lemma_put_narrows(e, p, bit);
        lemma_grid_narrows(
            after_putting(e, p, bit),
            cells.update(node, after_bit(cells[node], bit)),
            v,
            2 * node + if bit {
                1int
            } else {
                0int
            },
            remaining - 1,
        );
    }
}

/// A value coded along a path of a tree of two to the power `m` cells is
/// read back: from a node that `remaining` turns separate from the leaves,
/// the walk ends at the leaf that the last `remaining` digits of the value
/// lead to.
pub proof fn lemma_grid_round_trip(
    data: Seq<u8>,
    d: CoderState,
    e: EncoderState,
    cells: Seq<u16>,
    v: int,
    node: int,
    remaining: int,
    m: int,
)
    requires
        sound(e),
        tracks(data, d, e),
        0 <= remaining <= m,
        0 <= v,
        two_to(m - remaining) <= node < two_to(m - remaining + 1),
        within(data, grid_put(e, cells, v, node, remaining).0),
    ensures
        grid_from(data, d, cells, two_to(m), node).0 == node * two_to(remaining) + v % two_to(
            remaining,
        ) - two_to(m),
        grid_from(data, d, cells, two_to(m), node).2 == grid_put(e, cells, v, node, remaining).1,
        tracks(
            data,
            grid_from(data, d, cells, two_to(m), node).1,
            grid_put(e, cells, v, node, remaining).0,
        ),
    decreases remaining,
{
    lemma_two_to_grows(0, m - remaining);
    lemma_two_to_grows(m - remaining + 1, m - remaining + 1);
    if remaining > 0 {
        lemma_two_to_grows(m - remaining + 1, m);
        let bit = (v / two_to(remaining - 1)) % 2 == 1;
        let b = if bit {
            1int
        } else {
            0int
        };
        let p = probability_of(cells[node]);
        let e1 = after_putting(e, p, bit);
        let updated = cells.update(node, after_bit(cells[node], bit));
        lemma_put_narrows(e, p, bit);
        lemma_grid_narrows(e1, updated, v, 2 * node + b, remaining - 1);
        lemma_decoding_follows(data, d, e, p, bit);
        lemma_two_to_grows(m - remaining + 2, m - remaining + 2);
        lemma_grid_round_trip(
            data,
            after_decoding(data, d, p),
            e1,
            updated,
            v,
            2 * node + b,
            remaining - 1,
            m,
        );
        lemma_low_digits(v, remaining);
        lemma_two_to_grows(remaining, remaining);
        let h = two_to(remaining - 1);
        let low = v % h;
        assert((2 * node + b) * h + low == node * (2 * h) + (b * h + low)) by (nonlinear_arith);
    } else {
        assert(two_to(0) == 1);
        assert(v % 1 == 0);
        assert(node * 1 == node);
    }
}

/// A number of `len` digits lies between two to the power `len - 1` and
/// two to the power `len`.
pub proof fn lemma_bit_length_bounds(v: int)
    requires
        0 <= v < 2048,
    ensures
        0 <= bit_length(v) <= 11,
        bit_length(v) == 0 <==> v == 0,
        v > 0 ==> two_to(bit_length(v) - 1) <= v < two_to(bit_length(v)),
{
    lemma_two_to_values();
}

/// Coding the leading digits of a magnitude narrows the interval.
pub proof fn lemma_leading_digits_narrows(
    e: EncoderState,
    cells: Seq<u16>,
    abs: int,
    i: int,
    floor: int,
    node: int,
)
    requires
        sound(e),
    ensures
        narrows(leading_digits_put(e, cells, abs, i, floor, node).0, e),
    decreases i - floor + 1,
{
    if i >= floor {
        let bit = (abs / two_to(i)) % 2 == 1;
        let b = if bit {
            1int
        } else {
            0int
        };
        let p = probability_of(cells[node]);
        lemma_put_narrows(e, p, bit);
        lemma_leading_digits_narrows(
            after_putting(e, p, bit),
            cells.update(node, after_bit(cells[node], bit)),
            abs,
            i - 1,
            floor,
            at_most(2 * node + b, cells.len() - 1),
        );
    }
}

/// The leading digits of a magnitude that are coded are read back, after
/// the digits read before.
pub proof fn lemma_leading_digits_round_trip(
    data: Seq<u8>,
    d: CoderState,
    e: EncoderState,
    cells: Seq<u16>,
    abs: int,
    i: int,
    floor: int,
    coef: int,
    node: int,
)
    requires
        sound(e),
        tracks(data, d, e),
        0 <= floor <= i + 1,
        0 <= abs,
        within(data, leading_digits_put(e, cells, abs, i, floor, node).0),
    ensures
        leading_digits(data, d, cells, i, floor, coef, node).0 == coef * two_to(i - floor + 1) + (
        abs / two_to(floor)) % two_to(i - floor + 1),
        leading_digits(data, d, cells, i, floor, coef, node).2 == leading_digits_put(
            e,
            cells,
            abs,
            i,
            floor,
            node,
        ).1,
        tracks(
            data,
            leading_digits(data, d, cells, i, floor, coef, node).1,
            leading_digits_put(e, cells, abs, i, floor, node).0,
        ),
    decreases i - floor + 1,
{
    if i >= floor {
        let bit = (abs / two_to(i)) % 2 == 1;
        let b = if bit {
            1int
        } else {
            0int
        };
        let p = probability_of(cells[node]);
        let e1 = after_putting(e, p, bit);
        let updated = cells.update(node, after_bit(cells[node], bit));
        let next = at_most(2 * node + b, cells.len() - 1);
        lemma_put_narrows(e, p, bit);
        lemma_leading_digits_narrows(e1, updated, abs, i - 1, floor, next);
        lemma_decoding_follows(data, d, e, p, bit);
        lemma_leading_digits_round_trip(
            data,
            after_decoding(data, d, p),
            e1,
            updated,
            abs,
            i - 1,
            floor,
            2 * coef + b,
            next,
        );
        let y = abs / two_to(floor);
        let n = i - floor + 1;
        lemma_drop_digits(abs, floor, i - floor);
        lemma_low_digits(y, n);
        lemma_two_to_grows(n, n);
        let h = two_to(n - 1);
        let low = y % h;
        assert((2 * coef + b) * h + low == coef * (2 * h) + (b * h + low)) by (nonlinear_arith);
    } else {
        assert(two_to(0) == 1);
        assert((abs / two_to(floor)) % 1 == 0);
        assert(coef * 1 == coef);
    }
}

/// Coding a signed value narrows the interval.
pub proof fn lemma_length_sign_narrows(
    e: EncoderState,
    exp: Seq<u16>,
    sign: u16,
    bits: Seq<u16>,
    coef: int,
)
    requires
        sound(e),
    ensures
        narrows(length_sign_put(e, exp, sign, bits, coef).0, e),
{
    let length = bit_length(magnitude(coef));
    lemma_unary_narrows(e, exp, exp.len() as int, length, 0);
    let (e1, exp1) = unary_put(e, exp, exp.len() as int, length, 0);
    if coef != 0 {
        lemma_put_narrows(e1, probability_of(sign), coef > 0);
        let e2 = after_putting(e1, probability_of(sign), coef > 0);
        lemma_bits_narrows(e2, bits, magnitude(coef), length - 1);
    }
}

/// What is read of a magnitude of `len` digits below its leading one,
/// together with the leading one, is the magnitude.
proof fn lemma_magnitude_from_digits(abs: int)
    requires
        0 < abs < 2048,
    ensures
        abs % two_to(bit_length(abs) - 1) + two_to(bit_length(abs) - 1) == abs,
{
    lemma_bit_length_bounds(abs);
    let len = bit_length(abs);
    let h = two_to(len - 1);
    lemma_two_to_grows(len, len);
    lemma_fundamental_div_mod_converse(abs, h, 1, abs - h);
}

/// A signed value that is coded is read back.
pub proof fn lemma_length_sign_round_trip(
    data: Seq<u8>,
    d: CoderState,
    e: EncoderState,
    exp: Seq<u16>,
    sign: u16,
    bits: Seq<u16>,
    coef: int,
)
    requires
        sound(e),
        tracks(data, d, e),
        exp.len() == 11,
        -2048 < coef < 2048,
        within(data, length_sign_put(e, exp, sign, bits, coef).0),
    ensures
        length_sign_coef(data, d, exp, sign, bits).0 == coef,
        length_sign_coef(data, d, exp, sign, bits).2 == length_sign_put(e, exp, sign, bits, coef).1,
        length_sign_coef(data, d, exp, sign, bits).3 == length_sign_put(e, exp, sign, bits, coef).2,
        length_sign_coef(data, d, exp, sign, bits).4 == length_sign_put(e, exp, sign, bits, coef).3,
        tracks(
            data,
            length_sign_coef(data, d, exp, sign, bits).1,
            length_sign_put(e, exp, sign, bits, coef).0,
        ),
{
    let abs = magnitude(coef);
    lemma_bit_length_bounds(abs);
    let length = bit_length(abs);
    let (e1, exp1) = unary_put(e, exp, 11, length, 0);
    lemma_unary_narrows(e, exp, 11, length, 0);
    if coef != 0 {
        let p = probability_of(sign);
        let e2 = after_putting(e1, p, coef > 0);
        lemma_put_narrows(e1, p, coef > 0);
        lemma_bits_narrows(e2, bits, abs, length - 1);
        lemma_unary_round_trip(data, d, e, exp, 11, length, 0);
        let d1 = unary_from(data, d, exp, 11, 0).1;
        lemma_decoding_follows(data, d1, e1, p, coef > 0);
        lemma_bits_round_trip(data, after_decoding(data, d1, p), e2, bits, abs, length - 1, 0);
        lemma_magnitude_from_digits(abs);
        assert(0 * two_to(length - 1) == 0);
    } else {
        lemma_unary_round_trip(data, d, e, exp, 11, length, 0);
    }
}

/// Coding a count of non-zero inner coefficients narrows the interval.
pub proof fn lemma_non_zero_7x7_narrows(e: EncoderState, m: PerColorState, bin: int, count: int)
    requires
        sound(e),
    ensures
        narrows(non_zero_7x7_put(e, m, bin, count).0, e),
{
    reveal(non_zero_7x7_put);
    lemma_grid_narrows(e, m.nz7x7[bin], count, 1, 6);
}

/// A count of non-zero inner coefficients that is coded is read back.
pub proof fn lemma_non_zero_7x7_round_trip(
    data: Seq<u8>,
    d: CoderState,
    e: EncoderState,
    m: PerColorState,
    bin: int,
    count: int,
)
    requires
        sound(e),
        tracks(data, d, e),
        0 <= count < 64,
        within(data, non_zero_7x7_put(e, m, bin, count).0),
    ensures
        non_zero_7x7_count(data, d, m, bin).0 == count,
        non_zero_7x7_count(data, d, m, bin).2 == non_zero_7x7_put(e, m, bin, count).1,
        tracks(data, non_zero_7x7_count(data, d, m, bin).1, non_zero_7x7_put(e, m, bin, count).0),
{
    reveal(non_zero_7x7_put);
    reveal(non_zero_7x7_count);
    lemma_two_to_values();
    lemma_grid_round_trip(data, d, e, m.nz7x7[bin], count, 1, 6, 6);
    assert(count % 64 == count);
}

/// Coding a count of non-zero edge coefficients narrows the interval.
pub proof fn lemma_non_zero_edge_narrows(
    e: EncoderState,
    m: PerColorState,
    horizontal: bool,
    eob: int,
    bin: int,
    count: int,
)
    requires
        sound(e),
    ensures
        narrows(non_zero_edge_put(e, m, horizontal, eob, bin, count).0, e),
{
    reveal(non_zero_edge_put);
    lemma_grid_narrows(e, m.edge_count[edge_count_index(horizontal, eob, bin)], count, 1, 3);
}

/// A count of non-zero edge coefficients that is coded is read back.
pub proof fn lemma_non_zero_edge_round_trip(
    data: Seq<u8>,
    d: CoderState,
    e: EncoderState,
    m: PerColorState,
    horizontal: bool,
    eob: int,
    bin: int,
    count: int,
)
    requires
        sound(e),
        tracks(data, d, e),
        0 <= count < 8,
        within(data, non_zero_edge_put(e, m, horizontal, eob, bin, count).0),
    ensures
        non_zero_edge_count(data, d, m, horizontal, eob, bin).0 == count,
        non_zero_edge_count(data, d, m, horizontal, eob, bin).2 == non_zero_edge_put(
            e,
            m,
            horizontal,
            eob,
            bin,
            count,
        ).1,
        tracks(
            data,
            non_zero_edge_count(data, d, m, horizontal, eob, bin).1,
            non_zero_edge_put(e, m, horizontal, eob, bin, count).0,
        ),
{
    reveal(non_zero_edge_put);
    reveal(non_zero_edge_count);
    lemma_two_to_values();
    lemma_grid_round_trip(
        data,
        d,
        e,
        m.edge_count[edge_count_index(horizontal, eob, bin)],
        count,
        1,
        3,
        3,
    );
    assert(count % 8 == count);
}

/// Coding an inner coefficient narrows the interval.
pub proof fn lemma_inner_narrows(
    e: EncoderState,
    m: PerColorState,
    zig49: int,
    bin: int,
    prior_len: int,
    coef: int,
)
    requires
        sound(e),
    ensures
        narrows(inner_put(e, m, zig49, bin, prior_len, coef).0, e),
{
    reveal(inner_put);
    lemma_length_sign_narrows(
        e,
        m.exp7x7[exp7x7_index(bin, zig49, prior_len)],
        m.sign[0],
        m.noise7x7[bin * 49 + zig49],
        coef,
    );
}

/// An inner coefficient that is coded is read back.
pub proof fn lemma_inner_round_trip(
    data: Seq<u8>,
    d: CoderState,
    e: EncoderState,
    m: PerColorState,
    zig49: int,
    bin: int,
    prior_len: int,
    coef: int,
)
    requires
        sound(e),
        tracks(data, d, e),
        per_color_shaped(m),
        0 <= zig49 < 49,
        0 <= bin < 9,
        0 <= prior_len < 12,
        -2048 < coef < 2048,
        within(data, inner_put(e, m, zig49, bin, prior_len, coef).0),
    ensures
        inner_coef(data, d, m, zig49, bin, prior_len).0 == coef,
        inner_coef(data, d, m, zig49, bin, prior_len).2 == inner_put(
            e,
            m,
            zig49,
            bin,
            prior_len,
            coef,
        ).1,
        tracks(
            data,
            inner_coef(data, d, m, zig49, bin, prior_len).1,
            inner_put(e, m, zig49, bin, prior_len, coef).0,
        ),
{
    reveal(inner_put);
    reveal(inner_coef);
    let x = exp7x7_index(bin, zig49, prior_len);
    assert(m.exp7x7[x].len() == 11);
    lemma_length_sign_round_trip(
        data,
        d,
        e,
        m.exp7x7[x],
        m.sign[0],
        m.noise7x7[bin * 49 + zig49],
        coef,
    );
}

/// Coding the difference of a DC coefficient narrows the interval.
pub proof fn lemma_dc_narrows(
    e: EncoderState,
    m: ModelState,
    color: int,
    uncertainty: int,
    uncertainty2: int,
    difference: int,
)
    requires
        sound(e),
    ensures
        narrows(dc_put(e, m, color, uncertainty, uncertainty2, difference).0, e),
{
    reveal(dc_put);
    let wide = at_most(bit_length(magnitude(uncertainty)), NUMERIC_LENGTH_MAX - 1);
    lemma_length_sign_narrows(
        e,
        m.exp_dc[wide * 17 + bit_length(magnitude(uncertainty2))],
        m.per_color[color].sign[sign_index(uncertainty2) + 1],
        m.noise_dc[wide],
        difference,
    );
}

/// The difference of a DC coefficient that is coded is read back.
pub proof fn lemma_dc_round_trip(
    data: Seq<u8>,
    d: CoderState,
    e: EncoderState,
    m: ModelState,
    color: int,
    uncertainty: int,
    uncertainty2: int,
    difference: int,
)
    requires
        sound(e),
        tracks(data, d, e),
        model_shaped(m),
        0 <= color < 2,
        -32768 <= uncertainty <= 32767,
        -32768 <= uncertainty2 <= 32767,
        -2048 < difference < 2048,
        within(data, dc_put(e, m, color, uncertainty, uncertainty2, difference).0),
    ensures
        dc_difference(data, d, m, color, uncertainty, uncertainty2).0 == difference,
        dc_difference(data, d, m, color, uncertainty, uncertainty2).2 == dc_put(
            e,
            m,
            color,
            uncertainty,
            uncertainty2,
            difference,
        ).1,
        tracks(
            data,
            dc_difference(data, d, m, color, uncertainty, uncertainty2).1,
            dc_put(e, m, color, uncertainty, uncertainty2, difference).0,
        ),
{
    reveal(dc_put);
    reveal(dc_difference);
    let wide = at_most(bit_length(magnitude(uncertainty)), NUMERIC_LENGTH_MAX - 1);
    let x = wide * 17 + bit_length(magnitude(uncertainty2));
    assert(0 <= bit_length(magnitude(uncertainty2)) <= 16);
    assert(m.exp_dc[x].len() == 11);
    lemma_length_sign_round_trip(
        data,
        d,
        e,
        m.exp_dc[x],
        m.per_color[color].sign[sign_index(uncertainty2) + 1],
        m.noise_dc[wide],
        difference,
    );
}

/// Coding an edge coefficient narrows the interval.
pub proof fn lemma_edge_narrows(
    e: EncoderState,
    m: PerColorState,
    floor: int,
    zig15: int,
    remaining: int,
    prior: int,
    coef: int,
)
    requires
        sound(e),
    ensures
        narrows(edge_put(e, m, floor, zig15, remaining, prior, coef).0, e),
{
    reveal(edge_put);
    let bin = remaining - 1;
    let prior_len = at_most(bit_length(magnitude(prior)), MAX_EXPONENT - 1);
    let x = exp_edge_index(bin, zig15, prior_len);
    let length = bit_length(magnitude(coef));
    lemma_unary_narrows(e, m.exp_edge[x], 11, length, 0);
    let (e1, exp) = unary_put(e, m.exp_edge[x], 11, length, 0);
    let m1 = PerColorState { exp_edge: m.exp_edge.update(x, exp), ..m };
    if coef != 0 {
        let g = sign_index(prior) * 12 + prior_len;
        lemma_put_narrows(e1, probability_of(m1.sign[g]), coef > 0);
        let e2 = after_putting(e1, probability_of(m1.sign[g]), coef > 0);
        let m2 = PerColorState { sign: m1.sign.update(g, after_bit(m1.sign[g], coef > 0)), ..m1 };
        let t = at_most((magnitude(prior) as u32 >> (floor as u32)) as int, 255) * 8 + at_most(
            length - floor,
            7,
        );
        lemma_leading_digits_narrows(e2, m2.threshold[t], magnitude(coef), length - 2, floor, 1);
        let e3 = if length - 2 >= floor {
            leading_digits_put(e2, m2.threshold[t], magnitude(coef), length - 2, floor, 1).0
        } else {
            e2
        };
        let cells = if length - 2 >= floor {
            leading_digits_put(e2, m2.threshold[t], magnitude(coef), length - 2, floor, 1).1
        } else {
            m2.threshold[t]
        };
        let m3 = if length - 2 >= floor {
            PerColorState { threshold: m2.threshold.update(t, cells), ..m2 }
        } else {
            m2
        };
        let low_digits = if length - 2 >= floor {
            floor
        } else {
            length - 1
        };
        lemma_bits_narrows(e3, m3.noise_edge[bin * 14 + zig15], magnitude(coef), low_digits);
    }
}

/// The leading digits of a magnitude above its last `floor` digits, with
/// the leading one, followed by its last `floor` digits, are the magnitude.
proof fn lemma_magnitude_from_parts(abs: int, floor: int)
    requires
        0 < abs < 2048,
        0 <= floor,
        bit_length(abs) - 2 >= floor,
    ensures
        (two_to(bit_length(abs) - 1 - floor) + (abs / two_to(floor)) % two_to(
            bit_length(abs) - 1 - floor,
        )) * two_to(floor) + abs % two_to(floor) == abs,
        0 <= abs % two_to(floor),
{
    lemma_bit_length_bounds(abs);
    let len = bit_length(abs);
    let k = len - 1 - floor;
    let f = two_to(floor);
    let h = two_to(k);
    let y = abs / f;
    lemma_two_to_grows(0, floor);
    lemma_two_to_grows(0, k);
    lemma_two_to_grows(k + 1, k + 1);
    lemma_two_to_product(floor, len - 1);
    lemma_two_to_product(floor, len);
    lemma_fundamental_div_mod(abs, f);
    assert(h <= y < 2 * h) by (nonlinear_arith)
        requires
            abs == f * y + abs % f,
            0 <= abs % f < f,
            f * h <= abs < f * (2 * h),
            f > 0,
    ;
    lemma_fundamental_div_mod_converse(y, h, 1, y - h);
    assert((h + (y - h)) * f + abs % f == abs) by (nonlinear_arith)
        requires
            abs == f * y + abs % f,
    ;
}

/// An edge coefficient that is coded is read back.
pub proof fn lemma_edge_round_trip(
    data: Seq<u8>,
    d: CoderState,
    e: EncoderState,
    m: PerColorState,
    floor: int,
    zig15: int,
    remaining: int,
    prior: int,
    coef: int,
)
    requires
        sound(e),
        tracks(data, d, e),
        per_color_shaped(m),
        0 <= floor <= 3,
        0 <= zig15 < 14,
        1 <= remaining <= 7,
        -2048 < coef < 2048,
        within(data, edge_put(e, m, floor, zig15, remaining, prior, coef).0),
    ensures
        edge_coef(data, d, m, floor, zig15, remaining, prior).0 == coef,
        edge_coef(data, d, m, floor, zig15, remaining, prior).2 == edge_put(
            e,
            m,
            floor,
            zig15,
            remaining,
            prior,
            coef,
        ).1,
        tracks(
            data,
            edge_coef(data, d, m, floor, zig15, remaining, prior).1,
            edge_put(e, m, floor, zig15, remaining, prior, coef).0,
        ),
{
    reveal(edge_put);
    reveal(edge_coef);
    lemma_two_to_values();
    let abs = magnitude(coef);
    lemma_bit_length_bounds(abs);
    let bin = remaining - 1;
    let prior_len = at_most(bit_length(magnitude(prior)), MAX_EXPONENT - 1);
    let x = exp_edge_index(bin, zig15, prior_len);
    let length = bit_length(abs);
    assert(m.exp_edge[x].len() == 11);
    lemma_unary_narrows(e, m.exp_edge[x], 11, length, 0);
    let (e1, exp) = unary_put(e, m.exp_edge[x], 11, length, 0);
    let m1 = PerColorState { exp_edge: m.exp_edge.update(x, exp), ..m };
    if coef == 0 {
        lemma_unary_round_trip(data, d, e, m.exp_edge[x], 11, length, 0);
    } else {
        let g = sign_index(prior) * 12 + prior_len;
        let p = probability_of(m1.sign[g]);
        lemma_put_narrows(e1, p, coef > 0);
        let e2 = after_putting(e1, p, coef > 0);
        let m2 = PerColorState { sign: m1.sign.update(g, after_bit(m1.sign[g], coef > 0)), ..m1 };
        let t = at_most((magnitude(prior) as u32 >> (floor as u32)) as int, 255) * 8 + at_most(
            length - floor,
            7,
        );
        lemma_leading_digits_narrows(e2, m2.threshold[t], abs, length - 2, floor, 1);
        let leading = length - 2 >= floor;
        let e3 = if leading {
            leading_digits_put(e2, m2.threshold[t], abs, length - 2, floor, 1).0
        } else {
            e2
        };
        let cells = if leading {
            leading_digits_put(e2, m2.threshold[t], abs, length - 2, floor, 1).1
        } else {
            m2.threshold[t]
        };
        let m3 = if leading {
            PerColorState { threshold: m2.threshold.update(t, cells), ..m2 }
        } else {
            m2
        };
        let low_digits = if leading {
            floor
        } else {
            length - 1
        };
        let n = bin * 14 + zig15;
        lemma_bits_narrows(e3, m3.noise_edge[n], abs, low_digits);
        // reading follows writing
        lemma_unary_round_trip(data, d, e, m.exp_edge[x], 11, length, 0);
        let d1 = unary_from(data, d, m.exp_edge[x], 11, 0).1;
        lemma_decoding_follows(data, d1, e1, p, coef > 0);
        let d2 = after_decoding(data, d1, p);
        if leading {
            lemma_leading_digits_round_trip(
                data,
                d2,
                e2,
                m2.threshold[t],
                abs,
                length - 2,
                floor,
                1,
                1,
            );
        }
        let d3 = if leading {
            leading_digits(data, d2, m2.threshold[t], length - 2, floor, 1, 1).1
        } else {
            d2
        };
        if low_digits > 0 {
            lemma_bits_round_trip(data, d3, e3, m3.noise_edge[n], abs, low_digits, 0);
            assert(0 * two_to(low_digits) == 0);
        }
        if leading {
            lemma_magnitude_from_parts(abs, floor);
            assert(1 * two_to(length - 1 - floor) == two_to(length - 1 - floor));
            if floor == 0 {
                assert(abs % 1 == 0);
            }
        } else {
            lemma_magnitude_from_digits(abs);
            assert(1 * two_to(length - 1) == two_to(length - 1));
            if length == 1 {
                assert(abs == 1);
            }
        }
    }
}

/// Place in coding order of each position off the first row and column;
/// 255 for the other positions.
pub const INNER_RANK: [u8; 64] = [
    255, 255, 255, 255, 255, 255, 255, 255, 255, 0, 2, 3, 9, 10, 20, 21,
    255, 1, 4, 8, 11, 19, 22, 33, 255, 5, 7, 12, 18, 23, 32, 34,
    255, 6, 13, 17, 24, 31, 35, 42, 255, 14, 16, 25, 30, 36, 41, 43,
    255, 15, 26, 29, 37, 40, 44, 47, 255, 27, 28, 38, 39, 45, 46, 48,
];

/// The `z`-th position in coding order is an inner position, and has the
/// rank `z`.
pub proof fn lemma_rank_of_entry(z: int)
    requires
        0 <= z < 49,
    ensures
        9 <= UNZIGZAG_49_TR[z] < 64,
        is_inner(UNZIGZAG_49_TR[z] as int),
        INNER_RANK[UNZIGZAG_49_TR[z] as int] == z,
{
    if z < 12 {
    } else if z < 24 {
    } else if z < 36 {
    } else {
    }
}

/// An inner position is the one that its rank names in coding order.
pub proof fn lemma_entry_of_rank(i: int)
    requires
        0 <= i < 64,
        is_inner(i),
    ensures
        INNER_RANK[i] < 49,
        UNZIGZAG_49_TR[INNER_RANK[i] as int] == i,
{
    if i < 16 {
    } else if i < 32 {
    } else if i < 48 {
    } else {
    }
}

/// Number of non-zero coefficients of a block among the inner positions
/// from the `zig`-th in coding order on.
pub open spec fn zig_non_zeros(here: Seq<i16>, zig: int) -> int
    decreases 49 - zig,
{
    if zig >= 49 || zig < 0 {
        0
    } else {
        zig_non_zeros(here, zig + 1) + if here[UNZIGZAG_49_TR[zig] as int] != 0 {
            1int
        } else {
            0int
        }
    }
}

/// Where no non-zero coefficient is left from the `zig`-th position on, the
/// coefficients from there on are zero.
pub proof fn lemma_none_left(here: Seq<i16>, zig: int, z: int)
    requires
        0 <= zig <= z < 49,
        zig_non_zeros(here, zig) == 0,
    ensures
        here[UNZIGZAG_49_TR[z] as int] == 0,
    decreases z - zig,
{
    lemma_zig_non_zeros_bounds(here, zig + 1);
    if zig < z {
        lemma_none_left(here, zig + 1, z);
    }
}

/// A count of non-zero coefficients is not negative, and not larger than
/// the number of positions counted.
pub proof fn lemma_zig_non_zeros_bounds(here: Seq<i16>, zig: int)
    requires
        0 <= zig,
    ensures
        0 <= zig_non_zeros(here, zig) <= 49 - zig || zig >= 49,
        zig >= 49 ==> zig_non_zeros(here, zig) == 0,
    decreases 49 - zig,
{
    if zig < 49 {
        lemma_zig_non_zeros_bounds(here, zig + 1);
    }
}

/// Number of non-zero coefficients among the inner positions below `upto`
/// whose rank in coding order is at least `zig`.
pub open spec fn ranked_non_zeros(here: Seq<i16>, zig: int, upto: int) -> int
    decreases upto,
{
    if upto <= 0 {
        0
    } else {
        ranked_non_zeros(here, zig, upto - 1) + if is_inner(upto - 1) && INNER_RANK[upto - 1]
            >= zig && here[upto - 1] != 0 {
            1int
        } else {
            0int
        }
    }
}

proof fn lemma_ranked_all(here: Seq<i16>, upto: int)
    requires
        0 <= upto <= 64,
    ensures
        ranked_non_zeros(here, 0, upto) == inner_non_zeros(here, upto),
        ranked_non_zeros(here, 49, upto) == 0,
    decreases upto,
{
    if upto > 0 {
        lemma_ranked_all(here, upto - 1);
        if is_inner(upto - 1) {
            lemma_entry_of_rank(upto - 1);
        }
    }
}

proof fn lemma_ranked_step(here: Seq<i16>, zig: int, upto: int)
    requires
        0 <= zig < 49,
        0 <= upto <= 64,
    ensures
        ranked_non_zeros(here, zig, upto) == ranked_non_zeros(here, zig + 1, upto) + if UNZIGZAG_49_TR[zig]
            < upto && here[UNZIGZAG_49_TR[zig] as int] != 0 {
            1int
        } else {
            0int
        },
    decreases upto,
{
    lemma_rank_of_entry(zig);
    if upto > 0 {
        lemma_ranked_step(here, zig, upto - 1);
        if is_inner(upto - 1) {
            lemma_entry_of_rank(upto - 1);
        }
    }
}

/// Counting the non-zero inner coefficients in coding order gives what
/// counting them row by row gives.
pub proof fn lemma_zig_non_zeros(here: Seq<i16>, zig: int)
    requires
        0 <= zig <= 49,
    ensures
        zig_non_zeros(here, zig) == ranked_non_zeros(here, zig, 64),
        zig == 0 ==> zig_non_zeros(here, zig) == inner_non_zeros(here, 64),
    decreases 49 - zig,
{
    lemma_ranked_all(here, 64);
    if zig < 49 {
        lemma_zig_non_zeros(here, zig + 1);
        lemma_ranked_step(here, zig, 64);
        lemma_rank_of_entry(zig);
    }
}

/// Coding in unary keeps the number of cells.
pub proof fn lemma_unary_len(e: EncoderState, cells: Seq<u16>, a: int, v: int, i: int)
    requires
        a <= cells.len(),
    ensures
        unary_put(e, cells, a, v, i).1.len() == cells.len(),
    decreases v - i + 1,
{
    if !(i > v || i >= a || i < 0) && i < v {
        lemma_unary_len(
            after_putting(e, probability_of(cells[i]), true),
            cells.update(i, after_bit(cells[i], true)),
            a,
            v,
            i + 1,
        );
    }
}

/// Coding digits keeps the number of cells.
pub proof fn lemma_bits_len(e: EncoderState, cells: Seq<u16>, bits: int, n: int)
    requires
        n <= cells.len(),
    ensures
        bits_put(e, cells, bits, n).1.len() == cells.len(),
    decreases n,
{
    if n > 0 {
        let bit = (bits / two_to(n - 1)) % 2 == 1;
        lemma_bits_len(
            after_putting(e, probability_of(cells[n - 1]), bit),
            cells.update(n - 1, after_bit(cells[n - 1], bit)),
            bits,
            n - 1,
        );
    }
}

/// Coding along a path of a tree keeps the number of cells.
pub proof fn lemma_grid_len(
    e: EncoderState,
    cells: Seq<u16>,
    v: int,
    node: int,
    remaining: int,
    m: int,
)
    requires
        0 <= remaining <= m,
        two_to(m) <= cells.len(),
        1 <= node < two_to(m - remaining + 1),
    ensures
        grid_put(e, cells, v, node, remaining).1.len() == cells.len(),
    decreases remaining,
{
    if remaining > 0 {
        lemma_two_to_grows(m - remaining + 1, m);
        lemma_two_to_grows(m - remaining + 2, m - remaining + 2);
        let bit = (v / two_to(remaining - 1)) % 2 == 1;
        lemma_grid_len(
            after_putting(e, probability_of(cells[node]), bit),
            cells.update(node, after_bit(cells[node], bit)),
            v,
            2 * node + if bit {
                1int
            } else {
                0int
            },
            remaining - 1,
            m,
        );
    }
}

/// Coding leading digits keeps the number of cells.
pub proof fn lemma_leading_digits_len(
    e: EncoderState,
    cells: Seq<u16>,
    abs: int,
    i: int,
    floor: int,
    node: int,
)
    requires
        0 <= node < cells.len(),
    ensures
        leading_digits_put(e, cells, abs, i, floor, node).1.len() == cells.len(),
    decreases i - floor + 1,
{
    if i >= floor {
        let bit = (abs / two_to(i)) % 2 == 1;
        let b = if bit {
            1int
        } else {
            0int
        };
        lemma_leading_digits_len(
            after_putting(e, probability_of(cells[node]), bit),
            cells.update(node, after_bit(cells[node], bit)),
            abs,
            i - 1,
            floor,
            at_most(2 * node + b, cells.len() - 1),
        );
    }
}

/// Coding a count of non-zero inner coefficients keeps the sizes of the
/// tables.
pub proof fn lemma_non_zero_7x7_shaped(e: EncoderState, m: PerColorState, bin: int, count: int)
    requires
        per_color_shaped(m),
        0 <= bin < 9,
    ensures
        per_color_shaped(non_zero_7x7_put(e, m, bin, count).1),
{
    reveal(non_zero_7x7_put);
    lemma_two_to_values();
    lemma_grid_len(e, m.nz7x7[bin], count, 1, 6, 6);
}

/// Coding a count of non-zero edge coefficients keeps the sizes of the
/// tables.
pub proof fn lemma_non_zero_edge_shaped(
    e: EncoderState,
    m: PerColorState,
    horizontal: bool,
    eob: int,
    bin: int,
    count: int,
)
    requires
        per_color_shaped(m),
        0 <= eob < 8,
        0 <= bin < 8,
    ensures
        per_color_shaped(non_zero_edge_put(e, m, horizontal, eob, bin, count).1),
{
    reveal(non_zero_edge_put);
    lemma_two_to_values();
    lemma_grid_len(e, m.edge_count[edge_count_index(horizontal, eob, bin)], count, 1, 3, 3);
}

/// Coding an inner coefficient keeps the sizes of the tables.
pub proof fn lemma_inner_shaped(
    e: EncoderState,
    m: PerColorState,
    zig49: int,
    bin: int,
    prior_len: int,
    coef: int,
)
    requires
        per_color_shaped(m),
        0 <= zig49 < 49,
        0 <= bin < 9,
        0 <= prior_len < 12,
        -2048 < coef < 2048,
    ensures
        per_color_shaped(inner_put(e, m, zig49, bin, prior_len, coef).1),
{
    reveal(inner_put);
    let x = exp7x7_index(bin, zig49, prior_len);
    let n = bin * 49 + zig49;
    let abs = magnitude(coef);
    lemma_bit_length_bounds(abs);
    let length = bit_length(abs);
    lemma_unary_len(e, m.exp7x7[x], 11, length, 0);
    let e1 = unary_put(e, m.exp7x7[x], 11, length, 0).0;
    if coef != 0 {
        let e2 = after_putting(e1, probability_of(m.sign[0]), coef > 0);
        lemma_bits_len(e2, m.noise7x7[n], abs, length - 1);
    }
}

/// Coding an edge coefficient keeps the sizes of the tables.
pub proof fn lemma_edge_shaped(
    e: EncoderState,
    m: PerColorState,
    floor: int,
    zig15: int,
    remaining: int,
    prior: int,
    coef: int,
)
    requires
        per_color_shaped(m),
        0 <= floor <= 3,
        0 <= zig15 < 14,
        1 <= remaining <= 7,
        -2048 < coef < 2048,
    ensures
        per_color_shaped(edge_put(e, m, floor, zig15, remaining, prior, coef).1),
{
    reveal(edge_put);
    let abs = magnitude(coef);
    lemma_bit_length_bounds(abs);
    let bin = remaining - 1;
    let prior_len = at_most(bit_length(magnitude(prior)), MAX_EXPONENT - 1);
    let x = exp_edge_index(bin, zig15, prior_len);
    let length = bit_length(abs);
    lemma_unary_len(e, m.exp_edge[x], 11, length, 0);
    let (e1, exp) = unary_put(e, m.exp_edge[x], 11, length, 0);
    let m1 = PerColorState { exp_edge: m.exp_edge.update(x, exp), ..m };
    if coef != 0 {
        let g = sign_index(prior) * 12 + prior_len;
        let e2 = after_putting(e1, probability_of(m1.sign[g]), coef > 0);
        let m2 = PerColorState { sign: m1.sign.update(g, after_bit(m1.sign[g], coef > 0)), ..m1 };
        let t = at_most((magnitude(prior) as u32 >> (floor as u32)) as int, 255) * 8 + at_most(
            length - floor,
            7,
        );
        let leading = length - 2 >= floor;
        if leading {
            assert(0 <= t < 2048);
            lemma_leading_digits_len(e2, m2.threshold[t], abs, length - 2, floor, 1);
        }
        let e3 = if leading {
            leading_digits_put(e2, m2.threshold[t], abs, length - 2, floor, 1).0
        } else {
            e2
        };
        let cells = if leading {
            leading_digits_put(e2, m2.threshold[t], abs, length - 2, floor, 1).1
        } else {
            m2.threshold[t]
        };
        let m3 = if leading {
            PerColorState { threshold: m2.threshold.update(t, cells), ..m2 }
        } else {
            m2
        };
        let low_digits = if leading {
            floor
        } else {
            length - 1
        };
        lemma_bits_len(e3, m3.noise_edge[bin * 14 + zig15], abs, low_digits);
    }
}

/// Coding the difference of a DC coefficient keeps the sizes of the tables.
pub proof fn lemma_dc_shaped(
    e: EncoderState,
    m: ModelState,
    color: int,
    uncertainty: int,
    uncertainty2: int,
    difference: int,
)
    requires
        model_shaped(m),
        0 <= color < 2,
        -32768 <= uncertainty2 <= 32767,
        -2048 < difference < 2048,
    ensures
        model_shaped(dc_put(e, m, color, uncertainty, uncertainty2, difference).1),
{
    reveal(dc_put);
    let wide = at_most(bit_length(magnitude(uncertainty)), NUMERIC_LENGTH_MAX - 1);
    let x = wide * 17 + bit_length(magnitude(uncertainty2));
    let g = sign_index(uncertainty2) + 1;
    let abs = magnitude(difference);
    lemma_bit_length_bounds(abs);
    let length = bit_length(abs);
    assert(0 <= bit_length(magnitude(uncertainty2)) <= 16);
    lemma_unary_len(e, m.exp_dc[x], 11, length, 0);
    let e1 = unary_put(e, m.exp_dc[x], 11, length, 0).0;
    if difference != 0 {
        let e2 = after_putting(e1, probability_of(m.per_color[color].sign[g]), difference > 0);
        lemma_bits_len(e2, m.noise_dc[wide], abs, length - 1);
    }
}

/// Whether a decoder and an encoder that work on a block are at the same
/// point: the decoder is where the encoder is, their cells are in the same
/// states, and they have the same dequantized coefficients, the same set of
/// non-zero places and the same number of coefficients still to come.
pub open spec fn in_step(data: Seq<u8>, wd: BlockWork, we: PutWork) -> bool {
    &&& sound(we.coder)
    &&& tracks(data, wd.coder, we.coder)
    &&& wd.cells == we.cells
    &&& wd.raster == we.raster
    &&& wd.mask == we.mask
    &&& wd.remaining == we.remaining
    &&& per_color_shaped(we.cells)
    &&& wd.coefs.len() == 64
}

/// Whether the numbers that a setting holds are such as the tables of a
/// component give: no noise threshold is above three.
pub open spec fn setting_valid(c: BlockSetting) -> bool {
    &&& c.thresholds.len() == 14
    &&& forall|i: int| 0 <= i < 14 ==> 0 <= #[trigger] c.thresholds[i] <= 3
    &&& neighbors_in_range(c.neighbors)
}

/// Coding the inner coefficients narrows the interval.
pub proof fn lemma_inner_from_narrows(w: PutWork, c: BlockSetting, here: Seq<i16>, zig: int)
    requires
        sound(w.coder),
    ensures
        narrows(inner_put_from(w, c, here, zig).coder, w.coder),
    decreases 49 - zig,
{
    reveal_with_fuel(inner_put_from, 2);
    if !(zig >= 49 || zig < 0 || w.remaining <= 0) {
        let coord = UNZIGZAG_49_TR[zig] as int;
        let prior = c.pt.expected_magnitude(
            c.all_present,
            c.neighbors.left,
            c.neighbors.above,
            c.neighbors.above_left,
            coord,
        );
        let bin = NON_ZERO_TO_BIN_7X7[w.remaining] as int;
        lemma_inner_narrows(w.coder, w.cells, zig, bin, bit_length(prior), here[coord] as int);
        let (coder, cells) = inner_put(
            w.coder,
            w.cells,
            zig,
            bin,
            bit_length(prior),
            here[coord] as int,
        );
        lemma_inner_from_narrows(
            coefficient_put(w, c, coord, here[coord] as int, coder, cells, true),
            c,
            here,
            zig + 1,
        );
    }
}

/// The magnitude expected from neighbours in range has at most eleven
/// digits.
proof fn lemma_prior_length(c: BlockSetting, coord: int)
    requires
        neighbors_in_range(c.neighbors),
        0 <= coord < 64,
    ensures
        0 <= bit_length(
            c.pt.expected_magnitude(
                c.all_present,
                c.neighbors.left,
                c.neighbors.above,
                c.neighbors.above_left,
                coord,
            ),
        ) < 12,
{
    if coord >= 8 {
        assert(-2048 < c.neighbors.left[coord] < 2048);
        assert(-2048 < c.neighbors.above[coord] < 2048);
        assert(-2048 < c.neighbors.above_left[coord] < 2048);
    }
}

/// The inner coefficients that are coded are read back: from the `zig`-th
/// position in coding order on, the decoder finds at every inner position
/// the coefficient of the block that was coded.
pub proof fn lemma_inner_from_round_trip(
    data: Seq<u8>,
    wd: BlockWork,
    we: PutWork,
    c: BlockSetting,
    here: Seq<i16>,
    zig: int,
)
    requires
        in_step(data, wd, we),
        setting_valid(c),
        here.len() == 64,
        ac_in_range(here),
        0 <= zig <= 49,
        we.remaining == zig_non_zeros(here, zig),
        forall|z: int|
            0 <= z < zig ==> wd.coefs[#[trigger] UNZIGZAG_49_TR[z] as int]
                == here[UNZIGZAG_49_TR[z] as int],
        forall|z: int| zig <= z < 49 ==> wd.coefs[#[trigger] UNZIGZAG_49_TR[z] as int] == 0,
        within(data, inner_put_from(we, c, here, zig).coder),
    ensures
        in_step(data, inner_from(data, wd, c, zig), inner_put_from(we, c, here, zig)),
        inner_from(data, wd, c, zig).remaining == 0,
        forall|z: int|
            0 <= z < 49 ==> inner_from(data, wd, c, zig).coefs[#[trigger] UNZIGZAG_49_TR[z] as int]
                == here[UNZIGZAG_49_TR[z] as int],
        forall|i: int|
            0 <= i < 64 && !is_inner(i) ==> inner_from(data, wd, c, zig).coefs[i] == wd.coefs[i],
    decreases 49 - zig,
{
    reveal_with_fuel(inner_put_from, 2);
    reveal_with_fuel(inner_from, 2);
    lemma_zig_non_zeros_bounds(here, zig);
    if zig >= 49 || we.remaining <= 0 {
        assert forall|z: int| 0 <= z < 49 implies wd.coefs[#[trigger] UNZIGZAG_49_TR[z] as int]
            == here[UNZIGZAG_49_TR[z] as int] by {
            if z >= zig {
                lemma_none_left(here, zig, z);
            }
        }
    } else {
        lemma_rank_of_entry(zig);
        lemma_zig_non_zeros_bounds(here, zig + 1);
        let coord = UNZIGZAG_49_TR[zig] as int;
        let prior = c.pt.expected_magnitude(
            c.all_present,
            c.neighbors.left,
            c.neighbors.above,
            c.neighbors.above_left,
            coord,
        );
        lemma_prior_length(c, coord);
        let bin = NON_ZERO_TO_BIN_7X7[we.remaining] as int;
        lemma_bins_bounded();
        assert(0 <= bin < 9);
        let coef = here[coord] as int;
        assert(-2048 < here[coord] < 2048);
        let (e1, cells) = inner_put(we.coder, we.cells, zig, bin, bit_length(prior), coef);
        lemma_inner_narrows(we.coder, we.cells, zig, bin, bit_length(prior), coef);
        let we1 = coefficient_put(we, c, coord, coef, e1, cells, true);
        lemma_inner_from_narrows(we1, c, here, zig + 1);
        lemma_inner_round_trip(data, wd.coder, we.coder, we.cells, zig, bin, bit_length(prior), coef);
        let read = inner_coef(data, wd.coder, wd.cells, zig, bin, bit_length(prior));
        let wd1 = with_coefficient(wd, c, coord, read.0, read.1, read.2, true);
        lemma_inner_shaped(we.coder, we.cells, zig, bin, bit_length(prior), coef);
        assert forall|z: int| 0 <= z < zig + 1 implies wd1.coefs[#[trigger] UNZIGZAG_49_TR[z] as int]
            == here[UNZIGZAG_49_TR[z] as int] by {
            lemma_rank_of_entry(z);
        }
        assert forall|z: int| zig + 1 <= z < 49 implies wd1.coefs[#[trigger] UNZIGZAG_49_TR[z] as int]
            == 0 by {
            lemma_rank_of_entry(z);
        }
        lemma_inner_from_round_trip(data, wd1, we1, c, here, zig + 1);
        assert forall|i: int| 0 <= i < 64 && !is_inner(i) implies inner_from(
            data,
            wd,
            c,
            zig,
        ).coefs[i] == wd.coefs[i] by {
            assert(wd1.coefs[i] == wd.coefs[i]);
        }
    }
}

/// Position of the `lane`-th coefficient of an edge.
pub open spec fn edge_place(horizontal: bool, lane: int) -> int {
    if horizontal {
        8 * (lane + 1)
    } else {
        lane + 1
    }
}

/// Number of non-zero coefficients of a block on one edge from the
/// `lane`-th on.
pub open spec fn edge_left(here: Seq<i16>, horizontal: bool, lane: int) -> int
    decreases 7 - lane,
{
    if lane >= 7 || lane < 0 {
        0
    } else {
        edge_left(here, horizontal, lane + 1) + if here[edge_place(horizontal, lane)] != 0 {
            1int
        } else {
            0int
        }
    }
}

proof fn lemma_edge_left_bounds(here: Seq<i16>, horizontal: bool, lane: int)
    requires
        0 <= lane,
    ensures
        lane < 7 ==> 0 <= edge_left(here, horizontal, lane) <= 7 - lane,
        lane >= 7 ==> edge_left(here, horizontal, lane) == 0,
    decreases 7 - lane,
{
    if lane < 7 {
        lemma_edge_left_bounds(here, horizontal, lane + 1);
    }
}

proof fn lemma_edge_none_left(here: Seq<i16>, horizontal: bool, lane: int, l: int)
    requires
        0 <= lane <= l < 7,
        edge_left(here, horizontal, lane) == 0,
    ensures
        here[edge_place(horizontal, l)] == 0,
    decreases l - lane,
{
    lemma_edge_left_bounds(here, horizontal, lane + 1);
    if lane < l {
        lemma_edge_none_left(here, horizontal, lane + 1, l);
    }
}

/// Counting the non-zero coefficients of an edge from its first on gives
/// what counting them from its last back gives.
pub proof fn lemma_edge_left_all(here: Seq<i16>, horizontal: bool)
    ensures
        edge_left(here, horizontal, 0) == edge_non_zeros(here, horizontal, 7),
        0 <= edge_non_zeros(here, horizontal, 7) <= 7,
{
    reveal_with_fuel(edge_left, 8);
    reveal_with_fuel(edge_non_zeros, 8);
}

/// Coding the coefficients of an edge narrows the interval.
pub proof fn lemma_edge_from_narrows(
    w: PutWork,
    c: BlockSetting,
    here: Seq<i16>,
    horizontal: bool,
    pred: Seq<i32>,
    lane: int,
)
    requires
        sound(w.coder),
    ensures
        narrows(edge_put_from(w, c, here, horizontal, pred, lane).coder, w.coder),
    decreases 7 - lane,
{
    reveal_with_fuel(edge_put_from, 2);
    if !(lane >= 7 || lane < 0 || w.remaining <= 0) {
        let coord = edge_place(horizontal, lane);
        let zig15 = if horizontal {
            lane
        } else {
            7 + lane
        };
        let prior = c.pt.lak_of(c.all_present, horizontal, c.steps_transposed, coord, pred);
        lemma_edge_narrows(
            w.coder,
            w.cells,
            c.thresholds[zig15] as int,
            zig15,
            w.remaining,
            prior,
            here[coord] as int,
        );
        let (coder, cells) = edge_put(
            w.coder,
            w.cells,
            c.thresholds[zig15] as int,
            zig15,
            w.remaining,
            prior,
            here[coord] as int,
        );
        lemma_edge_from_narrows(
            coefficient_put(w, c, coord, here[coord] as int, coder, cells, false),
            c,
            here,
            horizontal,
            pred,
            lane + 1,
        );
    }
}

/// The coefficients of an edge that are coded are read back.
pub proof fn lemma_edge_from_round_trip(
    data: Seq<u8>,
    wd: BlockWork,
    we: PutWork,
    c: BlockSetting,
    here: Seq<i16>,
    horizontal: bool,
    pred: Seq<i32>,
    lane: int,
)
    requires
        in_step(data, wd, we),
        setting_valid(c),
        here.len() == 64,
        ac_in_range(here),
        0 <= lane <= 7,
        we.remaining == edge_left(here, horizontal, lane),
        forall|l: int|
            0 <= l < lane ==> wd.coefs[#[trigger] edge_place(horizontal, l)] == here[edge_place(
                horizontal,
                l,
            )],
        forall|l: int| lane <= l < 7 ==> wd.coefs[#[trigger] edge_place(horizontal, l)] == 0,
        within(data, edge_put_from(we, c, here, horizontal, pred, lane).coder),
    ensures
        in_step(
            data,
            edge_from(data, wd, c, horizontal, pred, lane),
            edge_put_from(we, c, here, horizontal, pred, lane),
        ),
        edge_from(data, wd, c, horizontal, pred, lane).remaining == 0,
        forall|l: int|
            0 <= l < 7 ==> edge_from(data, wd, c, horizontal, pred, lane).coefs[#[trigger] edge_place(
                horizontal,
                l,
            )] == here[edge_place(horizontal, l)],
        forall|i: int|
            0 <= i < 64 && !(exists|l: int| 0 <= l < 7 && i == edge_place(horizontal, l))
                ==> edge_from(data, wd, c, horizontal, pred, lane).coefs[i] == wd.coefs[i],
    decreases 7 - lane,
{
    reveal_with_fuel(edge_put_from, 2);
    reveal_with_fuel(edge_from, 2);
    lemma_edge_left_bounds(here, horizontal, lane);
    if lane >= 7 || we.remaining <= 0 {
        assert forall|l: int| 0 <= l < 7 implies wd.coefs[#[trigger] edge_place(horizontal, l)]
            == here[edge_place(horizontal, l)] by {
            if l >= lane {
                lemma_edge_none_left(here, horizontal, lane, l);
            }
        }
    } else {
        lemma_edge_left_bounds(here, horizontal, lane + 1);
        let coord = edge_place(horizontal, lane);
        let zig15 = if horizontal {
            lane
        } else {
            7 + lane
        };
        let floor = c.thresholds[zig15] as int;
        let prior = c.pt.lak_of(c.all_present, horizontal, c.steps_transposed, coord, pred);
        let coef = here[coord] as int;
        assert(-2048 < here[coord] < 2048);
        let (e1, cells) = edge_put(we.coder, we.cells, floor, zig15, we.remaining, prior, coef);
        lemma_edge_narrows(we.coder, we.cells, floor, zig15, we.remaining, prior, coef);
        let we1 = coefficient_put(we, c, coord, coef, e1, cells, false);
        lemma_edge_from_narrows(we1, c, here, horizontal, pred, lane + 1);
        lemma_edge_round_trip(
            data,
            wd.coder,
            we.coder,
            we.cells,
            floor,
            zig15,
            we.remaining,
            prior,
            coef,
        );
        let read = edge_coef(data, wd.coder, wd.cells, floor, zig15, wd.remaining, prior);
        let wd1 = with_coefficient(wd, c, coord, read.0, read.1, read.2, false);
        lemma_edge_shaped(we.coder, we.cells, floor, zig15, we.remaining, prior, coef);
        lemma_edge_from_round_trip(data, wd1, we1, c, here, horizontal, pred, lane + 1);
        assert forall|i: int|
            0 <= i < 64 && !(exists|l: int| 0 <= l < 7 && i == edge_place(horizontal, l))
            implies edge_from(data, wd, c, horizontal, pred, lane).coefs[i] == wd.coefs[i] by {
            assert(i != edge_place(horizontal, lane));
            assert(wd1.coefs[i] == wd.coefs[i]);
        }
    }
}

/// Coding an edge narrows the interval.
pub proof fn lemma_edge_encoded_narrows(
    w: PutWork,
    c: BlockSetting,
    here: Seq<i16>,
    horizontal: bool,
    pred: Seq<i32>,
    eob: int,
    bin: int,
)
    requires
        sound(w.coder),
    ensures
        narrows(edge_encoded(w, c, here, horizontal, pred, eob, bin).coder, w.coder),
{
    reveal(edge_encoded);
    let count = edge_non_zeros(here, horizontal, 7);
    lemma_non_zero_edge_narrows(w.coder, w.cells, horizontal, eob, bin, count);
    let (coder, cells) = non_zero_edge_put(w.coder, w.cells, horizontal, eob, bin, count);
    lemma_edge_from_narrows(
        PutWork { remaining: count, coder, cells, ..w },
        c,
        here,
        horizontal,
        pred,
        0,
    );
}

/// An edge that is coded is read back.
pub proof fn lemma_edge_encoded_round_trip(
    data: Seq<u8>,
    wd: BlockWork,
    we: PutWork,
    c: BlockSetting,
    here: Seq<i16>,
    horizontal: bool,
    pred: Seq<i32>,
    eob: int,
    bin: int,
)
    requires
        in_step(data, wd, we),
        setting_valid(c),
        here.len() == 64,
        ac_in_range(here),
        0 <= eob < 8,
        0 <= bin < 8,
        forall|l: int| 0 <= l < 7 ==> wd.coefs[#[trigger] edge_place(horizontal, l)] == 0,
        within(data, edge_encoded(we, c, here, horizontal, pred, eob, bin).coder),
    ensures
        in_step(
            data,
            edge_decoded(data, wd, c, horizontal, pred, eob, bin),
            edge_encoded(we, c, here, horizontal, pred, eob, bin),
        ),
        edge_decoded(data, wd, c, horizontal, pred, eob, bin).remaining == 0,
        forall|l: int|
            0 <= l < 7 ==> edge_decoded(
                data,
                wd,
                c,
                horizontal,
                pred,
                eob,
                bin,
            ).coefs[#[trigger] edge_place(horizontal, l)] == here[edge_place(horizontal, l)],
        forall|i: int|
            0 <= i < 64 && !(exists|l: int| 0 <= l < 7 && i == edge_place(horizontal, l))
                ==> edge_decoded(data, wd, c, horizontal, pred, eob, bin).coefs[i] == wd.coefs[i],
{
    reveal(edge_encoded);
    reveal(edge_decoded);
    lemma_edge_left_all(here, horizontal);
    let count = edge_non_zeros(here, horizontal, 7);
    let (coder, cells) = non_zero_edge_put(we.coder, we.cells, horizontal, eob, bin, count);
    lemma_non_zero_edge_narrows(we.coder, we.cells, horizontal, eob, bin, count);
    let we1 = PutWork { remaining: count, coder, cells, ..we };
    lemma_edge_from_narrows(we1, c, here, horizontal, pred, 0);
    lemma_non_zero_edge_round_trip(data, wd.coder, we.coder, we.cells, horizontal, eob, bin, count);
    lemma_non_zero_edge_shaped(we.coder, we.cells, horizontal, eob, bin, count);
    let read = non_zero_edge_count(data, wd.coder, wd.cells, horizontal, eob, bin);
    let wd1 = BlockWork { remaining: read.0, coder: read.1, cells: read.2, ..wd };
    lemma_edge_from_round_trip(data, wd1, we1, c, here, horizontal, pred, 0);
    let done = edge_from(data, wd1, c, horizontal, pred, 0);
    assert(edge_decoded(data, wd, c, horizontal, pred, eob, bin) == done);
    assert forall|i: int|
        0 <= i < 64 && !(exists|l: int| 0 <= l < 7 && i == edge_place(horizontal, l))
        implies done.coefs[i] == wd.coefs[i] by {
        assert(done.coefs[i] == wd1.coefs[i]);
    }
}

/// The work with which the coding of a block starts, once the count of its
/// non-zero inner coefficients is coded.
pub open spec fn ac_start(e: EncoderState, m: ModelState, c: BlockSetting, here: Seq<i16>) -> PutWork {
    let count = inner_non_zeros(here, 64);
    let (coder, cells) = non_zero_7x7_put(e, m.per_color[color_of(c)], context_bin_of(c), count);
    PutWork { raster: Seq::new(64, |i: int| 0i32), mask: 0, remaining: count, coder, cells }
}

proof fn lemma_context_bin(c: BlockSetting)
    requires
        neighbors_in_range(c.neighbors),
    ensures
        0 <= context_bin_of(c) < 9,
        0 <= color_of(c) < 2,
{
    lemma_bins_bounded();
}

/// Coding the coefficients of a block other than DC narrows the interval.
pub proof fn lemma_ac_narrows(e: EncoderState, m: ModelState, c: BlockSetting, here: Seq<i16>)
    requires
        sound(e),
    ensures
        narrows(ac_encoded(e, m, c, here).coder, e),
{
    reveal(ac_encoded);
    let count = inner_non_zeros(here, 64);
    lemma_non_zero_7x7_narrows(e, m.per_color[color_of(c)], context_bin_of(c), count);
    let start = ac_start(e, m, c, here);
    lemma_inner_from_narrows(start, c, here, 0);
    let w = inner_put_from(start, c, here, 0);
    let bin = (count + 3) / 7;
    let h_pred = horizontal_current(w.raster, c.neighbors.context_above.horizontal_coef);
    let v_pred = vertical_current(w.raster, c.neighbors.context_left.vertical_coef, 7);
    lemma_edge_encoded_narrows(
        PutWork { remaining: 0, ..w },
        c,
        here,
        true,
        h_pred,
        end_of_block_x(w.mask),
        bin,
    );
    let h = edge_encoded(
        PutWork { remaining: 0, ..w },
        c,
        here,
        true,
        h_pred,
        end_of_block_x(w.mask),
        bin,
    );
    lemma_edge_encoded_narrows(
        PutWork { remaining: 0, ..h },
        c,
        here,
        false,
        v_pred,
        end_of_block_y(w.mask),
        bin,
    );
}

/// The coefficients of a block other than DC that are coded are read back.
pub proof fn lemma_ac_round_trip(
    data: Seq<u8>,
    d: CoderState,
    e: EncoderState,
    m: ModelState,
    c: BlockSetting,
    here: Seq<i16>,
)
    requires
        sound(e),
        tracks(data, d, e),
        model_shaped(m),
        setting_valid(c),
        here.len() == 64,
        ac_in_range(here),
        within(data, ac_encoded(e, m, c, here).coder),
    ensures
        edges_decoded(data, d, m, c).is_some(),
        announced_count(data, d, m, c) == inner_non_zeros(here, 64),
        0 <= inner_non_zeros(here, 64) <= 49,
        in_step(
            data,
            BlockWork { remaining: 0, ..edges_decoded(data, d, m, c).unwrap() },
            PutWork { remaining: 0, ..ac_encoded(e, m, c, here) },
        ),
        edges_decoded(data, d, m, c).unwrap().coefs[0] == 0,
        forall|i: int|
            1 <= i < 64 ==> #[trigger] edges_decoded(data, d, m, c).unwrap().coefs[i] == here[i],
{
    reveal(ac_encoded);
    reveal(edges_decoded);
    reveal(inner_decoded);
    lemma_context_bin(c);
    lemma_inner_non_zeros_bounds(here, 64);
    let count = inner_non_zeros(here, 64);
    let color = color_of(c);
    let bin7 = context_bin_of(c);
    let cells0 = m.per_color[color];
    // the count
    lemma_non_zero_7x7_narrows(e, cells0, bin7, count);
    let start = ac_start(e, m, c, here);
    lemma_inner_from_narrows(start, c, here, 0);
    let we = inner_put_from(start, c, here, 0);
    let bin = (count + 3) / 7;
    let h_pred = horizontal_current(we.raster, c.neighbors.context_above.horizontal_coef);
    let v_pred = vertical_current(we.raster, c.neighbors.context_left.vertical_coef, 7);
    let we0 = PutWork { remaining: 0, ..we };
    lemma_edge_encoded_narrows(we0, c, here, true, h_pred, end_of_block_x(we.mask), bin);
    let he = edge_encoded(we0, c, here, true, h_pred, end_of_block_x(we.mask), bin);
    let he0 = PutWork { remaining: 0, ..he };
    lemma_edge_encoded_narrows(he0, c, here, false, v_pred, end_of_block_y(we.mask), bin);
    lemma_non_zero_7x7_round_trip(data, d, e, cells0, bin7, count);
    lemma_non_zero_7x7_shaped(e, cells0, bin7, count);
    let read = non_zero_7x7_count(data, d, cells0, bin7);
    // the inner coefficients
    let wd_start = BlockWork {
        coefs: zero_block(),
        raster: Seq::new(64, |i: int| 0i32),
        mask: 0,
        remaining: read.0,
        coder: read.1,
        cells: read.2,
    };
    lemma_zig_non_zeros(here, 0);
    lemma_inner_from_round_trip(data, wd_start, start, c, here, 0);
    let wd = inner_from(data, wd_start, c, 0);
    assert(wd.remaining == 0);
    // the edges
    lemma_end_of_block(we.mask);
    let wd0 = BlockWork { remaining: 0, ..wd };
    assert(wd0 == wd);
    assert forall|l: int| 0 <= l < 7 implies wd.coefs[#[trigger] edge_place(true, l)] == 0 by {
        assert(!is_inner(edge_place(true, l)));
    }
    lemma_edge_encoded_round_trip(
        data,
        wd,
        we0,
        c,
        here,
        true,
        h_pred,
        end_of_block_x(we.mask),
        bin,
    );
    let hd = edge_decoded(data, wd, c, true, h_pred, end_of_block_x(wd.mask), bin);
    assert forall|l: int| 0 <= l < 7 implies hd.coefs[#[trigger] edge_place(false, l)] == 0 by {
        let i = edge_place(false, l);
        assert(!is_inner(i));
        assert(!(exists|k: int| 0 <= k < 7 && i == edge_place(true, k)));
        assert(wd.coefs[i] == wd_start.coefs[i]);
    }
    lemma_edge_encoded_round_trip(
        data,
        hd,
        he0,
        c,
        here,
        false,
        v_pred,
        end_of_block_y(we.mask),
        bin,
    );
    let vd = edge_decoded(data, hd, c, false, v_pred, end_of_block_y(wd.mask), bin);
    assert(edges_decoded(data, d, m, c) == Some(vd));
    // every place
    assert(vd.coefs[0] == 0) by {
        assert(!is_inner(0));
        assert(!(exists|k: int| 0 <= k < 7 && 0 == edge_place(true, k)));
        assert(!(exists|k: int| 0 <= k < 7 && 0 == edge_place(false, k)));
        assert(hd.coefs[0] == wd.coefs[0]);
        assert(wd.coefs[0] == wd_start.coefs[0]);
    }
    assert forall|i: int| 1 <= i < 64 implies #[trigger] vd.coefs[i] == here[i] by {
        if i < 8 {
            assert(i == edge_place(false, i - 1));
        } else if i % 8 == 0 {
            assert(i == edge_place(true, i / 8 - 1));
            assert(!(exists|k: int| 0 <= k < 7 && i == edge_place(false, k)));
            assert(hd.coefs[i] == here[i]);
        } else {
            assert(is_inner(i));
            lemma_entry_of_rank(i);
            let z = INNER_RANK[i] as int;
            assert(wd.coefs[UNZIGZAG_49_TR[z] as int] == here[UNZIGZAG_49_TR[z] as int]);
            assert(!(exists|k: int| 0 <= k < 7 && i == edge_place(true, k)));
            assert(!(exists|k: int| 0 <= k < 7 && i == edge_place(false, k)));
            assert(hd.coefs[i] == wd.coefs[i]);
        }
    }
}

/// Coding a block narrows the interval.
pub proof fn lemma_block_narrows(e: EncoderState, m: ModelState, c: BlockSetting, here: Seq<i16>)
    requires
        sound(e),
    ensures
        narrows(block_encoded(e, m, c, here).coder, e),
{
    reveal(block_encoded);
    lemma_ac_narrows(e, m, c, here);
    let w = ac_encoded(e, m, c, here);
    let prediction = dc_prediction_of(c, w.raster);
    lemma_dc_narrows(
        w.coder,
        m.with_color(color_of(c), w.cells),
        color_of(c),
        prediction.uncertainty as int,
        prediction.uncertainty2 as int,
        dc_difference_of(c, here, w.raster),
    );
}

/// A block that is coded is read back, and leaves the same summary behind.
///
/// A decoder that is where the encoder was before the block, with a model
/// in the same state, reads from any stream that lies in the interval of
/// the encoder after the block the coefficients of the block; its summary
/// of the block is that of the encoder; and it is then where the encoder is
/// after the block, its model in the same state again.
pub proof fn lemma_block_round_trip(
    data: Seq<u8>,
    d: CoderState,
    e: EncoderState,
    m: ModelState,
    c: BlockSetting,
    here: Seq<i16>,
)
    requires
        sound(e),
        tracks(data, d, e),
        model_shaped(m),
        setting_valid(c),
        here.len() == 64,
        block_codable(e, m, c, here),
        within(data, block_encoded(e, m, c, here).coder),
    ensures
        block_decoded(data, d, m, c).is_some(),
        block_decoded(data, d, m, c).unwrap().coefs == here,
        summary_view_of(block_decoded(data, d, m, c).unwrap(), c.features) == block_encoded(
            e,
            m,
            c,
            here,
        ).summary,
        block_decoded(data, d, m, c).unwrap().model == block_encoded(e, m, c, here).model,
        tracks(
            data,
            block_decoded(data, d, m, c).unwrap().coder,
            block_encoded(e, m, c, here).coder,
        ),
        sound(block_encoded(e, m, c, here).coder),
        model_shaped(block_encoded(e, m, c, here).model),
{
    reveal(block_encoded);
    reveal(block_decoded);
    lemma_context_bin(c);
    lemma_ac_narrows(e, m, c, here);
    let we = ac_encoded(e, m, c, here);
    let color = color_of(c);
    let prediction = dc_prediction_of(c, we.raster);
    let difference = dc_difference_of(c, here, we.raster);
    let with_cells = m.with_color(color, we.cells);
    lemma_dc_narrows(
        we.coder,
        with_cells,
        color,
        prediction.uncertainty as int,
        prediction.uncertainty2 as int,
        difference,
    );
    lemma_ac_round_trip(data, d, e, m, c, here);
    let wd = edges_decoded(data, d, m, c).unwrap();
    assert(wd.raster == we.raster);
    assert(wd.cells == we.cells);
    lemma_dc_round_trip(
        data,
        wd.coder,
        we.coder,
        with_cells,
        color,
        prediction.uncertainty as int,
        prediction.uncertainty2 as int,
        difference,
    );
    lemma_dc_shaped(
        we.coder,
        with_cells,
        color,
        prediction.uncertainty as int,
        prediction.uncertainty2 as int,
        difference,
    );
    let decoded = block_decoded(data, d, m, c).unwrap();
    assert(decoded.coefs =~= here);
}

/// A block that is coded into a stream of its own is read back from that
/// stream, and leaves the same summary behind.
pub proof fn lemma_one_block_round_trip(c: BlockSetting, here: Seq<i16>)
    requires
        setting_valid(c),
        here.len() == 64,
        block_codable(
            VPXBoolWriter::start_state(),
            fresh_model(),
            c,
            here,
        ),
    ensures
        ({
            let written = block_encoded(
                VPXBoolWriter::start_state(),
                fresh_model(),
                c,
                here,
            );
            let data = flushed(written.coder, 32).buffer;
            let read = block_decoded(
                data,
                VPXBoolReader::start_state(data),
                fresh_model(),
                c,
            );
            &&& read.is_some()
            &&& read.unwrap().coefs == here
            &&& summary_view_of(read.unwrap(), c.features) == written.summary
            &&& read.unwrap().model == written.model
        }),
{
    let start_e = VPXBoolWriter::start_state();
    let written = block_encoded(start_e, fresh_model(), c, here);
    let data = flushed(written.coder, 32).buffer;
    // the marker bit
    lemma_tracks_at_start(data);
    let first_e = VPXBoolWriter::initial_state();
    let first_d = VPXBoolReader::initial_state();
    lemma_put_narrows(first_e, probability_of(0x0101), false);
    lemma_block_narrows(start_e, fresh_model(), c, here);
    lemma_finished_stream(written.coder);
    lemma_decoding_follows(data, first_d, first_e, probability_of(0x0101), false);
    lemma_fresh_model_shaped();
    lemma_block_round_trip(
        data,
        VPXBoolReader::start_state(data),
        start_e,
        fresh_model(),
        c,
        here,
    );
}

/// A fresh model has tables of the right sizes.
pub proof fn lemma_fresh_model_shaped()
    ensures
        model_shaped(fresh_model()),
{
}

} // verus!
