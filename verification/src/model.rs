//! The cells of the context model, and how coefficients are read with them.
//!
//! The model is a forest of arrays of cells. Every array serves one context:
//! a colour, a bin of the count of non-zero coefficients, a place in the
//! block, the length of the magnitude expected from the neighbours. A
//! decoder and an encoder that start from fresh models and code the same
//! values keep their models equal.

use crate::branch::{after_bit, probability_of, Branch};
use crate::consts::MAX_EXPONENT;
use crate::helpers::{
    bit_length, lemma_two_to_grows, lemma_two_to_product, lemma_two_to_values, power_of_two, two_to,
    u16_bit_length, u32_bit_length,
};
use crate::lepton_error::ExitCode;
use crate::probability_tables::magnitude;
use crate::quantization_tables::QuantizationTables;
use crate::vpx_bool_reader::{
    after_decoding, bits_from, decoded_bit, grid_from, is_power_of_two, registers_valid, states_of,
    unary_from, CoderState, VPXBoolReader,
};
use crate::vpx_bool_writer::{
    after_putting, bits_put, encoder_valid, exponent_of, grid_put, unary_put, EncoderState,
    VPXBoolWriter,
};
use vstd::prelude::*;

verus! {

/// Number of colours that have cells of their own.
pub const BLOCK_TYPES: usize = 2;

/// Number of bins of a count of non-zero coefficients.
pub const NUM_NON_ZERO_BINS: usize = 9;

/// Number of bins of a count of non-zero edge coefficients still to come.
pub const NUM_NON_ZERO_EDGE_BINS: usize = 7;

/// Number of lengths that an expected magnitude can have.
pub const NUMERIC_LENGTH_MAX: usize = 12;

/// Number of binary digits of a magnitude below its leading one.
pub const COEF_BITS: usize = 10;

/// Number of lengths that a measure of uncertainty can have.
pub const UNCERTAINTY_LENGTHS: usize = 17;

/// Number of contexts by the expected magnitude of an edge coefficient.
pub const THRESHOLD_PRIORS: usize = 256;

/// Number of contexts by the length of an edge coefficient above its noise.
pub const THRESHOLD_LENGTHS: usize = 8;

/// Number of cells in a tree over the leading digits of an edge coefficient.
pub const THRESHOLD_CELLS: usize = 128;

/// The packed state of a cell that has seen nothing yet.
pub const FRESH: u16 = 0x0101;

/// The states of the cells that serve one colour.
pub ghost struct PerColorState {
    pub nz7x7: Seq<Seq<u16>>,
    pub exp7x7: Seq<Seq<u16>>,
    pub noise7x7: Seq<Seq<u16>>,
    pub edge_count: Seq<Seq<u16>>,
    pub exp_edge: Seq<Seq<u16>>,
    pub noise_edge: Seq<Seq<u16>>,
    pub threshold: Seq<Seq<u16>>,
    pub sign: Seq<u16>,
}

/// The states of all cells of a model.
pub ghost struct ModelState {
    pub per_color: Seq<PerColorState>,
    pub exp_dc: Seq<Seq<u16>>,
    pub noise_dc: Seq<Seq<u16>>,
}

impl ModelState {
    /// The model with the cells of the colour `color` replaced.
    pub open spec fn with_color(self, color: int, cells: PerColorState) -> ModelState {
        ModelState { per_color: self.per_color.update(color, cells), ..self }
    }
}

/// `count` arrays of `cells` fresh cells each.
pub open spec fn fresh_table(count: int, cells: int) -> Seq<Seq<u16>> {
    Seq::new(count as nat, |i: int| Seq::new(cells as nat, |j: int| FRESH))
}

/// The cells of one colour before anything is coded.
pub open spec fn fresh_per_color() -> PerColorState {
    PerColorState {
        nz7x7: fresh_table(9, 64),
        exp7x7: fresh_table(5292, 11),
        noise7x7: fresh_table(441, 10),
        edge_count: fresh_table(128, 8),
        exp_edge: fresh_table(1176, 11),
        noise_edge: fresh_table(98, 3),
        threshold: fresh_table(2048, 128),
        sign: Seq::new(36, |i: int| FRESH),
    }
}

/// The model before anything is coded.
pub open spec fn fresh_model() -> ModelState {
    ModelState {
        per_color: Seq::new(2, |i: int| fresh_per_color()),
        exp_dc: fresh_table(204, 11),
        noise_dc: fresh_table(12, 10),
    }
}

/// Whether a table holds `count` arrays of `cells` cells each.
pub open spec fn table_shaped(t: Seq<Seq<u16>>, count: int, cells: int) -> bool {
    &&& t.len() == count
    &&& forall|i: int| 0 <= i < count ==> (#[trigger] t[i]).len() == cells
}

/// Whether the tables of one colour have their sizes.
pub open spec fn per_color_shaped(m: PerColorState) -> bool {
    &&& table_shaped(m.nz7x7, 9, 64)
    &&& table_shaped(m.exp7x7, 5292, 11)
    &&& table_shaped(m.noise7x7, 441, 10)
    &&& table_shaped(m.edge_count, 128, 8)
    &&& table_shaped(m.exp_edge, 1176, 11)
    &&& table_shaped(m.noise_edge, 98, 3)
    &&& table_shaped(m.threshold, 2048, 128)
    &&& m.sign.len() == 36
}

/// Whether all tables of a model have their sizes.
pub open spec fn model_shaped(m: ModelState) -> bool {
    &&& m.per_color.len() == 2
    &&& per_color_shaped(m.per_color[0])
    &&& per_color_shaped(m.per_color[1])
    &&& table_shaped(m.exp_dc, 204, 11)
    &&& table_shaped(m.noise_dc, 12, 10)
}

/// 0 for zero, 1 for a positive and 2 for a negative value.
pub open spec fn sign_index(v: int) -> int {
    if v == 0 {
        0
    } else if v > 0 {
        1
    } else {
        2
    }
}

/// The smaller of two numbers.
pub open spec fn at_most(v: int, limit: int) -> int {
    if v < limit {
        v
    } else {
        limit
    }
}

/// A signed value read as a length in unary with `exp`, a sign with `sign`
/// and the digits below the leading one with `bits`; with the state of the
/// decoder and of the cells afterwards.
pub open spec fn length_sign_coef(
    data: Seq<u8>,
    s: CoderState,
    exp: Seq<u16>,
    sign: u16,
    bits: Seq<u16>,
) -> (int, CoderState, Seq<u16>, u16, Seq<u16>) {
    let (length, s1, exp1) = unary_from(data, s, exp, exp.len() as int, 0);
    if length == 0 {
        (0, s1, exp1, sign, bits)
    } else {
        let positive = decoded_bit(data, s1, probability_of(sign));
        let s2 = after_decoding(data, s1, probability_of(sign));
        let sign1 = after_bit(sign, positive);
        let (low, s3, bits1) = bits_from(data, s2, bits, length - 1, 0);
        let coef = low + two_to(length - 1);
        (
            if positive {
                coef
            } else {
                -coef
            },
            s3,
            exp1,
            sign1,
            bits1,
        )
    }
}

/// The leading digits of an edge coefficient, read from digit `i` down to
/// digit `floor` with a tree of cells, after the digits in `coef`; with the
/// state of the decoder and of the cells afterwards. The walk stays at the
/// last cell of the tree once it has reached it.
pub open spec fn leading_digits(
    data: Seq<u8>,
    s: CoderState,
    cells: Seq<u16>,
    i: int,
    floor: int,
    coef: int,
    node: int,
) -> (int, CoderState, Seq<u16>)
    decreases i - floor + 1,
{
    if i < floor {
        (coef, s, cells)
    } else {
        let p = probability_of(cells[node]);
        let bit = decoded_bit(data, s, p);
        let b = if bit {
            1int
        } else {
            0int
        };
        leading_digits(
            data,
            after_decoding(data, s, p),
            cells.update(node, after_bit(cells[node], bit)),
            i - 1,
            floor,
            2 * coef + b,
            at_most(2 * node + b, cells.len() - 1),
        )
    }
}

/// Index of the array of cells for the length of an inner coefficient.
pub open spec fn exp7x7_index(bin: int, zig49: int, prior_len: int) -> int {
    (bin * 49 + zig49) * 12 + prior_len
}

/// Index of the array of cells for the count of non-zero edge coefficients.
pub open spec fn edge_count_index(horizontal: bool, eob: int, bin: int) -> int {
    ((if horizontal {
        1int
    } else {
        0int
    }) * 8 + eob) * 8 + bin
}

/// Index of the array of cells for the length of an edge coefficient.
pub open spec fn exp_edge_index(bin: int, zig15: int, prior_len: int) -> int {
    (bin * 14 + zig15) * 12 + prior_len
}

/// The count of non-zero inner coefficients, read in the context `bin`.
#[verifier::opaque]
pub open spec fn non_zero_7x7_count(data: Seq<u8>, s: CoderState, m: PerColorState, bin: int) -> (
    int,
    CoderState,
    PerColorState,
) {
    let (v, s1, cells) = grid_from(data, s, m.nz7x7[bin], 64, 1);
    (v, s1, PerColorState { nz7x7: m.nz7x7.update(bin, cells), ..m })
}

/// The count of non-zero coefficients on one edge, read in the context of
/// the direction, the estimated end of the block and the bin of the count
/// of non-zero inner coefficients.
#[verifier::opaque]
pub open spec fn non_zero_edge_count(
    data: Seq<u8>,
    s: CoderState,
    m: PerColorState,
    horizontal: bool,
    eob: int,
    bin: int,
) -> (int, CoderState, PerColorState) {
    let at = edge_count_index(horizontal, eob, bin);
    let (v, s1, cells) = grid_from(data, s, m.edge_count[at], 8, 1);
    (v, s1, PerColorState { edge_count: m.edge_count.update(at, cells), ..m })
}

/// An inner coefficient, read in the context of its place in coding order,
/// the bin of the count of non-zero coefficients still to come, and the
/// length of the magnitude expected from the neighbours.
#[verifier::opaque]
pub open spec fn inner_coef(
    data: Seq<u8>,
    s: CoderState,
    m: PerColorState,
    zig49: int,
    bin: int,
    prior_len: int,
) -> (int, CoderState, PerColorState) {
    let e = exp7x7_index(bin, zig49, prior_len);
    let n = bin * 49 + zig49;
    let (v, s1, exp, sign, bits) = length_sign_coef(
        data,
        s,
        m.exp7x7[e],
        m.sign[0],
        m.noise7x7[n],
    );
    (
        v,
        s1,
        PerColorState {
            exp7x7: m.exp7x7.update(e, exp),
            sign: m.sign.update(0, sign),
            noise7x7: m.noise7x7.update(n, bits),
            ..m
        },
    )
}

/// An edge coefficient, read in the context of its place `zig15` among the
/// edge coefficients, the number `remaining` of non-zero ones still to come
/// on its edge, and the value `prior` expected from the neighbours. Digits
/// from the one numbered `floor` up are read with cells chosen by the
/// expected magnitude, the digits below as noise.
#[verifier::opaque]
pub open spec fn edge_coef(
    data: Seq<u8>,
    s: CoderState,
    m: PerColorState,
    floor: int,
    zig15: int,
    remaining: int,
    prior: int,
) -> (int, CoderState, PerColorState) {
    let bin = remaining - 1;
    let prior_len = at_most(bit_length(magnitude(prior)), MAX_EXPONENT - 1);
    let e = exp_edge_index(bin, zig15, prior_len);
    let (length, s1, exp) = unary_from(data, s, m.exp_edge[e], 11, 0);
    let m1 = PerColorState { exp_edge: m.exp_edge.update(e, exp), ..m };
    if length == 0 {
        (0, s1, m1)
    } else {
        let g = sign_index(prior) * 12 + prior_len;
        let positive = decoded_bit(data, s1, probability_of(m1.sign[g]));
        let s2 = after_decoding(data, s1, probability_of(m1.sign[g]));
        let m2 = PerColorState { sign: m1.sign.update(g, after_bit(m1.sign[g], positive)), ..m1 };
        let t = at_most((magnitude(prior) as u32 >> (floor as u32)) as int, 255) * 8 + at_most(
            length - floor,
            7,
        );
        let (high, s3, cells) = if length - 2 >= floor {
            leading_digits(data, s2, m2.threshold[t], length - 2, floor, 1, 1)
        } else {
            (1int, s2, m2.threshold[t])
        };
        let m3 = if length - 2 >= floor {
            PerColorState { threshold: m2.threshold.update(t, cells), ..m2 }
        } else {
            m2
        };
        let low_digits = if length - 2 >= floor {
            floor
        } else {
            length - 1
        };
        let n = bin * 14 + zig15;
        let (low, s4, noise) = if low_digits > 0 {
            bits_from(data, s3, m3.noise_edge[n], low_digits, 0)
        } else {
            (0int, s3, m3.noise_edge[n])
        };
        let m4 = if low_digits > 0 {
            PerColorState { noise_edge: m3.noise_edge.update(n, noise), ..m3 }
        } else {
            m3
        };
        let coef = high * two_to(low_digits) + low;
        (
            if positive {
                coef
            } else {
                -coef
            },
            s4,
            m4,
        )
    }
}

/// The difference between a DC coefficient and its prediction, read in the
/// context of the colour and of the two measures of uncertainty.
#[verifier::opaque]
pub open spec fn dc_difference(
    data: Seq<u8>,
    s: CoderState,
    m: ModelState,
    color: int,
    uncertainty: int,
    uncertainty2: int,
) -> (int, CoderState, ModelState) {
    let wide = at_most(bit_length(magnitude(uncertainty)), NUMERIC_LENGTH_MAX - 1);
    let e = wide * 17 + bit_length(magnitude(uncertainty2));
    let g = sign_index(uncertainty2) + 1;
    let (v, s1, exp, sign, bits) = length_sign_coef(
        data,
        s,
        m.exp_dc[e],
        m.per_color[color].sign[g],
        m.noise_dc[wide],
    );
    (
        v,
        s1,
        ModelState {
            per_color: m.per_color.update(
                color,
                PerColorState { sign: m.per_color[color].sign.update(g, sign), ..m.per_color[color] },
            ),
            exp_dc: m.exp_dc.update(e, exp),
            noise_dc: m.noise_dc.update(wide, bits),
        },
    )
}

/// The states of the cells of a table.
pub open spec fn table_states<const N: usize>(t: Seq<[Branch; N]>) -> Seq<Seq<u16>> {
    Seq::new(t.len(), |i: int| states_of(t[i]))
}

/// The states of a run of cells.
pub open spec fn cell_states(t: Seq<Branch>) -> Seq<u16> {
    Seq::new(t.len(), |i: int| t[i].state())
}

fn fresh_cells<const N: usize>(count: usize) -> (r: Vec<[Branch; N]>)
    ensures
        table_states(r@) == fresh_table(count as int, N as int),
{
    let mut r: Vec<[Branch; N]> = Vec::new();
    let mut i: usize = 0;
    assert(table_states(r@) =~= fresh_table(0, N as int));
    while i < count
        invariant
            i <= count,
            r.len() == i,
            table_states(r@) == fresh_table(i as int, N as int),
        decreases count - i,
    {
        let cells = [Branch::new(); N];
        assert(states_of(cells) =~= Seq::new(N as nat, |j: int| FRESH));
        let ghost before = r@;
        r.push(cells);
        i += 1;
        assert forall|k: int| 0 <= k < i implies #[trigger] table_states(r@)[k] == fresh_table(
            i as int,
            N as int,
        )[k] by {
            if k < i - 1 {
                assert(r@[k] == before[k]);
                assert(table_states(before)[k] == fresh_table(i - 1, N as int)[k]);
            }
        }
        assert(table_states(r@) =~= fresh_table(i as int, N as int));
    }
    r
}

/// Reads a signed value: its length in unary with `magnitude_branches`, its
/// sign with `sign_branch`, and the digits below its leading one with
/// `bits_branch`.
pub fn read_length_sign_coef<const A: usize, const B: usize>(
    bool_reader: &mut VPXBoolReader,
    magnitude_branches: &mut [Branch; A],
    sign_branch: &mut Branch,
    bits_branch: &mut [Branch; B],
) -> (r: i16)
    requires
        A <= 15,
        A <= B + 1,
    ensures
        final(bool_reader).data() == old(bool_reader).data(),
        registers_valid(final(bool_reader).state()),
        (
            r as int,
            final(bool_reader).state(),
            states_of(*final(magnitude_branches)),
            final(sign_branch).state(),
            states_of(*final(bits_branch)),
        ) == length_sign_coef(
            old(bool_reader).data(),
            old(bool_reader).state(),
            states_of(*old(magnitude_branches)),
            old(sign_branch).state(),
            states_of(*old(bits_branch)),
        ),
        -two_to(A as int) < r < two_to(A as int),
{
    let length = bool_reader.get_unary_encoded(magnitude_branches);
    proof {
        lemma_two_to_values();
        lemma_two_to_grows(A as int, 15);
        lemma_two_to_grows(length as int, A as int);
    }
    let mut coef: i16 = 0;
    if length != 0 {
        let positive = bool_reader.get(sign_branch);
        if length > 1 {
            coef = bool_reader.get_n_bits(length - 1, bits_branch) as i16;
        }
        coef = coef + power_of_two(length - 1) as i16;
        if !positive {
            coef = -coef;
        }
    }
    coef
}

/// The cells that serve one colour.
pub struct ModelPerColor {
    num_non_zeros_counts7x7: Vec<[Branch; 64]>,
    exponent_counts: Vec<[Branch; 11]>,
    residual_noise_counts: Vec<[Branch; 10]>,
    num_non_zeros_counts_edge: Vec<[Branch; 8]>,
    exponent_counts_x: Vec<[Branch; 11]>,
    residual_noise_counts_x: Vec<[Branch; 3]>,
    residual_threshold_counts: Vec<[Branch; 128]>,
    sign_counts: Vec<Branch>,
}

/// All cells of the context model.
pub struct Model {
    per_color: [ModelPerColor; 2],
    exponent_counts_dc: Vec<[Branch; 11]>,
    residual_noise_counts_dc: Vec<[Branch; 10]>,
}

impl View for ModelPerColor {
    type V = PerColorState;

    closed spec fn view(&self) -> PerColorState {
        PerColorState {
            nz7x7: table_states(self.num_non_zeros_counts7x7@),
            exp7x7: table_states(self.exponent_counts@),
            noise7x7: table_states(self.residual_noise_counts@),
            edge_count: table_states(self.num_non_zeros_counts_edge@),
            exp_edge: table_states(self.exponent_counts_x@),
            noise_edge: table_states(self.residual_noise_counts_x@),
            threshold: table_states(self.residual_threshold_counts@),
            sign: cell_states(self.sign_counts@),
        }
    }
}

impl View for Model {
    type V = ModelState;

    closed spec fn view(&self) -> ModelState {
        ModelState {
            per_color: Seq::new(2, |i: int| self.per_color[i]@),
            exp_dc: table_states(self.exponent_counts_dc@),
            noise_dc: table_states(self.residual_noise_counts_dc@),
        }
    }
}

impl ModelPerColor {
    /// Fresh cells for one colour.
    pub fn new() -> (r: Self)
        ensures
            r@ == fresh_per_color(),
            per_color_shaped(r@),
    {
        let mut sign_counts: Vec<Branch> = Vec::new();
        let mut i: usize = 0;
        while i < 36
            invariant
                i <= 36,
                sign_counts.len() == i,
                forall|j: int| 0 <= j < i ==> (#[trigger] sign_counts[j]).state() == FRESH,
            decreases 36 - i,
        {
            sign_counts.push(Branch::new());
            i += 1;
        }
        let r = ModelPerColor {
            num_non_zeros_counts7x7: fresh_cells(9),
            exponent_counts: fresh_cells(5292),
            residual_noise_counts: fresh_cells(441),
            num_non_zeros_counts_edge: fresh_cells(128),
            exponent_counts_x: fresh_cells(1176),
            residual_noise_counts_x: fresh_cells(98),
            residual_threshold_counts: fresh_cells(2048),
            sign_counts,
        };
        assert(r@.sign =~= fresh_per_color().sign);
        r
    }

    /// Reads the count of non-zero coefficients off the first row and
    /// column, in the context bin `num_non_zeros_7x7_context_bin`.
    pub fn read_non_zero_7x7_count(
        &mut self,
        bool_reader: &mut VPXBoolReader,
        num_non_zeros_7x7_context_bin: u8,
    ) -> (r: u8)
        requires
            per_color_shaped(old(self)@),
            num_non_zeros_7x7_context_bin < 9,
        ensures
            per_color_shaped(final(self)@),
            final(bool_reader).data() == old(bool_reader).data(),
            registers_valid(final(bool_reader).state()),
            (r as int, final(bool_reader).state(), final(self)@) == non_zero_7x7_count(
                old(bool_reader).data(),
                old(bool_reader).state(),
                old(self)@,
                num_non_zeros_7x7_context_bin as int,
            ),
            r < 64,
    {
        reveal(non_zero_7x7_count);
        let at = num_non_zeros_7x7_context_bin as usize;
        assert(old(self)@.nz7x7[at as int].len() == 64);
        proof {
            reveal_with_fuel(is_power_of_two, 8);
        }
        let r = bool_reader.get_grid(&mut self.num_non_zeros_counts7x7[at]);
        assert(self@.nz7x7 =~= old(self)@.nz7x7.update(
            at as int,
            states_of(self.num_non_zeros_counts7x7[at as int]),
        ));
        assert(self@.exp7x7 == old(self)@.exp7x7);
        r as u8
    }

    /// Reads the count of non-zero coefficients on one edge.
    pub fn read_non_zero_edge_count<const HORIZONTAL: bool>(
        &mut self,
        bool_reader: &mut VPXBoolReader,
        est_eob: u8,
        num_non_zeros_bin: u8,
    ) -> (r: u8)
        requires
            per_color_shaped(old(self)@),
            est_eob < 8,
            num_non_zeros_bin < 8,
        ensures
            per_color_shaped(final(self)@),
            final(bool_reader).data() == old(bool_reader).data(),
            registers_valid(final(bool_reader).state()),
            (r as int, final(bool_reader).state(), final(self)@) == non_zero_edge_count(
                old(bool_reader).data(),
                old(bool_reader).state(),
                old(self)@,
                HORIZONTAL,
                est_eob as int,
                num_non_zeros_bin as int,
            ),
            r < 8,
    {
        reveal(non_zero_edge_count);
        let direction: usize = if HORIZONTAL {
            1
        } else {
            0
        };
        let at = (direction * 8 + est_eob as usize) * 8 + num_non_zeros_bin as usize;
        assert(old(self)@.edge_count[at as int].len() == 8);
        proof {
            reveal_with_fuel(is_power_of_two, 5);
        }
        let r = bool_reader.get_grid(&mut self.num_non_zeros_counts_edge[at]);
        assert(self@.edge_count =~= old(self)@.edge_count.update(
            at as int,
            states_of(self.num_non_zeros_counts_edge[at as int]),
        ));
        r as u8
    }

    /// Reads one of the 49 coefficients off the first row and column.
    pub fn read_coef(
        &mut self,
        bool_reader: &mut VPXBoolReader,
        zig49: usize,
        num_non_zeros_bin: usize,
        best_prior_bit_len: usize,
    ) -> (r: i16)
        requires
            per_color_shaped(old(self)@),
            zig49 < 49,
            num_non_zeros_bin < 9,
            best_prior_bit_len < 12,
        ensures
            per_color_shaped(final(self)@),
            final(bool_reader).data() == old(bool_reader).data(),
            registers_valid(final(bool_reader).state()),
            (r as int, final(bool_reader).state(), final(self)@) == inner_coef(
                old(bool_reader).data(),
                old(bool_reader).state(),
                old(self)@,
                zig49 as int,
                num_non_zeros_bin as int,
                best_prior_bit_len as int,
            ),
            -2048 < r < 2048,
    {
        reveal(inner_coef);
        let e = (num_non_zeros_bin * 49 + zig49) * 12 + best_prior_bit_len;
        let n = num_non_zeros_bin * 49 + zig49;
        assert(old(self)@.exp7x7[e as int].len() == 11);
        assert(old(self)@.noise7x7[n as int].len() == 10);
        proof {
            lemma_two_to_values();
        }
        let r = read_length_sign_coef(
            bool_reader,
            &mut self.exponent_counts[e],
            &mut self.sign_counts[0],
            &mut self.residual_noise_counts[n],
        );
        assert(self@.exp7x7 =~= old(self)@.exp7x7.update(
            e as int,
            states_of(self.exponent_counts[e as int]),
        ));
        assert(self@.noise7x7 =~= old(self)@.noise7x7.update(
            n as int,
            states_of(self.residual_noise_counts[n as int]),
        ));
        assert(self@.sign =~= old(self)@.sign.update(0, self.sign_counts[0].state()));
        r
    }

    /// Reads one of the 14 coefficients of the first row and column.
    #[verifier::rlimit(60)]
    pub fn read_edge_coefficient(
        &mut self,
        bool_reader: &mut VPXBoolReader,
        qt: &QuantizationTables,
        zig15offset: usize,
        num_non_zeros_edge: u8,
        best_prior: i32,
    ) -> (r: i16)
        requires
            per_color_shaped(old(self)@),
            qt.derived(),
            zig15offset < 14,
            1 <= num_non_zeros_edge <= 7,
        ensures
            per_color_shaped(final(self)@),
            final(bool_reader).data() == old(bool_reader).data(),
            registers_valid(final(bool_reader).state()),
            (r as int, final(bool_reader).state(), final(self)@) == edge_coef(
                old(bool_reader).data(),
                old(bool_reader).state(),
                old(self)@,
                qt.noise_thresholds()[zig15offset as int] as int,
                zig15offset as int,
                num_non_zeros_edge as int,
                best_prior as int,
            ),
            -2048 < r < 2048,
    {
        reveal(edge_coef);
        let num_non_zeros_edge_bin = num_non_zeros_edge as usize - 1;
        let best_prior_abs = best_prior.unsigned_abs();
        let prior_len = u32_bit_length(best_prior_abs) as usize;
        let best_prior_bit_len = if prior_len < MAX_EXPONENT - 1 {
            prior_len
        } else {
            MAX_EXPONENT - 1
        };
        let e = (num_non_zeros_edge_bin * 14 + zig15offset) * 12 + best_prior_bit_len;
        let n = num_non_zeros_edge_bin * 14 + zig15offset;
        let ghost m0 = self@;
        assert(m0.exp_edge[e as int].len() == 11);
        let length = bool_reader.get_unary_encoded(&mut self.exponent_counts_x[e]);
        assert(self@.exp_edge =~= m0.exp_edge.update(
            e as int,
            states_of(self.exponent_counts_x[e as int]),
        ));
        if length == 0 {
            return 0;
        }
        let ghost m1 = self@;
        let g = calc_sign_index(best_prior) * 12 + best_prior_bit_len;
        let positive = bool_reader.get(&mut self.sign_counts[g]);
        assert(self@.sign =~= m1.sign.update(g as int, self.sign_counts[g as int].state()));
        let ghost m2 = self@;
        let min_threshold = qt.get_min_noise_threshold(zig15offset) as usize;
        let mut coef: i16 = 1;
        let mut low_digits: usize = length - 1;
        proof {
            lemma_two_to_values();
        }
        if length >= 2 + min_threshold {
            let by_prior = best_prior_abs >> (min_threshold as u32);
            let by_prior: usize = if by_prior < 255 {
                by_prior as usize
            } else {
                255
            };
            let by_length = if length - min_threshold < 7 {
                length - min_threshold
            } else {
                7
            };
            let t = by_prior * 8 + by_length;
            assert(m2.threshold[t as int].len() == 128);
            coef = read_leading_digits(
                bool_reader,
                &mut self.residual_threshold_counts[t],
                length - 2,
                min_threshold,
            );
            assert(self@.threshold =~= m2.threshold.update(
                t as int,
                states_of(self.residual_threshold_counts[t as int]),
            ));
            low_digits = min_threshold;
        }
        let ghost m3 = self@;
        proof {
            lemma_two_to_product(low_digits as int, length as int);
            lemma_two_to_grows(length as int, 11);
            lemma_two_to_grows(0, low_digits as int);
        }
        let mut low: usize = 0;
        if low_digits > 0 {
            assert(m3.noise_edge[n as int].len() == 3);
            assert(low_digits <= 3);
            low = bool_reader.get_n_bits(low_digits, &mut self.residual_noise_counts_x[n]);
            assert(self@.noise_edge =~= m3.noise_edge.update(
                n as int,
                states_of(self.residual_noise_counts_x[n as int]),
            ));
        }
        let scale = power_of_two(low_digits);
        proof {
            let c = coef as int;
            let p = two_to(low_digits as int);
            let top = two_to(length - low_digits);
            assert(c * p + low < top * p && c * p >= 0) by (nonlinear_arith)
                requires
                    0 <= c < top,
                    0 <= low < p,
            ;
        }
        let magnitude = (coef as usize * scale + low) as i16;
        if positive {
            magnitude
        } else {
            -magnitude
        }
    }
}

/// Reads the digits of an edge coefficient from digit `top` down to digit
/// `floor`, below its leading one, with a tree of cells.
pub fn read_leading_digits(
    bool_reader: &mut VPXBoolReader,
    thresh_prob: &mut [Branch; 128],
    top: usize,
    floor: usize,
) -> (coef: i16)
    requires
        floor <= top <= 9,
    ensures
        final(bool_reader).data() == old(bool_reader).data(),
        registers_valid(final(bool_reader).state()),
        (coef as int, final(bool_reader).state(), states_of(*final(thresh_prob))) == leading_digits(
            old(bool_reader).data(),
            old(bool_reader).state(),
            states_of(*old(thresh_prob)),
            top as int,
            floor as int,
            1,
            1,
        ),
        1 <= coef < two_to(top - floor + 2),
{
    let mut coef: i16 = 1;
    let mut decoded_so_far: usize = 1;
    let mut i: usize = top + 1;
    proof {
        lemma_two_to_values();
    }
    while i > floor
        invariant
            floor <= i <= top + 1,
            top <= 9,
            1 <= decoded_so_far < 128,
            bool_reader.data() == old(bool_reader).data(),
            registers_valid(bool_reader.state()) || i == top + 1,
            1 <= coef < two_to(top + 2 - i),
            two_to(11) == 2048,
            i == floor ==> i <= top,
            leading_digits(
                bool_reader.data(),
                bool_reader.state(),
                states_of(*thresh_prob),
                i - 1,
                floor as int,
                coef as int,
                decoded_so_far as int,
            ) == leading_digits(
                old(bool_reader).data(),
                old(bool_reader).state(),
                states_of(*old(thresh_prob)),
                top as int,
                floor as int,
                1,
                1,
            ),
        decreases i,
    {
        let ghost cells = states_of(*thresh_prob);
        let cur_bit = bool_reader.get(&mut thresh_prob[decoded_so_far]);
        assert(states_of(*thresh_prob) =~= cells.update(
            decoded_so_far as int,
            after_bit(cells[decoded_so_far as int], cur_bit),
        ));
        let digit: usize = if cur_bit {
            1
        } else {
            0
        };
        proof {
            lemma_two_to_grows(top + 3 - i, 11);
        }
        coef = coef * 2 + digit as i16;
        decoded_so_far = decoded_so_far * 2 + digit;
        if decoded_so_far > 127 {
            decoded_so_far = 127;
        }
        i -= 1;
    }
    coef
}

/// 0 for zero, 1 for a positive and 2 for a negative value.
pub fn calc_sign_index(val: i32) -> (r: usize)
    ensures
        r == sign_index(val as int),
{
    if val == 0 {
        0
    } else if val > 0 {
        1
    } else {
        2
    }
}

impl Model {
    /// A model whose cells have seen nothing yet.
    pub fn new() -> (r: Self)
        ensures
            r@ == fresh_model(),
            model_shaped(r@),
    {
        let r = Model {
            per_color: [ModelPerColor::new(), ModelPerColor::new()],
            exponent_counts_dc: fresh_cells(204),
            residual_noise_counts_dc: fresh_cells(12),
        };
        assert(r@.per_color =~= fresh_model().per_color);
        r
    }

    /// Reads the count of non-zero coefficients off the first row and
    /// column of a block of the colour `color_index`.
    pub fn read_non_zero_7x7_count(
        &mut self,
        bool_reader: &mut VPXBoolReader,
        color_index: usize,
        num_non_zeros_7x7_context_bin: u8,
    ) -> (r: u8)
        requires
            model_shaped(old(self)@),
            color_index < 2,
            num_non_zeros_7x7_context_bin < 9,
        ensures
            model_shaped(final(self)@),
            final(bool_reader).data() == old(bool_reader).data(),
            registers_valid(final(bool_reader).state()),
            (r as int, final(bool_reader).state(), final(self)@.per_color[color_index as int])
                == non_zero_7x7_count(
                old(bool_reader).data(),
                old(bool_reader).state(),
                old(self)@.per_color[color_index as int],
                num_non_zeros_7x7_context_bin as int,
            ),
            final(self)@ == old(self)@.with_color(
                color_index as int,
                final(self)@.per_color[color_index as int],
            ),
            r < 64,
    {
        let r = self.per_color[color_index].read_non_zero_7x7_count(
            bool_reader,
            num_non_zeros_7x7_context_bin,
        );
        assert(self@.per_color =~= old(self)@.per_color.update(
            color_index as int,
            self@.per_color[color_index as int],
        ));
        r
    }

    /// Reads the count of non-zero coefficients on one edge of a block of
    /// the colour `color_index`.
    pub fn read_non_zero_edge_count<const HORIZONTAL: bool>(
        &mut self,
        bool_reader: &mut VPXBoolReader,
        color_index: usize,
        est_eob: u8,
        num_non_zeros_bin: u8,
    ) -> (r: u8)
        requires
            model_shaped(old(self)@),
            color_index < 2,
            est_eob < 8,
            num_non_zeros_bin < 8,
        ensures
            model_shaped(final(self)@),
            final(bool_reader).data() == old(bool_reader).data(),
            registers_valid(final(bool_reader).state()),
            (r as int, final(bool_reader).state(), final(self)@.per_color[color_index as int])
                == non_zero_edge_count(
                old(bool_reader).data(),
                old(bool_reader).state(),
                old(self)@.per_color[color_index as int],
                HORIZONTAL,
                est_eob as int,
                num_non_zeros_bin as int,
            ),
            final(self)@ == old(self)@.with_color(
                color_index as int,
                final(self)@.per_color[color_index as int],
            ),
            r < 8,
    {
        let r = self.per_color[color_index].read_non_zero_edge_count::<HORIZONTAL>(
            bool_reader,
            est_eob,
            num_non_zeros_bin,
        );
        assert(self@.per_color =~= old(self)@.per_color.update(
            color_index as int,
            self@.per_color[color_index as int],
        ));
        r
    }

    /// Reads one of the 49 coefficients off the first row and column of a
    /// block of the colour `color_index`.
    pub fn read_coef(
        &mut self,
        bool_reader: &mut VPXBoolReader,
        color_index: usize,
        zig49: usize,
        num_non_zeros_bin: usize,
        best_prior_bit_len: usize,
    ) -> (r: i16)
        requires
            model_shaped(old(self)@),
            color_index < 2,
            zig49 < 49,
            num_non_zeros_bin < 9,
            best_prior_bit_len < 12,
        ensures
            model_shaped(final(self)@),
            final(bool_reader).data() == old(bool_reader).data(),
            registers_valid(final(bool_reader).state()),
            (r as int, final(bool_reader).state(), final(self)@.per_color[color_index as int])
                == inner_coef(
                old(bool_reader).data(),
                old(bool_reader).state(),
                old(self)@.per_color[color_index as int],
                zig49 as int,
                num_non_zeros_bin as int,
                best_prior_bit_len as int,
            ),
            final(self)@ == old(self)@.with_color(
                color_index as int,
                final(self)@.per_color[color_index as int],
            ),
            -2048 < r < 2048,
    {
        let r = self.per_color[color_index].read_coef(
            bool_reader,
            zig49,
            num_non_zeros_bin,
            best_prior_bit_len,
        );
        assert(self@.per_color =~= old(self)@.per_color.update(
            color_index as int,
            self@.per_color[color_index as int],
        ));
        r
    }

    /// Reads one of the 14 coefficients of the first row and column of a
    /// block of the colour `color_index`.
    pub fn read_edge_coefficient(
        &mut self,
        bool_reader: &mut VPXBoolReader,
        color_index: usize,
        qt: &QuantizationTables,
        zig15offset: usize,
        num_non_zeros_edge: u8,
        best_prior: i32,
    ) -> (r: i16)
        requires
            model_shaped(old(self)@),
            color_index < 2,
            qt.derived(),
            zig15offset < 14,
            1 <= num_non_zeros_edge <= 7,
        ensures
            model_shaped(final(self)@),
            final(bool_reader).data() == old(bool_reader).data(),
            registers_valid(final(bool_reader).state()),
            (r as int, final(bool_reader).state(), final(self)@.per_color[color_index as int])
                == edge_coef(
                old(bool_reader).data(),
                old(bool_reader).state(),
                old(self)@.per_color[color_index as int],
                qt.noise_thresholds()[zig15offset as int] as int,
                zig15offset as int,
                num_non_zeros_edge as int,
                best_prior as int,
            ),
            final(self)@ == old(self)@.with_color(
                color_index as int,
                final(self)@.per_color[color_index as int],
            ),
            -2048 < r < 2048,
    {
        let r = self.per_color[color_index].read_edge_coefficient(
            bool_reader,
            qt,
            zig15offset,
            num_non_zeros_edge,
            best_prior,
        );
        assert(self@.per_color =~= old(self)@.per_color.update(
            color_index as int,
            self@.per_color[color_index as int],
        ));
        r
    }

    /// Reads the difference between a DC coefficient and its prediction.
    pub fn read_dc(
        &mut self,
        bool_reader: &mut VPXBoolReader,
        color_index: usize,
        uncertainty: i16,
        uncertainty2: i16,
    ) -> (r: i16)
        requires
            model_shaped(old(self)@),
            color_index < 2,
        ensures
            model_shaped(final(self)@),
            final(bool_reader).data() == old(bool_reader).data(),
            registers_valid(final(bool_reader).state()),
            (r as int, final(bool_reader).state(), final(self)@) == dc_difference(
                old(bool_reader).data(),
                old(bool_reader).state(),
                old(self)@,
                color_index as int,
                uncertainty as int,
                uncertainty2 as int,
            ),
            -2048 < r < 2048,
    {
        reveal(dc_difference);
        let len_abs_mxm = u16_bit_length(uncertainty.unsigned_abs()) as usize;
        let len_abs_offset_to_closest_edge = u16_bit_length(uncertainty2.unsigned_abs()) as usize;
        let len_abs_mxm_clamp = if len_abs_mxm < NUMERIC_LENGTH_MAX - 1 {
            len_abs_mxm
        } else {
            NUMERIC_LENGTH_MAX - 1
        };
        let e = len_abs_mxm_clamp * 17 + len_abs_offset_to_closest_edge;
        let g = calc_sign_index(uncertainty2 as i32) + 1;
        let ghost m0 = self@;
        assert(m0.exp_dc[e as int].len() == 11);
        assert(m0.noise_dc[len_abs_mxm_clamp as int].len() == 10);
        proof {
            lemma_two_to_values();
        }
        let r = read_length_sign_coef(
            bool_reader,
            &mut self.exponent_counts_dc[e],
            &mut self.per_color[color_index].sign_counts[g],
            &mut self.residual_noise_counts_dc[len_abs_mxm_clamp],
        );
        assert(self@.exp_dc =~= m0.exp_dc.update(
            e as int,
            states_of(self.exponent_counts_dc[e as int]),
        ));
        assert(self@.noise_dc =~= m0.noise_dc.update(
            len_abs_mxm_clamp as int,
            states_of(self.residual_noise_counts_dc[len_abs_mxm_clamp as int]),
        ));
        assert(self@.per_color[color_index as int].sign =~= m0.per_color[color_index as int].sign.update(
            g as int,
            self.per_color[color_index as int].sign_counts[g as int].state(),
        ));
        assert(self@.per_color =~= m0.per_color.update(
            color_index as int,
            PerColorState {
                sign: m0.per_color[color_index as int].sign.update(
                    g as int,
                    self.per_color[color_index as int].sign_counts[g as int].state(),
                ),
                ..m0.per_color[color_index as int]
            },
        ));
        r
    }
}

/// The state of the encoder and of the cells after a signed value has
/// been coded: its length in unary with `exp`, its sign with `sign`, and
/// the digits below its leading one with `bits`.
pub open spec fn length_sign_put(
    e: EncoderState,
    exp: Seq<u16>,
    sign: u16,
    bits: Seq<u16>,
    coef: int,
) -> (EncoderState, Seq<u16>, u16, Seq<u16>) {
    let length = bit_length(magnitude(coef));
    let (e1, exp1) = unary_put(e, exp, exp.len() as int, length, 0);
    if coef == 0 {
        (e1, exp1, sign, bits)
    } else {
        let e2 = after_putting(e1, probability_of(sign), coef > 0);
        let sign1 = after_bit(sign, coef > 0);
        let (e3, bits1) = bits_put(e2, bits, magnitude(coef), length - 1);
        (e3, exp1, sign1, bits1)
    }
}

/// The state of the encoder and of the cells after the digits of an edge
/// coefficient of magnitude `abs` from digit `i` down to digit `floor` have
/// been coded with a tree of cells, from the node `node` on.
pub open spec fn leading_digits_put(
    e: EncoderState,
    cells: Seq<u16>,
    abs: int,
    i: int,
    floor: int,
    node: int,
) -> (EncoderState, Seq<u16>)
    decreases i - floor + 1,
{
    if i < floor {
        (e, cells)
    } else {
        let bit = (abs / two_to(i)) % 2 == 1;
        let b = if bit {
            1int
        } else {
            0int
        };
        leading_digits_put(
            after_putting(e, probability_of(cells[node]), bit),
            cells.update(node, after_bit(cells[node], bit)),
            abs,
            i - 1,
            floor,
            at_most(2 * node + b, cells.len() - 1),
        )
    }
}

/// The state after the count of non-zero inner coefficients has been coded.
#[verifier::opaque]
pub open spec fn non_zero_7x7_put(e: EncoderState, m: PerColorState, bin: int, count: int) -> (
    EncoderState,
    PerColorState,
) {
    let (e1, cells) = grid_put(e, m.nz7x7[bin], count, 1, 6);
    (e1, PerColorState { nz7x7: m.nz7x7.update(bin, cells), ..m })
}

/// The state after the count of non-zero coefficients on one edge has been
/// coded.
#[verifier::opaque]
pub open spec fn non_zero_edge_put(
    e: EncoderState,
    m: PerColorState,
    horizontal: bool,
    eob: int,
    bin: int,
    count: int,
) -> (EncoderState, PerColorState) {
    let at = edge_count_index(horizontal, eob, bin);
    let (e1, cells) = grid_put(e, m.edge_count[at], count, 1, 3);
    (e1, PerColorState { edge_count: m.edge_count.update(at, cells), ..m })
}

/// The state after an inner coefficient has been coded.
#[verifier::opaque]
pub open spec fn inner_put(
    e: EncoderState,
    m: PerColorState,
    zig49: int,
    bin: int,
    prior_len: int,
    coef: int,
) -> (EncoderState, PerColorState) {
    let x = exp7x7_index(bin, zig49, prior_len);
    let n = bin * 49 + zig49;
    let (e1, exp, sign, bits) = length_sign_put(e, m.exp7x7[x], m.sign[0], m.noise7x7[n], coef);
    (
        e1,
        PerColorState {
            exp7x7: m.exp7x7.update(x, exp),
            sign: m.sign.update(0, sign),
            noise7x7: m.noise7x7.update(n, bits),
            ..m
        },
    )
}

/// The state after an edge coefficient has been coded.
#[verifier::opaque]
pub open spec fn edge_put(
    e: EncoderState,
    m: PerColorState,
    floor: int,
    zig15: int,
    remaining: int,
    prior: int,
    coef: int,
) -> (EncoderState, PerColorState) {
    let bin = remaining - 1;
    let prior_len = at_most(bit_length(magnitude(prior)), MAX_EXPONENT - 1);
    let x = exp_edge_index(bin, zig15, prior_len);
    let length = bit_length(magnitude(coef));
    let (e1, exp) = unary_put(e, m.exp_edge[x], 11, length, 0);
    let m1 = PerColorState { exp_edge: m.exp_edge.update(x, exp), ..m };
    if coef == 0 {
        (e1, m1)
    } else {
        let g = sign_index(prior) * 12 + prior_len;
        let e2 = after_putting(e1, probability_of(m1.sign[g]), coef > 0);
        let m2 = PerColorState { sign: m1.sign.update(g, after_bit(m1.sign[g], coef > 0)), ..m1 };
        let t = at_most((magnitude(prior) as u32 >> (floor as u32)) as int, 255) * 8 + at_most(
            length - floor,
            7,
        );
        let (e3, cells) = if length - 2 >= floor {
            leading_digits_put(e2, m2.threshold[t], magnitude(coef), length - 2, floor, 1)
        } else {
            (e2, m2.threshold[t])
        };
        let m3 = if length - 2 >= floor {
            PerColorState { threshold: m2.threshold.update(t, cells), ..m2 }
        } else {
            m2
        };
        let low_digits = if length - 2 >= floor {
            floor
        } else {
            length - 1
        };
        let n = bin * 14 + zig15;
        let (e4, noise) = if low_digits > 0 {
            bits_put(e3, m3.noise_edge[n], magnitude(coef), low_digits)
        } else {
            (e3, m3.noise_edge[n])
        };
        let m4 = if low_digits > 0 {
            PerColorState { noise_edge: m3.noise_edge.update(n, noise), ..m3 }
        } else {
            m3
        };
        (e4, m4)
    }
}

/// The state after the difference between a DC coefficient and its
/// prediction has been coded.
#[verifier::opaque]
pub open spec fn dc_put(
    e: EncoderState,
    m: ModelState,
    color: int,
    uncertainty: int,
    uncertainty2: int,
    difference: int,
) -> (EncoderState, ModelState) {
    let wide = at_most(bit_length(magnitude(uncertainty)), NUMERIC_LENGTH_MAX - 1);
    let x = wide * 17 + bit_length(magnitude(uncertainty2));
    let g = sign_index(uncertainty2) + 1;
    let (e1, exp, sign, bits) = length_sign_put(
        e,
        m.exp_dc[x],
        m.per_color[color].sign[g],
        m.noise_dc[wide],
        difference,
    );
    (
        e1,
        ModelState {
            per_color: m.per_color.update(
                color,
                PerColorState { sign: m.per_color[color].sign.update(g, sign), ..m.per_color[color] },
            ),
            exp_dc: m.exp_dc.update(x, exp),
            noise_dc: m.noise_dc.update(wide, bits),
        },
    )
}

/// Codes a signed value of up to `A` binary digits: its length in unary
/// with `magnitude_branches`, its sign with `sign_branch`, and the digits
/// below its leading one with `bits_branch`.
pub fn write_length_sign_coef<const A: usize, const B: usize>(
    bool_writer: &mut VPXBoolWriter,
    coef: i16,
    magnitude_branches: &mut [Branch; A],
    sign_branch: &mut Branch,
    bits_branch: &mut [Branch; B],
)
    requires
        A <= 15,
        A <= B + 1,
        bit_length(magnitude(coef as int)) <= A,
    ensures
        encoder_valid(final(bool_writer).state()),
        (
            final(bool_writer).state(),
            states_of(*final(magnitude_branches)),
            final(sign_branch).state(),
            states_of(*final(bits_branch)),
        ) == length_sign_put(
            old(bool_writer).state(),
            states_of(*old(magnitude_branches)),
            old(sign_branch).state(),
            states_of(*old(bits_branch)),
            coef as int,
        ),
{
    let abs_coef = coef.unsigned_abs();
    let coef_bit_len = u16_bit_length(abs_coef) as usize;
    bool_writer.put_unary_encoded(coef_bit_len, magnitude_branches);
    if coef != 0 {
        bool_writer.put(coef > 0, sign_branch);
        bool_writer.put_n_bits(abs_coef as usize, coef_bit_len - 1, bits_branch);
    }
}

/// Codes the digits of an edge coefficient of magnitude `abs_coef` from
/// digit `top` down to digit `floor` with a tree of cells.
pub fn write_leading_digits(
    bool_writer: &mut VPXBoolWriter,
    thresh_prob: &mut [Branch; 128],
    abs_coef: u16,
    top: usize,
    floor: usize,
)
    requires
        floor <= top <= 9,
    ensures
        encoder_valid(final(bool_writer).state()),
        (final(bool_writer).state(), states_of(*final(thresh_prob))) == leading_digits_put(
            old(bool_writer).state(),
            states_of(*old(thresh_prob)),
            abs_coef as int,
            top as int,
            floor as int,
            1,
        ),
{
    let mut encoded_so_far: usize = 1;
    let mut i: usize = top + 1;
    while i > floor
        invariant
            floor <= i <= top + 1,
            top <= 9,
            1 <= encoded_so_far < 128,
            encoder_valid(bool_writer.state()) || i == top + 1,
            leading_digits_put(
                bool_writer.state(),
                states_of(*thresh_prob),
                abs_coef as int,
                i - 1,
                floor as int,
                encoded_so_far as int,
            ) == leading_digits_put(
                old(bool_writer).state(),
                states_of(*old(thresh_prob)),
                abs_coef as int,
                top as int,
                floor as int,
                1,
            ),
        decreases i,
    {
        let cur_bit = (abs_coef as usize / power_of_two(i - 1)) % 2 == 1;
        let ghost cells = states_of(*thresh_prob);
        bool_writer.put(cur_bit, &mut thresh_prob[encoded_so_far]);
        assert(states_of(*thresh_prob) =~= cells.update(
            encoded_so_far as int,
            after_bit(cells[encoded_so_far as int], cur_bit),
        ));
        encoded_so_far = encoded_so_far * 2 + if cur_bit {
            1
        } else {
            0
        };
        if encoded_so_far > 127 {
            encoded_so_far = 127;
        }
        i -= 1;
    }
}

impl ModelPerColor {
    /// Codes the count of non-zero coefficients off the first row and column.
    pub fn write_non_zero_7x7_count(
        &mut self,
        bool_writer: &mut VPXBoolWriter,
        num_non_zeros_7x7_context_bin: u8,
        num_non_zeros_7x7: u8,
    )
        requires
            per_color_shaped(old(self)@),
            num_non_zeros_7x7_context_bin < 9,
            num_non_zeros_7x7 < 64,
        ensures
            per_color_shaped(final(self)@),
            encoder_valid(final(bool_writer).state()),
            (final(bool_writer).state(), final(self)@) == non_zero_7x7_put(
                old(bool_writer).state(),
                old(self)@,
                num_non_zeros_7x7_context_bin as int,
                num_non_zeros_7x7 as int,
            ),
    {
        reveal(non_zero_7x7_put);
        let at = num_non_zeros_7x7_context_bin as usize;
        assert(old(self)@.nz7x7[at as int].len() == 64);
        proof {
            reveal_with_fuel(is_power_of_two, 8);
            reveal_with_fuel(exponent_of, 8);
        }
        bool_writer.put_grid(num_non_zeros_7x7, &mut self.num_non_zeros_counts7x7[at]);
        assert(self@.nz7x7 =~= old(self)@.nz7x7.update(
            at as int,
            states_of(self.num_non_zeros_counts7x7[at as int]),
        ));
    }

    /// Codes the count of non-zero coefficients on one edge.
    pub fn write_non_zero_edge_count<const HORIZONTAL: bool>(
        &mut self,
        bool_writer: &mut VPXBoolWriter,
        est_eob: u8,
        num_non_zeros_bin: u8,
        num_non_zeros_edge: u8,
    )
        requires
            per_color_shaped(old(self)@),
            est_eob < 8,
            num_non_zeros_bin < 8,
            num_non_zeros_edge < 8,
        ensures
            per_color_shaped(final(self)@),
            encoder_valid(final(bool_writer).state()),
            (final(bool_writer).state(), final(self)@) == non_zero_edge_put(
                old(bool_writer).state(),
                old(self)@,
                HORIZONTAL,
                est_eob as int,
                num_non_zeros_bin as int,
                num_non_zeros_edge as int,
            ),
    {
        reveal(non_zero_edge_put);
        let direction: usize = if HORIZONTAL {
            1
        } else {
            0
        };
        let at = (direction * 8 + est_eob as usize) * 8 + num_non_zeros_bin as usize;
        assert(old(self)@.edge_count[at as int].len() == 8);
        proof {
            reveal_with_fuel(is_power_of_two, 5);
            reveal_with_fuel(exponent_of, 5);
        }
        bool_writer.put_grid(num_non_zeros_edge, &mut self.num_non_zeros_counts_edge[at]);
        assert(self@.edge_count =~= old(self)@.edge_count.update(
            at as int,
            states_of(self.num_non_zeros_counts_edge[at as int]),
        ));
    }

    /// Codes one of the 49 coefficients off the first row and column. A
    /// coefficient of more than eleven digits cannot be coded.
    pub fn write_coef(
        &mut self,
        bool_writer: &mut VPXBoolWriter,
        coef: i16,
        zig49: usize,
        num_non_zeros_bin: usize,
        best_prior_bit_len: usize,
    ) -> (r: Result<(), ExitCode>)
        requires
            per_color_shaped(old(self)@),
            zig49 < 49,
            num_non_zeros_bin < 9,
            best_prior_bit_len < 12,
        ensures
            per_color_shaped(final(self)@),
            encoder_valid(final(bool_writer).state()),
            r.is_ok() <==> -2048 < coef < 2048,
            r.is_err() ==> r == Err::<(), ExitCode>(ExitCode::CoefficientOutOfRange)
                && final(bool_writer).state() == old(bool_writer).state() && final(self)@ == old(
                self,
            )@,
            r.is_ok() ==> (final(bool_writer).state(), final(self)@) == inner_put(
                old(bool_writer).state(),
                old(self)@,
                zig49 as int,
                num_non_zeros_bin as int,
                best_prior_bit_len as int,
                coef as int,
            ),
    {
        reveal(inner_put);
        bool_writer.lemma_valid();
        if u16_bit_length(coef.unsigned_abs()) as usize > MAX_EXPONENT {
            return Err(ExitCode::CoefficientOutOfRange);
        }
        let x = (num_non_zeros_bin * 49 + zig49) * 12 + best_prior_bit_len;
        let n = num_non_zeros_bin * 49 + zig49;
        assert(old(self)@.exp7x7[x as int].len() == 11);
        assert(old(self)@.noise7x7[n as int].len() == 10);
        write_length_sign_coef(
            bool_writer,
            coef,
            &mut self.exponent_counts[x],
            &mut self.sign_counts[0],
            &mut self.residual_noise_counts[n],
        );
        assert(self@.exp7x7 =~= old(self)@.exp7x7.update(
            x as int,
            states_of(self.exponent_counts[x as int]),
        ));
        assert(self@.noise7x7 =~= old(self)@.noise7x7.update(
            n as int,
            states_of(self.residual_noise_counts[n as int]),
        ));
        assert(self@.sign =~= old(self)@.sign.update(0, self.sign_counts[0].state()));
        Ok(())
    }

    /// Codes one of the 14 coefficients of the first row and column. A
    /// coefficient of more than eleven digits cannot be coded.
    pub fn write_edge_coefficient(
        &mut self,
        bool_writer: &mut VPXBoolWriter,
        qt: &QuantizationTables,
        coef: i16,
        zig15offset: usize,
        num_non_zeros_edge: u8,
        best_prior: i32,
    ) -> (r: Result<(), ExitCode>)
        requires
            per_color_shaped(old(self)@),
            qt.derived(),
            zig15offset < 14,
            1 <= num_non_zeros_edge <= 7,
        ensures
            per_color_shaped(final(self)@),
            encoder_valid(final(bool_writer).state()),
            r.is_ok() <==> -2048 < coef < 2048,
            r.is_err() ==> r == Err::<(), ExitCode>(ExitCode::CoefficientOutOfRange)
                && final(bool_writer).state() == old(bool_writer).state() && final(self)@ == old(
                self,
            )@,
            r.is_ok() ==> (final(bool_writer).state(), final(self)@) == edge_put(
                old(bool_writer).state(),
                old(self)@,
                qt.noise_thresholds()[zig15offset as int] as int,
                zig15offset as int,
                num_non_zeros_edge as int,
                best_prior as int,
                coef as int,
            ),
    {
        bool_writer.lemma_valid();
        if u16_bit_length(coef.unsigned_abs()) as usize > MAX_EXPONENT {
            return Err(ExitCode::CoefficientOutOfRange);
        }
        self.write_edge_coefficient_in_range(
            bool_writer,
            qt,
            coef,
            zig15offset,
            num_non_zeros_edge,
            best_prior,
        );
        Ok(())
    }

    #[verifier::rlimit(40)]
    fn write_edge_coefficient_in_range(
        &mut self,
        bool_writer: &mut VPXBoolWriter,
        qt: &QuantizationTables,
        coef: i16,
        zig15offset: usize,
        num_non_zeros_edge: u8,
        best_prior: i32,
    )
        requires
            per_color_shaped(old(self)@),
            qt.derived(),
            zig15offset < 14,
            1 <= num_non_zeros_edge <= 7,
            -2048 < coef < 2048,
        ensures
            per_color_shaped(final(self)@),
            encoder_valid(final(bool_writer).state()),
            (final(bool_writer).state(), final(self)@) == edge_put(
                old(bool_writer).state(),
                old(self)@,
                qt.noise_thresholds()[zig15offset as int] as int,
                zig15offset as int,
                num_non_zeros_edge as int,
                best_prior as int,
                coef as int,
            ),
    {
        reveal(edge_put);
        let num_non_zeros_edge_bin = num_non_zeros_edge as usize - 1;
        let best_prior_abs = best_prior.unsigned_abs();
        let prior_len = u32_bit_length(best_prior_abs) as usize;
        let best_prior_bit_len = if prior_len < MAX_EXPONENT - 1 {
            prior_len
        } else {
            MAX_EXPONENT - 1
        };
        let abs_coef = coef.unsigned_abs();
        let length = u16_bit_length(abs_coef) as usize;
        let x = (num_non_zeros_edge_bin * 14 + zig15offset) * 12 + best_prior_bit_len;
        let n = num_non_zeros_edge_bin * 14 + zig15offset;
        let ghost m0 = self@;
        assert(m0.exp_edge[x as int].len() == 11);
        bool_writer.put_unary_encoded(length, &mut self.exponent_counts_x[x]);
        assert(self@.exp_edge =~= m0.exp_edge.update(
            x as int,
            states_of(self.exponent_counts_x[x as int]),
        ));
        if coef == 0 {
            return ;
        }
        let ghost m1 = self@;
        let g = calc_sign_index(best_prior) * 12 + best_prior_bit_len;
        bool_writer.put(coef > 0, &mut self.sign_counts[g]);
        assert(self@.sign =~= m1.sign.update(g as int, self.sign_counts[g as int].state()));
        let ghost m2 = self@;
        let min_threshold = qt.get_min_noise_threshold(zig15offset) as usize;
        let mut low_digits: usize = length - 1;
        if length >= 2 + min_threshold {
            let by_prior = best_prior_abs >> (min_threshold as u32);
            let by_prior: usize = if by_prior < 255 {
                by_prior as usize
            } else {
                255
            };
            let by_length = if length - min_threshold < 7 {
                length - min_threshold
            } else {
                7
            };
            let t = by_prior * 8 + by_length;
            assert(m2.threshold[t as int].len() == 128);
            write_leading_digits(
                bool_writer,
                &mut self.residual_threshold_counts[t],
                abs_coef,
                length - 2,
                min_threshold,
            );
            assert(self@.threshold =~= m2.threshold.update(
                t as int,
                states_of(self.residual_threshold_counts[t as int]),
            ));
            low_digits = min_threshold;
        }
        let ghost m3 = self@;
        if low_digits > 0 {
            assert(m3.noise_edge[n as int].len() == 3);
            assert(low_digits <= 3);
            bool_writer.put_n_bits(
                abs_coef as usize,
                low_digits,
                &mut self.residual_noise_counts_x[n],
            );
            assert(self@.noise_edge =~= m3.noise_edge.update(
                n as int,
                states_of(self.residual_noise_counts_x[n as int]),
            ));
        }
    }
}

impl Model {
    /// Codes the count of non-zero coefficients off the first row and
    /// column of a block of the colour `color_index`.
    pub fn write_non_zero_7x7_count(
        &mut self,
        bool_writer: &mut VPXBoolWriter,
        color_index: usize,
        num_non_zeros_7x7_context_bin: u8,
        num_non_zeros_7x7: u8,
    )
        requires
            model_shaped(old(self)@),
            color_index < 2,
            num_non_zeros_7x7_context_bin < 9,
            num_non_zeros_7x7 < 64,
        ensures
            model_shaped(final(self)@),
            encoder_valid(final(bool_writer).state()),
            (final(bool_writer).state(), final(self)@.per_color[color_index as int])
                == non_zero_7x7_put(
                old(bool_writer).state(),
                old(self)@.per_color[color_index as int],
                num_non_zeros_7x7_context_bin as int,
                num_non_zeros_7x7 as int,
            ),
            final(self)@ == old(self)@.with_color(
                color_index as int,
                final(self)@.per_color[color_index as int],
            ),
    {
        self.per_color[color_index].write_non_zero_7x7_count(
            bool_writer,
            num_non_zeros_7x7_context_bin,
            num_non_zeros_7x7,
        );
        assert(self@.per_color =~= old(self)@.per_color.update(
            color_index as int,
            self@.per_color[color_index as int],
        ));
    }

    /// Codes the count of non-zero coefficients on one edge of a block of
    /// the colour `color_index`.
    pub fn write_non_zero_edge_count<const HORIZONTAL: bool>(
        &mut self,
        bool_writer: &mut VPXBoolWriter,
        color_index: usize,
        est_eob: u8,
        num_non_zeros_bin: u8,
        num_non_zeros_edge: u8,
    )
        requires
            model_shaped(old(self)@),
            color_index < 2,
            est_eob < 8,
            num_non_zeros_bin < 8,
            num_non_zeros_edge < 8,
        ensures
            model_shaped(final(self)@),
            encoder_valid(final(bool_writer).state()),
            (final(bool_writer).state(), final(self)@.per_color[color_index as int])
                == non_zero_edge_put(
                old(bool_writer).state(),
                old(self)@.per_color[color_index as int],
                HORIZONTAL,
                est_eob as int,
                num_non_zeros_bin as int,
                num_non_zeros_edge as int,
            ),
            final(self)@ == old(self)@.with_color(
                color_index as int,
                final(self)@.per_color[color_index as int],
            ),
    {
        self.per_color[color_index].write_non_zero_edge_count::<HORIZONTAL>(
            bool_writer,
            est_eob,
            num_non_zeros_bin,
            num_non_zeros_edge,
        );
        assert(self@.per_color =~= old(self)@.per_color.update(
            color_index as int,
            self@.per_color[color_index as int],
        ));
    }

    /// Codes one of the 49 coefficients off the first row and column of a
    /// block of the colour `color_index`.
    pub fn write_coef(
        &mut self,
        bool_writer: &mut VPXBoolWriter,
        color_index: usize,
        coef: i16,
        zig49: usize,
        num_non_zeros_bin: usize,
        best_prior_bit_len: usize,
    ) -> (r: Result<(), ExitCode>)
        requires
            model_shaped(old(self)@),
            color_index < 2,
            zig49 < 49,
            num_non_zeros_bin < 9,
            best_prior_bit_len < 12,
        ensures
            model_shaped(final(self)@),
            encoder_valid(final(bool_writer).state()),
            r.is_ok() <==> -2048 < coef < 2048,
            r.is_err() ==> r == Err::<(), ExitCode>(ExitCode::CoefficientOutOfRange),
            r.is_ok() ==> (
                final(bool_writer).state(),
                final(self)@.per_color[color_index as int],
            ) == inner_put(
                old(bool_writer).state(),
                old(self)@.per_color[color_index as int],
                zig49 as int,
                num_non_zeros_bin as int,
                best_prior_bit_len as int,
                coef as int,
            ),
            final(self)@ == old(self)@.with_color(
                color_index as int,
                final(self)@.per_color[color_index as int],
            ),
    {
        let r = self.per_color[color_index].write_coef(
            bool_writer,
            coef,
            zig49,
            num_non_zeros_bin,
            best_prior_bit_len,
        );
        assert(self@.per_color =~= old(self)@.per_color.update(
            color_index as int,
            self@.per_color[color_index as int],
        ));
        r
    }

    /// Codes one of the 14 coefficients of the first row and column of a
    /// block of the colour `color_index`.
    pub fn write_edge_coefficient(
        &mut self,
        bool_writer: &mut VPXBoolWriter,
        color_index: usize,
        qt: &QuantizationTables,
        coef: i16,
        zig15offset: usize,
        num_non_zeros_edge: u8,
        best_prior: i32,
    ) -> (r: Result<(), ExitCode>)
        requires
            model_shaped(old(self)@),
            color_index < 2,
            qt.derived(),
            zig15offset < 14,
            1 <= num_non_zeros_edge <= 7,
        ensures
            model_shaped(final(self)@),
            encoder_valid(final(bool_writer).state()),
            r.is_ok() <==> -2048 < coef < 2048,
            r.is_err() ==> r == Err::<(), ExitCode>(ExitCode::CoefficientOutOfRange),
            r.is_ok() ==> (
                final(bool_writer).state(),
                final(self)@.per_color[color_index as int],
            ) == edge_put(
                old(bool_writer).state(),
                old(self)@.per_color[color_index as int],
                qt.noise_thresholds()[zig15offset as int] as int,
                zig15offset as int,
                num_non_zeros_edge as int,
                best_prior as int,
                coef as int,
            ),
            final(self)@ == old(self)@.with_color(
                color_index as int,
                final(self)@.per_color[color_index as int],
            ),
    {
        let r = self.per_color[color_index].write_edge_coefficient(
            bool_writer,
            qt,
            coef,
            zig15offset,
            num_non_zeros_edge,
            best_prior,
        );
        assert(self@.per_color =~= old(self)@.per_color.update(
            color_index as int,
            self@.per_color[color_index as int],
        ));
        r
    }

    /// Codes the difference between a DC coefficient and its prediction. A
    /// difference of more than eleven digits cannot be coded.
    pub fn write_dc(
        &mut self,
        bool_writer: &mut VPXBoolWriter,
        color_index: usize,
        coef: i16,
        uncertainty: i16,
        uncertainty2: i16,
    ) -> (r: Result<(), ExitCode>)
        requires
            model_shaped(old(self)@),
            color_index < 2,
        ensures
            model_shaped(final(self)@),
            encoder_valid(final(bool_writer).state()),
            r.is_ok() <==> -2048 < coef < 2048,
            r.is_err() ==> r == Err::<(), ExitCode>(ExitCode::CoefficientOutOfRange),
            r.is_ok() ==> (final(bool_writer).state(), final(self)@) == dc_put(
                old(bool_writer).state(),
                old(self)@,
                color_index as int,
                uncertainty as int,
                uncertainty2 as int,
                coef as int,
            ),
    {
        reveal(dc_put);
        bool_writer.lemma_valid();
        if u16_bit_length(coef.unsigned_abs()) as usize > MAX_EXPONENT {
            return Err(ExitCode::CoefficientOutOfRange);
        }
        let len_abs_mxm = u16_bit_length(uncertainty.unsigned_abs()) as usize;
        let len_abs_offset_to_closest_edge = u16_bit_length(uncertainty2.unsigned_abs()) as usize;
        let len_abs_mxm_clamp = if len_abs_mxm < NUMERIC_LENGTH_MAX - 1 {
            len_abs_mxm
        } else {
            NUMERIC_LENGTH_MAX - 1
        };
        let x = len_abs_mxm_clamp * 17 + len_abs_offset_to_closest_edge;
        let g = calc_sign_index(uncertainty2 as i32) + 1;
        let ghost m0 = self@;
        assert(m0.exp_dc[x as int].len() == 11);
        assert(m0.noise_dc[len_abs_mxm_clamp as int].len() == 10);
        write_length_sign_coef(
            bool_writer,
            coef,
            &mut self.exponent_counts_dc[x],
            &mut self.per_color[color_index].sign_counts[g],
            &mut self.residual_noise_counts_dc[len_abs_mxm_clamp],
        );
        assert(self@.exp_dc =~= m0.exp_dc.update(
            x as int,
            states_of(self.exponent_counts_dc[x as int]),
        ));
        assert(self@.noise_dc =~= m0.noise_dc.update(
            len_abs_mxm_clamp as int,
            states_of(self.residual_noise_counts_dc[len_abs_mxm_clamp as int]),
        ));
        assert(self@.per_color[color_index as int].sign =~= m0.per_color[color_index as int].sign.update(
            g as int,
            self.per_color[color_index as int].sign_counts[g as int].state(),
        ));
        assert(self@.per_color =~= m0.per_color.update(
            color_index as int,
            PerColorState {
                sign: m0.per_color[color_index as int].sign.update(
                    g as int,
                    self.per_color[color_index as int].sign_counts[g as int].state(),
                ),
                ..m0.per_color[color_index as int]
            },
        ));
        Ok(())
    }
}

} // verus!
