//! The decoding half of the binary arithmetic coder.
//!
//! The decoder holds a window `value` on the coded bytes and the width
//! `range` of the interval that is left, both with their leading byte in the
//! top eight of 32 bits. A bit is decided by comparing the window with the
//! share of the range that the probability of `false` gives to `false`.
//! Bytes past the end of the input count as zero.

use crate::branch::{after_bit, probability_of, Branch};
use crate::helpers::{lemma_two_to_grows, lemma_two_to_product, lemma_two_to_values, two_to};
use crate::metrics::Metrics;
use vstd::prelude::*;
use vstd::std_specs::bits::{axiom_u32_leading_zeros, u32_leading_zeros};

verus! {

/// The registers of a decoder and its place in the input.
pub ghost struct CoderState {
    pub value: u32,
    pub range: u32,
    pub count: i32,
    pub position: int,
}

/// The byte at place `i` of the input, and zero past its end.
pub open spec fn byte_at(data: Seq<u8>, i: int) -> u8 {
    if 0 <= i < data.len() {
        data[i]
    } else {
        0
    }
}

/// The place after `i`, which does not move past the end of the input.
pub open spec fn place_after(data: Seq<u8>, i: int) -> int {
    if i < data.len() {
        i + 1
    } else {
        i
    }
}

/// The window, the count of bits in it and the place in the input after
/// bytes have been taken into the window, one for every eight bits from bit
/// `shift` down.
pub open spec fn filled(data: Seq<u8>, value: u32, count: i32, position: int, shift: int) -> (
    u32,
    i32,
    int,
)
    decreases shift + 8,
{
    if shift < 0 {
        (value, count, position)
    } else {
        filled(
            data,
            value | ((byte_at(data, position) as u32) << (shift as u32)),
            (count + 8) as i32,
            place_after(data, position),
            shift - 8,
        )
    }
}

/// The state after the window has been filled up, if it has run low.
pub open spec fn refilled(data: Seq<u8>, s: CoderState) -> CoderState {
    if s.count < 0 {
        let f = filled(data, s.value, s.count, s.position, 16 - s.count);
        CoderState { value: f.0, range: s.range, count: f.1, position: f.2 }
    } else {
        s
    }
}

/// The share of `range` that falls to `false` when `false` has the
/// probability `probability` out of 256: at least one and at most all but
/// one of the 256ths of the top byte.
pub open spec fn split_of(range: u32, probability: u8) -> u32 {
    (((range >> 8u32) * probability + (256 - probability) * 65536) as u32) & 0xff00_0000u32
}

/// The bit that a decoder in state `s` decodes at the probability
/// `probability`.
pub open spec fn decoded_bit(data: Seq<u8>, s: CoderState, probability: u8) -> bool {
    refilled(data, s).value >= split_of(s.range, probability)
}

/// The state of a decoder after it has decoded a bit at the probability
/// `probability`: the interval is cut down to the part for the bit, and both
/// registers are shifted left until the range has its top bit set again.
pub open spec fn after_decoding(data: Seq<u8>, s: CoderState, probability: u8) -> CoderState {
    let f = refilled(data, s);
    let split = split_of(s.range, probability);
    let value = if f.value >= split {
        (f.value - split) as u32
    } else {
        f.value
    };
    let range = if f.value >= split {
        (s.range - split) as u32
    } else {
        split
    };
    let shift = u32_leading_zeros(range);
    CoderState {
        value: value << shift,
        range: range << shift,
        count: (f.count - shift) as i32,
        position: f.position,
    }
}

/// Whether the registers are as decoding leaves them: the range has its top
/// bit set and nothing below its top byte, and the count of bits in the
/// window beyond the top byte lies between -8 and 24.
pub open spec fn registers_valid(s: CoderState) -> bool {
    &&& s.range >= 0x8000_0000
    &&& s.range & 0x00ff_ffff == 0
    &&& -8 <= s.count <= 24
}

proof fn lemma_split_bounds(range: u32, probability: u8)
    by (bit_vector)
    requires
        range >= 0x8000_0000,
        range & 0x00ff_ffff == 0,
    ensures
        (range >> 8u32) * probability + (256 - probability) * 65536 <= 0xffff_ffff,
        0x0100_0000 <= split_of(range, probability),
        split_of(range, probability) + 0x0100_0000 <= range,
        split_of(range, probability) & 0x00ff_ffff == 0,
        (range - split_of(range, probability)) as u32 & 0x00ff_ffff == 0,
{
}

proof fn lemma_normalized(range: u32, zeros: u32)
    by (bit_vector)
    requires
        range >= 0x0100_0000,
        range & 0x00ff_ffff == 0,
        zeros <= 32,
        range >> ((32 - zeros) as u32) == 0 || zeros == 0,
        zeros < 32 ==> (range >> ((31 - zeros) as u32)) & 1 != 0,
    ensures
        zeros <= 7,
        range << zeros >= 0x8000_0000,
        (range << zeros) & 0x00ff_ffff == 0,
{
}

/// A refill leaves between 17 and 24 bits in the window beyond its top byte.
proof fn lemma_filled_count(data: Seq<u8>, value: u32, count: i32, position: int, shift: int)
    requires
        -8 <= shift <= 24,
        count + shift == 16,
    ensures
        17 <= filled(data, value, count, position, shift).1 <= 24,
    decreases shift + 8,
{
    if shift >= 0 {
        lemma_filled_count(
            data,
            value | ((byte_at(data, position) as u32) << (shift as u32)),
            (count + 8) as i32,
            place_after(data, position),
            shift - 8,
        );
    }
}

/// Decoding keeps valid registers valid.
pub proof fn lemma_decoding_keeps_valid(data: Seq<u8>, s: CoderState, probability: u8)
    requires
        registers_valid(s),
    ensures
        registers_valid(after_decoding(data, s, probability)),
{
    let f = refilled(data, s);
    if s.count < 0 {
        lemma_filled_count(data, s.value, s.count, s.position, 16 - s.count);
    }
    lemma_split_bounds(s.range, probability);
    let split = split_of(s.range, probability);
    let range = if f.value >= split {
        (s.range - split) as u32
    } else {
        split
    };
    axiom_u32_leading_zeros(range);
    lemma_normalized(range, u32_leading_zeros(range));
}

/// The value read by walking down a tree of `a` cells, `a` a power of two,
/// from the node `node`: at each node a bit is decoded with the node's cell
/// and leads to one of its two children, until a leaf is reached; together
/// with the state of the decoder and of the cells afterwards.
pub open spec fn grid_from(data: Seq<u8>, s: CoderState, cells: Seq<u16>, a: int, node: int) -> (
    int,
    CoderState,
    Seq<u16>,
)
    decreases
            (if node < a {
                a - node
            } else {
                0
            }),
{
    if node >= a || node <= 0 {
        (node - a, s, cells)
    } else {
        let p = probability_of(cells[node]);
        let bit = decoded_bit(data, s, p);
        let next = after_decoding(data, s, p);
        let updated = cells.update(node, after_bit(cells[node], bit));
        if bit {
            grid_from(data, next, updated, a, 2 * node + 1)
        } else {
            grid_from(data, next, updated, a, 2 * node)
        }
    }
}

/// The number read in unary from the cell `value` on: the number of `true`
/// bits decoded, each with the next cell, before a `false` bit or the end
/// of the `a` cells; together with the state of the decoder and of the cells
/// afterwards.
pub open spec fn unary_from(data: Seq<u8>, s: CoderState, cells: Seq<u16>, a: int, value: int) -> (
    int,
    CoderState,
    Seq<u16>,
)
    decreases a - value,
{
    if value >= a || value < 0 {
        (value, s, cells)
    } else {
        let p = probability_of(cells[value]);
        let bit = decoded_bit(data, s, p);
        let next = after_decoding(data, s, p);
        let updated = cells.update(value, after_bit(cells[value], bit));
        if bit {
            unary_from(data, next, updated, a, value + 1)
        } else {
            (value, next, updated)
        }
    }
}

/// The number whose `n` binary digits are decoded from the highest down,
/// digit `i` with cell `i`, after the digits in `sofar`; together with the
/// state of the decoder and of the cells afterwards.
pub open spec fn bits_from(data: Seq<u8>, s: CoderState, cells: Seq<u16>, n: int, sofar: int) -> (
    int,
    CoderState,
    Seq<u16>,
)
    decreases n,
{
    if n <= 0 {
        (sofar, s, cells)
    } else {
        let p = probability_of(cells[n - 1]);
        let bit = decoded_bit(data, s, p);
        bits_from(
            data,
            after_decoding(data, s, p),
            cells.update(n - 1, after_bit(cells[n - 1], bit)),
            n - 1,
            2 * sofar + if bit {
                1int
            } else {
                0int
            },
        )
    }
}

/// Whether `a` is a power of two.
pub open spec fn is_power_of_two(a: int) -> bool
    decreases a,
{
    a == 1 || (a > 1 && a % 2 == 0 && is_power_of_two(a / 2))
}

/// The packed states of an array of cells.
pub open spec fn states_of<const A: usize>(cells: [Branch; A]) -> Seq<u16> {
    Seq::new(A as nat, |i: int| cells[i].state())
}

/// A decoder of bits that were coded with adaptive probabilities.
pub struct VPXBoolReader {
    value: u32,
    range: u32,
    count: i32,
    upstream: Vec<u8>,
    position: usize,
    model_statistics: Metrics,
}

impl VPXBoolReader {
    #[verifier::type_invariant]
    spec fn inv(self) -> bool {
        &&& registers_valid(self.state())
        &&& self.position <= self.upstream.len()
    }

    /// The registers of the decoder and its place in the input.
    pub closed spec fn state(&self) -> CoderState {
        CoderState {
            value: self.value,
            range: self.range,
            count: self.count,
            position: self.position as int,
        }
    }

    /// The coded bytes.
    pub closed spec fn data(&self) -> Seq<u8> {
        self.upstream@
    }

    /// The state in which decoding starts, before anything is read.
    pub open spec fn initial_state() -> CoderState {
        CoderState { value: 0, range: 0xff00_0000, count: (-8) as i32, position: 0 }
    }

    /// The state of a decoder of `data` that has read the marker bit with
    /// which every stream begins.
    pub open spec fn start_state(data: Seq<u8>) -> CoderState {
        after_decoding(data, Self::initial_state(), probability_of(0x0101))
    }

    /// A decoder of the stream `data`. The marker bit at the start of the
    /// stream is read and dropped.
    pub fn new(data: Vec<u8>) -> (r: Self)
        ensures
            r.data() == data@,
            r.state() == Self::start_state(data@),
            registers_valid(r.state()),
    {
        assert(0xff00_0000u32 & 0x00ff_ffff == 0) by (bit_vector);
        let mut r = VPXBoolReader {
            value: 0,
            count: -8,
            range: 0xff00_0000,
            upstream: data,
            position: 0,
            model_statistics: Metrics::default(),
        };
        let mut dummy_branch = Branch::new();
        let _ = r.get(&mut dummy_branch);
        r
    }

    /// Hands out the statistics gathered so far and starts anew.
    pub fn drain_stats(&mut self) -> (r: Metrics)
        ensures
            final(self).state() == old(self).state(),
            final(self).data() == old(self).data(),
    {
        let mut stats = self.model_statistics;
        stats.drain()
    }

    /// Reads a value below `A` by walking down a tree of cells.
    pub fn get_grid<const A: usize>(&mut self, branches: &mut [Branch; A]) -> (r: usize)
        requires
            is_power_of_two(A as int),
            2 * A <= usize::MAX,
        ensures
            final(self).data() == old(self).data(),
            registers_valid(final(self).state()),
            (r as int, final(self).state(), states_of(*final(branches))) == grid_from(
                old(self).data(),
                old(self).state(),
                states_of(*old(branches)),
                A as int,
                1,
            ),
            r < A,
    {
        let mut decoded_so_far: usize = 1;
        while decoded_so_far < A
            invariant
                1 <= decoded_so_far < 2 * A <= usize::MAX,
                self.data() == old(self).data(),
                grid_from(
                    self.data(),
                    self.state(),
                    states_of(*branches),
                    A as int,
                    decoded_so_far as int,
                ) == grid_from(
                    old(self).data(),
                    old(self).state(),
                    states_of(*old(branches)),
                    A as int,
                    1,
                ),
            decreases 2 * A - decoded_so_far,
        {
            let ghost cells = states_of(*branches);
            let cur_bit = self.get(&mut branches[decoded_so_far]);
            assert(states_of(*branches) =~= cells.update(
                decoded_so_far as int,
                after_bit(cells[decoded_so_far as int], cur_bit),
            ));
            decoded_so_far = decoded_so_far * 2 + if cur_bit {
                1
            } else {
                0
            };
        }
        proof {
            use_type_invariant(&*self);
        }
        decoded_so_far - A
    }

    /// Reads a number up to `A` that is coded in unary.
    pub fn get_unary_encoded<const A: usize>(&mut self, branches: &mut [Branch; A]) -> (r: usize)
        ensures
            final(self).data() == old(self).data(),
            registers_valid(final(self).state()),
            (r as int, final(self).state(), states_of(*final(branches))) == unary_from(
                old(self).data(),
                old(self).state(),
                states_of(*old(branches)),
                A as int,
                0,
            ),
            r <= A,
    {
        let mut value: usize = 0;
        let mut done = false;
        while !done && value != A
            invariant
                value <= A,
                self.data() == old(self).data(),
                !done ==> unary_from(
                    self.data(),
                    self.state(),
                    states_of(*branches),
                    A as int,
                    value as int,
                ) == unary_from(
                    old(self).data(),
                    old(self).state(),
                    states_of(*old(branches)),
                    A as int,
                    0,
                ),
                done ==> (value as int, self.state(), states_of(*branches)) == unary_from(
                    old(self).data(),
                    old(self).state(),
                    states_of(*old(branches)),
                    A as int,
                    0,
                ),
            decreases A - value + if done { 0int } else { 1int },
        {
            let ghost cells = states_of(*branches);
            let cur_bit = self.get(&mut branches[value]);
            assert(states_of(*branches) =~= cells.update(
                value as int,
                after_bit(cells[value as int], cur_bit),
            ));
            if !cur_bit {
                done = true;
            } else {
                value += 1;
            }
        }
        proof {
            use_type_invariant(&*self);
        }
        value
    }

    /// Reads a number of `n` binary digits, the highest first, digit `i`
    /// with cell `i`.
    pub fn get_n_bits<const A: usize>(&mut self, n: usize, branches: &mut [Branch; A]) -> (r: usize)
        requires
            n <= A,
            n < usize::BITS,
        ensures
            final(self).data() == old(self).data(),
            registers_valid(final(self).state()),
            (r as int, final(self).state(), states_of(*final(branches))) == bits_from(
                old(self).data(),
                old(self).state(),
                states_of(*old(branches)),
                n as int,
                0,
            ),
            r < two_to(n as int),
    {
        let mut coef: usize = 0;
        let mut i: usize = n;
        proof {
            lemma_two_to_fits(n as int);
        }
        while i > 0
            invariant
                i <= n <= A,
                n < usize::BITS,
                two_to(n as int) <= usize::MAX,
                self.data() == old(self).data(),
                coef < two_to(n - i),
                bits_from(self.data(), self.state(), states_of(*branches), i as int, coef as int)
                    == bits_from(
                    old(self).data(),
                    old(self).state(),
                    states_of(*old(branches)),
                    n as int,
                    0,
                ),
            decreases i,
        {
            let ghost cells = states_of(*branches);
            let cur_bit = self.get(&mut branches[i - 1]);
            assert(states_of(*branches) =~= cells.update(
                i - 1,
                after_bit(cells[i - 1], cur_bit),
            ));
            proof {
                lemma_two_to_grows(n - i + 1, n as int);
            }
            coef = coef * 2 + if cur_bit {
                1
            } else {
                0
            };
            i -= 1;
        }
        proof {
            use_type_invariant(&*self);
        }
        coef
    }

    /// Decodes one bit with the cell `branch`, which then takes note of it.
    pub fn get(&mut self, branch: &mut Branch) -> (bit: bool)
        ensures
            final(self).data() == old(self).data(),
            registers_valid(old(self).state()),
            registers_valid(final(self).state()),
            bit == decoded_bit(
                old(self).data(),
                old(self).state(),
                probability_of(old(branch).state()),
            ),
            final(self).state() == after_decoding(
                old(self).data(),
                old(self).state(),
                probability_of(old(branch).state()),
            ),
            final(branch).state() == after_bit(old(branch).state(), bit),
    {
        proof {
            use_type_invariant(&*self);
        }
        let mut tmp_value = self.value;
        let mut tmp_range = self.range;
        let mut tmp_count = self.count;
        let mut tmp_position = self.position;
        if tmp_count < 0 {
            proof {
                lemma_filled_count(
                    self.data(),
                    self.value,
                    self.count,
                    self.position as int,
                    16 - self.count,
                );
            }
            Self::vpx_reader_fill(&mut tmp_value, &mut tmp_count, &self.upstream, &mut tmp_position);
        }
        let probability = branch.get_probability();
        proof {
            lemma_split_bounds(tmp_range, probability);
        }
        let split: u32 = ((tmp_range >> 8) * probability as u32 + (256 - probability as u32) * 65536)
            & 0xff00_0000;
        let bit = tmp_value >= split;
        branch.record_and_update_bit(bit);
        if bit {
            tmp_range = tmp_range - split;
            tmp_value = tmp_value - split;
        } else {
            tmp_range = split;
        }
        let shift = tmp_range.leading_zeros();
        proof {
            axiom_u32_leading_zeros(tmp_range);
            lemma_normalized(tmp_range, shift);
        }
        self.value = tmp_value << shift;
        self.range = tmp_range << shift;
        self.count = tmp_count - shift as i32;
        self.position = tmp_position;
        bit
    }

    fn vpx_reader_fill(
        tmp_value: &mut u32,
        tmp_count: &mut i32,
        upstream: &Vec<u8>,
        position: &mut usize,
    )
        requires
            -8 <= *old(tmp_count) < 0,
            *old(position) <= upstream.len(),
        ensures
            *final(position) <= upstream.len(),
            (*final(tmp_value), *final(tmp_count), *final(position) as int) == filled(
                upstream@,
                *old(tmp_value),
                *old(tmp_count),
                *old(position) as int,
                16 - *old(tmp_count),
            ),
    {
        let mut shift: i32 = 16 - *tmp_count;
        while shift >= 0
            invariant
                -8 <= shift <= 24,
                *tmp_count + shift == 16,
                *position <= upstream.len(),
                filled(upstream@, *tmp_value, *tmp_count, *position as int, shift as int) == filled(
                    upstream@,
                    *old(tmp_value),
                    *old(tmp_count),
                    *old(position) as int,
                    16 - *old(tmp_count),
                ),
            decreases shift + 8,
        {
            let mut v: u8 = 0;
            if *position < upstream.len() {
                v = upstream[*position];
                *position = *position + 1;
            }
            *tmp_value = *tmp_value | ((v as u32) << (shift as u32));
            shift = shift - 8;
            *tmp_count = *tmp_count + 8;
        }
    }
}

proof fn lemma_two_to_fits(n: int)
    requires
        0 <= n < usize::BITS,
    ensures
        two_to(n) <= usize::MAX,
{
    lemma_two_to_values();
    lemma_two_to_product(n, usize::BITS - 1);
    lemma_two_to_grows(0, usize::BITS - 1 - n);
    lemma_two_to_grows(0, n);
    let a = two_to(n);
    let b = two_to(usize::BITS - 1 - n);
    assert(a <= a * b) by (nonlinear_arith)
        requires
            a >= 0,
            b >= 1,
    ;
}

} // verus!
