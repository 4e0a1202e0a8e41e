//! The encoding half of the binary arithmetic coder.
//!
//! The encoder narrows an interval of numbers, bit by bit. It holds the
//! width `range` of the interval in eight bits and, in `low_value`, so many
//! of the last digits of its lower end that 24 bits stand above the eight
//! that line up with the range; the digits before them are in the buffer. A
//! carry out of `low_value` is added to the buffer when the next byte
//! leaves for it.

use crate::branch::{after_bit, probability_of, Branch};
use crate::helpers::{
    bit_length, lemma_two_to_grows, lemma_two_to_product, lemma_two_to_values, two_to,
    u16_bit_length,
};
use crate::vpx_bool_reader::{is_power_of_two, states_of};
use vstd::prelude::*;

verus! {

/// The registers of an encoder and the bytes it has put out.
pub ghost struct EncoderState {
    pub low_value: u32,
    pub range: u32,
    pub count: i32,
    pub buffer: Seq<u8>,
}

/// The share of `range` that falls to `false` when `false` has the
/// probability `probability` out of 256: at least one and at most all but
/// one of its 256ths.
pub open spec fn share_of(range: u32, probability: u8) -> int {
    1 + ((range - 1) * probability) / 256
}

/// Number of bits by which a range has to be shifted to have eight digits.
pub open spec fn normalizing_shift(range: int) -> int {
    8 - bit_length(range)
}

/// The bytes `buffer` after one has been added at place `x`: the bytes of
/// 255 from there back turn to zero, and the first byte that is not 255, or
/// else the first byte of all, is raised by one.
pub open spec fn carried(buffer: Seq<u8>, x: int) -> Seq<u8>
    decreases x,
{
    if x > 0 && buffer[x] == 0xff {
        carried(buffer.update(x, 0), x - 1)
    } else if 0 <= x < buffer.len() {
        buffer.update(
            x,
            if buffer[x] == 0xff {
                0u8
            } else {
                (buffer[x] + 1) as u8
            },
        )
    } else {
        buffer
    }
}

/// The state of an encoder after it has coded `bit` at the probability
/// `probability`.
pub open spec fn after_putting(e: EncoderState, probability: u8, bit: bool) -> EncoderState {
    let split = share_of(e.range, probability);
    let low = if bit {
        e.low_value + split
    } else {
        e.low_value as int
    };
    let narrowed = if bit {
        e.range - split
    } else {
        split
    };
    let shift = normalizing_shift(narrowed);
    let range = narrowed * two_to(shift);
    let count = e.count + shift;
    if count >= 0 {
        let offset = shift - count;
        let buffer = if low / two_to(32 - offset) != 0 {
            carried(e.buffer, e.buffer.len() - 1)
        } else {
            e.buffer
        };
        EncoderState {
            low_value: ((low % two_to(24 - offset)) * two_to(offset) * two_to(count)) as u32,
            range: range as u32,
            count: (count - 8) as i32,
            buffer: buffer.push(((low / two_to(24 - offset)) % 256) as u8),
        }
    } else {
        EncoderState {
            low_value: (low * two_to(shift)) as u32,
            range: range as u32,
            count: count as i32,
            buffer: e.buffer,
        }
    }
}

/// Whether the registers are as encoding leaves them: the range has eight
/// digits, between zero and 23 digits stand above the eight of the lower
/// end that line up with the range, and the upper end of the interval
/// needs at most one digit more than the lower end has room for.
pub open spec fn encoder_valid(e: EncoderState) -> bool {
    &&& 128 <= e.range <= 255
    &&& -24 <= e.count <= -1
    &&& e.low_value + e.range <= two_to(33 + e.count)
}

/// The state after the `n` false bits, each at an even chance, that end a
/// stream.
pub open spec fn flushed(e: EncoderState, n: int) -> EncoderState
    decreases n,
{
    if n <= 0 {
        e
    } else {
        after_putting(flushed(e, n - 1), probability_of(0x0101), false)
    }
}

/// The state of the encoder and of the cells after the value `v` below
/// `a`, a power of two, has been coded along the path from the node `node`
/// of a tree of cells, of which `remaining` digits of `v` tell the turns.
pub open spec fn grid_put(e: EncoderState, cells: Seq<u16>, v: int, node: int, remaining: int) -> (
    EncoderState,
    Seq<u16>,
)
    decreases remaining,
{
    if remaining <= 0 {
        (e, cells)
    } else {
        let bit = (v / two_to(remaining - 1)) % 2 == 1;
        grid_put(
            after_putting(e, probability_of(cells[node]), bit),
            cells.update(node, after_bit(cells[node], bit)),
            v,
            2 * node + if bit {
                1int
            } else {
                0int
            },
            remaining - 1,
        )
    }
}

/// The state of the encoder and of the cells after the number `v` has been
/// coded in unary from the cell `i` on: a `true` bit with every cell before
/// the `v`-th, and a `false` bit with the `v`-th unless it is past the end
/// of the `a` cells.
pub open spec fn unary_put(e: EncoderState, cells: Seq<u16>, a: int, v: int, i: int) -> (
    EncoderState,
    Seq<u16>,
)
    decreases v - i + 1,
{
    if i > v || i >= a || i < 0 {
        (e, cells)
    } else {
        let next = after_putting(e, probability_of(cells[i]), i < v);
        let updated = cells.update(i, after_bit(cells[i], i < v));
        if i < v {
            unary_put(next, updated, a, v, i + 1)
        } else {
            (next, updated)
        }
    }
}

/// The state of the encoder and of the cells after the lowest `n` digits
/// of `bits` have been coded from the highest down, digit `i` with cell `i`.
pub open spec fn bits_put(e: EncoderState, cells: Seq<u16>, bits: int, n: int) -> (
    EncoderState,
    Seq<u16>,
)
    decreases n,
{
    if n <= 0 {
        (e, cells)
    } else {
        let bit = (bits / two_to(n - 1)) % 2 == 1;
        bits_put(
            after_putting(e, probability_of(cells[n - 1]), bit),
            cells.update(n - 1, after_bit(cells[n - 1], bit)),
            bits,
            n - 1,
        )
    }
}

/// Number of digits of a power of two, less one.
pub open spec fn exponent_of(a: int) -> int
    decreases a,
{
    if a <= 1 {
        0
    } else {
        1 + exponent_of(a / 2)
    }
}

/// Two to the power `n`.
pub fn shift_factor(n: u32) -> (r: u32)
    requires
        n <= 31,
    ensures
        r == two_to(n as int),
        1 <= r <= 0x8000_0000,
{
    let mut r: u32 = 1;
    let mut i: u32 = 0;
    proof {
        lemma_two_to_values();
    }
    while i < n
        invariant
            i <= n <= 31,
            r == two_to(i as int),
            r <= two_to(31),
            two_to(31) == 0x8000_0000,
        decreases n - i,
    {
        proof {
            lemma_two_to_grows(i + 1, 31);
        }
        r = r * 2;
        i += 1;
    }
    proof {
        lemma_two_to_grows(0, n as int);
    }
    r
}

proof fn lemma_share(range: u32, probability: u8)
    requires
        128 <= range <= 255,
    ensures
        1 <= share_of(range, probability) <= range - 1,
{
    let p = probability as int;
    let r = range as int;
    assert(0 <= (r - 1) * p <= (r - 1) * 255) by (nonlinear_arith)
        requires
            0 <= p <= 255,
            r >= 1,
    ;
}

proof fn lemma_normalizing(narrowed: int)
    requires
        1 <= narrowed <= 255,
    ensures
        0 <= normalizing_shift(narrowed) <= 7,
        128 <= narrowed * two_to(normalizing_shift(narrowed)) <= 255,
{
    lemma_two_to_values();
    if narrowed < 2 {
        assert(two_to(normalizing_shift(narrowed)) == 128);
    } else if narrowed < 4 {
        assert(two_to(normalizing_shift(narrowed)) == 64);
    } else if narrowed < 8 {
        assert(two_to(normalizing_shift(narrowed)) == 32);
    } else if narrowed < 16 {
        assert(two_to(normalizing_shift(narrowed)) == 16);
    } else if narrowed < 32 {
        assert(two_to(normalizing_shift(narrowed)) == 8);
    } else if narrowed < 64 {
        assert(two_to(normalizing_shift(narrowed)) == 4);
    } else if narrowed < 128 {
        assert(two_to(normalizing_shift(narrowed)) == 2);
    } else {
        assert(two_to(normalizing_shift(narrowed)) == 1);
    }
}

/// What is kept of the lower end when a byte leaves for the buffer: the
/// digits below the byte, moved up by `offset` and then by `count` places,
/// stay below two to the power `24 + count`.
pub proof fn lemma_kept_bounds(low: int, offset: int, count: int)
    requires
        0 <= low,
        1 <= offset <= 7,
        0 <= count <= 7,
    ensures
        0 <= (low % two_to(24 - offset)) * two_to(offset) <= two_to(24) - two_to(offset),
        0 <= (low % two_to(24 - offset)) * two_to(offset) * two_to(count) <= two_to(24 + count)
            - two_to(count),
        two_to(24 + count) <= 0x8000_0000,
        two_to(count) >= 1,
        two_to(offset) >= 1,
        two_to(24 - offset) >= 1,
        two_to(32 - offset) >= 1,
{
    lemma_two_to_grows(0, 32 - offset);
    lemma_two_to_grows(0, 24 - offset);
    lemma_two_to_grows(0, offset);
    lemma_two_to_grows(0, count);
    lemma_two_to_product(offset, 24);
    lemma_two_to_product(count, 24 + count);
    lemma_two_to_grows(24 + count, 31);
    lemma_two_to_values();
    let kept = low % two_to(24 - offset);
    let a = two_to(offset);
    let b = two_to(count);
    let m = two_to(24 - offset);
    let t = two_to(24);
    assert(0 <= kept * a <= (m - 1) * a && (m - 1) * a == m * a - a) by (nonlinear_arith)
        requires
            0 <= kept <= m - 1,
            a >= 1,
    ;
    assert(m * a == t) by (nonlinear_arith)
        requires
            a * m == t,
    ;
    let c = kept * a;
    assert(0 <= c * b <= (t - a) * b && (t - a) * b == t * b - a * b && a * b >= b)
        by (nonlinear_arith)
        requires
            0 <= c <= t - a,
            b >= 1,
            a >= 1,
    ;
    assert(t * b == two_to(24 + count)) by (nonlinear_arith)
        requires
            b * t == two_to(24 + count),
    ;
}

/// Encoding keeps valid registers valid.
pub proof fn lemma_putting_keeps_valid(e: EncoderState, probability: u8, bit: bool)
    requires
        encoder_valid(e),
    ensures
        encoder_valid(after_putting(e, probability, bit)),
{
    lemma_share(e.range, probability);
    let split = share_of(e.range, probability);
    let low = if bit {
        e.low_value + split
    } else {
        e.low_value as int
    };
    let narrowed = if bit {
        e.range - split
    } else {
        split
    };
    lemma_normalizing(narrowed);
    let shift = normalizing_shift(narrowed);
    let range = narrowed * two_to(shift);
    let count = e.count + shift;
    lemma_two_to_grows(0, 33 + e.count);
    lemma_two_to_grows(0, shift);
    lemma_two_to_product(shift, 33 + e.count + shift);
    lemma_two_to_values();
    let top = two_to(33 + e.count);
    let f = two_to(shift);
    assert((low + narrowed) * f <= top * f && (low + narrowed) * f == low * f + narrowed * f
        && low * f >= 0) by (nonlinear_arith)
        requires
            0 <= low,
            low + narrowed <= top,
            f >= 1,
    ;
    assert(top * f == two_to(33 + count)) by (nonlinear_arith)
        requires
            f * top == two_to(33 + count),
    ;
    if count >= 0 {
        lemma_kept_bounds(low, shift - count, count);
        lemma_two_to_grows(24 + count, 25 + count);
        lemma_two_to_grows(8, 24 + count);
        lemma_two_to_grows(0, count);
    } else {
        lemma_two_to_grows(33 + count, 32);
    }
}

/// An encoder of bits with adaptive probabilities.
pub struct VPXBoolWriter {
    low_value: u32,
    range: u32,
    count: i32,
    buffer: Vec<u8>,
}

impl VPXBoolWriter {
    #[verifier::type_invariant]
    spec fn inv(self) -> bool {
        encoder_valid(self.state())
    }

    /// The registers of the encoder and the bytes it has put out.
    pub closed spec fn state(&self) -> EncoderState {
        EncoderState {
            low_value: self.low_value,
            range: self.range,
            count: self.count,
            buffer: self.buffer@,
        }
    }

    /// The registers of an encoder are valid at all times.
    pub fn lemma_valid(&self)
        ensures
            encoder_valid(self.state()),
    {
        proof {
            use_type_invariant(self);
        }
    }

    /// The state in which encoding starts, before anything is coded.
    pub open spec fn initial_state() -> EncoderState {
        EncoderState { low_value: 0, range: 255, count: (-24) as i32, buffer: Seq::empty() }
    }

    /// The state of an encoder that has coded the marker bit with which
    /// every stream begins.
    pub open spec fn start_state() -> EncoderState {
        after_putting(Self::initial_state(), probability_of(0x0101), false)
    }

    /// An encoder at the start of a stream. The marker bit, `false`, is
    /// coded first; it keeps a carry from ever leaving the stream.
    pub fn new() -> (r: Self)
        ensures
            r.state() == Self::start_state(),
            encoder_valid(r.state()),
    {
        proof {
            lemma_two_to_values();
            lemma_two_to_product(1, 9);
            lemma_two_to_grows(8, 9);
        }
        let mut retval = VPXBoolWriter { low_value: 0, range: 255, count: -24, buffer: Vec::new() };
        let mut dummy_branch = Branch::new();
        retval.put(false, &mut dummy_branch);
        retval
    }

    /// Codes `value` with the cell `branch`, which then takes note of it.
    pub fn put(&mut self, value: bool, branch: &mut Branch)
        ensures
            encoder_valid(old(self).state()),
            encoder_valid(final(self).state()),
            final(self).state() == after_putting(
                old(self).state(),
                probability_of(old(branch).state()),
                value,
            ),
            final(branch).state() == after_bit(old(branch).state(), value),
    {
        proof {
            use_type_invariant(&*self);
        }
        let probability = branch.get_probability();
        let ghost e = self.state();
        proof {
            lemma_share(self.range, probability);
            lemma_putting_keeps_valid(e, probability, value);
            lemma_two_to_grows(33 + self.count, 32);
            lemma_two_to_values();
            lemma_two_to_product(1, 32);
        }
        let split: u32 = 1 + ((self.range - 1) * probability as u32) / 256;
        branch.record_and_update_bit(value);
        let mut tmp_low_value = self.low_value;
        let mut tmp_range = self.range;
        if value {
            tmp_low_value = tmp_low_value + split;
            tmp_range = tmp_range - split;
        } else {
            tmp_range = split;
        }
        proof {
            lemma_normalizing(tmp_range as int);
        }
        let mut shift: u32 = 8 - u16_bit_length(tmp_range as u16) as u32;
        tmp_range = tmp_range * shift_factor(shift);
        let mut buffer: Vec<u8> = Vec::new();
        core::mem::swap(&mut buffer, &mut self.buffer);
        let mut tmp_count: i32 = self.count + shift as i32;
        let ghost low = tmp_low_value as int;
        if tmp_count >= 0 {
            let offset: u32 = shift - tmp_count as u32;
            proof {
                lemma_kept_bounds(low, offset as int, tmp_count as int);
                lemma_two_to_values();
            }
            if tmp_low_value / shift_factor(32 - offset) != 0 {
                carry(&mut buffer);
            }
            buffer.push(((tmp_low_value / shift_factor(24 - offset)) % 256) as u8);
            tmp_low_value = (tmp_low_value % shift_factor(24 - offset)) * shift_factor(offset);
            shift = tmp_count as u32;
            tmp_count = tmp_count - 8;
        } else {
            proof {
                lemma_two_to_grows(0, shift as int);
                lemma_two_to_product(shift as int, 33 + e.count + shift);
                lemma_two_to_grows(33 + e.count + shift, 32);
                lemma_two_to_values();
                let top = two_to(33 + e.count);
                let f = two_to(shift as int);
                assert(low * f <= top * f && low * f >= 0) by (nonlinear_arith)
                    requires
                        0 <= low <= top,
                        f >= 1,
                ;
                assert(top * f == two_to(33 + e.count + shift)) by (nonlinear_arith)
                    requires
                        f * top == two_to(33 + e.count + shift),
                ;
            }
        }
        let ghost after = after_putting(e, probability, value);
        assert(tmp_low_value * two_to(shift as int) == after.low_value);
        tmp_low_value = tmp_low_value * shift_factor(shift);
        *self = VPXBoolWriter {
            low_value: tmp_low_value,
            range: tmp_range,
            count: tmp_count,
            buffer,
        };
    }

    /// Codes a value below `A` along a path down a tree of cells.
    pub fn put_grid<const A: usize>(&mut self, v: u8, branches: &mut [Branch; A])
        requires
            is_power_of_two(A as int),
            2 <= A <= 256,
            v < A,
        ensures
            encoder_valid(final(self).state()),
            (final(self).state(), states_of(*final(branches))) == grid_put(
                old(self).state(),
                states_of(*old(branches)),
                v as int,
                1,
                exponent_of(A as int),
            ),
    {
        let mut remaining: u32 = digits_of(A);
        let mut serialized_so_far: usize = 1;
        let ghost digits = remaining as int;
        proof {
            use_type_invariant(&*self);
            lemma_two_to_values();
        }
        while remaining > 0
            invariant
                remaining <= digits <= 8,
                A == two_to(digits),
                digits == exponent_of(A as int),
                1 <= serialized_so_far < two_to(digits - remaining + 1),
                encoder_valid(self.state()),
                grid_put(
                    self.state(),
                    states_of(*branches),
                    v as int,
                    serialized_so_far as int,
                    remaining as int,
                ) == grid_put(
                    old(self).state(),
                    states_of(*old(branches)),
                    v as int,
                    1,
                    exponent_of(A as int),
                ),
            decreases remaining,
        {
            proof {
                lemma_two_to_grows(digits - remaining + 1, digits);
                lemma_two_to_grows(digits - remaining + 2, digits - remaining + 2);
                lemma_two_to_grows(digits, 8);
                lemma_two_to_values();
            }
            let cur_bit = (v as u32 / shift_factor(remaining - 1)) % 2 == 1;
            let ghost cells = states_of(*branches);
            self.put(cur_bit, &mut branches[serialized_so_far]);
            assert(states_of(*branches) =~= cells.update(
                serialized_so_far as int,
                after_bit(cells[serialized_so_far as int], cur_bit),
            ));
            serialized_so_far = serialized_so_far * 2 + if cur_bit {
                1
            } else {
                0
            };
            remaining -= 1;
        }
    }

    /// Codes a number up to `A` in unary.
    pub fn put_unary_encoded<const A: usize>(&mut self, v: usize, branches: &mut [Branch; A])
        requires
            v <= A,
        ensures
            encoder_valid(final(self).state()),
            (final(self).state(), states_of(*final(branches))) == unary_put(
                old(self).state(),
                states_of(*old(branches)),
                A as int,
                v as int,
                0,
            ),
    {
        let mut i: usize = 0;
        proof {
            use_type_invariant(&*self);
        }
        while i <= v && i < A
            invariant
                i <= v + 1,
                v <= A,
                encoder_valid(self.state()),
                i <= v ==> unary_put(
                    self.state(),
                    states_of(*branches),
                    A as int,
                    v as int,
                    i as int,
                ) == unary_put(
                    old(self).state(),
                    states_of(*old(branches)),
                    A as int,
                    v as int,
                    0,
                ),
                i > v ==> (self.state(), states_of(*branches)) == unary_put(
                    old(self).state(),
                    states_of(*old(branches)),
                    A as int,
                    v as int,
                    0,
                ),
            decreases v + 1 - i,
        {
            let ghost cells = states_of(*branches);
            self.put(i < v, &mut branches[i]);
            assert(states_of(*branches) =~= cells.update(
                i as int,
                after_bit(cells[i as int], i < v),
            ));
            i += 1;
        }
    }

    /// Codes the lowest `num_bits` digits of `bits`, the highest first,
    /// digit `i` with cell `i`.
    pub fn put_n_bits<const A: usize>(
        &mut self,
        bits: usize,
        num_bits: usize,
        branches: &mut [Branch; A],
    )
        requires
            num_bits <= A,
            num_bits <= 31,
            bits <= u32::MAX,
        ensures
            encoder_valid(final(self).state()),
            (final(self).state(), states_of(*final(branches))) == bits_put(
                old(self).state(),
                states_of(*old(branches)),
                bits as int,
                num_bits as int,
            ),
    {
        let mut i: usize = num_bits;
        proof {
            use_type_invariant(&*self);
        }
        while i > 0
            invariant
                i <= num_bits <= A,
                num_bits <= 31,
                bits <= u32::MAX,
                encoder_valid(self.state()),
                bits_put(self.state(), states_of(*branches), bits as int, i as int) == bits_put(
                    old(self).state(),
                    states_of(*old(branches)),
                    bits as int,
                    num_bits as int,
                ),
            decreases i,
        {
            let cur_bit = (bits as u32 / shift_factor((i - 1) as u32)) % 2 == 1;
            let ghost cells = states_of(*branches);
            self.put(cur_bit, &mut branches[i - 1]);
            assert(states_of(*branches) =~= cells.update(
                i - 1,
                after_bit(cells[i - 1], cur_bit),
            ));
            i -= 1;
        }
    }

    /// Ends the stream and hands out its bytes: 32 more `false` bits, each
    /// at an even chance, push the last digits of the interval out.
    pub fn finish(self) -> (r: Vec<u8>)
        ensures
            encoder_valid(self.state()),
            r@ == flushed(self.state(), 32).buffer,
    {
        let ghost start = self.state();
        proof {
            use_type_invariant(&self);
        }
        let mut writer = self;
        let mut i: usize = 0;
        while i < 32
            invariant
                i <= 32,
                encoder_valid(writer.state()),
                writer.state() == flushed(start, i as int),
            decreases 32 - i,
        {
            let mut dummy_branch = Branch::new();
            writer.put(false, &mut dummy_branch);
            i += 1;
        }
        writer.buffer
    }
}

/// Adds one to the number that the bytes of `buffer` spell.
fn carry(buffer: &mut Vec<u8>)
    ensures
        final(buffer)@ == carried(old(buffer)@, old(buffer).len() - 1),
        final(buffer).len() == old(buffer).len(),
{
    if buffer.len() == 0 {
        return ;
    }
    let mut x: usize = buffer.len() - 1;
    while x > 0 && buffer[x] == 0xff
        invariant
            x < buffer.len(),
            buffer.len() == old(buffer).len(),
            carried(buffer@, x as int) == carried(old(buffer)@, old(buffer).len() - 1),
        decreases x,
    {
        buffer[x] = 0;
        x -= 1;
    }
    let raised: u8 = if buffer[x] == 0xff {
        0
    } else {
        buffer[x] + 1
    };
    buffer[x] = raised;
    proof {
        lemma_carried_len(old(buffer)@, old(buffer).len() - 1);
    }
}

proof fn lemma_carried_len(buffer: Seq<u8>, x: int)
    requires
        x < buffer.len(),
    ensures
        carried(buffer, x).len() == buffer.len(),
    decreases x,
{
    if x > 0 && buffer[x] == 0xff {
        lemma_carried_len(buffer.update(x, 0), x - 1);
    }
}

/// Number of digits of `A`, a power of two, less one.
fn digits_of(a: usize) -> (r: u32)
    requires
        is_power_of_two(a as int),
        a <= 256,
    ensures
        r == exponent_of(a as int),
        a == two_to(r as int),
        r <= 8,
{
    proof {
        reveal_with_fuel(is_power_of_two, 10);
        reveal_with_fuel(exponent_of, 10);
        lemma_two_to_values();
    }
    (u16_bit_length(a as u16) - 1) as u32
}

} // verus!
