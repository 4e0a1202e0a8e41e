//! Why a decoder reads back what an encoder has written.
//!
//! The bytes of a stream spell a number digit by digit. An encoder narrows
//! an interval of such numbers with every bit, and ends the stream on the
//! lower end of the last interval. A decoder that follows the same
//! probabilities finds, for every bit, on which side of the split the stream
//! lies: the side that the encoder chose.

use crate::bit_laws::{
    lemma_leading_zeros_of_width, lemma_or_is_add, lemma_shl_is_mul, lemma_split_is_share,
};
use crate::branch::{after_bit, false_count, lemma_probability_formula, probability_of, true_count};
use crate::helpers::{lemma_two_to_grows, lemma_two_to_product, lemma_two_to_values, two_to};
use crate::vpx_bool_reader::{
    after_decoding, byte_at, decoded_bit, filled, place_after, refilled, registers_valid, split_of,
    CoderState, VPXBoolReader,
};
use crate::vpx_bool_writer::{
    after_putting, carried, encoder_valid, flushed, lemma_kept_bounds, lemma_putting_keeps_valid,
    normalizing_shift, share_of, EncoderState, VPXBoolWriter,
};
use vstd::arithmetic::div_mod::{
    lemma_div_denominator, lemma_fundamental_div_mod, lemma_fundamental_div_mod_converse,
};
use vstd::prelude::*;
use vstd::std_specs::bits::u32_leading_zeros;

verus! {

/// The number that the first `j` bytes of a stream spell, most significant
/// byte first; past the end of the stream the bytes count as zero.
pub open spec fn prefix_number(data: Seq<u8>, j: int) -> int
    decreases j,
{
    if j <= 0 {
        0
    } else {
        256 * prefix_number(data, j - 1) + byte_at(data, j - 1)
    }
}

/// The number that the first `n` binary digits of a stream spell.
pub open spec fn window(data: Seq<u8>, n: int) -> int {
    prefix_number(data, (n + 7) / 8) / two_to(8 * ((n + 7) / 8) - n)
}

/// The number spelled by a prefix is not negative.
pub proof fn lemma_prefix_not_negative(data: Seq<u8>, j: int)
    ensures
        0 <= prefix_number(data, j),
    decreases j,
{
    if j > 0 {
        lemma_prefix_not_negative(data, j - 1);
    }
}

/// A prefix of `j` bytes spells a number below 256 to the power `j`.
pub proof fn lemma_prefix_bound(data: Seq<u8>, j: int)
    requires
        0 <= j,
    ensures
        0 <= prefix_number(data, j) < two_to(8 * j),
    decreases j,
{
    lemma_two_to_values();
    if j > 0 {
        lemma_prefix_bound(data, j - 1);
        lemma_two_to_product(8, 8 * j);
    }
}

/// The number that the first `j` bytes spell depends on these bytes only.
pub proof fn lemma_prefix_of_equal_bytes(a: Seq<u8>, b: Seq<u8>, j: int)
    requires
        forall|i: int| 0 <= i < j ==> byte_at(a, i) == byte_at(b, i),
    ensures
        prefix_number(a, j) == prefix_number(b, j),
    decreases j,
{
    if j > 0 {
        lemma_prefix_of_equal_bytes(a, b, j - 1);
    }
}

/// The first `n` digits can be had from any whole number `j` of bytes that
/// holds them.
pub proof fn lemma_window_from(data: Seq<u8>, n: int, j: int)
    requires
        0 <= n <= 8 * j,
    ensures
        window(data, n) == prefix_number(data, j) / two_to(8 * j - n),
    decreases j,
{
    let least = (n + 7) / 8;
    if j > least {
        lemma_window_from(data, n, j - 1);
        let p = prefix_number(data, j - 1);
        let b = byte_at(data, j - 1) as int;
        let m = two_to(8 * (j - 1) - n);
        lemma_prefix_not_negative(data, j - 1);
        lemma_two_to_grows(0, 8 * (j - 1) - n);
        lemma_two_to_product(8, 8 * j - n);
        lemma_two_to_values();
        assert(two_to(8 * j - n) == 256 * m);
        lemma_div_denominator(256 * p + b, 256, m);
        assert((256 * p + b) / 256 == p) by {
            lemma_fundamental_div_mod_converse(256 * p + b, 256, p, b);
        }
        assert(256 * m == m * 256) by (nonlinear_arith);
    }
}

/// The first `n` digits are what is left of the first `n + c` digits without
/// their last `c`.
pub proof fn lemma_window_prefix(data: Seq<u8>, n: int, c: int)
    requires
        0 <= n,
        0 <= c,
    ensures
        window(data, n + c) / two_to(c) == window(data, n),
        0 <= window(data, n),
{
    let j = (n + c + 7) / 8;
    lemma_window_from(data, n, j);
    lemma_window_from(data, n + c, j);
    let p = prefix_number(data, j);
    lemma_prefix_not_negative(data, j);
    lemma_two_to_grows(0, 8 * j - n - c);
    lemma_two_to_grows(0, c);
    lemma_two_to_grows(0, 8 * j - n);
    lemma_two_to_product(c, 8 * j - n);
    lemma_div_denominator(p, two_to(8 * j - n - c), two_to(c));
    let a = two_to(8 * j - n - c);
    let b = two_to(c);
    assert(a * b == b * a) by (nonlinear_arith);
    assert(0 <= p / two_to(8 * j - n)) by (nonlinear_arith)
        requires
            0 <= p,
            two_to(8 * j - n) > 0,
    ;
}

/// Eight digits more are one byte more.
pub proof fn lemma_window_next_byte(data: Seq<u8>, j: int)
    requires
        0 <= j,
    ensures
        window(data, 8 * j) == prefix_number(data, j),
        window(data, 8 * j + 8) == 256 * window(data, 8 * j) + byte_at(data, j),
{
    lemma_window_from(data, 8 * j, j);
    lemma_window_from(data, 8 * j + 8, j + 1);
    lemma_two_to_values();
}

/// Adding one to the last byte of a buffer, with carries, adds one to the
/// number that the buffer spells, unless all its bytes are 255.
pub proof fn lemma_carried(buffer: Seq<u8>)
    requires
        buffer.len() >= 1,
        prefix_number(buffer, buffer.len() as int) + 1 < two_to(8 * (buffer.len() as int)),
    ensures
        carried(buffer, buffer.len() - 1).len() == buffer.len(),
        prefix_number(carried(buffer, buffer.len() - 1), buffer.len() as int) == prefix_number(
            buffer,
            buffer.len() as int,
        ) + 1,
    decreases buffer.len(),
{
    let n = buffer.len() as int;
    lemma_two_to_values();
    lemma_two_to_product(8, 8 * n);
    if buffer[n - 1] != 0xff {
        let raised = buffer.update(n - 1, (buffer[n - 1] + 1) as u8);
        assert(carried(buffer, n - 1) == raised);
        lemma_prefix_of_equal_bytes(buffer, raised, n - 1);
    } else {
        lemma_prefix_bound(buffer, n - 1);
        if n == 1 {
            assert(prefix_number(buffer, 0) == 0);
            assert(false);
        }
        let head = buffer.drop_last();
        let cleared = buffer.update(n - 1, 0);
        lemma_prefix_of_equal_bytes(buffer, head, n - 1);
        assert(prefix_number(head, n - 1) + 1 < two_to(8 * (n - 1)));
        lemma_carried(head);
        lemma_carried_below(cleared, head, n - 2);
        let done = carried(buffer, n - 1);
        assert(done == carried(cleared, n - 2));
        assert(done[n - 1] == cleared[n - 1]);
        assert forall|i: int| 0 <= i < n - 1 implies byte_at(done, i) == byte_at(
            carried(head, n - 2),
            i,
        ) by {
            assert(done[i] == carried(head, n - 2)[i]);
        }
        lemma_prefix_of_equal_bytes(done, carried(head, n - 2), n - 1);
        assert(prefix_number(done, n) == 256 * prefix_number(done, n - 1) + 0);
        assert(prefix_number(buffer, n) == 256 * prefix_number(buffer, n - 1) + 255);
    }
}

/// A carry from place `x` down leaves the bytes above `x` as they are, and
/// does to the bytes up to `x` what it does to them alone.
proof fn lemma_carried_below(long: Seq<u8>, short: Seq<u8>, x: int)
    requires
        0 <= x < short.len() <= long.len(),
        forall|i: int| 0 <= i < short.len() ==> long[i] == short[i],
    ensures
        carried(long, x).len() == long.len(),
        carried(short, x).len() == short.len(),
        forall|i: int| 0 <= i < short.len() ==> carried(long, x)[i] == carried(short, x)[i],
        forall|i: int| x < i < long.len() ==> carried(long, x)[i] == long[i],
    decreases x,
{
    if x > 0 && long[x] == 0xff {
        let l = long.update(x, 0);
        let s = short.update(x, 0);
        lemma_carried_below(l, s, x - 1);
        assert(carried(long, x) == carried(l, x - 1));
        assert(carried(short, x) == carried(s, x - 1));
        assert forall|i: int| x < i < long.len() implies carried(long, x)[i] == long[i] by {
            assert(carried(l, x - 1)[i] == l[i]);
        }
    }
}

/// Number of binary digits of the lower end of the interval of an
/// encoder: those in its buffer and those in its register.
pub open spec fn digits(e: EncoderState) -> int {
    8 * e.buffer.len() + 32 + e.count
}

/// The lower end of the interval of an encoder: the digits in its buffer
/// followed by those in its register, a carry out of the register added in.
pub open spec fn lower_end(e: EncoderState) -> int {
    prefix_number(e.buffer, e.buffer.len() as int) * two_to(32 + e.count) + e.low_value
}

/// Whether the interval of an encoder lies within the numbers that its
/// digits can spell.
pub open spec fn sound(e: EncoderState) -> bool {
    &&& encoder_valid(e)
    &&& lower_end(e) + e.range <= two_to(digits(e))
}

/// What coding `bit` adds to the lower end of the interval.
pub open spec fn step_add(e: EncoderState, probability: u8, bit: bool) -> int {
    if bit {
        share_of(e.range, probability)
    } else {
        0
    }
}

/// The width to which coding `bit` narrows the interval.
pub open spec fn step_width(e: EncoderState, probability: u8, bit: bool) -> int {
    if bit {
        e.range - share_of(e.range, probability)
    } else {
        share_of(e.range, probability)
    }
}

/// The number of digits that coding `bit` adds to the interval.
pub open spec fn step_shift(e: EncoderState, probability: u8, bit: bool) -> int {
    normalizing_shift(step_width(e, probability, bit))
}

proof fn lemma_step_basics(e: EncoderState, probability: u8, bit: bool)
    requires
        encoder_valid(e),
    ensures
        1 <= share_of(e.range, probability) <= e.range - 1,
        1 <= step_width(e, probability, bit) <= 254,
        step_add(e, probability, bit) + step_width(e, probability, bit) <= e.range,
        0 <= step_shift(e, probability, bit) <= 7,
        128 <= step_width(e, probability, bit) * two_to(step_shift(e, probability, bit)) <= 255,
{
    let p = probability as int;
    let r = e.range as int;
    assert(0 <= (r - 1) * p <= (r - 1) * 255) by (nonlinear_arith)
        requires
            0 <= p <= 255,
            r >= 1,
    ;
    let narrowed = step_width(e, probability, bit);
    lemma_two_to_values();
    if narrowed < 2 {
        assert(two_to(normalizing_shift(narrowed)) == 128);
    } else if narrowed < 4 {
        assert(two_to(normalizing_shift(narrowed)) == 64);
    } else if narrowed < 8 {
        assert(two_to(normalizing_shift(narrowed)) == 32);
    } else if narrowed < 16 {
        assert(two_to(normalizing_shift(narrowed)) == 16);
    } else if narrowed < 32 {
        assert(two_to(normalizing_shift(narrowed)) == 8);
    } else if narrowed < 64 {
        assert(two_to(normalizing_shift(narrowed)) == 4);
    } else if narrowed < 128 {
        assert(two_to(normalizing_shift(narrowed)) == 2);
    } else {
        assert(two_to(normalizing_shift(narrowed)) == 1);
    }
}

/// A number below two to the power `b + 1` splits into a carry, a byte and
/// the `b - 8` digits below the byte.
proof fn lemma_split_register(low: int, b: int)
    requires
        8 <= b,
        0 <= low < two_to(b + 1),
    ensures
        0 <= low / two_to(b) <= 1,
        low / two_to(b) != 0 ==> low >= two_to(b),
        0 <= low % two_to(b - 8) < two_to(b - 8),
        0 <= (low / two_to(b - 8)) % 256 < 256,
        low == ((low / two_to(b)) * 256 + (low / two_to(b - 8)) % 256) * two_to(b - 8) + low
            % two_to(b - 8),
        two_to(b) == 256 * two_to(b - 8),
{
    lemma_two_to_values();
    lemma_two_to_grows(0, b - 8);
    lemma_two_to_grows(b, b + 1);
    lemma_two_to_product(8, b);
    let m = two_to(b - 8);
    let q = low / m;
    lemma_fundamental_div_mod(low, m);
    lemma_fundamental_div_mod(q, 256);
    lemma_div_denominator(low, m, 256);
    assert(m * 256 == 256 * m) by (nonlinear_arith);
    assert(low / two_to(b) == q / 256);
    let top = two_to(b);
    assert(0 <= low / top <= 1 && (low / top != 0 ==> low >= top)) by (nonlinear_arith)
        requires
            0 <= low < 2 * top,
            top > 0,
    ;
    assert(0 <= low % m < m) by (nonlinear_arith)
        requires
            m > 0,
    ;
    let hi = q / 256;
    let lo = q % 256;
    let rest = low % m;
    assert(low == (hi * 256 + lo) * m + rest) by (nonlinear_arith)
        requires
            low == m * q + rest,
            q == 256 * hi + lo,
    ;
}

/// What coding a bit does to the interval of an encoder: its lower end is
/// raised by what the bit adds, its width becomes what the bit leaves, and
/// both gain as many digits as bring the width back to eight digits.
pub proof fn lemma_put_meaning(e: EncoderState, probability: u8, bit: bool)
    requires
        sound(e),
    ensures
        ({
            let after = after_putting(e, probability, bit);
            let s = step_shift(e, probability, bit);
            &&& 0 <= s <= 7
            &&& digits(after) == digits(e) + s
            &&& lower_end(after) == (lower_end(e) + step_add(e, probability, bit)) * two_to(s)
            &&& after.range == step_width(e, probability, bit) * two_to(s)
            &&& sound(after)
        }),
{
    lemma_step_basics(e, probability, bit);
    lemma_putting_keeps_valid(e, probability, bit);
    let after = after_putting(e, probability, bit);
    let s = step_shift(e, probability, bit);
    let add = step_add(e, probability, bit);
    let width = step_width(e, probability, bit);
    let b = 32 + e.count;
    let len = e.buffer.len() as int;
    let n = prefix_number(e.buffer, len);
    let low = e.low_value + add;
    let count = e.count + s;
    let f = two_to(s);
    let top = two_to(b);
    lemma_prefix_not_negative(e.buffer, len);
    lemma_two_to_grows(0, s);
    lemma_two_to_grows(0, b);
    lemma_two_to_grows(b, b + 1);
    lemma_two_to_product(s, b + s);
    lemma_two_to_product(s, digits(e) + s);
    lemma_two_to_product(b, digits(e));
    lemma_two_to_values();
    let whole = two_to(digits(e));
    let t = lower_end(e);
    assert((t + add + width) * f <= whole * f && (t + add + width) * f == (t + add) * f + width
        * f) by (nonlinear_arith)
        requires
            t + add + width <= whole,
            f >= 1,
    ;
    assert(whole * f == two_to(digits(e) + s)) by (nonlinear_arith)
        requires
            f * whole == two_to(digits(e) + s),
    ;
    if count < 0 {
        assert(low * f <= (2 * top) * f && low * f >= 0) by (nonlinear_arith)
            requires
                0 <= low <= 2 * top,
                f >= 1,
        ;
        assert((2 * top) * f == 2 * two_to(b + s)) by (nonlinear_arith)
            requires
                f * top == two_to(b + s),
        ;
        lemma_two_to_grows(b + s + 1, 32);
        assert(after.low_value == low * f);
        assert((n * top + low) * f == n * two_to(b + s) + low * f) by (nonlinear_arith)
            requires
                f * top == two_to(b + s),
        ;
    } else {
        let offset = s - count;
        assert(offset == 32 - b);
        lemma_split_register(low, b);
        let cv = low / top;
        let byte = (low / two_to(b - 8)) % 256;
        let rest = low % two_to(b - 8);
        let m = two_to(b - 8);
        // the carry can be taken
        let bytes_top = two_to(8 * len);
        lemma_two_to_grows(0, 8 * len);
        assert(bytes_top * top == two_to(digits(e))) by (nonlinear_arith)
            requires
                top * bytes_top == two_to(digits(e)),
        ;
        if cv != 0 {
            assert((n + 1) * top <= n * top + low) by (nonlinear_arith)
                requires
                    low >= top,
            ;
            assert(n + 1 < bytes_top) by (nonlinear_arith)
                requires
                    (n + 1) * top < bytes_top * top,
                    top > 0,
            ;
            if len == 0 {
                assert(prefix_number(e.buffer, 0) == 0);
                assert(false);
            }
            lemma_carried(e.buffer);
        }
        let taken = if cv != 0 {
            carried(e.buffer, len - 1)
        } else {
            e.buffer
        };
        assert(taken.len() == len);
        assert(prefix_number(taken, len) == n + cv);
        assert(after.buffer == taken.push(byte as u8));
        lemma_prefix_of_equal_bytes(after.buffer, taken, len);
        let n_after = prefix_number(after.buffer, len + 1);
        assert(n_after == 256 * (n + cv) + byte);
        // the register
        lemma_kept_bounds(low, offset, count);
        let a = two_to(offset);
        let c = two_to(count);
        assert(after.low_value == rest * a * c);
        assert(after.count == count - 8);
        lemma_two_to_product(offset, s);
        lemma_two_to_product(s, b - 8 + s);
        lemma_two_to_grows(0, b - 8);
        assert(rest * a * c == rest * f) by (nonlinear_arith)
            requires
                a * c == f,
        ;
        let up = two_to(24 + count);
        assert(up == m * f) by (nonlinear_arith)
            requires
                f * m == two_to(b - 8 + s),
                up == two_to(b - 8 + s),
        ;
        assert((n * top + low) * f == n_after * up + rest * f) by (nonlinear_arith)
            requires
                low == (cv * 256 + byte) * m + rest,
                top == 256 * m,
                n_after == 256 * (n + cv) + byte,
                up == m * f,
        ;
    }
}

/// Whether the number that a stream spells lies in the interval of an
/// encoder, as far as the digits of the interval go.
pub open spec fn within(data: Seq<u8>, e: EncoderState) -> bool {
    lower_end(e) <= window(data, digits(e)) < lower_end(e) + e.range
}

/// A stream that lies in the interval of an encoder after a bit lay in its
/// interval before the bit, on the side of the split that the bit names.
pub proof fn lemma_within_before(data: Seq<u8>, e: EncoderState, probability: u8, bit: bool)
    requires
        sound(e),
        within(data, after_putting(e, probability, bit)),
    ensures
        within(data, e),
        lower_end(e) + step_add(e, probability, bit) <= window(data, digits(e)) < lower_end(e)
            + step_add(e, probability, bit) + step_width(e, probability, bit),
        bit <==> window(data, digits(e)) >= lower_end(e) + share_of(e.range, probability),
{
    lemma_put_meaning(e, probability, bit);
    lemma_step_basics(e, probability, bit);
    let s = step_shift(e, probability, bit);
    let f = two_to(s);
    let t = lower_end(e) + step_add(e, probability, bit);
    let width = step_width(e, probability, bit);
    lemma_prefix_not_negative(e.buffer, e.buffer.len() as int);
    lemma_window_prefix(data, digits(e), s);
    lemma_two_to_grows(0, s);
    let later = window(data, digits(e) + s);
    let now = window(data, digits(e));
    assert(t <= later / f < t + width) by (nonlinear_arith)
        requires
            t * f <= later < t * f + width * f,
            f > 0,
    ;
}

/// Whether no carry is waiting in the register of an encoder.
pub open spec fn settled(e: EncoderState) -> bool {
    e.low_value < two_to(32 + e.count)
}

/// What the `n` false bits at the end of a stream do: the lower end of the
/// interval stays, with one digit more for every bit but perhaps the
/// first, and once a byte has left the register no carry is waiting.
proof fn lemma_flushed(e: EncoderState, n: int)
    requires
        sound(e),
        0 <= n,
    ensures
        ({
            let f = flushed(e, n);
            let k = digits(f) - digits(e);
            &&& sound(f)
            &&& 0 <= k
            &&& n - 1 <= k <= n
            &&& lower_end(f) == lower_end(e) * two_to(k)
            &&& n >= 1 ==> f.range <= 254
            &&& f.buffer.len() >= e.buffer.len()
            &&& f.buffer.len() > e.buffer.len() ==> settled(f)
        }),
    decreases n,
{
    lemma_two_to_values();
    if n > 0 {
        lemma_flushed(e, n - 1);
        let g = flushed(e, n - 1);
        let p = probability_of(0x0101);
        assert(p == 128) by {
            assert(false_count(0x0101u16) == 1);
            assert(true_count(0x0101u16) == 1);
            assert((1int * 256) / (1int + 1) == 128);
            lemma_probability_formula(0x0101);
        }
        let f = after_putting(g, p, false);
        lemma_put_meaning(g, p, false);
        lemma_step_basics(g, p, false);
        let s = step_shift(g, p, false);
        let share = share_of(g.range, p);
        assert(share == 1 + (g.range - 1) / 2);
        assert(64 <= share <= 128);
        assert(g.range <= 254 ==> s == 1);
        assert(0 <= s <= 1);
        let k0 = digits(g) - digits(e);
        lemma_two_to_product(k0, k0 + s);
        lemma_two_to_grows(0, k0);
        let t = lower_end(e);
        let a = two_to(k0);
        let b = two_to(s);
        assert((t * a) * b == t * (a * b)) by (nonlinear_arith);
        // a carry that is not waiting does not come to wait
        let count = g.count + s;
        if count >= 0 {
            lemma_kept_bounds(g.low_value as int, s - count, count);
            lemma_two_to_grows(0, count);
        } else {
            if settled(g) {
                lemma_two_to_product(s, 32 + g.count + s);
                let low = g.low_value as int;
                let top = two_to(32 + g.count);
                assert(low * b < top * b) by (nonlinear_arith)
                    requires
                        0 <= low < top,
                        b >= 1,
                ;
                lemma_two_to_grows(32 + g.count + s, 31);
            }
        }
    } else {
        assert(lower_end(e) * 1 == lower_end(e));
    }
}

/// The stream that an encoder ends spells the lower end of the interval
/// that the encoder has reached, and so lies within that interval.
pub proof fn lemma_finished_stream(e: EncoderState)
    requires
        sound(e),
    ensures
        window(flushed(e, 32).buffer, digits(e)) == lower_end(e),
        within(flushed(e, 32).buffer, e),
{
    lemma_flushed(e, 32);
    let f = flushed(e, 32);
    let data = f.buffer;
    let len = data.len() as int;
    let k = digits(f) - digits(e);
    let b = 32 + f.count;
    let n = prefix_number(data, len);
    let t = lower_end(e);
    assert(len > e.buffer.len());
    assert(k >= b);
    lemma_two_to_product(b, k);
    lemma_two_to_grows(0, b);
    lemma_two_to_grows(0, k - b);
    lemma_prefix_not_negative(e.buffer, e.buffer.len() as int);
    let top = two_to(b);
    let up = two_to(k - b);
    assert(t * two_to(k) == (t * up) * top) by (nonlinear_arith)
        requires
            top * up == two_to(k),
    ;
    lemma_fundamental_div_mod_converse(lower_end(f), top, n, f.low_value as int);
    lemma_fundamental_div_mod_converse(lower_end(f), top, t * up, 0);
    assert(n == t * up);
    lemma_window_from(data, digits(e), len);
    assert(8 * len - digits(e) == k - b);
    lemma_fundamental_div_mod_converse(n, up, t, 0);
}

/// The place in a stream after `j` bytes, which does not lie past its end.
pub open spec fn place_of(data: Seq<u8>, j: int) -> int {
    if j < data.len() {
        j
    } else {
        data.len() as int
    }
}

/// Whether a decoder of `data` with a full window is where the encoder `e`
/// was: its range is that of the encoder, and its window holds what the
/// stream has beyond the lower end of the interval of the encoder, as far
/// as the bytes read so far go.
pub open spec fn follows(data: Seq<u8>, f: CoderState, e: EncoderState) -> bool {
    &&& f.range == e.range * 0x100_0000
    &&& 0 <= f.count <= 24
    &&& (digits(e) + f.count) % 8 == 0
    &&& f.value == (window(data, digits(e) + f.count) - lower_end(e) * two_to(f.count as int))
        * two_to(24 - f.count)
    &&& f.position == place_of(data, (digits(e) + f.count) / 8)
}

/// Whether a decoder of `data` is where the encoder `e` was, once its
/// window is filled up.
pub open spec fn tracks(data: Seq<u8>, d: CoderState, e: EncoderState) -> bool {
    &&& -8 <= d.count <= 24
    &&& follows(data, refilled(data, d), e)
}

/// Filling a window whose places below the `24 - count` last are empty
/// takes in the next `k` bytes of the stream, as many as fit.
proof fn lemma_filled(data: Seq<u8>, value: u32, count: i32, j: int, k: int)
    requires
        0 <= k <= 4,
        -8 <= count,
        16 < count + 8 * k <= 24,
        0 <= j,
        k > 0 ==> value as int % two_to(24 - count) == 0,
    ensures
        ({
            let f = filled(data, value, count, place_of(data, j), 16 - count);
            &&& f.1 == count + 8 * k
            &&& f.2 == place_of(data, j + k)
            &&& f.0 == value + (prefix_number(data, j + k) - prefix_number(data, j) * two_to(8 * k))
                * two_to(24 - count - 8 * k)
        }),
    decreases k,
{
    lemma_two_to_values();
    let low = 24 - count - 8 * k;
    lemma_two_to_grows(0, low);
    if k == 0 {
        assert(prefix_number(data, j) * 1 == prefix_number(data, j));
    } else {
        let shift = 16 - count;
        let byte = byte_at(data, place_of(data, j));
        assert(byte == byte_at(data, j));
        lemma_or_is_add(value, byte, shift as u32);
        let next = (value | ((byte as u32) << (shift as u32)));
        assert(place_after(data, place_of(data, j)) == place_of(data, j + 1));
        lemma_filled(data, next, (count + 8) as i32, j + 1, k - 1);
        // the bytes add up
        let read_so_far = prefix_number(data, j);
        let read_one = prefix_number(data, j + 1);
        let read_all = prefix_number(data, j + k);
        let rest = two_to(8 * (k - 1));
        let unit = two_to(low);
        lemma_two_to_product(8, 8 * k);
        lemma_two_to_product(low, shift);
        assert(two_to(shift) == rest * unit) by (nonlinear_arith)
            requires
                unit * rest == two_to(shift),
        ;
        assert(byte * two_to(shift) + (read_all - read_one * rest) * unit == (read_all
            - read_so_far * two_to(8 * k)) * unit) by (nonlinear_arith)
            requires
                read_one == 256 * read_so_far + byte,
                two_to(8 * k) == 256 * rest,
                two_to(shift) == rest * unit,
        ;
    }
}

/// A decoder at the start of a stream is where an encoder is at its start.
pub proof fn lemma_tracks_at_start(data: Seq<u8>)
    ensures
        tracks(
            data,
            VPXBoolReader::initial_state(),
            VPXBoolWriter::initial_state(),
        ),
        sound(VPXBoolWriter::initial_state()),
        registers_valid(VPXBoolReader::initial_state()),
{
    let d = VPXBoolReader::initial_state();
    let e = VPXBoolWriter::initial_state();
    lemma_two_to_values();
    lemma_two_to_product(8, 9);
    assert(prefix_number(e.buffer, 0) == 0);
    assert(two_to(32) % two_to(32) == 0);
    assert(0int % two_to(32) == 0) by {
        vstd::arithmetic::div_mod::lemma_fundamental_div_mod_converse(0, two_to(32), 0, 0);
    }
    lemma_filled(data, 0, (-8) as i32, 0, 4);
    assert(prefix_number(data, 0) == 0);
    lemma_window_next_byte(data, 4);
    assert(0xff00_0000u32 & 0x00ff_ffff == 0) by (bit_vector);
    assert(lower_end(e) == 0);
}

/// What a decoder has in its window beyond the lower end of the interval
/// after the bit: the stream less the raised lower end.
pub open spec fn beyond(data: Seq<u8>, f: CoderState, e: EncoderState, probability: u8, bit: bool) -> int {
    window(data, digits(e) + f.count) - (lower_end(e) + step_add(e, probability, bit)) * two_to(
        f.count as int,
    )
}

/// A decoder with a full window that is where an encoder was before a bit
/// finds the stream on the side of the split that the bit names, if the
/// stream lies in the interval of the encoder after the bit.
proof fn lemma_decision(data: Seq<u8>, f: CoderState, e: EncoderState, probability: u8, bit: bool)
    requires
        sound(e),
        follows(data, f, e),
        within(data, after_putting(e, probability, bit)),
    ensures
        (f.value >= split_of(f.range, probability)) == bit,
        0 <= beyond(data, f, e, probability, bit) < step_width(e, probability, bit) * two_to(
            f.count as int,
        ),
        (if bit {
            f.value - split_of(f.range, probability)
        } else {
            f.value as int
        }) == beyond(data, f, e, probability, bit) * two_to(24 - f.count),
        (if bit {
            f.range - split_of(f.range, probability)
        } else {
            split_of(f.range, probability) as int
        }) == step_width(e, probability, bit) * 0x100_0000,
{
    lemma_step_basics(e, probability, bit);
    lemma_within_before(data, e, probability, bit);
    lemma_two_to_values();
    let c = f.count as int;
    let digits_now = digits(e);
    let t = lower_end(e);
    let add = step_add(e, probability, bit);
    let width = step_width(e, probability, bit);
    let share = share_of(e.range, probability);
    let far = window(data, digits_now + c);
    let near = window(data, digits_now);
    let up = two_to(c);
    let u = two_to(24 - c);
    let x = far - t * up;
    lemma_two_to_grows(0, c);
    lemma_two_to_grows(0, 24 - c);
    lemma_two_to_product(c, 24);
    lemma_window_prefix(data, digits_now, c);
    lemma_fundamental_div_mod(far, up);
    assert(near * up <= far < (near + 1) * up) by (nonlinear_arith)
        requires
            far == up * (far / up) + far % up,
            0 <= far % up < up,
            near == far / up,
    ;
    lemma_split_is_share(e.range, probability);
    let split = split_of(f.range, probability);
    assert(split == share * 0x100_0000);
    lemma_decision_arithmetic(
        far,
        near,
        t,
        add,
        width,
        share,
        up,
        u,
        f.value as int,
        split as int,
        bit,
    );
}

proof fn lemma_decision_arithmetic(
    far: int,
    near: int,
    t: int,
    add: int,
    width: int,
    share: int,
    up: int,
    u: int,
    value: int,
    split: int,
    bit: bool,
)
    requires
        up > 0,
        u > 0,
        up * u == 0x100_0000,
        value == (far - t * up) * u,
        split == share * 0x100_0000,
        near * up <= far < (near + 1) * up,
        t + add <= near < t + add + width,
        bit <==> near >= t + share,
        add == (if bit {
            share
        } else {
            0
        }),
    ensures
        (value >= split) == bit,
        0 <= far - (t + add) * up < width * up,
        (if bit {
            value - split
        } else {
            value
        }) == (far - (t + add) * up) * u,
{
    let x = far - t * up;
    assert(split == (share * up) * u) by (nonlinear_arith)
        requires
            split == share * 0x100_0000,
            up * u == 0x100_0000,
    ;
    assert(value >= split <==> x >= share * up) by (nonlinear_arith)
        requires
            value == x * u,
            split == (share * up) * u,
            u > 0,
    ;
    assert(x >= share * up <==> near >= t + share) by (nonlinear_arith)
        requires
            x == far - t * up,
            near * up <= far < (near + 1) * up,
            up > 0,
    ;
    assert(0 <= far - (t + add) * up < width * up) by (nonlinear_arith)
        requires
            near * up <= far < (near + 1) * up,
            t + add <= near < t + add + width,
            up > 0,
    ;
    assert((x - add * up) * u == x * u - (add * up) * u && x - add * up == far - (t + add) * up)
        by (nonlinear_arith)
        requires
            x == far - t * up,
    ;
}

/// The registers of a decoder after a bit, once they are shifted so that
/// the range has its top bit set, are where the encoder was after the bit.
proof fn lemma_shifted_follows(
    data: Seq<u8>,
    f: CoderState,
    e: EncoderState,
    probability: u8,
    bit: bool,
    value1: u32,
    range1: u32,
)
    requires
        sound(e),
        0 <= f.count <= 24,
        (digits(e) + f.count) % 8 == 0,
        f.position == place_of(data, (digits(e) + f.count) / 8),
        0 <= beyond(data, f, e, probability, bit) < step_width(e, probability, bit) * two_to(
            f.count as int,
        ),
        value1 == beyond(data, f, e, probability, bit) * two_to(24 - f.count),
        range1 == step_width(e, probability, bit) * 0x100_0000,
    ensures
        tracks(
            data,
            CoderState {
                value: value1 << u32_leading_zeros(range1),
                range: range1 << u32_leading_zeros(range1),
                count: (f.count - u32_leading_zeros(range1)) as i32,
                position: f.position,
            },
            after_putting(e, probability, bit),
        ),
{
    let after = after_putting(e, probability, bit);
    lemma_put_meaning(e, probability, bit);
    lemma_step_basics(e, probability, bit);
    lemma_two_to_values();
    let c = f.count as int;
    let t = lower_end(e);
    let add = step_add(e, probability, bit);
    let width = step_width(e, probability, bit);
    let s = step_shift(e, probability, bit);
    let far = window(data, digits(e) + c);
    let up = two_to(c);
    let u = two_to(24 - c);
    let x1 = beyond(data, f, e, probability, bit);
    let g = two_to(s);
    lemma_two_to_grows(0, c);
    lemma_two_to_grows(0, 24 - c);
    lemma_two_to_grows(0, s);
    lemma_two_to_product(c, 24);
    lemma_leading_zeros_of_width(width as u32);
    let zeros = u32_leading_zeros(range1);
    assert(zeros == s);
    assert(value1 * g < 255 * 0x100_0000 + 0x100_0000 && value1 * g == x1 * (u * g)) by (nonlinear_arith)
        requires
            value1 == x1 * u,
            0 <= x1 < width * up,
            up * u == 0x100_0000,
            width * g <= 255,
            g > 0,
            u > 0,
    ;
    lemma_shl_is_mul(value1, zeros);
    assert(range1 * g == (width * g) * 0x100_0000) by (nonlinear_arith)
        requires
            range1 == width * 0x100_0000,
    ;
    lemma_shl_is_mul(range1, zeros);
    let next = CoderState {
        value: value1 << zeros,
        range: range1 << zeros,
        count: (f.count - zeros) as i32,
        position: f.position,
    };
    let count2 = c - s;
    let j = (digits(e) + c) / 8;
    lemma_two_to_product(s, 24 - c + s);
    let m = two_to(24 - count2);
    assert(u * g == m) by (nonlinear_arith)
        requires
            g * u == two_to(24 - c + s),
            m == two_to(24 - c + s),
    ;
    assert(next.value == x1 * m) by (nonlinear_arith)
        requires
            next.value == x1 * (u * g),
            u * g == m,
    ;
    if count2 >= 0 {
        lemma_two_to_product(s, c);
        lemma_two_to_grows(0, count2);
        let w2 = two_to(count2);
        assert(lower_end(after) * w2 == (t + add) * up) by (nonlinear_arith)
            requires
                lower_end(after) == (t + add) * g,
                g * w2 == up,
        ;
        assert(refilled(data, next) == next);
    } else {
        lemma_two_to_grows(0, 24 - count2);
        lemma_fundamental_div_mod_converse(next.value as int, m, x1, 0);
        lemma_filled(data, next.value, next.count, j, 3);
        lemma_window_next_byte(data, j);
        lemma_window_next_byte(data, j + 3);
        let read_so_far = prefix_number(data, j);
        let read_then = prefix_number(data, j + 3);
        assert(far == read_so_far);
        let z = two_to(-count2);
        lemma_two_to_product(24, 24 - count2);
        lemma_two_to_product(s, c + 24);
        lemma_two_to_product(24, c + 24);
        lemma_two_to_grows(0, -count2);
        lemma_two_to_grows(0, c + 24);
        let big = two_to(count2 + 24);
        assert(g * big == up * 0x100_0000) by (nonlinear_arith)
            requires
                g * big == two_to(c + 24),
                0x100_0000 * up == two_to(c + 24),
        ;
        lemma_refilled_arithmetic(
            next.value as int,
            x1,
            m,
            z,
            read_so_far,
            read_then,
            t + add,
            up,
            g,
            big,
            lower_end(after),
        );
    }
}

proof fn lemma_refilled_arithmetic(
    value: int,
    x1: int,
    m: int,
    z: int,
    read_so_far: int,
    read_then: int,
    raised: int,
    up: int,
    g: int,
    big: int,
    later: int,
)
    by (nonlinear_arith)
    requires
        value == x1 * m,
        m == 0x100_0000 * z,
        x1 == read_so_far - raised * up,
        later == raised * g,
        g * big == up * 0x100_0000,
    ensures
        value + (read_then - read_so_far * 0x100_0000) * z == (read_then - later * big) * z,
{
    assert(later * big == raised * (g * big));
    assert(x1 * m == (x1 * 0x100_0000) * z);
}

/// A decoder that is where an encoder was before a bit decodes that bit
/// from any stream that lies in the interval of the encoder after the bit,
/// and is then where the encoder was after the bit.
pub proof fn lemma_decoding_follows(
    data: Seq<u8>,
    d: CoderState,
    e: EncoderState,
    probability: u8,
    bit: bool,
)
    requires
        sound(e),
        tracks(data, d, e),
        within(data, after_putting(e, probability, bit)),
    ensures
        decoded_bit(data, d, probability) == bit,
        tracks(data, after_decoding(data, d, probability), after_putting(e, probability, bit)),
{
    let f = refilled(data, d);
    assert(d.range == f.range);
    lemma_decision(data, f, e, probability, bit);
    lemma_step_basics(e, probability, bit);
    let split = split_of(d.range, probability);
    let value1 = if f.value >= split {
        (f.value - split) as u32
    } else {
        f.value
    };
    let range1 = if f.value >= split {
        (d.range - split) as u32
    } else {
        split
    };
    lemma_shifted_follows(data, f, e, probability, bit, value1, range1);
}

/// One bit of a run of coding: the cell to code it with, and the bit.
pub ghost struct Step {
    pub cell: int,
    pub bit: bool,
}

/// Whether every step of a run names one of `count` cells.
pub open spec fn steps_valid(steps: Seq<Step>, count: int) -> bool {
    forall|i: int| 0 <= i < steps.len() ==> 0 <= (#[trigger] steps[i]).cell < count
}

/// The state of an encoder and of the cells after the bits of a run have
/// been coded, each with its cell.
pub open spec fn put_all(e: EncoderState, cells: Seq<u16>, steps: Seq<Step>) -> (
    EncoderState,
    Seq<u16>,
)
    decreases steps.len(),
{
    if steps.len() == 0 {
        (e, cells)
    } else {
        let (e1, c1) = put_all(e, cells, steps.drop_last());
        let step = steps.last();
        (
            after_putting(e1, probability_of(c1[step.cell]), step.bit),
            c1.update(step.cell, after_bit(c1[step.cell], step.bit)),
        )
    }
}

/// The bits that a decoder reads with the cells that the steps of a run
/// name, and the state of the decoder and of the cells afterwards.
pub open spec fn get_all(data: Seq<u8>, d: CoderState, cells: Seq<u16>, steps: Seq<Step>) -> (
    Seq<bool>,
    CoderState,
    Seq<u16>,
)
    decreases steps.len(),
{
    if steps.len() == 0 {
        (Seq::empty(), d, cells)
    } else {
        let (bits, d1, c1) = get_all(data, d, cells, steps.drop_last());
        let cell = steps.last().cell;
        let p = probability_of(c1[cell]);
        let bit = decoded_bit(data, d1, p);
        (bits.push(bit), after_decoding(data, d1, p), c1.update(cell, after_bit(c1[cell], bit)))
    }
}

/// The bits of a run.
pub open spec fn bits_of(steps: Seq<Step>) -> Seq<bool> {
    Seq::new(steps.len(), |i: int| steps[i].bit)
}

/// The stream that an encoder makes of a run: the marker bit, the bits of
/// the run, and the end of the stream.
pub open spec fn stream_of(cells: Seq<u16>, steps: Seq<Step>) -> Seq<u8> {
    flushed(put_all(VPXBoolWriter::start_state(), cells, steps).0, 32).buffer
}

proof fn lemma_start_sound()
    ensures
        sound(VPXBoolWriter::start_state()),
{
    lemma_tracks_at_start(Seq::empty());
    lemma_put_meaning(
        VPXBoolWriter::initial_state(),
        probability_of(0x0101),
        false,
    );
}

proof fn lemma_put_all_sound(cells: Seq<u16>, steps: Seq<Step>)
    ensures
        sound(put_all(VPXBoolWriter::start_state(), cells, steps).0),
    decreases steps.len(),
{
    let start = VPXBoolWriter::start_state();
    if steps.len() == 0 {
        lemma_start_sound();
    } else {
        lemma_put_all_sound(cells, steps.drop_last());
        let (e1, c1) = put_all(start, cells, steps.drop_last());
        lemma_put_meaning(e1, probability_of(c1[steps.last().cell]), steps.last().bit);
    }
}

/// A stream that lies in the interval that an encoder has reached at the
/// end of a run lay in its interval after every part of the run.
proof fn lemma_within_all(data: Seq<u8>, cells: Seq<u16>, steps: Seq<Step>, k: int)
    requires
        0 <= k <= steps.len(),
        within(
            data,
            put_all(VPXBoolWriter::start_state(), cells, steps).0,
        ),
    ensures
        within(
            data,
            put_all(VPXBoolWriter::start_state(), cells, steps.take(k)).0,
        ),
    decreases steps.len() - k,
{
    let start = VPXBoolWriter::start_state();
    if k == steps.len() {
        assert(steps.take(k) =~= steps);
    } else {
        lemma_within_all(data, cells, steps, k + 1);
        let longer = steps.take(k + 1);
        assert(longer.drop_last() =~= steps.take(k));
        let (e1, c1) = put_all(start, cells, steps.take(k));
        lemma_put_all_sound(cells, steps.take(k));
        lemma_within_before(data, e1, probability_of(c1[longer.last().cell]), longer.last().bit);
    }
}

/// A decoder of the stream that an encoder has made of a run reads, with
/// cells that start out as those of the encoder did, the bits of the run,
/// and after every bit its cells are as those of the encoder were.
pub proof fn lemma_coder_round_trip(cells: Seq<u16>, steps: Seq<Step>, k: int)
    requires
        steps_valid(steps, cells.len() as int),
        0 <= k <= steps.len(),
    ensures
        ({
            let data = stream_of(cells, steps);
            let read = get_all(
                data,
                VPXBoolReader::start_state(data),
                cells,
                steps.take(k),
            );
            let written = put_all(
                VPXBoolWriter::start_state(),
                cells,
                steps.take(k),
            );
            &&& read.0 == bits_of(steps.take(k))
            &&& read.2 == written.1
            &&& tracks(data, read.1, written.0)
        }),
    decreases k,
{
    let data = stream_of(cells, steps);
    let start_e = VPXBoolWriter::start_state();
    let start_d = VPXBoolReader::start_state(data);
    lemma_put_all_sound(cells, steps);
    lemma_finished_stream(put_all(start_e, cells, steps).0);
    lemma_within_all(data, cells, steps, k);
    if k == 0 {
        assert(steps.take(0) =~= Seq::<Step>::empty());
        assert(bits_of(steps.take(0)) =~= Seq::<bool>::empty());
        lemma_tracks_at_start(data);
        lemma_decoding_follows(
            data,
            VPXBoolReader::initial_state(),
            VPXBoolWriter::initial_state(),
            probability_of(0x0101),
            false,
        );
    } else {
        lemma_coder_round_trip(cells, steps, k - 1);
        let part = steps.take(k);
        assert(part.drop_last() =~= steps.take(k - 1));
        let (e1, c1) = put_all(start_e, cells, steps.take(k - 1));
        let (bits, d1, r1) = get_all(data, start_d, cells, steps.take(k - 1));
        lemma_put_all_sound(cells, steps.take(k - 1));
        let step = part.last();
        assert(step == steps[k - 1]);
        lemma_decoding_follows(data, d1, e1, probability_of(c1[step.cell]), step.bit);
        assert(bits_of(part) =~= bits_of(steps.take(k - 1)).push(step.bit));
    }
}

} // verus!
