//! Shifts and masks of 32-bit registers, in terms of arithmetic.

use crate::helpers::{
    bit_length, lemma_two_to_grows, lemma_two_to_product, lemma_two_to_values, two_to,
};
use crate::vpx_bool_reader::split_of;
use crate::vpx_bool_writer::share_of;
use vstd::prelude::*;
use vstd::std_specs::bits::{axiom_u32_leading_zeros, u32_leading_zeros};

verus! {

proof fn lemma_shl_one_step(n: u32)
    by (bit_vector)
    requires
        1 <= n <= 31,
    ensures
        1u32 << n == 2 * (1u32 << ((n - 1) as u32)),
        1u32 << 0u32 == 1,
{
}

/// One, shifted left by `n` places, is two to the power `n`.
pub proof fn lemma_shl_one(n: u32)
    requires
        n <= 31,
    ensures
        (1u32 << n) == two_to(n as int),
    decreases n,
{
    if n == 0 {
        lemma_shl_one_step(1);
    } else {
        lemma_shl_one((n - 1) as u32);
        lemma_shl_one_step(n);
    }
}

proof fn lemma_shl_by_factor(x: u32, n: u32)
    by (bit_vector)
    requires
        n <= 31,
        x <= 0xffff_ffffu32 >> n,
    ensures
        x << n == x * (1u32 << n),
        x * (1u32 << n) <= 0xffff_ffff,
{
}

proof fn lemma_shr_bound(n: u32)
    by (bit_vector)
    requires
        n <= 31,
    ensures
        (0xffff_ffffu32 >> n) == 0xffff_ffffu32 / (1u32 << n),
{
}

/// A shift to the left that loses no digit multiplies by a power of two.
pub proof fn lemma_shl_is_mul(x: u32, n: u32)
    requires
        n <= 31,
        x * two_to(n as int) < 0x1_0000_0000,
    ensures
        (x << n) == x * two_to(n as int),
{
    lemma_shl_one(n);
    lemma_shr_bound(n);
    let f = (1u32 << n) as int;
    lemma_two_to_grows(0, n as int);
    assert(x <= 0xffff_ffffint / f) by (nonlinear_arith)
        requires
            x * f <= 0xffff_ffff,
            f > 0,
            x >= 0,
    ;
    lemma_shl_by_factor(x, n);
}

proof fn lemma_or_disjoint(v: u32, b: u8, n: u32)
    by (bit_vector)
    requires
        n <= 24,
        (v / (1u32 << n)) % 256 == 0,
    ensures
        v | ((b as u32) << n) == v + (b as u32) * (1u32 << n),
        v + (b as u32) * (1u32 << n) <= 0xffff_ffff,
{
}

/// Putting a byte into eight empty places of a register adds it there.
pub proof fn lemma_or_is_add(v: u32, b: u8, n: u32)
    requires
        n <= 24,
        v as int % two_to(n + 8) == 0,
    ensures
        (v | ((b as u32) << n)) == v + b * two_to(n as int),
        (v + b * two_to(n as int)) % two_to(n as int) == 0,
{
    lemma_shl_one(n);
    lemma_two_to_product(8, n + 8);
    lemma_two_to_values();
    lemma_two_to_grows(0, n as int);
    let f = two_to(n as int);
    let q = (v as int) / two_to(n + 8);
    vstd::arithmetic::div_mod::lemma_fundamental_div_mod(v as int, two_to(n + 8));
    assert(v as int == (256 * q) * f) by (nonlinear_arith)
        requires
            v as int == two_to(n + 8) * q,
            two_to(n + 8) == 256 * f,
    ;
    vstd::arithmetic::div_mod::lemma_fundamental_div_mod_converse(v as int, f, 256 * q, 0);
    assert((v as int / f) % 256 == 0);
    lemma_or_disjoint(v, b, n);
    assert(v + b * f == (256 * q + b) * f) by (nonlinear_arith)
        requires
            v as int == (256 * q) * f,
    ;
    vstd::arithmetic::div_mod::lemma_fundamental_div_mod_converse(
        v + b * f,
        f,
        256 * q + b,
        0,
    );
}

proof fn lemma_split_bits(k: u32, probability: u8)
    by (bit_vector)
    requires
        128 <= k <= 255,
    ensures
        (((((k * 0x100_0000u32) as u32) >> 8u32) * probability + (256 - probability) * 65536) as u32)
            & 0xff00_0000u32 == (1 + ((k - 1) * probability) / 256) * 0x100_0000,
{
}

/// The share of a range that falls to `false` is the same whether the
/// range is held in the top eight of 32 bits or in eight bits.
pub proof fn lemma_split_is_share(k: u32, probability: u8)
    requires
        128 <= k <= 255,
    ensures
        split_of((k * 0x100_0000) as u32, probability)
            == share_of(k, probability) * 0x100_0000,
{
    lemma_split_bits(k, probability);
}

proof fn lemma_top_bit(v: u32, n: u32)
    by (bit_vector)
    requires
        n <= 32,
        n < 32 ==> v >> n == 0,
        n > 0 ==> (v >> ((n - 1) as u32)) & 1 != 0,
        1 <= v / 0x100_0000 <= 255,
        v % 0x100_0000 == 0,
    ensures
        (n == 25 ==> v / 0x100_0000 == 1),
        (n == 26 ==> 2 <= v / 0x100_0000 <= 3),
        (n == 27 ==> 4 <= v / 0x100_0000 <= 7),
        (n == 28 ==> 8 <= v / 0x100_0000 <= 15),
        (n == 29 ==> 16 <= v / 0x100_0000 <= 31),
        (n == 30 ==> 32 <= v / 0x100_0000 <= 63),
        (n == 31 ==> 64 <= v / 0x100_0000 <= 127),
        (n == 32 ==> 128 <= v / 0x100_0000 <= 255),
        25 <= n,
{
}

/// A width held in the top eight of 32 bits has as many leading zeros as it
/// lacks digits to eight.
pub proof fn lemma_leading_zeros_of_width(width: u32)
    requires
        1 <= width <= 255,
    ensures
        u32_leading_zeros((width * 0x100_0000) as u32) == 8 - bit_length(width as int),
{
    let v = (width * 0x100_0000) as u32;
    axiom_u32_leading_zeros(v);
    let zeros = u32_leading_zeros(v);
    let n = (32 - zeros) as u32;
    lemma_top_bit(v, n);
}

} // verus!
