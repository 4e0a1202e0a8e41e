//! Eight-lane integer vectors, computed by the `wide` crate.
//!
//! A vector is held as an array of eight lanes. Each operation below hands its
//! operands to `wide` and takes the lanes of the result back; what it states
//! of the result is taken on trust from that crate.

use vstd::prelude::*;
use wide::{i16x8, i32x8};

verus! {

/// Lane by lane, the sum reduced to 32 bits.
pub open spec fn lanes_add32(a: Seq<i32>, b: Seq<i32>) -> Seq<i32> {
    Seq::new(8, |i: int| a[i].wrapping_add(b[i]))
}

/// Lane by lane, the difference reduced to 32 bits.
pub open spec fn lanes_sub32(a: Seq<i32>, b: Seq<i32>) -> Seq<i32> {
    Seq::new(8, |i: int| a[i].wrapping_sub(b[i]))
}

/// Lane by lane, the product reduced to 32 bits.
pub open spec fn lanes_mul32(a: Seq<i32>, b: Seq<i32>) -> Seq<i32> {
    Seq::new(8, |i: int| a[i].wrapping_mul(b[i]))
}

/// Every lane shifted left by `n` bits, the bits that leave at the top lost.
pub open spec fn lanes_shl32(a: Seq<i32>, n: u32) -> Seq<i32> {
    Seq::new(8, |i: int| a[i] << n)
}

/// Every lane shifted right by `n` bits, keeping the sign.
pub open spec fn lanes_shr32(a: Seq<i32>, n: u32) -> Seq<i32> {
    Seq::new(8, |i: int| a[i] >> n)
}

/// The sum of the eight lanes, reduced to 32 bits.
pub open spec fn lanes_sum32(a: Seq<i32>) -> i32 {
    a[0].wrapping_add(a[1]).wrapping_add(a[2]).wrapping_add(a[3]).wrapping_add(
        a[4],
    ).wrapping_add(a[5]).wrapping_add(a[6]).wrapping_add(a[7])
}

/// Every lane widened to 32 bits.
pub open spec fn lanes_widen(a: Seq<i16>) -> Seq<i32> {
    Seq::new(8, |i: int| a[i] as i32)
}

/// The low 16 bits of every lane.
pub open spec fn lanes_truncate(a: Seq<i32>) -> Seq<i16> {
    Seq::new(8, |i: int| a[i] as i16)
}

/// Lane by lane, the sum reduced to 16 bits.
pub open spec fn lanes_add16(a: Seq<i16>, b: Seq<i16>) -> Seq<i16> {
    Seq::new(8, |i: int| a[i].wrapping_add(b[i]))
}

/// Lane by lane, the difference reduced to 16 bits.
pub open spec fn lanes_sub16(a: Seq<i16>, b: Seq<i16>) -> Seq<i16> {
    Seq::new(8, |i: int| a[i].wrapping_sub(b[i]))
}

/// Every lane shifted right by `n` bits, keeping the sign.
pub open spec fn lanes_shr16(a: Seq<i16>, n: u32) -> Seq<i16> {
    Seq::new(8, |i: int| a[i] >> n)
}

/// Lane by lane, the smaller of the two.
pub open spec fn lanes_min16(a: Seq<i16>, b: Seq<i16>) -> Seq<i16> {
    Seq::new(8, |i: int| lesser(a[i], b[i]))
}

/// Lane by lane, the larger of the two.
pub open spec fn lanes_max16(a: Seq<i16>, b: Seq<i16>) -> Seq<i16> {
    Seq::new(8, |i: int| greater(a[i], b[i]))
}

/// The smaller of two values.
pub open spec fn lesser(a: i16, b: i16) -> i16 {
    if a <= b {
        a
    } else {
        b
    }
}

/// The larger of two values.
pub open spec fn greater(a: i16, b: i16) -> i16 {
    if a >= b {
        a
    } else {
        b
    }
}

/// The smallest of the eight lanes.
pub open spec fn lanes_least16(a: Seq<i16>) -> i16 {
    lesser(
        lesser(lesser(a[0], a[1]), lesser(a[2], a[3])),
        lesser(lesser(a[4], a[5]), lesser(a[6], a[7])),
    )
}

/// The largest of the eight lanes.
pub open spec fn lanes_greatest16(a: Seq<i16>) -> i16 {
    greater(
        greater(greater(a[0], a[1]), greater(a[2], a[3])),
        greater(greater(a[4], a[5]), greater(a[6], a[7])),
    )
}

/// The 8x8 matrix held row by row in `a`, with rows and columns exchanged.
pub open spec fn transposed<T>(a: Seq<T>) -> Seq<T> {
    Seq::new(64, |i: int| a[(i % 8) * 8 + i / 8])
}

/// `Add` of `wide::i32x8`: the lanes are added, wrapping around.
#[verifier::external_body]
pub(crate) fn add32(a: &[i32; 8], b: &[i32; 8]) -> (r: [i32; 8])
    ensures
        r@ == lanes_add32(a@, b@),
{
    (i32x8::new(*a) + i32x8::new(*b)).to_array()
}

/// `Sub` of `wide::i32x8`: the lanes are subtracted, wrapping around.
#[verifier::external_body]
pub(crate) fn sub32(a: &[i32; 8], b: &[i32; 8]) -> (r: [i32; 8])
    ensures
        r@ == lanes_sub32(a@, b@),
{
    (i32x8::new(*a) - i32x8::new(*b)).to_array()
}

/// `Mul` of `wide::i32x8`: the lanes are multiplied, keeping the low 32 bits.
#[verifier::external_body]
pub(crate) fn mul32(a: &[i32; 8], b: &[i32; 8]) -> (r: [i32; 8])
    ensures
        r@ == lanes_mul32(a@, b@),
{
    (i32x8::new(*a) * i32x8::new(*b)).to_array()
}

/// `Shl<u32>` of `wide::i32x8`: every lane is shifted left by the same count.
#[verifier::external_body]
pub(crate) fn shl32(a: &[i32; 8], n: u32) -> (r: [i32; 8])
    requires
        n < 32,
    ensures
        r@ == lanes_shl32(a@, n),
{
    (i32x8::new(*a) << n).to_array()
}

/// `Shr<u32>` of `wide::i32x8`: every lane is shifted right by the same
/// count, the sign bit filling in.
#[verifier::external_body]
pub(crate) fn shr32(a: &[i32; 8], n: u32) -> (r: [i32; 8])
    requires
        n < 32,
    ensures
        r@ == lanes_shr32(a@, n),
{
    (i32x8::new(*a) >> n).to_array()
}

/// `wide::i32x8::reduce_add`: the wrapping sum of the lanes.
#[verifier::external_body]
pub(crate) fn reduce_add32(a: &[i32; 8]) -> (r: i32)
    ensures
        r == lanes_sum32(a@),
{
    i32x8::new(*a).reduce_add()
}

/// `wide::i32x8::transpose`, on a matrix held row by row.
#[verifier::external_body]
pub(crate) fn transpose32(a: &[i32; 64]) -> (r: [i32; 64])
    ensures
        r@ == transposed(a@),
{
    bytemuck::cast(i32x8::transpose(bytemuck::cast(*a)))
}

/// `wide::i32x8::from_i16x8`: every lane is widened, keeping its value.
#[verifier::external_body]
pub(crate) fn widen16(a: &[i16; 8]) -> (r: [i32; 8])
    ensures
        r@ == lanes_widen(a@),
{
    i32x8::from_i16x8(i16x8::new(*a)).to_array()
}

/// `wide::i16x8::from_i32x8_truncate`: the low half of every lane.
#[verifier::external_body]
pub(crate) fn truncate32(a: &[i32; 8]) -> (r: [i16; 8])
    ensures
        r@ == lanes_truncate(a@),
{
    i16x8::from_i32x8_truncate(i32x8::new(*a)).to_array()
}

/// `Add` of `wide::i16x8`: the lanes are added, wrapping around.
#[verifier::external_body]
pub(crate) fn add16(a: &[i16; 8], b: &[i16; 8]) -> (r: [i16; 8])
    ensures
        r@ == lanes_add16(a@, b@),
{
    (i16x8::new(*a) + i16x8::new(*b)).to_array()
}

/// `Sub` of `wide::i16x8`: the lanes are subtracted, wrapping around.
#[verifier::external_body]
pub(crate) fn sub16(a: &[i16; 8], b: &[i16; 8]) -> (r: [i16; 8])
    ensures
        r@ == lanes_sub16(a@, b@),
{
    (i16x8::new(*a) - i16x8::new(*b)).to_array()
}

/// `Shr<u32>` of `wide::i16x8`: every lane is shifted right by the same
/// count, the sign bit filling in.
#[verifier::external_body]
pub(crate) fn shr16(a: &[i16; 8], n: u32) -> (r: [i16; 8])
    requires
        n < 16,
    ensures
        r@ == lanes_shr16(a@, n),
{
    (i16x8::new(*a) >> n).to_array()
}

/// `wide::i16x8::min`: lane by lane, the smaller value.
#[verifier::external_body]
pub(crate) fn min16(a: &[i16; 8], b: &[i16; 8]) -> (r: [i16; 8])
    ensures
        r@ == lanes_min16(a@, b@),
{
    i16x8::new(*a).min(i16x8::new(*b)).to_array()
}

/// `wide::i16x8::max`: lane by lane, the larger value.
#[verifier::external_body]
pub(crate) fn max16(a: &[i16; 8], b: &[i16; 8]) -> (r: [i16; 8])
    ensures
        r@ == lanes_max16(a@, b@),
{
    i16x8::new(*a).max(i16x8::new(*b)).to_array()
}

/// `wide::i16x8::reduce_min`: the smallest lane.
#[verifier::external_body]
pub(crate) fn reduce_min16(a: &[i16; 8]) -> (r: i16)
    ensures
        r == lanes_least16(a@),
{
    i16x8::new(*a).reduce_min()
}

/// `wide::i16x8::reduce_max`: the largest lane.
#[verifier::external_body]
pub(crate) fn reduce_max16(a: &[i16; 8]) -> (r: i16)
    ensures
        r == lanes_greatest16(a@),
{
    i16x8::new(*a).reduce_max()
}

/// `wide::i16x8::transpose`, on a matrix held row by row.
#[verifier::external_body]
pub(crate) fn transpose16(a: &[i16; 64]) -> (r: [i16; 64])
    ensures
        r@ == transposed(a@),
{
    bytemuck::cast(i16x8::transpose(bytemuck::cast(*a)))
}

/// The vector whose lanes all hold `v`.
pub fn splat32(v: i32) -> (r: [i32; 8])
    ensures
        r@ == Seq::new(8, |i: int| v),
{
    let r = [v; 8];
    assert(r@ =~= Seq::new(8, |i: int| v));
    r
}

/// The vector whose lanes all hold `v`.
pub fn splat16(v: i16) -> (r: [i16; 8])
    ensures
        r@ == Seq::new(8, |i: int| v),
{
    let r = [v; 8];
    assert(r@ =~= Seq::new(8, |i: int| v));
    r
}

/// Row `k` of a matrix held row by row.
pub open spec fn row_of<T>(a: Seq<T>, k: int) -> Seq<T> {
    a.subrange(8 * k, 8 * k + 8)
}

/// Copies row `k` out of a matrix of 32-bit values.
pub fn row32(a: &[i32; 64], k: usize) -> (r: [i32; 8])
    requires
        k < 8,
    ensures
        r@ == row_of(a@, k as int),
{
    let o = 8 * k;
    let r = [a[o], a[o + 1], a[o + 2], a[o + 3], a[o + 4], a[o + 5], a[o + 6], a[o + 7]];
    assert(r@ =~= row_of(a@, k as int));
    r
}

/// Eight values of `a`, starting at `offset` and `stride` apart.
pub open spec fn strided<T>(a: Seq<T>, offset: int, stride: int) -> Seq<T> {
    Seq::new(8, |i: int| a[offset + i * stride])
}

/// Copies eight 16-bit values out of `a`, starting at `offset` and `stride`
/// apart.
pub fn gather16(a: &[i16; 64], offset: usize, stride: usize) -> (r: [i16; 8])
    requires
        offset + 7 * stride < 64,
    ensures
        r@ == strided(a@, offset as int, stride as int),
{
    let r = [
        a[offset],
        a[offset + stride],
        a[offset + 2 * stride],
        a[offset + 3 * stride],
        a[offset + 4 * stride],
        a[offset + 5 * stride],
        a[offset + 6 * stride],
        a[offset + 7 * stride],
    ];
    assert forall|i: int| 0 <= i < 8 implies r@[i] == a@[offset + i * stride] by {
        if i == 0 {
        } else if i == 1 {
        } else if i == 2 {
        } else if i == 3 {
        } else if i == 4 {
        } else if i == 5 {
        } else if i == 6 {
        } else {
            assert(i == 7);
        }
    }
    assert(r@ =~= strided(a@, offset as int, stride as int));
    r
}

} // verus!
