//! The fixed-point inverse DCT from which DC predictions are made.
//!
//! The transform runs on 32-bit lanes that wrap around, eight at a time: a
//! pass over the eight vectors of the input, a transposition, and a second
//! pass. Its output keeps three more bits than a pixel has.

use crate::block_based_image::AlignedBlock;
use crate::lanes::{
    add32, lanes_add32, lanes_mul32, lanes_shl32, lanes_shr32, lanes_sub32, lanes_truncate, mul32,
    row32, row_of, shl32, shr32, splat32, sub32, transpose32, transposed, truncate32,
};
use vstd::prelude::*;

verus! {

pub const W3: i32 = 2408;

pub const W6: i32 = 1108;

pub const W7: i32 = 565;

pub const W1PW7: i32 = 3406;

pub const W1MW7: i32 = 2276;

pub const W2PW6: i32 = 3784;

pub const W2MW6: i32 = 1568;

pub const W3PW5: i32 = 4017;

pub const W3MW5: i32 = 799;

pub const R2: i32 = 181;

/// Every lane of `a` times `k`.
pub open spec fn scaled(k: i32, a: Seq<i32>) -> Seq<i32> {
    lanes_mul32(Seq::new(8, |i: int| k), a)
}

/// Every lane of `a` plus `k`.
pub open spec fn shifted(a: Seq<i32>, k: i32) -> Seq<i32> {
    lanes_add32(a, Seq::new(8, |i: int| k))
}

/// What sets the two passes of the transform apart: how far the even terms
/// are scaled up, what is added to the first of them, what the odd terms are
/// rounded by, and how far the sums are scaled down.
pub struct PassShape {
    pub up: u32,
    pub bias: i32,
    pub round: i32,
    pub down: u32,
    pub out: u32,
}

pub open spec fn first_pass() -> PassShape {
    PassShape { up: 11, bias: 128, round: 0, down: 0, out: 8 }
}

pub open spec fn second_pass() -> PassShape {
    PassShape { up: 8, bias: 8192, round: 4, down: 3, out: 11 }
}

/// One pass of the transform over eight vectors, the `k`-th of which holds
/// the terms of frequency `k`.
pub open spec fn pass_of(t: Seq<Seq<i32>>, p: PassShape) -> Seq<Seq<i32>> {
    let x0 = shifted(lanes_shl32(t[0], p.up), p.bias);
    let x4 = lanes_shl32(t[4], p.up);
    // odd part
    let a = shifted(scaled(W7, lanes_add32(t[1], t[7])), p.round);
    let x1 = lanes_shr32(lanes_add32(a, scaled(W1MW7, t[1])), p.down);
    let x7 = lanes_shr32(lanes_sub32(a, scaled(W1PW7, t[7])), p.down);
    let b = shifted(scaled(W3, lanes_add32(t[5], t[3])), p.round);
    let x5 = lanes_shr32(lanes_sub32(b, scaled(W3MW5, t[5])), p.down);
    let x3 = lanes_shr32(lanes_sub32(b, scaled(W3PW5, t[3])), p.down);
    // even part
    let e0 = lanes_add32(x0, x4);
    let e1 = lanes_sub32(x0, x4);
    let c = shifted(scaled(W6, lanes_add32(t[2], t[6])), p.round);
    let x6 = lanes_shr32(lanes_sub32(c, scaled(W2PW6, t[6])), p.down);
    let x2 = lanes_shr32(lanes_add32(c, scaled(W2MW6, t[2])), p.down);
    let o0 = lanes_add32(x1, x5);
    let d1 = lanes_sub32(x1, x5);
    let o3 = lanes_add32(x7, x3);
    let d7 = lanes_sub32(x7, x3);
    let s0 = lanes_add32(e0, x2);
    let s3 = lanes_sub32(e0, x2);
    let s1 = lanes_add32(e1, x6);
    let s2 = lanes_sub32(e1, x6);
    let o1 = lanes_shr32(shifted(scaled(R2, lanes_add32(d1, d7)), 128), 8);
    let o2 = lanes_shr32(shifted(scaled(R2, lanes_sub32(d1, d7)), 128), 8);
    seq![
        lanes_shr32(lanes_add32(s0, o0), p.out),
        lanes_shr32(lanes_add32(s1, o1), p.out),
        lanes_shr32(lanes_add32(s2, o2), p.out),
        lanes_shr32(lanes_add32(s3, o3), p.out),
        lanes_shr32(lanes_sub32(s3, o3), p.out),
        lanes_shr32(lanes_sub32(s2, o2), p.out),
        lanes_shr32(lanes_sub32(s1, o1), p.out),
        lanes_shr32(lanes_sub32(s0, o0), p.out),
    ]
}

/// The eight rows of a matrix of 64 values.
pub open spec fn rows_of(a: Seq<i32>) -> Seq<Seq<i32>> {
    Seq::new(8, |k: int| row_of(a, k))
}

/// The matrix whose rows are the eight vectors of `rows`.
pub open spec fn matrix_of(rows: Seq<Seq<i32>>) -> Seq<i32> {
    Seq::new(64, |i: int| rows[i / 8][i % 8])
}

/// The matrix of 16-bit values whose rows are the low halves of the eight
/// vectors of `rows`.
pub open spec fn pixels_of(rows: Seq<Seq<i32>>) -> Seq<i16> {
    Seq::new(64, |i: int| lanes_truncate(rows[i / 8])[i % 8])
}

/// The inverse transform of the dequantized coefficients `raster`, held
/// column by column: the pixels, row by row, times eight.
#[verifier::opaque]
pub open spec fn idct_of(raster: Seq<i32>) -> Seq<i16> {
    let first = pass_of(rows_of(raster), first_pass());
    let turned = transposed(matrix_of(first));
    pixels_of(pass_of(rows_of(turned), second_pass()))
}

fn scale(k: i32, a: &[i32; 8]) -> (r: [i32; 8])
    ensures
        r@ == scaled(k, a@),
{
    mul32(&splat32(k), a)
}

fn shift(a: &[i32; 8], k: i32) -> (r: [i32; 8])
    ensures
        r@ == shifted(a@, k),
{
    add32(a, &splat32(k))
}

fn run_pass(t: &[[i32; 8]; 8], up: u32, bias: i32, round: i32, down: u32, out: u32) -> (r: [[i32;
    8]; 8])
    requires
        up < 32,
        down < 32,
        out < 32,
    ensures
        seq![r[0]@, r[1]@, r[2]@, r[3]@, r[4]@, r[5]@, r[6]@, r[7]@] == pass_of(
            seq![t[0]@, t[1]@, t[2]@, t[3]@, t[4]@, t[5]@, t[6]@, t[7]@],
            PassShape { up, bias, round, down, out },
        ),
{
    let x0 = shift(&shl32(&t[0], up), bias);
    let x4 = shl32(&t[4], up);
    let a = shift(&scale(W7, &add32(&t[1], &t[7])), round);
    let x1 = shr32(&add32(&a, &scale(W1MW7, &t[1])), down);
    let x7 = shr32(&sub32(&a, &scale(W1PW7, &t[7])), down);
    let b = shift(&scale(W3, &add32(&t[5], &t[3])), round);
    let x5 = shr32(&sub32(&b, &scale(W3MW5, &t[5])), down);
    let x3 = shr32(&sub32(&b, &scale(W3PW5, &t[3])), down);
    let e0 = add32(&x0, &x4);
    let e1 = sub32(&x0, &x4);
    let c = shift(&scale(W6, &add32(&t[2], &t[6])), round);
    let x6 = shr32(&sub32(&c, &scale(W2PW6, &t[6])), down);
    let x2 = shr32(&add32(&c, &scale(W2MW6, &t[2])), down);
    let o0 = add32(&x1, &x5);
    let d1 = sub32(&x1, &x5);
    let o3 = add32(&x7, &x3);
    let d7 = sub32(&x7, &x3);
    let s0 = add32(&e0, &x2);
    let s3 = sub32(&e0, &x2);
    let s1 = add32(&e1, &x6);
    let s2 = sub32(&e1, &x6);
    let o1 = shr32(&shift(&scale(R2, &add32(&d1, &d7)), 128), 8);
    let o2 = shr32(&shift(&scale(R2, &sub32(&d1, &d7)), 128), 8);
    [
        shr32(&add32(&s0, &o0), out),
        shr32(&add32(&s1, &o1), out),
        shr32(&add32(&s2, &o2), out),
        shr32(&add32(&s3, &o3), out),
        shr32(&sub32(&s3, &o3), out),
        shr32(&sub32(&s2, &o2), out),
        shr32(&sub32(&s1, &o1), out),
        shr32(&sub32(&s0, &o0), out),
    ]
}

fn split_rows(a: &[i32; 64]) -> (r: [[i32; 8]; 8])
    ensures
        seq![r[0]@, r[1]@, r[2]@, r[3]@, r[4]@, r[5]@, r[6]@, r[7]@] == rows_of(a@),
{
    let r = [
        row32(a, 0),
        row32(a, 1),
        row32(a, 2),
        row32(a, 3),
        row32(a, 4),
        row32(a, 5),
        row32(a, 6),
        row32(a, 7),
    ];
    assert(seq![r[0]@, r[1]@, r[2]@, r[3]@, r[4]@, r[5]@, r[6]@, r[7]@] =~= rows_of(a@));
    r
}

fn join_rows(rows: &[[i32; 8]; 8]) -> (r: [i32; 64])
    ensures
        r@ == matrix_of(
            seq![rows[0]@, rows[1]@, rows[2]@, rows[3]@, rows[4]@, rows[5]@, rows[6]@, rows[7]@],
        ),
{
    let mut r = [0i32; 64];
    let mut i: usize = 0;
    while i < 64
        invariant
            i <= 64,
            forall|j: int| 0 <= j < i ==> #[trigger] r[j] == rows[j / 8][j % 8],
        decreases 64 - i,
    {
        let row = rows[i / 8];
        r[i] = row[i % 8];
        i += 1;
    }
    assert(r@ =~= matrix_of(
        seq![rows[0]@, rows[1]@, rows[2]@, rows[3]@, rows[4]@, rows[5]@, rows[6]@, rows[7]@],
    ));
    r
}

fn join_pixels(rows: &[[i32; 8]; 8]) -> (r: [i16; 64])
    ensures
        r@ == pixels_of(
            seq![rows[0]@, rows[1]@, rows[2]@, rows[3]@, rows[4]@, rows[5]@, rows[6]@, rows[7]@],
        ),
{
    let mut r = [0i16; 64];
    let mut k: usize = 0;
    while k < 8
        invariant
            k <= 8,
            forall|j: int|
                0 <= j < 8 * k ==> #[trigger] r[j] == lanes_truncate(rows[j / 8]@)[j % 8],
        decreases 8 - k,
    {
        let low = truncate32(&rows[k]);
        let mut i: usize = 0;
        while i < 8
            invariant
                k < 8,
                i <= 8,
                low@ == lanes_truncate(rows[k as int]@),
                forall|j: int|
                    0 <= j < 8 * k + i ==> #[trigger] r[j] == lanes_truncate(rows[j / 8]@)[j % 8],
            decreases 8 - i,
        {
            r[8 * k + i] = low[i];
            i += 1;
        }
        k += 1;
    }
    assert(r@ =~= pixels_of(
        seq![rows[0]@, rows[1]@, rows[2]@, rows[3]@, rows[4]@, rows[5]@, rows[6]@, rows[7]@],
    ));
    r
}

/// Inverse transform of a block of dequantized coefficients held column by
/// column. The result holds the pixels row by row, each times eight.
pub fn run_idct(raster: &[i32; 64]) -> (r: AlignedBlock)
    ensures
        r@ == idct_of(raster@),
{
    reveal(idct_of);
    let first = run_pass(&split_rows(raster), 11, 128, 0, 0, 8);
    let turned = transpose32(&join_rows(&first));
    let second = run_pass(&split_rows(&turned), 8, 8192, 4, 3, 11);
    AlignedBlock::new(join_pixels(&second))
}

} // verus!
