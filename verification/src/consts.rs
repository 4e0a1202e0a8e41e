//! Tables and limits that are part of the coded format.

use vstd::prelude::*;

verus! {

/// Longest binary magnitude of a coefficient.
pub const MAX_EXPONENT: usize = 11;

/// Number of low bits of an edge coefficient that are always coded as noise.
pub const RESIDUAL_NOISE_FLOOR: usize = 7;

/// Position in zigzag order of each coefficient in row-major order.
pub const RASTER_TO_ZIGZAG: [u8; 64] = [
    0, 1, 5, 6, 14, 15, 27, 28, 2, 4, 7, 13, 16, 26, 29, 42,
    3, 8, 12, 17, 25, 30, 41, 43, 9, 11, 18, 24, 31, 40, 44, 53,
    10, 19, 23, 32, 39, 45, 52, 54, 20, 22, 33, 38, 46, 51, 55, 60,
    21, 34, 37, 47, 50, 56, 59, 61, 35, 36, 48, 49, 57, 58, 62, 63,
];

/// Position in column-major order of each coefficient in zigzag order.
pub const ZIGZAG_TO_TRANSPOSED: [u8; 64] = [
    0, 8, 1, 2, 9, 16, 24, 17, 10, 3, 4, 11, 18, 25, 32, 40,
    33, 26, 19, 12, 5, 6, 13, 20, 27, 34, 41, 48, 56, 49, 42, 35,
    28, 21, 14, 7, 15, 22, 29, 36, 43, 50, 57, 58, 51, 44, 37, 30,
    23, 31, 38, 45, 52, 59, 60, 53, 46, 39, 47, 54, 61, 62, 55, 63,
];

/// Position in zigzag order of each coefficient in column-major order.
pub const TRANSPOSED_TO_ZIGZAG: [u8; 64] = [
    0, 2, 3, 9, 10, 20, 21, 35, 1, 4, 8, 11, 19, 22, 34, 36,
    5, 7, 12, 18, 23, 33, 37, 48, 6, 13, 17, 24, 32, 38, 47, 49,
    14, 16, 25, 31, 39, 46, 50, 57, 15, 26, 30, 40, 45, 51, 56, 58,
    27, 29, 41, 44, 52, 55, 59, 62, 28, 42, 43, 53, 54, 60, 61, 63,
];

/// The 49 coefficients off the first row and column, as column-major
/// positions, in the order in which they are coded.
pub const UNZIGZAG_49_TR: [u8; 49] = [
    9, 17, 10, 11, 18, 25, 33, 26, 19, 12, 13, 20, 27, 34, 41, 49,
    42, 35, 28, 21, 14, 15, 22, 29, 36, 43, 50, 57, 58, 51, 44, 37,
    30, 23, 31, 38, 45, 52, 59, 60, 53, 46, 39, 47, 54, 61, 62, 55,
    63,
];

/// Context bin of an averaged count of non-zero neighbours.
pub const NON_ZERO_TO_BIN: [u8; 26] = [
    0, 1, 2, 3, 4, 4, 5, 5, 5, 6, 6, 6, 6, 7, 7, 7,
    7, 7, 7, 8, 8, 8, 8, 8, 8, 8,
];

/// Context bin of the number of non-zero coefficients still to come among
/// the inner 49.
pub const NON_ZERO_TO_BIN_7X7: [u8; 50] = [
    0, 0, 1, 2, 3, 3, 4, 4, 5, 5, 5, 5, 5, 5, 5, 6,
    6, 6, 6, 6, 6, 6, 6, 6, 6, 7, 7, 7, 7, 7, 7, 7,
    7, 7, 7, 8, 8, 8, 8, 8, 8, 8, 8, 8, 8, 8, 8, 8,
    8, 8,
];

/// Largest magnitude, before quantization, of each of the 14 edge
/// coefficients: first the seven of row zero, then the seven of column zero.
pub const FREQ_MAX: [u16; 14] = [
    931, 985, 968, 1020, 968, 1020, 1020, 932, 985, 967, 1020, 969, 1020, 1020,
];

/// Cosine basis at the block border, scaled by 8192, with the DC term left out.
pub const ICOS_BASED_8192_SCALED: [i32; 8] = [0, 11363, 10703, 9633, 8192, 6437, 4433, 2260];

/// Cosine basis at the opposite block border, scaled by 8192.
pub const ICOS_BASED_8192_SCALED_PM: [i32; 8] = [
    8192, -11363, 10703, -9633, 8192, -6437, 4433, -2260,
];

/// `ZIGZAG_TO_TRANSPOSED` is a permutation of `0..64`, and
/// `TRANSPOSED_TO_ZIGZAG` is its inverse.
pub proof fn lemma_zigzag_to_transposed_is_permutation()
    ensures
        forall|i: int| 0 <= i < 64 ==> #[trigger] ZIGZAG_TO_TRANSPOSED[i] < 64,
        forall|i: int| 0 <= i < 64 ==> #[trigger] TRANSPOSED_TO_ZIGZAG[i] < 64,
        forall|i: int|
            0 <= i < 64 ==> TRANSPOSED_TO_ZIGZAG[#[trigger] ZIGZAG_TO_TRANSPOSED[i] as int] == i,
        forall|i: int|
            0 <= i < 64 ==> ZIGZAG_TO_TRANSPOSED[#[trigger] TRANSPOSED_TO_ZIGZAG[i] as int] == i,
        forall|i: int, j: int|
            0 <= i < 64 && 0 <= j < 64 && i != j ==> #[trigger] ZIGZAG_TO_TRANSPOSED[i]
                != #[trigger] ZIGZAG_TO_TRANSPOSED[j],
{
    assert forall|i: int| 0 <= i < 64 implies (#[trigger] ZIGZAG_TO_TRANSPOSED[i] < 64
        && TRANSPOSED_TO_ZIGZAG[ZIGZAG_TO_TRANSPOSED[i] as int] == i) by {
        lemma_zigzag_entry(i);
    }
    assert forall|i: int| 0 <= i < 64 implies (#[trigger] TRANSPOSED_TO_ZIGZAG[i] < 64
        && ZIGZAG_TO_TRANSPOSED[TRANSPOSED_TO_ZIGZAG[i] as int] == i) by {
        lemma_transposed_entry(i);
    }
    assert forall|i: int, j: int| 0 <= i < 64 && 0 <= j < 64 && i != j implies (
    #[trigger] ZIGZAG_TO_TRANSPOSED[i]) != (#[trigger] ZIGZAG_TO_TRANSPOSED[j]) by {
        lemma_zigzag_entry(i);
        lemma_zigzag_entry(j);
    }
}

/// Entry `i` of `ZIGZAG_TO_TRANSPOSED` is a position of a block, and
/// `TRANSPOSED_TO_ZIGZAG` leads back from it to `i`.
pub proof fn lemma_zigzag_entry(i: int)
    requires
        0 <= i < 64,
    ensures
        ZIGZAG_TO_TRANSPOSED[i] < 64,
        TRANSPOSED_TO_ZIGZAG[ZIGZAG_TO_TRANSPOSED[i] as int] == i,
{
    if i < 16 {
    } else if i < 32 {
    } else if i < 48 {
    } else {
    }
}

/// Entry `i` of `TRANSPOSED_TO_ZIGZAG` is a position of a block, and
/// `ZIGZAG_TO_TRANSPOSED` leads back from it to `i`.
pub proof fn lemma_transposed_entry(i: int)
    requires
        0 <= i < 64,
    ensures
        TRANSPOSED_TO_ZIGZAG[i] < 64,
        ZIGZAG_TO_TRANSPOSED[TRANSPOSED_TO_ZIGZAG[i] as int] == i,
{
    if i < 16 {
    } else if i < 32 {
    } else if i < 48 {
    } else {
    }
}

/// Every entry of `UNZIGZAG_49_TR` lies off the first row and column.
pub proof fn lemma_unzigzag_49_inner(i: int)
    requires
        0 <= i < 49,
    ensures
        9 <= UNZIGZAG_49_TR[i] < 64,
        UNZIGZAG_49_TR[i] % 8 != 0,
{
}

/// Both tables of bins stay below nine.
pub proof fn lemma_bins_bounded()
    ensures
        forall|i: int| 0 <= i < 26 ==> #[trigger] NON_ZERO_TO_BIN[i] <= 8,
        forall|i: int| 0 <= i < 50 ==> #[trigger] NON_ZERO_TO_BIN_7X7[i] <= 8,
{
}

} // verus!
