//! Small numeric helpers.

use vstd::prelude::*;
use vstd::std_specs::bits::{axiom_u16_leading_zeros, axiom_u32_leading_zeros};

verus! {

/// Number of binary digits of `v`: the least `n` with `v < 2^n`.
pub open spec fn bit_length(v: int) -> int {
    if v < 0x1 {
        0
    }     else if v < 0x2 {
        1
    }     else if v < 0x4 {
        2
    }     else if v < 0x8 {
        3
    }     else if v < 0x10 {
        4
    }     else if v < 0x20 {
        5
    }     else if v < 0x40 {
        6
    }     else if v < 0x80 {
        7
    }     else if v < 0x100 {
        8
    }     else if v < 0x200 {
        9
    }     else if v < 0x400 {
        10
    }     else if v < 0x800 {
        11
    }     else if v < 0x1000 {
        12
    }     else if v < 0x2000 {
        13
    }     else if v < 0x4000 {
        14
    }     else if v < 0x8000 {
        15
    }     else if v < 0x10000 {
        16
    }     else if v < 0x20000 {
        17
    }     else if v < 0x40000 {
        18
    }     else if v < 0x80000 {
        19
    }     else if v < 0x100000 {
        20
    }     else if v < 0x200000 {
        21
    }     else if v < 0x400000 {
        22
    }     else if v < 0x800000 {
        23
    }     else if v < 0x1000000 {
        24
    }     else if v < 0x2000000 {
        25
    }     else if v < 0x4000000 {
        26
    }     else if v < 0x8000000 {
        27
    }     else if v < 0x10000000 {
        28
    }     else if v < 0x20000000 {
        29
    }     else if v < 0x40000000 {
        30
    }     else if v < 0x80000000 {
        31
    } else {
        32
    }
}

proof fn lemma_top_bit_16(v: u16, n: u16)
    by (bit_vector)
    requires
        n <= 16,
        n < 16 ==> v >> n == 0,
        n > 0 ==> (v >> ((n - 1) as u16)) & 1 != 0,
    ensures
        n == 0 ==> v == 0,
        n == 1 ==> 0x1 <= v <= 0x1,
        n == 2 ==> 0x2 <= v <= 0x3,
        n == 3 ==> 0x4 <= v <= 0x7,
        n == 4 ==> 0x8 <= v <= 0xf,
        n == 5 ==> 0x10 <= v <= 0x1f,
        n == 6 ==> 0x20 <= v <= 0x3f,
        n == 7 ==> 0x40 <= v <= 0x7f,
        n == 8 ==> 0x80 <= v <= 0xff,
        n == 9 ==> 0x100 <= v <= 0x1ff,
        n == 10 ==> 0x200 <= v <= 0x3ff,
        n == 11 ==> 0x400 <= v <= 0x7ff,
        n == 12 ==> 0x800 <= v <= 0xfff,
        n == 13 ==> 0x1000 <= v <= 0x1fff,
        n == 14 ==> 0x2000 <= v <= 0x3fff,
        n == 15 ==> 0x4000 <= v <= 0x7fff,
        n == 16 ==> 0x8000 <= v <= 0xffff,
{
}

proof fn lemma_top_bit_32(v: u32, n: u32)
    by (bit_vector)
    requires
        n <= 32,
        n < 32 ==> v >> n == 0,
        n > 0 ==> (v >> ((n - 1) as u32)) & 1 != 0,
    ensures
        n == 0 ==> v == 0,
        n == 1 ==> 0x1 <= v <= 0x1,
        n == 2 ==> 0x2 <= v <= 0x3,
        n == 3 ==> 0x4 <= v <= 0x7,
        n == 4 ==> 0x8 <= v <= 0xf,
        n == 5 ==> 0x10 <= v <= 0x1f,
        n == 6 ==> 0x20 <= v <= 0x3f,
        n == 7 ==> 0x40 <= v <= 0x7f,
        n == 8 ==> 0x80 <= v <= 0xff,
        n == 9 ==> 0x100 <= v <= 0x1ff,
        n == 10 ==> 0x200 <= v <= 0x3ff,
        n == 11 ==> 0x400 <= v <= 0x7ff,
        n == 12 ==> 0x800 <= v <= 0xfff,
        n == 13 ==> 0x1000 <= v <= 0x1fff,
        n == 14 ==> 0x2000 <= v <= 0x3fff,
        n == 15 ==> 0x4000 <= v <= 0x7fff,
        n == 16 ==> 0x8000 <= v <= 0xffff,
        n == 17 ==> 0x10000 <= v <= 0x1ffff,
        n == 18 ==> 0x20000 <= v <= 0x3ffff,
        n == 19 ==> 0x40000 <= v <= 0x7ffff,
        n == 20 ==> 0x80000 <= v <= 0xfffff,
        n == 21 ==> 0x100000 <= v <= 0x1fffff,
        n == 22 ==> 0x200000 <= v <= 0x3fffff,
        n == 23 ==> 0x400000 <= v <= 0x7fffff,
        n == 24 ==> 0x800000 <= v <= 0xffffff,
        n == 25 ==> 0x1000000 <= v <= 0x1ffffff,
        n == 26 ==> 0x2000000 <= v <= 0x3ffffff,
        n == 27 ==> 0x4000000 <= v <= 0x7ffffff,
        n == 28 ==> 0x8000000 <= v <= 0xfffffff,
        n == 29 ==> 0x10000000 <= v <= 0x1fffffff,
        n == 30 ==> 0x20000000 <= v <= 0x3fffffff,
        n == 31 ==> 0x40000000 <= v <= 0x7fffffff,
        n == 32 ==> 0x80000000 <= v <= 0xffffffff,
{
}

/// Number of binary digits of `v`.
pub fn u16_bit_length(v: u16) -> (r: u8)
    ensures
        r == bit_length(v as int),
        r <= 16,
{
    let zeros = v.leading_zeros();
    proof {
        axiom_u16_leading_zeros(v);
        let n = (16 - zeros) as u16;
        lemma_top_bit_16(v, n);
    }
    (16 - zeros) as u8
}

/// Number of binary digits of `v`.
pub fn u32_bit_length(v: u32) -> (r: u8)
    ensures
        r == bit_length(v as int),
        r <= 32,
{
    let zeros = v.leading_zeros();
    proof {
        axiom_u32_leading_zeros(v);
        let n = (32 - zeros) as u32;
        lemma_top_bit_32(v, n);
    }
    (32 - zeros) as u8
}

/// Two to the power `n`.
pub open spec fn two_to(n: int) -> int
    decreases n,
{
    if n <= 0 {
        1
    } else {
        2 * two_to(n - 1)
    }
}

/// Powers of two are positive, grow with the exponent, and double with
/// every step of it.
pub proof fn lemma_two_to_grows(m: int, n: int)
    requires
        0 <= m <= n,
    ensures
        0 < two_to(m) <= two_to(n),
        m >= 1 ==> two_to(m) == 2 * two_to(m - 1),
    decreases n,
{
    if m < n {
        lemma_two_to_grows(m, n - 1);
    } else if n > 0 {
        lemma_two_to_grows(m - 1, n - 1);
    }
}

/// The product of two powers of two is the power of the sum.
pub proof fn lemma_two_to_product(n: int, top: int)
    requires
        0 <= n <= top,
    ensures
        two_to(n) * two_to(top - n) == two_to(top),
    decreases n,
{
    if n > 0 {
        lemma_two_to_product(n - 1, top);
        let a = two_to(n - 1);
        let b = two_to(top - n);
        assert((2 * a) * b == a * (2 * b)) by (nonlinear_arith);
    } else {
        assert(two_to(0) == 1);
    }
}

/// Some powers of two.
pub proof fn lemma_two_to_values()
    ensures
        two_to(0) == 1,
        two_to(1) == 2,
        two_to(2) == 4,
        two_to(3) == 8,
        two_to(4) == 16,
        two_to(5) == 32,
        two_to(6) == 64,
        two_to(7) == 128,
        two_to(8) == 256,
        two_to(9) == 512,
        two_to(10) == 1024,
        two_to(11) == 2048,
        two_to(15) == 32768,
        two_to(16) == 65536,
        two_to(24) == 0x100_0000,
        two_to(31) == 0x8000_0000,
        two_to(32) == 0x1_0000_0000,
        two_to(63) == 0x8000_0000_0000_0000,
{
    assert(two_to(8) == 256 && two_to(3) == 8 && two_to(7) == 128 && two_to(4) == 16 && two_to(5)
        == 32 && two_to(6) == 64) by {
        reveal_with_fuel(two_to, 9);
    }
    assert(two_to(1) == 2 && two_to(2) == 4 && two_to(0) == 1) by {
        reveal_with_fuel(two_to, 3);
    }
    lemma_two_to_product(8, 9);
    lemma_two_to_product(8, 10);
    lemma_two_to_product(8, 11);
    lemma_two_to_product(8, 15);
    lemma_two_to_product(8, 16);
    lemma_two_to_product(8, 24);
    lemma_two_to_product(16, 32);
    lemma_two_to_product(1, 32);
    lemma_two_to_product(32, 64);
    lemma_two_to_product(1, 64);
}

/// Two to the power `n`.
pub fn power_of_two(n: usize) -> (r: usize)
    requires
        n <= 15,
    ensures
        r == two_to(n as int),
        1 <= r <= 32768,
{
    let mut r: usize = 1;
    let mut i: usize = 0;
    proof {
        lemma_two_to_values();
    }
    while i < n
        invariant
            i <= n <= 15,
            r == two_to(i as int),
            r <= two_to(15),
            two_to(15) == 32768,
        decreases n - i,
    {
        proof {
            lemma_two_to_grows(i + 1, 15);
        }
        r = r * 2;
        i += 1;
    }
    proof {
        lemma_two_to_grows(0, n as int);
    }
    r
}

} // verus!
