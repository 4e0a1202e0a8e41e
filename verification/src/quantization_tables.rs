//! The quantization table of a component and what is derived from it.

use crate::consts::{FREQ_MAX, RASTER_TO_ZIGZAG, RESIDUAL_NOISE_FLOOR};
use crate::helpers::{bit_length, u16_bit_length};
use crate::jpeg_header::JPegHeader;
use crate::lanes::transposed;
use vstd::prelude::*;

verus! {

/// Largest quantization step for which a division by it can be replaced by
/// a multiplication with its reciprocal.
pub const MAX_NORMAL_Q: u16 = 4177;

/// The reciprocal of `v` scaled by 2^31 and rounded up; zero for zero.
pub open spec fn recip_of(v: int) -> int {
    if v == 0 {
        0
    } else {
        (0x8000_0000 + v - 1) / v
    }
}

/// Position, row by row, of the `i`-th edge coefficient: the seven of row
/// zero come first, then the seven of column zero.
pub open spec fn edge_position(i: int) -> int {
    if i < 7 {
        i + 1
    } else {
        (i - 6) * 8
    }
}

/// Number of leading bits of an edge coefficient that are coded with a
/// context, given its quantization step and its largest magnitude before
/// quantization.
pub open spec fn noise_threshold_of(q: int, freq_max: int) -> int {
    if q < 9 {
        let largest = if q != 0 {
            (freq_max + q - 1) / q
        } else {
            freq_max - 1
        };
        if bit_length(largest) > RESIDUAL_NOISE_FLOOR {
            bit_length(largest) - RESIDUAL_NOISE_FLOOR
        } else {
            0
        }
    } else {
        0
    }
}

/// The table `zigzag`, given in zigzag order, row by row.
pub open spec fn raster_of(zigzag: Seq<u16>) -> Seq<u16> {
    Seq::new(64, |i: int| zigzag[RASTER_TO_ZIGZAG[i] as int])
}

/// Division by `q` and multiplication by its reciprocal agree on `i` when
/// `i` times the excess of `q * recip_of(q)` over 2^31 stays below 2^31.
proof fn lemma_recip_step(q: int, i: int)
    by (nonlinear_arith)
    requires
        1 <= q,
        0 <= i,
        i * (q * recip_of(q) - 0x8000_0000) < 0x8000_0000,
    ensures
        i / q == (i * recip_of(q)) / 0x8000_0000,
{
    let r = (0x8000_0000 + q - 1) / q;
    let e = q * r - 0x8000_0000;
    let a = i / q;
    let b = i % q;
    assert(i == a * q + b && 0 <= b < q);
    assert(0 <= e < q);
    assert(i * r == a * 0x8000_0000 + (a * e + b * r));
    assert(q * (a * e + b * r) == e * i + b * 0x8000_0000);
    assert(e * i + b * 0x8000_0000 < q * 0x8000_0000);
    assert(a * e + b * r < 0x8000_0000);
    assert(0 <= a * e + b * r);
}

/// The excess of `q * recip_of(q)` over 2^31 is below `q`.
proof fn lemma_excess_small(q: int)
    by (nonlinear_arith)
    requires
        1 <= q,
    ensures
        0 <= q * recip_of(q) - 0x8000_0000 < q,
{
}

/// Above 4096 and up to `MAX_NORMAL_Q` the excess stays below 4096.
proof fn lemma_excess_large(q: int)
    requires
        4097 <= q <= 4177,
    ensures
        0 <= q * recip_of(q) - 0x8000_0000 <= 4095,
{
    if q == 4097 {
        assert(recip_of(4097) == 524161);
    }     else if q == 4098 {
        assert(recip_of(4098) == 524033);
    }     else if q == 4099 {
        assert(recip_of(4099) == 523905);
    }     else if q == 4100 {
        assert(recip_of(4100) == 523777);
    }     else if q == 4101 {
        assert(recip_of(4101) == 523649);
    }     else if q == 4102 {
        assert(recip_of(4102) == 523522);
    }     else if q == 4103 {
        assert(recip_of(4103) == 523394);
    }     else if q == 4104 {
        assert(recip_of(4104) == 523266);
    }     else if q == 4105 {
        assert(recip_of(4105) == 523139);
    }     else if q == 4106 {
        assert(recip_of(4106) == 523012);
    }     else if q == 4107 {
        assert(recip_of(4107) == 522884);
    }     else if q == 4108 {
        assert(recip_of(4108) == 522757);
    }     else if q == 4109 {
        assert(recip_of(4109) == 522630);
    }     else if q == 4110 {
        assert(recip_of(4110) == 522503);
    }     else if q == 4111 {
        assert(recip_of(4111) == 522376);
    }     else if q == 4112 {
        assert(recip_of(4112) == 522248);
    }     else if q == 4113 {
        assert(recip_of(4113) == 522121);
    }     else if q == 4114 {
        assert(recip_of(4114) == 521995);
    }     else if q == 4115 {
        assert(recip_of(4115) == 521868);
    }     else if q == 4116 {
        assert(recip_of(4116) == 521741);
    }     else if q == 4117 {
        assert(recip_of(4117) == 521614);
    }     else if q == 4118 {
        assert(recip_of(4118) == 521488);
    }     else if q == 4119 {
        assert(recip_of(4119) == 521361);
    }     else if q == 4120 {
        assert(recip_of(4120) == 521234);
    }     else if q == 4121 {
        assert(recip_of(4121) == 521108);
    }     else if q == 4122 {
        assert(recip_of(4122) == 520981);
    }     else if q == 4123 {
        assert(recip_of(4123) == 520855);
    }     else if q == 4124 {
        assert(recip_of(4124) == 520729);
    }     else if q == 4125 {
        assert(recip_of(4125) == 520603);
    }     else if q == 4126 {
        assert(recip_of(4126) == 520476);
    }     else if q == 4127 {
        assert(recip_of(4127) == 520350);
    }     else if q == 4128 {
        assert(recip_of(4128) == 520224);
    }     else if q == 4129 {
        assert(recip_of(4129) == 520098);
    }     else if q == 4130 {
        assert(recip_of(4130) == 519972);
    }     else if q == 4131 {
        assert(recip_of(4131) == 519846);
    }     else if q == 4132 {
        assert(recip_of(4132) == 519721);
    }     else if q == 4133 {
        assert(recip_of(4133) == 519595);
    }     else if q == 4134 {
        assert(recip_of(4134) == 519469);
    }     else if q == 4135 {
        assert(recip_of(4135) == 519344);
    }     else if q == 4136 {
        assert(recip_of(4136) == 519218);
    }     else if q == 4137 {
        assert(recip_of(4137) == 519093);
    }     else if q == 4138 {
        assert(recip_of(4138) == 518967);
    }     else if q == 4139 {
        assert(recip_of(4139) == 518842);
    }     else if q == 4140 {
        assert(recip_of(4140) == 518716);
    }     else if q == 4141 {
        assert(recip_of(4141) == 518591);
    }     else if q == 4142 {
        assert(recip_of(4142) == 518466);
    }     else if q == 4143 {
        assert(recip_of(4143) == 518341);
    }     else if q == 4144 {
        assert(recip_of(4144) == 518216);
    }     else if q == 4145 {
        assert(recip_of(4145) == 518091);
    }     else if q == 4146 {
        assert(recip_of(4146) == 517966);
    }     else if q == 4147 {
        assert(recip_of(4147) == 517841);
    }     else if q == 4148 {
        assert(recip_of(4148) == 517716);
    }     else if q == 4149 {
        assert(recip_of(4149) == 517591);
    }     else if q == 4150 {
        assert(recip_of(4150) == 517466);
    }     else if q == 4151 {
        assert(recip_of(4151) == 517342);
    }     else if q == 4152 {
        assert(recip_of(4152) == 517217);
    }     else if q == 4153 {
        assert(recip_of(4153) == 517093);
    }     else if q == 4154 {
        assert(recip_of(4154) == 516968);
    }     else if q == 4155 {
        assert(recip_of(4155) == 516844);
    }     else if q == 4156 {
        assert(recip_of(4156) == 516719);
    }     else if q == 4157 {
        assert(recip_of(4157) == 516595);
    }     else if q == 4158 {
        assert(recip_of(4158) == 516471);
    }     else if q == 4159 {
        assert(recip_of(4159) == 516347);
    }     else if q == 4160 {
        assert(recip_of(4160) == 516223);
    }     else if q == 4161 {
        assert(recip_of(4161) == 516098);
    }     else if q == 4162 {
        assert(recip_of(4162) == 515974);
    }     else if q == 4163 {
        assert(recip_of(4163) == 515851);
    }     else if q == 4164 {
        assert(recip_of(4164) == 515727);
    }     else if q == 4165 {
        assert(recip_of(4165) == 515603);
    }     else if q == 4166 {
        assert(recip_of(4166) == 515479);
    }     else if q == 4167 {
        assert(recip_of(4167) == 515355);
    }     else if q == 4168 {
        assert(recip_of(4168) == 515232);
    }     else if q == 4169 {
        assert(recip_of(4169) == 515108);
    }     else if q == 4170 {
        assert(recip_of(4170) == 514985);
    }     else if q == 4171 {
        assert(recip_of(4171) == 514861);
    }     else if q == 4172 {
        assert(recip_of(4172) == 514738);
    }     else if q == 4173 {
        assert(recip_of(4173) == 514614);
    }     else if q == 4174 {
        assert(recip_of(4174) == 514491);
    }     else if q == 4175 {
        assert(recip_of(4175) == 514368);
    }     else if q == 4176 {
        assert(recip_of(4176) == 514245);
    }     else if q == 4177 {
        assert(recip_of(4177) == 514122);
    } else {
    }
}

/// For every step `q` from 1 to `MAX_NORMAL_Q` and every `i` up to 2^19,
/// `i / q` equals `i` times the reciprocal of `q`, shifted right by 31 bits.
pub proof fn lemma_recip_divides(q: int, i: int)
    requires
        1 <= q <= MAX_NORMAL_Q,
        0 <= i <= 0x80000,
    ensures
        i / q == (i * recip_of(q)) / 0x8000_0000,
{
    let e = q * recip_of(q) - 0x8000_0000;
    if q <= 4096 {
        lemma_excess_small(q);
    } else {
        lemma_excess_large(q);
    }
    assert(i * e < 0x8000_0000) by (nonlinear_arith)
        requires
            0 <= i <= 0x80000,
            0 <= e <= 4095,
    ;
    lemma_recip_step(q, i);
}

/// A noise threshold is at most three.
pub proof fn lemma_noise_threshold_small(q: int, freq_max: int)
    requires
        0 <= q,
        1 <= freq_max <= 1020,
    ensures
        0 <= noise_threshold_of(q, freq_max) <= 3,
{
    if 0 < q < 9 {
        assert(0 <= (freq_max + q - 1) / q <= freq_max) by (nonlinear_arith)
            requires
                1 <= q,
                1 <= freq_max,
        ;
    }
}

pub struct QuantizationTables {
    quantization_table: [u16; 64],
    quantization_table_transposed: [u16; 64],
    quantization_table_transposed_recip_vert: [u32; 8],
    quantization_table_transposed_recip_horiz: [u32; 8],
    min_noise_threshold: [u8; 14],
    normal_table: bool,
}

impl QuantizationTables {
    /// The quantization steps, row by row.
    pub closed spec fn table(&self) -> Seq<u16> {
        self.quantization_table@
    }

    /// The quantization steps, column by column.
    pub closed spec fn table_transposed(&self) -> Seq<u16> {
        self.quantization_table_transposed@
    }

    /// Reciprocals of the eight steps of the first column.
    pub closed spec fn recip_vert(&self) -> Seq<u32> {
        self.quantization_table_transposed_recip_vert@
    }

    /// Reciprocals of the eight steps of the first row.
    pub closed spec fn recip_horiz(&self) -> Seq<u32> {
        self.quantization_table_transposed_recip_horiz@
    }

    /// The noise thresholds of the 14 edge coefficients.
    pub closed spec fn noise_thresholds(&self) -> Seq<u8> {
        self.min_noise_threshold@
    }

    /// Whether no step exceeds `MAX_NORMAL_Q`.
    pub closed spec fn normal(&self) -> bool {
        self.normal_table
    }

    /// Everything but the table itself is what the table determines.
    pub open spec fn derived(&self) -> bool {
        &&& self.table().len() == 64
        &&& self.table_transposed() == transposed(self.table())
        &&& self.recip_horiz().len() == 8
        &&& self.recip_vert().len() == 8
        &&& forall|i: int|
            0 <= i < 8 ==> #[trigger] self.recip_horiz()[i] == recip_of(self.table()[i] as int)
        &&& forall|i: int|
            0 <= i < 8 ==> #[trigger] self.recip_vert()[i] == recip_of(
                self.table()[8 * i] as int,
            )
        &&& self.noise_thresholds().len() == 14
        &&& forall|i: int|
            0 <= i < 14 ==> #[trigger] self.noise_thresholds()[i] == noise_threshold_of(
                self.table()[edge_position(i)] as int,
                FREQ_MAX[i] as int,
            )
        &&& self.normal() <==> forall|i: int|
            0 <= i < 64 ==> #[trigger] self.table()[i] <= MAX_NORMAL_Q
    }

    /// The tables of a component of `jpeg_header`.
    pub fn new(jpeg_header: &JPegHeader, component: usize) -> (r: Self)
        requires
            component < 4,
            jpeg_header.components[component as int].q_table_index < 4,
        ensures
            r.table() == raster_of(
                jpeg_header.q_tables[jpeg_header.components[component as int].q_table_index as int]@,
            ),
            r.derived(),
    {
        let info = jpeg_header.components[component];
        Self::new_from_table(&jpeg_header.q_tables[info.q_table_index as usize])
    }

    /// The tables derived from the 64 steps of `quantization_table`, given in
    /// zigzag order.
    pub fn new_from_table(quantization_table: &[u16; 64]) -> (r: Self)
        ensures
            r.table() == raster_of(quantization_table@),
            r.derived(),
    {
        let mut table = [0u16; 64];
        let mut normal = true;
        let mut coord: usize = 0;
        while coord < 64
            invariant
                coord <= 64,
                forall|j: int|
                    0 <= j < coord ==> #[trigger] table[j] == quantization_table[RASTER_TO_ZIGZAG[j] as int],
                normal <==> forall|j: int| 0 <= j < coord ==> #[trigger] table[j] <= MAX_NORMAL_Q,
            decreases 64 - coord,
        {
            assert(RASTER_TO_ZIGZAG[coord as int] < 64);
            let q = quantization_table[RASTER_TO_ZIGZAG[coord] as usize];
            let ghost before = table;
            table[coord] = q;
            if q > MAX_NORMAL_Q {
                normal = false;
                assert(table[coord as int] > MAX_NORMAL_Q);
            } else {
                assert((forall|j: int| 0 <= j < coord ==> #[trigger] before[j] <= MAX_NORMAL_Q)
                    ==> forall|j: int| 0 <= j < coord + 1 ==> #[trigger] table[j] <= MAX_NORMAL_Q);
                assert((forall|j: int| 0 <= j < coord + 1 ==> #[trigger] table[j] <= MAX_NORMAL_Q)
                    ==> forall|j: int| 0 <= j < coord ==> #[trigger] before[j] <= MAX_NORMAL_Q) by {
                    if forall|j: int| 0 <= j < coord + 1 ==> #[trigger] table[j] <= MAX_NORMAL_Q {
                        assert forall|j: int| 0 <= j < coord implies #[trigger] before[j]
                            <= MAX_NORMAL_Q by {
                            assert(before[j] == table[j]);
                        }
                    }
                }
            }
            coord += 1;
        }
        assert(table@ =~= raster_of(quantization_table@));
        let mut table_transposed = [0u16; 64];
        let mut i: usize = 0;
        while i < 64
            invariant
                i <= 64,
                forall|j: int|
                    0 <= j < i ==> #[trigger] table_transposed[j] == table[(j % 8) * 8 + j / 8],
            decreases 64 - i,
        {
            table_transposed[i] = table[(i % 8) * 8 + i / 8];
            i += 1;
        }
        assert(table_transposed@ =~= transposed(table@));
        let mut recip_horiz = [0u32; 8];
        let mut recip_vert = [0u32; 8];
        let mut i: usize = 0;
        while i < 8
            invariant
                i <= 8,
                table_transposed@ == transposed(table@),
                forall|j: int|
                    0 <= j < i ==> #[trigger] recip_horiz[j] == recip_of(table[j] as int),
                forall|j: int|
                    0 <= j < i ==> #[trigger] recip_vert[j] == recip_of(table[8 * j] as int),
            decreases 8 - i,
        {
            assert(table_transposed[i as int] == table[8 * i]);
            recip_horiz[i] = Self::recip(table[i]);
            recip_vert[i] = Self::recip(table_transposed[i]);
            i += 1;
        }
        let mut min_noise_threshold = [0u8; 14];
        assert(min_noise_threshold@ =~= Seq::new(14, |j: int| 0u8));
        let mut i: usize = 0;
        while i < 14
            invariant
                i <= 14,
                forall|j: int|
                    0 <= j < i ==> #[trigger] min_noise_threshold[j] == noise_threshold_of(
                        table[edge_position(j)] as int,
                        FREQ_MAX[j] as int,
                    ),
                forall|j: int| i <= j < 14 ==> #[trigger] min_noise_threshold[j] == 0,
            decreases 14 - i,
        {
            let coord = if i < 7 {
                i + 1
            } else {
                (i - 6) * 8
            };
            let q = table[coord];
            assert(FREQ_MAX[i as int] <= 1020);
            if q < 9 {
                let mut freq_max = FREQ_MAX[i] + q - 1;
                if q != 0 {
                    freq_max = freq_max / q;
                }
                let max_len = u16_bit_length(freq_max);
                if max_len > RESIDUAL_NOISE_FLOOR as u8 {
                    min_noise_threshold[i] = max_len - RESIDUAL_NOISE_FLOOR as u8;
                }
            }
            i += 1;
        }
        QuantizationTables {
            quantization_table: table,
            quantization_table_transposed: table_transposed,
            quantization_table_transposed_recip_vert: recip_vert,
            quantization_table_transposed_recip_horiz: recip_horiz,
            min_noise_threshold,
            normal_table: normal,
        }
    }

    /// The reciprocal of `v` scaled by 2^31 and rounded up; zero for zero.
    pub fn recip(v: u16) -> (r: u32)
        ensures
            r == recip_of(v as int),
    {
        if v == 0 {
            return 0;
        }
        let retval: u32 = 0x8000_0000u32 + v as u32 - 1;
        retval / v as u32
    }

    /// The reciprocals of the steps of the first row, or of the first column.
    pub fn quantization_table_transposed_recip<const HORIZONTAL: bool>(&self) -> (r: [u32; 8])
        ensures
            r@ == if HORIZONTAL {
                self.recip_horiz()
            } else {
                self.recip_vert()
            },
    {
        if HORIZONTAL {
            self.quantization_table_transposed_recip_horiz
        } else {
            self.quantization_table_transposed_recip_vert
        }
    }

    pub fn get_quantization_table(&self) -> (r: &[u16; 64])
        ensures
            r@ == self.table(),
    {
        &self.quantization_table
    }

    pub fn get_quantization_table_transposed(&self) -> (r: &[u16; 64])
        ensures
            r@ == self.table_transposed(),
    {
        &self.quantization_table_transposed
    }

    pub fn get_min_noise_threshold(&self, coef: usize) -> (r: u8)
        requires
            coef < 14,
        ensures
            r == self.noise_thresholds()[coef as int],
            self.derived() ==> r <= 3,
    {
        proof {
            if self.derived() {
                assert(1 <= FREQ_MAX[coef as int] <= 1020);
                lemma_noise_threshold_small(
                    self.table()[edge_position(coef as int)] as int,
                    FREQ_MAX[coef as int] as int,
                );
            }
        }
        self.min_noise_threshold[coef]
    }

    pub fn is_normal_table(&self) -> (r: bool)
        ensures
            r == self.normal(),
    {
        self.normal_table
    }
}

} // verus!
