//! Blocks of 64 coefficients, and the store that holds the blocks of one
//! colour component.

use crate::block_context::BlockContext;
use crate::consts::{lemma_zigzag_entry, ZIGZAG_TO_TRANSPOSED};
use crate::jpeg_header::JPegHeader;
use crate::lanes::{gather16, row_of, strided, transpose16, transposed};
use vstd::prelude::*;

verus! {

/// Whether position `i` of a block lies off the first row and column.
pub open spec fn is_inner(i: int) -> bool {
    1 <= i / 8 < 8 && i % 8 != 0
}

/// Number of non-zero coefficients among the inner positions below `upto`.
pub open spec fn inner_non_zeros(coefs: Seq<i16>, upto: int) -> int
    decreases upto,
{
    if upto <= 0 {
        0
    } else {
        inner_non_zeros(coefs, upto - 1) + if is_inner(upto - 1) && coefs[upto - 1] != 0 {
            1int
        } else {
            0int
        }
    }
}

/// Sum of the coefficients below `upto`.
pub open spec fn coefficient_sum(coefs: Seq<i16>, upto: int) -> int
    decreases upto,
{
    if upto <= 0 {
        0
    } else {
        coefficient_sum(coefs, upto - 1) + coefs[upto - 1]
    }
}

/// The coefficients of a column-major block, listed in zigzag order.
pub open spec fn zigzag_of(coefs: Seq<i16>) -> Seq<i16> {
    Seq::new(64, |i: int| coefs[ZIGZAG_TO_TRANSPOSED[i] as int])
}

/// Whether every coefficient but the first has a magnitude below 2048, the
/// most that the coder can carry.
pub open spec fn ac_in_range(coefs: Seq<i16>) -> bool {
    forall|i: int| 1 <= i < 64 ==> -2048 < #[trigger] coefs[i] < 2048
}

pub proof fn lemma_inner_non_zeros_bounds(coefs: Seq<i16>, upto: int)
    requires
        0 <= upto <= 64,
    ensures
        0 <= inner_non_zeros(coefs, upto) <= upto,
        upto <= 9 ==> inner_non_zeros(coefs, upto) == 0,
        upto >= 8 ==> inner_non_zeros(coefs, upto) <= (upto / 8 - 1) * 7 + if upto % 8 == 0 {
            0
        } else {
            upto % 8 - 1
        },
    decreases upto,
{
    if upto > 0 {
        lemma_inner_non_zeros_bounds(coefs, upto - 1);
    }
}

/// A block of 64 coefficients. Position 0 is the DC coefficient; when the
/// block is held column by column, position `8 * column + row` is the
/// coefficient of that column and row.
#[derive(Clone, Copy, Debug, PartialEq, Eq)]
pub struct AlignedBlock {
    raw_data: [i16; 64],
}

impl View for AlignedBlock {
    type V = Seq<i16>;

    closed spec fn view(&self) -> Seq<i16> {
        self.raw_data@
    }
}

impl Default for AlignedBlock {
    fn default() -> (r: Self)
        ensures
            r@ == Seq::new(64, |i: int| 0i16),
    {
        let r = AlignedBlock { raw_data: [0i16; 64] };
        assert(r@ =~= Seq::new(64, |i: int| 0i16));
        r
    }
}

impl AlignedBlock {
    /// Every block holds 64 coefficients.
    pub proof fn lemma_len(&self)
        ensures
            self@.len() == 64,
    {
    }

    pub fn new(block: [i16; 64]) -> (r: Self)
        ensures
            r@ == block@,
    {
        AlignedBlock { raw_data: block }
    }

    /// The eight coefficients from `8 * index` on.
    pub fn as_i16x8(&self, index: usize) -> (r: [i16; 8])
        requires
            index < 8,
        ensures
            r@ == row_of(self@, index as int),
    {
        let r = gather16(&self.raw_data, 8 * index, 1);
        assert(r@ =~= row_of(self@, index as int));
        r
    }

    /// The block with rows and columns exchanged.
    pub fn transpose(&self) -> (r: AlignedBlock)
        ensures
            r@ == transposed(self@),
    {
        AlignedBlock { raw_data: transpose16(&self.raw_data) }
    }

    pub fn get_dc(&self) -> (r: i16)
        ensures
            r == self@[0],
    {
        self.raw_data[0]
    }

    pub fn set_dc(&mut self, value: i16)
        ensures
            final(self)@ == old(self)@.update(0, value),
    {
        self.raw_data[0] = value;
    }

    /// The coefficients of a column-major block, in zigzag order.
    pub fn zigzag_from_transposed(&self) -> (r: AlignedBlock)
        ensures
            r@ == zigzag_of(self@),
    {
        let mut block = AlignedBlock { raw_data: [0i16; 64] };
        let mut i: usize = 0;
        while i < 64
            invariant
                i <= 64,
                forall|j: int|
                    0 <= j < i ==> #[trigger] block.raw_data[j]
                        == self.raw_data[ZIGZAG_TO_TRANSPOSED[j] as int],
            decreases 64 - i,
        {
            proof {
                lemma_zigzag_entry(i as int);
            }
            block.raw_data[i] = self.raw_data[ZIGZAG_TO_TRANSPOSED[i] as usize];
            i += 1;
        }
        assert(block@ =~= zigzag_of(self@));
        block
    }

    pub fn get_block(&self) -> (r: &[i16; 64])
        ensures
            r@ == self@,
    {
        &self.raw_data
    }

    pub fn get_block_mut(&mut self) -> (r: &mut [i16; 64])
        ensures
            r@ == old(self)@,
            final(self)@ == final(r)@,
    {
        &mut self.raw_data
    }

    /// Sum of all 64 coefficients.
    pub fn get_hash(&self) -> (r: i32)
        ensures
            r == coefficient_sum(self@, 64),
    {
        let mut sum: i32 = 0;
        let mut i: usize = 0;
        while i < 64
            invariant
                i <= 64,
                sum == coefficient_sum(self@, i as int),
                -32768 * i <= sum <= 32767 * i,
            decreases 64 - i,
        {
            sum = sum + self.raw_data[i] as i32;
            i += 1;
        }
        sum
    }

    /// Number of non-zero coefficients off the first row and column.
    pub fn get_count_of_non_zeros_7x7(&self) -> (r: u8)
        ensures
            r == inner_non_zeros(self@, 64),
            r <= 49,
    {
        let mut num_non_zeros7x7: u8 = 0;
        let mut index: usize = 9;
        proof {
            lemma_inner_non_zeros_bounds(self@, 9);
        }
        while index < 64
            invariant
                9 <= index <= 64,
                num_non_zeros7x7 == inner_non_zeros(self@, index as int),
                num_non_zeros7x7 <= index,
            decreases 64 - index,
        {
            if index % 8 != 0 && self.raw_data[index] != 0 {
                num_non_zeros7x7 += 1;
            }
            index += 1;
        }
        proof {
            lemma_inner_non_zeros_bounds(self@, 64);
        }
        num_non_zeros7x7
    }

    pub fn get_coefficient(&self, index: usize) -> (r: i16)
        requires
            index < 64,
        ensures
            r == self@[index as int],
    {
        self.raw_data[index]
    }

    pub fn set_coefficient(&mut self, index: usize, v: i16)
        requires
            index < 64,
        ensures
            final(self)@ == old(self)@.update(index as int, v),
    {
        self.raw_data[index] = v;
    }

    /// Stores `v` at the place of the coefficient that is `index`-th in
    /// zigzag order.
    pub fn set_transposed_from_zigzag(&mut self, index: usize, v: i16)
        requires
            index < 64,
        ensures
            final(self)@ == old(self)@.update(ZIGZAG_TO_TRANSPOSED[index as int] as int, v),
    {
        proof {
            lemma_zigzag_entry(index as int);
        }
        self.raw_data[ZIGZAG_TO_TRANSPOSED[index] as usize] = v;
    }

    /// The coefficient that is `index`-th in zigzag order.
    pub fn get_transposed_from_zigzag(&self, index: usize) -> (r: i16)
        requires
            index < 64,
        ensures
            r == self@[ZIGZAG_TO_TRANSPOSED[index as int] as int],
    {
        proof {
            lemma_zigzag_entry(index as int);
        }
        self.raw_data[ZIGZAG_TO_TRANSPOSED[index] as usize]
    }

    /// Whether all coefficients but the first have magnitudes below 2048.
    pub fn is_ac_in_range(&self) -> (r: bool)
        ensures
            r == ac_in_range(self@),
    {
        let mut i: usize = 1;
        while i < 64
            invariant
                1 <= i <= 64,
                forall|j: int| 1 <= j < i ==> -2048 < #[trigger] self@[j] < 2048,
            decreases 64 - i,
        {
            let c = self.raw_data[i];
            if c <= -2048 || c >= 2048 {
                return false;
            }
            i += 1;
        }
        true
    }

    /// Eight coefficients, starting at `offset` and `stride` apart.
    pub fn from_stride(&self, offset: usize, stride: usize) -> (r: [i16; 8])
        requires
            offset + 7 * stride < 64,
        ensures
            r@ == strided(self@, offset as int, stride as int),
    {
        gather16(&self.raw_data, offset, stride)
    }
}

/// The block whose coefficients are all zero.
pub open spec fn zero_block() -> Seq<i16> {
    Seq::new(64, |i: int| 0i16)
}

/// The coefficients at position `dpos` of a component of which the blocks
/// `coefficients` are held, from the position `offset` on: those of the
/// block held for the position, and zeros where none is held.
pub open spec fn block_in(offset: int, coefficients: Seq<Seq<i16>>, dpos: int) -> Seq<i16> {
    if offset <= dpos < offset + coefficients.len() {
        coefficients[dpos - offset]
    } else {
        zero_block()
    }
}

/// The coefficients of each block of a run.
pub open spec fn coefficients_of(blocks: Seq<AlignedBlock>) -> Seq<Seq<i16>> {
    Seq::new(blocks.len(), |i: int| blocks[i]@)
}

/// Whether every block of a run holds 64 coefficients of which all but the
/// first have magnitudes below 2048.
pub open spec fn blocks_in_range(coefficients: Seq<Seq<i16>>) -> bool {
    forall|i: int|
        0 <= i < coefficients.len() ==> (#[trigger] coefficients[i]).len() == 64 && ac_in_range(
            coefficients[i],
        )
}

/// The blocks of `parts[k][index]`, for `k` below `upto`, one part after
/// the other.
pub open spec fn joined(parts: Seq<Vec<BlockBasedImage>>, index: int, upto: int) -> Seq<
    AlignedBlock,
>
    decreases upto,
{
    if upto <= 0 {
        Seq::empty()
    } else {
        joined(parts, index, upto - 1) + parts[upto - 1][index].blocks()
    }
}

/// Whether `parts[k][index]`, for every `k`, can be merged: each continues
/// where the one before it ends, and all have one width and one height.
pub open spec fn mergeable(parts: Seq<Vec<BlockBasedImage>>, index: int) -> bool {
    &&& parts.len() >= 1
    &&& forall|k: int| 0 <= k < parts.len() ==> index < (#[trigger] parts[k]).len()
    &&& forall|k: int|
        0 <= k < parts.len() ==> (#[trigger] parts[k])[index].dpos_offset() == joined(
            parts,
            index,
            k,
        ).len()
    &&& forall|k: int|
        0 <= k < parts.len() ==> (#[trigger] parts[k])[index].block_width()
            == parts[0][index].block_width()
    &&& forall|k: int|
        0 <= k < parts.len() ==> (#[trigger] parts[k])[index].original_height()
            == parts[0][index].original_height()
}

/// The 8x8 blocks of one colour component, or of the rows of it that one
/// worker codes: a run of blocks that starts at the position `dpos_offset`
/// of the component.
pub struct BlockBasedImage {
    block_width: i32,
    original_height: i32,
    dpos_offset: i32,
    image: Vec<AlignedBlock>,
    capacity: usize,
    empty: EmptyBlock,
}

/// A block that is known to hold zeros only.
struct EmptyBlock {
    block: AlignedBlock,
}

impl EmptyBlock {
    #[verifier::type_invariant]
    spec fn inv(self) -> bool {
        self.block@ == zero_block()
    }

    fn new() -> Self {
        EmptyBlock { block: AlignedBlock::default() }
    }

    fn get(&self) -> (r: &AlignedBlock)
        ensures
            r@ == zero_block(),
    {
        proof {
            use_type_invariant(self);
        }
        &self.block
    }
}

impl BlockBasedImage {
    /// Width of the component, in blocks.
    pub closed spec fn block_width(&self) -> i32 {
        self.block_width
    }

    /// Height of the component, in blocks.
    pub closed spec fn original_height(&self) -> i32 {
        self.original_height
    }

    /// Position in the component of the first block held.
    pub closed spec fn dpos_offset(&self) -> i32 {
        self.dpos_offset
    }

    /// The blocks held, in order.
    pub closed spec fn blocks(&self) -> Seq<AlignedBlock> {
        self.image@
    }

    /// How many blocks there is room for.
    pub closed spec fn capacity(&self) -> usize {
        self.capacity
    }

    /// The coefficients of the blocks held, in order.
    pub open spec fn coefficients(&self) -> Seq<Seq<i16>> {
        coefficients_of(self.blocks())
    }

    /// The coefficients at position `dpos` of the component: those of the
    /// block held for it, and zeros where none is held.
    pub open spec fn block_at(&self, dpos: int) -> Seq<i16> {
        block_in(self.dpos_offset() as int, self.coefficients(), dpos)
    }

    /// An empty store for the rows of component `component` that belong to
    /// the luma rows from `luma_y_start` up to `luma_y_end`.
    pub fn new(jpeg_header: &JPegHeader, component: usize, luma_y_start: i32, luma_y_end: i32) -> (r:
        Self)
        requires
            component < 4,
            jpeg_header.components[0].bcv > 0,
            jpeg_header.components[component as int].bch >= 0,
            jpeg_header.components[component as int].bcv >= 0,
            jpeg_header.components[component as int].bch * jpeg_header.components[component as int].bcv
                <= i32::MAX,
            0 <= luma_y_start <= luma_y_end,
            (jpeg_header.components[component as int].bch * jpeg_header.components[component as int].bcv
                * luma_y_start) / (jpeg_header.components[0].bcv as int) <= i32::MAX,
            (jpeg_header.components[component as int].bch * jpeg_header.components[component as int].bcv
                * (luma_y_end - luma_y_start) + jpeg_header.components[0].bcv - 1) / (
            jpeg_header.components[0].bcv as int) <= usize::MAX,
        ensures
            r.block_width() == jpeg_header.components[component as int].bch,
            r.original_height() == jpeg_header.components[component as int].bcv,
            r.blocks().len() == 0,
            r.dpos_offset() == (r.block_width() * r.original_height() * luma_y_start) / (
            jpeg_header.components[0].bcv as int),
            r.capacity() == (r.block_width() * r.original_height() * (luma_y_end - luma_y_start)
                + jpeg_header.components[0].bcv - 1) / (jpeg_header.components[0].bcv as int),
    {
        let block_width = jpeg_header.components[component].bch;
        let original_height = jpeg_header.components[component].bcv;
        let luma_height: i64 = jpeg_header.components[0].bcv as i64;
        assert(0 <= block_width * original_height <= i32::MAX) by (nonlinear_arith)
            requires
                0 <= block_width,
                0 <= original_height,
                block_width * original_height <= i32::MAX,
        ;
        let max_size: i64 = (block_width * original_height) as i64;
        let rows: i64 = (luma_y_end - luma_y_start) as i64;
        assert(0 <= max_size * rows <= 0x7fff_ffff * 0x7fff_ffff) by (nonlinear_arith)
            requires
                0 <= max_size <= 0x7fff_ffff,
                0 <= rows <= 0x7fff_ffff,
        ;
        assert(0 <= max_size * luma_y_start <= 0x7fff_ffff * 0x7fff_ffff) by (nonlinear_arith)
            requires
                0 <= max_size <= 0x7fff_ffff,
                0 <= luma_y_start <= 0x7fff_ffff,
        ;
        let room: i64 = (max_size * rows + (luma_height - 1)) / luma_height;
        let first: i64 = max_size * luma_y_start as i64 / luma_height;
        assert(0 <= room) by (nonlinear_arith)
            requires
                room == (max_size * rows + (luma_height - 1)) / (luma_height as int),
                0 <= max_size * rows,
                luma_height > 0,
        ;
        assert(0 <= first) by (nonlinear_arith)
            requires
                first == (max_size * luma_y_start) / (luma_height as int),
                0 <= max_size * luma_y_start,
                luma_height > 0,
        ;
        let image_capacity = room as usize;
        let empty = EmptyBlock::new();
        BlockBasedImage {
            block_width,
            original_height,
            image: Vec::with_capacity(image_capacity),
            dpos_offset: first as i32,
            capacity: image_capacity,
            empty,
        }
    }

    /// Joins the images `images[k][index]`, which hold consecutive runs of
    /// one component, into one image, and leaves them empty.
    pub fn merge(images: &mut Vec<Vec<BlockBasedImage>>, index: usize) -> (r: Self)
        requires
            mergeable(old(images)@, index as int),
        ensures
            r.dpos_offset() == 0,
            r.block_width() == old(images)[0][index as int].block_width(),
            r.original_height() == old(images)[0][index as int].original_height(),
            r.blocks() == joined(old(images)@, index as int, old(images).len() as int),
            r.capacity() == r.blocks().len(),
            final(images).len() == old(images).len(),
            forall|k: int|
                0 <= k < old(images).len() ==> (#[trigger] final(images)[k]).len() == old(
                    images,
                )[k].len() && final(images)[k][index as int].blocks().len() == 0,
    {
        let block_width = images[0][index].block_width;
        let original_height = images[0][index].original_height;
        let mut contents: Vec<AlignedBlock> = Vec::new();
        let mut k: usize = 0;
        while k < images.len()
            invariant
                k <= images.len(),
                images.len() == old(images).len(),
                forall|j: int| 0 <= j < old(images).len() ==> index < (#[trigger] old(images)[j]).len(),
                contents@ == joined(old(images)@, index as int, k as int),
                forall|j: int| k <= j < images.len() ==> #[trigger] images[j] == old(images)[j],
                forall|j: int|
                    0 <= j < k ==> (#[trigger] images[j]).len() == old(images)[j].len()
                        && images[j][index as int].blocks().len() == 0,
            decreases images.len() - k,
        {
            assert(images[k as int] == old(images)[k as int]);
            contents.append(&mut images[k][index].image);
            k += 1;
        }
        let capacity = contents.len();
        BlockBasedImage {
            block_width,
            original_height,
            image: contents,
            dpos_offset: 0,
            capacity,
            empty: EmptyBlock::new(),
        }
    }

    /// Number of blocks held, room for blocks, and position of the first.
    pub fn dump(&self) -> (r: (usize, usize, i32))
        ensures
            r.0 == self.blocks().len(),
            r.1 == self.capacity(),
            r.2 == self.dpos_offset(),
    {
        (self.image.len(), self.capacity, self.dpos_offset)
    }

    /// The cursor at the first block of row `y`.
    pub fn off_y(&self, y: i32) -> (r: BlockContext)
        requires
            0 <= y,
            0 <= self.block_width(),
            self.block_width() * y <= i32::MAX,
        ensures
            r.cur_block_index == self.block_width() * y,
            r.above_block_index == if y != 0 {
                self.block_width() * (y - 1)
            } else {
                -1
            },
            r.cur_num_non_zeros_index == if y % 2 != 0 {
                self.block_width()
            } else {
                0
            },
            r.above_num_non_zero_index == if y % 2 != 0 {
                0
            } else {
                self.block_width()
            },
    {
        let w = self.block_width;
        assert(0 <= w * y <= i32::MAX && (y != 0 ==> 0 <= w * (y - 1) <= w * y))
            by (nonlinear_arith)
            requires
                0 <= w,
                0 <= y,
                w * y <= i32::MAX,
        ;
        BlockContext::new(
            w * y,
            if y != 0 {
                w * (y - 1)
            } else {
                -1
            },
            if y % 2 != 0 {
                w
            } else {
                0
            },
            if y % 2 != 0 {
                0
            } else {
                w
            },
        )
    }

    pub fn get_block_width(&self) -> (r: i32)
        ensures
            r == self.block_width(),
    {
        self.block_width
    }

    pub fn get_original_height(&self) -> (r: i32)
        ensures
            r == self.original_height(),
    {
        self.original_height
    }

    /// Whether one more block can be appended.
    pub fn has_room(&self) -> (r: bool)
        ensures
            r == (self.blocks().len() < self.capacity()),
    {
        self.image.len() < self.capacity
    }

    fn fill_up_to_dpos(&mut self, dpos: i32)
        requires
            old(self).blocks().len() == 0 ==> dpos == old(self).dpos_offset(),
            dpos >= old(self).dpos_offset(),
            dpos - old(self).dpos_offset() < old(self).capacity(),
        ensures
            final(self).block_width() == old(self).block_width(),
            final(self).original_height() == old(self).original_height(),
            final(self).dpos_offset() == old(self).dpos_offset(),
            final(self).capacity() == old(self).capacity(),
            final(self).blocks().len() > dpos - old(self).dpos_offset(),
            final(self).blocks().len() == if old(self).blocks().len() > dpos - old(self).dpos_offset() {
                old(self).blocks().len() as int
            } else {
                dpos - old(self).dpos_offset() + 1
            },
            forall|i: int|
                0 <= i < old(self).blocks().len() ==> #[trigger] final(self).blocks()[i] == old(
                    self,
                ).blocks()[i],
            forall|i: int|
                old(self).blocks().len() <= i < final(self).blocks().len() ==> (
                #[trigger] final(self).blocks()[i])@ == zero_block(),
    {
        let wanted: i64 = dpos as i64 - self.dpos_offset as i64;
        let wanted: usize = wanted as usize;
        while self.image.len() <= wanted
            invariant
                0 <= wanted < self.capacity,
                wanted == dpos - self.dpos_offset,
                self.block_width == old(self).block_width,
                self.original_height == old(self).original_height,
                self.dpos_offset == old(self).dpos_offset,
                self.capacity == old(self).capacity,
                old(self).blocks().len() <= self.image.len(),
                self.image.len() == old(self).blocks().len() || self.image.len() <= wanted + 1,
                forall|i: int|
                    0 <= i < old(self).blocks().len() ==> #[trigger] self.image[i] == old(self).blocks()[i],
                forall|i: int|
                    old(self).blocks().len() <= i < self.image.len() ==> (#[trigger] self.image[i])@
                        == zero_block(),
            decreases wanted + 1 - self.image.len(),
        {
            self.image.push(AlignedBlock::default());
        }
    }

    /// Stores `block_data` at position `dpos` of the component, after
    /// filling up with zero blocks from the end of the run to `dpos`.
    pub fn set_block_data(&mut self, dpos: i32, block_data: &AlignedBlock)
        requires
            old(self).blocks().len() == 0 ==> dpos == old(self).dpos_offset(),
            dpos >= old(self).dpos_offset(),
            dpos - old(self).dpos_offset() < old(self).capacity(),
        ensures
            final(self).block_width() == old(self).block_width(),
            final(self).original_height() == old(self).original_height(),
            final(self).dpos_offset() == old(self).dpos_offset(),
            final(self).capacity() == old(self).capacity(),
            final(self).block_at(dpos as int) == block_data@,
            final(self).blocks().len() == if old(self).blocks().len() > dpos - old(self).dpos_offset() {
                old(self).blocks().len() as int
            } else {
                dpos - old(self).dpos_offset() + 1
            },
            forall|other: int|
                other != dpos ==> #[trigger] final(self).block_at(other) == old(self).block_at(
                    other,
                ),
    {
        self.fill_up_to_dpos(dpos);
        let at = (dpos as i64 - self.dpos_offset as i64) as usize;
        let ghost filled = self.image@;
        self.image[at] = *block_data;
        assert(self.image@ == filled.update(at as int, *block_data));
    }

    /// The block at position `dpos` of the component; the empty block where
    /// none is held.
    pub fn get_block(&self, dpos: i32) -> (r: &AlignedBlock)
        ensures
            r@ == self.block_at(dpos as int),
    {
        let at: i64 = dpos as i64 - self.dpos_offset as i64;
        if at < 0 || at as usize >= self.image.len() {
            self.empty.get()
        } else {
            &self.image[at as usize]
        }
    }

    /// Appends `block` to the run.
    pub fn append_block(&mut self, block: AlignedBlock)
        requires
            old(self).blocks().len() < old(self).capacity(),
        ensures
            final(self).block_width() == old(self).block_width(),
            final(self).original_height() == old(self).original_height(),
            final(self).dpos_offset() == old(self).dpos_offset(),
            final(self).capacity() == old(self).capacity(),
            final(self).blocks() == old(self).blocks().push(block),
            final(self).coefficients() == old(self).coefficients().push(block@),
    {
        self.image.push(block);
        assert(self.coefficients() =~= old(self).coefficients().push(block@));
    }

    /// The block at position `dpos` of the component, to be changed in
    /// place, after filling up with zero blocks from the end of the run to
    /// `dpos`.
    pub fn get_block_mut(&mut self, dpos: i32) -> (r: &mut AlignedBlock)
        requires
            old(self).blocks().len() == 0 ==> dpos == old(self).dpos_offset(),
            dpos >= old(self).dpos_offset(),
            dpos - old(self).dpos_offset() < old(self).capacity(),
        ensures
            r@ == old(self).block_at(dpos as int),
            final(self).block_width() == old(self).block_width(),
            final(self).original_height() == old(self).original_height(),
            final(self).dpos_offset() == old(self).dpos_offset(),
            final(self).capacity() == old(self).capacity(),
            final(self).block_at(dpos as int) == final(r)@,
            forall|other: int|
                other != dpos ==> #[trigger] final(self).block_at(other) == old(self).block_at(
                    other,
                ),
    {
        self.fill_up_to_dpos(dpos);
        let at = (dpos as i64 - self.dpos_offset as i64) as usize;
        &mut self.image[at]
    }
}

/// Where the blocks of part `j` lie in the run joined from the first `upto`
/// parts.
pub proof fn lemma_joined_len(parts: Seq<Vec<BlockBasedImage>>, index: int, j: int, upto: int)
    requires
        0 <= j < upto <= parts.len(),
    ensures
        joined(parts, index, j).len() + parts[j][index].blocks().len() <= joined(
            parts,
            index,
            upto,
        ).len(),
        forall|i: int|
            0 <= i < parts[j][index].blocks().len() ==> #[trigger] joined(parts, index, upto)[joined(
                parts,
                index,
                j,
            ).len() + i] == parts[j][index].blocks()[i],
    decreases upto,
{
    if j < upto - 1 {
        lemma_joined_len(parts, index, j, upto - 1);
    }
}

/// An image merged from parts holds, at every position that a part covers,
/// the block that the part holds there.
pub proof fn lemma_merge_keeps_blocks(
    parts: Seq<Vec<BlockBasedImage>>,
    index: int,
    merged: BlockBasedImage,
    k: int,
    dpos: int,
)
    requires
        mergeable(parts, index),
        merged.dpos_offset() == 0,
        merged.blocks() == joined(parts, index, parts.len() as int),
        0 <= k < parts.len(),
        parts[k][index].dpos_offset() <= dpos < parts[k][index].dpos_offset()
            + parts[k][index].blocks().len(),
    ensures
        merged.block_at(dpos) == parts[k][index].block_at(dpos),
{
    lemma_joined_len(parts, index, k, parts.len() as int);
    let start = joined(parts, index, k).len();
    assert(parts[k][index].dpos_offset() == start);
    assert(merged.blocks()[start + (dpos - start)] == parts[k][index].blocks()[dpos - start]);
}

} // verus!
