//! The cursor that walks a row of blocks, and what it gathers of the
//! neighbours of the block it stands on.

use crate::block_based_image::{block_in, zero_block, AlignedBlock, BlockBasedImage};
use crate::neighbor_summary::{empty_summary, NeighborSummary, SummaryView};
use crate::probability_tables::ProbabilityTables;
use vstd::prelude::*;

verus! {

/// Positions of the current block and of the block above it, in the
/// component and in the two-row cache of summaries. A position of -1 stands
/// for a block that does not exist.
#[derive(Clone, Copy, Debug)]
pub struct BlockContext {
    pub cur_block_index: i32,
    pub above_block_index: i32,
    pub cur_num_non_zeros_index: i32,
    pub above_num_non_zero_index: i32,
}

/// The neighbours of a block: the blocks to the left, above, and above to
/// the left, and the summaries of the first two. An absent neighbour is
/// all zero.
#[derive(Clone, Copy, Debug)]
pub struct NeighborData {
    pub above_left: AlignedBlock,
    pub above: AlignedBlock,
    pub left: AlignedBlock,
    pub neighbor_context_above: NeighborSummary,
    pub neighbor_context_left: NeighborSummary,
}

/// What the neighbours of a block hold.
pub ghost struct NeighborsView {
    pub above_left: Seq<i16>,
    pub above: Seq<i16>,
    pub left: Seq<i16>,
    pub context_above: SummaryView,
    pub context_left: SummaryView,
}

impl View for NeighborData {
    type V = NeighborsView;

    open spec fn view(&self) -> NeighborsView {
        NeighborsView {
            above_left: self.above_left@,
            above: self.above@,
            left: self.left@,
            context_above: self.neighbor_context_above@,
            context_left: self.neighbor_context_left@,
        }
    }
}

/// The neighbours that a block at `context` finds, given the blocks of its
/// component that are held from the position `offset` on, the cache of
/// summaries, and which neighbours exist.
pub open spec fn neighbors_at(
    context: BlockContext,
    offset: int,
    coefficients: Seq<Seq<i16>>,
    cache: Seq<SummaryView>,
    uses_left: bool,
    uses_above: bool,
    all_present: bool,
) -> NeighborsView {
    NeighborsView {
        above_left: if all_present {
            block_in(offset, coefficients, context.above_block_index - 1)
        } else {
            zero_block()
        },
        above: if uses_above {
            block_in(offset, coefficients, context.above_block_index as int)
        } else {
            zero_block()
        },
        left: if uses_left {
            block_in(offset, coefficients, context.cur_block_index - 1)
        } else {
            zero_block()
        },
        context_above: if uses_above {
            cache[context.above_num_non_zero_index as int]
        } else {
            empty_summary()
        },
        context_left: if uses_left {
            cache[context.cur_num_non_zeros_index - 1]
        } else {
            empty_summary()
        },
    }
}

/// What the summaries of a cache hold.
pub open spec fn cache_view(cache: Seq<NeighborSummary>) -> Seq<SummaryView> {
    Seq::new(cache.len(), |i: int| cache[i]@)
}

impl BlockContext {
    pub fn new(
        cur_block_index: i32,
        above_block_index: i32,
        cur_num_non_zeros_index: i32,
        above_num_non_zero_index: i32,
    ) -> (r: Self)
        ensures
            r == (BlockContext {
                cur_block_index,
                above_block_index,
                cur_num_non_zeros_index,
                above_num_non_zero_index,
            }),
    {
        BlockContext {
            cur_block_index,
            above_block_index,
            cur_num_non_zeros_index,
            above_num_non_zero_index,
        }
    }

    /// Position of the current block in the component.
    pub fn get_here_index(&self) -> (r: i32)
        ensures
            r == self.cur_block_index,
    {
        self.cur_block_index
    }

    /// Steps to the next block of the row and returns its position. After
    /// the last block of a row only the position of the current block moves.
    pub fn next(&mut self, has_more: bool) -> (r: i32)
        requires
            old(self).cur_block_index < i32::MAX,
            has_more ==> old(self).above_block_index < i32::MAX,
            has_more ==> old(self).cur_num_non_zeros_index < i32::MAX,
            has_more ==> old(self).above_num_non_zero_index < i32::MAX,
        ensures
            r == old(self).cur_block_index + 1,
            final(self).cur_block_index == r,
            has_more ==> final(self).above_block_index == old(self).above_block_index + 1
                && final(self).cur_num_non_zeros_index == old(self).cur_num_non_zeros_index + 1
                && final(self).above_num_non_zero_index == old(self).above_num_non_zero_index + 1,
            !has_more ==> final(self).above_block_index == old(self).above_block_index,
            !has_more ==> final(self).cur_num_non_zeros_index == old(self).cur_num_non_zeros_index,
            !has_more ==> final(self).above_num_non_zero_index == old(self).above_num_non_zero_index,
    {
        self.cur_block_index += 1;
        if has_more {
            self.above_block_index += 1;
            self.cur_num_non_zeros_index += 1;
            self.above_num_non_zero_index += 1;
        }
        self.cur_block_index
    }

    /// The current block.
    pub fn here<'a>(&self, image_data: &'a BlockBasedImage) -> (r: &'a AlignedBlock)
        ensures
            r@ == image_data.block_at(self.cur_block_index as int),
    {
        image_data.get_block(self.cur_block_index)
    }

    /// Whether the summaries that `pt` makes use of lie inside a cache of
    /// `len` summaries.
    pub open spec fn in_cache(&self, pt: &ProbabilityTables, all_present: bool, len: int) -> bool {
        &&& (all_present || pt.above_present()) ==> 0 <= self.above_num_non_zero_index < len
        &&& (all_present || pt.left_present()) ==> 1 <= self.cur_num_non_zeros_index <= len
        &&& self.above_block_index > i32::MIN
        &&& self.cur_block_index > i32::MIN
    }

    /// The neighbours of the current block that `pt` says exist.
    pub fn get_neighbor_data<const ALL_PRESENT: bool>(
        &self,
        image_data: &BlockBasedImage,
        neighbor_context: &Vec<NeighborSummary>,
        pt: &ProbabilityTables,
    ) -> (r: NeighborData)
        requires
            self.in_cache(pt, ALL_PRESENT, neighbor_context.len() as int),
        ensures
            r@ == neighbors_at(
                *self,
                image_data.dpos_offset() as int,
                image_data.coefficients(),
                cache_view(neighbor_context@),
                ALL_PRESENT || pt.left_present(),
                ALL_PRESENT || pt.above_present(),
                ALL_PRESENT,
            ),
            r@.context_above.num_non_zeros <= 49,
            r@.context_left.num_non_zeros <= 49,
    {
        let above_left = if ALL_PRESENT {
            *image_data.get_block(self.above_block_index - 1)
        } else {
            AlignedBlock::default()
        };
        let above = if ALL_PRESENT || pt.is_above_present() {
            *image_data.get_block(self.above_block_index)
        } else {
            AlignedBlock::default()
        };
        let left = if ALL_PRESENT || pt.is_left_present() {
            *image_data.get_block(self.cur_block_index - 1)
        } else {
            AlignedBlock::default()
        };
        let neighbor_context_above = if ALL_PRESENT || pt.is_above_present() {
            neighbor_context[self.above_num_non_zero_index as usize]
        } else {
            NeighborSummary::default()
        };
        let neighbor_context_left = if ALL_PRESENT || pt.is_left_present() {
            neighbor_context[(self.cur_num_non_zeros_index - 1) as usize]
        } else {
            NeighborSummary::default()
        };
        let _ = neighbor_context_above.get_num_non_zeros();
        let _ = neighbor_context_left.get_num_non_zeros();
        NeighborData { above_left, above, left, neighbor_context_above, neighbor_context_left }
    }

    /// Stores the summary of the current block in the cache.
    pub fn set_neighbor_summary_here(
        &self,
        neighbor_context_here: &mut Vec<NeighborSummary>,
        neighbor_summary: NeighborSummary,
    )
        requires
            0 <= self.cur_num_non_zeros_index < old(neighbor_context_here).len(),
        ensures
            final(neighbor_context_here)@ == old(neighbor_context_here)@.update(
                self.cur_num_non_zeros_index as int,
                neighbor_summary,
            ),
            cache_view(final(neighbor_context_here)@) == cache_view(
                old(neighbor_context_here)@,
            ).update(self.cur_num_non_zeros_index as int, neighbor_summary@),
    {
        neighbor_context_here[self.cur_num_non_zeros_index as usize] = neighbor_summary;
        assert(cache_view(neighbor_context_here@) =~= cache_view(old(neighbor_context_here)@).update(
            self.cur_num_non_zeros_index as int,
            neighbor_summary@,
        ));
    }
}

} // verus!
