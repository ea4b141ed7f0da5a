//! Physical frames and the frame-allocator capability.

use vstd::prelude::*;
use crate::memory::paging::entry::POINTABLE_LIMIT;

pub mod area_frame_allocator;
pub mod paging;

verus! {

/// Size in bytes of a frame and of a page.
pub const PAGE_SIZE: u64 = 4096;

/// Frame numbers fit in 52 bits: the frame of any 64-bit physical address.
pub const FRAME_NUMBER_LIMIT: u64 = 0x10_0000_0000_0000;

pub type PhysicalAddress = u64;

/// A physical frame, identified by its index: the physical address divided
/// by the page size.
#[derive(Debug, Clone, Copy, PartialEq, Eq, Structural, PartialOrd, Ord)]
pub struct Frame {
    pub number: u64,
}

impl Frame {
    /// Every frame of a 64-bit address space has a number below the limit.
    pub open spec fn wf(&self) -> bool {
        self.number < FRAME_NUMBER_LIMIT
    }

    /// The frame that holds the physical address.
    pub fn containing_address(address: PhysicalAddress) -> (frame: Frame)
        ensures
            frame.number == address / PAGE_SIZE,
            frame.wf(),
    {
        Frame { number: address / PAGE_SIZE }
    }

    /// The first physical address of the frame.
    pub fn start_address(&self) -> (address: PhysicalAddress)
        requires
            self.wf(),
        ensures
            address == self.number * PAGE_SIZE,
            address % PAGE_SIZE == 0,
    {
        self.number * PAGE_SIZE
    }

    /// The frames from `start` to `end`, both included, in rising order.
    pub fn range_inclusive(start: Frame, end: Frame) -> (iter: FrameIter)
        ensures
            iter.start == start,
            iter.end == end,
    {
        FrameIter { start, end }
    }
}

/// A contiguous run of frames that is walked from its start to its end.
#[derive(Debug, Clone, Copy)]
pub struct FrameIter {
    pub start: Frame,
    pub end: Frame,
}

impl FrameIter {
    /// Hands out the next frame of the run, or nothing once the end was given.
    pub fn next(&mut self) -> (frame: Option<Frame>)
        requires
            old(self).end.wf(),
        ensures
            final(self).end == old(self).end,
            old(self).start.number > old(self).end.number ==> frame.is_none() && *final(self) == *old(
                self,
            ),
            old(self).start.number <= old(self).end.number ==> frame == Some(old(self).start)
                && final(self).start.number == old(self).start.number + 1,
    {
        if self.start.number <= self.end.number {
            let frame = self.start;
            self.start = Frame { number: self.start.number + 1 };
            Some(frame)
        } else {
            None
        }
    }
}

/// Why a mapping could not be made.
#[derive(Debug, Clone, Copy, PartialEq, Eq, Structural)]
pub enum MapError {
    /// The allocator had no frame left for a table that was needed.
    OutOfFrames,
    /// The allocator handed out a frame whose address does not fit in a
    /// slot of a table.
    FrameOutOfRange,
    /// The page is mapped already, or a huge page lies on its path.
    PageInUse,
}

/// Whether the set holds at least `count` frames.
pub open spec fn offers(free: Set<int>, count: int) -> bool {
    count <= 0 || !free.finite() || free.len() >= count
}

/// Whether a slot of a table can point to every frame of the set.
pub open spec fn pointable(free: Set<int>) -> bool {
    forall|frame: int| #[trigger] free.contains(frame) ==> frame < POINTABLE_LIMIT
}

/// Whether the set holds `count` frames for tables, whichever of its frames
/// are handed out: it holds that many, and where one is needed a slot can
/// point to each.
pub open spec fn affords(free: Set<int>, count: int) -> bool {
    offers(free, count) && (count <= 0 || pointable(free))
}

/// The empty set offers no frame.
pub proof fn lemma_offers_nothing(free: Set<int>, count: int)
    requires
        free == Set::<int>::empty(),
        0 < count,
    ensures
        !offers(free, count),
{
}

/// A set offers one frame more than it does without one of its frames.
pub proof fn lemma_offers_without(free: Set<int>, frame: int, count: int)
    requires
        free.contains(frame),
    ensures
        offers(free, count) <==> offers(free.remove(frame), count - 1),
        pointable(free) ==> pointable(free.remove(frame)),
{
    assert(free.remove(frame).insert(frame) =~= free);
    if free.remove(frame).finite() {
        assert(free.remove(frame).insert(frame).finite());
    }
}

/// The capability to hand out unused physical frames.
///
/// `free_frames` is the set of frames that the allocator may still hand out.
/// A frame that is handed out was in the set and leaves it, alone: no frame
/// is handed out twice. A call that hands out nothing leaves the set as it
/// was, and comes only from an allocator whose set is empty: that the
/// frames are used up is what an answer without a frame says. Which frame
/// of the set is handed out is left to the allocator.
pub trait FrameAllocator {
    spec fn free_frames(&self) -> Set<int>;

    fn allocate_frame(&mut self) -> (frame: Option<Frame>)
        ensures
            frame.is_none() ==> old(self).free_frames() == Set::<int>::empty()
                && final(self).free_frames() == old(self).free_frames(),
            frame matches Some(f) ==> old(self).free_frames().contains(f.number as int)
                && final(self).free_frames() == old(self).free_frames().remove(f.number as int),
    ;
}

} // verus!
