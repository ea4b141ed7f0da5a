//! A frame allocator that walks through the areas of usable memory and
//! leaves out the frames of the kernel and of the boot information.

use vstd::prelude::*;
use crate::memory::{Frame, FrameAllocator};

verus! {

/// An area of usable physical memory.
#[derive(Debug, Clone, Copy, PartialEq, Eq, Structural)]
pub struct MemoryArea {
    /// The physical address at which the area starts.
    pub base_addr: u64,
    /// The length of the area in bytes.
    pub length: u64,
}

impl MemoryArea {
    /// Whether the area ends within the address space.
    pub open spec fn wf(&self) -> bool {
        self.base_addr + self.length <= u64::MAX + 1
    }

    /// The number of the first frame of the area.
    pub open spec fn first_frame(&self) -> int {
        self.base_addr as int / 4096
    }

    /// The number of the last frame of an area that is not empty: the frame
    /// of its last address.
    pub open spec fn last_frame(&self) -> int {
        (self.base_addr + self.length - 1) / 4096
    }

    /// Whether `frame` holds part of the area. An empty area has no frame.
    pub open spec fn holds(&self, frame: int) -> bool {
        0 < self.length && self.first_frame() <= frame <= self.last_frame()
    }

    /// The frame of the last address of the area, which is not empty.
    pub fn end_frame(&self) -> (frame: Frame)
        requires
            self.wf(),
            0 < self.length,
        ensures
            frame.number == self.last_frame(),
            frame.wf(),
    {
        Frame::containing_address(self.base_addr + (self.length - 1))
    }
}

/// Whether `frame` lies in one of the memory areas.
pub open spec fn in_areas(areas: Seq<MemoryArea>, frame: int) -> bool {
    exists|i: int| 0 <= i < areas.len() && (#[trigger] areas[i]).holds(frame)
}

/// The frames from `next` on that lie in one of the memory areas, but
/// neither among the frames from `kernel_start` to `kernel_end` nor among
/// those from `multiboot_start` to `multiboot_end`.
pub open spec fn free_from(
    areas: Seq<MemoryArea>,
    next: int,
    kernel_start: int,
    kernel_end: int,
    multiboot_start: int,
    multiboot_end: int,
) -> Set<int> {
    Set::new(
        |frame: int|
            next <= frame && in_areas(areas, frame) && !(kernel_start <= frame <= kernel_end) && !(
            multiboot_start <= frame <= multiboot_end),
    )
}

/// Whether the area at `best` holds a frame from `next` on and starts lowest
/// among the areas that do.
pub open spec fn lowest_from(areas: Seq<MemoryArea>, next: int, best: int) -> bool {
    &&& 0 <= best < areas.len()
    &&& areas[best].holds(areas[best].last_frame())
    &&& next <= areas[best].last_frame()
    &&& forall|i: int|
        0 <= i < areas.len() && 0 < (#[trigger] areas[i]).length && next <= areas[i].last_frame()
            ==> areas[best].base_addr <= areas[i].base_addr
}

/// Below the start of the area that starts lowest among those that hold a
/// frame from `next` on, no frame from `next` on lies in an area; and the
/// later of `next` and that start lies in that area.
pub proof fn lemma_lowest_from(areas: Seq<MemoryArea>, next: int, best: int)
    requires
        forall|i: int| 0 <= i < areas.len() ==> (#[trigger] areas[i]).wf(),
        lowest_from(areas, next, best),
    ensures
        forall|frame: int| next <= frame < areas[best].first_frame() ==> !in_areas(areas, frame),
        in_areas(areas, if next < areas[best].first_frame() {
            areas[best].first_frame()
        } else {
            next
        }),
{
    assert(areas[best].wf());
    assert forall|frame: int| next <= frame < areas[best].first_frame() implies !in_areas(
        areas,
        frame,
    ) by {
        if in_areas(areas, frame) {
            let i = choose|i: int| 0 <= i < areas.len() && (#[trigger] areas[i]).holds(frame);
            assert(areas[best].base_addr <= areas[i].base_addr);
        }
    }
    let landing = if next < areas[best].first_frame() {
        areas[best].first_frame()
    } else {
        next
    };
    assert(areas[best].holds(landing));
}

/// Hands out the frames of the memory areas in rising order, but for the
/// frames from `kernel_start` to `kernel_end` and from `multiboot_start` to
/// `multiboot_end`.
pub struct AreaFrameAllocator {
    next_free_frame: Frame,
    current_area: Option<usize>,
    areas: Vec<MemoryArea>,
    kernel_start: Frame,
    kernel_end: Frame,
    multiboot_start: Frame,
    multiboot_end: Frame,
}

impl AreaFrameAllocator {
    #[verifier::type_invariant]
    spec fn inv(&self) -> bool {
        &&& self.next_free_frame.number <= 0x10_0000_0000_0000
        &&& self.kernel_end.number < 0x10_0000_0000_0000
        &&& self.multiboot_end.number < 0x10_0000_0000_0000
        &&& forall|i: int| 0 <= i < self.areas@.len() ==> (#[trigger] self.areas@[i]).wf()
        &&& self.current_area matches Some(index) ==> index < self.areas@.len() && 0
            < self.areas@[index as int].length && self.areas@[index as int].first_frame()
            <= self.next_free_frame.number
        &&& self.current_area.is_none() ==> forall|frame: int|
            self.next_free_frame.number <= frame ==> !in_areas(self.areas@, frame)
    }

    /// Whether `frame` lies in one of the memory areas.
    pub closed spec fn usable(&self, frame: int) -> bool {
        in_areas(self.areas@, frame)
    }

    /// Whether `frame` is kept for the kernel or for the boot information.
    pub closed spec fn kept(&self, frame: int) -> bool {
        (self.kernel_start.number <= frame <= self.kernel_end.number) || (
        self.multiboot_start.number <= frame <= self.multiboot_end.number)
    }

    /// A bound from below on the frames that can still be handed out: they
    /// are handed out in rising order.
    pub closed spec fn next(&self) -> int {
        self.next_free_frame.number as int
    }

    /// An allocator for the memory areas that keeps off the frames of the
    /// kernel, from the address `kernel_start` to the address `kernel_end`,
    /// and of the boot information, from `multiboot_start` to
    /// `multiboot_end`. Every other frame of the areas is free.
    pub fn new(
        kernel_start: u64,
        kernel_end: u64,
        multiboot_start: u64,
        multiboot_end: u64,
        memory_areas: Vec<MemoryArea>,
    ) -> (allocator: AreaFrameAllocator)
        requires
            forall|i: int| 0 <= i < memory_areas@.len() ==> (#[trigger] memory_areas@[i]).wf(),
        ensures
            allocator.free_frames() == free_from(
                memory_areas@,
                0,
                kernel_start as int / 4096,
                kernel_end as int / 4096,
                multiboot_start as int / 4096,
                multiboot_end as int / 4096,
            ),
    {
        let start = Frame::containing_address(0);
        let current_area = Self::lowest_area(&memory_areas, start);
        let mut next_free_frame = start;
        if let Some(best) = current_area {
            let start_frame = Frame::containing_address(memory_areas[best].base_addr);
            if next_free_frame.number < start_frame.number {
                next_free_frame = start_frame;
            }
        }
        let kernel_start = Frame::containing_address(kernel_start);
        let kernel_end = Frame::containing_address(kernel_end);
        let multiboot_start = Frame::containing_address(multiboot_start);
        let multiboot_end = Frame::containing_address(multiboot_end);
        proof {
            if current_area.is_some() {
                lemma_lowest_from(memory_areas@, 0, current_area.unwrap() as int);
            }
            assert(free_from(
                memory_areas@,
                next_free_frame.number as int,
                kernel_start.number as int,
                kernel_end.number as int,
                multiboot_start.number as int,
                multiboot_end.number as int,
            ) =~= free_from(
                memory_areas@,
                0,
                kernel_start.number as int,
                kernel_end.number as int,
                multiboot_start.number as int,
                multiboot_end.number as int,
            ));
        }
        AreaFrameAllocator {
            next_free_frame,
            current_area,
            areas: memory_areas,
            kernel_start,
            kernel_end,
            multiboot_start,
            multiboot_end,
        }
    }

    /// The area with the lowest start among those that hold a frame from
    /// `next` on, if there is one.
    fn lowest_area(areas: &Vec<MemoryArea>, next: Frame) -> (best: Option<usize>)
        requires
            forall|i: int| 0 <= i < areas@.len() ==> (#[trigger] areas@[i]).wf(),
        ensures
            best matches Some(b) ==> lowest_from(areas@, next.number as int, b as int),
            best.is_none() ==> forall|frame: int| next.number <= frame ==> !in_areas(areas@, frame),
    {
        let mut best: Option<usize> = None;
        let mut index: usize = 0;
        while index < areas.len()
            invariant
                index <= areas@.len(),
                forall|i: int| 0 <= i < areas@.len() ==> (#[trigger] areas@[i]).wf(),
                best matches Some(b) ==> b < index && 0 < areas@[b as int].length && next.number
                    <= areas@[b as int].last_frame() && forall|i: int|
                    0 <= i < index && 0 < (#[trigger] areas@[i]).length && next.number
                        <= areas@[i].last_frame() ==> areas@[b as int].base_addr
                        <= areas@[i].base_addr,
                best.is_none() ==> forall|i: int|
                    0 <= i < index && 0 < (#[trigger] areas@[i]).length ==> areas@[i].last_frame()
                        < next.number,
            decreases areas@.len() - index,
        {
            let area = areas[index];
            if area.length > 0 && area.end_frame().number >= next.number {
                best = match best {
                    Some(b) => if area.base_addr < areas[b].base_addr {
                        Some(index)
                    } else {
                        Some(b)
                    },
                    None => Some(index),
                };
            }
            index += 1;
        }
        proof {
            if best.is_none() {
                assert forall|frame: int| next.number <= frame implies !in_areas(areas@, frame) by {
                    if in_areas(areas@, frame) {
                        let i = choose|i: int|
                            0 <= i < areas@.len() && (#[trigger] areas@[i]).holds(frame);
                        assert(areas@[i].last_frame() < next.number);
                    }
                }
            }
        }
        best
    }

    /// Goes on to the area with the lowest start among those that still hold
    /// a frame that was not passed. No free frame is passed over.
    fn choose_next_area(&mut self)
        ensures
            final(self).next() >= old(self).next(),
            final(self).free_frames() == old(self).free_frames(),
            final(self).areas == old(self).areas,
            final(self).kernel_start == old(self).kernel_start,
            final(self).kernel_end == old(self).kernel_end,
            final(self).multiboot_start == old(self).multiboot_start,
            final(self).multiboot_end == old(self).multiboot_end,
            final(self).current_area matches Some(index) ==> index < final(self).areas@.len()
                && final(self).next() <= final(self).areas@[index as int].last_frame(),
    {
        proof {
            use_type_invariant(&*self);
        }
        let best = Self::lowest_area(&self.areas, self.next_free_frame);
        let mut next = self.next_free_frame;
        if let Some(b) = best {
            let start_frame = Frame::containing_address(self.areas[b].base_addr);
            if next.number < start_frame.number {
                next = start_frame;
            }
        }
        proof {
            if best.is_some() {
                lemma_lowest_from(self.areas@, self.next_free_frame.number as int, best.unwrap() as int);
            }
            assert(free_from(
                self.areas@,
                next.number as int,
                self.kernel_start.number as int,
                self.kernel_end.number as int,
                self.multiboot_start.number as int,
                self.multiboot_end.number as int,
            ) =~= old(self).free_frames());
        }
        self.next_free_frame = next;
        self.current_area = best;
    }
}

impl FrameAllocator for AreaFrameAllocator {
    closed spec fn free_frames(&self) -> Set<int> {
        free_from(
            self.areas@,
            self.next_free_frame.number as int,
            self.kernel_start.number as int,
            self.kernel_end.number as int,
            self.multiboot_start.number as int,
            self.multiboot_end.number as int,
        )
    }

    /// Hands out the lowest free frame, and nothing only where no frame is
    /// free.
    fn allocate_frame(&mut self) -> (frame: Option<Frame>)
        ensures
            frame.is_none() <==> old(self).free_frames() == Set::<int>::empty(),
            frame matches Some(f) ==> forall|other: int| #[trigger]
                old(self).free_frames().contains(other) ==> f.number <= other,
            frame matches Some(f) ==> old(self).next() <= f.number && final(self).next() == f.number
                + 1 && final(self).usable(f.number as int) && !final(self).kept(f.number as int),
    {
        loop
            invariant
                self.free_frames() == old(self).free_frames(),
                self.next() >= old(self).next(),
                self.areas == old(self).areas,
                self.kernel_start == old(self).kernel_start,
                self.kernel_end == old(self).kernel_end,
                self.multiboot_start == old(self).multiboot_start,
                self.multiboot_end == old(self).multiboot_end,
            decreases
                    0x10_0000_0000_0000 - self.next(),
                    (if self.current_area matches Some(index) && index < self.areas@.len()
                        && self.next() > self.areas@[index as int].last_frame() {
                        1int
                    } else {
                        0int
                    }),
        {
            proof {
                use_type_invariant(&*self);
            }
            let ghost free = self.free_frames();
            let index = match self.current_area {
                Some(index) => index,
                None => {
                    proof {
                        assert(free =~= Set::<int>::empty());
                    }
                    return None;
                },
            };
            let area = self.areas[index];
            let frame = Frame { number: self.next_free_frame.number };
            // the last frame of the current area
            let current_area_last_frame = area.end_frame();
            if frame.number > current_area_last_frame.number {
                // all frames of the current area are used, go on to the next
                self.choose_next_area();
                proof {
                    use_type_invariant(&*self);
                }
            } else if frame.number >= self.kernel_start.number && frame.number
                <= self.kernel_end.number {
                // the frame is used by the kernel
                self.next_free_frame = Frame { number: self.kernel_end.number + 1 };
                proof {
                    assert(self.free_frames() =~= free);
                }
            } else if frame.number >= self.multiboot_start.number && frame.number
                <= self.multiboot_end.number {
                // the frame is used by the boot information
                self.next_free_frame = Frame { number: self.multiboot_end.number + 1 };
                proof {
                    assert(self.free_frames() =~= free);
                }
            } else {
                // the frame is unused: hand it out
                self.next_free_frame = Frame { number: self.next_free_frame.number + 1 };
                proof {
                    assert(self.areas@[index as int].holds(frame.number as int));
                    assert(in_areas(self.areas@, frame.number as int));
                    assert(free.contains(frame.number as int));
                    assert(self.free_frames() =~= free.remove(frame.number as int));
                }
                return Some(frame);
            }
        }
    }
}

} // verus!
