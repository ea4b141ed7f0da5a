//! A virtual page, kept free for the purpose, through which a frame that is
//! mapped nowhere is reached for a while.

use vstd::prelude::*;
use crate::machine::lemmas::{
    lemma_extended_keeps,
    lemma_table_prefix,
};
use crate::machine::{Flush, MachineView};
use crate::memory::paging::entry::{
    encode,
    lemma_encode_decode,
    lemma_flag_sets,
    lemma_link_to,
    EntryFlags,
    POINTABLE_LIMIT,
    PRESENT,
    WRITEABLE,
};
use crate::memory::paging::table::{Level1, Table};
use crate::memory::paging::{ActivePageTable, Page, VirtualAddress};
use crate::memory::{
    affords,
    lemma_offers_nothing,
    lemma_offers_without,
    offers,
    pointable,
    Frame,
    FrameAllocator,
    MapError,
};

verus! {

/// An allocator of at most three frames: as many as the tables that a
/// mapping of one page can need. It has three places, each empty or with a
/// frame, and no frame is in two of them.
pub struct TinyAllocator {
    first: Option<Frame>,
    second: Option<Frame>,
    third: Option<Frame>,
}

/// Whether no frame stands twice among the three.
pub open spec fn no_frame_twice(
    first: Option<Frame>,
    second: Option<Frame>,
    third: Option<Frame>,
) -> bool {
    &&& first.is_some() && second.is_some() ==> first != second
    &&& first.is_some() && third.is_some() ==> first != third
    &&& second.is_some() && third.is_some() ==> second != third
}

impl TinyAllocator {
    #[verifier::type_invariant]
    spec fn distinct(&self) -> bool {
        no_frame_twice(self.first, self.second, self.third)
    }

    /// The three places, in the order in which they are emptied.
    pub closed spec fn places(&self) -> Seq<Option<Frame>> {
        seq![self.first, self.second, self.third]
    }

    /// The frames that the allocator holds.
    pub open spec fn frames(&self) -> Set<int> {
        Set::new(
            |frame: int|
                (self.places()[0] matches Some(f) && f.number == frame) || (
                self.places()[1] matches Some(f) && f.number == frame) || (
                self.places()[2] matches Some(f) && f.number == frame),
        )
    }

    /// The first place that holds a frame; the last place where none does.
    pub open spec fn front(&self) -> int {
        if self.places()[0].is_some() {
            0
        } else if self.places()[1].is_some() {
            1
        } else {
            2
        }
    }

    /// An allocator with the three in its places.
    pub fn holding(first: Option<Frame>, second: Option<Frame>, third: Option<Frame>) -> (tiny:
        TinyAllocator)
        requires
            no_frame_twice(first, second, third),
        ensures
            tiny.places() == seq![first, second, third],
    {
        TinyAllocator { first, second, third }
    }

    /// Asks `allocator` for a frame three times and holds what it gave:
    /// the frames that left `allocator`, and no others; three of them, or
    /// as many as `allocator` had.
    pub fn new<A: FrameAllocator>(allocator: &mut A) -> (tiny: TinyAllocator)
        ensures
            tiny.frames().subset_of(old(allocator).free_frames()),
            final(allocator).free_frames() == old(allocator).free_frames().difference(tiny.frames()),
            final(allocator).free_frames().subset_of(old(allocator).free_frames()),
            final(allocator).free_frames().disjoint(tiny.frames()),
            forall|count: int|
                0 <= count <= 3 ==> (#[trigger] offers(tiny.frames(), count) <==> offers(
                    old(allocator).free_frames(),
                    count,
                )),
            !offers(tiny.frames(), 4),
            !offers(old(allocator).free_frames(), 3) ==> final(allocator).free_frames()
                == Set::<int>::empty(),
    {
        let ghost free0 = allocator.free_frames();
        let first = allocator.allocate_frame();
        let ghost free1 = allocator.free_frames();
        let second = allocator.allocate_frame();
        let ghost free2 = allocator.free_frames();
        let third = allocator.allocate_frame();
        let tiny = Self::holding(first, second, third);
        proof {
            assert(tiny.places()[0] == first && tiny.places()[1] == second && tiny.places()[2]
                == third);
            assert(allocator.free_frames() =~= old(allocator).free_frames().difference(
                tiny.frames(),
            ));
            let held0 = tiny.frames();
            let held1 = if first.is_some() {
                held0.remove(first.unwrap().number as int)
            } else {
                held0
            };
            let held2 = if second.is_some() {
                held1.remove(second.unwrap().number as int)
            } else {
                held1
            };
            let held3 = if third.is_some() {
                held2.remove(third.unwrap().number as int)
            } else {
                held2
            };
            assert(held3 =~= Set::<int>::empty());
            if first.is_some() && second.is_some() && third.is_some() {
                lemma_offers_without(free0, first.unwrap().number as int, 3);
                lemma_offers_without(free1, second.unwrap().number as int, 2);
                lemma_offers_without(free2, third.unwrap().number as int, 1);
            }
            assert forall|count: int| 0 <= count <= 4 implies (#[trigger] offers(held0, count)
                <==> count <= 3 && offers(free0, count)) by {
                let count1 = if first.is_some() {
                    count - 1
                } else {
                    count
                };
                let count2 = if second.is_some() {
                    count1 - 1
                } else {
                    count1
                };
                let count3 = if third.is_some() {
                    count2 - 1
                } else {
                    count2
                };
                if first.is_some() {
                    lemma_offers_without(free0, first.unwrap().number as int, count);
                    lemma_offers_without(held0, first.unwrap().number as int, count);
                }
                if second.is_some() {
                    lemma_offers_without(free1, second.unwrap().number as int, count1);
                    lemma_offers_without(held1, second.unwrap().number as int, count1);
                }
                if third.is_some() {
                    lemma_offers_without(free2, third.unwrap().number as int, count2);
                    lemma_offers_without(held2, third.unwrap().number as int, count2);
                }
                if count3 > 0 {
                    lemma_offers_nothing(held3, count3);
                    if count <= 3 {
                        if first.is_none() {
                            lemma_offers_nothing(free0, count);
                        } else if second.is_none() {
                            lemma_offers_nothing(free1, count1);
                        } else {
                            lemma_offers_nothing(free2, count2);
                        }
                    }
                }
            }
        }
        tiny
    }
}

/// A virtual page that is kept free, with the frames for the tables that
/// lead to it.
pub struct TemporaryPage {
    page: Page,
    allocator: TinyAllocator,
}

impl TemporaryPage {
    pub closed spec fn spec_page(&self) -> Page {
        self.page
    }

    /// The page.
    #[verifier::when_used_as_spec(spec_page)]
    pub fn page(&self) -> (page: Page)
        ensures
            page == self.page(),
    {
        self.page
    }

    /// The frames that are kept for the tables on the path of the page.
    pub closed spec fn free_frames(&self) -> Set<int> {
        self.allocator.free_frames()
    }

    /// Keeps `page` as the temporary page and takes three frames from
    /// `allocator` for the tables on its path, or as many as it has.
    pub fn new<A: FrameAllocator>(page: Page, allocator: &mut A) -> (temporary: TemporaryPage)
        ensures
            temporary.page() == page,
            temporary.free_frames().subset_of(old(allocator).free_frames()),
            final(allocator).free_frames().subset_of(old(allocator).free_frames()),
            final(allocator).free_frames().disjoint(temporary.free_frames()),
            final(allocator).free_frames() == old(allocator).free_frames().difference(
                temporary.free_frames(),
            ),
            forall|count: int|
                0 <= count <= 3 ==> (#[trigger] offers(temporary.free_frames(), count) <==> offers(
                    old(allocator).free_frames(),
                    count,
                )),
            !offers(temporary.free_frames(), 4),
            !offers(old(allocator).free_frames(), 3) ==> final(allocator).free_frames()
                == Set::<int>::empty(),
    {
        TemporaryPage { page, allocator: TinyAllocator::new(allocator) }
    }

    /// Maps the temporary page to the frame in the active address space, as
    /// writeable, and returns the start address of the page.
    ///
    /// The page must not be mapped. Fails as `Mapper::map_to` does.
    pub fn map(&mut self, frame: Frame, active_table: &mut ActivePageTable) -> (result: Result<
        VirtualAddress,
        MapError,
    >)
        requires
            old(active_table).wf(),
            frame.number < POINTABLE_LIMIT,
            old(self).page().number < 0x10_0000_0000_0000,
            old(active_table)@.mappable(old(active_table)@.root(), old(self).page()),
            old(active_table)@.reserves(old(self).free_frames()),
        ensures
            final(active_table).extends(old(active_table)),
            final(self).page() == old(self).page(),
            final(self).free_frames().subset_of(old(self).free_frames()),
            final(active_table).wf(),
            result matches Err(error) ==> error != MapError::PageInUse,
            old(active_table)@.extended_by(
                final(active_table)@,
                old(self).page(),
                old(self).free_frames(),
            ),
            old(active_table)@.layered() && old(self).page().p4_index() != 511
                ==> final(active_table)@.reserves(final(self).free_frames()),
            old(active_table)@.p1_frame(old(active_table)@.root(), old(self).page()).is_some()
                ==> result.is_ok(),
            affords(
                old(self).free_frames(),
                old(active_table)@.missing(old(active_table)@.root(), old(self).page()),
            ) ==> result.is_ok(),
            result matches Err(error) ==> (error == MapError::OutOfFrames ==> !offers(
                old(self).free_frames(),
                old(active_table)@.missing(old(active_table)@.root(), old(self).page()),
            ) && final(self).free_frames() == Set::<int>::empty()) && (error
                == MapError::FrameOutOfRange ==> !pointable(old(self).free_frames())),
            result.is_err() ==> final(active_table)@.translate_page(old(self).page()).is_none()
                && final(active_table)@.reserves(final(self).free_frames())
                && final(active_table)@.mappable(final(active_table)@.root(), old(self).page()),
            result matches Ok(address) ==> address == old(self).page().number * 4096 && final(active_table)@.maps_by(
                old(active_table)@,
                old(self).page(),
                encode(frame.number as int, WRITEABLE | PRESENT),
            ) && final(active_table)@.translate_page(old(self).page()) == Some(frame.number as int)
                && !final(self).free_frames().contains(
                final(active_table)@.p3_frame(final(active_table)@.root(), old(self).page()).unwrap(),
            ) && !final(self).free_frames().contains(
                final(active_table)@.p2_frame(final(active_table)@.root(), old(self).page()).unwrap(),
            ) && !final(self).free_frames().contains(
                final(active_table)@.p1_frame(final(active_table)@.root(), old(self).page()).unwrap(),
            ),
    {
        // the temporary page is not mapped yet
        let ghost free = self.allocator.free_frames();
        let result = active_table.deref_mut().map_to(
            self.page,
            frame,
            EntryFlags::writeable(),
            &mut self.allocator,
        );
        proof {
            lemma_extended_keeps(old(active_table)@, active_table@, self.page, free);
        }
        match result {
            Ok(()) => Ok(self.page.start_address()),
            Err(error) => Err(error),
        }
    }

    /// Unmaps the temporary page in the active address space.
    pub fn unmap(&mut self, active_table: &mut ActivePageTable)
        requires
            old(active_table).wf(),
            old(self).page().number < 0x10_0000_0000_0000,
            old(active_table)@.translate_page(old(self).page()).is_some(),
            old(active_table)@.p1_frame(old(active_table)@.root(), old(self).page()).is_some(),
            !old(active_table)@.carries_recursion(
                old(active_table)@.p1_frame(old(active_table)@.root(), old(self).page()).unwrap(),
                old(self).page().p1_index() as int,
            ),
        ensures
            final(active_table).extends(old(active_table)),
            *final(self) == *old(self),
            final(active_table)@ == old(active_table)@.store(
                old(active_table)@.p1_frame(old(active_table)@.root(), old(self).page()).unwrap(),
                old(self).page().p1_index() as int,
                0,
            ).flush(Flush::Page((old(self).page().number * 4096) as u64)),
            final(active_table).wf(),
            final(active_table)@.translate_page(old(self).page()).is_none(),
            old(active_table)@.layered() ==> final(active_table)@.layered(),
            forall|free: Set<int>| #[trigger]
                old(active_table)@.reserves(free) ==> final(active_table)@.reserves(free),
            forall|x: int| #[trigger] old(active_table)@.idle(x) ==> final(active_table)@.idle(x),
    {
        active_table.deref_mut().unmap(self.page, &mut self.allocator)
    }

    /// Maps the temporary page to the frame of a table in the active address
    /// space, and returns the table that the page now shows.
    pub fn map_table_frame(&mut self, frame: Frame, active_table: &mut ActivePageTable) -> (result:
        Result<Table<Level1>, MapError>)
        requires
            old(active_table).wf(),
            frame.number < POINTABLE_LIMIT,
            old(self).page().number < 0x10_0000_0000_0000,
            old(active_table)@.mappable(old(active_table)@.root(), old(self).page()),
            old(active_table)@.reserves(old(self).free_frames()),
        ensures
            final(active_table).extends(old(active_table)),
            final(self).page() == old(self).page(),
            final(self).free_frames().subset_of(old(self).free_frames()),
            final(active_table).wf(),
            result matches Err(error) ==> error != MapError::PageInUse,
            old(active_table)@.extended_by(
                final(active_table)@,
                old(self).page(),
                old(self).free_frames(),
            ),
            old(active_table)@.layered() && old(self).page().p4_index() != 511
                ==> final(active_table)@.reserves(final(self).free_frames()),
            old(active_table)@.p1_frame(old(active_table)@.root(), old(self).page()).is_some()
                ==> result.is_ok(),
            affords(
                old(self).free_frames(),
                old(active_table)@.missing(old(active_table)@.root(), old(self).page()),
            ) ==> result.is_ok(),
            result matches Err(error) ==> (error == MapError::OutOfFrames ==> !offers(
                old(self).free_frames(),
                old(active_table)@.missing(old(active_table)@.root(), old(self).page()),
            ) && final(self).free_frames() == Set::<int>::empty()) && (error
                == MapError::FrameOutOfRange ==> !pointable(old(self).free_frames())),
            result.is_err() ==> final(active_table)@.translate_page(old(self).page()).is_none()
                && final(active_table)@.reserves(final(self).free_frames())
                && final(active_table)@.mappable(final(active_table)@.root(), old(self).page()),
            result matches Ok(table) ==> table.address() == old(self).page().number * 4096
                && table.wf() && table.frame(final(active_table)@) == Some(frame.number as int)
                && final(active_table)@.maps_by(
                old(active_table)@,
                old(self).page(),
                encode(frame.number as int, WRITEABLE | PRESENT),
            ) && final(active_table)@.translate_page(old(self).page()) == Some(frame.number as int)
                && !final(self).free_frames().contains(
                final(active_table)@.p3_frame(final(active_table)@.root(), old(self).page()).unwrap(),
            ) && !final(self).free_frames().contains(
                final(active_table)@.p2_frame(final(active_table)@.root(), old(self).page()).unwrap(),
            ) && !final(self).free_frames().contains(
                final(active_table)@.p1_frame(final(active_table)@.root(), old(self).page()).unwrap(),
            ),
    {
        match self.map(frame, active_table) {
            Ok(address) => {
                proof {
                    let m = active_table@;
                    let page = self.page;
                    assert(Page { number: address / 4096 } == page);
                    lemma_link_to(frame.number as int);
                    page.lemma_index_bounds();
                }
                Ok(Table::at(self.page))
            },
            Err(error) => Err(error),
        }
    }
}

impl FrameAllocator for TinyAllocator {
    open spec fn free_frames(&self) -> Set<int> {
        self.frames()
    }

    /// Hands out the frame of the first place that holds one, and empties
    /// that place; nothing only where no place holds a frame.
    fn allocate_frame(&mut self) -> (frame: Option<Frame>)
        ensures
            frame.is_none() <==> old(self).frames() == Set::<int>::empty(),
            frame == old(self).places()[old(self).front()],
            final(self).places() == old(self).places().update(old(self).front(), None),
    {
        proof {
            use_type_invariant(&*self);
        }
        let ghost places = self.places();
        let ghost held = self.frames();
        let frame = if self.first.is_some() {
            let frame = self.first;
            self.first = None;
            frame
        } else if self.second.is_some() {
            let frame = self.second;
            self.second = None;
            frame
        } else if self.third.is_some() {
            let frame = self.third;
            self.third = None;
            frame
        } else {
            None
        };
        proof {
            assert(self.places() =~= places.update(old(self).front(), None));
            match frame {
                Some(f) => {
                    assert(held.contains(f.number as int));
                    assert(self.frames() =~= held.remove(f.number as int));
                },
                None => {
                    assert(held =~= Set::<int>::empty());
                    assert(self.frames() =~= held);
                },
            }
        }
        frame
    }
}

} // verus!
