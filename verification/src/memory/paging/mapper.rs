//! Translation, mapping and unmapping in the address space that the
//! recursive mapping shows.

use vstd::prelude::*;
use crate::machine::lemmas::{
    lemma_cleared,
    lemma_extended_none,
    lemma_extended_wider,
    lemma_leaf_store_exact,
    lemma_same_memory,
    lemma_ensured,
    lemma_leaf_store,
    lemma_store_kept,
    lemma_table_prefix,
};
use crate::machine::{Flush, Machine, MachineView};
use crate::memory::paging::entry::{
    encode,
    lemma_encode_decode,
    lemma_flag_sets,
    lemma_word_basics,
    word_frame,
    word_huge,
    word_links,
    word_present,
    Entry,
    EntryFlags,
    POINTABLE_LIMIT,
    PRESENT,
};
use crate::memory::paging::table::{Level4, Table};
use crate::memory::paging::{is_canonical, Page, VirtualAddress};
use crate::memory::{
    affords,
    lemma_offers_nothing,
    lemma_offers_without,
    offers,
    pointable,
    Frame,
    FrameAllocator,
    MapError,
    PhysicalAddress,
};

verus! {

/// The address space that the recursive mapping shows, and the machine that
/// holds it.
pub struct Mapper {
    machine: Machine,
}

impl View for Mapper {
    type V = MachineView;

    closed spec fn view(&self) -> MachineView {
        self.machine@
    }
}

impl Mapper {
    /// The recursive mapping is in place.
    pub open spec fn wf(&self) -> bool {
        self@.recursive()
    }

    /// The machine that the mapper works on.
    pub closed spec fn held(&self) -> Machine {
        self.machine
    }

    /// Whether the machine of this mapper is what the machine of `before`
    /// has become by further operations.
    pub open spec fn extends(&self, before: &Mapper) -> bool {
        self.held().extends(&before.held())
    }

    /// The mapper of the address space that `machine` shows.
    pub fn new(machine: Machine) -> (mapper: Mapper)
        ensures
            mapper@ == machine@,
            mapper.held() == machine,
    {
        Mapper { machine }
    }

    /// The machine.
    pub fn machine(&self) -> (machine: &Machine)
        ensures
            machine@ == self@,
            *machine == self.held(),
    {
        &self.machine
    }

    /// The machine, for changes.
    pub fn machine_mut(&mut self) -> (machine: &mut Machine)
        ensures
            machine@ == old(self)@,
            *machine == old(self).held(),
            final(self)@ == final(machine)@,
            final(self).held() == *final(machine),
    {
        &mut self.machine
    }

    /// Gives the machine back.
    pub fn into_machine(self) -> (machine: Machine)
        ensures
            machine@ == self@,
            machine == self.held(),
    {
        self.machine
    }

    /// The top-level table.
    pub fn p4(&self) -> (table: Table<Level4>)
        ensures
            table.address() == crate::memory::paging::table::P4_ADDRESS,
            table.wf(),
            self.wf() ==> table.frame(self@) == Some(self@.root()),
    {
        let table = Table::p4();
        proof {
            if self.wf() {
                crate::memory::paging::table::lemma_p4_frame(self@);
            }
        }
        table
    }

    /// The physical address that the virtual address is mapped to, if its
    /// page is mapped.
    pub fn translate(&self, virtual_address: VirtualAddress) -> (address: Option<PhysicalAddress>)
        requires
            self.wf(),
            is_canonical(virtual_address),
            self@.huge_aligned(self@.root(), Page { number: virtual_address / 4096 }),
        ensures
            address.is_some() == self@.translate(virtual_address).is_some(),
            address matches Some(a) ==> self@.translate(virtual_address) == Some(a as int),
    {
        let offset: u64 = virtual_address % 4096;
        match self.translate_page(Page::containing_address(virtual_address)) {
            Some(frame) => Some(frame.number * 4096 + offset),
            None => None,
        }
    }

    /// The frame that the page is mapped to, if it is mapped.
    pub fn translate_page(&self, page: Page) -> (frame: Option<Frame>)
        requires
            self.wf(),
            self@.huge_aligned(self@.root(), page),
        ensures
            frame.is_some() == self@.translate_page(page).is_some(),
            frame matches Some(f) ==> self@.translate_page(page) == Some(f.number as int)
                && f.number < 0x100_0004_0000,
    {
        let p3 = self.p4().next_table(&self.machine, page.p4_index());
        let p2 = match &p3 {
            Some(p3) => p3.next_table(&self.machine, page.p3_index()),
            None => None,
        };
        let p1 = match &p2 {
            Some(p2) => p2.next_table(&self.machine, page.p2_index()),
            None => None,
        };
        let mapped = match &p1 {
            Some(p1) => {
                let leaf = p1.index(&self.machine, page.p1_index());
                proof {
                    lemma_word_basics(leaf@);
                }
                leaf.pointed_frame()
            },
            None => None,
        };
        match mapped {
            Some(frame) => Some(frame),
            None => self.translate_huge_page(page),
        }
    }

    /// Whether the recursive mapping is in place.
    pub fn is_recursive(&self) -> (ok: bool)
        ensures
            ok == self.wf(),
    {
        let active = Frame::containing_address(self.machine.cr3());
        let first = Entry::from_bits(self.machine.load(active, 511));
        proof {
            lemma_word_basics(first@);
        }
        let root = match first.pointed_frame() {
            Some(frame) => frame,
            None => {
                return false;
            },
        };
        if first.flags().contains(EntryFlags::huge_page()) {
            return false;
        }
        let second = Entry::from_bits(self.machine.load(root, 511));
        proof {
            lemma_word_basics(second@);
        }
        match second.pointed_frame() {
            Some(frame) => frame.number == root.number && !second.flags().contains(
                EntryFlags::huge_page(),
            ),
            None => false,
        }
    }

    /// Whether the huge pages on the path of the page start at a frame that
    /// their size divides.
    pub fn huge_pages_aligned(&self, page: Page) -> (ok: bool)
        requires
            self.wf(),
        ensures
            ok == self@.huge_aligned(self@.root(), page),
    {
        let p3 = match self.p4().next_table(&self.machine, page.p4_index()) {
            Some(table) => table,
            None => {
                return true;
            },
        };
        let upper = p3.index(&self.machine, page.p3_index());
        proof {
            lemma_word_basics(upper@);
        }
        if let Some(start_frame) = upper.pointed_frame() {
            if upper.flags().contains(EntryFlags::huge_page()) {
                return start_frame.number % 262144 == 0;
            }
        }
        let p2 = match p3.next_table(&self.machine, page.p3_index()) {
            Some(table) => table,
            None => {
                return true;
            },
        };
        let middle = p2.index(&self.machine, page.p2_index());
        proof {
            lemma_word_basics(middle@);
        }
        if let Some(start_frame) = middle.pointed_frame() {
            if middle.flags().contains(EntryFlags::huge_page()) {
                return start_frame.number % 512 == 0;
            }
        }
        true
    }

    /// Whether the page can be unmapped: it is mapped by a leaf slot, which
    /// is not one of the slots that carry the recursive mapping.
    pub fn can_unmap(&self, page: Page) -> (ok: bool)
        requires
            self.wf(),
        ensures
            ok == (self@.translate_page(page).is_some() && self@.p1_frame(
                self@.root(),
                page,
            ).is_some() && !self@.carries_recursion(
                self@.p1_frame(self@.root(), page).unwrap(),
                page.p1_index() as int,
            )),
    {
        let p3 = self.p4().next_table(&self.machine, page.p4_index());
        let p2 = match &p3 {
            Some(p3) => p3.next_table(&self.machine, page.p3_index()),
            None => None,
        };
        let p1 = match &p2 {
            Some(p2) => p2.next_table(&self.machine, page.p2_index()),
            None => None,
        };
        match p1 {
            Some(p1) => {
                let leaf = p1.index(&self.machine, page.p1_index());
                let table = self.machine.resolve(p1.address());
                let active = Frame::containing_address(self.machine.cr3());
                let root = self.machine.resolve(self.p4().address());
                proof {
                    lemma_word_basics(leaf@);
                    lemma_word_basics(self@.entry(self@.active(), 511));
                }
                leaf.pointed_frame().is_some() && !(page.p1_index() == 511 && (table.number
                    == active.number || table.number == root.number))
            },
            None => false,
        }
    }

    /// Whether the page can be mapped: no slot on its path has the huge-page
    /// flag, and its leaf slot, if the path reaches one, is unused.
    pub fn can_map(&self, page: Page) -> (ok: bool)
        requires
            self.wf(),
        ensures
            ok == self@.mappable(self@.root(), page),
    {
        let p4 = self.p4();
        let top = p4.index(&self.machine, page.p4_index());
        proof {
            lemma_word_basics(top@);
        }
        if top.flags().contains(EntryFlags::huge_page()) {
            return false;
        }
        let p3 = match p4.next_table(&self.machine, page.p4_index()) {
            Some(table) => table,
            None => {
                return true;
            },
        };
        let upper = p3.index(&self.machine, page.p3_index());
        proof {
            lemma_word_basics(upper@);
        }
        if upper.flags().contains(EntryFlags::huge_page()) {
            return false;
        }
        let p2 = match p3.next_table(&self.machine, page.p3_index()) {
            Some(table) => table,
            None => {
                return true;
            },
        };
        let middle = p2.index(&self.machine, page.p2_index());
        proof {
            lemma_word_basics(middle@);
        }
        if middle.flags().contains(EntryFlags::huge_page()) {
            return false;
        }
        match p2.next_table(&self.machine, page.p2_index()) {
            Some(p1) => p1.index(&self.machine, page.p1_index()).is_unused(),
            None => true,
        }
    }

    /// Maps the page to the frame with the given flags and the present flag.
    /// Tables that are missing on the path of the page are made from frames
    /// of the allocator.
    ///
    /// The page must not be mapped yet, and no huge page may lie on its path.
    /// Fails where a table is needed and the allocator hands out no frame, or
    /// one that no slot can point to; the page is then still unmapped. It
    /// succeeds where the allocator holds a frame for each missing table and
    /// a slot can point to each of its frames.
    pub fn map_to<A: FrameAllocator>(
        &mut self,
        page: Page,
        frame: Frame,
        flags: EntryFlags,
        allocator: &mut A,
    ) -> (result: Result<(), MapError>)
        requires
            old(self).wf(),
            frame.number < POINTABLE_LIMIT,
            old(self)@.mappable(old(self)@.root(), page),
            old(self)@.reserves(old(allocator).free_frames()),
        ensures
            final(self).extends(old(self)),
            final(self).wf(),
            result != Err::<(), MapError>(MapError::PageInUse),
            old(self)@.extended_by(final(self)@, page, old(allocator).free_frames()),
            old(self)@.layered() && page.p4_index() != 511 ==> final(self)@.reserves(
                final(allocator).free_frames(),
            ),
            final(allocator).free_frames().subset_of(old(allocator).free_frames()),
            old(self)@.p1_frame(old(self)@.root(), page).is_some() ==> result.is_ok(),
            affords(old(allocator).free_frames(), old(self)@.missing(old(self)@.root(), page))
                ==> result.is_ok(),
            result == Err::<(), MapError>(MapError::OutOfFrames) ==> !offers(
                old(allocator).free_frames(),
                old(self)@.missing(old(self)@.root(), page),
            ) && final(allocator).free_frames() == Set::<int>::empty(),
            result == Err::<(), MapError>(MapError::FrameOutOfRange) ==> 0 < old(self)@.missing(
                old(self)@.root(),
                page,
            ) && !pointable(old(allocator).free_frames()),
            result.is_err() ==> final(self)@.translate_page(page).is_none() && final(self)@.reserves(
                final(allocator).free_frames(),
            ) && final(self)@.mappable(final(self)@.root(), page),
            result.is_ok() ==> final(self)@.translate_page(page) == Some(frame.number as int),
            result.is_ok() ==> final(self)@.maps_with(
                final(self)@.root(),
                page,
                encode(frame.number as int, flags@ | PRESENT),
            ),
            old(self)@.layered() && old(self)@.unshared() && page.p4_index() != 511
                ==> old(self)@.alone_changed(final(self)@, page),
            result.is_ok() ==> forall|address: u64|
                address / 4096 == page.number ==> #[trigger] final(self)@.translate(address) == Some(
                    frame.number * 4096 + address % 4096,
                ),
            result.is_ok() ==> final(self)@.maps_by(
                old(self)@,
                page,
                encode(frame.number as int, flags@ | PRESENT),
            ) && !final(allocator).free_frames().contains(
                final(self)@.p3_frame(final(self)@.root(), page).unwrap(),
            ) && !final(allocator).free_frames().contains(
                final(self)@.p2_frame(final(self)@.root(), page).unwrap(),
            ) && !final(allocator).free_frames().contains(
                final(self)@.p1_frame(final(self)@.root(), page).unwrap(),
            ),
    {
        let ghost root = self@.root();
        let ghost m0 = self@;
        let ghost free0 = allocator.free_frames();
        let ghost i4 = page.p4_index() as int;
        let ghost i3 = page.p3_index() as int;
        let ghost i2 = page.p2_index() as int;
        let ghost i1 = page.p1_index() as int;
        proof {
            page.lemma_index_bounds();
            lemma_word_basics(0);
            lemma_table_prefix(m0, i4, i3);
        }
        let p4 = self.p4();
        let p3 = match p4.next_table_create(&mut self.machine, page.p4_index(), allocator) {
            Ok(table) => table,
            Err(error) => {
                proof {
                    lemma_same_memory(m0, m0);
                    lemma_extended_none(m0, page, free0);
                    assert(m0.missing(root, page) == 3);
                    if error == MapError::OutOfFrames {
                        lemma_offers_nothing(free0, 3);
                    }
                }
                return Err(error);
            },
        };
        let ghost m1 = self@;
        let ghost free1 = allocator.free_frames();
        let ghost t3 = p3.frame(m1).unwrap();
        proof {
            assert(m1 == m0.ensured(root, i4, t3));
            lemma_ensured(m0, root, i4, t3, 511, 511);
            lemma_table_prefix(m1, i4, i3);
            if m0.child(root, i4).is_some() {
                assert(m0.table(511, 511, i4) == Some(t3));
                assert(!m0.unused(t3));
            }
            assert(!free1.contains(t3));
        }
        let p2 = match p3.next_table_create(&mut self.machine, page.p3_index(), allocator) {
            Ok(table) => table,
            Err(error) => {
                proof {
                    reveal(MachineView::extended_by);
                    assert(m1.p3_frame(root, page) == Some(t3));
                    assert(m0.extended_by(m1, page, free0));
                    if m0.child(root, i4).is_none() {
                        lemma_offers_without(free0, t3, 3);
                    } else {
                        assert(m0.missing(root, page) == 2);
                    }
                    if error == MapError::OutOfFrames {
                        lemma_offers_nothing(free1, 2);
                    }
                }
                return Err(error);
            },
        };
        let ghost m2 = self@;
        let ghost free2 = allocator.free_frames();
        let ghost t2 = p2.frame(m2).unwrap();
        proof {
            assert(m2 == m1.ensured(t3, i3, t2));
            lemma_ensured(m1, t3, i3, t2, 511, i4);
            lemma_table_prefix(m2, i4, i3);
            if m1.child(t3, i3).is_none() {
                assert(m1.table(511, 511, 511) != Some(t2));
            }
            if m1.child(t3, i3).is_some() {
                assert(m1.table(511, i4, i3) == Some(t2));
                assert(!m1.unused(t2));
            }
            assert(!free2.contains(t2));
        }
        let p1 = match p2.next_table_create(&mut self.machine, page.p2_index(), allocator) {
            Ok(table) => table,
            Err(error) => {
                proof {
                    reveal(MachineView::extended_by);
                    assert(m2.p3_frame(root, page) == Some(t3));
                    assert(m2.p2_frame(root, page) == Some(t2));
                    assert(m0.extended_by(m2, page, free0));
                    if m0.child(root, i4).is_none() {
                        lemma_offers_without(free0, t3, 3);
                    }
                    if m1.child(t3, i3).is_none() {
                        lemma_offers_without(free1, t2, 2);
                    } else if m0.child(root, i4).is_some() {
                        assert(m0.missing(root, page) == 1);
                    }
                    if error == MapError::OutOfFrames {
                        lemma_offers_nothing(free2, 1);
                    }
                }
                return Err(error);
            },
        };
        let ghost m3 = self@;
        let ghost free3 = allocator.free_frames();
        let ghost t1 = p1.frame(m3).unwrap();
        proof {
            assert(m3 == m2.ensured(t2, i2, t1));
            lemma_ensured(m2, t2, i2, t1, i4, i3);
            lemma_table_prefix(m3, i4, i3);
            if m2.child(t2, i2).is_none() {
                assert(m2.table(511, 511, 511) != Some(t1));
                assert(m2.table(511, 511, i4) != Some(t1));
            }
            if m2.child(t2, i2).is_some() {
                assert(m2.table(i4, i3, i2) == Some(t1));
                assert(!m2.unused(t1));
            }
            assert(!free3.contains(t1));
            assert(m3.entry(t1, i1) == 0);
        }
        let mut leaf = p1.index(&self.machine, page.p1_index());
        // the leaf slot is unused
        let leaf_flags = flags | EntryFlags::present();
        leaf.set(frame, leaf_flags);
        p1.store(&mut self.machine, page.p1_index(), leaf);
        proof {
            let m4 = self@;
            lemma_flag_sets(flags@, 0);
            lemma_encode_decode(frame.number as int, flags@ | PRESENT);
            assert(m4 == m3.store(t1, i1, leaf@));
            lemma_store_kept(m3, t1, i1, leaf@);
            if m0.layered() && i4 != 511 {
                assert(m3.table(i4, i3, i2) == Some(t1));
                lemma_leaf_store(m3, t1, i1, leaf@);
                assert(m3.reserves(free3));
            }
            assert(m4.p3_frame(root, page) == Some(t3));
            assert(m4.p2_frame(root, page) == Some(t2));
            assert(m4.p1_frame(root, page) == Some(t1));
            assert(m0.extended_by(m4, page, free0)) by {
                reveal(MachineView::extended_by);
            }
            assert(m4.maps_with(root, page, leaf@)) by {
                reveal(MachineView::maps_with);
            }
            if m0.layered() && m0.unshared() && i4 != 511 {
                assert forall|other: Page|
                    other.p4_index() != 511 && !other.alike(page) implies #[trigger] m4.translate_page(
                    other,
                ) == m0.translate_page(other) && m4.mappable(root, other) == m0.mappable(
                    root,
                    other,
                ) by {
                    assert(m1.translate_page(other) == m0.translate_page(other));
                    assert(m2.translate_page(other) == m1.translate_page(other));
                    assert(m3.translate_page(other) == m2.translate_page(other));
                    lemma_leaf_store_exact(m3, page, leaf@, other);
                }
            }
        }
        Ok(())
    }

    /// Maps the page to a frame taken from the allocator.
    ///
    /// Fails as `map_allocated` does on what the allocator hands out.
    pub fn map<A: FrameAllocator>(
        &mut self,
        page: Page,
        flags: EntryFlags,
        allocator: &mut A,
    ) -> (result: Result<(), MapError>)
        requires
            old(self).wf(),
            old(self)@.mappable(old(self)@.root(), page),
            old(self)@.reserves(old(allocator).free_frames()),
        ensures
            final(self).extends(old(self)),
            final(self).wf(),
            result != Err::<(), MapError>(MapError::PageInUse),
            old(self)@.extended_by(final(self)@, page, old(allocator).free_frames()),
            old(self)@.layered() && page.p4_index() != 511 ==> final(self)@.reserves(
                final(allocator).free_frames(),
            ),
            old(self)@.layered() && old(self)@.unshared() && page.p4_index() != 511
                ==> old(self)@.alone_changed(final(self)@, page),
            final(allocator).free_frames().subset_of(old(allocator).free_frames()),
            affords(old(allocator).free_frames(), old(self)@.missing(old(self)@.root(), page) + 1)
                ==> result.is_ok(),
            result == Err::<(), MapError>(MapError::OutOfFrames) ==> !offers(
                old(allocator).free_frames(),
                old(self)@.missing(old(self)@.root(), page) + 1,
            ) && final(allocator).free_frames() == Set::<int>::empty(),
            result == Err::<(), MapError>(MapError::FrameOutOfRange) ==> !pointable(
                old(allocator).free_frames(),
            ),
            result.is_err() ==> final(self)@.translate_page(page).is_none(),
            result.is_ok()
                ==> final(self)@.translate_page(page).is_some()
                    && old(allocator).free_frames().contains(final(self)@.translate_page(page).unwrap())
                        && !final(allocator).free_frames().contains(final(self)@.translate_page(page).unwrap()),
    {
        let frame = allocator.allocate_frame();
        let ghost free = allocator.free_frames();
        proof {
            let count = self@.missing(self@.root(), page) + 1;
            match frame {
                Some(f) => {
                    lemma_offers_without(old(allocator).free_frames(), f.number as int, count);
                },
                None => {
                    lemma_offers_nothing(old(allocator).free_frames(), count);
                },
            }
        }
        let result = self.map_allocated(page, frame, flags, allocator);
        proof {
            lemma_extended_wider(old(self)@, self@, page, free, old(allocator).free_frames());
        }
        result
    }

    /// Maps the page to the frame that the allocator handed out for it.
    ///
    /// Fails with `OutOfFrames` where there is no frame, and with
    /// `FrameOutOfRange` where no slot can point to the frame; nothing is
    /// changed then. Else as `map_to` with that frame.
    #[verifier::spinoff_prover]
    pub fn map_allocated<A: FrameAllocator>(
        &mut self,
        page: Page,
        frame: Option<Frame>,
        flags: EntryFlags,
        allocator: &mut A,
    ) -> (result: Result<(), MapError>)
        requires
            old(self).wf(),
            old(self)@.mappable(old(self)@.root(), page),
            old(self)@.reserves(old(allocator).free_frames()),
        ensures
            final(self).extends(old(self)),
            frame.is_none() ==> result == Err::<(), MapError>(MapError::OutOfFrames),
            frame matches Some(f) ==> f.number >= POINTABLE_LIMIT ==> result == Err::<(), MapError>(
                MapError::FrameOutOfRange,
            ),
            frame.is_none() || frame.unwrap().number >= POINTABLE_LIMIT ==> final(self)@ == old(self)@
                && *final(allocator) == *old(allocator),
            final(self).wf(),
            result != Err::<(), MapError>(MapError::PageInUse),
            old(self)@.extended_by(final(self)@, page, old(allocator).free_frames()),
            old(self)@.layered() && page.p4_index() != 511 ==> final(self)@.reserves(
                final(allocator).free_frames(),
            ),
            old(self)@.layered() && old(self)@.unshared() && page.p4_index() != 511
                ==> old(self)@.alone_changed(final(self)@, page),
            final(allocator).free_frames().subset_of(old(allocator).free_frames()),
            frame matches Some(f) ==> f.number < POINTABLE_LIMIT && old(self)@.p1_frame(
                old(self)@.root(),
                page,
            ).is_some() ==> result.is_ok(),
            frame matches Some(f) ==> f.number < POINTABLE_LIMIT && affords(
                old(allocator).free_frames(),
                old(self)@.missing(old(self)@.root(), page),
            ) ==> result.is_ok(),
            frame matches Some(f) ==> f.number < POINTABLE_LIMIT ==> (result == Err::<(), MapError>(
                MapError::OutOfFrames,
            ) ==> !offers(
                old(allocator).free_frames(),
                old(self)@.missing(old(self)@.root(), page),
            ) && final(allocator).free_frames() == Set::<int>::empty()) && (result == Err::<
                (),
                MapError,
            >(MapError::FrameOutOfRange) ==> !pointable(
                old(allocator).free_frames(),
            )),
            result.is_err() ==> final(self)@.translate_page(page).is_none(),
            result.is_ok() ==> frame.is_some() && final(self)@.translate_page(page) == Some(
                frame.unwrap().number as int,
            ),
    {
        proof {
            lemma_word_basics(0);
            lemma_extended_none(self@, page, allocator.free_frames());
            lemma_same_memory(self@, self@);
            crate::memory::paging::laws::law_mappable_page_is_unmapped(self@, page);
        }
        match frame {
            None => Err(MapError::OutOfFrames),
            Some(frame) => {
                if frame.number >= POINTABLE_LIMIT {
                    Err(MapError::FrameOutOfRange)
                } else {
                    self.map_to(page, frame, flags, allocator)
                }
            },
        }
    }

    /// Maps the page whose number is the number of the frame to that frame.
    ///
    /// Fails as `map_to` does.
    pub fn identity_map<A: FrameAllocator>(
        &mut self,
        frame: Frame,
        flags: EntryFlags,
        allocator: &mut A,
    ) -> (result: Result<(), MapError>)
        requires
            old(self).wf(),
            frame.number < POINTABLE_LIMIT,
            is_canonical((frame.number * 4096) as u64),
            old(self)@.mappable(old(self)@.root(), Page { number: frame.number }),
            old(self)@.reserves(old(allocator).free_frames()),
        ensures
            final(self).extends(old(self)),
            final(self).wf(),
            result != Err::<(), MapError>(MapError::PageInUse),
            old(self)@.extended_by(
                final(self)@,
                Page { number: frame.number },
                old(allocator).free_frames(),
            ),
            old(self)@.layered() && (Page { number: frame.number }).p4_index() != 511
                ==> final(self)@.reserves(final(allocator).free_frames()),
            old(self)@.layered() && old(self)@.unshared() && (Page { number: frame.number }).p4_index()
                != 511 ==> old(self)@.alone_changed(final(self)@, Page { number: frame.number }),
            final(allocator).free_frames().subset_of(old(allocator).free_frames()),
            old(self)@.p1_frame(old(self)@.root(), Page { number: frame.number }).is_some()
                ==> result.is_ok(),
            affords(
                old(allocator).free_frames(),
                old(self)@.missing(old(self)@.root(), Page { number: frame.number }),
            ) ==> result.is_ok(),
            result == Err::<(), MapError>(MapError::OutOfFrames) ==> !offers(
                old(allocator).free_frames(),
                old(self)@.missing(old(self)@.root(), Page { number: frame.number }),
            ) && final(allocator).free_frames() == Set::<int>::empty(),
            result == Err::<(), MapError>(MapError::FrameOutOfRange) ==> !pointable(
                old(allocator).free_frames(),
            ),
            result.is_err() ==> final(self)@.translate_page(Page { number: frame.number }).is_none()
                && final(self)@.reserves(final(allocator).free_frames()),
            result.is_ok() ==> final(self)@.translate_page(Page { number: frame.number }) == Some(
                frame.number as int,
            ) && final(self)@.maps_with(
                final(self)@.root(),
                Page { number: frame.number },
                encode(frame.number as int, flags@ | PRESENT),
            ),
    {
        let page = Page::containing_address(frame.start_address());
        self.map_to(page, frame, flags, allocator)
    }

    /// Unmaps the page: clears its leaf slot and invalidates the cached
    /// translation of the page. No frame goes back to the allocator.
    ///
    /// The page must be mapped by a leaf slot, not inside a huge page, and
    /// the slot must not be one that carries the recursive mapping.
    pub fn unmap<A: FrameAllocator>(&mut self, page: Page, allocator: &mut A)
        requires
            old(self).wf(),
            page.number < 0x10_0000_0000_0000,
            old(self)@.translate_page(page).is_some(),
            old(self)@.p1_frame(old(self)@.root(), page).is_some(),
            !old(self)@.carries_recursion(
                old(self)@.p1_frame(old(self)@.root(), page).unwrap(),
                page.p1_index() as int,
            ),
        ensures
            final(self).extends(old(self)),
            final(self)@ == old(self)@.store(
                old(self)@.p1_frame(old(self)@.root(), page).unwrap(),
                page.p1_index() as int,
                0,
            ).flush(Flush::Page((page.number * 4096) as u64)),
            final(self).wf(),
            final(self)@.root() == old(self)@.root(),
            final(self)@.translate_page(page).is_none(),
            forall|address: u64|
                address / 4096 == page.number ==> (#[trigger] final(self)@.translate(
                    address,
                )).is_none(),
            old(self)@.layered() ==> final(self)@.layered(),
            forall|free: Set<int>| #[trigger]
                old(self)@.reserves(free) ==> final(self)@.reserves(free),
            forall|x: int| #[trigger] old(self)@.idle(x) ==> final(self)@.idle(x),
            *final(allocator) == *old(allocator),
    {
        let ghost m0 = self@;
        proof {
            page.lemma_index_bounds();
            lemma_word_basics(0);
        }
        let p3 = self.p4().next_table_mut(&self.machine, page.p4_index());
        let p2 = match &p3 {
            Some(p3) => p3.next_table_mut(&self.machine, page.p3_index()),
            None => None,
        };
        let p1 = match &p2 {
            Some(p2) => p2.next_table_mut(&self.machine, page.p2_index()),
            None => None,
        };
        // no huge page lies on the path, so the leaf table is there
        if let Some(p1) = p1 {
            let mut leaf = p1.index(&self.machine, page.p1_index());
            leaf.set_unused();
            p1.store(&mut self.machine, page.p1_index(), leaf);
            self.machine.flush(page.start_address());
            proof {
                let t1 = m0.p1_frame(m0.root(), page).unwrap();
                lemma_cleared(m0, t1, page.p1_index() as int);
                let m1 = m0.store(t1, page.p1_index() as int, 0);
                assert(self@ == m1.flush(Flush::Page((page.number * 4096) as u64)));
                lemma_same_memory(m1, self@);
                assert(m1.translate_page(page).is_none()) by {
                    assert forall|y: int, s: int| (#[trigger] m1.child(y, s)).is_some() implies m1.child(
                        y,
                        s,
                    ) == m0.child(y, s) by {}
                }
            }
        }
    }

    /// The frame inside a huge page that the page is mapped to, if an upper
    /// or middle slot on its path maps a huge page.
    fn translate_huge_page(&self, page: Page) -> (frame: Option<Frame>)
        requires
            self.wf(),
            self@.huge_aligned(self@.root(), page),
        ensures
            frame.is_some() == self@.huge_frame(self@.root(), page).is_some(),
            frame matches Some(f) ==> self@.huge_frame(self@.root(), page) == Some(f.number as int),
            frame matches Some(f) ==> f.number < 0x100_0004_0000,
    {
        match self.p4().next_table(&self.machine, page.p4_index()) {
            None => None,
            Some(p3) => {
                let p3_entry = p3.index(&self.machine, page.p3_index());
                proof {
                    lemma_word_basics(p3_entry@);
                }
                // 1GiB page?
                if let Some(start_frame) = p3_entry.pointed_frame() {
                    if p3_entry.flags().contains(EntryFlags::huge_page()) {
                        // the start frame is aligned to 1GiB
                        assert(start_frame.number % 262144 == 0);
                        return Some(
                            Frame {
                                number: start_frame.number + page.p2_index() as u64 * 512
                                    + page.p1_index() as u64,
                            },
                        );
                    }
                }
                if let Some(p2) = p3.next_table(&self.machine, page.p3_index()) {
                    let p2_entry = p2.index(&self.machine, page.p2_index());
                    proof {
                        lemma_word_basics(p2_entry@);
                    }
                    // 2MiB page?
                    if let Some(start_frame) = p2_entry.pointed_frame() {
                        if p2_entry.flags().contains(EntryFlags::huge_page()) {
                            // the start frame is aligned to 2MiB
                            assert(start_frame.number % 512 == 0);
                            return Some(
                                Frame { number: start_frame.number + page.p1_index() as u64 },
                            );
                        }
                    }
                }
                None
            },
        }
    }
}

} // verus!
