//! Pages, page tables and address spaces.

use vstd::prelude::*;
use crate::machine::lemmas::{
    lemma_extended_keeps,
    lemma_founded,
    lemma_outside_change,
    lemma_same_memory,
};
use crate::machine::{Flush, Machine, MachineView};
use crate::memory::paging::entry::{
    lemma_link_to,
    lemma_word_basics,
    link_to,
    word_present,
    EntryFlags,
    POINTABLE_LIMIT,
};
use crate::memory::paging::kernel::{
    blocked,
    in_sections,
    lemma_sections_left,
    lemma_sections_switched,
    map_sections,
    only_sections,
    overlapping,
    sections_mapped,
    KernelSection,
};
use crate::memory::paging::space::{
    apart,
    lemma_entered_empty,
    lemma_window_kept,
    entered,
    founded_and_left,
    left,
    lemma_entered,
    lemma_left,
    lemma_space_founded,
    lemma_space_left,
    shows_active,
};
use crate::memory::paging::mapper::Mapper;
use crate::memory::paging::temporary_page::TemporaryPage;
use crate::memory::{affords, offers, pointable, Frame, FrameAllocator, MapError};

pub mod entry;
pub mod kernel;
pub mod laws;
pub mod mapper;
pub mod space;
pub mod table;
pub mod temporary_page;

verus! {

/// Number of entries in a page table.
pub const ENTRY_COUNT: usize = 512;

pub type VirtualAddress = u64;

/// Whether the upper bits of the address repeat bit 47, as the hardware
/// demands of every virtual address.
pub open spec fn is_canonical(address: VirtualAddress) -> bool {
    address < 0x0000_8000_0000_0000 || address >= 0xffff_8000_0000_0000
}

/// Whether the upper bits of the address repeat bit 47.
pub fn is_canonical_address(address: VirtualAddress) -> (canonical: bool)
    ensures
        canonical == is_canonical(address),
{
    address < 0x0000_8000_0000_0000 || address >= 0xffff_8000_0000_0000
}

/// A virtual page, identified by its index: the virtual address divided by
/// the page size.
#[derive(Debug, Clone, Copy, PartialEq, Eq, Structural)]
pub struct Page {
    pub number: u64,
}

impl Page {
    /// The page that holds the virtual address.
    pub fn containing_address(address: VirtualAddress) -> (page: Page)
        requires
            is_canonical(address),
        ensures
            page.number == address / 4096,
    {
        Page { number: address / 4096 }
    }

    /// The first virtual address of the page.
    pub fn start_address(&self) -> (address: VirtualAddress)
        requires
            self.number < 0x10_0000_0000_0000,
        ensures
            address == self.number * 4096,
    {
        self.number * 4096
    }

    pub open spec fn spec_p4_index(&self) -> usize {
        ((self.number >> 27) & 0o777) as usize
    }

    pub open spec fn spec_p3_index(&self) -> usize {
        ((self.number >> 18) & 0o777) as usize
    }

    pub open spec fn spec_p2_index(&self) -> usize {
        ((self.number >> 9) & 0o777) as usize
    }

    pub open spec fn spec_p1_index(&self) -> usize {
        ((self.number >> 0) & 0o777) as usize
    }

    /// Index into the top-level table: bits 27 to 35 of the page number.
    #[verifier::when_used_as_spec(spec_p4_index)]
    pub fn p4_index(&self) -> (index: usize)
        ensures
            index == self.spec_p4_index(),
            index < ENTRY_COUNT,
    {
        proof {
            self.lemma_index_bounds();
        }
        ((self.number >> 27) & 0o777) as usize
    }

    /// Index into the upper table: bits 18 to 26 of the page number.
    #[verifier::when_used_as_spec(spec_p3_index)]
    pub fn p3_index(&self) -> (index: usize)
        ensures
            index == self.spec_p3_index(),
            index < ENTRY_COUNT,
    {
        proof {
            self.lemma_index_bounds();
        }
        ((self.number >> 18) & 0o777) as usize
    }

    /// Index into the middle table: bits 9 to 17 of the page number.
    #[verifier::when_used_as_spec(spec_p2_index)]
    pub fn p2_index(&self) -> (index: usize)
        ensures
            index == self.spec_p2_index(),
            index < ENTRY_COUNT,
    {
        proof {
            self.lemma_index_bounds();
        }
        ((self.number >> 9) & 0o777) as usize
    }

    /// Index into the leaf table: bits 0 to 8 of the page number.
    #[verifier::when_used_as_spec(spec_p1_index)]
    pub fn p1_index(&self) -> (index: usize)
        ensures
            index == self.spec_p1_index(),
            index < ENTRY_COUNT,
    {
        proof {
            self.lemma_index_bounds();
        }
        ((self.number >> 0) & 0o777) as usize
    }

    /// Whether the page has the same four indices as `other`: the same slots
    /// of the tables are walked for both.
    pub open spec fn alike(self, other: Page) -> bool {
        &&& self.p4_index() == other.p4_index()
        &&& self.p3_index() == other.p3_index()
        &&& self.p2_index() == other.p2_index()
        &&& self.p1_index() == other.p1_index()
    }

    /// Pages with numbers below 2^36 and the same four indices are the same
    /// page.
    pub proof fn lemma_alike(self, other: Page)
        requires
            self.number < 0x10_0000_0000,
            other.number < 0x10_0000_0000,
            self.alike(other),
        ensures
            self == other,
    {
        let n: u64 = self.number;
        let m: u64 = other.number;
        assert((n >> 27) & 0o777 < 512 && (n >> 18) & 0o777 < 512 && (n >> 9) & 0o777 < 512 && (n
            >> 0) & 0o777 < 512 && (m >> 27) & 0o777 < 512 && (m >> 18) & 0o777 < 512 && (m >> 9)
            & 0o777 < 512 && (m >> 0) & 0o777 < 512) by (bit_vector);
        assert(n == m) by (bit_vector)
            requires
                n < 0x10_0000_0000u64,
                m < 0x10_0000_0000u64,
                (n >> 27) & 0o777 == (m >> 27) & 0o777,
                (n >> 18) & 0o777 == (m >> 18) & 0o777,
                (n >> 9) & 0o777 == (m >> 9) & 0o777,
                (n >> 0) & 0o777 == (m >> 0) & 0o777,
        ;
    }

    /// A page whose number is below 2^35 lies in the lower half of the
    /// address space, outside the recursive region.
    pub proof fn lemma_lower_half(self)
        requires
            self.number < 0x8_0000_0000,
        ensures
            self.p4_index() < 256,
            is_canonical((self.number * 4096) as u64),
    {
        let number: u64 = self.number;
        assert((number >> 27) & 0o777 < 256) by (bit_vector)
            requires
                number < 0x8_0000_0000u64,
        ;
    }

    /// The four indices are below the number of entries of a table.
    pub proof fn lemma_index_bounds(self)
        ensures
            self.p4_index() < 512,
            self.p3_index() < 512,
            self.p2_index() < 512,
            self.p1_index() < 512,
    {
        let number: u64 = self.number;
        assert((number >> 27) & 0o777 < 512 && (number >> 18) & 0o777 < 512 && (number >> 9) & 0o777
            < 512 && (number >> 0) & 0o777 < 512) by (bit_vector);
    }
}

/// The address space that the hardware works with, seen through its
/// recursive mapping.
pub struct ActivePageTable {
    mapper: Mapper,
}

impl View for ActivePageTable {
    type V = MachineView;

    closed spec fn view(&self) -> MachineView {
        self.mapper@
    }
}

impl ActivePageTable {
    /// The machine that the table works on.
    pub closed spec fn held(&self) -> Machine {
        self.mapper.held()
    }

    /// Whether the machine of this table is what the machine of `before`
    /// has become by further operations.
    pub open spec fn extends(&self, before: &ActivePageTable) -> bool {
        self.held().extends(&before.held())
    }

    /// The recursive mapping is in place, and it shows the active table
    /// itself.
    pub open spec fn wf(&self) -> bool {
        self@.recursive() && self@.root() == self@.active()
    }

    /// The active table of `machine`.
    pub fn new(machine: Machine) -> (table: ActivePageTable)
        ensures
            table@ == machine@,
            table.held() == machine,
    {
        ActivePageTable { mapper: Mapper::new(machine) }
    }

    /// Gives the machine back.
    pub fn into_machine(self) -> (machine: Machine)
        ensures
            machine@ == self@,
            machine == self.held(),
    {
        self.mapper.into_machine()
    }

    /// Whether the recursive mapping is in place and shows the active table
    /// itself.
    pub fn is_recursive(&self) -> (ok: bool)
        ensures
            ok == self.wf(),
    {
        if !self.mapper.is_recursive() {
            return false;
        }
        let active = Frame::containing_address(self.mapper.machine().cr3());
        let root = self.mapper.machine().resolve(self.mapper.p4().address());
        proof {
            lemma_word_basics(self@.entry(self@.active(), 511));
        }
        root.number == active.number
    }

    /// The mapper of the active address space.
    pub fn deref(&self) -> (mapper: &Mapper)
        ensures
            mapper@ == self@,
            mapper.held() == self.held(),
    {
        &self.mapper
    }

    /// The mapper of the active address space, for changes.
    pub fn deref_mut(&mut self) -> (mapper: &mut Mapper)
        ensures
            mapper@ == old(self)@,
            mapper.held() == old(self).held(),
            final(self)@ == final(mapper)@,
            final(self).held() == final(mapper).held(),
    {
        &mut self.mapper
    }

    /// Runs `f` on the address space of `table` instead of the active one.
    ///
    /// The temporary page is mapped to the active top-level table, so that
    /// the table stays in reach. Then the last slot of the active table is
    /// pointed to the top-level table of `table` and the whole translation
    /// cache is invalidated: from there on the recursive mapping shows the
    /// other address space, and `f` works on it through the mapper. When `f`
    /// is done the last slot is pointed back to the active table through the
    /// temporary page, the whole translation cache is invalidated again, and
    /// the temporary page is unmapped.
    ///
    /// `f` must leave alone the table-base register and the slots that lead
    /// to the temporary page. `context` is handed on to `f`. Fails, without
    /// running `f`, where the temporary page cannot be mapped: where it
    /// holds fewer frames than tables are missing on its path, or one that
    /// no slot can point to. The page is then still unmapped, and can be
    /// used again.
    pub fn with<C, R, F>(
        &mut self,
        table: &mut InactivePageTable,
        temporary_page: &mut TemporaryPage,
        context: &mut C,
        f: F,
    ) -> (result: Result<R, MapError>) where F: FnOnce(&mut Mapper, &mut C) -> R
        requires
            old(self).wf(),
            old(self)@.layered(),
            old(table).frame().number < POINTABLE_LIMIT,
            old(temporary_page).page().number < 0x10_0000_0000_0000,
            old(temporary_page).page().p4_index() != 511,
            old(self)@.mappable(old(self)@.root(), old(temporary_page).page()),
            old(self)@.reserves(old(temporary_page).free_frames()),
            forall|mapper: &mut Mapper, inner: &mut C|
                entered(
                    old(self)@,
                    mapper@,
                    old(temporary_page).page(),
                    old(temporary_page).free_frames(),
                    old(table).frame().number as int,
                ) && *inner == *old(context) ==> call_requires(f, (mapper, inner)),
            forall|mapper: &mut Mapper, inner: &mut C, output: R|
                entered(
                    old(self)@,
                    mapper@,
                    old(temporary_page).page(),
                    old(temporary_page).free_frames(),
                    old(table).frame().number as int,
                ) && *inner == *old(context) && call_ensures(f, (mapper, inner), output)
                    ==> final(mapper)@.cr3 == mapper@.cr3 && mapper@.same_walk(
                    final(mapper)@,
                    mapper@.active(),
                    old(temporary_page).page(),
                ),
        ensures
            result.is_err() ==> final(self).extends(old(self)),
            *final(table) == *old(table),
            final(temporary_page).page() == old(temporary_page).page(),
            final(temporary_page).free_frames().subset_of(old(temporary_page).free_frames()),
            final(self).wf(),
            result matches Err(error) ==> error != MapError::PageInUse,
            old(self)@.p1_frame(old(self)@.root(), old(temporary_page).page()).is_some()
                ==> result.is_ok(),
            affords(
                old(temporary_page).free_frames(),
                old(self)@.missing(old(self)@.root(), old(temporary_page).page()),
            ) ==> result.is_ok(),
            result matches Err(error) ==> (error == MapError::OutOfFrames ==> !offers(
                old(temporary_page).free_frames(),
                old(self)@.missing(old(self)@.root(), old(temporary_page).page()),
            )) && (error == MapError::FrameOutOfRange ==> !pointable(
                old(temporary_page).free_frames(),
            )),
            result.is_err() ==> *final(context) == *old(context) && old(self)@.extended_by(
                final(self)@,
                old(temporary_page).page(),
                old(temporary_page).free_frames(),
            ) && final(self)@.mappable(final(self)@.root(), old(temporary_page).page())
                && final(self)@.reserves(final(temporary_page).free_frames()) && final(self)@.layered(),
            result.is_ok() ==> exists|mapper: &mut Mapper, inner: &mut C|
                #![trigger call_ensures(f, (mapper, inner), result.unwrap())]
                entered(
                    old(self)@,
                    mapper@,
                    old(temporary_page).page(),
                    old(temporary_page).free_frames(),
                    old(table).frame().number as int,
                ) && *inner == *old(context) && call_ensures(f, (mapper, inner), result.unwrap())
                    && *final(inner) == *final(context) && final(self)@ == left(
                    final(mapper)@,
                    old(temporary_page).page(),
                ) && mapper.held().extends(&old(self).held()) && final(self).held().extends(
                    &final(mapper).held(),
                ),
    {
        let ghost m0 = self@;
        let ghost page = temporary_page.page();
        let ghost free0 = temporary_page.free_frames();
        let ghost target = table.frame().number as int;
        proof {
            lemma_word_basics(m0.entry(m0.active(), 511));
        }
        let backup = Frame::containing_address(self.mapper.machine().cr3());
        let p4_table = match temporary_page.map_table_frame(backup, self) {
            Ok(table) => table,
            Err(error) => {
                proof {
                    reveal(MachineView::extended_by);
                }
                return Err(error);
            },
        };
        let ghost mid = self@;
        proof {
            assert(shows_active(m0, mid, page, free0));
            lemma_entered(m0, mid, page, free0, target);
        }
        // overwrite the recursive mapping
        let p4 = self.mapper.p4();
        let mut entry = p4.index(self.mapper.machine(), 511);
        entry.set(table.p4_frame, EntryFlags::table_link());
        p4.store(self.mapper.machine_mut(), 511, entry);
        self.mapper.machine_mut().flush_all();
        let ghost inner = self@;
        let ghost entering = self.mapper;
        assert(inner == mid.store(m0.active(), 511, link_to(target)).flush(Flush::All));
        assert(entering.extends(&old(self).mapper));
        let output = f(&mut self.mapper, context);
        let ghost after = self@;
        proof {
            lemma_left(inner, after, page);
        }
        // restore the recursive mapping to the active table
        let mut entry = p4_table.index(self.mapper.machine(), 511);
        entry.set(backup, EntryFlags::table_link());
        p4_table.store(self.mapper.machine_mut(), 511, entry);
        self.mapper.machine_mut().flush_all();
        temporary_page.unmap(self);
        let ghost out = output;
        let result = Ok(output);
        proof {
            assert(self@ == left(after, page));
            assert(result.unwrap() == out);
            assert(exists|mapper: &mut Mapper, inner: &mut C|
                #![trigger call_ensures(f, (mapper, inner), out)]
                entered(m0, mapper@, page, free0, target) && *inner == *old(context) && call_ensures(
                    f,
                    (mapper, inner),
                    out,
                ) && *final(inner) == *context && self@ == left(final(mapper)@, page)
                    && mapper.held().extends(&old(self).held()) && self.held().extends(
                    &final(mapper).held(),
                ));
        }
        result
    }

    /// Makes the address space of `new_table` the active one: writes the
    /// address of its top-level table to the table-base register. Returns
    /// the address space that was active until then.
    pub fn switch(&mut self, new_table: InactivePageTable) -> (old_table: InactivePageTable)
        requires
            new_table.frame().number < POINTABLE_LIMIT,
        ensures
            final(self).extends(old(self)),
            old_table.frame().number == old(self)@.active(),
            final(self)@ == old(self)@.load_cr3((new_table.frame().number * 4096) as u64),
            final(self)@.active() == new_table.frame().number,
            new_table.wf(old(self)@) ==> final(self).wf(),
            old(self).wf() ==> old_table.wf(final(self)@),
    {
        proof {
            lemma_word_basics(self@.entry(self@.active(), 511));
        }
        let old_table = InactivePageTable {
            p4_frame: Frame::containing_address(self.mapper.machine().cr3()),
        };
        self.mapper.machine_mut().cr3_write(new_table.p4_frame.start_address());
        old_table
    }
}

/// An address space that the hardware does not work with: the frame of a
/// top-level table whose last slot points to the table itself.
pub struct InactivePageTable {
    p4_frame: Frame,
}

impl InactivePageTable {
    pub closed spec fn spec_frame(&self) -> Frame {
        self.p4_frame
    }

    /// The frame of the top-level table.
    #[verifier::when_used_as_spec(spec_frame)]
    pub fn frame(&self) -> (frame: Frame)
        ensures
            frame == self.frame(),
    {
        self.p4_frame
    }

    /// Whether the last slot of the top-level table links to the table
    /// itself in the memory of `machine`.
    pub open spec fn wf(&self, machine: MachineView) -> bool {
        &&& self.frame().number < POINTABLE_LIMIT
        &&& machine.child(self.frame().number as int, 511) == Some(self.frame().number as int)
    }

    /// Makes `frame` the top-level table of a new, empty address space:
    /// through the temporary page the frame is cleared and its last slot is
    /// made a link to the frame itself.
    ///
    /// The frame must be unused and not one of those kept for the temporary
    /// page, which must be unmapped. Fails where the temporary page cannot
    /// be mapped: where it holds fewer frames than tables are missing on its
    /// path, or one that no slot can point to. The frame is then untouched
    /// and the page still unmapped.
    pub fn new(
        frame: Frame,
        active_table: &mut ActivePageTable,
        temporary_page: &mut TemporaryPage,
    ) -> (result: Result<InactivePageTable, MapError>)
        requires
            old(active_table).wf(),
            old(active_table)@.layered(),
            frame.number < POINTABLE_LIMIT,
            old(temporary_page).page().number < 0x10_0000_0000_0000,
            old(temporary_page).page().p4_index() != 511,
            old(active_table)@.mappable(old(active_table)@.root(), old(temporary_page).page()),
            old(active_table)@.reserves(old(temporary_page).free_frames()),
            old(active_table)@.unused(frame.number as int),
            !old(temporary_page).free_frames().contains(frame.number as int),
        ensures
            final(active_table).extends(old(active_table)),
            final(temporary_page).page() == old(temporary_page).page(),
            final(temporary_page).free_frames().subset_of(old(temporary_page).free_frames()),
            final(active_table).wf(),
            final(active_table)@.layered(),
            final(active_table)@.cr3 == old(active_table)@.cr3,
            result matches Err(error) ==> error != MapError::PageInUse,
            final(active_table)@.reserves(final(temporary_page).free_frames()),
            old(active_table)@.kept_by(final(active_table)@),
            forall|x: int|
                #![trigger final(active_table)@.idle(x)]
                old(active_table)@.idle(x) && !old(temporary_page).free_frames().contains(x)
                    ==> final(active_table)@.idle(x),
            forall|x: int, s: int|
                word_present(old(active_table)@.entry(x, s))
                    && !old(temporary_page).free_frames().contains(x) && x != frame.number
                    ==> #[trigger] final(active_table)@.entry(x, s)
                        == old(active_table)@.entry(x, s),
            old(active_table)@.p1_frame(
                old(active_table)@.root(),
                old(temporary_page).page(),
            ).is_some() ==> result.is_ok(),
            affords(
                old(temporary_page).free_frames(),
                old(active_table)@.missing(old(active_table)@.root(), old(temporary_page).page()),
            ) ==> result.is_ok(),
            result matches Err(error) ==> (error == MapError::OutOfFrames ==> !offers(
                old(temporary_page).free_frames(),
                old(active_table)@.missing(old(active_table)@.root(), old(temporary_page).page()),
            )) && (error == MapError::FrameOutOfRange ==> !pointable(
                old(temporary_page).free_frames(),
            )),
            result.is_err() ==> old(active_table)@.extended_by(
                final(active_table)@,
                old(temporary_page).page(),
                old(temporary_page).free_frames(),
            ) && final(active_table)@.mappable(
                final(active_table)@.root(),
                old(temporary_page).page(),
            ) && final(active_table)@.unused(frame.number as int),
            result matches Ok(table) ==> forall|s: int|
                0 <= s < 511 ==> #[trigger] final(active_table)@.entry(frame.number as int, s) == 0,
            result.is_ok() ==> forall|q: Page|
                q.p4_index() != 511
                    ==> #[trigger] final(active_table)@.translate_page(q)
                        == old(active_table)@.translate_page(q),
            result matches Ok(table) ==> table.frame() == frame && table.wf(final(active_table)@)
                && final(active_table)@.mappable(
                final(active_table)@.root(),
                old(temporary_page).page(),
            ) && final(active_table)@.p1_frame(
                final(active_table)@.root(),
                old(temporary_page).page(),
            ).is_some() && final(active_table)@ == old(active_table)@.prepared(
                old(active_table)@.root(),
                old(temporary_page).page(),
                final(active_table)@.p3_frame(
                    final(active_table)@.root(),
                    old(temporary_page).page(),
                ).unwrap(),
                final(active_table)@.p2_frame(
                    final(active_table)@.root(),
                    old(temporary_page).page(),
                ).unwrap(),
                final(active_table)@.p1_frame(
                    final(active_table)@.root(),
                    old(temporary_page).page(),
                ).unwrap(),
            ).founded(frame.number as int).flush(
                Flush::Page((old(temporary_page).page().number * 4096) as u64),
            ),
    {
        let ghost m0 = active_table@;
        let ghost page = temporary_page.page();
        let ghost free0 = temporary_page.free_frames();
        let ghost f = frame.number as int;
        let table = match temporary_page.map_table_frame(frame, active_table) {
            Ok(table) => table,
            Err(error) => {
                proof {
                    reveal(MachineView::extended_by);
                }
                return Err(error);
            },
        };
        let ghost m1 = active_table@;
        proof {
            lemma_link_to(f);
            lemma_space_founded(m0, m1, page, free0, f);
            lemma_space_left(m0, m1, page, free0, f);
        }
        table.zero(active_table.deref_mut().machine_mut());
        proof {
            lemma_outside_change(m1, active_table@, f);
        }
        let mut entry = table.index(active_table.deref().machine(), 511);
        entry.set(frame, EntryFlags::table_link());
        table.store(active_table.deref_mut().machine_mut(), 511, entry);
        proof {
            assert(active_table@ == m1.founded(f));
            lemma_founded(m1, f);
            assert(m1.reserves(temporary_page.free_frames()));
            assert(active_table@.reserves(temporary_page.free_frames()));
        }
        temporary_page.unmap(active_table);
        assert(active_table@ == founded_and_left(m1, page, f));
        Ok(InactivePageTable { p4_frame: frame })
    }
}

/// The number of the page that is kept as the temporary page while the
/// kernel is remapped.
pub const TEMPORARY_PAGE_NUMBER: u64 = 0xcafebabe;

/// Builds a new address space that maps every loaded section of the kernel
/// onto itself, as writeable, and makes it the active one. Returns the
/// address space that was active until then.
///
/// The frames for the new top-level table, for the tables below it and for
/// the path to the temporary page are taken from the allocator. Fails with
/// `PageInUse` where the temporary page cannot be mapped or two sections
/// hold the same frame, with `OutOfFrames` where the allocator is used up,
/// and with `FrameOutOfRange` where it hands out a frame that no slot can
/// point to. The address space that was active stays active then. On
/// success the table-base register holds the start address of the new
/// top-level table.
pub fn remap_the_kernel<A: FrameAllocator>(
    allocator: &mut A,
    active_table: &mut ActivePageTable,
    sections: &Vec<KernelSection>,
) -> (result: Result<InactivePageTable, MapError>)
    requires
        old(active_table).wf(),
        old(active_table)@.layered(),
        old(active_table)@.reserves(old(allocator).free_frames()),
        forall|i: int| 0 <= i < sections@.len() ==> (#[trigger] sections@[i]).wf(),
    ensures
        final(active_table).extends(old(active_table)),
        final(allocator).free_frames().subset_of(old(allocator).free_frames()),
        final(active_table)@.recursive(),
        final(active_table)@.root() == final(active_table)@.active(),
        result.is_err() ==> final(active_table)@.cr3 == old(active_table)@.cr3,
        !old(active_table)@.mappable(
            old(active_table)@.root(),
            Page { number: TEMPORARY_PAGE_NUMBER },
        ) ==> result == Err::<InactivePageTable, MapError>(MapError::PageInUse),
        result.is_ok() ==> !overlapping(sections@),
        result.is_ok() ==> final(active_table)@.cr3 == final(active_table)@.active() * 4096,
        result matches Err(error) ==> (error == MapError::OutOfFrames ==> final(allocator).free_frames() == Set::<int>::empty()) && (error == MapError::FrameOutOfRange
            ==> !pointable(old(allocator).free_frames())),
        old(active_table)@.mappable(
            old(active_table)@.root(),
            Page { number: TEMPORARY_PAGE_NUMBER },
        ) && !overlapping(sections@) && pointable(old(allocator).free_frames()) && final(allocator).free_frames() != Set::<int>::empty() ==> result.is_ok(),
        result matches Err(error) ==> (error == MapError::PageInUse ==> overlapping(sections@)
            || !old(active_table)@.mappable(
            old(active_table)@.root(),
            Page { number: TEMPORARY_PAGE_NUMBER },
        )),
        result.is_err() ==> forall|q: Page|
            q.p4_index() != 511 && (#[trigger] old(active_table)@.translate_page(q)).is_some()
                ==> final(active_table)@.translate_page(q) == old(active_table)@.translate_page(q),
        result matches Ok(old_table) ==> old_table.frame().number == old(active_table)@.active()
            && old_table.wf(final(active_table)@) && old(allocator).free_frames().contains(
            final(active_table)@.active(),
        ) && sections_mapped(final(active_table)@, sections@, sections@.len() as int),
        result.is_ok() ==> forall|i: int, frame: int|
            0 <= i < sections@.len() && (#[trigger] sections@[i].holds(frame))
                ==> final(active_table)@.translate_page(Page { number: frame as u64 })
                    == Some(frame),
        result.is_ok() ==> forall|q: Page|
            q.p4_index() != 511 && (#[trigger] final(active_table)@.translate_page(q)).is_some()
                ==> in_sections(sections@, sections@.len() as int, q),
        result.is_ok() ==> forall|q: Page|
            q.p4_index() != 511 ==> #[trigger] final(active_table)@.translate_page_from(
                old(active_table)@.active(),
                q,
            ) == old(active_table)@.translate_page(q),
{
    let ghost s0 = active_table@;
    let ghost free0 = allocator.free_frames();
    let mut temporary_page = TemporaryPage::new(Page { number: TEMPORARY_PAGE_NUMBER }, allocator);
    let ghost page = temporary_page.page();
    proof {
        assert((0xcafebabeu64 >> 27) & 0o777 == 25) by (bit_vector);
        lemma_same_memory(s0, s0);
    }
    if !active_table.deref().can_map(temporary_page.page()) {
        return Err(MapError::PageInUse);
    }
    let ghost spared = allocator.free_frames();
    let frame = match allocator.allocate_frame() {
        Some(frame) => frame,
        None => {
            return Err(MapError::OutOfFrames);
        },
    };
    if frame.number >= POINTABLE_LIMIT {
        proof {
            assert(free0.contains(frame.number as int));
        }
        return Err(MapError::FrameOutOfRange);
    }
    let ghost own = allocator.free_frames();
    let ghost target = frame.number as int;
    let ghost held = temporary_page.free_frames();
    let mut new_table = match InactivePageTable::new(frame, active_table, &mut temporary_page) {
        Ok(table) => table,
        Err(error) => {
            proof {
                // with fewer than three frames for the temporary page, none
                // would have been left for the new table
                assert(offers(held, 3) <==> offers(free0, 3));
                assert(spared.contains(frame.number as int));
                assert(held.subset_of(free0));
            }
            return Err(error);
        },
    };
    let ghost s1 = active_table@;
    let ghost kept = temporary_page.free_frames();
    proof {
        assert(s1.reserves(own)) by {
            assert forall|g: int| #[trigger] own.contains(g) implies s1.unused(g) by {
                assert(s0.unused(g));
                assert(s1.idle(g));
            }
        }
        assert(s1.idle(target));
        assert(apart(s1, target, own));
    }
    let f = |mapper: &mut Mapper, inner: &mut A| -> (outcome: Result<(), MapError>)
        requires
            old(mapper).wf(),
            old(mapper)@.layered(),
            old(mapper)@.unshared(),
            old(mapper)@.reserves(old(inner).free_frames()),
        ensures
            final(mapper).wf(),
            final(mapper).extends(old(mapper)),
            final(mapper)@.layered(),
            final(inner).free_frames().subset_of(old(inner).free_frames()),
            old(mapper)@.grown_by(final(mapper)@, old(inner).free_frames()),
            outcome.is_ok() ==> sections_mapped(final(mapper)@, sections@, sections@.len() as int),
            outcome.is_ok() ==> !overlapping(sections@),
            outcome == Err::<(), MapError>(MapError::OutOfFrames) ==> final(inner).free_frames()
                == Set::<int>::empty(),
            outcome == Err::<(), MapError>(MapError::FrameOutOfRange) ==> !pointable(
                old(inner).free_frames(),
            ),
            only_sections(old(mapper)@, final(mapper)@, sections@, sections@.len() as int),
            outcome == Err::<(), MapError>(MapError::PageInUse) ==> overlapping(sections@) || blocked(
                old(mapper)@,
                sections@,
            ),
        { map_sections(mapper, sections, inner) };
    proof {
        assert forall|mapper: &mut Mapper, inner: &mut A|
            entered(s1, mapper@, page, kept, target) && *inner == *allocator implies call_requires(
            f,
            (mapper, inner),
        ) by {
            lemma_entered_empty(s1, mapper@, page, kept, target, own);
        }
        assert forall|mapper: &mut Mapper, inner: &mut A, outcome: Result<(), MapError>|
            entered(s1, mapper@, page, kept, target) && *inner == *allocator && call_ensures(
                f,
                (mapper, inner),
                outcome,
            ) implies final(mapper)@.cr3 == mapper@.cr3 && mapper@.same_walk(
            final(mapper)@,
            mapper@.active(),
            page,
        ) by {
            lemma_entered_empty(s1, mapper@, page, kept, target, own);
            lemma_window_kept(mapper@, final(mapper)@, page, own);
        }
    }
    let ghost lent = *allocator;
    let ghost entering = *active_table;
    let outcome = match active_table.with(&mut new_table, &mut temporary_page, allocator, f) {
        Ok(outcome) => outcome,
        Err(error) => {
            proof {
                lemma_extended_keeps(s1, active_table@, page, kept);
                assert forall|q: Page|
                    q.p4_index() != 511 && (#[trigger] s0.translate_page(q)).is_some() implies active_table@.translate_page(
                    q,
                ) == s0.translate_page(q) by {
                    assert(s1.translate_page(q) == s0.translate_page(q));
                }
            }
            return Err(error);
        },
    };
    let ghost s2 = active_table@;
    proof {
        let (mapper, inner) = choose|mapper: &mut Mapper, inner: &mut A|
            #![trigger call_ensures(f, (mapper, inner), outcome)]
            entered(s1, mapper@, page, kept, target) && *inner == lent && call_ensures(
                f,
                (mapper, inner),
                outcome,
            ) && *final(inner) == *allocator && s2 == left(final(mapper)@, page) && mapper.held().extends(
                &entering.held(),
            ) && active_table.held().extends(&final(mapper).held());
        lemma_sections_left(s1, mapper@, final(mapper)@, page, kept, target, own, sections@);
        assert forall|q: Page| q.p4_index() != 511 implies #[trigger] s2.translate_page(q)
            == s0.translate_page(q) by {
            assert(s1.translate_page(q) == s0.translate_page(q));
        }
    }
    match outcome {
        Ok(()) => {},
        Err(error) => {
            proof {
                assert forall|q: Page|
                    q.p4_index() != 511 && (#[trigger] s0.translate_page(q)).is_some() implies s2.translate_page(
                    q,
                ) == s0.translate_page(q) by {
                    assert(s2.translate_page(q) == s0.translate_page(q));
                }
            }
            return Err(error);
        },
    }
    let old_table = active_table.switch(new_table);
    proof {
        lemma_sections_switched(s0, s2, active_table@, target, sections@);
    }
    Ok(old_table)
}

} // verus!
