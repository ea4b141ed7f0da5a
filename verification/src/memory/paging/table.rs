//! Page tables of the four levels, reached through the recursive mapping.
//!
//! A table is known by the virtual address at which the machine reaches it.
//! The level of a table is part of its type, so that only tables above the
//! leaf level can be asked for a child table.

use vstd::prelude::*;
use core::marker::PhantomData;
use crate::machine::lemmas::{
    lemma_grown_links,
    lemma_grown_reserves,
    lemma_table_frame,
    lemma_table_prefix,
};
use crate::machine::{Machine, MachineView};
use crate::memory::paging::entry::{
    lemma_link_to,
    lemma_word_basics,
    word_huge,
    word_links,
    word_present,
    Entry,
    EntryFlags,
    POINTABLE_LIMIT,
};
use crate::memory::paging::Page;
use crate::memory::{affords, pointable, Frame, FrameAllocator, MapError};

verus! {

/// The virtual address at which the recursive mapping shows the top-level
/// table: all four indices are 511.
pub const P4_ADDRESS: u64 = 0xffff_ffff_ffff_f000;

/// A level of the table hierarchy, 4 for the top-level table down to 1 for
/// the leaf tables.
pub trait TableLevel {
    spec fn level() -> nat;
}

pub enum Level4 {
    Marker,
}

pub enum Level3 {
    Marker,
}

pub enum Level2 {
    Marker,
}

pub enum Level1 {
    Marker,
}

impl TableLevel for Level4 {
    open spec fn level() -> nat {
        4
    }
}

impl TableLevel for Level3 {
    open spec fn level() -> nat {
        3
    }
}

impl TableLevel for Level2 {
    open spec fn level() -> nat {
        2
    }
}

impl TableLevel for Level1 {
    open spec fn level() -> nat {
        1
    }
}

/// A level whose tables have child tables, one level below.
pub trait HierarchicalLevel: TableLevel {
    type NextLevel: TableLevel;

    proof fn lemma_next_level()
        ensures
            2 <= Self::level() <= 4,
            <Self::NextLevel as TableLevel>::level() + 1 == Self::level(),
    ;
}

impl HierarchicalLevel for Level4 {
    type NextLevel = Level3;

    proof fn lemma_next_level() {
    }
}

impl HierarchicalLevel for Level3 {
    type NextLevel = Level2;

    proof fn lemma_next_level() {
    }
}

impl HierarchicalLevel for Level2 {
    type NextLevel = Level1;

    proof fn lemma_next_level() {
    }
}

/// Whether `address` is the address of a table of level `level` under the
/// recursive mapping: aligned to a page, and with index 511 in as many
/// leading positions as the level says. A leaf table may lie anywhere.
pub open spec fn is_table_address(address: u64, level: nat) -> bool {
    &&& address & 0xfff == 0
    &&& level == 4 ==> address == P4_ADDRESS
    &&& level == 3 ==> address >> 21 == 0x7ff_ffff_ffff
    &&& level == 2 ==> address >> 30 == 0x3_ffff_ffff
}

/// The address of the child table behind slot `index` of the table at
/// `address`: the indices move up by one position and `index` comes last.
pub open spec fn next_address(address: u64, index: usize) -> u64 {
    (address << 9) | ((index as u64) << 12)
}

/// The address of the child table behind slot `index` of the table at
/// `table_address`, under the recursive mapping.
pub fn child_table_address(table_address: u64, index: usize) -> (address: u64)
    requires
        index < 512,
    ensures
        address == next_address(table_address, index),
{
    (table_address << 9) | ((index as u64) << 12)
}

/// The indices of a child table's address are the last three indices of the
/// parent's address, then the slot. The child's address has the form of its
/// level.
pub proof fn lemma_next_address(address: u64, index: usize, level: nat)
    requires
        2 <= level <= 4,
        is_table_address(address, level),
        index < 512,
    ensures
        is_table_address(next_address(address, index), (level - 1) as nat),
        (Page { number: address / 4096 }).p4_index() == 511,
        (Page { number: address / 4096 }).p3_index() == 511,
        (Page { number: next_address(address, index) / 4096 }).p4_index() == 511,
        (Page { number: next_address(address, index) / 4096 }).p3_index() == (Page {
            number: address / 4096,
        }).p2_index(),
        (Page { number: next_address(address, index) / 4096 }).p2_index() == (Page {
            number: address / 4096,
        }).p1_index(),
        (Page { number: next_address(address, index) / 4096 }).p1_index() == index,
{
    let a: u64 = address;
    let i: u64 = index as u64;
    let n: u64 = (a << 9) | (i << 12);
    assert({
        &&& n & 0xfff == 0
        &&& (a == 0xffff_ffff_ffff_f000u64 ==> n >> 21 == 0x7ff_ffff_ffffu64)
        &&& (a >> 21 == 0x7ff_ffff_ffffu64 ==> n >> 30 == 0x3_ffff_ffffu64)
        &&& (a == 0xffff_ffff_ffff_f000u64 ==> a >> 30 == 0x3_ffff_ffffu64)
        &&& (a >> 21 == 0x7ff_ffff_ffffu64 ==> a >> 30 == 0x3_ffff_ffffu64)
        &&& ((a / 4096) >> 27) & 0o777 == 511
        &&& ((a / 4096) >> 18) & 0o777 == 511
        &&& ((n / 4096) >> 27) & 0o777 == 511
        &&& ((n / 4096) >> 18) & 0o777 == ((a / 4096) >> 9) & 0o777
        &&& ((n / 4096) >> 9) & 0o777 == ((a / 4096) >> 0) & 0o777
        &&& ((n / 4096) >> 0) & 0o777 == i
    }) by (bit_vector)
        requires
            n == (a << 9) | (i << 12),
            a & 0xfff == 0,
            a >> 30 == 0x3_ffff_ffffu64 || a >> 21 == 0x7ff_ffff_ffffu64 || a
                == 0xffff_ffff_ffff_f000u64,
            i < 512,
    ;
}

/// With the recursive mapping, the address of the top-level table resolves
/// to the root.
pub proof fn lemma_p4_frame(m: MachineView)
    requires
        m.recursive(),
    ensures
        m.table_frame(P4_ADDRESS) == Some(m.root()),
{
    let n: u64 = P4_ADDRESS / 4096;
    assert(n == 0xf_ffff_ffff_ffff);
    assert((0xf_ffff_ffff_ffffu64 >> 27) & 0o777 == 511 && (0xf_ffff_ffff_ffffu64 >> 18) & 0o777
        == 511 && (0xf_ffff_ffff_ffffu64 >> 9) & 0o777 == 511 && (0xf_ffff_ffff_ffffu64 >> 0)
        & 0o777 == 511) by (bit_vector);
}

/// A page table of level `L`, known by the virtual address at which the
/// machine reaches it.
pub struct Table<L: TableLevel> {
    address: u64,
    level: PhantomData<L>,
}

impl<L: TableLevel> Table<L> {
    pub closed spec fn spec_address(&self) -> u64 {
        self.address
    }

    /// The virtual address of the table.
    #[verifier::when_used_as_spec(spec_address)]
    pub fn address(&self) -> (address: u64)
        ensures
            address == self.address(),
    {
        self.address
    }

    /// Whether the address of the table has the form of its level.
    pub open spec fn wf(&self) -> bool {
        is_table_address(self.address(), L::level())
    }

    /// The frame in which the table lies, if the machine reaches it.
    pub open spec fn frame(&self, machine: MachineView) -> Option<int> {
        machine.table_frame(self.address())
    }

    /// Reads slot `index` of the table.
    pub fn index(&self, machine: &Machine, index: usize) -> (entry: Entry)
        requires
            index < 512,
            self.frame(machine@).is_some(),
        ensures
            entry@ == machine@.entry(self.frame(machine@).unwrap(), index as int),
    {
        let frame = machine.resolve(self.address);
        Entry::from_bits(machine.load(frame, index))
    }

    /// Writes `entry` to slot `index` of the table.
    pub fn store(&self, machine: &mut Machine, index: usize, entry: Entry)
        requires
            index < 512,
            self.frame(old(machine)@).is_some(),
        ensures
            final(machine).extends(old(machine)),
            final(machine)@ == old(machine)@.store(
                self.frame(old(machine)@).unwrap(),
                index as int,
                entry@,
            ),
    {
        let frame = machine.resolve(self.address);
        machine.store(frame, index, entry.bits());
    }

    /// Clears all 512 slots of the table.
    pub fn zero(&self, machine: &mut Machine)
        requires
            self.frame(old(machine)@).is_some(),
        ensures
            final(machine).extends(old(machine)),
            final(machine)@ == old(machine)@.zero_frame(self.frame(old(machine)@).unwrap()),
    {
        let frame = machine.resolve(self.address);
        let mut index: usize = 0;
        proof {
            machine.lemma_total();
            assert(machine@.mem =~= old(machine)@.zero_prefix(frame.number as int, 0).mem);
        }
        while index < 512
            invariant
                index <= 512,
                frame.wf(),
                machine@ == old(machine)@.zero_prefix(frame.number as int, index as int),
                machine.extends(old(machine)),
            decreases 512 - index,
        {
            let mut entry = Entry::from_bits(machine.load(frame, index));
            entry.set_unused();
            machine.store(frame, index, entry.bits());
            assert(machine@.mem =~= old(machine)@.zero_prefix(
                frame.number as int,
                index as int + 1,
            ).mem);
            index += 1;
        }
    }
}

impl Table<Level4> {
    /// The top-level table of the active address space, at its recursive
    /// address.
    pub fn p4() -> (table: Table<Level4>)
        ensures
            table.address() == P4_ADDRESS,
            table.wf(),
    {
        assert(0xffff_ffff_ffff_f000u64 & 0xfff == 0) by (bit_vector);
        Table { address: P4_ADDRESS, level: PhantomData }
    }
}

impl Table<Level1> {
    /// The page, seen as a leaf table.
    pub fn at(page: Page) -> (table: Table<Level1>)
        requires
            page.number < 0x10_0000_0000_0000,
        ensures
            table.address() == page.number * 4096,
            table.wf(),
    {
        let number: u64 = page.number;
        assert(((number * 4096) as u64) & 0xfff == 0) by (bit_vector)
            requires
                number < 0x10_0000_0000_0000u64,
        ;
        Table { address: page.start_address(), level: PhantomData }
    }
}

impl<L: HierarchicalLevel> Table<L> {
    /// The address of the child table behind slot `index`, if the slot links
    /// to a table: it is present and maps no huge page.
    pub fn next_table_address(&self, machine: &Machine, index: usize) -> (address: Option<u64>)
        requires
            index < 512,
            self.frame(machine@).is_some(),
        ensures
            address == (if word_links(
                machine@.entry(self.frame(machine@).unwrap(), index as int),
            ) {
                Some(next_address(self.address(), index))
            } else {
                None
            }),
    {
        let entry_flags = self.index(machine, index).flags();
        proof {
            lemma_word_basics(machine@.entry(self.frame(machine@).unwrap(), index as int));
        }
        if entry_flags.contains(EntryFlags::present()) && !entry_flags.contains(
            EntryFlags::huge_page(),
        ) {
            let table_address = self.address;
            Some(child_table_address(table_address, index))
        } else {
            None
        }
    }

    /// The child table behind slot `index`, if the slot links to a table.
    /// Under the recursive mapping the machine reaches that table at the
    /// child's address.
    pub fn next_table(&self, machine: &Machine, index: usize) -> (next: Option<
        Table<L::NextLevel>,
    >)
        requires
            self.wf(),
            index < 512,
            machine@.recursive(),
            self.frame(machine@).is_some(),
        ensures
            next.is_some() == machine@.child(self.frame(machine@).unwrap(), index as int).is_some(),
            next matches Some(table) ==> table.address() == next_address(self.address(), index)
                && table.wf() && table.frame(machine@) == machine@.child(
                self.frame(machine@).unwrap(),
                index as int,
            ),
    {
        proof {
            L::lemma_next_level();
            lemma_next_address(self.address, index, L::level());
            lemma_table_frame(machine@, self.address);
            lemma_table_frame(machine@, next_address(self.address, index));
            lemma_table_prefix(
                machine@,
                (Page { number: self.address / 4096 }).p2_index() as int,
                (Page { number: self.address / 4096 }).p1_index() as int,
            );
        }
        match self.next_table_address(machine, index) {
            Some(address) => Some(Table { address, level: PhantomData }),
            None => None,
        }
    }

    /// As `next_table`, for a caller that goes on to write to the child.
    pub fn next_table_mut(&self, machine: &Machine, index: usize) -> (next: Option<
        Table<L::NextLevel>,
    >)
        requires
            self.wf(),
            index < 512,
            machine@.recursive(),
            self.frame(machine@).is_some(),
        ensures
            next.is_some() == machine@.child(self.frame(machine@).unwrap(), index as int).is_some(),
            next matches Some(table) ==> table.address() == next_address(self.address(), index)
                && table.wf() && table.frame(machine@) == machine@.child(
                self.frame(machine@).unwrap(),
                index as int,
            ),
    {
        self.next_table(machine, index)
    }

    /// Makes `frame` the child table behind the slot `index`, which holds no
    /// present entry, and clears the new table. Without a frame, or with one
    /// that no slot can point to, nothing is changed.
    pub fn install_table(&self, machine: &mut Machine, index: usize, frame: Option<Frame>) -> (next:
        Result<Table<L::NextLevel>, MapError>)
        requires
            self.wf(),
            index < 512,
            old(machine)@.recursive(),
            self.frame(old(machine)@).is_some(),
            !word_present(old(machine)@.entry(self.frame(old(machine)@).unwrap(), index as int)),
            frame matches Some(child) ==> child.number < POINTABLE_LIMIT ==> old(machine)@.unused(
                child.number as int,
            ),
        ensures
            final(machine).extends(old(machine)),
            frame.is_none() ==> next == Err::<Table<L::NextLevel>, MapError>(MapError::OutOfFrames),
            frame matches Some(child) ==> child.number >= POINTABLE_LIMIT ==> next == Err::<
                Table<L::NextLevel>,
                MapError,
            >(MapError::FrameOutOfRange),
            frame matches Some(child) ==> child.number < POINTABLE_LIMIT ==> next.is_ok(),
            next.is_err() ==> final(machine)@ == old(machine)@,
            next matches Ok(table) ==> frame.is_some() && frame.unwrap().number < POINTABLE_LIMIT
                && table.address() == next_address(self.address(), index) && table.wf()
                && table.frame(final(machine)@) == Some(frame.unwrap().number as int)
                && final(machine)@.recursive()
                && final(machine)@ == old(machine)@.grown(
                self.frame(old(machine)@).unwrap(),
                index as int,
                frame.unwrap().number as int,
            ),
    {
        match frame {
            None => Err(MapError::OutOfFrames),
            Some(child) => {
                if child.number >= POINTABLE_LIMIT {
                    return Err(MapError::FrameOutOfRange);
                }
                let ghost before = machine@;
                let ghost parent = self.frame(machine@).unwrap();
                let ghost page = Page { number: self.address / 4096 };
                let mut entry = self.index(machine, index);
                entry.set(child, EntryFlags::table_link());
                self.store(machine, index, entry);
                proof {
                    L::lemma_next_level();
                    lemma_next_address(self.address, index, L::level());
                    lemma_table_frame(before, self.address);
                    lemma_table_prefix(before, page.p2_index() as int, page.p1_index() as int);
                    page.lemma_index_bounds();
                    lemma_link_to(child.number as int);
                    let here = machine@;
                    assert(before.table(511, page.p2_index() as int, page.p1_index() as int) == Some(
                        parent,
                    ));
                    assert(here.recursive());
                    assert(here.table_frame(self.address) == Some(parent));
                    lemma_table_frame(here, self.address);
                    lemma_table_frame(here, next_address(self.address, index));
                    lemma_table_prefix(here, page.p2_index() as int, page.p1_index() as int);
                    assert(here.table_frame(next_address(self.address, index)) == Some(
                        child.number as int,
                    ));
                }
                let next: Table<L::NextLevel> = Table {
                    address: child_table_address(self.address, index),
                    level: PhantomData,
                };
                next.zero(machine);
                proof {
                    lemma_grown_links(
                        before,
                        parent,
                        index as int,
                        child.number as int,
                        511,
                        page.p2_index() as int,
                        page.p1_index() as int,
                    );
                    let after = machine@;
                    assert(after == before.grown(parent, index as int, child.number as int));
                    lemma_table_frame(after, next.address);
                    lemma_table_prefix(after, page.p2_index() as int, page.p1_index() as int);
                    lemma_table_prefix(after, page.p1_index() as int, index as int);
                }
                Ok(next)
            },
        }
    }

    /// The child table behind slot `index`. Where the slot links to none
    /// yet, a frame is taken from the allocator, linked as present and
    /// writeable, and cleared. The slot must not map a huge page.
    ///
    /// Fails, with the machine unchanged, where a table is needed and the
    /// allocator hands out no frame or one that no slot can point to. Where
    /// a frame is taken, it is the only one.
    pub fn next_table_create<A: FrameAllocator>(
        &self,
        machine: &mut Machine,
        index: usize,
        allocator: &mut A,
    ) -> (next: Result<Table<L::NextLevel>, MapError>)
        requires
            self.wf(),
            index < 512,
            old(machine)@.recursive(),
            self.frame(old(machine)@).is_some(),
            !word_huge(old(machine)@.entry(self.frame(old(machine)@).unwrap(), index as int)),
            old(machine)@.reserves(old(allocator).free_frames()),
        ensures
            final(machine).extends(old(machine)),
            final(machine)@.recursive(),
            final(machine)@.reserves(final(allocator).free_frames()),
            final(allocator).free_frames().subset_of(old(allocator).free_frames()),
            old(machine)@.child(self.frame(old(machine)@).unwrap(), index as int).is_some()
                ==> next.is_ok(),
            affords(old(allocator).free_frames(), 1) ==> next.is_ok(),
            next.is_err() ==> final(machine)@ == old(machine)@ && old(machine)@.child(
                self.frame(old(machine)@).unwrap(),
                index as int,
            ).is_none(),
            next == Err::<Table<L::NextLevel>, MapError>(MapError::OutOfFrames) <==> old(machine)@.child(self.frame(old(machine)@).unwrap(), index as int).is_none() && old(allocator).free_frames() == Set::<int>::empty(),
            next == Err::<Table<L::NextLevel>, MapError>(MapError::OutOfFrames) ==> final(allocator).free_frames() == Set::<int>::empty(),
            next == Err::<Table<L::NextLevel>, MapError>(MapError::FrameOutOfRange) ==> !pointable(
                old(allocator).free_frames(),
            ),
            next matches Err(error) ==> error != MapError::PageInUse,
            next matches Ok(table) ==> table.address() == next_address(self.address(), index)
                && table.wf() && table.frame(final(machine)@).is_some() && 0 <= table.frame(
                final(machine)@,
            ).unwrap() < POINTABLE_LIMIT,
            next matches Ok(table) ==> (old(machine)@.child(
                self.frame(old(machine)@).unwrap(),
                index as int,
            ) matches Some(child) ==> table.frame(final(machine)@) == Some(child) && final(machine)@
                == old(machine)@ && final(allocator).free_frames() == old(allocator).free_frames()),
            next matches Ok(table) ==> (old(machine)@.child(
                self.frame(old(machine)@).unwrap(),
                index as int,
            ).is_none() ==> old(allocator).free_frames().contains(
                table.frame(final(machine)@).unwrap(),
            ) && !final(allocator).free_frames().contains(table.frame(final(machine)@).unwrap())
                && final(allocator).free_frames() == old(allocator).free_frames().remove(
                table.frame(final(machine)@).unwrap(),
            ) && final(machine)@ == old(machine)@.grown(
                self.frame(old(machine)@).unwrap(),
                index as int,
                table.frame(final(machine)@).unwrap(),
            )),
    {
        proof {
            lemma_word_basics(machine@.entry(self.frame(machine@).unwrap(), index as int));
        }
        match self.next_table_mut(machine, index) {
            Some(table) => Ok(table),
            None => {
                let frame = allocator.allocate_frame();
                proof {
                    let page = Page { number: self.address / 4096 };
                    L::lemma_next_level();
                    lemma_next_address(self.address, index, L::level());
                    lemma_table_frame(machine@, self.address);
                    page.lemma_index_bounds();
                    if frame.is_some() && frame.unwrap().number < POINTABLE_LIMIT {
                        lemma_grown_reserves(
                            machine@,
                            self.frame(machine@).unwrap(),
                            index as int,
                            frame.unwrap().number as int,
                            old(allocator).free_frames(),
                            511,
                            page.p2_index() as int,
                            page.p1_index() as int,
                        );
                    }
                }
                proof {
                    assert(final(allocator).free_frames().subset_of(old(allocator).free_frames()));
                    if frame.is_some() && frame.unwrap().number < POINTABLE_LIMIT {
                        assert(final(allocator).free_frames().subset_of(
                            old(allocator).free_frames().remove(frame.unwrap().number as int),
                        ));
                    }
                }
                self.install_table(machine, index, frame)
            },
        }
    }
}

} // verus!
