use degrados::machine::{Flush, Machine, Operation};
use degrados::memory::area_frame_allocator::{AreaFrameAllocator, MemoryArea};
use degrados::memory::paging::entry::{
    Entry, EntryFlags, ACCESSED, ALL_FLAGS, HUGE_PAGE, NO_EXECUTE, PRESENT, WRITEABLE,
};
use degrados::memory::paging::kernel::{map_sections, KernelSection};
use degrados::memory::paging::mapper::Mapper;
use degrados::memory::paging::table::{child_table_address, Level1, Level4, Table, P4_ADDRESS};
use degrados::memory::paging::temporary_page::{TemporaryPage, TinyAllocator};
use degrados::memory::paging::{
    is_canonical_address, remap_the_kernel, ActivePageTable, InactivePageTable, Page,
    TEMPORARY_PAGE_NUMBER,
};
use degrados::memory::{Frame, FrameAllocator, MapError, PAGE_SIZE};

const GARBAGE: u64 = 0xdead_beef_dead_beef;

/// An allocator of the frames from `first` to `last`.
fn frames(first: u64, last: u64) -> AreaFrameAllocator {
    let area = MemoryArea { base_addr: first * 4096, length: (last - first + 1) * 4096 };
    // the kernel and the boot information lie below the area
    AreaFrameAllocator::new(0, 0, 0, 0, vec![area])
}

fn link(machine: &mut Machine, table: u64, index: usize, target: u64, flags: EntryFlags) {
    let mut entry = Entry::from_bits(0);
    entry.set(Frame { number: target }, flags);
    machine.store(Frame { number: table }, index, entry.bits());
}

fn slot(machine: &Machine, table: u64, index: usize) -> u64 {
    machine.load(Frame { number: table }, index)
}

/// The tables that the boot code leaves: the first GiB mapped onto itself by
/// 512 huge pages of 2 MiB, and the top-level table mapped onto itself.
/// The top-level table is in frame 1, the upper table in frame 2, the middle
/// table in frame 3.
fn boot_machine(fill: u64) -> Machine {
    let mut machine = Machine::new(fill);
    let (p4, p3, p2) = (1u64, 2u64, 3u64);
    for table in [p4, p3, p2] {
        for index in 0..512 {
            machine.store(Frame { number: table }, index, 0);
        }
    }
    link(&mut machine, p4, 0, p3, EntryFlags::table_link());
    link(&mut machine, p4, 511, p4, EntryFlags::table_link());
    link(&mut machine, p3, 0, p2, EntryFlags::table_link());
    for index in 0..512u64 {
        link(
            &mut machine,
            p2,
            index as usize,
            index * 512,
            EntryFlags::table_link() | EntryFlags::huge_page(),
        );
    }
    machine.cr3_write(p4 * 4096);
    machine
}

#[test]
fn boot_mappings_resolve() {
    let page_table = Mapper::new(boot_machine(GARBAGE));
    assert_eq!(page_table.translate(0), Some(0));
    assert_eq!(page_table.translate(4096), Some(4096));
    assert_eq!(page_table.translate(512 * 4096), Some(512 * 4096));
    assert_eq!(page_table.translate(300 * 512 * 4096), Some(300 * 512 * 4096));
    assert_eq!(page_table.translate(512 * 512 * 4096), None);
    assert_eq!(page_table.translate(512 * 512 * 4096 - 1), Some(512 * 512 * 4096 - 1));
}

#[test]
fn map_to_then_unmap() {
    let mut page_table = Mapper::new(boot_machine(GARBAGE));
    let mut allocator = frames(1000, 1009);
    let addr = 42 * 512 * 512 * 4096;
    let page = Page::containing_address(addr);
    let frame = allocator.allocate_frame().expect("no more frames");
    assert_eq!(frame, Frame { number: 1000 });
    assert_eq!(page_table.translate(addr), None);
    assert!(page_table.can_map(page));
    assert_eq!(page_table.map_to(page, frame, EntryFlags::empty(), &mut allocator), Ok(()));
    assert_eq!(page_table.translate(addr), Some(1000 * 4096));
    assert_eq!(page_table.translate(addr + 123), Some(1000 * 4096 + 123));
    assert!(!page_table.can_map(page));
    assert!(page_table.can_unmap(page));
    // a page inside a huge page is mapped, but not by a leaf slot
    assert!(!page_table.can_unmap(Page::containing_address(4096)));
    assert!(!page_table.can_unmap(Page::containing_address(43 * 512 * 512 * 4096)));
    // the page of the top-level table carries the recursive mapping
    assert!(!page_table.can_unmap(Page::containing_address(P4_ADDRESS)));
    // two tables were needed: the middle and the leaf table
    assert_eq!(allocator.allocate_frame(), Some(Frame { number: 1003 }));
    page_table.unmap(Page::containing_address(addr), &mut allocator);
    assert_eq!(page_table.translate(addr), None);
    assert_eq!(page_table.machine().flushes().as_slice(), &[Flush::Page(addr)]);
    // nothing went back to the allocator
    assert_eq!(allocator.allocate_frame(), Some(Frame { number: 1004 }));
}

#[test]
fn map_to_sets_the_present_flag_and_keeps_the_flags() {
    let mut page_table = Mapper::new(boot_machine(GARBAGE));
    let mut allocator = frames(1000, 1009);
    let page = Page::containing_address(42 * 512 * 512 * 4096);
    let flags = EntryFlags::from_bits_truncate(NO_EXECUTE | ACCESSED);
    assert_eq!(page_table.map_to(page, Frame { number: 77 }, flags, &mut allocator), Ok(()));
    // frame 1000 is the middle table, frame 1001 the leaf table
    let leaf = slot(page_table.machine(), 1001, 0);
    assert_eq!(leaf, 77 * 4096 | NO_EXECUTE | ACCESSED | PRESENT);
    assert_eq!(slot(page_table.machine(), 2, 42), 1000 * 4096 | PRESENT | WRITEABLE);
    assert_eq!(slot(page_table.machine(), 1000, 0), 1001 * 4096 | PRESENT | WRITEABLE);
    // the new tables were cleared, whatever the frames held
    assert_eq!(slot(page_table.machine(), 1000, 1), 0);
    assert_eq!(slot(page_table.machine(), 1001, 511), 0);
    // a frame that is no table still holds what it held
    assert_eq!(slot(page_table.machine(), 1002, 0), GARBAGE);
}

#[test]
fn map_to_keeps_the_other_mappings() {
    let mut page_table = Mapper::new(boot_machine(GARBAGE));
    let mut allocator = frames(1000, 1009);
    let first = Page::containing_address(42 * 512 * 512 * 4096);
    let second = Page::containing_address(42 * 512 * 512 * 4096 + 4096);
    assert_eq!(page_table.map_to(first, Frame { number: 7 }, EntryFlags::empty(), &mut allocator), Ok(()));
    assert_eq!(page_table.map_to(second, Frame { number: 8 }, EntryFlags::empty(), &mut allocator), Ok(()));
    assert_eq!(page_table.translate_page(first), Some(Frame { number: 7 }));
    assert_eq!(page_table.translate_page(second), Some(Frame { number: 8 }));
    assert_eq!(page_table.translate(4096), Some(4096));
    // the second mapping found its tables: only two frames were taken
    assert_eq!(allocator.allocate_frame(), Some(Frame { number: 1002 }));
}

#[test]
fn map_to_without_frames_fails() {
    let mut page_table = Mapper::new(boot_machine(0));
    let mut allocator = frames(1000, 1000);
    let page = Page::containing_address(42 * 512 * 512 * 4096);
    let result = page_table.map_to(page, Frame { number: 7 }, EntryFlags::empty(), &mut allocator);
    assert_eq!(result, Err(MapError::OutOfFrames));
    assert_eq!(page_table.translate(42 * 512 * 512 * 4096), None);
}

#[test]
fn map_to_with_a_frame_out_of_range_fails() {
    let mut page_table = Mapper::new(boot_machine(0));
    // frames from 2^40 on cannot be pointed to by a slot
    let mut allocator = frames(1 << 40, (1 << 40) + 9);
    let page = Page::containing_address(42 * 512 * 512 * 4096);
    let result = page_table.map_to(page, Frame { number: 7 }, EntryFlags::empty(), &mut allocator);
    assert_eq!(result, Err(MapError::FrameOutOfRange));
    assert_eq!(page_table.translate(42 * 512 * 512 * 4096), None);
}

#[test]
fn map_takes_the_frame_from_the_allocator() {
    let mut page_table = Mapper::new(boot_machine(GARBAGE));
    let mut allocator = frames(1000, 1009);
    let page = Page::containing_address(5 * 512 * 512 * 4096);
    assert_eq!(page_table.map(page, EntryFlags::writeable(), &mut allocator), Ok(()));
    assert_eq!(page_table.translate_page(page), Some(Frame { number: 1000 }));
    let mut empty = frames(2000, 2000);
    assert_eq!(empty.allocate_frame(), Some(Frame { number: 2000 }));
    let other = Page::containing_address(6 * 512 * 512 * 4096);
    assert_eq!(page_table.map(other, EntryFlags::writeable(), &mut empty), Err(MapError::OutOfFrames));
    assert_eq!(
        page_table.map_allocated(other, None, EntryFlags::writeable(), &mut empty),
        Err(MapError::OutOfFrames)
    );
    assert_eq!(
        page_table.map_allocated(
            other,
            Some(Frame { number: 1 << 40 }),
            EntryFlags::writeable(),
            &mut allocator
        ),
        Err(MapError::FrameOutOfRange)
    );
}

#[test]
fn identity_map_maps_the_page_of_the_same_number() {
    let mut page_table = Mapper::new(boot_machine(GARBAGE));
    let mut allocator = frames(1000, 1009);
    let frame = Frame { number: 3 * 512 * 512 + 17 };
    assert_eq!(page_table.identity_map(frame, EntryFlags::writeable(), &mut allocator), Ok(()));
    let address = frame.number * PAGE_SIZE;
    assert_eq!(page_table.translate(address + 5), Some(address + 5));
}

#[test]
fn huge_pages_are_decoded() {
    let mut machine = boot_machine(GARBAGE);
    // a page of 1 GiB behind the second slot of the upper table
    let start = 7 * 512 * 512;
    link(&mut machine, 2, 1, start, EntryFlags::table_link() | EntryFlags::huge_page());
    let page_table = Mapper::new(machine);
    let address = (1 << 30) + (300 * 512 + 45) * 4096 + 0x123;
    assert_eq!(page_table.translate(address), Some(start * 4096 + (300 * 512 + 45) * 4096 + 0x123));
    assert_eq!(
        page_table.translate_page(Page::containing_address(address)),
        Some(Frame { number: start + 300 * 512 + 45 })
    );
    // a page of 2 MiB behind slot 9 of the middle table
    let address = (9 * 512 + 45) * 4096 + 0x10;
    assert_eq!(page_table.translate(address), Some((9 * 512 + 45) * 4096 + 0x10));
    // a page inside a huge page cannot be mapped
    assert!(!page_table.can_map(Page::containing_address(address)));
}

#[test]
fn frames_and_pages() {
    assert_eq!(Frame::containing_address(0x2fff), Frame { number: 2 });
    assert_eq!(Frame::containing_address(0x3000), Frame { number: 3 });
    assert_eq!(Frame { number: 3 }.start_address(), 0x3000);
    let mut range = Frame::range_inclusive(Frame { number: 5 }, Frame { number: 7 });
    assert_eq!(range.next(), Some(Frame { number: 5 }));
    assert_eq!(range.next(), Some(Frame { number: 6 }));
    assert_eq!(range.next(), Some(Frame { number: 7 }));
    assert_eq!(range.next(), None);
    assert_eq!(range.next(), None);
    let mut empty = Frame::range_inclusive(Frame { number: 5 }, Frame { number: 4 });
    assert_eq!(empty.next(), None);

    let address = (1 << 39) * 17 + (1 << 30) * 300 + (1 << 21) * 511 + (1 << 12) * 2 + 99;
    let page = Page::containing_address(address);
    assert_eq!(page.number, address / 4096);
    assert_eq!(page.start_address(), address - 99);
    assert_eq!(page.p4_index(), 17);
    assert_eq!(page.p3_index(), 300);
    assert_eq!(page.p2_index(), 511);
    assert_eq!(page.p1_index(), 2);
    let high = Page::containing_address(0xffff_8000_0000_0000);
    assert_eq!(high.p4_index(), 256);
    assert_eq!(high.start_address(), 0xffff_8000_0000_0000);
    let temporary = Page { number: TEMPORARY_PAGE_NUMBER };
    assert_eq!(temporary.p4_index(), 25);
}

#[test]
fn entries_and_flags() {
    let mut entry = Entry::from_bits(0);
    assert!(entry.is_unused());
    assert_eq!(entry.pointed_frame(), None);
    entry.set(Frame { number: 0x12345 }, EntryFlags::present() | EntryFlags::writeable());
    assert_eq!(entry.bits(), 0x12345 << 12 | 3);
    assert!(!entry.is_unused());
    assert_eq!(entry.pointed_frame(), Some(Frame { number: 0x12345 }));
    assert_eq!(entry.flags(), EntryFlags::table_link());
    assert_eq!(entry.flags().bits(), PRESENT | WRITEABLE);
    // a slot that is not present points nowhere
    entry.set(Frame { number: 0x12345 }, EntryFlags::writeable());
    assert_eq!(entry.pointed_frame(), None);
    assert!(!entry.is_unused());
    entry.set_unused();
    assert!(entry.is_unused());
    assert_eq!(entry.bits(), 0);
    // the frame is read from bits 12 to 51
    let entry = Entry::from_bits(u64::MAX);
    assert_eq!(entry.pointed_frame(), Some(Frame { number: (1 << 40) - 1 }));
    assert_eq!(entry.flags().bits(), ALL_FLAGS);

    let mut flags = EntryFlags::empty();
    assert!(flags.is_empty());
    assert_eq!(flags.bits(), 0);
    flags.insert(EntryFlags::huge_page());
    flags.insert(EntryFlags::present());
    assert_eq!(flags.bits(), HUGE_PAGE | PRESENT);
    assert!(flags.contains(EntryFlags::huge_page()));
    assert!(!flags.contains(EntryFlags::table_link()));
    assert!(flags.intersects(EntryFlags::table_link()));
    assert!(!flags.intersects(EntryFlags::writeable()));
    flags.remove(EntryFlags::huge_page());
    assert_eq!(flags, EntryFlags::present());
    assert_eq!(EntryFlags::all().bits(), ALL_FLAGS);
    assert_eq!(EntryFlags::from_bits(PRESENT | NO_EXECUTE).map(|f| f.bits()), Some(PRESENT | NO_EXECUTE));
    assert_eq!(EntryFlags::from_bits(1 << 12), None);
    assert_eq!(EntryFlags::from_bits_truncate((1 << 12) | WRITEABLE).bits(), WRITEABLE);
    assert_eq!(EntryFlags::present().union(EntryFlags::writeable()).bits(), 3);
}

#[test]
fn tables_are_reached_through_the_recursive_mapping() {
    let mut machine = boot_machine(GARBAGE);
    let p4: Table<Level4> = Table::p4();
    assert_eq!(p4.address(), P4_ADDRESS);
    assert_eq!(p4.address(), 0o177777_777_777_777_777_0000);
    assert_eq!(p4.index(&machine, 511).pointed_frame(), Some(Frame { number: 1 }));
    assert_eq!(p4.next_table_address(&machine, 0), Some(0o177777_777_777_777_000_0000));
    assert_eq!(p4.next_table_address(&machine, 1), None);
    let p3 = p4.next_table(&machine, 0).expect("the upper table is there");
    assert_eq!(p3.address(), 0o177777_777_777_777_000_0000);
    assert_eq!(machine.resolve(p3.address()), Frame { number: 2 });
    let p2 = p3.next_table_mut(&machine, 0).expect("the middle table is there");
    assert_eq!(p2.address(), 0o177777_777_777_000_000_0000);
    assert_eq!(machine.resolve(p2.address()), Frame { number: 3 });
    // behind a huge page there is no table
    assert!(p2.next_table(&machine, 5).is_none());
    assert_eq!(p2.next_table_address(&machine, 5), None);
    assert!(p3.next_table(&machine, 7).is_none());
    // a write through a table lands in its frame
    let mut entry = p3.index(&machine, 9);
    entry.set(Frame { number: 99 }, EntryFlags::present());
    p3.store(&mut machine, 9, entry);
    assert_eq!(slot(&machine, 2, 9), 99 * 4096 | PRESENT);
}

#[test]
fn next_table_create_makes_a_cleared_table() {
    let mut machine = boot_machine(GARBAGE);
    let mut allocator = frames(1000, 1001);
    let p4: Table<Level4> = Table::p4();
    // the table that is there is handed out as it is
    let existing = p4.next_table_create(&mut machine, 0, &mut allocator).map(|t| t.address());
    assert_eq!(existing, Ok(0o177777_777_777_777_000_0000));
    assert_eq!(slot(&machine, 2, 0), 3 * 4096 | 3);
    // a missing table is made from the next frame
    assert_eq!(slot(&machine, 1000, 17), GARBAGE);
    let made = p4.next_table_create(&mut machine, 5, &mut allocator).expect("a frame is left");
    assert_eq!(made.address(), 0o177777_777_777_777_005_0000);
    assert_eq!(machine.resolve(made.address()), Frame { number: 1000 });
    assert_eq!(slot(&machine, 1, 5), 1000 * 4096 | PRESENT | WRITEABLE);
    for index in 0..512 {
        assert_eq!(slot(&machine, 1000, index), 0);
        assert!(made.index(&machine, index).is_unused());
    }
    assert_eq!(
        p4.install_table(&mut machine, 6, None).map(|t| t.address()),
        Err(MapError::OutOfFrames)
    );
    assert_eq!(
        p4.install_table(&mut machine, 6, Some(Frame { number: 1 << 40 })).map(|t| t.address()),
        Err(MapError::FrameOutOfRange)
    );
    assert_eq!(slot(&machine, 1, 6), 0);
}

#[test]
fn zero_clears_a_table() {
    let mut machine = boot_machine(GARBAGE);
    let p4: Table<Level4> = Table::p4();
    let p3 = p4.next_table(&machine, 0).expect("the upper table is there");
    let p2 = p3.next_table(&machine, 0).expect("the middle table is there");
    p2.zero(&mut machine);
    for index in 0..512 {
        assert_eq!(slot(&machine, 3, index), 0);
    }
    assert_eq!(slot(&machine, 2, 0), 3 * 4096 | 3);
    assert_eq!(Mapper::new(machine).translate(4096), None);
}

#[test]
fn temporary_page_shows_a_frame() {
    let mut allocator = frames(1000, 1009);
    let mut active_table = ActivePageTable::new(boot_machine(GARBAGE));
    let page = Page { number: TEMPORARY_PAGE_NUMBER };
    let mut temporary_page = TemporaryPage::new(page, &mut allocator);
    assert_eq!(temporary_page.page(), page);
    // three frames went to the temporary page
    assert_eq!(allocator.allocate_frame(), Some(Frame { number: 1003 }));
    let table: Table<Level1> = temporary_page
        .map_table_frame(Frame { number: 1003 }, &mut active_table)
        .expect("the temporary page has its frames");
    assert_eq!(table.address(), TEMPORARY_PAGE_NUMBER * 4096);
    assert_eq!(active_table.deref().machine().resolve(table.address()), Frame { number: 1003 });
    assert_eq!(active_table.deref().translate_page(page), Some(Frame { number: 1003 }));
    let mut entry = table.index(active_table.deref().machine(), 3);
    assert_eq!(entry.bits(), GARBAGE);
    entry.set(Frame { number: 5 }, EntryFlags::present());
    table.store(active_table.deref_mut().machine_mut(), 3, entry);
    assert_eq!(slot(active_table.deref().machine(), 1003, 3), 5 * 4096 | PRESENT);
    temporary_page.unmap(&mut active_table);
    assert_eq!(active_table.deref().translate_page(page), None);
    // the page can be mapped again, now without new tables
    assert_eq!(temporary_page.map(Frame { number: 1004 }, &mut active_table), Ok(page.number * 4096));
    assert_eq!(active_table.deref().translate_page(page), Some(Frame { number: 1004 }));
}

#[test]
fn a_new_address_space_is_empty_but_for_its_self_reference() {
    let mut allocator = frames(1000, 1009);
    let mut active_table = ActivePageTable::new(boot_machine(GARBAGE));
    let page = Page { number: TEMPORARY_PAGE_NUMBER };
    let mut temporary_page = TemporaryPage::new(page, &mut allocator);
    let frame = allocator.allocate_frame().expect("a frame is left");
    let table = InactivePageTable::new(frame, &mut active_table, &mut temporary_page)
        .expect("the temporary page has its frames");
    assert_eq!(table.frame(), Frame { number: 1003 });
    let machine = active_table.deref().machine();
    for index in 0..511 {
        assert_eq!(slot(machine, 1003, index), 0);
    }
    assert_eq!(slot(machine, 1003, 511), 1003 * 4096 | PRESENT | WRITEABLE);
    assert_eq!(active_table.deref().translate_page(page), None);
    assert_eq!(active_table.deref().translate(4096), Some(4096));
    assert_eq!(machine.flushes().as_slice(), &[Flush::Page(TEMPORARY_PAGE_NUMBER * 4096)]);
}

#[test]
fn with_works_on_the_other_address_space() {
    let mut allocator = frames(1000, 1019);
    let mut active_table = ActivePageTable::new(boot_machine(GARBAGE));
    let page = Page { number: TEMPORARY_PAGE_NUMBER };
    let mut temporary_page = TemporaryPage::new(page, &mut allocator);
    let frame = allocator.allocate_frame().expect("a frame is left");
    let mut new_table = InactivePageTable::new(frame, &mut active_table, &mut temporary_page)
        .expect("the temporary page has its frames");
    // a frame above the first GiB: the active address space does not map it
    let mapped = Frame { number: 3 * 512 * 512 + 17 };
    let address = mapped.number * 4096;
    assert_eq!(active_table.deref().translate(address), None);
    let before = slot(active_table.deref().machine(), 1, 511);

    let seen = active_table.with(
        &mut new_table,
        &mut temporary_page,
        &mut allocator,
        |mapper: &mut Mapper, allocator: &mut AreaFrameAllocator| {
            // the recursive mapping shows the other address space, which is empty
            let empty = mapper.translate(4096);
            let result = mapper.identity_map(mapped, EntryFlags::writeable(), allocator);
            (empty, result, mapper.translate(address))
        },
    );
    assert_eq!(seen, Ok((None, Ok(()), Some(address))));
    // the last slot of the active table is as it was
    assert_eq!(slot(active_table.deref().machine(), 1, 511), before);
    assert_eq!(before, 4096 | PRESENT | WRITEABLE);
    // the active address space shows no such mapping, and the temporary page is unmapped
    assert_eq!(active_table.deref().translate(address), None);
    assert_eq!(active_table.deref().translate(4096), Some(4096));
    assert_eq!(active_table.deref().translate_page(page), None);
    // the whole translation cache was invalidated on the way in and on the way out
    let flushes = active_table.deref().machine().flushes();
    assert_eq!(
        &flushes[flushes.len() - 3..],
        &[Flush::All, Flush::All, Flush::Page(TEMPORARY_PAGE_NUMBER * 4096)]
    );
    // entered again, the other address space still shows the mapping
    let again = active_table.with(
        &mut new_table,
        &mut temporary_page,
        &mut allocator,
        |mapper: &mut Mapper, _: &mut AreaFrameAllocator| mapper.translate(address + 7),
    );
    assert_eq!(again, Ok(Some(address + 7)));
}

#[test]
fn switch_hands_back_the_table_that_was_active() {
    let mut allocator = frames(1000, 1019);
    let mut active_table = ActivePageTable::new(boot_machine(GARBAGE));
    let mut temporary_page =
        TemporaryPage::new(Page { number: TEMPORARY_PAGE_NUMBER }, &mut allocator);
    let frame = allocator.allocate_frame().expect("a frame is left");
    let new_table = InactivePageTable::new(frame, &mut active_table, &mut temporary_page)
        .expect("the temporary page has its frames");
    let old_table = active_table.switch(new_table);
    assert_eq!(old_table.frame(), Frame { number: 1 });
    assert_eq!(active_table.deref().machine().cr3(), 1003 * 4096);
    // the new address space is empty
    assert_eq!(active_table.deref().translate(4096), None);
    let back = active_table.switch(old_table);
    assert_eq!(back.frame(), Frame { number: 1003 });
    assert_eq!(active_table.deref().machine().cr3(), 4096);
    assert_eq!(active_table.deref().translate(4096), Some(4096));
}

fn kernel_sections() -> Vec<KernelSection> {
    vec![
        KernelSection { addr: 0x10_0000, size: 0x2345, allocated: true },
        // not loaded: left out
        KernelSection { addr: 0x20_0000, size: 0x1000, allocated: false },
        KernelSection { addr: 0x10_3000, size: 0x1000, allocated: true },
    ]
}

#[test]
fn map_sections_maps_the_loaded_sections() {
    let mut allocator = frames(1000, 1019);
    let mut active_table = ActivePageTable::new(boot_machine(GARBAGE));
    let mut temporary_page =
        TemporaryPage::new(Page { number: TEMPORARY_PAGE_NUMBER }, &mut allocator);
    let frame = allocator.allocate_frame().expect("a frame is left");
    let mut new_table = InactivePageTable::new(frame, &mut active_table, &mut temporary_page)
        .expect("the temporary page has its frames");
    let sections = kernel_sections();
    let seen = active_table.with(
        &mut new_table,
        &mut temporary_page,
        &mut allocator,
        |mapper: &mut Mapper, allocator: &mut AreaFrameAllocator| {
            let result = map_sections(mapper, &sections, allocator);
            let mapped: Vec<Option<u64>> =
                [0x10_0000, 0x10_1fff, 0x10_2344, 0x10_3000, 0x10_4000, 0x20_0000]
                    .iter()
                    .map(|address| mapper.translate(*address))
                    .collect();
            // a section whose pages are mapped cannot be mapped again
            let again = map_sections(mapper, &sections, allocator);
            (result, mapped, again)
        },
    );
    assert_eq!(
        seen,
        Ok((
            Ok(()),
            vec![Some(0x10_0000), Some(0x10_1fff), Some(0x10_2344), Some(0x10_3000), None, None],
            Err(MapError::PageInUse)
        ))
    );
}

#[test]
fn remap_the_kernel_switches_to_the_new_address_space() {
    let mut allocator = frames(1000, 1019);
    let mut active_table = ActivePageTable::new(boot_machine(GARBAGE));
    let old_table = remap_the_kernel(&mut allocator, &mut active_table, &kernel_sections())
        .expect("there are frames enough");
    assert_eq!(old_table.frame(), Frame { number: 1 });
    // three frames went to the temporary page, the fourth is the new top-level table
    assert_eq!(active_table.deref().machine().cr3(), 1003 * 4096);
    let mapper = active_table.deref();
    assert_eq!(mapper.translate(0x10_0000), Some(0x10_0000));
    assert_eq!(mapper.translate(0x10_2fff), Some(0x10_2fff));
    assert_eq!(mapper.translate(0x10_3abc), Some(0x10_3abc));
    assert_eq!(mapper.translate(0x10_4000), None);
    assert_eq!(mapper.translate(0x20_0000), None);
    // what the boot code had mapped is gone
    assert_eq!(mapper.translate(0), None);
    // the old address space is as it was
    assert_eq!(slot(mapper.machine(), 1, 511), 4096 | PRESENT | WRITEABLE);
    let back = active_table.switch(old_table);
    assert_eq!(back.frame(), Frame { number: 1003 });
    assert_eq!(active_table.deref().translate(0), Some(0));
    assert_eq!(active_table.deref().translate(0x10_0000), Some(0x10_0000));
}

#[test]
fn remap_the_kernel_fails_without_frames() {
    let mut allocator = frames(1000, 1004);
    let mut active_table = ActivePageTable::new(boot_machine(GARBAGE));
    let result = remap_the_kernel(&mut allocator, &mut active_table, &kernel_sections());
    assert_eq!(result.map(|table| table.frame()), Err(MapError::OutOfFrames));
    // the address space that was active is still active, and intact
    assert_eq!(active_table.deref().machine().cr3(), 4096);
    assert_eq!(active_table.deref().translate(0x10_0000), Some(0x10_0000));
    assert_eq!(slot(active_table.deref().machine(), 1, 511), 4096 | PRESENT | WRITEABLE);
}

#[test]
fn the_journal_leads_to_the_state_of_the_machine() {
    let mut machine = Machine::new(7);
    assert_eq!(machine.load(Frame { number: 5 }, 9), 7);
    machine.store(Frame { number: 5 }, 9, 11);
    machine.flush(0x1000);
    machine.cr3_write(0x5000);
    machine.store(Frame { number: 5 }, 9, 12);
    machine.flush_all();
    assert_eq!(
        machine.journal().as_slice(),
        &[
            Operation::Store { frame: 5, index: 9, word: 11 },
            Operation::Invalidate(Flush::Page(0x1000)),
            Operation::LoadCr3(0x5000),
            Operation::Store { frame: 5, index: 9, word: 12 },
            Operation::Invalidate(Flush::All),
        ]
    );
    assert_eq!(machine.load(Frame { number: 5 }, 9), 12);
    assert_eq!(machine.load(Frame { number: 5 }, 10), 7);
    assert_eq!(machine.cr3(), 0x5000);
    assert_eq!(machine.flushes().as_slice(), &[Flush::Page(0x1000), Flush::All]);
    let machine = Mapper::new(machine).into_machine();
    assert_eq!(ActivePageTable::new(machine).into_machine().cr3(), 0x5000);
}

#[test]
fn remap_the_kernel_maps_the_sections_as_writeable_and_nothing_else() {
    let mut allocator = frames(1000, 1019);
    let mut active_table = ActivePageTable::new(boot_machine(GARBAGE));
    remap_the_kernel(&mut allocator, &mut active_table, &kernel_sections())
        .expect("there are frames enough");
    let machine = active_table.deref().machine();
    // frames 1004 to 1006 are the upper, the middle and the leaf table of the sections
    assert_eq!(slot(machine, 1003, 0), 1004 * 4096 | PRESENT | WRITEABLE);
    assert_eq!(slot(machine, 1004, 0), 1005 * 4096 | PRESENT | WRITEABLE);
    assert_eq!(slot(machine, 1005, 0), 1006 * 4096 | PRESENT | WRITEABLE);
    for index in 0..512u64 {
        let expected = match index {
            // the pages of the two loaded sections
            0x100 | 0x101 | 0x102 | 0x103 => (index * 4096) | PRESENT | WRITEABLE,
            _ => 0,
        };
        assert_eq!(slot(machine, 1006, index as usize), expected);
    }
    for index in 1..511 {
        assert_eq!(slot(machine, 1003, index), 0);
        assert_eq!(slot(machine, 1004, index), 0);
        assert_eq!(slot(machine, 1005, index), 0);
    }
    assert_eq!(allocator.allocate_frame(), Some(Frame { number: 1007 }));
}

#[test]
fn remap_the_kernel_fails_on_sections_that_share_a_frame() {
    let mut allocator = frames(1000, 1019);
    let mut active_table = ActivePageTable::new(boot_machine(GARBAGE));
    let sections = vec![
        KernelSection { addr: 0x10_0000, size: 0x1001, allocated: true },
        KernelSection { addr: 0x10_1000, size: 0x10, allocated: true },
    ];
    let result = remap_the_kernel(&mut allocator, &mut active_table, &sections);
    assert_eq!(result.map(|table| table.frame()), Err(MapError::PageInUse));
    assert_eq!(active_table.deref().machine().cr3(), 4096);
    assert_eq!(active_table.deref().translate(0x10_0000), Some(0x10_0000));
}

#[test]
fn remap_the_kernel_fails_where_the_temporary_page_is_mapped() {
    let mut allocator = frames(1000, 1019);
    let mut page_table = Mapper::new(boot_machine(GARBAGE));
    let page = Page { number: TEMPORARY_PAGE_NUMBER };
    assert_eq!(page_table.map_to(page, Frame { number: 9 }, EntryFlags::empty(), &mut allocator), Ok(()));
    let mut active_table = ActivePageTable::new(page_table.into_machine());
    let result = remap_the_kernel(&mut allocator, &mut active_table, &kernel_sections());
    assert_eq!(result.map(|table| table.frame()), Err(MapError::PageInUse));
    assert_eq!(active_table.deref().machine().cr3(), 4096);
}

#[test]
fn the_checks_of_the_mapper() {
    let mut machine = boot_machine(GARBAGE);
    assert!(Mapper::new(Machine::new(0)).is_recursive() == false);
    let page_table = Mapper::new(boot_machine(GARBAGE));
    assert!(page_table.is_recursive());
    assert!(ActivePageTable::new(boot_machine(GARBAGE)).is_recursive());
    assert!(page_table.huge_pages_aligned(Page::containing_address(9 * 512 * 4096)));
    assert!(page_table.huge_pages_aligned(Page::containing_address(42 * 512 * 512 * 4096)));
    // a huge page of 2 MiB that starts at a frame which 512 does not divide
    link(&mut machine, 3, 9, 9 * 512 + 1, EntryFlags::table_link() | EntryFlags::huge_page());
    // a huge page of 1 GiB that starts at a frame which 512 * 512 does not divide
    link(&mut machine, 2, 1, 512, EntryFlags::table_link() | EntryFlags::huge_page());
    // the last slot of the top-level table points elsewhere
    let page_table = Mapper::new(machine);
    assert!(!page_table.huge_pages_aligned(Page::containing_address(9 * 512 * 4096)));
    assert!(page_table.huge_pages_aligned(Page::containing_address(8 * 512 * 4096)));
    assert!(!page_table.huge_pages_aligned(Page::containing_address(1 << 30)));
    let mut machine = page_table.into_machine();
    link(&mut machine, 1, 511, 2, EntryFlags::table_link());
    assert!(!Mapper::new(machine).is_recursive());

    assert!(is_canonical_address(0));
    assert!(is_canonical_address(0x7fff_ffff_ffff));
    assert!(!is_canonical_address(0x8000_0000_0000));
    assert!(!is_canonical_address(0xffff_7fff_ffff_ffff));
    assert!(is_canonical_address(0xffff_8000_0000_0000));
}

#[test]
fn child_table_addresses() {
    assert_eq!(child_table_address(P4_ADDRESS, 0), 0o177777_777_777_777_000_0000);
    assert_eq!(child_table_address(P4_ADDRESS, 511), P4_ADDRESS);
    assert_eq!(
        child_table_address(0o177777_777_777_777_005_0000, 0o123),
        0o177777_777_777_005_123_0000
    );
    assert_eq!(
        child_table_address(0o177777_777_777_005_123_0000, 0o456),
        0o177777_777_005_123_456_0000
    );
}

#[test]
fn kernel_sections_report_their_bounds() {
    let section = KernelSection { addr: 0x10_0000, size: 0x2345, allocated: true };
    assert!(section.is_allocated());
    assert_eq!(section.start_address(), 0x10_0000);
    assert_eq!(section.end_address(), 0x10_2345);
    assert!(!KernelSection { addr: 0, size: 1, allocated: false }.is_allocated());
}

#[test]
fn map_to_succeeds_with_a_frame_for_each_missing_table() {
    // the upper table of the page is there, the middle and the leaf table are missing
    let addr = 42 * 512 * 512 * 4096;
    let page = Page::containing_address(addr);
    let mut page_table = Mapper::new(boot_machine(GARBAGE));
    let mut two =
        TinyAllocator::holding(Some(Frame { number: 1000 }), None, Some(Frame { number: 1001 }));
    assert_eq!(page_table.map_to(page, Frame { number: 7 }, EntryFlags::empty(), &mut two), Ok(()));
    assert_eq!(two.allocate_frame(), None);
    assert_eq!(page_table.translate(addr), Some(7 * 4096));
    // the page behind it has its tables: no frame is needed
    let next = Page::containing_address(addr + 4096);
    assert_eq!(page_table.map_to(next, Frame { number: 8 }, EntryFlags::empty(), &mut two), Ok(()));
    assert_eq!(page_table.translate(addr + 4096), Some(8 * 4096));

    // one frame is too few
    let mut page_table = Mapper::new(boot_machine(GARBAGE));
    let mut one = TinyAllocator::holding(None, Some(Frame { number: 1000 }), None);
    assert_eq!(
        page_table.map_to(page, Frame { number: 7 }, EntryFlags::empty(), &mut one),
        Err(MapError::OutOfFrames)
    );
    assert_eq!(page_table.translate(addr), None);
    assert!(page_table.can_map(page));

    // a frame that no slot can point to
    let mut page_table = Mapper::new(boot_machine(GARBAGE));
    let mut far = TinyAllocator::holding(
        Some(Frame { number: 1000 }),
        Some(Frame { number: 1 << 40 }),
        Some(Frame { number: 1001 }),
    );
    assert_eq!(
        page_table.map_to(page, Frame { number: 7 }, EntryFlags::empty(), &mut far),
        Err(MapError::FrameOutOfRange)
    );
    assert_eq!(page_table.translate(addr), None);
    assert!(page_table.can_map(page));
}

#[test]
fn map_needs_a_frame_more_than_map_to() {
    let addr = 42 * 512 * 512 * 4096;
    let page = Page::containing_address(addr);
    let mut page_table = Mapper::new(boot_machine(GARBAGE));
    let mut three = frames(1000, 1002);
    assert_eq!(page_table.map(page, EntryFlags::empty(), &mut three), Ok(()));
    assert_eq!(page_table.translate(addr), Some(1000 * 4096));
    let mut page_table = Mapper::new(boot_machine(GARBAGE));
    let mut two = frames(1000, 1001);
    assert_eq!(page_table.map(page, EntryFlags::empty(), &mut two), Err(MapError::OutOfFrames));
    assert_eq!(page_table.translate(addr), None);
}

#[test]
fn the_temporary_page_needs_a_frame_for_each_missing_table() {
    let page = Page { number: TEMPORARY_PAGE_NUMBER };
    // two frames, where three tables are missing on the path of the page
    let mut allocator = frames(1000, 1001);
    let mut active_table = ActivePageTable::new(boot_machine(GARBAGE));
    let mut temporary_page = TemporaryPage::new(page, &mut allocator);
    assert_eq!(allocator.allocate_frame(), None);
    let result =
        InactivePageTable::new(Frame { number: 2000 }, &mut active_table, &mut temporary_page);
    assert_eq!(result.map(|table| table.frame()), Err(MapError::OutOfFrames));
    assert_eq!(active_table.deref().translate_page(page), None);
    assert!(active_table.deref().can_map(page));
    // the frame of the table was not touched
    assert_eq!(slot(active_table.deref().machine(), 2000, 511), GARBAGE);

    // three frames are enough, and afterwards none is needed
    let mut allocator = frames(1000, 1002);
    let mut active_table = ActivePageTable::new(boot_machine(GARBAGE));
    let mut temporary_page = TemporaryPage::new(page, &mut allocator);
    assert_eq!(allocator.allocate_frame(), None);
    let mut new_table =
        InactivePageTable::new(Frame { number: 2000 }, &mut active_table, &mut temporary_page)
            .expect("the temporary page has its frames");
    let mut ran = false;
    let seen = active_table.with(
        &mut new_table,
        &mut temporary_page,
        &mut ran,
        |mapper: &mut Mapper, ran: &mut bool| {
            *ran = true;
            mapper.translate(4096)
        },
    );
    assert_eq!(seen, Ok(None));
    assert!(ran);

    // a temporary page without frames, on a path without tables: `with` fails
    // and does not run the work
    let mut bare = TemporaryPage::new(Page { number: 0xbeef000 }, &mut allocator);
    let mut ran = false;
    let seen = active_table.with(
        &mut new_table,
        &mut bare,
        &mut ran,
        |_: &mut Mapper, ran: &mut bool| {
            *ran = true;
        },
    );
    assert_eq!(seen, Err(MapError::OutOfFrames));
    assert!(!ran);
    assert!(active_table.deref().can_map(Page { number: 0xbeef000 }));
    assert_eq!(slot(active_table.deref().machine(), 1, 511), 4096 | PRESENT | WRITEABLE);
}

#[test]
fn map_sections_takes_no_frame_where_the_leaf_tables_are_there() {
    let base = 42 * 512 * 512 * 4096;
    let mut mapper = Mapper::new(boot_machine(GARBAGE));
    let mut allocator = frames(1000, 1001);
    // the first page of the region gets its tables
    let first = Frame::containing_address(base);
    assert_eq!(mapper.identity_map(first, EntryFlags::writeable(), &mut allocator), Ok(()));
    assert_eq!(allocator.allocate_frame(), None);
    let sections = vec![
        KernelSection { addr: base + 0x1000, size: 0x2001, allocated: true },
        // loaded, but empty: it holds no page
        KernelSection { addr: base + 0x1000, size: 0, allocated: true },
        KernelSection { addr: base + 0x9000, size: 1, allocated: true },
    ];
    assert_eq!(map_sections(&mut mapper, &sections, &mut allocator), Ok(()));
    for (offset, mapped) in
        [(0, true), (0x1000, true), (0x3fff, true), (0x4000, false), (0x9000, true), (0xa000, false)]
    {
        let expected = if mapped { Some(base + offset) } else { None };
        assert_eq!(mapper.translate(base + offset), expected);
    }
    // a page of another leaf table needs a frame
    let sections = vec![KernelSection { addr: base + 0x20_0000, size: 1, allocated: true }];
    assert_eq!(map_sections(&mut mapper, &sections, &mut allocator), Err(MapError::OutOfFrames));
}

#[test]
fn map_sections_of_no_loaded_section_does_nothing() {
    let mut mapper = Mapper::new(boot_machine(GARBAGE));
    let mut none = TinyAllocator::holding(None, None, None);
    let sections = vec![
        KernelSection { addr: 0x77_7123, size: 0x5000, allocated: false },
        KernelSection { addr: 0x10_0000, size: 0, allocated: true },
    ];
    let before = mapper.machine().journal().len();
    assert_eq!(map_sections(&mut mapper, &sections, &mut none), Ok(()));
    assert_eq!(mapper.machine().journal().len(), before);
    assert_eq!(map_sections(&mut mapper, &Vec::new(), &mut none), Ok(()));
}

#[test]
fn remap_the_kernel_loads_the_start_address_of_the_new_table() {
    let mut allocator = frames(1000, 1019);
    let mut machine = boot_machine(GARBAGE);
    // the register holds flag bits besides the address of the table
    machine.cr3_write(4096 + 0x18);
    let mut active_table = ActivePageTable::new(machine);
    let old_table = remap_the_kernel(&mut allocator, &mut active_table, &kernel_sections())
        .expect("there are frames enough");
    assert_eq!(old_table.frame(), Frame { number: 1 });
    assert_eq!(active_table.deref().machine().cr3(), 1003 * 4096);
    assert_eq!(
        active_table.deref().machine().journal().last(),
        Some(&Operation::LoadCr3(1003 * 4096))
    );
}
