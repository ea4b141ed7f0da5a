use degrados::memory::area_frame_allocator::{AreaFrameAllocator, MemoryArea};
use degrados::memory::paging::temporary_page::TinyAllocator;
use degrados::memory::{Frame, FrameAllocator};

fn numbers(allocator: &mut impl FrameAllocator, count: usize) -> Vec<Option<u64>> {
    (0..count).map(|_| allocator.allocate_frame().map(|frame| frame.number)).collect()
}

#[test]
fn area_allocator_leaves_out_kernel_and_boot_information() {
    let areas = vec![MemoryArea { base_addr: 0, length: 10 * 4096 }];
    // the kernel is in frames 2 and 3, the boot information in frame 5
    let mut allocator = AreaFrameAllocator::new(0x2000, 0x3fff, 0x5000, 0x5010, areas);
    assert_eq!(
        numbers(&mut allocator, 8),
        vec![Some(0), Some(1), Some(4), Some(6), Some(7), Some(8), Some(9), None]
    );
    assert_eq!(allocator.allocate_frame(), None);
}

#[test]
fn area_allocator_goes_through_the_areas_by_their_start() {
    let areas = vec![
        MemoryArea { base_addr: 0x10_0000, length: 0x2000 },
        MemoryArea { base_addr: 0x1000, length: 0x1800 },
        MemoryArea { base_addr: 0x8000, length: 1 },
    ];
    let mut allocator = AreaFrameAllocator::new(0, 0, 0, 0, areas);
    assert_eq!(
        numbers(&mut allocator, 6),
        vec![Some(1), Some(2), Some(8), Some(0x100), Some(0x101), None]
    );
}

#[test]
fn area_allocator_without_areas_has_no_frame() {
    let mut allocator = AreaFrameAllocator::new(0, 0, 0, 0, Vec::new());
    assert_eq!(allocator.allocate_frame(), None);
}

#[test]
fn tiny_allocator_holds_three_frames() {
    let mut source = AreaFrameAllocator::new(
        0,
        0,
        0,
        0,
        vec![MemoryArea { base_addr: 0x1000, length: 5 * 4096 }],
    );
    let mut tiny = TinyAllocator::new(&mut source);
    assert_eq!(source.allocate_frame(), Some(Frame { number: 4 }));
    assert_eq!(numbers(&mut tiny, 4), vec![Some(1), Some(2), Some(3), None]);
    // from a source with two frames the tiny allocator gets two
    let mut source = AreaFrameAllocator::new(
        0,
        0,
        0,
        0,
        vec![MemoryArea { base_addr: 0x1000, length: 2 * 4096 }],
    );
    let mut tiny = TinyAllocator::new(&mut source);
    assert_eq!(numbers(&mut tiny, 3), vec![Some(1), Some(2), None]);
}

#[test]
fn area_allocator_hands_out_a_frame_of_two_areas_once() {
    let areas = vec![
        MemoryArea { base_addr: 0x2000, length: 7 * 4096 },
        MemoryArea { base_addr: 0, length: 4 * 4096 },
        MemoryArea { base_addr: 0x5000, length: 4096 },
    ];
    // the kernel is in frame 0, the boot information in frames 6 and 7
    let mut allocator = AreaFrameAllocator::new(0x10, 0x20, 0x6000, 0x7000, areas);
    assert_eq!(
        numbers(&mut allocator, 7),
        vec![Some(1), Some(2), Some(3), Some(4), Some(5), Some(8), None]
    );
}

#[test]
fn area_allocator_starts_behind_a_kept_first_frame() {
    let areas = vec![MemoryArea { base_addr: 0x3000, length: 0x2000 }];
    let mut allocator = AreaFrameAllocator::new(0x3000, 0x3fff, 0x9000, 0x9fff, areas);
    assert_eq!(numbers(&mut allocator, 2), vec![Some(4), None]);
}

#[test]
fn tiny_allocator_empties_its_places_in_order() {
    let mut tiny =
        TinyAllocator::holding(None, Some(Frame { number: 7 }), Some(Frame { number: 9 }));
    assert_eq!(numbers(&mut tiny, 3), vec![Some(7), Some(9), None]);
    let mut tiny = TinyAllocator::holding(
        Some(Frame { number: 3 }),
        Some(Frame { number: 1 }),
        Some(Frame { number: 2 }),
    );
    assert_eq!(numbers(&mut tiny, 4), vec![Some(3), Some(1), Some(2), None]);
    let mut tiny = TinyAllocator::holding(None, None, None);
    assert_eq!(tiny.allocate_frame(), None);
}

#[test]
fn area_allocator_passes_over_an_empty_area() {
    let areas = vec![
        MemoryArea { base_addr: 0x5000, length: 0 },
        MemoryArea { base_addr: 0x1234, length: 0 },
        MemoryArea { base_addr: 0x8000, length: 0x1000 },
        MemoryArea { base_addr: 0, length: 0 },
    ];
    let mut allocator = AreaFrameAllocator::new(0x100_0000, 0x100_0000, 0x200_0000, 0x200_0000, areas);
    assert_eq!(numbers(&mut allocator, 2), vec![Some(8), None]);
    let only_empty = vec![MemoryArea { base_addr: 0x5000, length: 0 }];
    let mut allocator = AreaFrameAllocator::new(0, 0, 0, 0, only_empty);
    assert_eq!(allocator.allocate_frame(), None);
}

#[test]
fn tiny_allocator_takes_what_the_source_has() {
    for count in 0..6u64 {
        let areas = vec![MemoryArea { base_addr: 0x10_0000, length: count * 4096 }];
        let mut source = AreaFrameAllocator::new(0, 0, 0, 0, areas);
        let mut tiny = TinyAllocator::new(&mut source);
        let held = numbers(&mut tiny, 4).iter().filter(|frame| frame.is_some()).count() as u64;
        assert_eq!(held, count.min(3));
        let left = numbers(&mut source, 6).iter().filter(|frame| frame.is_some()).count() as u64;
        assert_eq!(left, count - held);
    }
}
