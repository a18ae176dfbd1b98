use slabmalloc::{
    AllocationError, Layout, ObjectPage8k, Slab, ZoneAllocator, BASE_ALLOC_SIZES, MAX_ALLOC_SIZE,
    MAX_BASE_SIZE_CLASSES, PAGE_SIZE, SLAB_EMPTY_PAGES_THRESHOLD,
};

/// Hands out pages at consecutive page addresses.
struct PageProvider {
    next: usize,
}

impl PageProvider {
    fn new() -> PageProvider {
        PageProvider { next: 0x10_0000 }
    }

    fn allocate_page(&mut self) -> Option<ObjectPage8k> {
        let page = ObjectPage8k::new(self.next)?;
        self.next += PAGE_SIZE;
        Some(page)
    }
}

fn lists(zone: &ZoneAllocator, class: usize) -> (usize, usize, usize) {
    let sa = zone.small_slab(class);
    (sa.empty_page_count(), sa.slabs().elements(), sa.full_slabs().elements())
}

#[test]
fn test_readme() {
    let object_size = 12;
    let alignment = 4;

    let mut mmap = PageProvider::new();
    let page = mmap.allocate_page();

    let mut zone = ZoneAllocator::new();
    let layout = Layout::from_size_align(object_size, alignment).unwrap();
    zone.refill(layout, page.unwrap(), 0).unwrap();

    let allocated = zone.allocate(layout).unwrap();
    zone.deallocate(allocated, layout).unwrap();
}

#[test]
fn constants() {
    assert_eq!(MAX_ALLOC_SIZE, 8104);
    assert_eq!(MAX_BASE_SIZE_CLASSES, 11);
    assert_eq!(SLAB_EMPTY_PAGES_THRESHOLD, 0);
    assert_eq!(BASE_ALLOC_SIZES, [8, 16, 32, 64, 128, 256, 512, 1024, 2048, 4096, 8104]);
    assert_eq!(ZoneAllocator::MAX_ALLOC_SIZE, 8192 - 88);
    assert_eq!(ZoneAllocator::MAX_BASE_ALLOC_SIZE, ZoneAllocator::MAX_ALLOC_SIZE);
    assert_eq!(ZoneAllocator::MAX_BASE_SIZE_CLASSES, 11);
    assert_eq!(ZoneAllocator::BASE_ALLOC_SIZES, BASE_ALLOC_SIZES);
}

#[test]
fn new_zone_has_a_class_for_each_size() {
    let zone = ZoneAllocator::new();
    for (class, size) in BASE_ALLOC_SIZES.iter().enumerate() {
        assert_eq!(zone.small_slab(class).size(), *size);
        assert_eq!(lists(&zone, class), (0, 0, 0));
    }
    assert_eq!(zone.empty_pages(), 0);
    assert_eq!(zone.small_slab_with_max_empty_pages(), (0, 0));
    assert_eq!(zone.heap_id(), None);
    let zone: ZoneAllocator = Default::default();
    assert_eq!(zone.empty_pages(), 0);
    assert_eq!(zone.small_slab(10).size(), MAX_ALLOC_SIZE);
}

#[test]
fn size_classes() {
    assert_eq!(ZoneAllocator::get_max_size(7), Some(8));
    assert_eq!(ZoneAllocator::get_max_size(9), Some(16));
    assert_eq!(ZoneAllocator::get_max_size(4097), Some(MAX_ALLOC_SIZE));
    assert_eq!(ZoneAllocator::get_max_size(MAX_ALLOC_SIZE + 1), None);
    assert_eq!(ZoneAllocator::get_max_size(0), Some(8));
    assert_eq!(ZoneAllocator::get_max_size(8), Some(8));
    assert_eq!(ZoneAllocator::get_max_size(MAX_ALLOC_SIZE), Some(MAX_ALLOC_SIZE));
    assert_eq!(ZoneAllocator::get_max_size(usize::MAX), None);
    for (class, size) in BASE_ALLOC_SIZES.iter().enumerate() {
        assert_eq!(ZoneAllocator::get_max_size(*size), Some(*size));
        assert_eq!(ZoneAllocator::get_slab(*size), Slab::Base(class));
        if class + 1 < MAX_BASE_SIZE_CLASSES {
            assert_eq!(ZoneAllocator::get_slab(*size + 1), Slab::Base(class + 1));
            assert_eq!(
                ZoneAllocator::get_max_size(*size + 1),
                Some(BASE_ALLOC_SIZES[class + 1])
            );
        }
    }
    assert_eq!(ZoneAllocator::get_slab(0), Slab::Base(0));
    assert_eq!(ZoneAllocator::get_slab(MAX_ALLOC_SIZE + 1), Slab::Unsupported);
}

#[test]
fn size_classes_grow_with_the_size() {
    let mut last = 0;
    for size in 0..=MAX_ALLOC_SIZE {
        match ZoneAllocator::get_slab(size) {
            Slab::Base(class) => {
                assert!(last <= class);
                assert!(size <= BASE_ALLOC_SIZES[class]);
                last = class;
            }
            _ => panic!("no class for {}", size),
        }
    }
    assert_eq!(last, 10);
}

#[test]
fn one_page_of_the_smallest_class_serves_512_objects() {
    let mut zone = ZoneAllocator::new();
    let layout = Layout::from_size_align(8, 1).unwrap();
    zone.refill(layout, ObjectPage8k::new(0x10_0000).unwrap(), 0).unwrap();
    for i in 0..512 {
        assert_eq!(zone.allocate(layout), Ok(0x10_0000 + 8 * i));
    }
    assert_eq!(lists(&zone, 0), (0, 0, 1));
    assert_eq!(zone.allocate(layout), Err(AllocationError::OutOfMemory));
    assert_eq!(lists(&zone, 0), (0, 0, 1));
}

#[test]
fn freed_slot_is_reused_and_page_stays_partial() {
    let mut zone = ZoneAllocator::new();
    let class16 = Layout::from_size_align(16, 1).unwrap();
    zone.refill(class16, ObjectPage8k::new(0x10_0000).unwrap(), 0).unwrap();
    assert_eq!(lists(&zone, 1), (1, 0, 0));
    let l1 = Layout::from_size_align(1, 1).unwrap();
    let l2 = Layout::from_size_align(2, 1).unwrap();
    let l4 = Layout::from_size_align(4, 1).unwrap();
    // sizes up to 8 belong to the first class, which takes the page over
    let ptr1 = zone.allocate(l1).unwrap();
    assert_eq!(lists(&zone, 1), (0, 0, 0));
    let ptr2 = zone.allocate(l2).unwrap();
    zone.deallocate(ptr1, l1).unwrap();
    let ptr3 = zone.allocate(l4).unwrap();
    zone.deallocate(ptr2, l2).unwrap();
    assert_eq!(ptr3, ptr1);
    assert_eq!(lists(&zone, 0), (0, 1, 0));
    let page = zone.small_slab(0).slabs().page(0);
    assert!(page.bitfield().is_allocated(0));
    for i in 1..512 {
        assert!(!page.bitfield().is_allocated(i));
    }
}

#[test]
fn a_page_of_class_16_serves_sizes_above_8() {
    let mut zone = ZoneAllocator::new();
    let class16 = Layout::from_size_align(16, 1).unwrap();
    zone.refill(class16, ObjectPage8k::new(0x10_0000).unwrap(), 0).unwrap();
    let l9 = Layout::from_size_align(9, 1).unwrap();
    let l12 = Layout::from_size_align(12, 1).unwrap();
    let ptr1 = zone.allocate(l9).unwrap();
    let ptr2 = zone.allocate(l12).unwrap();
    assert_eq!((ptr1, ptr2), (0x10_0000, 0x10_0010));
    zone.deallocate(ptr1, l9).unwrap();
    let ptr3 = zone.allocate(class16).unwrap();
    zone.deallocate(ptr2, l12).unwrap();
    assert_eq!(ptr3, 0x10_0000);
    assert_eq!(lists(&zone, 1), (0, 1, 0));
}

#[test]
fn an_empty_page_moves_to_the_class_that_needs_it() {
    let mut zone = ZoneAllocator::new();
    let l8 = Layout::from_size_align(8, 1).unwrap();
    zone.refill(l8, ObjectPage8k::new(0x10_0000).unwrap(), 5).unwrap();
    assert_eq!(lists(&zone, 0), (1, 0, 0));
    assert_eq!(zone.heap_id(), Some(5));
    let l1024 = Layout::from_size_align(1024, 1).unwrap();
    assert_eq!(zone.allocate(l1024), Ok(0x10_0000));
    assert_eq!(lists(&zone, 0), (0, 0, 0));
    assert_eq!(lists(&zone, 7), (0, 1, 0));
    let page = zone.small_slab(7).slabs().page(0);
    // the page keeps its owner and has the slots of its new class
    assert_eq!(page.heap_id(), 5);
    assert!(page.bitfield().is_allocated(0));
    assert!(!page.bitfield().is_allocated(6));
    assert!(page.bitfield().is_allocated(7));
    for i in 1..7 {
        assert_eq!(zone.allocate(l1024), Ok(0x10_0000 + i * 1024));
    }
    assert_eq!(lists(&zone, 7), (0, 0, 1));
    assert_eq!(zone.allocate(l1024), Err(AllocationError::OutOfMemory));
}

#[test]
fn deallocation_transitions() {
    let mut zone = ZoneAllocator::new();
    let l = Layout::from_size_align(1024, 1).unwrap();
    zone.refill(l, ObjectPage8k::new(0x10_0000).unwrap(), 0).unwrap();
    let objects: Vec<usize> = (0..7).map(|_| zone.allocate(l).unwrap()).collect();
    assert_eq!(lists(&zone, 7), (0, 0, 1));
    zone.deallocate(objects[3], l).unwrap();
    assert_eq!(lists(&zone, 7), (0, 1, 0));
    for (i, addr) in objects.iter().enumerate() {
        if i != 3 {
            assert_eq!(zone.deallocate(*addr, l), Ok(()));
        }
    }
    assert_eq!(lists(&zone, 7), (1, 0, 0));
    assert_eq!(zone.empty_pages(), 1);
}

#[test]
fn merge_of_two_zones() {
    let l = Layout::from_size_align(64, 1).unwrap();
    let mut a = ZoneAllocator::new();
    let mut b = ZoneAllocator::new();
    for (zone, first) in [(&mut a, 0x10_0000usize), (&mut b, 0x20_0000usize)] {
        for i in 0..3 {
            zone.refill(l, ObjectPage8k::new(first + i * PAGE_SIZE).unwrap(), 1).unwrap();
        }
        // 126 objects per page: fill one page, start one, leave one empty
        for _ in 0..127 {
            zone.allocate(l).unwrap();
        }
        assert_eq!(lists(zone, 3), (1, 1, 1));
    }
    assert_eq!(a.merge(&mut b, 7), Ok(()));
    assert_eq!(lists(&a, 3), (2, 2, 2));
    for class in 0..MAX_BASE_SIZE_CLASSES {
        assert_eq!(lists(&b, class), (0, 0, 0));
        if class != 3 {
            assert_eq!(lists(&a, class), (0, 0, 0));
        }
    }
    assert_eq!(b.empty_pages(), 0);
    let sa = a.small_slab(3);
    let mut moved = 0;
    for list in [sa.empty_slabs(), sa.slabs(), sa.full_slabs()] {
        for i in 0..list.elements() {
            let page = list.page(i);
            if page.start_address() >= 0x20_0000 {
                assert_eq!(page.heap_id(), 7);
                moved += 1;
            } else {
                assert_eq!(page.heap_id(), 1);
            }
        }
    }
    assert_eq!(moved, 3);
    // what `b` handed out is now given back to `a`
    assert_eq!(a.deallocate(0x20_0000 + 2 * PAGE_SIZE, l), Ok(()));
    assert_eq!(b.deallocate(0x20_0000 + 2 * PAGE_SIZE + 64, l), Err(AllocationError::InvalidPointer));
}

#[test]
fn refill_goes_by_the_size_of_the_layout() {
    let mut zone = ZoneAllocator::new();
    let mut mmap = PageProvider::new();
    for (class, size) in BASE_ALLOC_SIZES.iter().enumerate() {
        let layout = Layout::from_size_align(*size, 1).unwrap();
        assert_eq!(zone.refill(layout, mmap.allocate_page().unwrap(), class), Ok(()));
        assert_eq!(lists(&zone, class), (1, 0, 0));
        assert_eq!(zone.small_slab(class).heap_id(), Some(class));
    }
    assert_eq!(zone.empty_pages(), 11);
    let too_big = Layout::from_size_align(MAX_ALLOC_SIZE + 1, 1).unwrap();
    assert_eq!(
        zone.refill(too_big, mmap.allocate_page().unwrap(), 0),
        Err(AllocationError::InvalidLayout)
    );
    assert_eq!(zone.empty_pages(), 11);
}

#[test]
fn retrieve_takes_from_the_class_with_the_most_empty_pages() {
    let mut zone = ZoneAllocator::new();
    let mut mmap = PageProvider::new();
    assert!(zone.retrieve_empty_page().is_none());
    let l16 = Layout::from_size_align(16, 1).unwrap();
    let l256 = Layout::from_size_align(256, 1).unwrap();
    let l4096 = Layout::from_size_align(4096, 1).unwrap();
    zone.refill(l16, mmap.allocate_page().unwrap(), 0).unwrap();
    for _ in 0..2 {
        zone.refill(l256, mmap.allocate_page().unwrap(), 0).unwrap();
        zone.refill(l4096, mmap.allocate_page().unwrap(), 0).unwrap();
    }
    assert_eq!(zone.empty_pages(), 5);
    // of two classes with two empty pages the first gives
    assert_eq!(zone.small_slab_with_max_empty_pages(), (2, 5));
    let page = zone.retrieve_empty_page().unwrap();
    assert_eq!(page.start_address(), 0x10_0000 + 3 * PAGE_SIZE);
    assert_eq!(lists(&zone, 5), (1, 0, 0));
    assert_eq!(zone.small_slab_with_max_empty_pages(), (2, 9));
    assert!(zone.retrieve_empty_page().is_some());
    assert_eq!(zone.small_slab_with_max_empty_pages(), (1, 1));
    assert!(zone.retrieve_empty_page().is_some());
    assert_eq!(zone.small_slab_with_max_empty_pages(), (1, 5));
    assert!(zone.retrieve_empty_page().is_some());
    assert!(zone.retrieve_empty_page().is_some());
    assert!(zone.retrieve_empty_page().is_none());
    assert_eq!(zone.empty_pages(), 0);
}

#[test]
fn exchange_pages_within_heap_errors() {
    let mut zone = ZoneAllocator::new();
    let l8 = Layout::from_size_align(8, 1).unwrap();
    let l64 = Layout::from_size_align(64, 1).unwrap();
    assert_eq!(zone.exchange_pages_within_heap(l64, 1), Err(AllocationError::NoEmptyPage));
    zone.refill(l8, ObjectPage8k::new(0x10_0000).unwrap(), 1).unwrap();
    assert_eq!(zone.exchange_pages_within_heap(l64, 2), Ok(()));
    assert_eq!(lists(&zone, 0), (0, 0, 0));
    assert_eq!(lists(&zone, 3), (1, 0, 0));
    assert_eq!(zone.small_slab(3).empty_slabs().page(0).heap_id(), 2);
    assert_eq!(zone.small_slab(3).empty_slabs().page(0).start_address(), 0x10_0000);
    // a page in use is not given away
    zone.allocate(l64).unwrap();
    assert_eq!(zone.exchange_pages_within_heap(l8, 1), Err(AllocationError::NoEmptyPage));
    // the page is withdrawn before the layout is looked at
    zone.refill(l8, ObjectPage8k::new(0x20_0000).unwrap(), 1).unwrap();
    let too_big = Layout::from_size_align(MAX_ALLOC_SIZE + 1, 1).unwrap();
    assert_eq!(zone.exchange_pages_within_heap(too_big, 1), Err(AllocationError::InvalidLayout));
    assert_eq!(zone.empty_pages(), 0);
}

#[test]
fn allocate_refuses_bad_layouts() {
    let mut zone = ZoneAllocator::new();
    let l8 = Layout::from_size_align(8, 1).unwrap();
    zone.refill(l8, ObjectPage8k::new(0x10_0000).unwrap(), 1).unwrap();
    let too_big = Layout::from_size_align(MAX_ALLOC_SIZE + 1, 1).unwrap();
    assert_eq!(zone.allocate(too_big), Err(AllocationError::InvalidLayout));
    let too_aligned = Layout::from_size_align(8, 2 * PAGE_SIZE).unwrap();
    assert_eq!(zone.allocate(too_aligned), Err(AllocationError::InvalidLayout));
    assert_eq!(zone.empty_pages(), 1);
    assert_eq!(zone.deallocate(0x10_0000, too_big), Err(AllocationError::InvalidLayout));
    let largest = Layout::from_size_align(MAX_ALLOC_SIZE, PAGE_SIZE).unwrap();
    assert_eq!(zone.allocate(largest), Ok(0x10_0000));
    assert_eq!(lists(&zone, 10), (0, 1, 0));
}

#[test]
fn deallocate_wants_the_class_of_the_allocation() {
    let mut zone = ZoneAllocator::new();
    let l8 = Layout::from_size_align(8, 1).unwrap();
    let l64 = Layout::from_size_align(64, 1).unwrap();
    zone.refill(l8, ObjectPage8k::new(0x10_0000).unwrap(), 1).unwrap();
    let a = zone.allocate(l8).unwrap();
    assert_eq!(zone.deallocate(a, l64), Err(AllocationError::InvalidPointer));
    assert_eq!(zone.deallocate(a + 8, l8), Err(AllocationError::InvalidPointer));
    assert_eq!(zone.deallocate(0x40_0000, l8), Err(AllocationError::InvalidPointer));
    let l5 = Layout::from_size_align(5, 4).unwrap();
    assert_eq!(zone.deallocate(a, l5), Ok(()));
    assert_eq!(zone.deallocate(a, l8), Err(AllocationError::InvalidPointer));
}

#[test]
fn allocations_are_aligned_and_apart() {
    let mut zone = ZoneAllocator::new();
    let mut mmap = PageProvider::new();
    let mut live: Vec<(usize, usize)> = Vec::new();
    let requests = [
        (1usize, 1usize), (8, 8), (24, 16), (100, 64), (3, 2), (512, 512), (700, 256),
        (4096, 4096), (8104, 8), (64, 4096), (16, 128), (2000, 1024), (33, 32),
    ];
    for round in 0..40 {
        for (size, align) in requests.iter() {
            let layout = Layout::from_size_align(*size, *align).unwrap();
            let addr = loop {
                match zone.allocate(layout) {
                    Ok(addr) => break addr,
                    Err(AllocationError::OutOfMemory) => {
                        zone.refill(layout, mmap.allocate_page().unwrap(), 0).unwrap();
                    }
                    Err(e) => panic!("{:?}", e),
                }
            };
            assert_eq!(addr % align, 0);
            live.push((addr, *size));
        }
        if round % 3 == 2 {
            // give back every other object
            let mut keep = Vec::new();
            for (i, (addr, size)) in live.iter().enumerate() {
                if i % 2 == 0 {
                    let layout = Layout::from_size_align(*size, 1).unwrap();
                    assert_eq!(zone.deallocate(*addr, layout), Ok(()));
                } else {
                    keep.push((*addr, *size));
                }
            }
            live = keep;
        }
    }
    live.sort();
    for pair in live.windows(2) {
        assert!(pair[0].0 + pair[0].1 <= pair[1].0);
    }
}

#[test]
fn a_page_handed_from_class_to_class_serves_the_new_class() {
    let mut zone = ZoneAllocator::new();
    let l8 = Layout::from_size_align(8, 1).unwrap();
    let l2048 = Layout::from_size_align(2048, 1).unwrap();
    zone.refill(l8, ObjectPage8k::new(0x10_0000).unwrap(), 1).unwrap();
    let page = zone.retrieve_empty_page().unwrap();
    assert_eq!(page.start_address(), 0x10_0000);
    zone.refill(l2048, page, 1).unwrap();
    assert_eq!(lists(&zone, 0), (0, 0, 0));
    assert_eq!(lists(&zone, 8), (1, 0, 0));
    assert_eq!(zone.allocate(l2048), Ok(0x10_0000));
    assert_eq!(zone.allocate(l2048), Ok(0x10_0800));
    assert_eq!(zone.allocate(l2048), Ok(0x10_1000));
    assert_eq!(zone.allocate(l2048), Err(AllocationError::OutOfMemory));
    assert_eq!(zone.deallocate(0x10_0800, l2048), Ok(()));
    assert_eq!(zone.allocate(l2048), Ok(0x10_0800));
}

#[test]
fn reuse_needs_no_more_pages() {
    let mut zone = ZoneAllocator::new();
    let mut mmap = PageProvider::new();
    let layout = Layout::from_size_align(48, 16).unwrap();
    let mut refills = 0;
    let mut objects = Vec::new();
    for _ in 0..1000 {
        let addr = loop {
            match zone.allocate(layout) {
                Ok(addr) => break addr,
                Err(AllocationError::OutOfMemory) => {
                    refills += 1;
                    zone.refill(layout, mmap.allocate_page().unwrap(), 0).unwrap();
                }
                Err(e) => panic!("{:?}", e),
            }
        };
        objects.push(addr);
    }
    // 126 slots of 64 bytes per page
    assert_eq!(refills, 8);
    for addr in objects.iter() {
        assert_eq!(zone.deallocate(*addr, layout), Ok(()));
    }
    assert_eq!(zone.empty_pages(), 8);
    for _ in 0..1000 {
        assert!(zone.allocate(layout).is_ok());
    }
    assert_eq!(zone.empty_pages(), 0);
}
