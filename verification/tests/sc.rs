use slabmalloc::{AllocationError, Layout, ObjectPage8k, SCAllocator, DATA_SIZE, PAGE_SIZE};

const ARENA_BASE: usize = 0x10_0000;

/// Hands out pages at consecutive page addresses and keeps a byte for each
/// byte of the pages it has handed out.
struct PageProvider {
    pages: usize,
    currently_allocated: usize,
    memory: Vec<u8>,
}

impl PageProvider {
    fn new() -> PageProvider {
        PageProvider { pages: 0, currently_allocated: 0, memory: Vec::new() }
    }

    fn allocate_page(&mut self) -> Option<ObjectPage8k> {
        let page = ObjectPage8k::new(ARENA_BASE + self.pages * PAGE_SIZE)?;
        self.pages += 1;
        self.currently_allocated += 1;
        self.memory.resize(self.pages * PAGE_SIZE, 0);
        Some(page)
    }

    fn write(&mut self, addr: usize, len: usize, pattern: u8) {
        for b in &mut self.memory[addr - ARENA_BASE..addr - ARENA_BASE + len] {
            *b = pattern;
        }
    }

    fn holds(&self, addr: usize, len: usize, pattern: u8) -> bool {
        self.memory[addr - ARENA_BASE..addr - ARENA_BASE + len].iter().all(|b| *b == pattern)
    }
}

fn allocate_all(
    sa: &mut SCAllocator,
    mmap: &mut PageProvider,
    layout: Layout,
    allocations: usize,
) -> Vec<usize> {
    let mut objects = Vec::new();
    for _ in 0..allocations {
        loop {
            match sa.allocate(layout) {
                Ok(addr) => {
                    objects.push(addr);
                    break;
                }
                Err(AllocationError::OutOfMemory) => {
                    let page = mmap.allocate_page().unwrap();
                    sa.refill(page, 0).unwrap();
                }
                Err(_) => unreachable!("Unexpected error"),
            }
        }
    }
    objects
}

/// Allocates, writes a pattern into each object and reads it back, frees
/// everything, allocates again and checks that no further page was needed.
fn sc_allocation(size: usize, alignment: usize, allocations: usize) {
    let mut mmap = PageProvider::new();
    let mut sa = SCAllocator::new(size);
    let layout = Layout::from_size_align(size, alignment).unwrap();

    let objects = allocate_all(&mut sa, &mut mmap, layout, allocations);
    assert_eq!(objects.len(), allocations);
    for (n, addr) in objects.iter().enumerate() {
        assert_eq!(addr % alignment, 0);
        mmap.write(*addr, size, (n % 251) as u8 + 1);
    }
    for (n, addr) in objects.iter().enumerate() {
        assert!(
            mmap.holds(*addr, size, (n % 251) as u8 + 1),
            "No two allocations point to the same memory."
        );
    }

    let pages_allocated = mmap.currently_allocated;
    for addr in objects.iter() {
        sa.deallocate(*addr, layout).unwrap();
    }
    assert_eq!(sa.empty_page_count(), pages_allocated);
    assert_eq!(sa.slabs().elements(), 0);
    assert_eq!(sa.full_slabs().elements(), 0);

    let again = allocate_all(&mut sa, &mut mmap, layout, allocations);
    assert_eq!(
        pages_allocated, mmap.currently_allocated,
        "Did not use more memory for 2nd allocation run."
    );
    for addr in again.iter() {
        sa.deallocate(*addr, layout).unwrap();
    }
    assert_eq!(sa.empty_page_count(), pages_allocated);
}

#[test]
fn test_sc_allocation512_size8_alignment1() {
    sc_allocation(8, 1, 512);
}

#[test]
fn test_sc_allocation4096_size8_alignment8() {
    sc_allocation(8, 8, 4096);
}

#[test]
fn test_sc_allocation500_size8_alignment64() {
    sc_allocation(8, 64, 500);
}

#[test]
fn test_sc_allocation4096_size12_alignment1() {
    sc_allocation(12, 1, 4096);
}

#[test]
fn test_sc_allocation4096_size13_alignment1() {
    sc_allocation(13, 1, 4096);
}

#[test]
fn test_sc_allocation2000_size14_alignment1() {
    sc_allocation(14, 1, 2000);
}

#[test]
fn test_sc_allocation4096_size15_alignment1() {
    sc_allocation(15, 1, 4096);
}

#[test]
fn test_sc_allocation8000_size16_alignment1() {
    sc_allocation(16, 1, 8000);
}

#[test]
fn test_sc_allocation1024_size24_alignment1() {
    sc_allocation(24, 1, 1024);
}

#[test]
fn test_sc_allocation3090_size32_alignment1() {
    sc_allocation(32, 1, 3090);
}

#[test]
fn test_sc_allocation4096_size64_alignment1() {
    sc_allocation(64, 1, 4096);
}

#[test]
fn test_sc_allocation1000_size512_alignment1() {
    sc_allocation(512, 1, 1000);
}

#[test]
fn test_sc_allocation4096_size1024_alignment1() {
    sc_allocation(1024, 1, 4096);
}

#[test]
fn test_sc_allocation10_size2048_alignment1() {
    sc_allocation(2048, 1, 10);
}

#[test]
fn test_sc_allocation10000_size512_alignment1() {
    sc_allocation(512, 1, 10000);
}

#[test]
fn test_bug1() {
    let mut mmap = PageProvider::new();
    let page = mmap.allocate_page();

    let mut sa: SCAllocator = SCAllocator::new(8);
    sa.refill(page.unwrap(), 0).unwrap();

    let ptr1 = sa.allocate(Layout::from_size_align(1, 1).unwrap()).unwrap();
    let ptr2 = sa.allocate(Layout::from_size_align(2, 1).unwrap()).unwrap();
    sa.deallocate(ptr1, Layout::from_size_align(1, 1).unwrap()).unwrap();
    let _ptr3 = sa.allocate(Layout::from_size_align(4, 1).unwrap()).unwrap();
    sa.deallocate(ptr2, Layout::from_size_align(2, 1).unwrap()).unwrap();
}

#[test]
fn test_readme2() {
    let object_size = 10;
    let alignment = 8;
    let layout = Layout::from_size_align(object_size, alignment).unwrap();
    let mut mmap = PageProvider::new();
    let page = mmap.allocate_page();

    let mut sa: SCAllocator = SCAllocator::new(object_size);
    sa.refill(page.unwrap(), 0).unwrap();

    sa.allocate(layout).unwrap();
}

#[test]
fn new_allocator_has_no_pages() {
    let sa = SCAllocator::new(64);
    assert_eq!(sa.size(), 64);
    assert_eq!(sa.allocation_count(), 0);
    assert_eq!(sa.obj_per_page(), 126);
    assert_eq!(sa.empty_page_count(), 0);
    assert!(sa.empty_slabs().is_empty());
    assert!(sa.slabs().is_empty());
    assert!(sa.full_slabs().is_empty());
    assert_eq!(sa.heap_id(), None);
}

#[test]
fn objects_per_page_by_size() {
    assert_eq!(SCAllocator::new(1).obj_per_page(), 512);
    assert_eq!(SCAllocator::new(8).obj_per_page(), 512);
    assert_eq!(SCAllocator::new(15).obj_per_page(), 512);
    assert_eq!(SCAllocator::new(16).obj_per_page(), 506);
    assert_eq!(SCAllocator::new(32).obj_per_page(), 253);
    assert_eq!(SCAllocator::new(128).obj_per_page(), 63);
    assert_eq!(SCAllocator::new(1024).obj_per_page(), 7);
    assert_eq!(SCAllocator::new(2048).obj_per_page(), 3);
    assert_eq!(SCAllocator::new(4052).obj_per_page(), 2);
    assert_eq!(SCAllocator::new(4053).obj_per_page(), 1);
    assert_eq!(SCAllocator::new(4096).obj_per_page(), 1);
    assert_eq!(SCAllocator::new(DATA_SIZE).obj_per_page(), 1);
}

#[test]
fn allocate_without_pages_is_out_of_memory() {
    let mut sa = SCAllocator::new(32);
    let layout = Layout::from_size_align(32, 8).unwrap();
    assert_eq!(sa.allocate(layout), Err(AllocationError::OutOfMemory));
    assert_eq!(sa.empty_page_count(), 0);
}

#[test]
fn allocate_refuses_an_alignment_above_the_page_size() {
    let mut sa = SCAllocator::new(32);
    sa.refill(ObjectPage8k::new(0x4000).unwrap(), 0).unwrap();
    let layout = Layout::from_size_align(32, 2 * PAGE_SIZE).unwrap();
    assert_eq!(sa.allocate(layout), Err(AllocationError::InvalidLayout));
    assert_eq!(sa.empty_page_count(), 1);
    let layout = Layout::from_size_align(32, PAGE_SIZE).unwrap();
    assert_eq!(sa.allocate(layout), Ok(0x4000));
}

#[test]
fn refill_resets_the_page() {
    let mut page = ObjectPage8k::new(0x6000).unwrap();
    page.set_heap_id(3);
    let l = Layout::from_size_align(8, 1).unwrap();
    page.allocate(l).unwrap();
    page.allocate(l).unwrap();
    let mut sa = SCAllocator::new(16);
    assert_eq!(sa.refill(page, 11), Ok(()));
    assert_eq!(sa.empty_page_count(), 1);
    assert_eq!(sa.heap_id(), Some(11));
    let p = sa.empty_slabs().page(0);
    assert_eq!(p.start_address(), 0x6000);
    assert_eq!(p.heap_id(), 11);
    assert!(p.is_empty(506));
    assert!(p.bitfield().is_allocated(506));
    assert!(p.bitfield().is_allocated(511));
}

#[test]
fn retrieve_takes_the_page_refilled_last() {
    let mut sa = SCAllocator::new(16);
    assert!(sa.retrieve_empty_page().is_none());
    sa.refill(ObjectPage8k::new(0x2000).unwrap(), 1).unwrap();
    sa.refill(ObjectPage8k::new(0x4000).unwrap(), 2).unwrap();
    assert_eq!(sa.heap_id(), Some(2));
    let p = sa.retrieve_empty_page().unwrap();
    assert_eq!(p.start_address(), 0x4000);
    assert_eq!(sa.empty_page_count(), 1);
    let p = sa.retrieve_empty_page().unwrap();
    assert_eq!(p.start_address(), 0x2000);
    assert!(sa.retrieve_empty_page().is_none());
}

#[test]
fn allocation_prefers_partial_pages_and_lowest_slots() {
    let mut sa = SCAllocator::new(16);
    sa.refill(ObjectPage8k::new(0x2000).unwrap(), 0).unwrap();
    sa.refill(ObjectPage8k::new(0x4000).unwrap(), 0).unwrap();
    let l = Layout::from_size_align(16, 1).unwrap();
    // the page refilled last is at the front of the empty list
    assert_eq!(sa.allocate(l), Ok(0x4000));
    assert_eq!(sa.empty_page_count(), 1);
    assert_eq!(sa.slabs().elements(), 1);
    // served from the empty list: not counted
    assert_eq!(sa.allocation_count(), 0);
    assert_eq!(sa.allocate(l), Ok(0x4010));
    assert_eq!(sa.allocation_count(), 1);
    assert_eq!(sa.allocate(l), Ok(0x4020));
    assert_eq!(sa.deallocate(0x4010, l), Ok(()));
    assert_eq!(sa.allocate(l), Ok(0x4010));
    assert_eq!(sa.empty_page_count(), 1);
    assert_eq!(sa.allocation_count(), 3);
}

#[test]
fn alignment_skips_slots() {
    let mut sa = SCAllocator::new(8);
    sa.refill(ObjectPage8k::new(0x2000).unwrap(), 0).unwrap();
    let l64 = Layout::from_size_align(8, 64).unwrap();
    let l1 = Layout::from_size_align(8, 1).unwrap();
    assert_eq!(sa.allocate(l64), Ok(0x2000));
    assert_eq!(sa.allocate(l64), Ok(0x2040));
    assert_eq!(sa.allocate(l1), Ok(0x2008));
    assert_eq!(sa.allocate(l64), Ok(0x2080));
    // 4096 / 64 aligned slots in a page of 512 slots of 8 bytes
    let mut n = 3;
    while sa.allocate(l64).is_ok() {
        n += 1;
    }
    assert_eq!(n, 64);
    assert_eq!(sa.allocate(l64), Err(AllocationError::OutOfMemory));
    assert!(sa.allocate(l1).is_ok());
}

#[test]
fn a_second_page_is_used_when_the_first_has_no_aligned_slot() {
    let mut sa = SCAllocator::new(2048);
    sa.refill(ObjectPage8k::new(0x2000).unwrap(), 0).unwrap();
    sa.refill(ObjectPage8k::new(0x4000).unwrap(), 0).unwrap();
    let l = Layout::from_size_align(2048, 4096).unwrap();
    assert_eq!(sa.allocate(l), Ok(0x4000));
    assert_eq!(sa.allocate(l), Ok(0x5000));
    // the partial page has one slot left, at 0x4800, which is not aligned
    assert_eq!(sa.allocate(l), Ok(0x2000));
    assert_eq!(sa.slabs().elements(), 2);
    assert_eq!(sa.slabs().page(0).start_address(), 0x2000);
    let l1 = Layout::from_size_align(2048, 1).unwrap();
    assert_eq!(sa.allocate(l1), Ok(0x2800));
    assert_eq!(sa.allocate(l1), Ok(0x3000));
    assert_eq!(sa.full_slabs().elements(), 1);
    assert_eq!(sa.allocate(l1), Ok(0x4800));
    assert_eq!(sa.full_slabs().elements(), 2);
    assert_eq!(sa.full_slabs().page(0).start_address(), 0x4000);
    assert_eq!(sa.allocate(l1), Err(AllocationError::OutOfMemory));
}

#[test]
fn deallocation_moves_pages_between_lists() {
    let mut sa = SCAllocator::new(2048);
    sa.refill(ObjectPage8k::new(0x2000).unwrap(), 0).unwrap();
    let l = Layout::from_size_align(2048, 1).unwrap();
    let a = sa.allocate(l).unwrap();
    let b = sa.allocate(l).unwrap();
    assert_eq!(sa.slabs().elements(), 1);
    let c = sa.allocate(l).unwrap();
    // the page filled up
    assert_eq!((sa.empty_page_count(), sa.slabs().elements(), sa.full_slabs().elements()), (0, 0, 1));
    assert!(sa.full_slabs().page(0).is_full());
    sa.deallocate(b, l).unwrap();
    assert_eq!((sa.empty_page_count(), sa.slabs().elements(), sa.full_slabs().elements()), (0, 1, 0));
    sa.deallocate(a, l).unwrap();
    assert_eq!((sa.empty_page_count(), sa.slabs().elements(), sa.full_slabs().elements()), (0, 1, 0));
    sa.deallocate(c, l).unwrap();
    assert_eq!((sa.empty_page_count(), sa.slabs().elements(), sa.full_slabs().elements()), (1, 0, 0));
    assert!(sa.empty_slabs().page(0).is_empty(sa.obj_per_page()));
}

#[test]
fn a_page_of_one_object_stays_on_the_partial_list() {
    let mut sa = SCAllocator::new(4096);
    sa.refill(ObjectPage8k::new(0x2000).unwrap(), 0).unwrap();
    sa.refill(ObjectPage8k::new(0x4000).unwrap(), 0).unwrap();
    let l = Layout::from_size_align(4096, 4096).unwrap();
    assert_eq!(sa.allocate(l), Ok(0x4000));
    assert_eq!((sa.empty_page_count(), sa.slabs().elements(), sa.full_slabs().elements()), (1, 1, 0));
    assert!(sa.slabs().page(0).is_full());
    assert_eq!(sa.allocate(l), Ok(0x2000));
    assert_eq!((sa.empty_page_count(), sa.slabs().elements(), sa.full_slabs().elements()), (0, 2, 0));
    assert_eq!(sa.allocate(l), Err(AllocationError::OutOfMemory));
    sa.deallocate(0x4000, l).unwrap();
    assert_eq!((sa.empty_page_count(), sa.slabs().elements(), sa.full_slabs().elements()), (1, 1, 0));
    sa.deallocate(0x2000, l).unwrap();
    assert_eq!((sa.empty_page_count(), sa.slabs().elements(), sa.full_slabs().elements()), (2, 0, 0));
}

#[test]
fn deallocate_refuses_unknown_addresses() {
    let mut sa = SCAllocator::new(16);
    sa.refill(ObjectPage8k::new(0x2000).unwrap(), 0).unwrap();
    sa.refill(ObjectPage8k::new(0x4000).unwrap(), 0).unwrap();
    let l = Layout::from_size_align(16, 1).unwrap();
    let a = sa.allocate(l).unwrap();
    assert_eq!(a, 0x4000);
    // a page that is not in use
    assert_eq!(sa.deallocate(0x2000, l), Err(AllocationError::InvalidPointer));
    // a page that the allocator does not hold
    assert_eq!(sa.deallocate(0x8000, l), Err(AllocationError::InvalidPointer));
    // inside the object
    assert_eq!(sa.deallocate(a + 1, l), Err(AllocationError::InvalidPointer));
    // a free slot
    assert_eq!(sa.deallocate(a + 16, l), Err(AllocationError::InvalidPointer));
    assert_eq!(sa.slabs().elements(), 1);
    assert_eq!(sa.deallocate(a, l), Ok(()));
    // a second time
    assert_eq!(sa.deallocate(a, l), Err(AllocationError::InvalidPointer));
    assert_eq!(sa.empty_page_count(), 2);
}

#[test]
fn merge_moves_every_page_and_restamps_it() {
    let l = Layout::from_size_align(2048, 1).unwrap();
    let mut a = SCAllocator::new(2048);
    let mut b = SCAllocator::new(2048);
    for (sa, first) in [(&mut a, 0x10_0000usize), (&mut b, 0x20_0000usize)] {
        for i in 0..3 {
            sa.refill(ObjectPage8k::new(first + i * PAGE_SIZE).unwrap(), 1).unwrap();
        }
        // fill one page, start one, leave one empty
        for _ in 0..4 {
            sa.allocate(l).unwrap();
        }
        assert_eq!(
            (sa.empty_page_count(), sa.slabs().elements(), sa.full_slabs().elements()),
            (1, 1, 1)
        );
    }
    assert_eq!(a.merge(&mut b, 7), Ok(()));
    assert_eq!((b.empty_page_count(), b.slabs().elements(), b.full_slabs().elements()), (0, 0, 0));
    assert_eq!((a.empty_page_count(), a.slabs().elements(), a.full_slabs().elements()), (2, 2, 2));
    // the pages of `b` are in front, under the new owner
    assert_eq!(a.empty_slabs().page(0).start_address(), 0x20_0000);
    assert_eq!(a.empty_slabs().page(0).heap_id(), 7);
    assert_eq!(a.slabs().page(0).start_address(), 0x20_0000 + PAGE_SIZE);
    assert_eq!(a.slabs().page(0).heap_id(), 7);
    assert_eq!(a.full_slabs().page(0).start_address(), 0x20_0000 + 2 * PAGE_SIZE);
    assert_eq!(a.full_slabs().page(0).heap_id(), 7);
    assert_eq!(a.empty_slabs().page(1).heap_id(), 1);
    assert_eq!(a.slabs().page(1).heap_id(), 1);
    assert_eq!(a.full_slabs().page(1).heap_id(), 1);
    // objects of `b` can be given back to `a`
    assert_eq!(a.deallocate(0x20_0000 + 2 * PAGE_SIZE, l), Ok(()));
    assert_eq!(b.deallocate(0x20_0000 + PAGE_SIZE, l), Err(AllocationError::InvalidPointer));
    assert_eq!(a.deallocate(0x20_0000 + PAGE_SIZE, l), Ok(()));
}

#[test]
fn merge_keeps_the_order_of_arrival() {
    let mut a = SCAllocator::new(8);
    let mut b = SCAllocator::new(8);
    a.refill(ObjectPage8k::new(0x2000).unwrap(), 1).unwrap();
    b.refill(ObjectPage8k::new(0x4000).unwrap(), 2).unwrap();
    b.refill(ObjectPage8k::new(0x6000).unwrap(), 2).unwrap();
    a.merge(&mut b, 3).unwrap();
    // `b` had 0x6000 in front; it was moved first and 0x4000 put before it
    let order: Vec<usize> =
        (0..3).map(|i| a.empty_slabs().page(i).start_address()).collect();
    assert_eq!(order, vec![0x4000, 0x6000, 0x2000]);
}
