use slabmalloc::{
    cmin, AllocationError, Bitfield, Layout, ObjectPage8k, PageList, BITFIELD_BITS, DATA_SIZE,
    METADATA_SIZE, PAGE_SIZE,
};

/// Hands out pages at consecutive page addresses.
struct PageProvider {
    next: usize,
    currently_allocated: usize,
}

impl PageProvider {
    fn new() -> PageProvider {
        PageProvider { next: 0x10_0000, currently_allocated: 0 }
    }

    fn allocate_page(&mut self) -> Option<ObjectPage8k> {
        let page = ObjectPage8k::new(self.next)?;
        self.next += PAGE_SIZE;
        self.currently_allocated += 1;
        Some(page)
    }

    fn release_page(&mut self, _page: ObjectPage8k) {
        self.currently_allocated -= 1;
    }
}

#[test]
fn check_size() {
    assert!(
        PAGE_SIZE == ObjectPage8k::SIZE,
        "ObjectPage should be exactly the size of a single page."
    );
}

#[test]
fn test_mmap_allocator() {
    let mut mmap = PageProvider::new();
    match mmap.allocate_page() {
        Some(sp) => {
            assert!(!sp.is_full(), "Got empty slab");
            mmap.release_page(sp)
        }
        None => panic!("failed to allocate ObjectPage"),
    }
    assert_eq!(mmap.currently_allocated, 0);
}

#[test]
fn check_sizes() {
    assert_eq!(ObjectPage8k::SIZE, PAGE_SIZE);
}

#[test]
#[should_panic]
fn invalid_alignment() {
    let _layout = Layout::from_size_align(10, 3).unwrap();
}

#[test]
pub fn check_first_fit() {
    let op: ObjectPage8k = Default::default();
    let layout = Layout::from_size_align(8, 8).unwrap();
    println!("{:?}", op.first_fit(layout));
    assert_eq!(op.first_fit(layout), Some((0, 0)));
}

#[test]
fn page_constants_add_up() {
    assert_eq!(PAGE_SIZE, 8192);
    assert_eq!(METADATA_SIZE, 88);
    assert_eq!(ObjectPage8k::METADATA_SIZE, METADATA_SIZE);
    assert_eq!(DATA_SIZE, 8104);
    assert_eq!(DATA_SIZE + METADATA_SIZE, PAGE_SIZE);
    assert_eq!(BITFIELD_BITS, 8 * 64);
}

#[test]
fn cmin_picks_the_smaller() {
    assert_eq!(cmin(3, 5), 3);
    assert_eq!(cmin(5, 3), 3);
    assert_eq!(cmin(4, 4), 4);
    assert_eq!(cmin(DATA_SIZE / 8, BITFIELD_BITS), 512);
    assert_eq!(cmin(DATA_SIZE / 16, BITFIELD_BITS), 506);
}

#[test]
fn layout_accepts_powers_of_two_only() {
    let l = Layout::from_size_align(24, 16).unwrap();
    assert_eq!(l.size(), 24);
    assert_eq!(l.align(), 16);
    assert!(Layout::from_size_align(0, 1).is_ok());
    assert!(Layout::from_size_align(1, usize::MAX / 2 + 1).is_ok());
    for bad in [0usize, 3, 5, 6, 7, 12, 24, 8191, 8193, usize::MAX] {
        assert!(matches!(
            Layout::from_size_align(8, bad),
            Err(AllocationError::InvalidLayout)
        ));
    }
}

#[test]
fn bitfield_set_clear_and_test() {
    let mut b = Bitfield::new();
    for i in 0..BITFIELD_BITS {
        assert!(!b.is_allocated(i));
    }
    assert!(b.all_free(BITFIELD_BITS));
    assert!(!b.is_full());
    for i in [0usize, 1, 63, 64, 65, 127, 128, 300, 511] {
        b.set_bit(i);
        assert!(b.is_allocated(i));
    }
    assert!(!b.is_allocated(2));
    assert!(!b.is_allocated(62));
    assert!(!b.is_allocated(510));
    b.clear_bit(64);
    assert!(!b.is_allocated(64));
    assert!(b.is_allocated(63));
    assert!(b.is_allocated(65));
    assert!(!b.all_free(1));
    b.clear_bit(0);
    assert!(b.all_free(1));
    assert!(!b.all_free(2));
}

#[test]
fn bitfield_all_free_looks_at_the_first_bits_only() {
    let mut b = Bitfield::new();
    b.set_bit(100);
    assert!(b.all_free(0));
    assert!(b.all_free(64));
    assert!(b.all_free(100));
    assert!(!b.all_free(101));
    assert!(!b.all_free(128));
    assert!(!b.all_free(512));
    assert!(!b.all_free(100_000));
    b.clear_bit(100);
    assert!(b.all_free(100_000));
}

#[test]
fn bitfield_is_full_needs_every_bit() {
    let mut b = Bitfield::new();
    for i in 0..BITFIELD_BITS {
        assert!(!b.is_full());
        b.set_bit(i);
    }
    assert!(b.is_full());
    b.clear_bit(511);
    assert!(!b.is_full());
}

#[test]
fn bitfield_initialize_caps_the_slots() {
    let mut b = Bitfield::new();
    b.initialize(8, DATA_SIZE);
    assert!(b.all_free(512));
    b.initialize(16, DATA_SIZE);
    assert!(b.all_free(506));
    assert!(!b.is_allocated(505));
    for i in 506..512 {
        assert!(b.is_allocated(i));
    }
    b.initialize(4096, DATA_SIZE);
    assert!(!b.is_allocated(0));
    for i in 1..512 {
        assert!(b.is_allocated(i));
    }
    b.initialize(DATA_SIZE, DATA_SIZE);
    assert!(b.all_free(1));
    assert!(b.is_allocated(1));
    b.initialize(DATA_SIZE + 1, DATA_SIZE);
    assert!(b.is_full());
}

#[test]
fn bitfield_first_fit_is_the_lowest_aligned_free_slot() {
    let mut b = Bitfield::new();
    let base = 0x4000;
    let l8 = Layout::from_size_align(8, 8).unwrap();
    assert_eq!(b.first_fit(base, l8), Some((0, base)));
    b.set_bit(0);
    assert_eq!(b.first_fit(base, l8), Some((1, base + 8)));
    let l64 = Layout::from_size_align(8, 64).unwrap();
    assert_eq!(b.first_fit(base, l64), Some((8, base + 64)));
    b.set_bit(8);
    assert_eq!(b.first_fit(base, l64), Some((16, base + 128)));
    for i in 0..512 {
        b.set_bit(i);
    }
    assert_eq!(b.first_fit(base, l8), None);
    b.clear_bit(511);
    assert_eq!(b.first_fit(base, l8), Some((511, base + 511 * 8)));
    assert_eq!(b.first_fit(base, l64), None);
}

#[test]
fn bitfield_first_fit_stays_in_the_data_area() {
    let b = Bitfield::new();
    let base = 0x2000;
    let big = Layout::from_size_align(4096, 1).unwrap();
    assert_eq!(b.first_fit(base, big), Some((0, base)));
    let mut b = Bitfield::new();
    b.set_bit(0);
    assert_eq!(b.first_fit(base, big), None);
    let too_big = Layout::from_size_align(DATA_SIZE + 1, 1).unwrap();
    assert_eq!(Bitfield::new().first_fit(base, too_big), None);
    let l2048 = Layout::from_size_align(2048, 4096).unwrap();
    let mut b = Bitfield::new();
    b.set_bit(0);
    assert_eq!(b.first_fit(base, l2048), Some((2, base + 4096)));
}

#[test]
fn page_new_wants_an_aligned_address() {
    assert!(ObjectPage8k::new(0).is_some());
    assert!(ObjectPage8k::new(8192).is_some());
    assert!(ObjectPage8k::new(1).is_none());
    assert!(ObjectPage8k::new(4096).is_none());
    assert!(ObjectPage8k::new(8192 + 8).is_none());
    let last = (usize::MAX / PAGE_SIZE) * PAGE_SIZE;
    assert!(ObjectPage8k::new(last).is_none());
    assert!(ObjectPage8k::new(last - PAGE_SIZE).is_some());
    let p = ObjectPage8k::new(0x6000).unwrap();
    assert_eq!(p.start_address(), 0x6000);
    assert_eq!(p.heap_id(), 0);
    assert!(p.is_empty(512));
}

#[test]
fn page_allocate_and_deallocate() {
    let mut p = ObjectPage8k::new(0x8000).unwrap();
    p.bitfield_mut().initialize(16, DATA_SIZE);
    let l = Layout::from_size_align(16, 1).unwrap();
    assert_eq!(p.allocate(l), Some(0x8000));
    assert_eq!(p.allocate(l), Some(0x8010));
    assert_eq!(p.allocate(l), Some(0x8020));
    assert!(!p.is_empty(506));
    assert!(p.bitfield().is_allocated(1));
    assert_eq!(p.deallocate(0x8010, l), Ok(()));
    assert!(!p.bitfield().is_allocated(1));
    // the freed slot is the first fit again
    assert_eq!(p.first_fit(l), Some((1, 0x8010)));
    assert_eq!(p.allocate(l), Some(0x8010));
    assert_eq!(p.deallocate(0x8000, l), Ok(()));
    assert_eq!(p.deallocate(0x8010, l), Ok(()));
    assert_eq!(p.deallocate(0x8020, l), Ok(()));
    assert!(p.is_empty(506));
}

#[test]
fn page_deallocate_refuses_what_it_did_not_hand_out() {
    let mut p = ObjectPage8k::new(0x8000).unwrap();
    p.bitfield_mut().initialize(16, DATA_SIZE);
    let l = Layout::from_size_align(16, 1).unwrap();
    let a = p.allocate(l).unwrap();
    // below the page
    assert_eq!(p.deallocate(0x7ff0, l), Err(AllocationError::InvalidPointer));
    // not a slot boundary
    assert_eq!(p.deallocate(a + 8, l), Err(AllocationError::InvalidPointer));
    // a free slot
    assert_eq!(p.deallocate(a + 16, l), Err(AllocationError::InvalidPointer));
    // beyond the slots that exist (506 * 16 = 8096)
    assert_eq!(p.deallocate(0x8000 + 8096, l), Err(AllocationError::InvalidPointer));
    // in another page
    assert_eq!(p.deallocate(0x8000 + 8192, l), Err(AllocationError::InvalidPointer));
    assert_eq!(p.deallocate(a, l), Ok(()));
    // double free
    assert_eq!(p.deallocate(a, l), Err(AllocationError::InvalidPointer));
}

#[test]
fn page_fills_up() {
    let mut p = ObjectPage8k::new(0).unwrap();
    p.bitfield_mut().initialize(2048, DATA_SIZE);
    let l = Layout::from_size_align(2048, 1).unwrap();
    assert_eq!(p.allocate(l), Some(0));
    assert_eq!(p.allocate(l), Some(2048));
    assert!(!p.is_full());
    assert_eq!(p.allocate(l), Some(4096));
    assert!(p.is_full());
    assert_eq!(p.allocate(l), None);
}

#[test]
fn page_metadata() {
    let mut p = ObjectPage8k::new(0x2000).unwrap();
    p.set_heap_id(9);
    assert_eq!(p.heap_id(), 9);
    let l = Layout::from_size_align(8, 1).unwrap();
    assert!(p.allocate(l).is_some());
    assert!(!p.is_empty(512));
    p.clear_metadata();
    assert_eq!(p.heap_id(), 0);
    assert_eq!(p.start_address(), 0x2000);
    assert!(p.is_empty(512));
}

#[test]
fn page_list_order() {
    let mut list = PageList::new();
    assert!(list.is_empty());
    assert_eq!(list.elements(), 0);
    assert!(list.pop().is_none());
    for i in 1..=4usize {
        list.insert_front(ObjectPage8k::new(i * PAGE_SIZE).unwrap());
    }
    assert_eq!(list.elements(), 4);
    assert!(!list.is_empty());
    assert_eq!(list.page(0).start_address(), 4 * PAGE_SIZE);
    assert_eq!(list.page(3).start_address(), PAGE_SIZE);
    assert!(list.contains(2 * PAGE_SIZE));
    assert!(!list.contains(5 * PAGE_SIZE));
    assert_eq!(list.index_of(3 * PAGE_SIZE), Some(1));
    assert_eq!(list.index_of(7 * PAGE_SIZE), None);
    let removed = list.remove_from_list(3 * PAGE_SIZE).unwrap();
    assert_eq!(removed.start_address(), 3 * PAGE_SIZE);
    assert!(list.remove_from_list(3 * PAGE_SIZE).is_none());
    assert_eq!(list.elements(), 3);
    list.page_mut(0).set_heap_id(5);
    assert_eq!(list.page(0).heap_id(), 5);
    assert_eq!(list.pop().unwrap().start_address(), 4 * PAGE_SIZE);
    assert_eq!(list.pop().unwrap().start_address(), 2 * PAGE_SIZE);
    assert_eq!(list.pop().unwrap().start_address(), PAGE_SIZE);
    assert!(list.pop().is_none());
}
