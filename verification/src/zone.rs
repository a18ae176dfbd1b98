//! An allocator for objects of any size up to [`MAX_ALLOC_SIZE`], made of
//! one [`SCAllocator`] per size class.
use vstd::prelude::*;

use crate::pages::ObjectPage8k;
use crate::sc::SCAllocator;
use crate::zone_state::{
    class_of, class_size, new_class, Slab, ZoneView, BASE_ALLOC_SIZES, MAX_ALLOC_SIZE,
    MAX_BASE_SIZE_CLASSES, SLAB_EMPTY_PAGES_THRESHOLD,
};
use crate::{AllocationError, Layout, PAGE_SIZE};

verus! {

/// An allocator for objects of up to [`MAX_ALLOC_SIZE`] bytes.
///
/// It has one [`SCAllocator`] per size class and serves each request from
/// the class of the smallest objects that are large enough. When that class
/// has run out of memory, an empty page of another class is put to use.
pub struct ZoneAllocator {
    small_slabs: [SCAllocator; 11],
}

impl View for ZoneAllocator {
    type V = ZoneView;

    closed spec fn view(&self) -> ZoneView {
        ZoneView { slabs: Seq::new(11, |c: int| self.small_slabs[c]@) }
    }
}

impl Default for ZoneAllocator {
    /// A zone without pages.
    fn default() -> (r: ZoneAllocator)
        ensures
            r@.wf(),
            r@.slabs == Seq::new(11, |c: int| new_class(c)),
            forall|b: usize| !r@.owns(b),
            forall|x: int| !r@.is_allocated(x),
    {
        ZoneAllocator::new()
    }
}

impl ZoneAllocator {
    /// Size in bytes of the largest object that a zone can allocate.
    pub const MAX_ALLOC_SIZE: usize = MAX_ALLOC_SIZE;

    /// Size in bytes of the largest object that is served from 8 KiB pages.
    pub const MAX_BASE_ALLOC_SIZE: usize = MAX_ALLOC_SIZE;

    /// Number of size classes.
    pub const MAX_BASE_SIZE_CLASSES: usize = MAX_BASE_SIZE_CLASSES;

    /// The object sizes that a zone has an allocator for, smallest first.
    pub const BASE_ALLOC_SIZES: [usize; 11] = BASE_ALLOC_SIZES;

    /// A zone without pages.
    pub fn new() -> (r: ZoneAllocator)
        ensures
            r@.wf(),
            r@.slabs == Seq::new(11, |c: int| new_class(c)),
            forall|b: usize| !r@.owns(b),
            forall|x: int| !r@.is_allocated(x),
    {
        let r = ZoneAllocator {
            small_slabs: [
                SCAllocator::new(8),
                SCAllocator::new(16),
                SCAllocator::new(32),
                SCAllocator::new(64),
                SCAllocator::new(128),
                SCAllocator::new(256),
                SCAllocator::new(512),
                SCAllocator::new(1024),
                SCAllocator::new(2048),
                SCAllocator::new(4096),
                SCAllocator::new(MAX_ALLOC_SIZE),
            ],
        };
        proof {
            assert(r@.slabs =~= Seq::new(11, |c: int| new_class(c)));
        }
        r
    }

    /// The allocator of the size class `class`.
    pub fn small_slab(&self, class: usize) -> (r: &SCAllocator)
        requires
            class < MAX_BASE_SIZE_CLASSES,
        ensures
            r@ == self@.slabs[class as int],
    {
        &self.small_slabs[class]
    }

    /// Whether some size class holds a page that starts at `base`.
    pub fn owns_page(&self, base: usize) -> (r: bool)
        ensures
            r == self@.owns(base),
    {
        let mut i: usize = 0;
        while i < 11
            invariant
                i <= 11,
                forall|c: int| 0 <= c < i ==> !(#[trigger] self@.slabs[c]).owns(base),
            decreases 11 - i,
        {
            if self.small_slabs[i].owns_page(base) {
                assert(self@.slabs[i as int].owns(base));
                return true;
            }
            i += 1;
        }
        false
    }

    /// The size of the objects that a request of `current_size` bytes is
    /// served with, or `None` when the size is above the largest class.
    pub fn get_max_size(current_size: usize) -> (r: Option<usize>)
        ensures
            r == match class_of(current_size as int) {
                Some(c) => Some(class_size(c) as usize),
                None => None,
            },
    {
        if current_size <= 8 {
            Some(8)
        } else if current_size <= 16 {
            Some(16)
        } else if current_size <= 32 {
            Some(32)
        } else if current_size <= 64 {
            Some(64)
        } else if current_size <= 128 {
            Some(128)
        } else if current_size <= 256 {
            Some(256)
        } else if current_size <= 512 {
            Some(512)
        } else if current_size <= 1024 {
            Some(1024)
        } else if current_size <= 2048 {
            Some(2048)
        } else if current_size <= 4096 {
            Some(4096)
        } else if current_size <= MAX_ALLOC_SIZE {
            Some(MAX_ALLOC_SIZE)
        } else {
            None
        }
    }

    /// The size class that serves requests of `requested_size` bytes.
    pub fn get_slab(requested_size: usize) -> (r: Slab)
        ensures
            r == match class_of(requested_size as int) {
                Some(c) => Slab::Base(c as usize),
                None => Slab::Unsupported,
            },
    {
        if requested_size <= 8 {
            Slab::Base(0)
        } else if requested_size <= 16 {
            Slab::Base(1)
        } else if requested_size <= 32 {
            Slab::Base(2)
        } else if requested_size <= 64 {
            Slab::Base(3)
        } else if requested_size <= 128 {
            Slab::Base(4)
        } else if requested_size <= 256 {
            Slab::Base(5)
        } else if requested_size <= 512 {
            Slab::Base(6)
        } else if requested_size <= 1024 {
            Slab::Base(7)
        } else if requested_size <= 2048 {
            Slab::Base(8)
        } else if requested_size <= 4096 {
            Slab::Base(9)
        } else if requested_size <= MAX_ALLOC_SIZE {
            Slab::Base(10)
        } else {
            Slab::Unsupported
        }
    }

    /// Number of empty pages in the size class with the most of them, and
    /// the index of that class; of several such classes, the first.
    pub fn small_slab_with_max_empty_pages(&self) -> (r: (usize, usize))
        ensures
            r.1 == self@.donor(),
            r.0 == self@.slabs[self@.donor()].empty.len(),
            r.1 < MAX_BASE_SIZE_CLASSES,
    {
        let mut max_empty_pages: usize = 0;
        let mut id: usize = 0;
        let mut i: usize = 0;
        while i < 11
            invariant
                i <= 11,
                id < 11,
                i == 0 ==> id == 0 && max_empty_pages == 0,
                i > 0 ==> id == self@.most_empty_among(i as int) && max_empty_pages
                    == self@.slabs[id as int].empty.len(),
            decreases 11 - i,
        {
            let empty_pages: usize = self.small_slabs[i].empty_page_count();
            if empty_pages > max_empty_pages {
                max_empty_pages = empty_pages;
                id = i;
            }
            proof {
                if i == 0 {
                    assert(self@.most_empty_among(1) == 0);
                    assert(id == 0);
                    assert(max_empty_pages == self@.slabs[0].empty.len());
                }
            }
            i += 1;
        }
        (max_empty_pages, id)
    }

    /// The owner tag of the page that the zone would give away next.
    pub fn heap_id(&self) -> (r: Option<usize>)
        ensures
            r == if self@.can_give() {
                Some(self@.slabs[self@.donor()].empty[0].heap_id)
            } else {
                None
            },
    {
        let (max_empty_pages, idx) = self.small_slab_with_max_empty_pages();
        if max_empty_pages > SLAB_EMPTY_PAGES_THRESHOLD {
            self.small_slabs[idx].heap_id()
        } else {
            None
        }
    }

    /// Hands `page` to the size class that serves `layout`, for the heap
    /// `heap_id`. A layout above the largest class is refused, and the zone
    /// stays as it is.
    pub fn refill(&mut self, layout: Layout, page: ObjectPage8k, heap_id: usize) -> (r: Result<
        (),
        AllocationError,
    >)
        requires
            old(self)@.wf(),
            page@.wf(),
            !old(self)@.owns(page@.base),
        ensures
            final(self)@.wf(),
            match class_of(layout.size() as int) {
                Some(c) => {
                    &&& r.is_ok()
                    &&& final(self)@ == old(self)@.after_refill(c, page@, heap_id)
                    &&& forall|b: usize| #![all_triggers]
                        final(self)@.owns(b) <==> (b == page@.base || old(self)@.owns(b))
                },
                None => r == Err::<(), AllocationError>(AllocationError::InvalidLayout)
                    && final(self)@ == old(self)@,
            },
            forall|x: int| #![all_triggers]
                final(self)@.is_allocated(x) == old(self)@.is_allocated(x),
    {
        match ZoneAllocator::get_slab(layout.size()) {
            Slab::Base(idx) => {
                proof {
                    old(self)@.lemma_refill(idx as int, page@, heap_id);
                    assert(!old(self)@.slabs[idx as int].owns(page@.base));
                }
                let r = self.small_slabs[idx].refill(page, heap_id);
                proof {
                    assert(self@.slabs =~= old(self)@.after_refill(
                        idx as int,
                        page@,
                        heap_id,
                    ).slabs);
                }
                r
            },
            Slab::Large(_idx) => Err(AllocationError::InvalidLayout),
            Slab::Unsupported => Err(AllocationError::InvalidLayout),
        }
    }

    /// Withdraws an empty page from the size class with the most empty
    /// pages; `None` when no class has one.
    pub fn retrieve_empty_page(&mut self) -> (r: Option<ObjectPage8k>)
        requires
            old(self)@.wf(),
        ensures
            final(self)@.wf(),
            final(self)@ == old(self)@.after_retrieve(),
            match r {
                Some(page) => {
                    &&& old(self)@.can_give()
                    &&& page@ == old(self)@.slabs[old(self)@.donor()].empty[0]
                    &&& page@.wf()
                    &&& !final(self)@.owns(page@.base)
                    &&& forall|b: usize| #![all_triggers]
                        old(self)@.owns(b) <==> (b == page@.base || final(self)@.owns(b))
                },
                None => !old(self)@.can_give(),
            },
            forall|x: int| #![all_triggers]
                final(self)@.is_allocated(x) == old(self)@.is_allocated(x),
    {
        let (max_empty_pages, idx) = self.small_slab_with_max_empty_pages();
        if max_empty_pages > SLAB_EMPTY_PAGES_THRESHOLD {
            proof {
                old(self)@.lemma_retrieve();
            }
            let r = self.small_slabs[idx].retrieve_empty_page();
            proof {
                assert(self@.slabs =~= old(self)@.after_retrieve().slabs);
            }
            r
        } else {
            None
        }
    }

    /// Moves an empty page from the size class with the most empty pages to
    /// the class that serves `layout`, for the heap `heap_id`.
    ///
    /// Fails with `NoEmptyPage` when no class has an empty page. A layout
    /// above the largest class is refused after the page was withdrawn: the
    /// page has then left the zone.
    pub fn exchange_pages_within_heap(&mut self, layout: Layout, heap_id: usize) -> (r: Result<
        (),
        AllocationError,
    >)
        requires
            old(self)@.wf(),
        ensures
            final(self)@.wf(),
            !old(self)@.can_give() ==> r == Err::<(), AllocationError>(
                AllocationError::NoEmptyPage,
            ) && final(self)@ == old(self)@,
            old(self)@.can_give() ==> match class_of(layout.size() as int) {
                Some(c) => {
                    &&& r.is_ok()
                    &&& final(self)@ == old(self)@.after_exchange(c, heap_id)
                    &&& forall|b: usize| #![all_triggers]
                        final(self)@.owns(b) <==> old(self)@.owns(b)
                },
                None => r == Err::<(), AllocationError>(AllocationError::InvalidLayout)
                    && final(self)@ == old(self)@.after_retrieve(),
            },
            forall|x: int| #![all_triggers]
                final(self)@.is_allocated(x) == old(self)@.is_allocated(x),
    {
        match self.retrieve_empty_page() {
            Some(mp) => self.refill(layout, mp, heap_id),
            None => Err(AllocationError::NoEmptyPage),
        }
    }

    /// Allocates an object of the given layout and returns its address.
    ///
    /// A size above the largest class or an alignment above the page size is
    /// refused. Where the size class of the request has no free slot left,
    /// an empty page of another class is moved to it; without such a page
    /// the zone is out of memory.
    pub fn allocate(&mut self, layout: Layout) -> (r: Result<usize, AllocationError>)
        requires
            old(self)@.wf(),
        ensures
            final(self)@.wf(),
            forall|b: usize| #![all_triggers] final(self)@.owns(b) <==> old(self)@.owns(b),
            (layout.size() > MAX_ALLOC_SIZE || layout.align() > PAGE_SIZE) ==> r == Err::<
                usize,
                AllocationError,
            >(AllocationError::InvalidLayout) && final(self)@ == old(self)@,
            (layout.size() <= MAX_ALLOC_SIZE && layout.align() <= PAGE_SIZE) ==> final(self)@
                == old(self)@.after_allocate(
                class_of(layout.size() as int).unwrap(),
                layout.align() as int,
            ) && match old(self)@.allocation(
                class_of(layout.size() as int).unwrap(),
                layout.align() as int,
            ) {
                Some(addr) => r == Ok::<usize, AllocationError>(addr as usize) && addr
                    == addr as usize,
                None => r == Err::<usize, AllocationError>(AllocationError::OutOfMemory),
            },
            match r {
                Ok(addr) => {
                    &&& addr % layout.align() == 0
                    &&& addr + layout.size() <= usize::MAX
                    &&& !old(self)@.is_allocated(addr as int)
                    &&& final(self)@.slabs[class_of(layout.size() as int).unwrap()].is_allocated(
                        addr as int,
                    )
                    &&& forall|x: int| #![all_triggers]
                        final(self)@.is_allocated(x) <==> (x == addr || old(self)@.is_allocated(x))
                },
                Err(_) => final(self)@ == old(self)@,
            },
    {
        match ZoneAllocator::get_slab(layout.size()) {
            Slab::Base(idx) => {
                if layout.align() > PAGE_SIZE {
                    return Err(AllocationError::InvalidLayout);
                }
                proof {
                    old(self)@.lemma_allocate(idx as int, layout.align() as int);
                    old(self)@.slabs[idx as int].lemma_allocate(layout.align() as int);
                }
                match self.small_slabs[idx].allocate(layout) {
                    Ok(ptr) => {
                        proof {
                            assert(self@.slabs =~= old(self)@.after_allocate(
                                idx as int,
                                layout.align() as int,
                            ).slabs);
                        }
                        Ok(ptr)
                    },
                    Err(_e) => {
                        proof {
                            assert(self@.slabs =~= old(self)@.slabs);
                        }
                        match self.heap_id() {
                            Some(id) => {
                                match self.exchange_pages_within_heap(layout, id) {
                                    Ok(()) => {
                                        let ghost moved = self@;
                                        proof {
                                            old(self)@.lemma_exchange(idx as int, id);
                                            moved.slabs[idx as int].lemma_allocate(
                                                layout.align() as int,
                                            );
                                        }
                                        let r = self.small_slabs[idx].allocate(layout);
                                        proof {
                                            assert(self@.slabs =~= old(self)@.after_allocate(
                                                idx as int,
                                                layout.align() as int,
                                            ).slabs);
                                        }
                                        r
                                    },
                                    Err(_) => Err(AllocationError::OutOfMemory),
                                }
                            },
                            None => Err(AllocationError::OutOfMemory),
                        }
                    },
                }
            },
            Slab::Large(_idx) => Err(AllocationError::InvalidLayout),
            Slab::Unsupported => Err(AllocationError::InvalidLayout),
        }
    }

    /// Takes back the object at `ptr`, which was allocated with `layout` or
    /// with a layout of the same size class.
    ///
    /// A size above the largest class is refused, and so is an address that
    /// is not the address of an object in use in the size class of `layout`;
    /// the zone then stays as it is.
    pub fn deallocate(&mut self, ptr: usize, layout: Layout) -> (r: Result<(), AllocationError>)
        requires
            old(self)@.wf(),
        ensures
            final(self)@.wf(),
            forall|b: usize| #![all_triggers] final(self)@.owns(b) <==> old(self)@.owns(b),
            match class_of(layout.size() as int) {
                Some(c) => if old(self)@.slabs[c].is_allocated(ptr as int) {
                    &&& r.is_ok()
                    &&& final(self)@ == old(self)@.after_deallocate(c, ptr as int)
                    &&& forall|x: int| #![all_triggers]
                        final(self)@.is_allocated(x) <==> (x != ptr && old(self)@.is_allocated(x))
                } else {
                    r == Err::<(), AllocationError>(AllocationError::InvalidPointer)
                        && final(self)@ == old(self)@
                },
                None => r == Err::<(), AllocationError>(AllocationError::InvalidLayout)
                    && final(self)@ == old(self)@,
            },
    {
        match ZoneAllocator::get_slab(layout.size()) {
            Slab::Base(idx) => {
                proof {
                    if old(self)@.slabs[idx as int].is_allocated(ptr as int) {
                        old(self)@.lemma_deallocate(idx as int, ptr as int);
                    }
                }
                let r = self.small_slabs[idx].deallocate(ptr, layout);
                proof {
                    assert(class_of(layout.size() as int) == Some(idx as int));
                    assert(self@.slabs[idx as int] == self.small_slabs[idx as int]@);
                    if old(self)@.slabs[idx as int].is_allocated(ptr as int) {
                        assert(self@.slabs =~= old(self)@.after_deallocate(
                            idx as int,
                            ptr as int,
                        ).slabs);
                        assert(self@ == old(self)@.after_deallocate(idx as int, ptr as int));
                        old(self)@.lemma_deallocate(idx as int, ptr as int);
                    } else {
                        assert(self@.slabs =~= old(self)@.slabs);
                        assert(self@ == old(self)@);
                    }
                }
                r
            },
            Slab::Large(_idx) => Err(AllocationError::InvalidLayout),
            Slab::Unsupported => Err(AllocationError::InvalidLayout),
        }
    }

    /// Takes all pages of `allocator`, which shares no page with this zone,
    /// and adds them to the like lists of this zone for the heap `heap_id`.
    /// `allocator` is left without pages.
    pub fn merge(&mut self, allocator: &mut ZoneAllocator, heap_id: usize) -> (r: Result<
        (),
        AllocationError,
    >)
        requires
            old(self)@.wf(),
            old(allocator)@.wf(),
            forall|b: usize| #![all_triggers] !(old(self)@.owns(b) && old(allocator)@.owns(b)),
        ensures
            r.is_ok(),
            final(self)@ == old(self)@.after_merge(old(allocator)@, heap_id),
            final(allocator)@ == old(allocator)@.without_pages(),
            final(self)@.wf(),
            final(allocator)@.wf(),
            forall|b: usize| #![all_triggers]
                final(self)@.owns(b) <==> (old(self)@.owns(b) || old(allocator)@.owns(b)),
            forall|x: int| #![all_triggers]
                final(self)@.is_allocated(x) <==> (old(self)@.is_allocated(x) || old(
                    allocator,
                )@.is_allocated(x)),
            forall|b: usize| !final(allocator)@.owns(b),
            forall|x: int| !final(allocator)@.is_allocated(x),
    {
        let ghost mine = self@;
        let ghost theirs = allocator@;
        proof {
            mine.lemma_merge(theirs, heap_id);
        }
        let mut i: usize = 0;
        while i < 11
            invariant
                i <= 11,
                mine.wf(),
                theirs.wf(),
                forall|b: usize| #![all_triggers] !(mine.owns(b) && theirs.owns(b)),
                forall|c: int|
                    0 <= c < 11 ==> #[trigger] self@.slabs[c] == if c < i {
                        mine.slabs[c].after_merge(theirs.slabs[c], heap_id)
                    } else {
                        mine.slabs[c]
                    },
                forall|c: int|
                    0 <= c < 11 ==> #[trigger] allocator@.slabs[c] == if c < i {
                        theirs.slabs[c].without_pages()
                    } else {
                        theirs.slabs[c]
                    },
            decreases 11 - i,
        {
            let size: usize = BASE_ALLOC_SIZES[i];
            match ZoneAllocator::get_slab(size) {
                Slab::Base(idx) => {
                    proof {
                        assert(idx == i);
                        assert(self@.slabs[i as int] == mine.slabs[i as int]);
                        assert(allocator@.slabs[i as int] == theirs.slabs[i as int]);
                        assert(mine.slabs[i as int].wf());
                        assert(theirs.slabs[i as int].wf());
                        assert forall|b: usize|
                            !(mine.slabs[i as int].owns(b) && theirs.slabs[i as int].owns(
                                b,
                            )) by {
                            assert(!(mine.owns(b) && theirs.owns(b)));
                        }
                    }
                    let ghost before = self@;
                    let ghost before_other = allocator@;
                    match self.small_slabs[idx].merge(&mut allocator.small_slabs[idx], heap_id) {
                        Ok(()) => {},
                        Err(e) => {
                            return Err(e);
                        },
                    }
                    proof {
                        assert(self@.slabs[i as int] == mine.slabs[i as int].after_merge(
                            theirs.slabs[i as int],
                            heap_id,
                        ));
                        assert(allocator@.slabs[i as int]
                            == theirs.slabs[i as int].without_pages());
                        assert forall|c: int|
                            0 <= c < 11 && c != i implies #[trigger] self@.slabs[c]
                            == before.slabs[c] by {}
                        assert forall|c: int|
                            0 <= c < 11 && c != i implies #[trigger] allocator@.slabs[c]
                            == before_other.slabs[c] by {}
                    }
                },
                Slab::Large(_idx) => {
                    return Err(AllocationError::InvalidLayout);
                },
                Slab::Unsupported => {
                    return Err(AllocationError::InvalidLayout);
                },
            }
            i += 1;
        }
        proof {
            assert(self@.slabs =~= mine.after_merge(theirs, heap_id).slabs);
            assert(allocator@.slabs =~= theirs.without_pages().slabs);
        }
        Ok(())
    }

    /// Number of empty pages in the zone.
    pub fn empty_pages(&self) -> (r: usize)
        requires
            self@.wf(),
        ensures
            r == self@.empty_pages(),
    {
        let mut empty_pages: usize = 0;
        let mut i: usize = 0;
        while i < 11
            invariant
                i <= 11,
                self@.wf(),
                empty_pages == self@.empty_pages_among(i as int),
            decreases 11 - i,
        {
            proof {
                self@.lemma_empty_pages_bound(i as int);
                self@.lemma_empty_pages_bound(i as int + 1);
                assert(11 * (usize::MAX / PAGE_SIZE) <= usize::MAX);
                assert((i + 1) * (usize::MAX / PAGE_SIZE) <= 11 * (usize::MAX / PAGE_SIZE))
                    by (nonlinear_arith)
                    requires
                        i + 1 <= 11,
                ;
            }
            empty_pages = empty_pages + self.small_slabs[i].empty_page_count();
            i += 1;
        }
        empty_pages
    }
}

} // verus!
