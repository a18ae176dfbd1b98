//! An allocator for objects of one size.
use vstd::prelude::*;

use crate::bitfield::{cmin, slots_in, BITFIELD_BITS};
use crate::page_list::{
    has_fitting, has_page, holds_in, is_first_at, is_first_fitting, lemma_drained_ends,
    lemma_drained_step, lemma_fitting_page, lemma_position, lemma_update_remove,
    lemma_update_same_base, position, drained, PageList,
};
use crate::pages::{page_base, ObjectPage8k, PageView};
use crate::sc_state::SCView;
use crate::{AllocationError, Layout, DATA_SIZE, PAGE_SIZE};

verus! {

/// An allocator for objects of one size.
///
/// It keeps its pages on three lists. Allocation searches the partially
/// used pages and then takes a page from the empty list; a page that an
/// allocation fills moves to the full list. Deallocation moves a page back
/// when it stops being full or becomes empty.
pub struct SCAllocator {
    size: usize,
    allocation_count: usize,
    obj_per_page: usize,
    empty_slabs: PageList,
    slabs: PageList,
    full_slabs: PageList,
}

impl View for SCAllocator {
    type V = SCView;

    closed spec fn view(&self) -> SCView {
        SCView {
            size: self.size,
            allocation_count: self.allocation_count,
            obj_per_page: self.obj_per_page,
            empty: self.empty_slabs@,
            partial: self.slabs@,
            full: self.full_slabs@,
        }
    }
}

impl SCAllocator {
    /// An allocator without pages for objects of `size` bytes.
    pub fn new(size: usize) -> (r: SCAllocator)
        requires
            0 < size <= DATA_SIZE,
        ensures
            r@ == (SCView {
                size,
                allocation_count: 0,
                obj_per_page: slots_in(size as int, DATA_SIZE as int) as usize,
                empty: Seq::empty(),
                partial: Seq::empty(),
                full: Seq::empty(),
            }),
            r@.wf(),
            forall|b: usize| !r@.owns(b),
            forall|x: int| !r@.is_allocated(x),
    {
        SCAllocator {
            size,
            allocation_count: 0,
            obj_per_page: cmin(DATA_SIZE / size, BITFIELD_BITS),
            empty_slabs: PageList::new(),
            slabs: PageList::new(),
            full_slabs: PageList::new(),
        }
    }

    /// The size in bytes of the objects that this allocator hands out.
    pub fn size(&self) -> (r: usize)
        ensures
            r == self@.size,
    {
        self.size
    }

    /// Number of allocations served from partially used pages so far,
    /// counted up to the largest number and then from zero again.
    pub fn allocation_count(&self) -> (r: usize)
        ensures
            r == self@.allocation_count,
    {
        self.allocation_count
    }

    /// Number of slots in each page of this allocator.
    pub fn obj_per_page(&self) -> (r: usize)
        ensures
            r == self@.obj_per_page,
    {
        self.obj_per_page
    }

    /// Number of pages on the empty list.
    pub fn empty_page_count(&self) -> (r: usize)
        ensures
            r == self@.empty.len(),
    {
        self.empty_slabs.elements()
    }

    /// Whether the allocator holds a page that starts at `base`.
    pub fn owns_page(&self, base: usize) -> (r: bool)
        ensures
            r == self@.owns(base),
    {
        self.empty_slabs.contains(base) || self.slabs.contains(base) || self.full_slabs.contains(
            base,
        )
    }

    /// The list of pages with no slot taken.
    pub fn empty_slabs(&self) -> (r: &PageList)
        ensures
            r@ == self@.empty,
    {
        &self.empty_slabs
    }

    /// The list of pages in use that are searched for free slots.
    pub fn slabs(&self) -> (r: &PageList)
        ensures
            r@ == self@.partial,
    {
        &self.slabs
    }

    /// The list of pages found full.
    pub fn full_slabs(&self) -> (r: &PageList)
        ensures
            r@ == self@.full,
    {
        &self.full_slabs
    }

    /// The owner tag of the page that `retrieve_empty_page` would withdraw.
    pub fn heap_id(&self) -> (r: Option<usize>)
        ensures
            r == if self@.empty.len() > 0 {
                Some(self@.empty[0].heap_id)
            } else {
                None
            },
    {
        if self.empty_slabs.is_empty() {
            None
        } else {
            Some(self.empty_slabs.page(0).heap_id())
        }
    }

    /// Puts `new_head` at the front of the partial list.
    fn insert_partial_slab(&mut self, new_head: ObjectPage8k)
        ensures
            final(self)@ == (SCView {
                partial: old(self)@.partial.insert(0, new_head@),
                ..old(self)@
            }),
    {
        self.slabs.insert_front(new_head);
    }

    /// Puts `new_head` at the front of the empty list.
    fn insert_empty(&mut self, new_head: ObjectPage8k)
        ensures
            final(self)@ == (SCView { empty: old(self)@.empty.insert(0, new_head@), ..old(self)@ }),
    {
        self.empty_slabs.insert_front(new_head);
    }

    /// Takes the front page off the empty list.
    fn remove_empty(&mut self) -> (r: Option<ObjectPage8k>)
        ensures
            match r {
                Some(page) => old(self)@.empty.len() > 0 && page@ == old(self)@.empty[0],
                None => old(self)@.empty.len() == 0,
            },
            final(self)@ == old(self)@.after_retrieve(),
    {
        self.empty_slabs.pop()
    }

    /// Takes the front page off the partial list.
    fn remove_partial(&mut self) -> (r: Option<ObjectPage8k>)
        ensures
            match r {
                Some(page) => old(self)@.partial.len() > 0 && page@ == old(self)@.partial[0]
                    && final(self)@ == (SCView {
                    partial: old(self)@.partial.remove(0),
                    ..old(self)@
                }),
                None => old(self)@.partial.len() == 0 && final(self)@ == old(self)@,
            },
    {
        self.slabs.pop()
    }

    /// Takes the front page off the full list.
    fn remove_full(&mut self) -> (r: Option<ObjectPage8k>)
        ensures
            match r {
                Some(page) => old(self)@.full.len() > 0 && page@ == old(self)@.full[0]
                    && final(self)@ == (SCView {
                    full: old(self)@.full.remove(0),
                    ..old(self)@
                }),
                None => old(self)@.full.len() == 0 && final(self)@ == old(self)@,
            },
    {
        self.full_slabs.pop()
    }

    /// Hands `page` to the allocator for the heap `heap_id`. Whatever the
    /// page recorded before is forgotten: it joins the empty list with all
    /// its slots free.
    pub fn refill(&mut self, page: ObjectPage8k, heap_id: usize) -> (r: Result<
        (),
        AllocationError,
    >)
        requires
            old(self)@.wf(),
            page@.wf(),
            !old(self)@.owns(page@.base),
        ensures
            r.is_ok(),
            final(self)@ == old(self)@.after_refill(page@, heap_id),
            final(self)@.wf(),
            forall|b: usize| #![all_triggers]
                final(self)@.owns(b) <==> (b == page@.base || old(self)@.owns(b)),
            forall|a: int| final(self)@.is_allocated(a) == old(self)@.is_allocated(a),
    {
        let mut mp = page;
        mp.clear_metadata();
        mp.bitfield_mut().initialize(self.size, DATA_SIZE);
        mp.set_heap_id(heap_id);
        proof {
            assert(mp@ == page@.reset(self.size as int, heap_id));
            old(self)@.lemma_refill(page@, heap_id);
        }
        self.insert_empty(mp);
        Ok(())
    }

    /// Withdraws a page from the empty list, if it has one.
    pub fn retrieve_empty_page(&mut self) -> (r: Option<ObjectPage8k>)
        requires
            old(self)@.wf(),
        ensures
            match r {
                Some(page) => {
                    &&& old(self)@.empty.len() > 0
                    &&& page@ == old(self)@.empty[0]
                    &&& page@.wf()
                    &&& !final(self)@.owns(page@.base)
                    &&& forall|b: usize| #![all_triggers]
                        old(self)@.owns(b) <==> (b == page@.base || final(self)@.owns(b))
                },
                None => old(self)@.empty.len() == 0,
            },
            final(self)@ == old(self)@.after_retrieve(),
            final(self)@.wf(),
            forall|a: int| final(self)@.is_allocated(a) == old(self)@.is_allocated(a),
    {
        proof {
            if old(self)@.empty.len() > 0 {
                old(self)@.lemma_retrieve();
            }
        }
        self.remove_empty()
    }

    /// Moves the page that starts at `page_addr` from the partial list to
    /// the front of the empty list.
    fn move_to_empty(&mut self, page_addr: usize)
        requires
            has_page(old(self)@.partial, page_addr),
        ensures
            final(self)@ == (SCView {
                partial: old(self)@.partial.remove(position(old(self)@.partial, page_addr)),
                empty: old(self)@.empty.insert(
                    0,
                    old(self)@.partial[position(old(self)@.partial, page_addr)],
                ),
                ..old(self)@
            }),
    {
        match self.slabs.remove_from_list(page_addr) {
            Some(page_to_move) => {
                proof {
                    let i = choose|i: int|
                        is_first_at(old(self)@.partial, page_addr, i) && page_to_move@ == old(
                            self,
                        )@.partial[i] && self.slabs@ == old(self)@.partial.remove(i);
                    lemma_position(old(self)@.partial, page_addr, i);
                }
                self.empty_slabs.insert_front(page_to_move);
            },
            None => {},
        }
    }

    /// Moves the page that starts at `page_addr` from the partial list to
    /// the front of the full list.
    fn move_partial_to_full(&mut self, page_addr: usize)
        requires
            has_page(old(self)@.partial, page_addr),
        ensures
            final(self)@ == (SCView {
                partial: old(self)@.partial.remove(position(old(self)@.partial, page_addr)),
                full: old(self)@.full.insert(
                    0,
                    old(self)@.partial[position(old(self)@.partial, page_addr)],
                ),
                ..old(self)@
            }),
    {
        match self.slabs.remove_from_list(page_addr) {
            Some(page_to_move) => {
                proof {
                    let i = choose|i: int|
                        is_first_at(old(self)@.partial, page_addr, i) && page_to_move@ == old(
                            self,
                        )@.partial[i] && self.slabs@ == old(self)@.partial.remove(i);
                    lemma_position(old(self)@.partial, page_addr, i);
                }
                self.full_slabs.insert_front(page_to_move);
            },
            None => {},
        }
    }

    /// Moves the page that starts at `page_addr` from the full list to the
    /// front of the partial list.
    fn move_full_to_partial(&mut self, page_addr: usize)
        requires
            has_page(old(self)@.full, page_addr),
        ensures
            final(self)@ == (SCView {
                full: old(self)@.full.remove(position(old(self)@.full, page_addr)),
                partial: old(self)@.partial.insert(
                    0,
                    old(self)@.full[position(old(self)@.full, page_addr)],
                ),
                ..old(self)@
            }),
    {
        match self.full_slabs.remove_from_list(page_addr) {
            Some(page_to_move) => {
                proof {
                    let i = choose|i: int|
                        is_first_at(old(self)@.full, page_addr, i) && page_to_move@ == old(
                            self,
                        )@.full[i] && self.full_slabs@ == old(self)@.full.remove(i);
                    lemma_position(old(self)@.full, page_addr, i);
                }
                self.slabs.insert_front(page_to_move);
            },
            None => {},
        }
    }

    /// Serves a request from the partial list: takes the first free slot
    /// that suits `sc_layout` in the first page that has one. `None`, with
    /// nothing changed, when no page of the list has such a slot.
    fn try_allocate_from_pagelist(&mut self, sc_layout: Layout) -> (r: Option<usize>)
        requires
            old(self)@.wf(),
            sc_layout.size() == old(self)@.size,
        ensures
            match r {
                Some(addr) => {
                    &&& has_fitting(
                        old(self)@.partial,
                        old(self)@.size as int,
                        sc_layout.align() as int,
                    )
                    &&& Some(addr as int) == old(self)@.allocation(sc_layout.align() as int)
                    &&& final(self)@ == old(self)@.after_partial_allocate(sc_layout.align() as int)
                },
                None => {
                    &&& !has_fitting(
                        old(self)@.partial,
                        old(self)@.size as int,
                        sc_layout.align() as int,
                    )
                    &&& final(self)@ == old(self)@
                },
            },
    {
        let n: usize = self.slabs.elements();
        let ghost size = self.size as int;
        let ghost align = sc_layout.align() as int;
        let mut k: usize = 0;
        while k < n
            invariant
                k <= n,
                n == self@.partial.len(),
                self@ == old(self)@,
                self@.wf(),
                size == self@.size,
                align == sc_layout.align(),
                sc_layout.size() == self@.size,
                forall|j: int| 0 <= j < k ==> self@.partial[j].first_fit(size, align).is_none(),
            decreases n - k,
        {
            proof {
                assert(self@.page_ok(self@.partial[k as int]));
            }
            let found = self.slabs.page_mut(k).allocate(sc_layout);
            match found {
                Some(addr) => {
                    proof {
                        assert(is_first_fitting(old(self)@.partial, size, align, k as int));
                        lemma_fitting_page(old(self)@.partial, size, align, k as int);
                        lemma_update_remove(old(self)@.partial, k as int, self@.partial[k as int]);
                    }
                    if self.slabs.page(k).is_full() {
                        let base: usize = self.slabs.page(k).start_address();
                        proof {
                            lemma_update_same_base(
                                old(self)@.partial,
                                k as int,
                                self@.partial[k as int],
                            );
                            assert(is_first_at(self@.partial, base, k as int)) by {
                                assert forall|j: int| 0 <= j < k implies self@.partial[j].base
                                    != base by {
                                    assert(self@.partial[j] == old(self)@.partial[j]);
                                }
                            }
                            lemma_position(self@.partial, base, k as int);
                        }
                        self.move_partial_to_full(base);
                    }
                    self.allocation_count = if self.allocation_count == usize::MAX {
                        0
                    } else {
                        self.allocation_count + 1
                    };
                    return Some(addr);
                },
                None => {
                    proof {
                        assert(self@.partial =~= old(self)@.partial);
                    }
                },
            }
            k += 1;
        }
        None
    }

    /// Allocates an object of `layout.size()` bytes, which must not exceed
    /// the size of this allocator's objects, and returns its address.
    ///
    /// The partial list is searched first; if no page there has a suitable
    /// free slot, the front page of the empty list is put to use. An
    /// alignment above the page size is refused.
    pub fn allocate(&mut self, layout: Layout) -> (r: Result<usize, AllocationError>)
        requires
            old(self)@.wf(),
            layout.size() <= old(self)@.size,
        ensures
            final(self)@.wf(),
            forall|b: usize| #![all_triggers] final(self)@.owns(b) <==> old(self)@.owns(b),
            layout.align() > PAGE_SIZE ==> r == Err::<usize, AllocationError>(
                AllocationError::InvalidLayout,
            ) && final(self)@ == old(self)@,
            layout.align() <= PAGE_SIZE ==> final(self)@ == old(self)@.after_allocate(
                layout.align() as int,
            ) && match old(self)@.allocation(layout.align() as int) {
                Some(addr) => r == Ok::<usize, AllocationError>(addr as usize) && addr
                    == addr as usize,
                None => r == Err::<usize, AllocationError>(AllocationError::OutOfMemory),
            },
            match r {
                Ok(addr) => {
                    &&& addr % layout.align() == 0
                    &&& addr + old(self)@.size <= usize::MAX
                    &&& !old(self)@.is_allocated(addr as int)
                    &&& forall|x: int| #![all_triggers]
                        final(self)@.is_allocated(x) <==> (x == addr || old(self)@.is_allocated(x))
                },
                Err(_) => final(self)@ == old(self)@,
            },
    {
        if layout.align() > PAGE_SIZE {
            return Err(AllocationError::InvalidLayout);
        }
        let new_layout = Layout::from_size_align_unchecked(self.size, layout.align());
        proof {
            if has_fitting(self@.partial, self@.size as int, layout.align() as int) {
                self@.lemma_partial_allocate(layout.align() as int);
            } else if self@.empty.len() > 0 {
                self@.lemma_fresh_allocate(layout.align() as int);
            }
        }
        match self.try_allocate_from_pagelist(new_layout) {
            Some(ptr) => {
                proof {
                    assert(self@ == old(self)@.after_allocate(layout.align() as int));
                    assert(old(self)@.allocation(layout.align() as int) == Some(ptr as int));
                }
                Ok(ptr)
            },
            None => {
                match self.empty_slabs.pop() {
                    Some(mut empty_page) => {
                        proof {
                            assert(old(self)@.page_ok(empty_page@));
                        }
                        let found = empty_page.allocate(new_layout);
                        proof {
                            assert(found.is_some());
                            assert(empty_page@ == old(self)@.empty[0].with_bit(0, true));
                            assert(found.unwrap() == old(self)@.empty[0].base);
                        }
                        self.insert_partial_slab(empty_page);
                        proof {
                            assert(self@ == old(self)@.after_fresh_allocate());
                            assert(self@ == old(self)@.after_allocate(layout.align() as int));
                            assert(old(self)@.allocation(layout.align() as int) == Some(
                                old(self)@.empty[0].base as int,
                            ));
                        }
                        match found {
                            Some(ptr) => Ok(ptr),
                            None => Err(AllocationError::OutOfMemory),
                        }
                    },
                    None => Err(AllocationError::OutOfMemory),
                }
            },
        }
    }

    /// Takes back the object at `ptr`, which was allocated with a layout of
    /// at most this allocator's object size.
    ///
    /// The page of the object is found by its address. A page of the partial
    /// list that becomes empty moves to the empty list, and a page of the
    /// full list moves to the partial list. An address that is not the
    /// address of an object in use is refused and nothing changes.
    pub fn deallocate(&mut self, ptr: usize, layout: Layout) -> (r: Result<(), AllocationError>)
        requires
            old(self)@.wf(),
            layout.size() <= old(self)@.size,
        ensures
            final(self)@.wf(),
            forall|b: usize| #![all_triggers] final(self)@.owns(b) <==> old(self)@.owns(b),
            old(self)@.is_allocated(ptr as int) ==> r.is_ok() && final(self)@ == old(
                self,
            )@.after_deallocate(ptr as int),
            !old(self)@.is_allocated(ptr as int) ==> r == Err::<(), AllocationError>(
                AllocationError::InvalidPointer,
            ) && final(self)@ == old(self)@,
            forall|x: int| #![all_triggers]
                final(self)@.is_allocated(x) <==> (x != ptr && old(self)@.is_allocated(x)),
    {
        let base: usize = ptr & !(PAGE_SIZE - 1);
        let new_layout = Layout::from_size_align_unchecked(self.size, layout.align());
        let ghost size = self.size as int;
        proof {
            assert(ptr & !((8192usize - 1) as usize) == ptr - ptr % 8192usize) by (bit_vector);
            assert(base == page_base(ptr as int));
            if self@.is_allocated(ptr as int) {
                self@.lemma_allocated_page(ptr as int);
                self@.lemma_deallocate(ptr as int);
            }
        }
        match self.slabs.index_of(base) {
            Some(k) => {
                proof {
                    lemma_position(self@.partial, base, k as int);
                    assert(self@.page_ok(self@.partial[k as int]));
                    if self@.partial[k as int].holds(size, ptr as int) {
                        assert(holds_in(self@.partial, size, ptr as int));
                    }
                }
                let ret = self.slabs.page_mut(k).deallocate(ptr, new_layout);
                if ret.is_err() {
                    proof {
                        assert(self@.partial =~= old(self)@.partial);
                    }
                    return ret;
                }
                proof {
                    lemma_update_remove(old(self)@.partial, k as int, self@.partial[k as int]);
                }
                if self.slabs.page(k).is_empty(self.obj_per_page) {
                    proof {
                        assert(is_first_at(self@.partial, base, k as int)) by {
                            assert forall|j: int| 0 <= j < k implies self@.partial[j].base
                                != base by {
                                assert(self@.partial[j] == old(self)@.partial[j]);
                            }
                        }
                        lemma_position(self@.partial, base, k as int);
                    }
                    self.move_to_empty(base);
                }
                ret
            },
            None => match self.full_slabs.index_of(base) {
                Some(k) => {
                    proof {
                        lemma_position(self@.full, base, k as int);
                        assert(self@.page_ok(self@.full[k as int]));
                        if self@.full[k as int].holds(size, ptr as int) {
                            assert(holds_in(self@.full, size, ptr as int));
                        }
                    }
                    let ret = self.full_slabs.page_mut(k).deallocate(ptr, new_layout);
                    if ret.is_err() {
                        proof {
                            assert(self@.full =~= old(self)@.full);
                        }
                        return ret;
                    }
                    proof {
                        lemma_update_remove(old(self)@.full, k as int, self@.full[k as int]);
                        assert(is_first_at(self@.full, base, k as int)) by {
                            assert forall|j: int| 0 <= j < k implies self@.full[j].base != base by {
                                assert(self@.full[j] == old(self)@.full[j]);
                            }
                        }
                        lemma_position(self@.full, base, k as int);
                    }
                    // A page of the full list has a second object, so it is
                    // not empty now.
                    self.move_full_to_partial(base);
                    ret
                },
                None => Err(AllocationError::InvalidPointer),
            },
        }
    }

    /// Takes all pages of `allocator`, which serves objects of the same size
    /// and shares no page with this allocator, and adds them to the lists of
    /// this one for the heap `heap_id`. `allocator` is left without pages.
    pub fn merge(&mut self, allocator: &mut SCAllocator, heap_id: usize) -> (r: Result<
        (),
        AllocationError,
    >)
        requires
            old(self)@.wf(),
            old(allocator)@.wf(),
            old(self)@.size == old(allocator)@.size,
            forall|b: usize| #![all_triggers] !(old(self)@.owns(b) && old(allocator)@.owns(b)),
        ensures
            r.is_ok(),
            final(self)@ == old(self)@.after_merge(old(allocator)@, heap_id),
            final(allocator)@ == old(allocator)@.without_pages(),
            final(self)@.wf(),
            final(allocator)@.wf(),
            forall|b: usize| #![all_triggers]
                final(self)@.owns(b) <==> (old(self)@.owns(b) || old(allocator)@.owns(b)),
            forall|x: int| #![all_triggers]
                final(self)@.is_allocated(x) <==> (old(self)@.is_allocated(x) || old(
                    allocator,
                )@.is_allocated(x)),
    {
        let ghost mine = self@;
        let ghost theirs = allocator@;
        proof {
            mine.lemma_merge(theirs, heap_id);
            lemma_drained_ends(theirs.empty, mine.empty, heap_id);
            lemma_drained_ends(theirs.partial, mine.partial, heap_id);
            lemma_drained_ends(theirs.full, mine.full, heap_id);
        }
        let ghost mut m: int = 0;
        while !allocator.empty_slabs.is_empty()
            invariant
                0 <= m <= theirs.empty.len(),
                allocator@ == (SCView {
                    empty: theirs.empty.subrange(m, theirs.empty.len() as int),
                    ..theirs
                }),
                self@ == (SCView {
                    empty: drained(theirs.empty.subrange(0, m), heap_id) + mine.empty,
                    ..mine
                }),
            ensures
                m == theirs.empty.len(),
            decreases theirs.empty.len() - m,
        {
            match allocator.remove_empty() {
                Some(mut new_head) => {
                    new_head.set_heap_id(heap_id);
                    self.empty_slabs.insert_front(new_head);
                    proof {
                        lemma_drained_step(theirs.empty, mine.empty, heap_id, m);
                        m = m + 1;
                    }
                },
                None => {
                    break ;
                },
            }
        }
        proof {
            assert(m == theirs.empty.len());
            assert(allocator@.empty =~= Seq::<PageView>::empty());
            m = 0;
        }
        while !allocator.slabs.is_empty()
            invariant
                0 <= m <= theirs.partial.len(),
                allocator@ == (SCView {
                    empty: Seq::empty(),
                    partial: theirs.partial.subrange(m, theirs.partial.len() as int),
                    ..theirs
                }),
                self@ == (SCView {
                    empty: drained(theirs.empty, heap_id) + mine.empty,
                    partial: drained(theirs.partial.subrange(0, m), heap_id) + mine.partial,
                    ..mine
                }),
            ensures
                m == theirs.partial.len(),
            decreases theirs.partial.len() - m,
        {
            match allocator.remove_partial() {
                Some(mut new_head) => {
                    new_head.set_heap_id(heap_id);
                    self.slabs.insert_front(new_head);
                    proof {
                        lemma_drained_step(theirs.partial, mine.partial, heap_id, m);
                        m = m + 1;
                    }
                },
                None => {
                    break ;
                },
            }
        }
        proof {
            assert(m == theirs.partial.len());
            assert(allocator@.partial =~= Seq::<PageView>::empty());
            m = 0;
        }
        while !allocator.full_slabs.is_empty()
            invariant
                0 <= m <= theirs.full.len(),
                allocator@ == (SCView {
                    empty: Seq::empty(),
                    partial: Seq::empty(),
                    full: theirs.full.subrange(m, theirs.full.len() as int),
                    ..theirs
                }),
                self@ == (SCView {
                    empty: drained(theirs.empty, heap_id) + mine.empty,
                    partial: drained(theirs.partial, heap_id) + mine.partial,
                    full: drained(theirs.full.subrange(0, m), heap_id) + mine.full,
                    ..mine
                }),
            ensures
                m == theirs.full.len(),
            decreases theirs.full.len() - m,
        {
            match allocator.remove_full() {
                Some(mut new_head) => {
                    new_head.set_heap_id(heap_id);
                    self.full_slabs.insert_front(new_head);
                    proof {
                        lemma_drained_step(theirs.full, mine.full, heap_id, m);
                        m = m + 1;
                    }
                },
                None => {
                    break ;
                },
            }
        }
        proof {
            assert(m == theirs.full.len());
            assert(allocator@.full =~= Seq::<PageView>::empty());
        }
        Ok(())
    }
}

} // verus!
