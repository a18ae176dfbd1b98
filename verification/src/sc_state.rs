//! The state of an allocator for objects of one size: how each operation
//! changes it, and what holds of every state that the operations can reach.
use vstd::prelude::*;

use crate::bitfield::{slots_in, BITFIELD_BITS};
use crate::page_list::{
    all_distinct, drained, fitting_page, has_fitting, has_page, holds_in, lemma_distinct_insert,
    lemma_distinct_remove, lemma_drained_joined, lemma_first_fitting_exists, lemma_has_page_insert,
    lemma_holds_in_insert, lemma_holds_in_remove, lemma_none_shared, lemma_position_distinct,
    lemma_room_in, lemma_room_in_insert, lemma_room_in_remove, lemma_update_remove,
    lemma_update_same_base, none_shared, position, room_in,
};
use crate::pages::{page_base, PageView};
use crate::{DATA_SIZE, PAGE_SIZE};

verus! {

/// The number that follows `count`, starting over at zero after the largest.
pub open spec fn next_count(count: usize) -> usize {
    if count == usize::MAX {
        0
    } else {
        (count + 1) as usize
    }
}

/// The state of a [`SCAllocator`].
pub struct SCView {
    /// Size in bytes of the objects that the allocator hands out.
    pub size: usize,
    /// Number of allocations served from partially used pages.
    pub allocation_count: usize,
    /// Number of slots in each page.
    pub obj_per_page: usize,
    /// The pages with no slot taken, front first.
    pub empty: Seq<PageView>,
    /// The pages in use that are still searched for free slots, front first.
    pub partial: Seq<PageView>,
    /// The pages found full by an allocation, front first.
    pub full: Seq<PageView>,
}

impl SCView {
    /// A page fit for this allocator: well-formed, and with every bit beyond
    /// its slots set.
    pub open spec fn page_ok(self, page: PageView) -> bool {
        page.wf() && page.capped(self.obj_per_page as int)
    }

    /// The invariant of the allocator. Each page is on one list only, and the
    /// list tells how much of the page is taken: nothing of a page on the
    /// empty list, everything of a page on the full list, something of a page
    /// on the partial list. A page on the partial list has a free slot too,
    /// unless pages hold a single object: such a page stays on the partial
    /// list while its object lives, and the full list stays empty.
    pub open spec fn wf(self) -> bool {
        &&& 0 < self.size <= DATA_SIZE
        &&& self.obj_per_page == slots_in(self.size as int, DATA_SIZE as int)
        &&& forall|i: int|
            0 <= i < self.empty.len() ==> self.page_ok(#[trigger] self.empty[i])
                && self.empty[i].is_empty(self.obj_per_page as int)
        &&& forall|i: int|
            0 <= i < self.partial.len() ==> self.page_ok(#[trigger] self.partial[i])
                && !self.partial[i].is_empty(self.obj_per_page as int) && (self.obj_per_page >= 2
                ==> !self.partial[i].is_full())
        &&& forall|i: int|
            0 <= i < self.full.len() ==> self.page_ok(#[trigger] self.full[i])
                && self.full[i].is_full()
        &&& self.full.len() > 0 ==> self.obj_per_page >= 2
        &&& all_distinct(self.empty)
        &&& all_distinct(self.partial)
        &&& all_distinct(self.full)
        &&& none_shared(self.empty, self.partial)
        &&& none_shared(self.empty, self.full)
        &&& none_shared(self.partial, self.full)
    }

    /// Whether the allocator holds a page that starts at `base`.
    pub open spec fn owns(self, base: usize) -> bool {
        has_page(self.empty, base) || has_page(self.partial, base) || has_page(self.full, base)
    }

    /// Whether `addr` is the address of an object that the allocator has
    /// handed out and not taken back.
    pub open spec fn is_allocated(self, addr: int) -> bool {
        holds_in(self.partial, self.size as int, addr) || holds_in(
            self.full,
            self.size as int,
            addr,
        )
    }

    /// The state after `page` has been handed to the allocator for the heap
    /// `heap_id`: the page is at the front of the empty list, reset for
    /// objects of this size.
    pub open spec fn after_refill(self, page: PageView, heap_id: usize) -> SCView {
        SCView { empty: self.empty.insert(0, page.reset(self.size as int, heap_id)), ..self }
    }

    /// The state after the front page of the empty list has been withdrawn.
    pub open spec fn after_retrieve(self) -> SCView {
        if self.empty.len() > 0 {
            SCView { empty: self.empty.remove(0), ..self }
        } else {
            self
        }
    }

    /// The state after an allocation aligned to `align` was served from the
    /// partial list: the first page with a free slot for it has that slot
    /// taken, and has moved to the front of the full list if this was its
    /// last free slot.
    pub open spec fn after_partial_allocate(self, align: int) -> SCView {
        let k = fitting_page(self.partial, self.size as int, align);
        let i = self.partial[k].lowest_fit_from(self.size as int, align, 0);
        let page = self.partial[k].with_bit(i, true);
        if page.is_full() {
            SCView {
                partial: self.partial.remove(k),
                full: self.full.insert(0, page),
                allocation_count: next_count(self.allocation_count),
                ..self
            }
        } else {
            SCView {
                partial: self.partial.update(k, page),
                allocation_count: next_count(self.allocation_count),
                ..self
            }
        }
    }

    /// The state after an allocation was served from the front page of the
    /// empty list: its first slot is taken, and the page is at the front of
    /// the partial list.
    pub open spec fn after_fresh_allocate(self) -> SCView {
        SCView {
            empty: self.empty.remove(0),
            partial: self.partial.insert(0, self.empty[0].with_bit(0, true)),
            ..self
        }
    }

    /// The state after a request for an object aligned to `align`: served
    /// from the partial list if a page there has a slot for it, else from
    /// the empty list if it has a page, else not at all.
    pub open spec fn after_allocate(self, align: int) -> SCView {
        if has_fitting(self.partial, self.size as int, align) {
            self.after_partial_allocate(align)
        } else if self.empty.len() > 0 {
            self.after_fresh_allocate()
        } else {
            self
        }
    }

    /// The address that a request for an object aligned to `align` is
    /// answered with, if it can be served.
    pub open spec fn allocation(self, align: int) -> Option<int> {
        if has_fitting(self.partial, self.size as int, align) {
            let k = fitting_page(self.partial, self.size as int, align);
            let i = self.partial[k].lowest_fit_from(self.size as int, align, 0);
            Some(self.partial[k].slot_address(self.size as int, i))
        } else if self.empty.len() > 0 {
            Some(self.empty[0].base as int)
        } else {
            None
        }
    }

    /// No page of the allocator but the one at `page` holds an address of
    /// `page`'s data area.
    pub proof fn lemma_only_owner(self, page: PageView, x: int)
        requires
            self.wf(),
            page_base(x) == page.base,
        ensures
            forall|j: int|
                0 <= j < self.partial.len() && self.partial[j].base != page.base
                    ==> !self.partial[j].holds(self.size as int, x),
            forall|j: int|
                0 <= j < self.full.len() && self.full[j].base != page.base ==> !self.full[j].holds(
                    self.size as int,
                    x,
                ),
    {
        assert forall|j: int|
            0 <= j < self.partial.len() && self.partial[j].base
                != page.base implies !self.partial[j].holds(self.size as int, x) by {
            assert(self.page_ok(self.partial[j]));
            if self.partial[j].holds(self.size as int, x) {
                self.partial[j].lemma_holds_within(self.size as int, x);
            }
        }
        assert forall|j: int|
            0 <= j < self.full.len() && self.full[j].base != page.base implies !self.full[j].holds(
            self.size as int,
            x,
        ) by {
            assert(self.page_ok(self.full[j]));
            if self.full[j].holds(self.size as int, x) {
                self.full[j].lemma_holds_within(self.size as int, x);
            }
        }
    }

    /// An allocation from the partial list keeps the invariant and the pages
    /// held. The address handed out is aligned as asked, was not in use, and
    /// is the only change to what is in use.
    pub proof fn lemma_partial_allocate(self, align: int)
        requires
            self.wf(),
            align >= 1,
            has_fitting(self.partial, self.size as int, align),
        ensures
            self.after_partial_allocate(align).wf(),
            self.allocation(align).is_some(),
            self.allocation(align).unwrap() % align == 0,
            0 <= self.allocation(align).unwrap(),
            self.allocation(align).unwrap() + self.size <= usize::MAX,
            !self.is_allocated(self.allocation(align).unwrap()),
            forall|x: int| #![all_triggers]
                self.after_partial_allocate(align).is_allocated(x) <==> (x == self.allocation(
                    align,
                ).unwrap() || self.is_allocated(x)),
            forall|b: usize| #![all_triggers]
                self.after_partial_allocate(align).owns(b) <==> self.owns(b),
    {
        let size = self.size as int;
        let w = choose|k: int| 0 <= k < self.partial.len() && self.partial[k].first_fit(
            size,
            align,
        ).is_some();
        lemma_first_fitting_exists(self.partial, size, align, w);
        let k = fitting_page(self.partial, size, align);
        let old_page = self.partial[k];
        let i = old_page.lowest_fit_from(size, align, 0);
        let page = old_page.with_bit(i, true);
        let a = old_page.slot_address(size, i);
        let after = self.after_partial_allocate(align);
        assert(self.page_ok(old_page));
        old_page.lemma_lowest_fit(size, align, 0);
        old_page.lemma_fit_is_free(size, align, i);
        old_page.lemma_with_bit_holds(size, i, true);
        assert(page.holds(size, a));
        page.lemma_holds_within(size, a);
        self.lemma_only_owner(page, a);
        // the address was not in use
        assert(!holds_in(self.partial, size, a)) by {
            if holds_in(self.partial, size, a) {
                let j = choose|j: int|
                    0 <= j < self.partial.len() && self.partial[j].holds(size, a);
                if j != k {
                    assert(self.partial[j].base != self.partial[k].base);
                }
            }
        }
        assert(!holds_in(self.full, size, a)) by {
            if holds_in(self.full, size, a) {
                let j = choose|j: int| 0 <= j < self.full.len() && self.full[j].holds(size, a);
                assert(self.full[j].base != self.partial[k].base);
            }
        }
        // the page keeps its cap, is no longer empty
        assert(page.capped(self.obj_per_page as int));
        assert(page.bits[i]);
        assert(!page.is_empty(self.obj_per_page as int));
        // it was not empty before, so it has a second slot
        assert(self.obj_per_page >= 2) by {
            if self.obj_per_page < 2 {
                assert(i == 0);
                assert(old_page.is_empty(self.obj_per_page as int));
            }
        }
        lemma_holds_in_remove(self.partial, k, size);
        lemma_distinct_remove(self.partial, k);
        if page.is_full() {
            lemma_holds_in_insert(self.full, page, size);
            lemma_has_page_insert(self.full, page);
            lemma_none_shared(self.partial, self.full);
            lemma_none_shared(self.empty, self.partial);
            lemma_none_shared(self.empty, self.full);
            lemma_none_shared(after.partial, after.full);
            lemma_none_shared(self.empty, after.partial);
            lemma_none_shared(self.empty, after.full);
            assert(has_page(self.partial, page.base));
            lemma_distinct_insert(self.full, page);
            assert forall|j: int| 0 <= j < after.partial.len() implies after.page_ok(
                #[trigger] after.partial[j],
            ) && !after.partial[j].is_empty(after.obj_per_page as int) && (after.obj_per_page >= 2
                ==> !after.partial[j].is_full()) by {
                assert(after.partial[j] == self.partial[if j < k {
                    j
                } else {
                    j + 1
                }]);
            }
            assert forall|j: int| 0 <= j < after.full.len() implies after.page_ok(
                #[trigger] after.full[j],
            ) && after.full[j].is_full() by {
                if j > 0 {
                    assert(after.full[j] == self.full[j - 1]);
                }
            }
        } else {
            lemma_update_remove(self.partial, k, page);
            lemma_holds_in_remove(after.partial, k, size);
            lemma_update_same_base(self.partial, k, page);
            lemma_none_shared(self.partial, self.full);
            lemma_none_shared(self.empty, self.partial);
            lemma_none_shared(after.partial, self.full);
            lemma_none_shared(self.empty, after.partial);
            assert forall|j: int| 0 <= j < after.partial.len() implies after.page_ok(
                #[trigger] after.partial[j],
            ) && !after.partial[j].is_empty(after.obj_per_page as int) && (after.obj_per_page >= 2
                ==> !after.partial[j].is_full()) by {
                if j != k {
                    assert(after.partial[j] == self.partial[j]);
                }
            }
        }
    }

    /// An allocation from the front page of the empty list keeps the
    /// invariant and the pages held. The address handed out is the page's
    /// start, aligned as asked; it was not in use, and is the only change to
    /// what is in use.
    pub proof fn lemma_fresh_allocate(self, align: int)
        requires
            self.wf(),
            vstd::arithmetic::power2::is_pow2(align),
            align <= PAGE_SIZE,
            self.empty.len() > 0,
        ensures
            self.after_fresh_allocate().wf(),
            self.empty[0].lowest_fit_from(self.size as int, align, 0) == 0,
            self.empty[0].slot_address(self.size as int, 0) == self.empty[0].base,
            self.empty[0].base as int % align == 0,
            self.empty[0].base + self.size <= usize::MAX,
            !self.is_allocated(self.empty[0].base as int),
            forall|x: int| #![all_triggers]
                self.after_fresh_allocate().is_allocated(x) <==> (x == self.empty[0].base
                    || self.is_allocated(x)),
            forall|b: usize| #![all_triggers] self.after_fresh_allocate().owns(b) <==> self.owns(b),
    {
        let size = self.size as int;
        let old_page = self.empty[0];
        let page = old_page.with_bit(0, true);
        let a = old_page.base as int;
        let after = self.after_fresh_allocate();
        assert(self.page_ok(old_page));
        old_page.lemma_fresh_fit(size, align, self.obj_per_page as int);
        old_page.lemma_lowest_fit(size, align, 0);
        old_page.lemma_fit_is_free(size, align, 0);
        old_page.lemma_with_bit_holds(size, 0, true);
        assert(old_page.slot_address(size, 0) == a);
        assert(page.holds(size, a));
        page.lemma_holds_within(size, a);
        self.lemma_only_owner(page, a);
        assert(has_page(self.empty, page.base));
        lemma_none_shared(self.empty, self.partial);
        lemma_none_shared(self.empty, self.full);
        assert(!holds_in(self.partial, size, a)) by {
            if holds_in(self.partial, size, a) {
                let j = choose|j: int|
                    0 <= j < self.partial.len() && self.partial[j].holds(size, a);
                assert(has_page(self.partial, self.partial[j].base));
            }
        }
        assert(!holds_in(self.full, size, a)) by {
            if holds_in(self.full, size, a) {
                let j = choose|j: int| 0 <= j < self.full.len() && self.full[j].holds(size, a);
                assert(has_page(self.full, self.full[j].base));
            }
        }
        assert(page.capped(self.obj_per_page as int));
        assert(page.bits[0]);
        assert(!page.is_empty(self.obj_per_page as int));
        if self.obj_per_page >= 2 {
            assert(!page.bits[1]);
            assert(!page.is_full());
        }
        lemma_distinct_remove(self.empty, 0);
        lemma_holds_in_insert(self.partial, page, size);
        lemma_has_page_insert(self.partial, page);
        lemma_distinct_insert(self.partial, page);
        lemma_none_shared(after.empty, after.partial);
        lemma_none_shared(after.empty, self.full);
        lemma_none_shared(self.partial, self.full);
        lemma_none_shared(after.partial, self.full);
        assert forall|j: int| 0 <= j < after.empty.len() implies after.page_ok(
            #[trigger] after.empty[j],
        ) && after.empty[j].is_empty(after.obj_per_page as int) by {
            assert(after.empty[j] == self.empty[j + 1]);
        }
        assert forall|j: int| 0 <= j < after.partial.len() implies after.page_ok(
            #[trigger] after.partial[j],
        ) && !after.partial[j].is_empty(after.obj_per_page as int) && (after.obj_per_page >= 2
            ==> !after.partial[j].is_full()) by {
            if j > 0 {
                assert(after.partial[j] == self.partial[j - 1]);
            }
        }
    }

    /// The state after the object at `addr` was given back. Its slot is free
    /// again. A page of the partial list whose last object this was moves to
    /// the front of the empty list; a page of the full list moves to the
    /// front of the partial list.
    pub open spec fn after_deallocate(self, addr: int) -> SCView {
        let base = page_base(addr) as usize;
        let slot = (addr - base) / (self.size as int);
        if has_page(self.partial, base) {
            let k = position(self.partial, base);
            let page = self.partial[k].with_bit(slot, false);
            if page.is_empty(self.obj_per_page as int) {
                SCView {
                    partial: self.partial.remove(k),
                    empty: self.empty.insert(0, page),
                    ..self
                }
            } else {
                SCView { partial: self.partial.update(k, page), ..self }
            }
        } else {
            let k = position(self.full, base);
            let page = self.full[k].with_bit(slot, false);
            SCView { full: self.full.remove(k), partial: self.partial.insert(0, page), ..self }
        }
    }

    /// An object in use lies in exactly one page of the partial or the full
    /// list: the one that starts at the page address of the object.
    pub proof fn lemma_allocated_page(self, addr: int)
        requires
            self.wf(),
            self.is_allocated(addr),
        ensures
            0 <= page_base(addr) <= addr,
            addr + self.size <= usize::MAX,
            has_page(self.partial, page_base(addr) as usize) || has_page(
                self.full,
                page_base(addr) as usize,
            ),
            has_page(self.partial, page_base(addr) as usize) ==> self.partial[position(
                self.partial,
                page_base(addr) as usize,
            )].holds(self.size as int, addr),
            !has_page(self.partial, page_base(addr) as usize) ==> self.full[position(
                self.full,
                page_base(addr) as usize,
            )].holds(self.size as int, addr),
            has_page(self.partial, page_base(addr) as usize) ==> 0 <= position(
                self.partial,
                page_base(addr) as usize,
            ) < self.partial.len(),
            !has_page(self.partial, page_base(addr) as usize) ==> 0 <= position(
                self.full,
                page_base(addr) as usize,
            ) < self.full.len(),
    {
        let size = self.size as int;
        lemma_none_shared(self.partial, self.full);
        if holds_in(self.partial, size, addr) {
            let j = choose|j: int| 0 <= j < self.partial.len() && self.partial[j].holds(size, addr);
            assert(self.page_ok(self.partial[j]));
            self.partial[j].lemma_holds_within(size, addr);
            lemma_position_distinct(self.partial, j);
            assert(has_page(self.partial, self.partial[j].base));
        } else {
            let j = choose|j: int| 0 <= j < self.full.len() && self.full[j].holds(size, addr);
            assert(self.page_ok(self.full[j]));
            self.full[j].lemma_holds_within(size, addr);
            lemma_position_distinct(self.full, j);
            assert(has_page(self.full, self.full[j].base));
            if has_page(self.partial, self.full[j].base) {
                let k = choose|k: int|
                    0 <= k < self.partial.len() && self.partial[k].base == self.full[j].base;
                assert(self.page_ok(self.partial[k]));
                lemma_position_distinct(self.partial, k);
                self.lemma_only_owner(self.full[j], addr);
                assert(false);
            }
        }
    }

    /// Giving back an object in use keeps the invariant and the pages held;
    /// the object is no longer in use, and nothing else changes in what is.
    pub proof fn lemma_deallocate(self, addr: int)
        requires
            self.wf(),
            self.is_allocated(addr),
        ensures
            self.after_deallocate(addr).wf(),
            forall|x: int| #![all_triggers]
                self.after_deallocate(addr).is_allocated(x) <==> (x != addr && self.is_allocated(
                    x,
                )),
            forall|b: usize| #![all_triggers] self.after_deallocate(addr).owns(b) <==> self.owns(b),
    {
        let size = self.size as int;
        self.lemma_allocated_page(addr);
        let base = page_base(addr) as usize;
        let slot = (addr - base) / size;
        let after = self.after_deallocate(addr);
        lemma_none_shared(self.partial, self.full);
        lemma_none_shared(self.empty, self.partial);
        lemma_none_shared(self.empty, self.full);
        if has_page(self.partial, base) {
            let k = position(self.partial, base);
            let old_page = self.partial[k];
            let page = old_page.with_bit(slot, false);
            assert(self.page_ok(old_page));
            old_page.lemma_holds_within(size, addr);
            old_page.lemma_with_bit_holds(size, slot, false);
            assert(page.capped(self.obj_per_page as int));
            assert(!page.bits[slot]);
            assert(!page.is_full());
            lemma_holds_in_remove(self.partial, k, size);
            lemma_distinct_remove(self.partial, k);
            assert(!holds_in(self.full, size, addr)) by {
                if holds_in(self.full, size, addr) {
                    let j = choose|j: int|
                        0 <= j < self.full.len() && self.full[j].holds(size, addr);
                    assert(self.page_ok(self.full[j]));
                    self.full[j].lemma_holds_within(size, addr);
                    assert(has_page(self.full, base));
                }
            }
            assert(!holds_in(self.partial.remove(k), size, addr)) by {
                let rest = self.partial.remove(k);
                if holds_in(rest, size, addr) {
                    let j = choose|j: int| 0 <= j < rest.len() && rest[j].holds(size, addr);
                    let orig = if j < k {
                        j
                    } else {
                        j + 1
                    };
                    assert(rest[j] == self.partial[orig]);
                    assert(self.page_ok(self.partial[orig]));
                    self.partial[orig].lemma_holds_within(size, addr);
                    assert(self.partial[orig].base != self.partial[k].base);
                }
            }
            if page.is_empty(self.obj_per_page as int) {
                assert forall|x: int| !page.holds(size, x) by {
                    if page.holds(size, x) {
                        vstd::arithmetic::div_mod::lemma_div_pos_is_pos(x - page.base, size);
                    }
                }
                lemma_holds_in_insert(self.empty, page, size);
                lemma_has_page_insert(self.empty, page);
                assert(has_page(self.partial, page.base));
                lemma_distinct_insert(self.empty, page);
                lemma_none_shared(after.empty, after.partial);
                lemma_none_shared(after.empty, self.full);
                lemma_none_shared(after.partial, self.full);
                assert forall|j: int| 0 <= j < after.partial.len() implies after.page_ok(
                    #[trigger] after.partial[j],
                ) && !after.partial[j].is_empty(after.obj_per_page as int) && (after.obj_per_page
                    >= 2 ==> !after.partial[j].is_full()) by {
                    assert(after.partial[j] == self.partial[if j < k {
                        j
                    } else {
                        j + 1
                    }]);
                }
                assert forall|j: int| 0 <= j < after.empty.len() implies after.page_ok(
                    #[trigger] after.empty[j],
                ) && after.empty[j].is_empty(after.obj_per_page as int) by {
                    if j > 0 {
                        assert(after.empty[j] == self.empty[j - 1]);
                    }
                }
                assert(after.partial == self.partial.remove(k));
                assert(after.full == self.full);
                assert(old_page.slot_address(size, slot) == addr);
                assert forall|x: int|
                    after.is_allocated(x) <==> (x != addr && self.is_allocated(x)) by {
                    if x != addr {
                        assert(!page.holds(size, x));
                        assert(!old_page.holds(size, x));
                        assert(holds_in(self.partial, size, x) <==> holds_in(
                            self.partial.remove(k),
                            size,
                            x,
                        ));
                    }
                }
            } else {
                lemma_update_remove(self.partial, k, page);
                lemma_holds_in_remove(after.partial, k, size);
                lemma_update_same_base(self.partial, k, page);
                lemma_none_shared(after.partial, self.full);
                lemma_none_shared(self.empty, after.partial);
                assert forall|j: int| 0 <= j < after.partial.len() implies after.page_ok(
                    #[trigger] after.partial[j],
                ) && !after.partial[j].is_empty(after.obj_per_page as int) && (after.obj_per_page
                    >= 2 ==> !after.partial[j].is_full()) by {
                    if j != k {
                        assert(after.partial[j] == self.partial[j]);
                    }
                }
            }
        } else {
            let k = position(self.full, base);
            let old_page = self.full[k];
            let page = old_page.with_bit(slot, false);
            assert(self.page_ok(old_page));
            old_page.lemma_holds_within(size, addr);
            old_page.lemma_with_bit_holds(size, slot, false);
            assert(page.capped(self.obj_per_page as int));
            assert(!page.bits[slot]);
            assert(!page.is_full());
            let other = if slot == 0 {
                1int
            } else {
                0int
            };
            assert(page.bits[other]);
            assert(!page.is_empty(self.obj_per_page as int));
            lemma_holds_in_remove(self.full, k, size);
            lemma_distinct_remove(self.full, k);
            lemma_holds_in_insert(self.partial, page, size);
            lemma_has_page_insert(self.partial, page);
            assert(has_page(self.full, page.base));
            lemma_distinct_insert(self.partial, page);
            assert(!holds_in(self.partial, size, addr)) by {
                if holds_in(self.partial, size, addr) {
                    let j = choose|j: int|
                        0 <= j < self.partial.len() && self.partial[j].holds(size, addr);
                    assert(self.page_ok(self.partial[j]));
                    self.partial[j].lemma_holds_within(size, addr);
                    assert(has_page(self.partial, base));
                }
            }
            assert(!holds_in(self.full.remove(k), size, addr)) by {
                let rest = self.full.remove(k);
                if holds_in(rest, size, addr) {
                    let j = choose|j: int| 0 <= j < rest.len() && rest[j].holds(size, addr);
                    let orig = if j < k {
                        j
                    } else {
                        j + 1
                    };
                    assert(rest[j] == self.full[orig]);
                    assert(self.page_ok(self.full[orig]));
                    self.full[orig].lemma_holds_within(size, addr);
                    assert(self.full[orig].base != self.full[k].base);
                }
            }
            lemma_none_shared(after.partial, after.full);
            lemma_none_shared(self.empty, after.partial);
            lemma_none_shared(self.empty, after.full);
            assert forall|j: int| 0 <= j < after.partial.len() implies after.page_ok(
                #[trigger] after.partial[j],
            ) && !after.partial[j].is_empty(after.obj_per_page as int) && (after.obj_per_page >= 2
                ==> !after.partial[j].is_full()) by {
                if j > 0 {
                    assert(after.partial[j] == self.partial[j - 1]);
                }
            }
            assert forall|j: int| 0 <= j < after.full.len() implies after.page_ok(
                #[trigger] after.full[j],
            ) && after.full[j].is_full() by {
                assert(after.full[j] == self.full[if j < k {
                    j
                } else {
                    j + 1
                }]);
            }
        }
    }

    /// The state after the pages of `other` were merged into this allocator
    /// for the heap `heap_id`: each list has the pages of the like list of
    /// `other` in front of its own.
    pub open spec fn after_merge(self, other: SCView, heap_id: usize) -> SCView {
        SCView {
            empty: drained(other.empty, heap_id) + self.empty,
            partial: drained(other.partial, heap_id) + self.partial,
            full: drained(other.full, heap_id) + self.full,
            ..self
        }
    }

    /// The state of an allocator whose pages were all taken away.
    pub open spec fn without_pages(self) -> SCView {
        SCView { empty: Seq::empty(), partial: Seq::empty(), full: Seq::empty(), ..self }
    }

    /// Merging an allocator for objects of the same size that shares no page
    /// with this one keeps the invariant. Afterwards this allocator has the
    /// pages and the objects of both.
    pub proof fn lemma_merge(self, other: SCView, heap_id: usize)
        requires
            self.wf(),
            other.wf(),
            self.size == other.size,
            forall|b: usize| #![all_triggers] !(self.owns(b) && other.owns(b)),
        ensures
            self.after_merge(other, heap_id).wf(),
            other.without_pages().wf(),
            forall|b: usize| #![all_triggers]
                self.after_merge(other, heap_id).owns(b) <==> (self.owns(b) || other.owns(b)),
            forall|x: int| #![all_triggers]
                self.after_merge(other, heap_id).is_allocated(x) <==> (self.is_allocated(x)
                    || other.is_allocated(x)),
    {
        let after = self.after_merge(other, heap_id);
        let size = self.size as int;
        lemma_drained_joined(other.empty, self.empty, heap_id, size);
        lemma_drained_joined(other.partial, self.partial, heap_id, size);
        lemma_drained_joined(other.full, self.full, heap_id, size);
        lemma_none_shared(self.empty, self.partial);
        lemma_none_shared(self.empty, self.full);
        lemma_none_shared(self.partial, self.full);
        lemma_none_shared(other.empty, other.partial);
        lemma_none_shared(other.empty, other.full);
        lemma_none_shared(other.partial, other.full);
        lemma_none_shared(after.empty, after.partial);
        lemma_none_shared(after.empty, after.full);
        lemma_none_shared(after.partial, after.full);
        assert forall|b: usize|
            !((has_page(other.empty, b) || has_page(other.partial, b) || has_page(other.full, b))
                && (has_page(self.empty, b) || has_page(self.partial, b) || has_page(
                self.full,
                b,
            ))) by {
            assert(!(self.owns(b) && other.owns(b)));
        }
        lemma_none_shared(other.empty, self.empty);
        lemma_none_shared(other.partial, self.partial);
        lemma_none_shared(other.full, self.full);
        let ne = other.empty.len() as int;
        let np = other.partial.len() as int;
        let nf = other.full.len() as int;
        assert forall|i: int| 0 <= i < after.empty.len() implies after.page_ok(
            #[trigger] after.empty[i],
        ) && after.empty[i].is_empty(after.obj_per_page as int) by {
            if i < ne {
                assert(other.page_ok(other.empty[ne - 1 - i]));
                assert(after.empty[i].bits == other.empty[ne - 1 - i].bits);
            } else {
                assert(after.empty[i] == self.empty[i - ne]);
            }
        }
        assert forall|i: int| 0 <= i < after.partial.len() implies after.page_ok(
            #[trigger] after.partial[i],
        ) && !after.partial[i].is_empty(after.obj_per_page as int) && (after.obj_per_page >= 2
            ==> !after.partial[i].is_full()) by {
            if i < np {
                assert(other.page_ok(other.partial[np - 1 - i]));
                assert(after.partial[i].bits == other.partial[np - 1 - i].bits);
            } else {
                assert(after.partial[i] == self.partial[i - np]);
            }
        }
        assert forall|i: int| 0 <= i < after.full.len() implies after.page_ok(
            #[trigger] after.full[i],
        ) && after.full[i].is_full() by {
            if i < nf {
                assert(other.page_ok(other.full[nf - 1 - i]));
                assert(after.full[i].bits == other.full[nf - 1 - i].bits);
            } else {
                assert(after.full[i] == self.full[i - nf]);
            }
        }
        if after.full.len() > 0 {
            if nf > 0 {
                assert(other.obj_per_page >= 2);
            }
        }
        assert(none_shared(after.empty, after.partial)) by {
            assert forall|b: usize| !(has_page(after.empty, b) && has_page(after.partial, b)) by {
                assert(!(self.owns(b) && other.owns(b)));
                assert(!(has_page(self.empty, b) && has_page(self.partial, b)));
                assert(!(has_page(other.empty, b) && has_page(other.partial, b)));
            }
        }
        assert(none_shared(after.empty, after.full)) by {
            assert forall|b: usize| !(has_page(after.empty, b) && has_page(after.full, b)) by {
                assert(!(self.owns(b) && other.owns(b)));
                assert(!(has_page(self.empty, b) && has_page(self.full, b)));
                assert(!(has_page(other.empty, b) && has_page(other.full, b)));
            }
        }
        assert(none_shared(after.partial, after.full)) by {
            assert forall|b: usize| !(has_page(after.partial, b) && has_page(after.full, b)) by {
                assert(!(self.owns(b) && other.owns(b)));
                assert(!(has_page(self.partial, b) && has_page(self.full, b)));
                assert(!(has_page(other.partial, b) && has_page(other.full, b)));
            }
        }
    }

    /// A request for an object aligned to `align`, a power of two up to the
    /// page size, is served exactly when a page of the partial list has a
    /// slot for it or the empty list has a page. It keeps the invariant and
    /// the pages held. The address handed out is aligned as asked and lies
    /// in a page of the allocator; it was not in use, and is the only change
    /// to what is in use.
    pub proof fn lemma_allocate(self, align: int)
        requires
            self.wf(),
            vstd::arithmetic::power2::is_pow2(align),
            align <= PAGE_SIZE,
        ensures
            self.after_allocate(align).wf(),
            forall|b: usize| #![all_triggers] self.after_allocate(align).owns(b) <==> self.owns(b),
            self.allocation(align).is_some() <==> (has_fitting(
                self.partial,
                self.size as int,
                align,
            ) || self.empty.len() > 0),
            match self.allocation(align) {
                Some(a) => {
                    &&& 0 <= a
                    &&& a + self.size <= usize::MAX
                    &&& a % align == 0
                    &&& 0 <= page_base(a) <= usize::MAX
                    &&& self.owns(page_base(a) as usize)
                    &&& !self.is_allocated(a)
                    &&& self.after_allocate(align).is_allocated(a)
                    &&& forall|x: int| #![all_triggers]
                        self.after_allocate(align).is_allocated(x) <==> (x == a
                            || self.is_allocated(x))
                },
                None => self.after_allocate(align) == self,
            },
    {
        crate::layout::lemma_pow2_divides_page(align);
        if has_fitting(self.partial, self.size as int, align) {
            self.lemma_partial_allocate(align);
        } else if self.empty.len() > 0 {
            self.lemma_fresh_allocate(align);
        }
        if self.allocation(align).is_some() {
            let a = self.allocation(align).unwrap();
            assert(self.after_allocate(align).is_allocated(a));
            self.after_allocate(align).lemma_allocated_page(a);
        }
    }

    /// Two objects in use do not overlap: each ends before the other starts.
    pub proof fn lemma_objects_apart(self, a1: int, a2: int)
        requires
            self.wf(),
            self.is_allocated(a1),
            self.is_allocated(a2),
            a1 != a2,
        ensures
            a1 + self.size <= a2 || a2 + self.size <= a1,
    {
        let size = self.size as int;
        self.lemma_allocated_page(a1);
        self.lemma_allocated_page(a2);
        let b1 = page_base(a1) as usize;
        let b2 = page_base(a2) as usize;
        let first_page = if has_page(self.partial, b1) {
            self.partial[position(self.partial, b1)]
        } else {
            self.full[position(self.full, b1)]
        };
        let second_page = if has_page(self.partial, b2) {
            self.partial[position(self.partial, b2)]
        } else {
            self.full[position(self.full, b2)]
        };
        assert(self.page_ok(first_page));
        assert(self.page_ok(second_page));
        first_page.lemma_holds_within(size, a1);
        second_page.lemma_holds_within(size, a2);
        if b1 == b2 {
            assert(first_page == second_page);
            first_page.lemma_slots_apart(size, a1, a2);
        } else {
            first_page.lemma_pages_apart(size, a1, second_page, size, a2);
        }
    }

    /// The page of the allocator that starts at `base`; meaningful when the
    /// allocator holds such a page.
    pub open spec fn page_at(self, base: usize) -> PageView {
        if has_page(self.empty, base) {
            self.empty[position(self.empty, base)]
        } else if has_page(self.partial, base) {
            self.partial[position(self.partial, base)]
        } else {
            self.full[position(self.full, base)]
        }
    }

    /// Where pages have two slots or more, every page is on exactly one
    /// list, and the list tells how much of the page is taken: the empty
    /// list when no slot is, the full list when every slot is, the partial
    /// list when some are and some are not.
    pub proof fn lemma_page_state(self, base: usize)
        requires
            self.wf(),
            self.obj_per_page >= 2,
            self.owns(base),
        ensures
            self.page_at(base).base == base,
            has_page(self.empty, base) <==> self.page_at(base).is_empty(self.obj_per_page as int),
            has_page(self.full, base) <==> self.page_at(base).is_full(),
            has_page(self.partial, base) <==> (!self.page_at(base).is_empty(
                self.obj_per_page as int,
            ) && !self.page_at(base).is_full()),
            !(has_page(self.empty, base) && has_page(self.partial, base)),
            !(has_page(self.empty, base) && has_page(self.full, base)),
            !(has_page(self.partial, base) && has_page(self.full, base)),
    {
        lemma_none_shared(self.empty, self.partial);
        lemma_none_shared(self.empty, self.full);
        lemma_none_shared(self.partial, self.full);
        let page = self.page_at(base);
        if has_page(self.empty, base) {
            let i = choose|i: int| 0 <= i < self.empty.len() && self.empty[i].base == base;
            lemma_position_distinct(self.empty, i);
            assert(self.page_ok(self.empty[i]));
            assert(!page.bits[0]);
        } else if has_page(self.partial, base) {
            let i = choose|i: int| 0 <= i < self.partial.len() && self.partial[i].base == base;
            lemma_position_distinct(self.partial, i);
            assert(self.page_ok(self.partial[i]));
        } else {
            let i = choose|i: int| 0 <= i < self.full.len() && self.full[i].base == base;
            lemma_position_distinct(self.full, i);
            assert(self.page_ok(self.full[i]));
            assert(page.bits[0]);
        }
    }

    /// A page that was refilled into one allocator and withdrawn again
    /// before anything was allocated from it serves another allocator as if
    /// it had come there first. The first allocator is as it was. The second
    /// can serve a request, and if it could not before, the object is the
    /// first slot of the page.
    pub proof fn lemma_page_handoff(
        self,
        other: SCView,
        page: PageView,
        heap_id: usize,
        other_heap_id: usize,
        align: int,
    )
        requires
            self.wf(),
            other.wf(),
            page.wf(),
            !self.owns(page.base),
            !other.owns(page.base),
            vstd::arithmetic::power2::is_pow2(align),
            align <= PAGE_SIZE,
        ensures
            self.after_refill(page, heap_id).empty[0] == page.reset(self.size as int, heap_id),
            self.after_refill(page, heap_id).after_retrieve() == self,
            other.after_refill(page.reset(self.size as int, heap_id), other_heap_id)
                == other.after_refill(page, other_heap_id),
            other.after_refill(page, other_heap_id).wf(),
            other.after_refill(page, other_heap_id).allocation(align).is_some(),
            other.after_refill(page, other_heap_id).after_allocate(align).wf(),
            other.allocation(align).is_none() ==> other.after_refill(
                page,
                other_heap_id,
            ).allocation(align) == Some(page.base as int),
    {
        let lent = self.after_refill(page, heap_id);
        assert(lent.empty.remove(0) =~= self.empty);
        other.lemma_refill(page, other_heap_id);
        let taken = other.after_refill(page, other_heap_id);
        taken.lemma_allocate(align);
        other.lemma_allocate(align);
    }

    /// Number of free slots that can serve a request aligned to `align`: those
    /// of the pages on the partial and on the empty list.
    pub open spec fn room(self, align: int) -> int {
        room_in(self.partial, self.size as int, align) + room_in(
            self.empty,
            self.size as int,
            align,
        )
    }

    /// The state after `n` requests in a row for objects aligned to `align`.
    pub open spec fn after_allocations(self, align: int, n: nat) -> SCView
        decreases n,
    {
        if n == 0 {
            self
        } else {
            self.after_allocate(align).after_allocations(align, (n - 1) as nat)
        }
    }

    /// The state after the objects at `addrs` were given back one by one,
    /// the first of `addrs` first.
    pub open spec fn after_deallocations(self, addrs: Seq<int>) -> SCView
        decreases addrs.len(),
    {
        if addrs.len() == 0 {
            self
        } else {
            self.after_deallocate(addrs[0]).after_deallocations(addrs.drop_first())
        }
    }

    /// A request aligned to a power of two up to the page size is served
    /// exactly when there is room for it.
    pub proof fn lemma_room(self, align: int)
        requires
            self.wf(),
            vstd::arithmetic::power2::is_pow2(align),
            align <= PAGE_SIZE,
        ensures
            0 <= self.room(align),
            self.allocation(align).is_some() <==> self.room(align) > 0,
    {
        let size = self.size as int;
        lemma_room_in(self.partial, size, align);
        lemma_room_in(self.empty, size, align);
        if self.empty.len() > 0 {
            assert(self.page_ok(self.empty[0]));
            self.empty[0].lemma_fresh_fit(size, align, self.obj_per_page as int);
            self.empty[0].lemma_lowest_fit(size, align, 0);
            assert(self.empty[0].first_fit(size, align).is_some());
        }
    }

    /// A request that is served takes up one slot of the room for it.
    pub proof fn lemma_allocate_room(self, align: int)
        requires
            self.wf(),
            vstd::arithmetic::power2::is_pow2(align),
            align <= PAGE_SIZE,
            self.allocation(align).is_some(),
        ensures
            self.after_allocate(align).room(align) == self.room(align) - 1,
    {
        let size = self.size as int;
        let after = self.after_allocate(align);
        crate::layout::lemma_pow2_divides_page(align);
        if has_fitting(self.partial, size, align) {
            let w = choose|k: int|
                0 <= k < self.partial.len() && self.partial[k].first_fit(size, align).is_some();
            lemma_first_fitting_exists(self.partial, size, align, w);
            let k = fitting_page(self.partial, size, align);
            let old_page = self.partial[k];
            let i = old_page.lowest_fit_from(size, align, 0);
            let page = old_page.with_bit(i, true);
            assert(self.page_ok(old_page));
            old_page.lemma_lowest_fit(size, align, 0);
            old_page.lemma_room_take(size, align, i, BITFIELD_BITS as int);
            lemma_room_in_remove(self.partial, k, size, align);
            if page.is_full() {
                page.lemma_room_full(size, align);
            } else {
                lemma_update_remove(self.partial, k, page);
                lemma_room_in_remove(after.partial, k, size, align);
            }
        } else {
            let old_page = self.empty[0];
            let page = old_page.with_bit(0, true);
            assert(self.page_ok(old_page));
            old_page.lemma_fresh_fit(size, align, self.obj_per_page as int);
            old_page.lemma_lowest_fit(size, align, 0);
            old_page.lemma_room_take(size, align, 0, BITFIELD_BITS as int);
            lemma_room_in_remove(self.empty, 0, size, align);
            lemma_room_in_insert(self.partial, page, size, align);
        }
    }

    /// Giving back an object that starts at a multiple of `align` makes room
    /// for one more request aligned to `align`.
    pub proof fn lemma_deallocate_room(self, addr: int, align: int)
        requires
            self.wf(),
            self.is_allocated(addr),
            align >= 1,
            addr % align == 0,
        ensures
            self.after_deallocate(addr).room(align) == self.room(align) + 1,
    {
        let size = self.size as int;
        self.lemma_allocated_page(addr);
        let base = page_base(addr) as usize;
        let slot = (addr - base) / size;
        let after = self.after_deallocate(addr);
        if has_page(self.partial, base) {
            let k = position(self.partial, base);
            let old_page = self.partial[k];
            let page = old_page.with_bit(slot, false);
            assert(self.page_ok(old_page));
            old_page.lemma_holds_within(size, addr);
            crate::bitfield::lemma_slot_count(size, DATA_SIZE as int, slot);
            vstd::arithmetic::div_mod::lemma_div_pos_is_pos(addr - base, size);
            old_page.lemma_room_give(size, align, slot, BITFIELD_BITS as int);
            lemma_room_in_remove(self.partial, k, size, align);
            if page.is_empty(self.obj_per_page as int) {
                lemma_room_in_insert(self.empty, page, size, align);
            } else {
                lemma_update_remove(self.partial, k, page);
                lemma_room_in_remove(after.partial, k, size, align);
            }
        } else {
            let k = position(self.full, base);
            let old_page = self.full[k];
            let page = old_page.with_bit(slot, false);
            assert(self.page_ok(old_page));
            old_page.lemma_holds_within(size, addr);
            crate::bitfield::lemma_slot_count(size, DATA_SIZE as int, slot);
            vstd::arithmetic::div_mod::lemma_div_pos_is_pos(addr - base, size);
            old_page.lemma_room_give(size, align, slot, BITFIELD_BITS as int);
            old_page.lemma_room_full(size, align);
            lemma_room_in_insert(self.partial, page, size, align);
        }
    }

    /// A refill adds the room of the page to that of the allocator: for
    /// requests without an alignment, as many slots as a page has.
    pub proof fn lemma_refill_room(self, page: PageView, heap_id: usize, align: int)
        requires
            self.wf(),
        ensures
            self.after_refill(page, heap_id).room(align) == self.room(align) + page.reset(
                self.size as int,
                heap_id,
            ).room(self.size as int, align),
            page.reset(self.size as int, heap_id).room(self.size as int, 1) == self.obj_per_page,
    {
        lemma_room_in_insert(
            self.empty,
            page.reset(self.size as int, heap_id),
            self.size as int,
            align,
        );
        page.lemma_reset_room(self.size as int, heap_id, BITFIELD_BITS as int);
    }

    /// A run of requests is served as long as there is room for it.
    pub proof fn lemma_allocations(self, align: int, n: nat)
        requires
            self.wf(),
            vstd::arithmetic::power2::is_pow2(align),
            align <= PAGE_SIZE,
            n <= self.room(align),
        ensures
            self.after_allocations(align, n).wf(),
            self.after_allocations(align, n).room(align) == self.room(align) - n,
            forall|b: usize| #![all_triggers]
                self.after_allocations(align, n).owns(b) <==> self.owns(b),
            forall|k: nat|
                k < n ==> (#[trigger] self.after_allocations(align, k)).allocation(
                    align,
                ).is_some(),
        decreases n,
    {
        if n > 0 {
            self.lemma_room(align);
            self.lemma_allocate(align);
            self.lemma_allocate_room(align);
            let next = self.after_allocate(align);
            next.lemma_allocations(align, (n - 1) as nat);
            assert forall|k: nat| k < n implies (#[trigger] self.after_allocations(
                align,
                k,
            )).allocation(align).is_some() by {
                if k > 0 {
                    assert(self.after_allocations(align, k) == next.after_allocations(
                        align,
                        (k - 1) as nat,
                    ));
                }
            }
        }
    }

    /// Giving back objects in use, each at a multiple of `align`, keeps the
    /// invariant and the pages held, and makes room for as many requests
    /// aligned to `align`.
    pub proof fn lemma_deallocations(self, addrs: Seq<int>, align: int)
        requires
            self.wf(),
            align >= 1,
            addrs.no_duplicates(),
            forall|i: int|
                0 <= i < addrs.len() ==> self.is_allocated(#[trigger] addrs[i]) && addrs[i]
                    % align == 0,
        ensures
            self.after_deallocations(addrs).wf(),
            self.after_deallocations(addrs).room(align) == self.room(align) + addrs.len(),
            forall|b: usize| #![all_triggers]
                self.after_deallocations(addrs).owns(b) <==> self.owns(b),
        decreases addrs.len(),
    {
        if addrs.len() > 0 {
            let first = addrs[0];
            let rest = addrs.drop_first();
            self.lemma_deallocate(first);
            self.lemma_deallocate_room(first, align);
            let next = self.after_deallocate(first);
            assert forall|i: int| 0 <= i < rest.len() implies next.is_allocated(
                #[trigger] rest[i],
            ) && rest[i] % align == 0 by {
                assert(rest[i] == addrs[i + 1]);
                assert(addrs[i + 1] != addrs[0]);
            }
            assert(rest.no_duplicates()) by {
                assert forall|i: int, j: int|
                    0 <= i < rest.len() && 0 <= j < rest.len() && i != j implies rest[i]
                    != rest[j] by {
                    assert(rest[i] == addrs[i + 1]);
                    assert(rest[j] == addrs[j + 1]);
                }
            }
            next.lemma_deallocations(rest, align);
        }
    }

    /// When objects in use are given back, as many requests of the same
    /// alignment can be served again without another page: the run of
    /// requests is served to the end, and the allocator holds the pages it
    /// held before.
    pub proof fn lemma_reuse(self, addrs: Seq<int>, align: int)
        requires
            self.wf(),
            vstd::arithmetic::power2::is_pow2(align),
            align <= PAGE_SIZE,
            addrs.no_duplicates(),
            forall|i: int|
                0 <= i < addrs.len() ==> self.is_allocated(#[trigger] addrs[i]) && addrs[i]
                    % align == 0,
        ensures
            forall|k: nat|
                k < addrs.len() ==> (#[trigger] self.after_deallocations(addrs).after_allocations(
                    align,
                    k,
                )).allocation(align).is_some(),
            self.after_deallocations(addrs).after_allocations(align, addrs.len()).wf(),
            forall|b: usize| #![all_triggers]
                self.after_deallocations(addrs).after_allocations(align, addrs.len()).owns(b)
                    <==> self.owns(b),
    {
        crate::layout::lemma_pow2_divides_page(align);
        self.lemma_deallocations(addrs, align);
        let freed = self.after_deallocations(addrs);
        lemma_room_in(self.partial, self.size as int, align);
        lemma_room_in(self.empty, self.size as int, align);
        freed.lemma_allocations(align, addrs.len());
    }

    /// A refill with a page that the allocator does not hold yet keeps the
    /// invariant, adds that page to the pages held and changes no object.
    pub proof fn lemma_refill(self, page: PageView, heap_id: usize)
        requires
            self.wf(),
            page.wf(),
            !self.owns(page.base),
        ensures
            self.after_refill(page, heap_id).wf(),
            forall|b: usize| #![all_triggers]
                self.after_refill(page, heap_id).owns(b) <==> (b == page.base || self.owns(b)),
            forall|a: int| self.after_refill(page, heap_id).is_allocated(a) == self.is_allocated(a),
    {
        let fresh = page.reset(self.size as int, heap_id);
        let after = self.after_refill(page, heap_id);
        lemma_distinct_insert(self.empty, fresh);
        lemma_has_page_insert(self.empty, fresh);
        lemma_none_shared(self.empty, self.partial);
        lemma_none_shared(self.empty, self.full);
        lemma_none_shared(after.empty, self.partial);
        lemma_none_shared(after.empty, self.full);
        assert forall|i: int| 0 <= i < after.empty.len() implies after.page_ok(
            #[trigger] after.empty[i],
        ) && after.empty[i].is_empty(after.obj_per_page as int) by {
            if i > 0 {
                assert(after.empty[i] == self.empty[i - 1]);
            }
        }
    }

    /// Withdrawing an empty page keeps the invariant; the page leaves the
    /// pages held and no object changes.
    pub proof fn lemma_retrieve(self)
        requires
            self.wf(),
            self.empty.len() > 0,
        ensures
            self.after_retrieve().wf(),
            self.page_ok(self.empty[0]),
            self.empty[0].is_empty(self.obj_per_page as int),
            !self.after_retrieve().owns(self.empty[0].base),
            forall|b: usize| #![all_triggers]
                self.owns(b) <==> (b == self.empty[0].base || self.after_retrieve().owns(b)),
            forall|a: int| self.after_retrieve().is_allocated(a) == self.is_allocated(a),
    {
        let after = self.after_retrieve();
        lemma_distinct_remove(self.empty, 0);
        lemma_none_shared(self.empty, self.partial);
        lemma_none_shared(self.empty, self.full);
        lemma_none_shared(after.empty, self.partial);
        lemma_none_shared(after.empty, self.full);
        assert(has_page(self.empty, self.empty[0].base));
        assert forall|i: int| 0 <= i < after.empty.len() implies after.page_ok(
            #[trigger] after.empty[i],
        ) && after.empty[i].is_empty(after.obj_per_page as int) by {
            assert(after.empty[i] == self.empty[i + 1]);
        }
    }
}

} // verus!
