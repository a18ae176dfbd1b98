//! The state of a zone: its size classes, how each operation changes them,
//! and what holds of every state that the operations can reach.
use vstd::arithmetic::power2::is_pow2;
use vstd::prelude::*;

use crate::bitfield::slots_in;
use crate::page_list::{has_page, lemma_page_count, position};
use crate::pages::{page_base, PageView};
use crate::sc_state::SCView;
use crate::{DATA_SIZE, PAGE_SIZE};

verus! {


/// Size in bytes of the largest object that a zone can allocate: what a page
/// has left beside its bookkeeping.
pub const MAX_ALLOC_SIZE: usize = DATA_SIZE;

/// Number of size classes.
pub const MAX_BASE_SIZE_CLASSES: usize = 11;

/// The object sizes that a zone has an allocator for, smallest first.
pub const BASE_ALLOC_SIZES: [usize; 11] = [
    8,
    16,
    32,
    64,
    128,
    256,
    512,
    1024,
    2048,
    4096,
    MAX_ALLOC_SIZE,
];

/// A size class gives away an empty page only while it has more than this
/// number of them.
pub const SLAB_EMPTY_PAGES_THRESHOLD: usize = 0;

/// Where a request of some size is served.
#[derive(Debug, Clone, Copy, PartialEq, Eq, Structural)]
pub enum Slab {
    /// By the size class with this index.
    Base(usize),
    /// By a size class for large pages; a zone has none.
    Large(usize),
    /// Nowhere: the size is above the largest class.
    Unsupported,
}

/// Object size of the size class `class`.
pub open spec fn class_size(class: int) -> int {
    if class == 0 {
        8
    } else if class == 1 {
        16
    } else if class == 2 {
        32
    } else if class == 3 {
        64
    } else if class == 4 {
        128
    } else if class == 5 {
        256
    } else if class == 6 {
        512
    } else if class == 7 {
        1024
    } else if class == 8 {
        2048
    } else if class == 9 {
        4096
    } else {
        MAX_ALLOC_SIZE as int
    }
}

/// The size class that serves requests of `size` bytes: the one with the
/// smallest objects that are large enough. Sizes above the largest class
/// have none.
pub open spec fn class_of(size: int) -> Option<int> {
    if size <= 8 {
        Some(0)
    } else if size <= 16 {
        Some(1)
    } else if size <= 32 {
        Some(2)
    } else if size <= 64 {
        Some(3)
    } else if size <= 128 {
        Some(4)
    } else if size <= 256 {
        Some(5)
    } else if size <= 512 {
        Some(6)
    } else if size <= 1024 {
        Some(7)
    } else if size <= 2048 {
        Some(8)
    } else if size <= 4096 {
        Some(9)
    } else if size <= MAX_ALLOC_SIZE {
        Some(10)
    } else {
        None
    }
}

/// The class of a size is the first whose objects are large enough.
pub proof fn lemma_class_is_smallest_fit(size: int)
    requires
        0 <= size <= MAX_ALLOC_SIZE,
    ensures
        class_of(size).is_some(),
        0 <= class_of(size).unwrap() < MAX_BASE_SIZE_CLASSES,
        size <= class_size(class_of(size).unwrap()),
        forall|c: int| 0 <= c < class_of(size).unwrap() ==> class_size(c) < size,
{
}

/// A larger request is never served by a class of smaller objects.
pub proof fn lemma_class_monotonic(first: int, second: int)
    requires
        0 <= first <= second <= MAX_ALLOC_SIZE,
    ensures
        class_of(first).is_some(),
        class_of(second).is_some(),
        class_of(first).unwrap() <= class_of(second).unwrap(),
{
}

/// The state of a [`ZoneAllocator`]: the states of its size classes, the
/// class of the smallest objects first.
pub struct ZoneView {
    /// One allocator state per size class.
    pub slabs: Seq<SCView>,
}

impl ZoneView {
    /// The invariant of the zone: every size class is in order and serves
    /// the object size of its place, and no page is held by two classes.
    pub open spec fn wf(self) -> bool {
        &&& self.slabs.len() == MAX_BASE_SIZE_CLASSES
        &&& forall|c: int|
            0 <= c < MAX_BASE_SIZE_CLASSES ==> (#[trigger] self.slabs[c]).wf() && self.slabs[c].size
                == class_size(c)
        &&& forall|c1: int, c2: int, b: usize|
            0 <= c1 < c2 < MAX_BASE_SIZE_CLASSES ==> !(#[trigger] self.slabs[c1].owns(b)
                && #[trigger] self.slabs[c2].owns(b))
    }

    /// Whether some size class holds a page that starts at `base`.
    pub open spec fn owns(self, base: usize) -> bool {
        exists|c: int| 0 <= c < self.slabs.len() && #[trigger] self.slabs[c].owns(base)
    }

    /// Whether `addr` is the address of an object that the zone has handed
    /// out and not taken back.
    pub open spec fn is_allocated(self, addr: int) -> bool {
        exists|c: int| 0 <= c < self.slabs.len() && #[trigger] self.slabs[c].is_allocated(addr)
    }

    /// Number of empty pages in the first `n` size classes.
    pub open spec fn empty_pages_among(self, n: int) -> int
        decreases n,
    {
        if n <= 0 {
            0
        } else {
            self.empty_pages_among(n - 1) + self.slabs[n - 1].empty.len()
        }
    }

    /// Number of empty pages in the zone.
    pub open spec fn empty_pages(self) -> int {
        self.empty_pages_among(MAX_BASE_SIZE_CLASSES as int)
    }

    /// Among the first `n` size classes, the first of those with the most
    /// empty pages.
    pub open spec fn most_empty_among(self, n: int) -> int
        decreases n,
    {
        if n <= 1 {
            0
        } else {
            let d = self.most_empty_among(n - 1);
            if self.slabs[n - 1].empty.len() > self.slabs[d].empty.len() {
                n - 1
            } else {
                d
            }
        }
    }

    /// The size class that gives away a page when one is asked for: the
    /// first of those with the most empty pages.
    pub open spec fn donor(self) -> int {
        self.most_empty_among(MAX_BASE_SIZE_CLASSES as int)
    }

    /// Whether the zone has an empty page to give away.
    pub open spec fn can_give(self) -> bool {
        self.slabs[self.donor()].empty.len() > SLAB_EMPTY_PAGES_THRESHOLD
    }

    /// The zone with the state of `class` replaced by `state`.
    pub open spec fn with_class(self, class: int, state: SCView) -> ZoneView {
        ZoneView { slabs: self.slabs.update(class, state) }
    }

    /// The state after `page` was handed to the size class `class`.
    pub open spec fn after_refill(self, class: int, page: PageView, heap_id: usize) -> ZoneView {
        self.with_class(class, self.slabs[class].after_refill(page, heap_id))
    }

    /// The state after an empty page was asked for: the donor has given its
    /// front empty page, if it has one to give.
    pub open spec fn after_retrieve(self) -> ZoneView {
        if self.can_give() {
            self.with_class(self.donor(), self.slabs[self.donor()].after_retrieve())
        } else {
            self
        }
    }

    /// The state after an empty page was moved to the size class `class` for
    /// the heap `heap_id`, if the zone had one to give.
    pub open spec fn after_exchange(self, class: int, heap_id: usize) -> ZoneView {
        if self.can_give() {
            self.after_retrieve().after_refill(
                class,
                self.slabs[self.donor()].empty[0],
                heap_id,
            )
        } else {
            self
        }
    }

    /// The address that a request served by `class` for an object aligned to
    /// `align` is answered with: what the class itself can give, else the
    /// start of the page that the donor gives to the class.
    pub open spec fn allocation(self, class: int, align: int) -> Option<int> {
        if self.slabs[class].allocation(align).is_some() {
            self.slabs[class].allocation(align)
        } else if self.can_give() {
            Some(self.slabs[self.donor()].empty[0].base as int)
        } else {
            None
        }
    }

    /// The state after a request served by `class` for an object aligned to
    /// `align`. Where the class cannot serve it and the zone has an empty
    /// page to give, the page moves to the class under the owner it has, and
    /// the class serves the request from it.
    pub open spec fn after_allocate(self, class: int, align: int) -> ZoneView {
        if self.slabs[class].allocation(align).is_some() {
            self.with_class(class, self.slabs[class].after_allocate(align))
        } else if self.can_give() {
            let moved = self.after_exchange(class, self.slabs[self.donor()].empty[0].heap_id);
            moved.with_class(class, moved.slabs[class].after_allocate(align))
        } else {
            self
        }
    }

    /// The state after the object at `addr` was given back to `class`.
    pub open spec fn after_deallocate(self, class: int, addr: int) -> ZoneView {
        self.with_class(class, self.slabs[class].after_deallocate(addr))
    }

    /// The state after `n` requests in a row served by `class` for objects
    /// aligned to `align`.
    pub open spec fn after_allocations(self, class: int, align: int, n: nat) -> ZoneView
        decreases n,
    {
        if n == 0 {
            self
        } else {
            self.after_allocate(class, align).after_allocations(class, align, (n - 1) as nat)
        }
    }

    /// The state after the objects at `addrs` were given back to `class` one
    /// by one, the first of `addrs` first.
    pub open spec fn after_deallocations(self, class: int, addrs: Seq<int>) -> ZoneView
        decreases addrs.len(),
    {
        if addrs.len() == 0 {
            self
        } else {
            self.after_deallocate(class, addrs[0]).after_deallocations(class, addrs.drop_first())
        }
    }

    /// The state after the pages of `other` were merged into this zone, size
    /// class by size class.
    pub open spec fn after_merge(self, other: ZoneView, heap_id: usize) -> ZoneView {
        ZoneView {
            slabs: Seq::new(
                MAX_BASE_SIZE_CLASSES as nat,
                |c: int| self.slabs[c].after_merge(other.slabs[c], heap_id),
            ),
        }
    }

    /// The state of a zone whose pages were all taken away.
    pub open spec fn without_pages(self) -> ZoneView {
        ZoneView {
            slabs: Seq::new(MAX_BASE_SIZE_CLASSES as nat, |c: int| self.slabs[c].without_pages()),
        }
    }

    /// The empty pages of the first `n` size classes are no more than the
    /// address space has room for in each.
    pub proof fn lemma_empty_pages_bound(self, n: int)
        requires
            self.wf(),
            0 <= n <= MAX_BASE_SIZE_CLASSES,
        ensures
            0 <= self.empty_pages_among(n) <= n * (usize::MAX / PAGE_SIZE),
        decreases n,
    {
        if n > 0 {
            self.lemma_empty_pages_bound(n - 1);
            let st = self.slabs[n - 1];
            assert(st.wf());
            assert forall|i: int| 0 <= i < st.empty.len() implies (#[trigger] st.empty[i]).wf() by {
                assert(st.page_ok(st.empty[i]));
            }
            lemma_page_count(st.empty);
            let room = (usize::MAX / PAGE_SIZE) as int;
            assert(n * room == (n - 1) * room + room) by (nonlinear_arith);
        }
    }

    /// No size class among the first `n` has more empty pages than the one
    /// that `most_empty_among` names, and none before it has as many.
    pub proof fn lemma_most_empty(self, n: int)
        requires
            1 <= n <= self.slabs.len(),
        ensures
            0 <= self.most_empty_among(n) < n,
            forall|j: int|
                0 <= j < n ==> (#[trigger] self.slabs[j]).empty.len()
                    <= self.slabs[self.most_empty_among(n)].empty.len(),
            forall|j: int|
                0 <= j < self.most_empty_among(n) ==> (#[trigger] self.slabs[j]).empty.len()
                    < self.slabs[self.most_empty_among(n)].empty.len(),
        decreases n,
    {
        if n > 1 {
            self.lemma_most_empty(n - 1);
        }
    }

    /// Replacing the state of a size class keeps the invariant of the zone
    /// when the new state is in order, serves the same object size, and holds
    /// no page of another class.
    pub proof fn lemma_with_class(self, class: int, state: SCView)
        requires
            self.wf(),
            0 <= class < MAX_BASE_SIZE_CLASSES,
            state.wf(),
            state.size == self.slabs[class].size,
            forall|c: int, b: usize|
                0 <= c < MAX_BASE_SIZE_CLASSES && c != class ==> !(state.owns(b)
                    && #[trigger] self.slabs[c].owns(b)),
        ensures
            self.with_class(class, state).wf(),
    {
        let after = self.with_class(class, state);
        assert forall|c: int|
            0 <= c < MAX_BASE_SIZE_CLASSES implies (#[trigger] after.slabs[c]).wf()
            && after.slabs[c].size == class_size(c) by {
            if c != class {
                assert(after.slabs[c] == self.slabs[c]);
            }
        }
        assert forall|c1: int, c2: int, b: usize|
            0 <= c1 < c2 < MAX_BASE_SIZE_CLASSES implies !(#[trigger] after.slabs[c1].owns(b)
            && #[trigger] after.slabs[c2].owns(b)) by {
            if c1 == class {
                assert(!(state.owns(b) && self.slabs[c2].owns(b)));
            } else if c2 == class {
                assert(!(state.owns(b) && self.slabs[c1].owns(b)));
            } else {
                assert(!(self.slabs[c1].owns(b) && self.slabs[c2].owns(b)));
            }
        }
    }

    /// Whether a size class other than `class` holds a page that starts at
    /// `base`.
    pub open spec fn others_own(self, class: int, base: usize) -> bool {
        exists|c: int|
            0 <= c < self.slabs.len() && c != class && #[trigger] self.slabs[c].owns(base)
    }

    /// Whether `addr` is the address of an object in use in a size class
    /// other than `class`.
    pub open spec fn others_allocated(self, class: int, addr: int) -> bool {
        exists|c: int|
            0 <= c < self.slabs.len() && c != class && #[trigger] self.slabs[c].is_allocated(addr)
    }

    /// What a zone holds and has handed out is what one of its size classes
    /// and what the others hold and have handed out; the others are not
    /// touched when the state of that class is replaced.
    pub proof fn lemma_with_class_has(self, class: int, state: SCView)
        requires
            0 <= class < self.slabs.len(),
        ensures
            forall|b: usize| #![all_triggers]
                self.with_class(class, state).owns(b) <==> (state.owns(b) || self.others_own(
                    class,
                    b,
                )),
            forall|x: int| #![all_triggers]
                self.with_class(class, state).is_allocated(x) <==> (state.is_allocated(x)
                    || self.others_allocated(class, x)),
            forall|b: usize| #![all_triggers]
                self.owns(b) <==> (self.slabs[class].owns(b) || self.others_own(class, b)),
            forall|x: int| #![all_triggers]
                self.is_allocated(x) <==> (self.slabs[class].is_allocated(x)
                    || self.others_allocated(class, x)),
    {
        let after = self.with_class(class, state);
        assert(after.slabs[class] == state);
        assert forall|b: usize|
            after.owns(b) <==> (state.owns(b) || self.others_own(class, b)) by {
            if after.owns(b) {
                let c = choose|c: int|
                    0 <= c < after.slabs.len() && #[trigger] after.slabs[c].owns(b);
                if c != class {
                    assert(self.slabs[c].owns(b));
                }
            }
            if self.others_own(class, b) {
                let c = choose|c: int|
                    0 <= c < self.slabs.len() && c != class && #[trigger] self.slabs[c].owns(b);
                assert(after.slabs[c].owns(b));
            }
        }
        assert forall|x: int|
            after.is_allocated(x) <==> (state.is_allocated(x) || self.others_allocated(
                class,
                x,
            )) by {
            if after.is_allocated(x) {
                let c = choose|c: int|
                    0 <= c < after.slabs.len() && #[trigger] after.slabs[c].is_allocated(x);
                if c != class {
                    assert(self.slabs[c].is_allocated(x));
                }
            }
            if self.others_allocated(class, x) {
                let c = choose|c: int|
                    0 <= c < self.slabs.len() && c != class && #[trigger] self.slabs[c].is_allocated(
                        x,
                    );
                assert(after.slabs[c].is_allocated(x));
            }
        }
        assert forall|b: usize|
            self.owns(b) <==> (self.slabs[class].owns(b) || self.others_own(class, b)) by {
            if self.owns(b) {
                let c = choose|c: int|
                    0 <= c < self.slabs.len() && #[trigger] self.slabs[c].owns(b);
            }
        }
        assert forall|x: int|
            self.is_allocated(x) <==> (self.slabs[class].is_allocated(x) || self.others_allocated(
                class,
                x,
            )) by {
            if self.is_allocated(x) {
                let c = choose|c: int|
                    0 <= c < self.slabs.len() && #[trigger] self.slabs[c].is_allocated(x);
            }
        }
    }

    /// A page of the zone is held by one size class only.
    pub proof fn lemma_one_owner(self, c1: int, c2: int, base: usize)
        requires
            self.wf(),
            0 <= c1 < MAX_BASE_SIZE_CLASSES,
            0 <= c2 < MAX_BASE_SIZE_CLASSES,
            self.slabs[c1].owns(base),
            self.slabs[c2].owns(base),
        ensures
            c1 == c2,
    {
        if c1 < c2 {
            assert(!(self.slabs[c1].owns(base) && self.slabs[c2].owns(base)));
        } else if c2 < c1 {
            assert(!(self.slabs[c2].owns(base) && self.slabs[c1].owns(base)));
        }
    }

    /// An object in use belongs to one size class only.
    pub proof fn lemma_one_class(self, c1: int, c2: int, addr: int)
        requires
            self.wf(),
            0 <= c1 < MAX_BASE_SIZE_CLASSES,
            0 <= c2 < MAX_BASE_SIZE_CLASSES,
            self.slabs[c1].is_allocated(addr),
            self.slabs[c2].is_allocated(addr),
        ensures
            c1 == c2,
    {
        self.slabs[c1].lemma_allocated_page(addr);
        self.slabs[c2].lemma_allocated_page(addr);
        let b = page_base(addr) as usize;
        assert(self.slabs[c1].owns(b));
        assert(self.slabs[c2].owns(b));
        if c1 < c2 {
            assert(!(self.slabs[c1].owns(b) && self.slabs[c2].owns(b)));
        } else if c2 < c1 {
            assert(!(self.slabs[c2].owns(b) && self.slabs[c1].owns(b)));
        }
    }

    /// Two objects in use do not overlap, whatever their size classes: each
    /// ends before the other starts.
    pub proof fn lemma_objects_apart(self, c1: int, a1: int, c2: int, a2: int)
        requires
            self.wf(),
            0 <= c1 < MAX_BASE_SIZE_CLASSES,
            0 <= c2 < MAX_BASE_SIZE_CLASSES,
            self.slabs[c1].is_allocated(a1),
            self.slabs[c2].is_allocated(a2),
            a1 != a2,
        ensures
            a1 + class_size(c1) <= a2 || a2 + class_size(c2) <= a1,
    {
        if c1 == c2 {
            self.slabs[c1].lemma_objects_apart(a1, a2);
        } else {
            let first = self.slabs[c1];
            let second = self.slabs[c2];
            first.lemma_allocated_page(a1);
            second.lemma_allocated_page(a2);
            let b1 = page_base(a1) as usize;
            let b2 = page_base(a2) as usize;
            assert(first.owns(b1));
            assert(second.owns(b2));
            if c1 < c2 {
                assert(!(self.slabs[c1].owns(b1) && self.slabs[c2].owns(b1)));
            } else {
                assert(!(self.slabs[c2].owns(b1) && self.slabs[c1].owns(b1)));
            }
            assert(b1 != b2);
            let first_page = if has_page(first.partial, b1) {
                first.partial[position(first.partial, b1)]
            } else {
                first.full[position(first.full, b1)]
            };
            let second_page = if has_page(second.partial, b2) {
                second.partial[position(second.partial, b2)]
            } else {
                second.full[position(second.full, b2)]
            };
            assert(first.page_ok(first_page));
            assert(second.page_ok(second_page));
            first_page.lemma_holds_within(first.size as int, a1);
            second_page.lemma_holds_within(second.size as int, a2);
            first_page.lemma_pages_apart(
                first.size as int,
                a1,
                second_page,
                second.size as int,
                a2,
            );
        }
    }

    /// A refill of a size class with a page that the zone does not hold yet
    /// keeps the invariant, adds that page to the pages held and changes no
    /// object.
    pub proof fn lemma_refill(self, class: int, page: PageView, heap_id: usize)
        requires
            self.wf(),
            0 <= class < MAX_BASE_SIZE_CLASSES,
            page.wf(),
            !self.owns(page.base),
        ensures
            self.after_refill(class, page, heap_id).wf(),
            forall|b: usize| #![all_triggers]
                self.after_refill(class, page, heap_id).owns(b) <==> (b == page.base || self.owns(
                    b,
                )),
            forall|x: int| #![all_triggers]
                self.after_refill(class, page, heap_id).is_allocated(x) == self.is_allocated(x),
    {
        let state = self.slabs[class].after_refill(page, heap_id);
        assert(!self.slabs[class].owns(page.base));
        self.slabs[class].lemma_refill(page, heap_id);
        assert forall|c: int, b: usize|
            0 <= c < MAX_BASE_SIZE_CLASSES && c != class implies !(state.owns(b)
            && #[trigger] self.slabs[c].owns(b)) by {
            if c < class {
                assert(!(self.slabs[c].owns(b) && self.slabs[class].owns(b)));
            } else {
                assert(!(self.slabs[class].owns(b) && self.slabs[c].owns(b)));
            }
        }
        self.lemma_with_class(class, state);
        self.lemma_with_class_has(class, state);
    }

    /// Giving away an empty page keeps the invariant; the page leaves the
    /// pages held and no object changes.
    pub proof fn lemma_retrieve(self)
        requires
            self.wf(),
            self.can_give(),
        ensures
            0 <= self.donor() < MAX_BASE_SIZE_CLASSES,
            self.after_retrieve().wf(),
            self.slabs[self.donor()].empty[0].wf(),
            !self.after_retrieve().owns(self.slabs[self.donor()].empty[0].base),
            forall|b: usize| #![all_triggers]
                self.owns(b) <==> (b == self.slabs[self.donor()].empty[0].base
                    || self.after_retrieve().owns(b)),
            forall|x: int| #![all_triggers]
                self.after_retrieve().is_allocated(x) == self.is_allocated(x),
    {
        self.lemma_most_empty(MAX_BASE_SIZE_CLASSES as int);
        let d = self.donor();
        let state = self.slabs[d].after_retrieve();
        let page = self.slabs[d].empty[0];
        self.slabs[d].lemma_retrieve();
        assert forall|c: int, b: usize|
            0 <= c < MAX_BASE_SIZE_CLASSES && c != d implies !(state.owns(b)
            && #[trigger] self.slabs[c].owns(b)) by {
            if c < d {
                assert(!(self.slabs[c].owns(b) && self.slabs[d].owns(b)));
            } else {
                assert(!(self.slabs[d].owns(b) && self.slabs[c].owns(b)));
            }
        }
        self.lemma_with_class(d, state);
        self.lemma_with_class_has(d, state);
        assert(self.slabs[d].owns(page.base));
        assert forall|c: int|
            0 <= c < MAX_BASE_SIZE_CLASSES && c != d implies !(#[trigger] self.slabs[c].owns(
            page.base,
        )) by {
            if c < d {
                assert(!(self.slabs[c].owns(page.base) && self.slabs[d].owns(page.base)));
            } else {
                assert(!(self.slabs[d].owns(page.base) && self.slabs[c].owns(page.base)));
            }
        }
    }

    /// Moving an empty page to another size class keeps the invariant, the
    /// pages held and the objects in use.
    pub proof fn lemma_exchange(self, class: int, heap_id: usize)
        requires
            self.wf(),
            0 <= class < MAX_BASE_SIZE_CLASSES,
            self.can_give(),
        ensures
            self.after_exchange(class, heap_id).wf(),
            forall|b: usize| #![all_triggers]
                self.after_exchange(class, heap_id).owns(b) <==> self.owns(b),
            forall|x: int| #![all_triggers]
                self.after_exchange(class, heap_id).is_allocated(x) == self.is_allocated(x),
    {
        self.lemma_retrieve();
        self.after_retrieve().lemma_refill(class, self.slabs[self.donor()].empty[0], heap_id);
    }

    /// A request that its size class can serve keeps the invariant of the
    /// zone and the pages held. The address handed out is aligned as asked;
    /// it was in use in no size class, and is the only change to what is in
    /// use.
    pub proof fn lemma_class_allocate(self, class: int, align: int)
        requires
            self.wf(),
            0 <= class < MAX_BASE_SIZE_CLASSES,
            is_pow2(align),
            align <= PAGE_SIZE,
            self.slabs[class].allocation(align).is_some(),
        ensures
            self.with_class(class, self.slabs[class].after_allocate(align)).wf(),
            forall|b: usize| #![all_triggers]
                self.with_class(class, self.slabs[class].after_allocate(align)).owns(b)
                    <==> self.owns(b),
            0 <= self.slabs[class].allocation(align).unwrap(),
            self.slabs[class].allocation(align).unwrap() + class_size(class) <= usize::MAX,
            self.slabs[class].allocation(align).unwrap() % align == 0,
            !self.is_allocated(self.slabs[class].allocation(align).unwrap()),
            self.slabs[class].after_allocate(align).is_allocated(
                self.slabs[class].allocation(align).unwrap(),
            ),
            forall|x: int| #![all_triggers]
                self.with_class(class, self.slabs[class].after_allocate(align)).is_allocated(x)
                    <==> (x == self.slabs[class].allocation(align).unwrap() || self.is_allocated(
                    x,
                )),
    {
        let st = self.slabs[class];
        let state = st.after_allocate(align);
        let a = st.allocation(align).unwrap();
        st.lemma_allocate(align);
        assert forall|c: int, b: usize|
            0 <= c < MAX_BASE_SIZE_CLASSES && c != class implies !(state.owns(b)
            && #[trigger] self.slabs[c].owns(b)) by {
            if c < class {
                assert(!(self.slabs[c].owns(b) && self.slabs[class].owns(b)));
            } else {
                assert(!(self.slabs[class].owns(b) && self.slabs[c].owns(b)));
            }
        }
        self.lemma_with_class(class, state);
        self.lemma_with_class_has(class, state);
        if self.others_allocated(class, a) {
            let c = choose|c: int|
                0 <= c < self.slabs.len() && c != class && #[trigger] self.slabs[c].is_allocated(a);
            self.slabs[c].lemma_allocated_page(a);
            let b = page_base(a) as usize;
            assert(self.slabs[c].owns(b));
            if c < class {
                assert(!(self.slabs[c].owns(b) && self.slabs[class].owns(b)));
            } else {
                assert(!(self.slabs[class].owns(b) && self.slabs[c].owns(b)));
            }
        }
        assert(!self.others_allocated(class, a));
        assert forall|x: int|
            self.with_class(class, state).is_allocated(x) <==> (x == a || self.is_allocated(
                x,
            )) by {
            assert(self.with_class(class, state).is_allocated(x) <==> (state.is_allocated(x)
                || self.others_allocated(class, x)));
            assert(self.is_allocated(x) <==> (st.is_allocated(x) || self.others_allocated(
                class,
                x,
            )));
            assert(state.is_allocated(x) <==> (x == a || st.is_allocated(x)));
        }
    }

    /// A request is served exactly when its size class can serve it or the
    /// zone has an empty page to give. It keeps the invariant and the pages
    /// held. The address handed out is aligned as asked; it was not in use,
    /// and is the only change to what is in use.
    pub proof fn lemma_allocate(self, class: int, align: int)
        requires
            self.wf(),
            0 <= class < MAX_BASE_SIZE_CLASSES,
            is_pow2(align),
            align <= PAGE_SIZE,
        ensures
            self.after_allocate(class, align).wf(),
            forall|b: usize| #![all_triggers]
                self.after_allocate(class, align).owns(b) <==> self.owns(b),
            self.allocation(class, align).is_some() <==> (self.slabs[class].allocation(
                align,
            ).is_some() || self.can_give()),
            match self.allocation(class, align) {
                Some(a) => {
                    &&& 0 <= a
                    &&& a + class_size(class) <= usize::MAX
                    &&& a % align == 0
                    &&& !self.is_allocated(a)
                    &&& self.after_allocate(class, align).slabs[class].is_allocated(a)
                    &&& forall|x: int| #![all_triggers]
                        self.after_allocate(class, align).is_allocated(x) <==> (x == a
                            || self.is_allocated(x))
                },
                None => self.after_allocate(class, align) == self,
            },
    {
        if self.slabs[class].allocation(align).is_some() {
            self.lemma_class_allocate(class, align);
        } else if self.can_give() {
            let d = self.donor();
            let page = self.slabs[d].empty[0];
            let moved = self.after_exchange(class, page.heap_id);
            self.slabs[class].lemma_allocate(align);
            self.lemma_retrieve();
            self.lemma_exchange(class, page.heap_id);
            assert(d != class);
            assert(self.after_retrieve().slabs[class] == self.slabs[class]);
            let st = moved.slabs[class];
            assert(st == self.slabs[class].after_refill(page, page.heap_id));
            assert(st.partial == self.slabs[class].partial);
            assert(st.empty.len() > 0);
            assert(st.empty[0].base == page.base);
            assert(st.allocation(align) == Some(page.base as int));
            moved.lemma_class_allocate(class, align);
        }
    }

    /// Giving back an object in use keeps the invariant of the zone and the
    /// pages held; the object is no longer in use, and nothing else changes
    /// in what is.
    pub proof fn lemma_deallocate(self, class: int, addr: int)
        requires
            self.wf(),
            0 <= class < MAX_BASE_SIZE_CLASSES,
            self.slabs[class].is_allocated(addr),
        ensures
            self.after_deallocate(class, addr).wf(),
            forall|b: usize| #![all_triggers]
                self.after_deallocate(class, addr).owns(b) <==> self.owns(b),
            forall|x: int| #![all_triggers]
                self.after_deallocate(class, addr).is_allocated(x) <==> (x != addr
                    && self.is_allocated(x)),
    {
        let st = self.slabs[class];
        let state = st.after_deallocate(addr);
        st.lemma_deallocate(addr);
        assert forall|c: int, b: usize|
            0 <= c < MAX_BASE_SIZE_CLASSES && c != class implies !(state.owns(b)
            && #[trigger] self.slabs[c].owns(b)) by {
            if c < class {
                assert(!(self.slabs[c].owns(b) && self.slabs[class].owns(b)));
            } else {
                assert(!(self.slabs[class].owns(b) && self.slabs[c].owns(b)));
            }
        }
        self.lemma_with_class(class, state);
        self.lemma_with_class_has(class, state);
        if self.others_allocated(class, addr) {
            let c = choose|c: int|
                0 <= c < self.slabs.len() && c != class && #[trigger] self.slabs[c].is_allocated(
                    addr,
                );
            self.lemma_one_class(c, class, addr);
        }
    }

    /// A run of requests is served by its size class alone as long as the
    /// class has room for it: the other classes stay as they are.
    pub proof fn lemma_allocations(self, class: int, align: int, n: nat)
        requires
            self.wf(),
            0 <= class < MAX_BASE_SIZE_CLASSES,
            is_pow2(align),
            align <= PAGE_SIZE,
            n <= self.slabs[class].room(align),
        ensures
            self.after_allocations(class, align, n) == self.with_class(
                class,
                self.slabs[class].after_allocations(align, n),
            ),
            self.after_allocations(class, align, n).wf(),
            forall|b: usize| #![all_triggers]
                self.after_allocations(class, align, n).owns(b) <==> self.owns(b),
            forall|k: nat|
                k < n ==> (#[trigger] self.after_allocations(class, align, k)).allocation(
                    class,
                    align,
                ).is_some(),
        decreases n,
    {
        let st = self.slabs[class];
        if n == 0 {
            assert(self.with_class(class, st).slabs =~= self.slabs);
        } else {
            st.lemma_room(align);
            st.lemma_allocate_room(align);
            self.lemma_class_allocate(class, align);
            let next = self.after_allocate(class, align);
            assert(next == self.with_class(class, st.after_allocate(align)));
            assert(next.slabs[class] == st.after_allocate(align));
            next.lemma_allocations(class, align, (n - 1) as nat);
            assert(next.with_class(class, st.after_allocations(align, n)).slabs
                =~= self.with_class(class, st.after_allocations(align, n)).slabs);
            assert forall|k: nat| k < n implies (#[trigger] self.after_allocations(
                class,
                align,
                k,
            )).allocation(class, align).is_some() by {
                if k > 0 {
                    assert(self.after_allocations(class, align, k) == next.after_allocations(
                        class,
                        align,
                        (k - 1) as nat,
                    ));
                }
            }
        }
    }

    /// Giving back objects in use in a size class, each at a multiple of
    /// `align`, keeps the invariant and the pages held, leaves the other
    /// classes as they are and makes room in the class for as many requests
    /// aligned to `align`.
    pub proof fn lemma_deallocations(self, class: int, addrs: Seq<int>, align: int)
        requires
            self.wf(),
            0 <= class < MAX_BASE_SIZE_CLASSES,
            align >= 1,
            addrs.no_duplicates(),
            forall|i: int|
                0 <= i < addrs.len() ==> self.slabs[class].is_allocated(#[trigger] addrs[i])
                    && addrs[i] % align == 0,
        ensures
            self.after_deallocations(class, addrs) == self.with_class(
                class,
                self.slabs[class].after_deallocations(addrs),
            ),
            self.after_deallocations(class, addrs).wf(),
            self.slabs[class].after_deallocations(addrs).room(align) == self.slabs[class].room(
                align,
            ) + addrs.len(),
            forall|b: usize| #![all_triggers]
                self.after_deallocations(class, addrs).owns(b) <==> self.owns(b),
        decreases addrs.len(),
    {
        let st = self.slabs[class];
        if addrs.len() == 0 {
            assert(self.with_class(class, st).slabs =~= self.slabs);
        } else {
            let first = addrs[0];
            let rest = addrs.drop_first();
            self.lemma_deallocate(class, first);
            st.lemma_deallocate(first);
            st.lemma_deallocate_room(first, align);
            let next = self.after_deallocate(class, first);
            assert(next.slabs[class] == st.after_deallocate(first));
            assert forall|i: int| 0 <= i < rest.len() implies next.slabs[class].is_allocated(
                #[trigger] rest[i],
            ) && rest[i] % align == 0 by {
                assert(rest[i] == addrs[i + 1]);
                assert(addrs[i + 1] != addrs[0]);
            }
            assert(rest.no_duplicates()) by {
                assert forall|i: int, j: int|
                    0 <= i < rest.len() && 0 <= j < rest.len() && i != j implies rest[i]
                    != rest[j] by {
                    assert(rest[i] == addrs[i + 1]);
                    assert(rest[j] == addrs[j + 1]);
                }
            }
            next.lemma_deallocations(class, rest, align);
            assert(next.with_class(class, st.after_deallocations(addrs)).slabs
                =~= self.with_class(class, st.after_deallocations(addrs)).slabs);
        }
    }

    /// When objects in use in a size class are given back, as many requests
    /// of the same alignment can be served by the class again without
    /// another page: the run of requests is served to the end, and the zone
    /// holds the pages it held before.
    pub proof fn lemma_reuse(self, class: int, addrs: Seq<int>, align: int)
        requires
            self.wf(),
            0 <= class < MAX_BASE_SIZE_CLASSES,
            is_pow2(align),
            align <= PAGE_SIZE,
            addrs.no_duplicates(),
            forall|i: int|
                0 <= i < addrs.len() ==> self.slabs[class].is_allocated(#[trigger] addrs[i])
                    && addrs[i] % align == 0,
        ensures
            forall|k: nat|
                k < addrs.len() ==> (#[trigger] self.after_deallocations(
                    class,
                    addrs,
                ).after_allocations(class, align, k)).allocation(class, align).is_some(),
            self.after_deallocations(class, addrs).after_allocations(
                class,
                align,
                addrs.len(),
            ).wf(),
            forall|b: usize| #![all_triggers]
                self.after_deallocations(class, addrs).after_allocations(
                    class,
                    align,
                    addrs.len(),
                ).owns(b) <==> self.owns(b),
    {
        crate::layout::lemma_pow2_divides_page(align);
        self.lemma_deallocations(class, addrs, align);
        let freed = self.after_deallocations(class, addrs);
        self.slabs[class].lemma_room(align);
        assert(freed.slabs[class] == self.slabs[class].after_deallocations(addrs));
        freed.lemma_allocations(class, align, addrs.len());
    }

    /// A page that was refilled into one size class and is the one that the
    /// zone gives away next serves another size class as if it had come there
    /// first. Once withdrawn, the zone is as it was before the refill;
    /// refilled into the other class, the page lets that class serve a
    /// request.
    pub proof fn lemma_page_handoff(
        self,
        class: int,
        other_class: int,
        page: PageView,
        heap_id: usize,
        other_heap_id: usize,
        align: int,
    )
        requires
            self.wf(),
            0 <= class < MAX_BASE_SIZE_CLASSES,
            0 <= other_class < MAX_BASE_SIZE_CLASSES,
            page.wf(),
            !self.owns(page.base),
            self.after_refill(class, page, heap_id).donor() == class,
            is_pow2(align),
            align <= PAGE_SIZE,
        ensures
            self.after_refill(class, page, heap_id).can_give(),
            self.after_refill(class, page, heap_id).slabs[class].empty[0] == page.reset(
                class_size(class),
                heap_id,
            ),
            self.after_refill(class, page, heap_id).after_retrieve() == self,
            self.after_refill(other_class, page.reset(class_size(class), heap_id), other_heap_id)
                == self.after_refill(other_class, page, other_heap_id),
            self.after_refill(other_class, page, other_heap_id).wf(),
            self.after_refill(other_class, page, other_heap_id).slabs[other_class].allocation(
                align,
            ).is_some(),
            self.after_refill(other_class, page, other_heap_id).allocation(
                other_class,
                align,
            ).is_some(),
    {
        let lent = self.after_refill(class, page, heap_id);
        assert(!self.slabs[class].owns(page.base));
        assert(!self.slabs[other_class].owns(page.base));
        self.slabs[class].lemma_page_handoff(
            self.slabs[other_class],
            page,
            heap_id,
            other_heap_id,
            align,
        );
        assert(lent.slabs[class] == self.slabs[class].after_refill(page, heap_id));
        assert(lent.after_retrieve().slabs =~= self.slabs);
        self.lemma_refill(other_class, page, other_heap_id);
    }

    /// Merging a zone that shares no page with this one keeps the invariant.
    /// Afterwards this zone has the pages and the objects of both, and the
    /// other has none.
    pub proof fn lemma_merge(self, other: ZoneView, heap_id: usize)
        requires
            self.wf(),
            other.wf(),
            forall|b: usize| #![all_triggers] !(self.owns(b) && other.owns(b)),
        ensures
            self.after_merge(other, heap_id).wf(),
            other.without_pages().wf(),
            forall|b: usize| #![all_triggers]
                self.after_merge(other, heap_id).owns(b) <==> (self.owns(b) || other.owns(b)),
            forall|x: int| #![all_triggers]
                self.after_merge(other, heap_id).is_allocated(x) <==> (self.is_allocated(x)
                    || other.is_allocated(x)),
            forall|b: usize| #![all_triggers] !other.without_pages().owns(b),
            forall|x: int| #![all_triggers] !other.without_pages().is_allocated(x),
    {
        let after = self.after_merge(other, heap_id);
        let drained = other.without_pages();
        assert forall|c: int|
            0 <= c < MAX_BASE_SIZE_CLASSES implies (#[trigger] after.slabs[c]).wf()
            && after.slabs[c].size == class_size(c) && (forall|b: usize| #![all_triggers]
            after.slabs[c].owns(b) <==> (self.slabs[c].owns(b) || other.slabs[c].owns(b)))
            && (forall|x: int| #![all_triggers]
            after.slabs[c].is_allocated(x) <==> (self.slabs[c].is_allocated(x)
                || other.slabs[c].is_allocated(x))) && drained.slabs[c].wf()
            && drained.slabs[c].size == class_size(c) by {
            assert(self.slabs[c].wf());
            assert(other.slabs[c].wf());
            assert forall|b: usize| !(self.slabs[c].owns(b) && other.slabs[c].owns(b)) by {
                assert(!(self.owns(b) && other.owns(b)));
            }
            self.slabs[c].lemma_merge(other.slabs[c], heap_id);
        }
        assert forall|c1: int, c2: int, b: usize|
            0 <= c1 < c2 < MAX_BASE_SIZE_CLASSES implies !(#[trigger] after.slabs[c1].owns(b)
            && #[trigger] after.slabs[c2].owns(b)) by {
            assert(after.slabs[c1].wf());
            assert(after.slabs[c2].wf());
            assert(!(self.slabs[c1].owns(b) && self.slabs[c2].owns(b)));
            assert(!(other.slabs[c1].owns(b) && other.slabs[c2].owns(b)));
            assert(!(self.owns(b) && other.owns(b)));
        }
        assert forall|c1: int, c2: int, b: usize|
            0 <= c1 < c2 < MAX_BASE_SIZE_CLASSES implies !(#[trigger] drained.slabs[c1].owns(b)
            && #[trigger] drained.slabs[c2].owns(b)) by {}
        assert forall|b: usize| after.owns(b) <==> (self.owns(b) || other.owns(b)) by {
            if after.owns(b) {
                let c = choose|c: int|
                    0 <= c < after.slabs.len() && #[trigger] after.slabs[c].owns(b);
                assert(after.slabs[c].wf());
            }
            if self.owns(b) {
                let c = choose|c: int|
                    0 <= c < self.slabs.len() && #[trigger] self.slabs[c].owns(b);
                assert(after.slabs[c].wf());
            }
            if other.owns(b) {
                let c = choose|c: int|
                    0 <= c < other.slabs.len() && #[trigger] other.slabs[c].owns(b);
                assert(after.slabs[c].wf());
            }
        }
        assert forall|x: int|
            after.is_allocated(x) <==> (self.is_allocated(x) || other.is_allocated(x)) by {
            if after.is_allocated(x) {
                let c = choose|c: int|
                    0 <= c < after.slabs.len() && #[trigger] after.slabs[c].is_allocated(x);
                assert(after.slabs[c].wf());
            }
            if self.is_allocated(x) {
                let c = choose|c: int|
                    0 <= c < self.slabs.len() && #[trigger] self.slabs[c].is_allocated(x);
                assert(after.slabs[c].wf());
            }
            if other.is_allocated(x) {
                let c = choose|c: int|
                    0 <= c < other.slabs.len() && #[trigger] other.slabs[c].is_allocated(x);
                assert(after.slabs[c].wf());
            }
        }
    }
}

/// The state of the size class `class` in a zone that has no pages yet.
pub open spec fn new_class(class: int) -> SCView {
    SCView {
        size: class_size(class) as usize,
        allocation_count: 0,
        obj_per_page: slots_in(class_size(class), DATA_SIZE as int) as usize,
        empty: Seq::empty(),
        partial: Seq::empty(),
        full: Seq::empty(),
    }
}

} // verus!
