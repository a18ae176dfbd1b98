//! Backing pages and the lists that a size class keeps them in.
use vstd::prelude::*;

use crate::bitfield::{slot_fits, slots_in, Bitfield, BITFIELD_BITS};
use crate::{AllocationError, Layout, DATA_SIZE, METADATA_SIZE, PAGE_SIZE};

verus! {

/// What a backing page is to the allocator: where it starts, who owns it and
/// which of its slots are taken.
pub struct PageView {
    /// Address of the page's first byte.
    pub base: usize,
    /// Tag of the heap that owns the page.
    pub heap_id: usize,
    /// One entry per bit of the page's bitfield; `true` marks a taken slot.
    pub bits: Seq<bool>,
}

impl PageView {
    /// The page starts at a multiple of the page size, ends within the
    /// address space and has 512 bits.
    pub open spec fn wf(self) -> bool {
        &&& self.base % PAGE_SIZE == 0
        &&& self.base + PAGE_SIZE <= usize::MAX
        &&& self.bits.len() == BITFIELD_BITS
    }

    /// Every bit is set: no search finds a slot here.
    pub open spec fn is_full(self) -> bool {
        forall|i: int| 0 <= i < BITFIELD_BITS ==> self.bits[i]
    }

    /// None of the first `relevant_bits` bits is set.
    pub open spec fn is_empty(self, relevant_bits: int) -> bool {
        forall|i: int| 0 <= i < relevant_bits && i < BITFIELD_BITS ==> !self.bits[i]
    }

    /// Every bit from `relevant_bits` on is set, so that only the slots
    /// before it are ever handed out.
    pub open spec fn capped(self, relevant_bits: int) -> bool {
        forall|i: int| relevant_bits <= i < BITFIELD_BITS ==> self.bits[i]
    }

    /// Address of slot `i` when the page is cut into slots of `size` bytes.
    pub open spec fn slot_address(self, size: int, i: int) -> int {
        self.base + i * size
    }

    /// Whether slot `i` can serve a request for `size` bytes aligned to `align`.
    pub open spec fn fits(self, size: int, align: int, i: int) -> bool {
        slot_fits(self.bits, self.base as int, size, align, i)
    }

    /// The lowest slot from `from` on that can serve the request, or 512
    /// when there is none.
    pub open spec fn lowest_fit_from(self, size: int, align: int, from: int) -> int
        decreases BITFIELD_BITS - from,
    {
        if from >= BITFIELD_BITS {
            BITFIELD_BITS as int
        } else if self.fits(size, align, from) {
            from
        } else {
            self.lowest_fit_from(size, align, from + 1)
        }
    }

    /// The lowest slot that can serve the request, if any can.
    pub open spec fn first_fit(self, size: int, align: int) -> Option<int> {
        let i = self.lowest_fit_from(size, align, 0);
        if i < BITFIELD_BITS {
            Some(i)
        } else {
            None
        }
    }

    /// Number of slots before slot `n` that can serve a request for `size`
    /// bytes aligned to `align`.
    pub open spec fn room_below(self, size: int, align: int, n: int) -> int
        decreases n,
    {
        if n <= 0 {
            0
        } else {
            self.room_below(size, align, n - 1) + if self.fits(size, align, n - 1) {
                1int
            } else {
                0int
            }
        }
    }

    /// Number of slots of the page that can serve a request for `size` bytes
    /// aligned to `align`.
    pub open spec fn room(self, size: int, align: int) -> int {
        self.room_below(size, align, BITFIELD_BITS as int)
    }

    /// The page with bit `i` set to `taken`.
    pub open spec fn with_bit(self, i: int, taken: bool) -> PageView {
        PageView { bits: self.bits.update(i, taken), ..self }
    }

    /// The page under another owner.
    pub open spec fn with_heap_id(self, heap_id: usize) -> PageView {
        PageView { heap_id, ..self }
    }

    /// The page as `refill` leaves it: owned by `heap_id`, with the slots
    /// that exist for objects of `size` bytes free and every other bit set.
    pub open spec fn reset(self, size: int, heap_id: usize) -> PageView {
        PageView {
            base: self.base,
            heap_id,
            bits: Seq::new(512, |i: int| i >= slots_in(size, DATA_SIZE as int)),
        }
    }

    /// Whether `addr` is the start of a taken slot when the page is cut into
    /// slots of `size` bytes.
    pub open spec fn holds(self, size: int, addr: int) -> bool {
        &&& self.base <= addr
        &&& (addr - self.base) % size == 0
        &&& (addr - self.base) / size < slots_in(size, DATA_SIZE as int)
        &&& self.bits[(addr - self.base) / size]
    }

    /// A taken slot lies in the data area of its page, so the page is the one
    /// that the slot's address leads to.
    pub proof fn lemma_holds_within(self, size: int, addr: int)
        requires
            self.wf(),
            0 < size,
            self.holds(size, addr),
        ensures
            self.base <= addr,
            addr + size <= self.base + DATA_SIZE,
            page_base(addr) == self.base,
            addr == self.slot_address(size, (addr - self.base) / size),
    {
        let off = addr - self.base;
        let i = off / size;
        vstd::arithmetic::div_mod::lemma_fundamental_div_mod(off, size);
        assert(size * i == i * size) by (nonlinear_arith);
        crate::bitfield::lemma_slot_count(size, DATA_SIZE as int, i);
        assert((i + 1) * size == i * size + size) by (nonlinear_arith);
        assert(0 <= off < PAGE_SIZE);
        vstd::arithmetic::div_mod::lemma_mod_multiples_vanish(
            self.base as int / PAGE_SIZE as int,
            off,
            PAGE_SIZE as int,
        );
        vstd::arithmetic::div_mod::lemma_fundamental_div_mod(self.base as int, PAGE_SIZE as int);
        vstd::arithmetic::div_mod::lemma_small_mod(off as nat, PAGE_SIZE as nat);
    }

    /// The count of slots that can serve a request is never negative, and it
    /// is zero exactly when no slot can.
    pub proof fn lemma_room_below(self, size: int, align: int, n: int)
        ensures
            0 <= self.room_below(size, align, n),
            self.room_below(size, align, n) == 0 <==> (forall|i: int|
                0 <= i < n ==> !self.fits(size, align, i)),
        decreases n,
    {
        if n > 0 {
            self.lemma_room_below(size, align, n - 1);
            if self.room_below(size, align, n) == 0 {
                assert forall|i: int| 0 <= i < n implies !self.fits(size, align, i) by {
                    if i < n - 1 {
                        assert(!self.fits(size, align, i));
                    }
                }
            } else if self.room_below(size, align, n - 1) == 0 {
                assert(self.fits(size, align, n - 1));
            }
        }
    }

    /// A page has room for a request exactly when it has a first fit for it.
    pub proof fn lemma_room_is_fit(self, size: int, align: int)
        ensures
            0 <= self.room(size, align),
            self.room(size, align) > 0 <==> self.first_fit(size, align).is_some(),
    {
        self.lemma_room_below(size, align, BITFIELD_BITS as int);
        self.lemma_lowest_fit(size, align, 0);
        let low = self.lowest_fit_from(size, align, 0);
        if low < BITFIELD_BITS {
            assert(self.fits(size, align, low));
        }
    }

    /// A full page has no room.
    pub proof fn lemma_room_full(self, size: int, align: int)
        requires
            self.is_full(),
        ensures
            self.room(size, align) == 0,
    {
        self.lemma_room_below(size, align, BITFIELD_BITS as int);
    }

    /// Room depends on where the page starts and on its bits alone.
    pub proof fn lemma_room_same(self, other: PageView, size: int, align: int, n: int)
        requires
            self.base == other.base,
            self.bits == other.bits,
        ensures
            self.room_below(size, align, n) == other.room_below(size, align, n),
        decreases n,
    {
        if n > 0 {
            self.lemma_room_same(other, size, align, n - 1);
        }
    }

    /// Taking a slot that can serve a request leaves one slot less for it.
    pub proof fn lemma_room_take(self, size: int, align: int, i: int, n: int)
        requires
            self.wf(),
            self.fits(size, align, i),
        ensures
            self.with_bit(i, true).room_below(size, align, n) == self.room_below(size, align, n)
                - if i < n {
                1int
            } else {
                0int
            },
        decreases n,
    {
        if n > 0 {
            self.lemma_room_take(size, align, i, n - 1);
            let j = n - 1;
            if 0 <= j < BITFIELD_BITS {
                assert(self.with_bit(i, true).bits[j] == (j == i || self.bits[j]));
            }
            assert(self.with_bit(i, true).fits(size, align, j) == (j != i && self.fits(
                size,
                align,
                j,
            )));
        }
    }

    /// Freeing a slot of the data area that starts at a multiple of `align`
    /// leaves one slot more for requests aligned to `align`.
    pub proof fn lemma_room_give(self, size: int, align: int, i: int, n: int)
        requires
            self.wf(),
            0 <= i < BITFIELD_BITS,
            self.bits[i],
            crate::bitfield::slot_in_area(size, DATA_SIZE as int, i),
            self.slot_address(size, i) % align == 0,
        ensures
            self.with_bit(i, false).room_below(size, align, n) == self.room_below(size, align, n)
                + if i < n {
                1int
            } else {
                0int
            },
        decreases n,
    {
        if n > 0 {
            self.lemma_room_give(size, align, i, n - 1);
            let j = n - 1;
            if 0 <= j < BITFIELD_BITS {
                assert(self.with_bit(i, false).bits[j] == (j != i && self.bits[j]));
            }
            if j == i {
                assert(self.with_bit(i, false).fits(size, align, j));
                assert(!self.fits(size, align, j));
            } else {
                assert(self.with_bit(i, false).fits(size, align, j) == self.fits(size, align, j));
            }
        }
    }

    /// A page that was reset for objects of `size` bytes has room for as many
    /// requests without an alignment as it has slots.
    pub proof fn lemma_reset_room(self, size: int, heap_id: usize, n: int)
        requires
            0 < size,
            0 <= n <= BITFIELD_BITS,
        ensures
            self.reset(size, heap_id).room_below(size, 1, n) == if n < slots_in(
                size,
                DATA_SIZE as int,
            ) {
                n
            } else {
                slots_in(size, DATA_SIZE as int)
            },
        decreases n,
    {
        if n > 0 {
            self.lemma_reset_room(size, heap_id, n - 1);
            crate::bitfield::lemma_slot_count(size, DATA_SIZE as int, n - 1);
        }
    }

    /// Taken slots of two pages that start at different addresses do not
    /// overlap, whatever the slot sizes.
    pub proof fn lemma_pages_apart(
        self,
        size: int,
        addr: int,
        other: PageView,
        other_size: int,
        other_addr: int,
    )
        requires
            self.wf(),
            other.wf(),
            self.base != other.base,
            0 < size,
            0 < other_size,
            self.holds(size, addr),
            other.holds(other_size, other_addr),
        ensures
            addr + size <= other_addr || other_addr + other_size <= addr,
    {
        self.lemma_holds_within(size, addr);
        other.lemma_holds_within(other_size, other_addr);
        let b1 = self.base as int;
        let b2 = other.base as int;
        vstd::arithmetic::div_mod::lemma_fundamental_div_mod(b1, PAGE_SIZE as int);
        vstd::arithmetic::div_mod::lemma_fundamental_div_mod(b2, PAGE_SIZE as int);
        let q1 = b1 / (PAGE_SIZE as int);
        let q2 = b2 / (PAGE_SIZE as int);
        assert(b1 == 8192 * q1);
        assert(b2 == 8192 * q2);
        if b1 < b2 {
            assert(q1 < q2);
            assert(b1 + 8192 <= b2);
        } else {
            assert(q2 < q1);
            assert(b2 + 8192 <= b1);
        }
    }

    /// Two taken slots of one page do not overlap.
    pub proof fn lemma_slots_apart(self, size: int, a1: int, a2: int)
        requires
            self.wf(),
            0 < size,
            self.holds(size, a1),
            self.holds(size, a2),
            a1 != a2,
        ensures
            a1 + size <= a2 || a2 + size <= a1,
    {
        self.lemma_holds_within(size, a1);
        self.lemma_holds_within(size, a2);
        let i1 = (a1 - self.base) / size;
        let i2 = (a2 - self.base) / size;
        assert(i1 != i2);
        if i1 < i2 {
            assert((i1 + 1) * size <= i2 * size) by (nonlinear_arith)
                requires
                    i1 + 1 <= i2,
                    size > 0,
            ;
            assert((i1 + 1) * size == i1 * size + size) by (nonlinear_arith);
        } else {
            assert((i2 + 1) * size <= i1 * size) by (nonlinear_arith)
                requires
                    i2 + 1 <= i1,
                    size > 0,
            ;
            assert((i2 + 1) * size == i2 * size + size) by (nonlinear_arith);
        }
    }

    /// Setting or clearing the bit of one slot changes what the page holds at
    /// that slot's address and nowhere else.
    pub proof fn lemma_with_bit_holds(self, size: int, i: int, taken: bool)
        requires
            self.wf(),
            0 < size,
            0 <= i < slots_in(size, DATA_SIZE as int),
        ensures
            self.with_bit(i, taken).wf(),
            forall|x: int|
                self.with_bit(i, taken).holds(size, x) <==> (if x == self.slot_address(size, i) {
                    taken
                } else {
                    self.holds(size, x)
                }),
    {
        let after = self.with_bit(i, taken);
        let at = self.slot_address(size, i);
        assert(i * size == size * i) by (nonlinear_arith);
        vstd::arithmetic::div_mod::lemma_div_multiples_vanish(i, size);
        vstd::arithmetic::div_mod::lemma_mod_multiples_basic(i, size);
        assert((at - self.base) / size == i);
        assert((at - self.base) % size == 0);
        assert(0 <= i * size) by (nonlinear_arith)
            requires
                0 <= i,
                0 < size,
        ;
        assert(after.holds(size, at) == taken);
        assert forall|x: int| x != at implies after.holds(size, x) == self.holds(size, x) by {
            if self.base <= x && (x - self.base) % size == 0 {
                let j = (x - self.base) / size;
                vstd::arithmetic::div_mod::lemma_fundamental_div_mod(x - self.base, size);
                assert(size * j == j * size) by (nonlinear_arith);
                assert(j != i);
                vstd::arithmetic::div_mod::lemma_div_pos_is_pos(x - self.base, size);
                if j < slots_in(size, DATA_SIZE as int) {
                    assert(after.bits[j] == self.bits[j]);
                }
            }
        }
    }

    /// A slot that can serve a request is a free slot of the page.
    pub proof fn lemma_fit_is_free(self, size: int, align: int, i: int)
        requires
            0 < size,
            self.fits(size, align, i),
        ensures
            0 <= i < slots_in(size, DATA_SIZE as int),
            !self.bits[i],
            !self.holds(size, self.slot_address(size, i)),
            self.slot_address(size, i) % align == 0,
    {
        crate::bitfield::lemma_slot_count(size, DATA_SIZE as int, i);
        vstd::arithmetic::div_mod::lemma_div_multiples_vanish(i, size);
    }

    /// In a page with no slot taken, the first slot serves any request whose
    /// alignment is a power of two up to the page size.
    pub proof fn lemma_fresh_fit(self, size: int, align: int, relevant_bits: int)
        requires
            self.wf(),
            0 < size <= DATA_SIZE,
            relevant_bits == slots_in(size, DATA_SIZE as int),
            self.is_empty(relevant_bits),
            vstd::arithmetic::power2::is_pow2(align),
            align <= PAGE_SIZE,
        ensures
            self.lowest_fit_from(size, align, 0) == 0,
            self.base as int % align == 0,
            relevant_bits >= 1,
    {
        crate::bitfield::lemma_slot_count(size, DATA_SIZE as int, 0);
        crate::layout::lemma_pow2_divides_page(align);
        vstd::arithmetic::div_mod::lemma_fundamental_div_mod(self.base as int, PAGE_SIZE as int);
        let q = self.base as int / PAGE_SIZE as int;
        let m = PAGE_SIZE as int / align;
        vstd::arithmetic::div_mod::lemma_fundamental_div_mod(PAGE_SIZE as int, align);
        assert(self.base as int == (q * m) * align) by (nonlinear_arith)
            requires
                self.base as int == PAGE_SIZE as int * q,
                PAGE_SIZE as int == align * m,
        ;
        vstd::arithmetic::div_mod::lemma_mod_multiples_basic(q * m, align);
        assert(self.slot_address(size, 0) == self.base);
        assert(self.fits(size, align, 0));
    }

    /// `lowest_fit_from` finds a slot that fits, and none before it does.
    pub proof fn lemma_lowest_fit(self, size: int, align: int, from: int)
        requires
            0 <= from <= BITFIELD_BITS,
        ensures
            from <= self.lowest_fit_from(size, align, from) <= BITFIELD_BITS,
            self.lowest_fit_from(size, align, from) < BITFIELD_BITS ==> self.fits(
                size,
                align,
                self.lowest_fit_from(size, align, from),
            ),
            forall|j: int|
                from <= j < self.lowest_fit_from(size, align, from) ==> !self.fits(size, align, j),
        decreases BITFIELD_BITS - from,
    {
        if from < BITFIELD_BITS && !self.fits(size, align, from) {
            self.lemma_lowest_fit(size, align, from + 1);
        }
    }
}

/// A backing page: 8 KiB of memory that starts at a multiple of 8 KiB. The
/// first [`DATA_SIZE`] bytes hold objects; the rest is bookkeeping, of which
/// the allocator keeps the occupancy bits and the owner tag here. Which list
/// a page is on is kept by the list itself.
pub struct ObjectPage8k {
    base: usize,
    heap_id: usize,
    bitfield: Bitfield,
}

impl View for ObjectPage8k {
    type V = PageView;

    closed spec fn view(&self) -> PageView {
        PageView { base: self.base, heap_id: self.heap_id, bits: self.bitfield@ }
    }
}

impl Default for ObjectPage8k {
    /// The page at address zero, with nothing allocated and no owner.
    fn default() -> (r: ObjectPage8k)
        ensures
            r@ == (PageView { base: 0, heap_id: 0, bits: Seq::new(512, |i: int| false) }),
            r@.wf(),
    {
        ObjectPage8k { base: 0, heap_id: 0, bitfield: Bitfield::new() }
    }
}

impl ObjectPage8k {
    /// Size of a page in bytes.
    pub const SIZE: usize = PAGE_SIZE;

    /// Bytes at the end of a page that hold no objects.
    pub const METADATA_SIZE: usize = METADATA_SIZE;

    /// A page at `base` with nothing allocated and no owner, or `None` when
    /// `base` is no multiple of the page size or the page would reach beyond
    /// the address space.
    pub fn new(base: usize) -> (r: Option<ObjectPage8k>)
        ensures
            match r {
                Some(page) => page@ == (PageView {
                    base,
                    heap_id: 0,
                    bits: Seq::new(512, |i: int| false),
                }) && page@.wf(),
                None => base % PAGE_SIZE != 0 || base + PAGE_SIZE > usize::MAX,
            },
    {
        if base % PAGE_SIZE != 0 || base > usize::MAX - PAGE_SIZE {
            None
        } else {
            Some(ObjectPage8k { base, heap_id: 0, bitfield: Bitfield::new() })
        }
    }

    /// Address of the page's first byte.
    pub fn start_address(&self) -> (r: usize)
        ensures
            r == self@.base,
    {
        self.base
    }

    /// Tag of the heap that owns the page.
    pub fn heap_id(&self) -> (r: usize)
        ensures
            r == self@.heap_id,
    {
        self.heap_id
    }

    /// Hands the page to the heap `heap_id`.
    pub fn set_heap_id(&mut self, heap_id: usize)
        ensures
            final(self)@ == old(self)@.with_heap_id(heap_id),
    {
        self.heap_id = heap_id;
    }

    /// Forgets owner and occupancy: afterwards no bit is set and the tag is 0.
    pub fn clear_metadata(&mut self)
        ensures
            final(self)@ == (PageView {
                base: old(self)@.base,
                heap_id: 0,
                bits: Seq::new(512, |i: int| false),
            }),
    {
        self.heap_id = 0;
        self.bitfield = Bitfield::new();
    }

    /// The page's occupancy bits.
    pub fn bitfield(&self) -> (r: &Bitfield)
        ensures
            r@ == self@.bits,
    {
        &self.bitfield
    }

    /// The page's occupancy bits, to be changed in place.
    pub fn bitfield_mut(&mut self) -> (r: &mut Bitfield)
        ensures
            r@ == old(self)@.bits,
            final(self)@ == (PageView { bits: final(r)@, ..old(self)@ }),
    {
        &mut self.bitfield
    }

    /// Whether every bit of the page is set.
    pub fn is_full(&self) -> (r: bool)
        ensures
            r == self@.is_full(),
    {
        let r = self.bitfield.is_full();
        proof {
            assert(self@.bits == self.bitfield@);
            if r {
                assert(self@.is_full());
            } else {
                assert(!self@.is_full());
            }
        }
        r
    }

    /// Whether none of the first `relevant_bits` slots is taken.
    pub fn is_empty(&self, relevant_bits: usize) -> (r: bool)
        ensures
            r == self@.is_empty(relevant_bits as int),
    {
        let r = self.bitfield.all_free(relevant_bits);
        proof {
            assert(self@.bits == self.bitfield@);
            if r {
                assert(self@.is_empty(relevant_bits as int));
            } else {
                assert(!self@.is_empty(relevant_bits as int));
            }
        }
        r
    }

    /// Finds the lowest free slot that can serve `layout` when the page is
    /// cut into slots of `layout.size()` bytes; returns its index and address.
    pub fn first_fit(&self, layout: Layout) -> (r: Option<(usize, usize)>)
        requires
            self@.wf(),
        ensures
            match r {
                Some((idx, addr)) => self@.first_fit(layout.size() as int, layout.align() as int)
                    == Some(idx as int) && addr == self@.slot_address(
                    layout.size() as int,
                    idx as int,
                ) && addr % layout.align() == 0,
                None => self@.first_fit(layout.size() as int, layout.align() as int).is_none(),
            },
    {
        let r = self.bitfield.first_fit(self.base, layout);
        proof {
            let size = layout.size() as int;
            let align = layout.align() as int;
            let low = self@.lowest_fit_from(size, align, 0);
            self@.lemma_lowest_fit(size, align, 0);
            assert(self@.bits == self.bitfield@);
            match r {
                Some((idx, addr)) => {
                    assert(self@.fits(size, align, idx as int));
                    if low < idx {
                        assert(self@.fits(size, align, low));
                    }
                    assert(low == idx);
                },
                None => {
                    if low < BITFIELD_BITS {
                        assert(self@.fits(size, align, low));
                    }
                },
            }
        }
        r
    }

    /// Takes the lowest free slot that can serve `layout` and returns its
    /// address; `None`, with the page unchanged, when no slot can.
    pub fn allocate(&mut self, layout: Layout) -> (r: Option<usize>)
        requires
            old(self)@.wf(),
        ensures
            match r {
                Some(addr) => {
                    let i = old(self)@.lowest_fit_from(
                        layout.size() as int,
                        layout.align() as int,
                        0,
                    );
                    &&& i < BITFIELD_BITS
                    &&& addr == old(self)@.slot_address(layout.size() as int, i)
                    &&& addr % layout.align() == 0
                    &&& final(self)@ == old(self)@.with_bit(i, true)
                },
                None => {
                    &&& old(self)@.first_fit(layout.size() as int, layout.align() as int).is_none()
                    &&& final(self)@ == old(self)@
                },
            },
    {
        match self.first_fit(layout) {
            Some((idx, addr)) => {
                self.bitfield.set_bit(idx);
                Some(addr)
            },
            None => None,
        }
    }

    /// Frees the slot that starts at `ptr` when the page is cut into slots of
    /// `layout.size()` bytes. An address that is no start of a taken slot of
    /// this page is refused, and the page stays as it is.
    pub fn deallocate(&mut self, ptr: usize, layout: Layout) -> (r: Result<(), AllocationError>)
        requires
            old(self)@.wf(),
            layout.size() > 0,
        ensures
            old(self)@.holds(layout.size() as int, ptr as int) ==> r.is_ok() && final(self)@ == old(
                self,
            )@.with_bit((ptr - old(self)@.base) / (layout.size() as int), false),
            !old(self)@.holds(layout.size() as int, ptr as int) ==> r == Err::<
                (),
                AllocationError,
            >(AllocationError::InvalidPointer) && final(self)@ == old(self)@,
    {
        let size: usize = layout.size();
        if ptr < self.base {
            return Err(AllocationError::InvalidPointer);
        }
        let offset: usize = ptr - self.base;
        if offset % size != 0 {
            return Err(AllocationError::InvalidPointer);
        }
        let idx: usize = offset / size;
        if idx >= crate::bitfield::cmin(DATA_SIZE / size, BITFIELD_BITS) {
            return Err(AllocationError::InvalidPointer);
        }
        if !self.bitfield.is_allocated(idx) {
            return Err(AllocationError::InvalidPointer);
        }
        self.bitfield.clear_bit(idx);
        Ok(())
    }
}

/// Start of the 8 KiB page that the address `addr` lies in.
pub open spec fn page_base(addr: int) -> int {
    addr - addr % (PAGE_SIZE as int)
}

} // verus!
