//! Lists of backing pages, and what holds of the pages on them.
use vstd::prelude::*;

use crate::pages::{ObjectPage8k, PageView};
use crate::PAGE_SIZE;

verus! {

/// Whether `i` is the first position of `pages` whose page starts at `base`.
pub open spec fn is_first_at(pages: Seq<PageView>, base: usize, i: int) -> bool {
    &&& 0 <= i < pages.len()
    &&& pages[i].base == base
    &&& forall|j: int| 0 <= j < i ==> pages[j].base != base
}

/// The first position of `pages` whose page starts at `base`; meaningful
/// when there is such a page.
pub open spec fn position(pages: Seq<PageView>, base: usize) -> int {
    choose|i: int| is_first_at(pages, base, i)
}

/// There is only one first position.
pub proof fn lemma_position(pages: Seq<PageView>, base: usize, i: int)
    requires
        is_first_at(pages, base, i),
    ensures
        position(pages, base) == i,
{
    let k = position(pages, base);
    assert(is_first_at(pages, base, k));
    if k < i {
        assert(pages[k].base != base);
    } else if i < k {
        assert(pages[i].base != base);
    }
}

/// In a list without duplicates, each page is the first one at its address.
pub proof fn lemma_position_distinct(pages: Seq<PageView>, i: int)
    requires
        0 <= i < pages.len(),
        forall|a: int, b: int| 0 <= a < b < pages.len() ==> pages[a].base != pages[b].base,
    ensures
        is_first_at(pages, pages[i].base, i),
        position(pages, pages[i].base) == i,
{
    assert(is_first_at(pages, pages[i].base, i));
    lemma_position(pages, pages[i].base, i);
}

/// Whether some page of `pages` starts at `base`.
pub open spec fn has_page(pages: Seq<PageView>, base: usize) -> bool {
    exists|i: int| 0 <= i < pages.len() && pages[i].base == base
}

/// A list of backing pages. New pages go to the front, and the front page
/// is the first to leave.
pub struct PageList {
    /// The pages, the front of the list last: pages come and go at the end
    /// of the vector.
    pages: Vec<ObjectPage8k>,
}

impl View for PageList {
    type V = Seq<PageView>;

    /// The pages from the front of the list to its end.
    closed spec fn view(&self) -> Seq<PageView> {
        Seq::new(self.pages@.len(), |i: int| self.pages@[self.pages@.len() - 1 - i]@)
    }
}

impl PageList {
    /// A list without pages.
    pub fn new() -> (r: PageList)
        ensures
            r@ == Seq::<PageView>::empty(),
    {
        let r = PageList { pages: Vec::new() };
        proof {
            assert(r@ =~= Seq::<PageView>::empty());
        }
        r
    }

    /// Number of pages on the list.
    pub fn elements(&self) -> (r: usize)
        ensures
            r == self@.len(),
    {
        self.pages.len()
    }

    /// Whether the list has no page.
    pub fn is_empty(&self) -> (r: bool)
        ensures
            r == (self@.len() == 0),
    {
        self.pages.len() == 0
    }

    /// Puts `page` at the front of the list.
    pub fn insert_front(&mut self, page: ObjectPage8k)
        ensures
            final(self)@ == old(self)@.insert(0, page@),
    {
        self.pages.push(page);
        proof {
            assert(self@ =~= old(self)@.insert(0, page@));
        }
    }

    /// Takes the page at the front off the list; `None` when the list is empty.
    pub fn pop(&mut self) -> (r: Option<ObjectPage8k>)
        ensures
            match r {
                Some(page) => old(self)@.len() > 0 && page@ == old(self)@[0] && final(self)@ == old(
                    self,
                )@.remove(0),
                None => old(self)@.len() == 0 && final(self)@ == old(self)@,
            },
    {
        let r = self.pages.pop();
        proof {
            if r.is_some() {
                assert(self@ =~= old(self)@.remove(0));
            } else {
                assert(self@ =~= old(self)@);
            }
        }
        r
    }

    /// Position of the first page that starts at `base`, if there is one.
    pub fn index_of(&self, base: usize) -> (r: Option<usize>)
        ensures
            match r {
                Some(i) => is_first_at(self@, base, i as int),
                None => !has_page(self@, base),
            },
    {
        let n: usize = self.pages.len();
        let mut i: usize = 0;
        while i < n
            invariant
                i <= n,
                n == self.pages.len(),
                forall|j: int| 0 <= j < i ==> self@[j].base != base,
            decreases n - i,
        {
            if self.pages[n - 1 - i].start_address() == base {
                return Some(i);
            }
            i += 1;
        }
        None
    }

    /// Whether a page that starts at `base` is on the list.
    pub fn contains(&self, base: usize) -> (r: bool)
        ensures
            r == has_page(self@, base),
    {
        self.index_of(base).is_some()
    }

    /// Takes the first page that starts at `base` off the list; `None`, with
    /// the list unchanged, when no page of the list starts there.
    pub fn remove_from_list(&mut self, base: usize) -> (r: Option<ObjectPage8k>)
        ensures
            match r {
                Some(page) => exists|i: int|
                    is_first_at(old(self)@, base, i) && page@ == old(self)@[i] && final(self)@
                        == old(self)@.remove(i),
                None => !has_page(old(self)@, base) && final(self)@ == old(self)@,
            },
    {
        match self.index_of(base) {
            Some(i) => {
                let at: usize = self.pages.len() - 1 - i;
                let page = self.pages.remove(at);
                proof {
                    assert(self@ =~= old(self)@.remove(i as int));
                    assert(is_first_at(old(self)@, base, i as int));
                }
                Some(page)
            },
            None => None,
        }
    }

    /// The page at position `i`, counted from the front.
    pub fn page(&self, i: usize) -> (r: &ObjectPage8k)
        requires
            i < self@.len(),
        ensures
            r@ == self@[i as int],
    {
        &self.pages[self.pages.len() - 1 - i]
    }

    /// The page at position `i`, to be changed in place.
    pub fn page_mut(&mut self, i: usize) -> (r: &mut ObjectPage8k)
        requires
            i < old(self)@.len(),
        ensures
            r@ == old(self)@[i as int],
            final(self)@ == old(self)@.update(i as int, final(r)@),
    {
        let at: usize = self.pages.len() - 1 - i;
        &mut self.pages[at]
    }
}

/// No two pages of `pages` start at the same address.
pub open spec fn all_distinct(pages: Seq<PageView>) -> bool {
    forall|i: int, j: int| 0 <= i < j < pages.len() ==> pages[i].base != pages[j].base
}

/// No page of `a` starts where a page of `b` starts.
pub open spec fn none_shared(a: Seq<PageView>, b: Seq<PageView>) -> bool {
    forall|i: int, j: int| 0 <= i < a.len() && 0 <= j < b.len() ==> a[i].base != b[j].base
}

/// Whether some page of `pages`, cut into slots of `size` bytes, has a taken
/// slot that starts at `addr`.
pub open spec fn holds_in(pages: Seq<PageView>, size: int, addr: int) -> bool {
    exists|i: int| 0 <= i < pages.len() && pages[i].holds(size, addr)
}

/// Whether `k` is the first position of `pages` whose page has a free slot
/// for objects of `size` bytes aligned to `align`.
pub open spec fn is_first_fitting(pages: Seq<PageView>, size: int, align: int, k: int) -> bool {
    &&& 0 <= k < pages.len()
    &&& pages[k].first_fit(size, align).is_some()
    &&& forall|j: int| 0 <= j < k ==> pages[j].first_fit(size, align).is_none()
}

/// Whether some page of `pages` has a free slot for objects of `size` bytes
/// aligned to `align`.
pub open spec fn has_fitting(pages: Seq<PageView>, size: int, align: int) -> bool {
    exists|k: int| 0 <= k < pages.len() && pages[k].first_fit(size, align).is_some()
}

/// The first position of `pages` whose page has a free slot for the
/// request; meaningful when there is such a page.
pub open spec fn fitting_page(pages: Seq<PageView>, size: int, align: int) -> int {
    choose|k: int| is_first_fitting(pages, size, align, k)
}

/// There is only one first page with a free slot.
pub proof fn lemma_fitting_page(pages: Seq<PageView>, size: int, align: int, k: int)
    requires
        is_first_fitting(pages, size, align, k),
    ensures
        fitting_page(pages, size, align) == k,
        has_fitting(pages, size, align),
{
    let c = fitting_page(pages, size, align);
    assert(is_first_fitting(pages, size, align, c));
    if c < k {
        assert(pages[c].first_fit(size, align).is_none());
    } else if k < c {
        assert(pages[k].first_fit(size, align).is_none());
    }
}

/// Where a page has a free slot for the request, there is a first such page.
pub proof fn lemma_first_fitting_exists(pages: Seq<PageView>, size: int, align: int, k: int)
    requires
        0 <= k < pages.len(),
        pages[k].first_fit(size, align).is_some(),
    ensures
        is_first_fitting(pages, size, align, fitting_page(pages, size, align)),
    decreases k,
{
    if exists|j: int| 0 <= j < k && pages[j].first_fit(size, align).is_some() {
        let j = choose|j: int| 0 <= j < k && pages[j].first_fit(size, align).is_some();
        lemma_first_fitting_exists(pages, size, align, j);
    } else {
        assert(is_first_fitting(pages, size, align, k));
    }
}

/// What a list holds after a page was put at its front.
pub proof fn lemma_holds_in_insert(pages: Seq<PageView>, page: PageView, size: int)
    ensures
        forall|x: int| #![all_triggers]
            holds_in(pages.insert(0, page), size, x) <==> (page.holds(size, x) || holds_in(
                pages,
                size,
                x,
            )),
{
    let after = pages.insert(0, page);
    assert(after[0] == page);
    assert forall|x: int| holds_in(pages, size, x) implies holds_in(after, size, x) by {
        let i = choose|i: int| 0 <= i < pages.len() && pages[i].holds(size, x);
        assert(after[i + 1] == pages[i]);
    }
    assert forall|x: int| holds_in(after, size, x) implies (page.holds(size, x) || holds_in(
        pages,
        size,
        x,
    )) by {
        let i = choose|i: int| 0 <= i < after.len() && after[i].holds(size, x);
        if i > 0 {
            assert(after[i] == pages[i - 1]);
        }
    }
}

/// What a list holds is what one of its pages holds and what the others hold.
pub proof fn lemma_holds_in_remove(pages: Seq<PageView>, k: int, size: int)
    requires
        0 <= k < pages.len(),
    ensures
        forall|x: int| #![all_triggers]
            holds_in(pages, size, x) <==> (pages[k].holds(size, x) || holds_in(
                pages.remove(k),
                size,
                x,
            )),
{
    let after = pages.remove(k);
    assert forall|x: int| holds_in(pages, size, x) implies (pages[k].holds(size, x) || holds_in(
        after,
        size,
        x,
    )) by {
        let i = choose|i: int| 0 <= i < pages.len() && pages[i].holds(size, x);
        if i < k {
            assert(after[i] == pages[i]);
        } else if i > k {
            assert(after[i - 1] == pages[i]);
        }
    }
    assert forall|x: int| holds_in(after, size, x) implies holds_in(pages, size, x) by {
        let i = choose|i: int| 0 <= i < after.len() && after[i].holds(size, x);
        if i < k {
            assert(after[i] == pages[i]);
        } else {
            assert(after[i] == pages[i + 1]);
        }
    }
}

/// Replacing a page is taking it off and putting the new one in its place.
pub proof fn lemma_update_remove(pages: Seq<PageView>, k: int, page: PageView)
    requires
        0 <= k < pages.len(),
    ensures
        pages.update(k, page).remove(k) == pages.remove(k),
        pages.update(k, page)[k] == page,
{
    assert(pages.update(k, page).remove(k) =~= pages.remove(k));
}

/// Replacing a page by one that starts at the same address changes nothing
/// about which pages a list has.
pub proof fn lemma_update_same_base(pages: Seq<PageView>, k: int, page: PageView)
    requires
        0 <= k < pages.len(),
        page.base == pages[k].base,
    ensures
        all_distinct(pages) ==> all_distinct(pages.update(k, page)),
        forall|b: usize| #![all_triggers]
            has_page(pages.update(k, page), b) <==> has_page(pages, b),
{
    let after = pages.update(k, page);
    assert forall|b: usize| has_page(pages, b) implies has_page(after, b) by {
        let i = choose|i: int| 0 <= i < pages.len() && pages[i].base == b;
        assert(after[i].base == b);
    }
    assert forall|b: usize| has_page(after, b) implies has_page(pages, b) by {
        let i = choose|i: int| 0 <= i < after.len() && after[i].base == b;
        assert(pages[i].base == b);
    }
    if all_distinct(pages) {
        assert forall|i: int, j: int| 0 <= i < j < after.len() implies after[i].base
            != after[j].base by {
            assert(after[i].base == pages[i].base);
            assert(after[j].base == pages[j].base);
        }
    }
}

/// The pages of `pages` as a merge delivers them: each goes to the heap
/// `heap_id`, and since they are taken from the front one by one and each is
/// put in front of the one before, the last of `pages` comes first.
pub open spec fn drained(pages: Seq<PageView>, heap_id: usize) -> Seq<PageView> {
    Seq::new(pages.len(), |i: int| pages[pages.len() - 1 - i].with_heap_id(heap_id))
}

/// Delivering one more page puts it in front of those delivered before.
pub proof fn lemma_drained_step(pages: Seq<PageView>, rest: Seq<PageView>, heap_id: usize, m: int)
    requires
        0 <= m < pages.len(),
    ensures
        (drained(pages.subrange(0, m), heap_id) + rest).insert(0, pages[m].with_heap_id(heap_id))
            == drained(pages.subrange(0, m + 1), heap_id) + rest,
        pages.subrange(m, pages.len() as int).remove(0) == pages.subrange(
            m + 1,
            pages.len() as int,
        ),
        pages.subrange(m, pages.len() as int)[0] == pages[m],
{
    assert((drained(pages.subrange(0, m), heap_id) + rest).insert(
        0,
        pages[m].with_heap_id(heap_id),
    ) =~= drained(pages.subrange(0, m + 1), heap_id) + rest);
    assert(pages.subrange(m, pages.len() as int).remove(0) =~= pages.subrange(
        m + 1,
        pages.len() as int,
    ));
}

/// Before any page is delivered the receiving list is as it was, and all of
/// the giving list is still to come.
pub proof fn lemma_drained_ends(pages: Seq<PageView>, rest: Seq<PageView>, heap_id: usize)
    ensures
        drained(pages.subrange(0, 0), heap_id) + rest == rest,
        pages.subrange(0, pages.len() as int) == pages,
{
    assert(drained(pages.subrange(0, 0), heap_id) + rest =~= rest);
    assert(pages.subrange(0, pages.len() as int) =~= pages);
}

/// What a list has and holds once the pages of another were delivered to
/// its front: what both had and held before.
pub proof fn lemma_drained_joined(a: Seq<PageView>, b: Seq<PageView>, heap_id: usize, size: int)
    ensures
        forall|base: usize| #![all_triggers]
            has_page(drained(a, heap_id) + b, base) <==> (has_page(a, base) || has_page(b, base)),
        forall|x: int| #![all_triggers]
            holds_in(drained(a, heap_id) + b, size, x) <==> (holds_in(a, size, x) || holds_in(
                b,
                size,
                x,
            )),
        all_distinct(a) && all_distinct(b) && none_shared(a, b) ==> all_distinct(
            drained(a, heap_id) + b,
        ),
{
    let j = drained(a, heap_id) + b;
    let n = a.len() as int;
    assert forall|i: int| 0 <= i < j.len() implies #[trigger] j[i] == (if i < n {
        a[n - 1 - i].with_heap_id(heap_id)
    } else {
        b[i - n]
    }) by {}
    assert forall|base: usize| has_page(j, base) <==> (has_page(a, base) || has_page(
        b,
        base,
    )) by {
        if has_page(j, base) {
            let i = choose|i: int| 0 <= i < j.len() && j[i].base == base;
            if i < n {
                assert(a[n - 1 - i].base == base);
            } else {
                assert(b[i - n].base == base);
            }
        }
        if has_page(a, base) {
            let i = choose|i: int| 0 <= i < a.len() && a[i].base == base;
            assert(j[n - 1 - i].base == base);
        }
        if has_page(b, base) {
            let i = choose|i: int| 0 <= i < b.len() && b[i].base == base;
            assert(j[n + i].base == base);
        }
    }
    assert forall|x: int| holds_in(j, size, x) <==> (holds_in(a, size, x) || holds_in(
        b,
        size,
        x,
    )) by {
        if holds_in(j, size, x) {
            let i = choose|i: int| 0 <= i < j.len() && j[i].holds(size, x);
            if i < n {
                assert(a[n - 1 - i].holds(size, x));
            } else {
                assert(b[i - n].holds(size, x));
            }
        }
        if holds_in(a, size, x) {
            let i = choose|i: int| 0 <= i < a.len() && a[i].holds(size, x);
            assert(j[n - 1 - i].holds(size, x));
        }
        if holds_in(b, size, x) {
            let i = choose|i: int| 0 <= i < b.len() && b[i].holds(size, x);
            assert(j[n + i].holds(size, x));
        }
    }
    if all_distinct(a) && all_distinct(b) && none_shared(a, b) {
        assert forall|i: int, k: int| 0 <= i < k < j.len() implies j[i].base != j[k].base by {
            if k < n {
                assert(a[n - 1 - k].base != a[n - 1 - i].base);
            } else if i < n {
                assert(a[n - 1 - i].base != b[k - n].base);
            } else {
                assert(b[i - n].base != b[k - n].base);
            }
        }
    }
}

/// A list of well-formed pages without duplicates has no more pages than
/// the address space has room for.
pub proof fn lemma_page_count(pages: Seq<PageView>)
    requires
        all_distinct(pages),
        forall|i: int| 0 <= i < pages.len() ==> (#[trigger] pages[i]).wf(),
    ensures
        pages.len() <= usize::MAX / PAGE_SIZE,
{
    let limit = (usize::MAX / PAGE_SIZE) as int;
    let numbers = Seq::new(pages.len(), |i: int| pages[i].base as int / (PAGE_SIZE as int));
    assert forall|i: int, j: int|
        0 <= i < numbers.len() && 0 <= j < numbers.len() && i != j implies numbers[i]
        != numbers[j] by {
        assert(pages[i].wf());
        assert(pages[j].wf());
        vstd::arithmetic::div_mod::lemma_fundamental_div_mod(
            pages[i].base as int,
            PAGE_SIZE as int,
        );
        vstd::arithmetic::div_mod::lemma_fundamental_div_mod(
            pages[j].base as int,
            PAGE_SIZE as int,
        );
        if i < j {
            assert(pages[i].base != pages[j].base);
        } else {
            assert(pages[j].base != pages[i].base);
        }
    }
    numbers.unique_seq_to_set();
    vstd::set_lib::lemma_int_range(0, limit);
    assert forall|n: int| numbers.to_set().contains(n) implies vstd::set_lib::set_int_range(
        0,
        limit,
    ).contains(n) by {
        let i = choose|i: int| 0 <= i < numbers.len() && numbers[i] == n;
        assert(pages[i].wf());
        vstd::arithmetic::div_mod::lemma_fundamental_div_mod(
            pages[i].base as int,
            PAGE_SIZE as int,
        );
        vstd::arithmetic::div_mod::lemma_fundamental_div_mod(usize::MAX as int, PAGE_SIZE as int);
    }
    vstd::set_lib::lemma_len_subset(numbers.to_set(), vstd::set_lib::set_int_range(0, limit));
}

/// Number of slots in the pages of `pages` that can serve a request for
/// `size` bytes aligned to `align`.
pub open spec fn room_in(pages: Seq<PageView>, size: int, align: int) -> int
    decreases pages.len(),
{
    if pages.len() == 0 {
        0
    } else {
        room_in(pages.drop_last(), size, align) + pages.last().room(size, align)
    }
}

/// A list has room for a request exactly when one of its pages has a slot
/// for it.
pub proof fn lemma_room_in(pages: Seq<PageView>, size: int, align: int)
    ensures
        0 <= room_in(pages, size, align),
        room_in(pages, size, align) > 0 <==> has_fitting(pages, size, align),
    decreases pages.len(),
{
    if pages.len() > 0 {
        let front = pages.drop_last();
        lemma_room_in(front, size, align);
        pages.last().lemma_room_is_fit(size, align);
        if has_fitting(pages, size, align) {
            let k = choose|k: int|
                0 <= k < pages.len() && pages[k].first_fit(size, align).is_some();
            if k < pages.len() - 1 {
                assert(front[k].first_fit(size, align).is_some());
            }
        }
        if has_fitting(front, size, align) {
            let k = choose|k: int|
                0 <= k < front.len() && front[k].first_fit(size, align).is_some();
            assert(pages[k].first_fit(size, align).is_some());
        }
        if pages.last().first_fit(size, align).is_some() {
            assert(pages[pages.len() - 1].first_fit(size, align).is_some());
        }
    }
}

/// A page put at the front of a list adds its room to that of the list.
pub proof fn lemma_room_in_insert(pages: Seq<PageView>, page: PageView, size: int, align: int)
    ensures
        room_in(pages.insert(0, page), size, align) == page.room(size, align) + room_in(
            pages,
            size,
            align,
        ),
    decreases pages.len(),
{
    let after = pages.insert(0, page);
    if pages.len() == 0 {
        assert(after.drop_last() =~= pages);
        assert(after.last() == page);
    } else {
        lemma_room_in_insert(pages.drop_last(), page, size, align);
        assert(after.drop_last() =~= pages.drop_last().insert(0, page));
        assert(after.last() == pages.last());
    }
}

/// The room of a list is that of one of its pages and that of the others.
pub proof fn lemma_room_in_remove(pages: Seq<PageView>, k: int, size: int, align: int)
    requires
        0 <= k < pages.len(),
    ensures
        room_in(pages, size, align) == pages[k].room(size, align) + room_in(
            pages.remove(k),
            size,
            align,
        ),
    decreases pages.len(),
{
    if k == pages.len() - 1 {
        assert(pages.remove(k) =~= pages.drop_last());
    } else {
        lemma_room_in_remove(pages.drop_last(), k, size, align);
        assert(pages.remove(k).drop_last() =~= pages.drop_last().remove(k));
        assert(pages.remove(k).last() == pages.last());
    }
}

/// Putting a page with a new start address at the front keeps a list free of
/// duplicates.
pub proof fn lemma_distinct_insert(pages: Seq<PageView>, page: PageView)
    requires
        all_distinct(pages),
        !has_page(pages, page.base),
    ensures
        all_distinct(pages.insert(0, page)),
{
    let after = pages.insert(0, page);
    assert forall|i: int, j: int| 0 <= i < j < after.len() implies after[i].base
        != after[j].base by {
        assert(after[j] == pages[j - 1]);
        if i > 0 {
            assert(after[i] == pages[i - 1]);
        }
    }
}

/// Taking a page off keeps a list free of duplicates, and the page that left
/// is no longer on it.
pub proof fn lemma_distinct_remove(pages: Seq<PageView>, k: int)
    requires
        all_distinct(pages),
        0 <= k < pages.len(),
    ensures
        all_distinct(pages.remove(k)),
        !has_page(pages.remove(k), pages[k].base),
        forall|b: usize| #![all_triggers]
            has_page(pages, b) <==> (b == pages[k].base || has_page(pages.remove(k), b)),
{
    let after = pages.remove(k);
    assert forall|i: int| 0 <= i < after.len() implies after[i] == pages[if i < k {
        i
    } else {
        i + 1
    }] by {}
    assert forall|b: usize| has_page(pages, b) implies (b == pages[k].base || has_page(
        after,
        b,
    )) by {
        let i = choose|i: int| 0 <= i < pages.len() && pages[i].base == b;
        if i < k {
            assert(after[i].base == b);
        } else if i > k {
            assert(after[i - 1].base == b);
        }
    }
}

/// A list with a page put at its front has the pages it had and that one.
pub proof fn lemma_has_page_insert(pages: Seq<PageView>, page: PageView)
    ensures
        forall|b: usize| #![all_triggers]
            has_page(pages.insert(0, page), b) <==> (b == page.base || has_page(pages, b)),
{
    let after = pages.insert(0, page);
    assert(after[0] == page);
    assert forall|b: usize| has_page(pages, b) implies has_page(after, b) by {
        let i = choose|i: int| 0 <= i < pages.len() && pages[i].base == b;
        assert(after[i + 1].base == b);
    }
    assert forall|b: usize| has_page(after, b) implies (b == page.base || has_page(pages, b)) by {
        let i = choose|i: int| 0 <= i < after.len() && after[i].base == b;
        if i > 0 {
            assert(pages[i - 1].base == b);
        }
    }
}

/// Two lists share no page exactly when no page of the first starts where a
/// page of the second does.
pub proof fn lemma_none_shared(a: Seq<PageView>, b: Seq<PageView>)
    ensures
        none_shared(a, b) <==> (forall|base: usize|
            #![all_triggers]
            !(has_page(a, base) && has_page(b, base))),
        none_shared(a, b) <==> none_shared(b, a),
{
    if none_shared(a, b) {
        assert forall|base: usize| !(has_page(a, base) && has_page(b, base)) by {
            if has_page(a, base) && has_page(b, base) {
                let i = choose|i: int| 0 <= i < a.len() && a[i].base == base;
                let j = choose|j: int| 0 <= j < b.len() && b[j].base == base;
                assert(a[i].base != b[j].base);
            }
        }
    }
    if forall|base: usize| #![all_triggers] !(has_page(a, base) && has_page(b, base)) {
        assert forall|i: int, j: int| 0 <= i < a.len() && 0 <= j < b.len() implies a[i].base
            != b[j].base by {
            assert(has_page(a, a[i].base));
            if a[i].base == b[j].base {
                assert(has_page(b, a[i].base));
            }
        }
    }
}

} // verus!
