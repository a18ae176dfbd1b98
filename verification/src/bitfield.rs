//! The occupancy bits of a backing page: one bit per slot, set when the slot
//! is taken.
use vstd::prelude::*;

use crate::{Layout, DATA_SIZE};

verus! {

/// Number of bits in a [`Bitfield`], and so the most slots a page can have.
pub const BITFIELD_BITS: usize = 512;

/// Bit `j` of the word `w`.
pub open spec fn word_bit(w: u64, j: u64) -> bool {
    (w >> j) & 1 == 1
}

/// Setting bit `i` of a word changes that bit and no other.
proof fn lemma_word_set(w: u64, i: u64, j: u64)
    by (bit_vector)
    requires
        i < 64,
        j < 64,
    ensures
        word_bit(w | (1u64 << i), j) == (j == i || word_bit(w, j)),
{
}

/// Clearing bit `i` of a word changes that bit and no other.
proof fn lemma_word_clear(w: u64, i: u64, j: u64)
    by (bit_vector)
    requires
        i < 64,
        j < 64,
    ensures
        word_bit(w & !(1u64 << i), j) == (j != i && word_bit(w, j)),
{
}

/// A word shares a bit with the mask of bit `i` exactly when its bit `i` is
/// set.
proof fn lemma_word_test(w: u64, i: u64)
    by (bit_vector)
    requires
        i < 64,
    ensures
        (w & (1u64 << i) != 0) == word_bit(w, i),
{
}

/// The word of all ones has every bit set, the word zero none.
proof fn lemma_word_all_or_none(w: u64, j: u64)
    by (bit_vector)
    requires
        j < 64,
    ensures
        w == 0xffff_ffff_ffff_ffffu64 ==> word_bit(w, j),
        w == 0 ==> !word_bit(w, j),
{
}

/// A word other than zero has a bit that is set.
proof fn lemma_word_witness(w: u64) -> (j: u64)
    ensures
        j < 64,
        w != 0 ==> word_bit(w, j),
        w == 0 ==> !word_bit(w, j),
{
    if w == 0 {
        lemma_word_all_or_none(w, 0);
        0
    } else {
        vstd::std_specs::bits::axiom_u64_trailing_zeros(w);
        let t = vstd::std_specs::bits::u64_trailing_zeros(w);
        t as u64
    }
}

/// The complement of a word has the bits set that the word has clear, and
/// is zero exactly for the word of all ones.
proof fn lemma_word_not(w: u64, j: u64)
    by (bit_vector)
    requires
        j < 64,
    ensures
        word_bit(!w, j) == !word_bit(w, j),
        (!w == 0) == (w == 0xffff_ffff_ffff_ffffu64),
{
}

/// Masking a word with the lowest `k` bits keeps those bits and clears the
/// others.
proof fn lemma_word_low_mask(w: u64, k: u64, j: u64)
    by (bit_vector)
    requires
        k < 64,
        j < 64,
    ensures
        word_bit(w & (((1u64 << k) - 1) as u64), j) == (j < k && word_bit(w, j)),
        1u64 << k >= 1,
{
}

/// Whether slot `i`, counted from zero, ends within the first `capacity`
/// bytes when every slot has `size` bytes.
pub open spec fn slot_in_area(size: int, capacity: int, i: int) -> bool {
    (i + 1) * size <= capacity
}

/// Whether slot `i` of a page at `base`, cut into slots of `size` bytes, can
/// serve a request aligned to `align`: the slot is free, lies wholly in the
/// page's data area and starts at a multiple of `align`.
pub open spec fn slot_fits(bits: Seq<bool>, base: int, size: int, align: int, i: int) -> bool {
    &&& 0 <= i < BITFIELD_BITS
    &&& !bits[i]
    &&& slot_in_area(size, DATA_SIZE as int, i)
    &&& (base + i * size) % align == 0
}

/// Number of slots of `size` bytes in a data area of `capacity` bytes, at
/// most one per bit.
pub open spec fn slots_in(size: int, capacity: int) -> int {
    if capacity / size < BITFIELD_BITS {
        capacity / size
    } else {
        BITFIELD_BITS as int
    }
}

/// The smaller of two numbers.
pub fn cmin(a: usize, b: usize) -> (r: usize)
    ensures
        r == if a <= b { a } else { b },
{
    if a <= b {
        a
    } else {
        b
    }
}

/// Eight words of occupancy bits; bit `i` belongs to slot `i`.
pub struct Bitfield {
    words: [u64; 8],
}

impl View for Bitfield {
    type V = Seq<bool>;

    /// The 512 bits, lowest slot first.
    closed spec fn view(&self) -> Seq<bool> {
        Seq::new(512, |i: int| word_bit(self.words[i / 64], (i % 64) as u64))
    }
}

impl Bitfield {
    /// A bitfield with every bit clear.
    pub fn new() -> (r: Bitfield)
        ensures
            r@ == Seq::new(512, |i: int| false),
    {
        let r = Bitfield { words: [0u64; 8] };
        proof {
            assert forall|i: int| 0 <= i < 512 implies r@[i] == false by {
                lemma_word_all_or_none(0, (i % 64) as u64);
            }
            assert(r@ =~= Seq::new(512, |i: int| false));
        }
        r
    }

    /// Whether bit `idx` is set.
    pub fn is_allocated(&self, idx: usize) -> (r: bool)
        requires
            idx < BITFIELD_BITS,
        ensures
            r == self@[idx as int],
    {
        let w: u64 = self.words[idx / 64];
        let j: u64 = (idx % 64) as u64;
        proof {
            lemma_word_test(w, j);
        }
        w & (1u64 << j) != 0
    }

    /// Sets bit `idx` and leaves the others as they are.
    pub fn set_bit(&mut self, idx: usize)
        requires
            idx < BITFIELD_BITS,
        ensures
            final(self)@ == old(self)@.update(idx as int, true),
    {
        let k: usize = idx / 64;
        let j: u64 = (idx % 64) as u64;
        let w: u64 = self.words[k];
        self.words[k] = w | (1u64 << j);
        proof {
            assert forall|i: int| 0 <= i < 512 implies self@[i] == old(self)@.update(
                idx as int,
                true,
            )[i] by {
                if i / 64 == k as int {
                    lemma_word_set(w, j, (i % 64) as u64);
                }
            }
            assert(self@ =~= old(self)@.update(idx as int, true));
        }
    }

    /// Clears bit `idx` and leaves the others as they are.
    pub fn clear_bit(&mut self, idx: usize)
        requires
            idx < BITFIELD_BITS,
        ensures
            final(self)@ == old(self)@.update(idx as int, false),
    {
        let k: usize = idx / 64;
        let j: u64 = (idx % 64) as u64;
        let w: u64 = self.words[k];
        self.words[k] = w & !(1u64 << j);
        proof {
            assert forall|i: int| 0 <= i < 512 implies self@[i] == old(self)@.update(
                idx as int,
                false,
            )[i] by {
                if i / 64 == k as int {
                    lemma_word_clear(w, j, (i % 64) as u64);
                }
            }
            assert(self@ =~= old(self)@.update(idx as int, false));
        }
    }

    /// Whether every bit is set.
    pub fn is_full(&self) -> (r: bool)
        ensures
            r == (forall|i: int| 0 <= i < BITFIELD_BITS ==> self@[i]),
    {
        let mut k: usize = 0;
        while k < 8
            invariant
                k <= 8,
                forall|i: int| 0 <= i < 64 * k ==> self@[i],
            decreases 8 - k,
        {
            let w: u64 = self.words[k];
            if w != 0xffff_ffff_ffff_ffffu64 {
                proof {
                    lemma_word_not(w, 0);
                    let j = lemma_word_witness(!w);
                    lemma_word_not(w, j);
                    assert(!self@[64 * k + j]);
                }
                return false;
            }
            proof {
                assert forall|i: int| 0 <= i < 64 * (k + 1) implies self@[i] by {
                    if i >= 64 * k {
                        lemma_word_all_or_none(w, (i % 64) as u64);
                    }
                }
            }
            k += 1;
        }
        true
    }

    /// Whether the first `relevant_bits` bits are all clear.
    pub fn all_free(&self, relevant_bits: usize) -> (r: bool)
        ensures
            r == (forall|i: int| 0 <= i < relevant_bits && i < BITFIELD_BITS ==> !self@[i]),
    {
        let mut k: usize = 0;
        while k < 8
            invariant
                k <= 8,
                forall|i: int| 0 <= i < relevant_bits && i < 64 * k ==> !self@[i],
            decreases 8 - k,
        {
            let lo: usize = k * 64;
            if relevant_bits <= lo {
                return true;
            }
            let w: u64 = self.words[k];
            let rest: usize = relevant_bits - lo;
            if rest >= 64 {
                if w != 0 {
                    proof {
                        let j = lemma_word_witness(w);
                        assert(self@[64 * k + j]);
                    }
                    return false;
                }
                proof {
                    assert forall|i: int|
                        0 <= i < relevant_bits && i < 64 * (k + 1) implies !self@[i] by {
                        if i >= 64 * k {
                            lemma_word_all_or_none(w, (i % 64) as u64);
                        }
                    }
                }
            } else {
                let c: u64 = rest as u64;
                proof {
                    lemma_word_low_mask(w, c, 0);
                }
                let m: u64 = w & ((1u64 << c) - 1);
                proof {
                    if m != 0 {
                        let j = lemma_word_witness(m);
                        lemma_word_low_mask(w, c, j);
                        assert(self@[64 * k + j]);
                    } else {
                        assert forall|i: int|
                            0 <= i < relevant_bits && i < BITFIELD_BITS implies !self@[i] by {
                            if i >= 64 * k {
                                lemma_word_low_mask(w, c, (i % 64) as u64);
                                lemma_word_all_or_none(m, (i % 64) as u64);
                            }
                        }
                    }
                }
                return m == 0;
            }
            k += 1;
        }
        true
    }

    /// Prepares the bitfield for slots of `for_size` bytes in a data area of
    /// `capacity` bytes: the bits of the slots that exist are cleared, and
    /// every bit beyond them is set for good, so that no search stops there.
    pub fn initialize(&mut self, for_size: usize, capacity: usize)
        requires
            for_size > 0,
        ensures
            final(self)@ == Seq::new(
                512,
                |i: int| i >= slots_in(for_size as int, capacity as int),
            ),
    {
        let n: usize = cmin(capacity / for_size, BITFIELD_BITS);
        self.words = [0xffff_ffff_ffff_ffffu64; 8];
        proof {
            assert forall|i: int| 0 <= i < 512 implies self@[i] by {
                lemma_word_all_or_none(0xffff_ffff_ffff_ffffu64, (i % 64) as u64);
            }
        }
        let mut idx: usize = 0;
        while idx < n
            invariant
                idx <= n <= BITFIELD_BITS,
                forall|i: int| 0 <= i < 512 ==> self@[i] == (i >= idx),
            decreases n - idx,
        {
            self.clear_bit(idx);
            idx += 1;
        }
        proof {
            assert(self@ =~= Seq::new(
                512,
                |i: int| i >= slots_in(for_size as int, capacity as int),
            ));
        }
    }

    /// Finds the lowest slot that can serve `layout` in a page at `base_addr`
    /// whose slots are `layout.size()` bytes each, and returns its index and
    /// its address; `None` when no slot can.
    pub fn first_fit(&self, base_addr: usize, layout: Layout) -> (r: Option<(usize, usize)>)
        requires
            base_addr + DATA_SIZE <= usize::MAX,
        ensures
            match r {
                Some((idx, addr)) => {
                    &&& slot_fits(
                        self@,
                        base_addr as int,
                        layout.size() as int,
                        layout.align() as int,
                        idx as int,
                    )
                    &&& addr == base_addr + idx * layout.size()
                    &&& forall|j: int|
                        0 <= j < idx ==> !slot_fits(
                            self@,
                            base_addr as int,
                            layout.size() as int,
                            layout.align() as int,
                            j,
                        )
                },
                None => forall|j: int|
                    !slot_fits(
                        self@,
                        base_addr as int,
                        layout.size() as int,
                        layout.align() as int,
                        j,
                    ),
            },
    {
        let size: usize = layout.size();
        let align: usize = layout.align();
        let n: usize = if size == 0 {
            BITFIELD_BITS
        } else {
            cmin(DATA_SIZE / size, BITFIELD_BITS)
        };
        proof {
            assert forall|j: int| 0 <= j < 512 implies (j < n <==> #[trigger] slot_in_area(
                size as int,
                DATA_SIZE as int,
                j,
            )) by {
                lemma_slot_count(size as int, DATA_SIZE as int, j);
            }
        }
        let mut i: usize = 0;
        while i < n
            invariant
                i <= BITFIELD_BITS,
                n <= BITFIELD_BITS,
                align >= 1,
                size == layout.size(),
                align == layout.align(),
                base_addr + DATA_SIZE <= usize::MAX,
                forall|j: int|
                    0 <= j < 512 ==> (j < n <==> #[trigger] slot_in_area(
                        size as int,
                        DATA_SIZE as int,
                        j,
                    )),
                forall|j: int|
                    0 <= j < i ==> !slot_fits(
                        self@,
                        base_addr as int,
                        size as int,
                        align as int,
                        j,
                    ),
            decreases BITFIELD_BITS - i,
        {
            if i % 64 == 0 && self.words[i / 64] == 0xffff_ffff_ffff_ffffu64 {
                // nothing is free in this word
                proof {
                    assert forall|j: int| i <= j < i + 64 implies self@[j] by {
                        lemma_word_all_or_none(self.words[i as int / 64], (j % 64) as u64);
                    }
                }
                i += 64;
            } else {
                proof {
                    assert(slot_in_area(size as int, DATA_SIZE as int, i as int));
                    assert(0 <= i * size <= DATA_SIZE) by (nonlinear_arith)
                        requires
                            (i + 1) * size <= DATA_SIZE,
                            0 <= i,
                            0 <= size,
                    ;
                }
                if !self.is_allocated(i) {
                    let addr: usize = base_addr + i * size;
                    if addr % align == 0 {
                        return Some((i, addr));
                    }
                }
                i += 1;
            }
        }
        None
    }
}

/// Slot `j` lies in a data area of `capacity` bytes exactly when fewer than
/// `capacity / size` slots come before it.
pub proof fn lemma_slot_count(size: int, capacity: int, j: int)
    requires
        0 <= size,
        0 <= capacity,
        0 <= j,
    ensures
        size > 0 ==> (j < capacity / size <==> slot_in_area(size, capacity, j)),
        size == 0 ==> slot_in_area(size, capacity, j),
{
    if size > 0 {
        vstd::arithmetic::div_mod::lemma_fundamental_div_mod(capacity, size);
        let q = capacity / size;
        assert(0 <= capacity % size < size);
        assert(size * q == q * size) by (nonlinear_arith);
        if j < q {
            assert((j + 1) * size <= q * size) by (nonlinear_arith)
                requires
                    j + 1 <= q,
                    size > 0,
            ;
        } else {
            assert((j + 1) * size >= (q + 1) * size) by (nonlinear_arith)
                requires
                    j + 1 >= q + 1,
                    size > 0,
            ;
            assert((q + 1) * size == q * size + size) by (nonlinear_arith);
        }
    } else {
        assert((j + 1) * size == 0) by (nonlinear_arith)
            requires
                size == 0,
        ;
    }
}

} // verus!
