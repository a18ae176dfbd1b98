//! A slab allocator for small objects, built from 8 KiB backing pages.
//!
//! * A [`ZoneAllocator`] serves requests of many sizes by routing each one to
//!   the [`SCAllocator`] of the smallest size class that fits.
//! * A [`SCAllocator`] hands out objects of one size. It keeps its pages in
//!   three lists: empty, partially used and full.
//! * An [`ObjectPage8k`] is one backing page: the address of its first byte
//!   and the bookkeeping that the page carries at its end.
//!
//! The allocator never touches the bytes of an object. It deals in addresses:
//! whoever owns the page's memory turns an address into a pointer.
use vstd::prelude::*;

pub mod bitfield;
pub mod layout;
pub mod page_list;
pub mod pages;
pub mod sc;
pub mod sc_state;
pub mod zone;
pub mod zone_state;

pub use bitfield::{cmin, Bitfield, BITFIELD_BITS};
pub use layout::Layout;
pub use page_list::PageList;
pub use pages::{ObjectPage8k, PageView};
pub use sc::SCAllocator;
pub use sc_state::SCView;
pub use zone::ZoneAllocator;
pub use zone_state::{
    Slab, ZoneView, BASE_ALLOC_SIZES, MAX_ALLOC_SIZE, MAX_BASE_SIZE_CLASSES,
    SLAB_EMPTY_PAGES_THRESHOLD,
};

verus! {

/// Size in bytes of a backing page; every page starts at a multiple of it.
pub const PAGE_SIZE: usize = 8192;

/// Size in bytes of a cache line.
pub const CACHE_LINE_SIZE: usize = 64;

/// Bytes at the end of a backing page that hold its bookkeeping instead of
/// objects: the bitfield, the two list links and the owner tag.
pub const METADATA_SIZE: usize = 88;

/// Bytes of a backing page that hold objects.
pub const DATA_SIZE: usize = PAGE_SIZE - METADATA_SIZE;

/// Error returned for allocation and deallocation requests.
#[derive(Debug, Clone, Copy, PartialEq, Eq, Structural)]
pub enum AllocationError {
    /// The allocator has no free slot left for the request; a `refill` may help.
    OutOfMemory,
    /// The allocator cannot serve a layout of this size or alignment.
    InvalidLayout,
    /// The address does not name an object that the allocator has handed out.
    InvalidPointer,
    /// No size class has an empty page to give away.
    NoEmptyPage,
}

} // verus!
