//! Multi-level page-table construction and bookkeeping for RISC-V Sv39/Sv48.
//!
//! The crate models physical memory explicitly: every table frame the library
//! allocates is owned as a value (an arena), and the contents of data frames
//! are reached through the caller-supplied [`PageManager`], whose contract
//! describes allocation, deallocation and byte access over a map from page
//! numbers to frame contents.

pub mod area;
pub mod bits64;
pub mod entry;
pub mod error;
pub mod mem;
pub mod pte;
pub mod space;
pub mod table;

pub use area::Area;
pub use area::AreaPermission;
pub use entry::PTEFlags;
pub use error::PTableError;
pub use space::AddressSpace;

use vstd::prelude::*;

verus! {

use vstd::arithmetic::power2::lemma2_to64;
use vstd::bits::{lemma_usize_shl_is_mul, lemma_usize_shr_is_div};

/// A page number: an address shifted right by 12.  `VPN` and `PPN` are the
/// virtual and physical readings of the same representation.
#[derive(Copy, Clone, Debug, PartialEq, Eq, Structural, PartialOrd, Ord)]
pub struct PageNumber(pub usize);

pub type PPN = PageNumber;

pub type VPN = PageNumber;

/// Page numbers that can still be shifted into an address without loss.
pub open spec fn page_number_in_range(n: usize) -> bool {
    n <= usize::MAX / 4096
}

impl PageNumber {
    pub fn new(num: usize) -> (r: Self)
        ensures
            r.0 == num,
    {
        PageNumber(num)
    }

    /// The base address of the page: `n << 12`.
    pub fn to_address(&self) -> (r: usize)
        requires
            page_number_in_range(self.0),
        ensures
            r == self.0 * 4096,
    {
        proof {
            lemma2_to64();
            assert(self.0 * 4096 <= usize::MAX) by (nonlinear_arith)
                requires
                    self.0 <= usize::MAX / 4096,
            ;
            lemma_usize_shl_is_mul(self.0, 12);
        }
        self.0 << 12usize
    }

    /// The page containing `address`: rounds down.
    pub fn floor_address(address: usize) -> (r: Self)
        ensures
            r.0 == address / 4096,
    {
        proof {
            lemma2_to64();
            lemma_usize_shr_is_div(address, 12);
        }
        PageNumber(address >> 12usize)
    }

    /// The first page at or after `address`: rounds up.
    pub fn ceil_address(address: usize) -> (r: Self)
        requires
            address + 4095 <= usize::MAX,
        ensures
            r.0 == (address + 4095) / 4096,
    {
        proof {
            lemma2_to64();
            lemma_usize_shr_is_div((address + 4095) as usize, 12);
        }
        PageNumber((address + 4095) >> 12usize)
    }
}

impl From<usize> for PageNumber {
    fn from(value: usize) -> (r: Self) {
        PageNumber(value)
    }
}

impl vstd::std_specs::convert::FromSpecImpl<usize> for PageNumber {
    open spec fn obeys_from_spec() -> bool {
        true
    }

    open spec fn from_spec(v: usize) -> Self {
        PageNumber(v)
    }
}

/// Decomposition of a Sv39 virtual page number into its three 9-bit indices,
/// most significant first.
pub trait VPNToSlice {
    fn to_slice(&self) -> [usize; 3];
}

impl VPNToSlice for PageNumber {
    fn to_slice(&self) -> (r: [usize; 3])
        ensures
            r@.len() == 3,
            r@[0] == (self.0 >> 18usize) & 0x1ff,
            r@[1] == (self.0 >> 9usize) & 0x1ff,
            r@[2] == self.0 & 0x1ff,
            r@[0] < 512 && r@[1] < 512 && r@[2] < 512,
    {
        proof {
            let n = self.0;
            assert(((n >> 18usize) & 0x1ff) < 512 && ((n >> 9usize) & 0x1ff) < 512 && (n & 0x1ff)
                < 512) by (bit_vector);
        }
        [(self.0 >> 18usize) & 0x1ff, (self.0 >> 9usize) & 0x1ff, self.0 & 0x1ff]
    }
}

/// The page-number codec brackets every address: rounding an address down
/// to its page starts at or before it, and the first page past it starts
/// strictly beyond it.
pub proof fn lemma_page_number_codec(a: usize)
    requires
        a + 4096 <= usize::MAX,
    ensures
        (a as int / 4096) * 4096 <= a as int,
        (a as int) < (((a + 1 + 4095) as int) / 4096) * 4096,
{
    assert((a as int / 4096) * 4096 <= a as int && (a as int) < (((a + 1 + 4095) as int) / 4096)
        * 4096) by (nonlinear_arith)
        requires
            0 <= a,
            a + 4096 <= usize::MAX,
    ;
}

/// A frame full of zero bytes, the contents of every freshly allocated frame.
pub open spec fn zero_frame() -> Seq<u8> {
    Seq::new(4096, |i: int| 0u8)
}

/// The frame allocator and physical-memory window that the caller supplies.
///
/// `mem()` is the model of the frames currently handed out: a map from
/// physical page number to the 4096 bytes of the frame.  Allocation returns a
/// frame outside the map and adds it zeroed; deallocation removes it; the
/// byte accessors stand for the kernel's direct-map window onto a frame.
pub trait PageManager: Sized {
    spec fn mem(&self) -> Map<int, Seq<u8>>;

    /// Internal consistency of the allocator itself; every operation below
    /// preserves it.
    spec fn inv(&self) -> bool;

    fn alloc_frame(&mut self) -> (r: Option<PageNumber>)
        requires
            old(self).inv(),
        ensures
            final (self).inv(),
            match r {
                Some(p) => !old(self).mem().dom().contains(p.0 as int) && final (self).mem() == old(
                    self,
                ).mem().insert(p.0 as int, zero_frame()) && page_number_in_range(p.0) && (
                p.0 as u64) < 0x1000_0000_0000u64,
                None => final (self).mem() == old(self).mem(),
            },
    ;

    /// `n` physically contiguous frames for huge-page backing; returns the
    /// base page number.
    fn alloc_contiguous(&mut self, n: usize) -> (r: Option<PageNumber>)
        requires
            old(self).inv(),
            1 <= n <= 0x40000,
        ensures
            final (self).inv(),
            match r {
                Some(p) => p.0 + n <= usize::MAX / 4096 && p.0 + n <= 0x1000_0000_0000 && (forall|
                    i: int,
                |
                    0 <= i < n ==> !old(self).mem().dom().contains(#[trigger] (p.0 + i))) && (
                forall|q: int|
                    !(p.0 <= q < p.0 + n) ==> (#[trigger] final (self).mem().dom().contains(q)
                        <==> old(self).mem().dom().contains(q))) && (forall|q: int|
                    old(self).mem().dom().contains(q) && !(p.0 <= q < p.0 + n)
                        ==> #[trigger] final (self).mem()[q] == old(self).mem()[q]) && (forall|
                    i: int,
                |
                    0 <= i < n ==> final (self).mem().dom().contains(#[trigger] (p.0 + i)) && final (
                    self).mem()[p.0 + i] == zero_frame()),
                None => final (self).mem() == old(self).mem(),
            },
    ;

    fn dealloc_frame(&mut self, ppn: PageNumber)
        requires
            old(self).inv(),
        ensures
            final (self).inv(),
            final (self).mem() == old(self).mem().remove(ppn.0 as int),
    ;

    fn read_byte(&self, ppn: PageNumber, off: usize) -> (r: u8)
        requires
            self.inv(),
            self.mem().dom().contains(ppn.0 as int),
            off < 4096,
            self.mem()[ppn.0 as int].len() == 4096,
        ensures
            r == self.mem()[ppn.0 as int][off as int],
    ;

    fn write_byte(&mut self, ppn: PageNumber, off: usize, val: u8)
        requires
            old(self).inv(),
            old(self).mem().dom().contains(ppn.0 as int),
            off < 4096,
        ensures
            final (self).inv(),
            final (self).mem() == old(self).mem().insert(
                ppn.0 as int,
                old(self).mem()[ppn.0 as int].update(off as int, val),
            ),
    ;

    /// Copy the whole frame at `src` over the frame at `dst`, the direct-map
    /// equivalent of a page-sized `memcpy`.
    fn copy_frame(&mut self, src: PageNumber, dst: PageNumber)
        requires
            old(self).inv(),
            old(self).mem().dom().contains(src.0 as int),
            old(self).mem().dom().contains(dst.0 as int),
        ensures
            final (self).inv(),
            final (self).mem() == old(self).mem().insert(
                dst.0 as int,
                old(self).mem()[src.0 as int],
            ),
    ;
}

} // verus!
