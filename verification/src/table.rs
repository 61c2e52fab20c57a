//! A single page-table frame of the address-space layer, and the page sizes
//! and error kinds of the 64-bit walker.

use vstd::prelude::*;

use crate::entry::PageTableEntry;

verus! {

/// The number of entries in one table frame.
pub open spec fn entry_count() -> int {
    512
}

/// The page size a leaf entry maps at its level.
#[derive(Copy, Clone, Debug, PartialEq, Eq, Structural)]
pub enum PageSize {
    Size4K,
    Size2M,
    Size1G,
}

impl PageSize {
    pub open spec fn spec_bytes(&self) -> usize {
        match self {
            PageSize::Size4K => 4096,
            PageSize::Size2M => 0x20_0000,
            PageSize::Size1G => 0x4000_0000,
        }
    }

    pub fn bytes(&self) -> (r: usize)
        ensures
            r == self.spec_bytes(),
    {
        match self {
            PageSize::Size4K => 4096,
            PageSize::Size2M => 0x20_0000,
            PageSize::Size1G => 0x4000_0000,
        }
    }

    /// A 2 MiB or 1 GiB page.
    pub fn is_huge(&self) -> (r: bool)
        ensures
            r == (*self != PageSize::Size4K),
    {
        match self {
            PageSize::Size4K => false,
            _ => true,
        }
    }

    /// How many 4 KiB frames back one page of this size.
    pub fn frames(&self) -> (r: usize)
        ensures
            r == self.spec_bytes() / 4096,
            1 <= r <= 0x40000,
    {
        match self {
            PageSize::Size4K => 1,
            PageSize::Size2M => 512,
            PageSize::Size1G => 0x40000,
        }
    }
}

/// Whether `addr` is a multiple of the page size.
pub fn addr_aligned(addr: usize, size: PageSize) -> (r: bool)
    ensures
        r == (addr % size.spec_bytes() == 0),
{
    addr % size.bytes() == 0
}

/// A terminal failure of one walker operation.
#[derive(Copy, Clone, Debug, PartialEq, Eq, Structural)]
pub enum PagingError {
    /// The frame allocator returned nothing.
    NoMemory,
    /// An address or size of a bulk call is not 4 KiB aligned.
    NotAligned,
    /// The target slot already holds an entry.
    AlreadyMapped,
    /// An entry or an intermediate on the walk is missing.
    NotMapped,
    /// The walk descended into a huge leaf where a finer walk was required.
    MappedToHugePage,
    /// A promotion found the leaf already valid.
    AlreadyValid,
}

/// One table frame of the address-space layer: 512 entries.
#[derive(Clone, Debug)]
pub struct PageTable {
    pub entries: Vec<PageTableEntry>,
}

impl PageTable {
    pub open spec fn wf(&self) -> bool {
        self.entries@.len() == entry_count()
    }

    pub fn new() -> (r: Self)
        ensures
            r.wf(),
            forall|i: int| 0 <= i < 512 ==> (#[trigger] r.entries@[i]).bits() == 0,
    {
        let mut entries: Vec<PageTableEntry> = Vec::new();
        let mut i: usize = 0;
        while i < 512
            invariant
                entries@.len() == i,
                i <= 512,
                forall|j: int| 0 <= j < i ==> (#[trigger] entries@[j]).bits() == 0,
            decreases 512 - i,
        {
            entries.push(PageTableEntry::empty());
            i = i + 1;
        }
        PageTable { entries }
    }

    pub fn get(&self, index: usize) -> (r: PageTableEntry)
        requires
            self.wf(),
            index < 512,
        ensures
            r == self.entries@[index as int],
    {
        self.entries[index]
    }

    pub fn set(&mut self, index: usize, e: PageTableEntry)
        requires
            old(self).wf(),
            index < 512,
        ensures
            final (self).entries@ == old(self).entries@.update(index as int, e),
            final (self).wf(),
    {
        self.entries[index] = e;
    }

    /// A copy of the entries, in order.
    pub fn iter(&self) -> (r: Vec<PageTableEntry>)
        ensures
            r@ == self.entries@,
    {
        let mut out: Vec<PageTableEntry> = Vec::new();
        let mut i: usize = 0;
        while i < self.entries.len()
            invariant
                i <= self.entries@.len(),
                out@ == self.entries@.take(i as int),
            decreases self.entries@.len() - i,
        {
            out.push(self.entries[i]);
            proof {
                assert(out@ =~= self.entries@.take(i as int + 1));
            }
            i = i + 1;
        }
        proof {
            assert(self.entries@.take(self.entries@.len() as int) =~= self.entries@);
        }
        out
    }
}

} // verus!
