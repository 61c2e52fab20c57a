//! RISC-V Sv39/Sv48 page-table entries for the 64-bit walker: a 64-bit word
//! with the flag bits in bits 0..8 and the physical frame number in bits
//! 10..54.

use vstd::prelude::*;

verus! {

use vstd::string::StrSliceExecFns;

/// Generic mapping permissions and attributes, one bit per flag: V, R, W, X,
/// U, G, A, D from bit 0 up, with two reserved software bits above them.
#[derive(Copy, Clone, Debug, PartialEq, Eq, Structural)]
pub struct MappingFlags(pub usize);

impl MappingFlags {
    pub fn empty() -> (r: Self)
        ensures
            r.0 == 0,
    {
        MappingFlags(0)
    }

    /// Keeps the defined bits and drops the rest.
    pub fn from_bits_truncate(bits: usize) -> (r: Self)
        ensures
            r.0 == bits & 0x3ff,
    {
        MappingFlags(bits & 0x3ff)
    }

    pub fn bits(&self) -> (r: usize)
        ensures
            r == self.0,
    {
        self.0
    }

    pub fn v() -> (r: Self)
        ensures
            r.0 == 0x01,
    {
        MappingFlags(0x01)
    }

    pub fn r() -> (r: Self)
        ensures
            r.0 == 0x02,
    {
        MappingFlags(0x02)
    }

    pub fn w() -> (r: Self)
        ensures
            r.0 == 0x04,
    {
        MappingFlags(0x04)
    }

    pub fn x() -> (r: Self)
        ensures
            r.0 == 0x08,
    {
        MappingFlags(0x08)
    }

    pub fn u() -> (r: Self)
        ensures
            r.0 == 0x10,
    {
        MappingFlags(0x10)
    }

    pub fn g() -> (r: Self)
        ensures
            r.0 == 0x20,
    {
        MappingFlags(0x20)
    }

    pub fn a() -> (r: Self)
        ensures
            r.0 == 0x40,
    {
        MappingFlags(0x40)
    }

    pub fn d() -> (r: Self)
        ensures
            r.0 == 0x80,
    {
        MappingFlags(0x80)
    }

    pub fn contains(&self, other: Self) -> (r: bool)
        ensures
            r == (self.0 & other.0 == other.0),
    {
        self.0 & other.0 == other.0
    }

    pub fn intersects(&self, other: Self) -> (r: bool)
        ensures
            r == (self.0 & other.0 != 0),
    {
        self.0 & other.0 != 0
    }

    pub fn union(&self, other: Self) -> (r: Self)
        ensures
            r.0 == (self.0 | other.0),
    {
        MappingFlags(self.0 | other.0)
    }

    /// The flags of `self` with those of `other` removed, the `-` of flag
    /// sets.
    pub fn minus(&self, other: Self) -> (r: Self)
        ensures
            r.0 == (self.0 & !other.0),
    {
        MappingFlags(self.0 & !other.0)
    }
}

/// The flag a character of the textual form stands for; only the eight
/// defined letters are accepted.
pub open spec fn mapping_char_bit(c: char) -> usize {
    if c == 'V' {
        0x01
    } else if c == 'R' {
        0x02
    } else if c == 'W' {
        0x04
    } else if c == 'X' {
        0x08
    } else if c == 'U' {
        0x10
    } else if c == 'G' {
        0x20
    } else if c == 'A' {
        0x40
    } else if c == 'D' {
        0x80
    } else {
        0x100
    }
}

/// The flag set a string denotes: the union of its letters' bits.
pub open spec fn mapping_of_chars(s: Seq<char>) -> usize
    decreases s.len(),
{
    if s.len() == 0 {
        0
    } else {
        mapping_of_chars(s.drop_last()) | mapping_char_bit(s.last())
    }
}

impl MappingFlags {
    /// Reads the `VRWXUGAD` letters; any other character is a caller bug
    /// and is refused up front.
    pub fn from_str(value: &str) -> (r: Self)
        requires
            forall|i: int|
                0 <= i < value@.len() ==> mapping_char_bit(#[trigger] value@[i]) != 0x100,
        ensures
            r.0 == mapping_of_chars(value@),
    {
        let mut ret: usize = 0;
        let n = value.unicode_len();
        let mut i: usize = 0;
        while i < n
            invariant
                n == value@.len(),
                i <= n,
                ret == mapping_of_chars(value@.take(i as int)),
                forall|ii: int|
                    0 <= ii < n ==> mapping_char_bit(#[trigger] value@[ii]) != 0x100,
            decreases n - i,
        {
            let c = value.get_char(i);
            let bit: usize = if c == 'V' {
                0x01
            } else if c == 'R' {
                0x02
            } else if c == 'W' {
                0x04
            } else if c == 'X' {
                0x08
            } else if c == 'U' {
                0x10
            } else if c == 'G' {
                0x20
            } else if c == 'A' {
                0x40
            } else if c == 'D' {
                0x80
            } else {
                0x00
            };
            ret = ret | bit;
            proof {
                assert(value@.take(i + 1).drop_last() =~= value@.take(i as int));
                assert(value@.take(i + 1).last() == value@[i as int]);
                assert(mapping_char_bit(value@[i as int]) != 0x100);
            }
            i = i + 1;
        }
        proof {
            assert(value@.take(n as int) =~= value@);
        }
        MappingFlags(ret)
    }
}

/// A generic page table entry: what an architecture-specific entry type
/// answers about itself.  `new_page` demands a readable or executable leaf,
/// the classic RISC-V rule, and a frame-aligned address small enough for the
/// frame-number field.
pub trait GenericPTE: Sized + Copy {
    fn new_page(paddr: usize, flags: MappingFlags, is_huge: bool) -> Self
        requires
            flags.0 & 0x0a != 0,
            paddr % 4096 == 0,
            (paddr as u64) < 0x100_0000_0000_0000u64,
    ;

    fn new_table(paddr: usize) -> Self
        requires
            paddr % 4096 == 0,
            (paddr as u64) < 0x100_0000_0000_0000u64,
    ;

    fn paddr(&self) -> usize;

    fn flags(&self) -> MappingFlags;

    fn is_unused(&self) -> bool;

    fn is_present(&self) -> bool;

    fn is_huge(&self) -> bool;

    fn clear(&mut self);
}

/// Sv39 and Sv48 page table entry for RV64 systems.
#[derive(Copy, Clone, Debug, PartialEq, Eq, Structural)]
pub struct Rv64PTE(pub u64);

/// Bits 10..54 of an entry: the physical frame number field.
pub open spec fn phys_addr_mask() -> u64 {
    0x003f_ffff_ffff_fc00u64
}

/// How an encoded entry decodes again: the flag byte and, for a frame-aligned
/// address below the top of the frame-number field, the same address.
proof fn lemma_rv64_encode(pa: u64, fl: u64)
    by (bit_vector)
    requires
        pa % 4096 == 0,
        pa < 0x100_0000_0000_0000u64,
    ensures
        ((((fl & 0xffu64) | ((pa >> 2u64) & 0x003f_ffff_ffff_fc00u64)) & 0x003f_ffff_ffff_fc00u64)
            << 2u64) == pa,
        (((fl & 0xffu64) | ((pa >> 2u64) & 0x003f_ffff_ffff_fc00u64)) & 0xffu64) == fl & 0xffu64,
        fl & 0x0au64 != 0u64 ==> (((fl & 0xffu64) | ((pa >> 2u64) & 0x003f_ffff_ffff_fc00u64))
            & 0x0au64) != 0u64 && ((fl & 0xffu64) | ((pa >> 2u64) & 0x003f_ffff_ffff_fc00u64))
            != 0u64,
        fl & 0x0au64 == 0u64 ==> (((fl & 0xffu64) | ((pa >> 2u64) & 0x003f_ffff_ffff_fc00u64))
            & 0x0au64) == 0u64,
        fl & 0x01u64 != 0u64 ==> ((fl & 0xffu64) | ((pa >> 2u64) & 0x003f_ffff_ffff_fc00u64))
            != 0u64,
        ((((fl & 0xffu64) | ((pa >> 2u64) & 0x003f_ffff_ffff_fc00u64)) & 0x01u64) == 0x01u64) == (fl
            & 0x01u64 == 0x01u64),
{
}

impl Rv64PTE {
    /// The physical address carried by the entry.
    pub open spec fn spec_paddr(&self) -> usize {
        (((self.0 & phys_addr_mask()) << 2u64) as usize)
    }

    /// The mapping-flag bits carried by the entry.
    pub open spec fn spec_flags(&self) -> usize {
        ((self.0 & 0xffu64) as usize)
    }

    pub open spec fn spec_is_present(&self) -> bool {
        self.0 & 0x01u64 == 0x01u64
    }

    pub open spec fn spec_is_huge(&self) -> bool {
        self.0 & 0x0au64 != 0u64
    }

    pub open spec fn spec_is_unused(&self) -> bool {
        self.0 == 0u64
    }
}

impl GenericPTE for Rv64PTE {
    fn new_page(paddr: usize, flags: MappingFlags, is_huge: bool) -> (r: Self)
        ensures
            r.0 == ((flags.0 as u64) & 0xffu64) | (((paddr as u64) >> 2u64) & phys_addr_mask()),
            r.spec_paddr() == paddr,
            r.spec_flags() == flags.0 & 0xff,
            r.spec_is_huge(),
            !r.spec_is_unused(),
            r.spec_is_present() == (flags.0 & 0x01 == 0x01),
    {
        let bits: u64 = ((flags.0 as u64) & 0xff) | (((paddr as u64) >> 2) & 0x003f_ffff_ffff_fc00);
        proof {
            let pa = paddr as u64;
            let fl0 = flags.0;
            let fl = fl0 as u64;
            assert((fl & 0x0au64 != 0u64) == (fl0 & 0x0a != 0) && (fl & 0x01u64 == 0x01u64) == (
            fl0 & 0x01 == 0x01) && (fl & 0xffu64) == (fl0 & 0xff)) by (bit_vector)
                requires
                    fl == fl0 as u64,
            ;
            lemma_rv64_encode(pa, fl);
        }
        Rv64PTE(bits)
    }

    fn new_table(paddr: usize) -> (r: Self)
        ensures
            r.0 == 0x01u64 | (((paddr as u64) >> 2u64) & phys_addr_mask()),
            r.spec_paddr() == paddr,
            r.spec_flags() == 0x01,
            !r.spec_is_huge(),
            !r.spec_is_unused(),
            r.spec_is_present(),
    {
        let bits: u64 = 0x01u64 | (((paddr as u64) >> 2) & 0x003f_ffff_ffff_fc00);
        proof {
            let pa = paddr as u64;
            lemma_rv64_encode(pa, 0x01u64);
            assert((0x01u64 & 0xffu64) == 0x01u64 && (0x01u64 & 0x0au64) == 0u64 && (0x01u64
                & 0x01u64) == 0x01u64) by (bit_vector);
        }
        Rv64PTE(bits)
    }

    fn paddr(&self) -> (r: usize)
        ensures
            r == self.spec_paddr(),
    {
        ((self.0 & 0x003f_ffff_ffff_fc00) << 2) as usize
    }

    fn flags(&self) -> (r: MappingFlags)
        ensures
            r.0 == self.spec_flags(),
    {
        MappingFlags((self.0 & 0xff) as usize)
    }

    fn is_unused(&self) -> (r: bool)
        ensures
            r == self.spec_is_unused(),
    {
        self.0 == 0
    }

    fn is_present(&self) -> (r: bool)
        ensures
            r == self.spec_is_present(),
    {
        self.0 & 0x01 == 0x01
    }

    fn is_huge(&self) -> (r: bool)
        ensures
            r == self.spec_is_huge(),
    {
        self.0 & 0x0a != 0
    }

    fn clear(&mut self)
        ensures
            final (self).0 == 0u64,
    {
        self.0 = 0;
    }
}

} // verus!
