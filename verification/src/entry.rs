//! The page-table entry of the address-space layer: a machine word holding a
//! physical page number in bits 10 and up and the flag byte in bits 0..8.

use vstd::prelude::*;

use crate::{PageNumber, PPN};

verus! {

use vstd::arithmetic::power2::lemma2_to64;
use vstd::bits::{lemma_usize_shl_is_mul, lemma_usize_shr_is_div};
use vstd::string::StringExecFns;

/// The flag byte of a page-table entry: V, R, W, X, U, G, A, D from bit 0 up.
#[derive(Copy, Clone, Debug, PartialEq, Eq, Structural)]
pub struct PTEFlags(pub u8);

impl PTEFlags {
    pub fn empty() -> (r: Self)
        ensures
            r.0 == 0,
    {
        PTEFlags(0)
    }

    /// Every bit of the byte is a defined flag, so this never rejects.
    pub fn from_bits(bits: u8) -> (r: Option<Self>)
        ensures
            r == Some(PTEFlags(bits)),
    {
        Some(PTEFlags(bits))
    }

    pub fn bits(&self) -> (r: u8)
        ensures
            r == self.0,
    {
        self.0
    }

    pub fn v() -> (r: Self)
        ensures
            r.0 == 0x01,
    {
        PTEFlags(0x01)
    }

    pub fn r() -> (r: Self)
        ensures
            r.0 == 0x02,
    {
        PTEFlags(0x02)
    }

    pub fn w() -> (r: Self)
        ensures
            r.0 == 0x04,
    {
        PTEFlags(0x04)
    }

    pub fn x() -> (r: Self)
        ensures
            r.0 == 0x08,
    {
        PTEFlags(0x08)
    }

    pub fn u() -> (r: Self)
        ensures
            r.0 == 0x10,
    {
        PTEFlags(0x10)
    }

    pub fn g() -> (r: Self)
        ensures
            r.0 == 0x20,
    {
        PTEFlags(0x20)
    }

    pub fn a() -> (r: Self)
        ensures
            r.0 == 0x40,
    {
        PTEFlags(0x40)
    }

    pub fn d() -> (r: Self)
        ensures
            r.0 == 0x80,
    {
        PTEFlags(0x80)
    }

    /// Whether every flag of `other` is set in `self`.
    pub fn contains(&self, other: Self) -> (r: bool)
        ensures
            r == (self.0 & other.0 == other.0),
    {
        self.0 & other.0 == other.0
    }

    /// The flags set in either operand, the `|` of flag sets.
    pub fn union(&self, other: Self) -> (r: Self)
        ensures
            r.0 == (self.0 | other.0),
    {
        PTEFlags(self.0 | other.0)
    }
}

/// A single entry of the three-level table: `ppn << 10 | flags`.
#[derive(Copy, Clone, Debug, PartialEq, Eq, Structural)]
pub struct PageTableEntry {
    pub entry: usize,
}

impl PageTableEntry {
    /// The raw word, for specifications.
    pub open spec fn bits(&self) -> usize {
        self.entry
    }

    /// The flag byte carried by the entry.
    pub open spec fn spec_flag_bits(&self) -> u8 {
        (self.entry % 256) as u8
    }

    /// The physical page number carried by the entry.
    pub open spec fn spec_ppn(&self) -> int {
        self.entry as int / 1024
    }

    /// The entry is valid: its V bit is set.
    pub open spec fn spec_is_valid(&self) -> bool {
        self.entry % 2 == 1
    }

    pub fn new(ppn: PPN, attr: PTEFlags) -> (r: Self)
        requires
            ppn.0 <= usize::MAX / 1024,
        ensures
            r.entry == ppn.0 * 1024 + attr.0,
            r.spec_ppn() == ppn.0,
            r.spec_flag_bits() == attr.0,
            r.spec_is_valid() == (attr.0 & 1 == 1),
    {
        proof {
            let n = ppn.0;
            let a = attr.0;
            lemma2_to64();
            assert(n * 1024 <= usize::MAX) by (nonlinear_arith)
                requires
                    n <= usize::MAX / 1024,
            ;
            assert(n * vstd::arithmetic::power2::pow2(10) <= usize::MAX);
            lemma_usize_shl_is_mul(n, 10);
            assert(((n << 10usize) | (a as usize)) == (n << 10usize) + (a as usize)) by (bit_vector);
            let sum: int = n as int * 1024 + a as int;
            assert(sum / 1024 == n as int && sum % 256 == a as int && sum % 2 == a as int
                % 2) by (nonlinear_arith)
                requires
                    sum == n as int * 1024 + a as int,
                    0 <= a < 256,
                    0 <= n,
            ;
            assert((a & 1 == 1) == (a % 2 == 1)) by (bit_vector);
        }
        PageTableEntry { entry: (ppn.0 << 10usize) | (attr.0 as usize) }
    }

    pub fn flag(&self) -> (r: PTEFlags)
        ensures
            r.0 == self.spec_flag_bits(),
    {
        proof {
            let e = self.entry;
            assert(e as u8 == (e % 256) as u8) by (bit_vector);
        }
        PTEFlags(self.entry as u8)
    }

    pub fn empty() -> (r: Self)
        ensures
            r.entry == 0,
            r.spec_ppn() == 0,
            r.spec_flag_bits() == 0,
            !r.spec_is_valid(),
    {
        PageTableEntry { entry: 0 }
    }

    pub fn ppn(&self) -> (r: PPN)
        ensures
            r.0 == self.spec_ppn(),
    {
        proof {
            lemma2_to64();
            lemma_usize_shr_is_div(self.entry, 10);
        }
        PageNumber(self.entry >> 10usize)
    }
}

/// Round trip of the leaf encoder: an entry built over a frame number below
/// the width of the frame-number field, with a readable flag set, decodes to
/// the very same frame address and the very same flags.
pub proof fn lemma_leaf_round_trip(ppn: PPN, flags: PTEFlags)
    requires
        usize::MAX == u64::MAX,
        ppn.0 < 0x1000_0000_0000,
    ensures
        ({
            let e = PageTableEntry { entry: (ppn.0 * 1024 + (flags.0 | 0x02)) as usize };
            e.spec_ppn() * 4096 == ppn.0 * 4096 && e.spec_flag_bits() == (flags.0 | 0x02)
                && e.spec_ppn() <= usize::MAX / 4096
        }),
{
    let fl = (flags.0 | 0x02) as int;
    assert(0 <= fl < 256);
    let sum: int = ppn.0 as int * 1024 + fl;
    assert(sum / 1024 == ppn.0 as int && sum % 256 == fl) by (nonlinear_arith)
        requires
            sum == ppn.0 as int * 1024 + fl,
            0 <= fl < 256,
            0 <= ppn.0,
    ;
    assert(sum <= usize::MAX) by (nonlinear_arith)
        requires
            sum == ppn.0 as int * 1024 + fl,
            0 <= fl < 256,
            0 <= ppn.0 < 0x1000_0000_0000,
            usize::MAX == 0xffff_ffff_ffff_ffff,
    ;
}


/// The eight letters of a rendered flag byte, `DAGUXWRV` from the top bit
/// down, with a dash for every unset flag.
pub open spec fn spec_flag_letters(f: u8) -> Seq<char> {
    (if f & 0x80 == 0x80 {
        seq!['D']
    } else {
        seq!['-']
    }) + (if f & 0x40 == 0x40 {
        seq!['A']
    } else {
        seq!['-']
    }) + (if f & 0x20 == 0x20 {
        seq!['G']
    } else {
        seq!['-']
    }) + (if f & 0x10 == 0x10 {
        seq!['U']
    } else {
        seq!['-']
    }) + (if f & 0x08 == 0x08 {
        seq!['X']
    } else {
        seq!['-']
    }) + (if f & 0x04 == 0x04 {
        seq!['W']
    } else {
        seq!['-']
    }) + (if f & 0x02 == 0x02 {
        seq!['R']
    } else {
        seq!['-']
    }) + (if f & 0x01 == 0x01 {
        seq!['V']
    } else {
        seq!['-']
    })
}

/// Renders a flag set the way the kernel dump prints it.
pub struct PTEFlagsBuilder(pub PTEFlags);

impl PTEFlagsBuilder {
    /// The `DAGUXWRV` letters of the flag set, in place of a `Debug`
    /// rendering.
    #[verifier::rlimit(100)]
    #[verifier::spinoff_prover]
    pub fn render(&self) -> (r: String)
        ensures
            r@ == spec_flag_letters(self.0.0),
    {
        proof {
            reveal_strlit("D");
            reveal_strlit("A");
            reveal_strlit("G");
            reveal_strlit("U");
            reveal_strlit("X");
            reveal_strlit("W");
            reveal_strlit("R");
            reveal_strlit("V");
            reveal_strlit("-");
        }
        let mut s = String::new();
        let f = self.0.0;
        if f & 0x80 == 0x80 {
            s.append("D");
        } else {
            s.append("-");
        }
        if f & 0x40 == 0x40 {
            s.append("A");
        } else {
            s.append("-");
        }
        if f & 0x20 == 0x20 {
            s.append("G");
        } else {
            s.append("-");
        }
        if f & 0x10 == 0x10 {
            s.append("U");
        } else {
            s.append("-");
        }
        if f & 0x08 == 0x08 {
            s.append("X");
        } else {
            s.append("-");
        }
        if f & 0x04 == 0x04 {
            s.append("W");
        } else {
            s.append("-");
        }
        if f & 0x02 == 0x02 {
            s.append("R");
        } else {
            s.append("-");
        }
        if f & 0x01 == 0x01 {
            s.append("V");
        } else {
            s.append("-");
        }
        proof {
            assert(s@ =~= spec_flag_letters(f));
        }
        s
    }
}

/// The V test through the flag byte agrees with validity of the raw word.
pub proof fn lemma_flag_valid_bit(e: PageTableEntry)
    ensures
        (e.spec_flag_bits() & 0x01 == 0x01) == e.spec_is_valid(),
{
    let b = e.entry;
    assert((((b % 256) as u8) & 0x01 == 0x01) == (b % 2 == 1)) by (bit_vector);
}

/// What every concrete page-table entry answers about itself.
pub trait PTELike {
    /// The physical address fits the machine word when shifted back up.
    spec fn address_in_range(&self) -> bool;

    fn is_valid(&self) -> bool;

    fn is_read(&self) -> bool;

    fn is_write(&self) -> bool;

    fn is_exec(&self) -> bool;

    fn is_user(&self) -> bool;

    fn is_accessed(&self) -> bool;

    fn is_dirty(&self) -> bool;

    fn physical_address(&self) -> usize
        requires
            self.address_in_range(),
    ;
}

impl PTELike for PageTableEntry {
    open spec fn address_in_range(&self) -> bool {
        self.spec_ppn() <= usize::MAX / 4096
    }

    fn is_valid(&self) -> (r: bool)
        ensures
            r == self.spec_is_valid(),
    {
        proof {
            let e = self.entry;
            assert((((e % 256) as u8) & 0x01 == 0x01) == (e % 2 == 1)) by (bit_vector);
        }
        self.flag().contains(PTEFlags::v())
    }

    fn is_read(&self) -> (r: bool)
        ensures
            r == (self.spec_flag_bits() & 0x02 == 0x02),
    {
        self.flag().contains(PTEFlags::r())
    }

    fn is_write(&self) -> (r: bool)
        ensures
            r == (self.spec_flag_bits() & 0x04 == 0x04),
    {
        self.flag().contains(PTEFlags::w())
    }

    fn is_exec(&self) -> (r: bool)
        ensures
            r == (self.spec_flag_bits() & 0x08 == 0x08),
    {
        self.flag().contains(PTEFlags::x())
    }

    fn is_user(&self) -> (r: bool)
        ensures
            r == (self.spec_flag_bits() & 0x10 == 0x10),
    {
        self.flag().contains(PTEFlags::u())
    }

    fn is_accessed(&self) -> (r: bool)
        ensures
            r == (self.spec_flag_bits() & 0x40 == 0x40),
    {
        self.flag().contains(PTEFlags::a())
    }

    fn is_dirty(&self) -> (r: bool)
        ensures
            r == (self.spec_flag_bits() & 0x80 == 0x80),
    {
        self.flag().contains(PTEFlags::d())
    }

    fn physical_address(&self) -> (r: usize)
        ensures
            r == self.spec_ppn() * 4096,
    {
        let p = self.ppn();
        p.to_address()
    }
}

} // verus!
