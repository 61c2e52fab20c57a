//! Contiguous virtual regions with common permissions.

use vstd::prelude::*;

use crate::{PageNumber, PPN, VPN};

verus! {

use vstd::string::StrSliceExecFns;

/// Permission bits of an area: R, W, X, U from bit 1 up.
#[derive(Copy, Clone, Debug, PartialEq, Eq, Structural)]
pub struct AreaPermission(pub u8);

/// The permission bit a character of the textual form stands for; other
/// characters count for nothing.
pub open spec fn perm_char_bit(c: char) -> u8 {
    if c == 'r' {
        0x02
    } else if c == 'w' {
        0x04
    } else if c == 'x' {
        0x08
    } else if c == 'u' {
        0x10
    } else {
        0x00
    }
}

/// The permission set a string denotes: the union of its characters' bits.
pub open spec fn perm_of_chars(s: Seq<char>) -> u8
    decreases s.len(),
{
    if s.len() == 0 {
        0u8
    } else {
        perm_of_chars(s.drop_last()) | perm_char_bit(s.last())
    }
}

impl AreaPermission {
    pub fn empty() -> (r: Self)
        ensures
            r.0 == 0,
    {
        AreaPermission(0)
    }

    /// Rejects bytes with bits outside the defined flags.
    pub fn from_bits(bits: u8) -> (r: Option<Self>)
        ensures
            r == if bits & !0x1eu8 == 0 {
                Some(AreaPermission(bits))
            } else {
                None::<AreaPermission>
            },
    {
        if bits & !0x1eu8 == 0 {
            Some(AreaPermission(bits))
        } else {
            None
        }
    }

    /// Reads `r`, `w`, `x` and `u` characters; any other character is
    /// ignored.
    pub fn from_str(s: &str) -> (r: Self)
        ensures
            r.0 == perm_of_chars(s@),
    {
        let mut permission: u8 = 0;
        let n = s.unicode_len();
        let mut i: usize = 0;
        while i < n
            invariant
                n == s@.len(),
                i <= n,
                permission == perm_of_chars(s@.take(i as int)),
            decreases n - i,
        {
            let c = s.get_char(i);
            let bit: u8 = if c == 'r' {
                0x02
            } else if c == 'w' {
                0x04
            } else if c == 'x' {
                0x08
            } else if c == 'u' {
                0x10
            } else {
                0x00
            };
            permission = permission | bit;
            proof {
                assert(s@.take(i + 1).drop_last() =~= s@.take(i as int));
                assert(s@.take(i + 1).last() == s@[i as int]);
            }
            i = i + 1;
        }
        proof {
            assert(s@.take(n as int) =~= s@);
        }
        AreaPermission(permission)
    }

    pub fn bits(&self) -> (r: u8)
        ensures
            r == self.0,
    {
        self.0
    }

    pub fn r() -> (r: Self)
        ensures
            r.0 == 0x02,
    {
        AreaPermission(0x02)
    }

    pub fn w() -> (r: Self)
        ensures
            r.0 == 0x04,
    {
        AreaPermission(0x04)
    }

    pub fn x() -> (r: Self)
        ensures
            r.0 == 0x08,
    {
        AreaPermission(0x08)
    }

    pub fn u() -> (r: Self)
        ensures
            r.0 == 0x10,
    {
        AreaPermission(0x10)
    }

    pub fn contains(&self, other: Self) -> (r: bool)
        ensures
            r == (self.0 & other.0 == other.0),
    {
        self.0 & other.0 == other.0
    }

    pub fn union(&self, other: Self) -> (r: Self)
        ensures
            r.0 == (self.0 | other.0),
    {
        AreaPermission(self.0 | other.0)
    }
}

/// A contiguous range of virtual pages with one permission set, optionally
/// tied to an equally long range of physical pages.
#[derive(Copy, Clone, Debug)]
pub struct Area {
    pub vpn_start: VPN,
    pub vpn_end: VPN,
    pub ppn_start: Option<PPN>,
    pub permission: AreaPermission,
}

impl Area {
    /// How many pages the area spans.
    pub open spec fn spec_len(&self) -> int {
        self.vpn_end.0 - self.vpn_start.0
    }

    pub open spec fn spec_vpn_start(&self) -> int {
        self.vpn_start.0 as int
    }

    pub open spec fn spec_vpn_end(&self) -> int {
        self.vpn_end.0 as int
    }

    pub open spec fn spec_ppn_start(&self) -> Option<int> {
        match self.ppn_start {
            Some(p) => Some(p.0 as int),
            None => None,
        }
    }

    pub open spec fn spec_permission(&self) -> u8 {
        self.permission.0
    }

    /// A well-formed area has an ordered range and permission bits drawn
    /// from the four defined flags.
    pub open spec fn wf(&self) -> bool {
        self.vpn_start.0 <= self.vpn_end.0 && self.permission.0 & !0x1eu8 == 0
    }

    /// Builds the area over `vpn_s`; a physical range, when given, must be
    /// exactly as long as the virtual one.
    pub fn new(vpn_s: core::ops::Range<VPN>, ppn_s: Option<core::ops::Range<PPN>>, permission: AreaPermission) -> (r: Self)
        requires
            vpn_s.start.0 <= vpn_s.end.0,
            permission.0 & !0x1eu8 == 0,
            match ppn_s {
                Some(ps) => ps.start.0 <= ps.end.0 && ps.end.0 - ps.start.0 == vpn_s.end.0
                    - vpn_s.start.0,
                None => true,
            },
        ensures
            r.wf(),
            r.spec_vpn_start() == vpn_s.start.0,
            r.spec_vpn_end() == vpn_s.end.0,
            r.spec_permission() == permission.0,
            r.spec_ppn_start() == match ppn_s {
                Some(ps) => Some(ps.start.0 as int),
                None => None::<int>,
            },
    {
        let ppn_start = match ppn_s {
            Some(ps) => Some(ps.start),
            None => None,
        };
        Area { vpn_start: vpn_s.start, vpn_end: vpn_s.end, ppn_start, permission }
    }

    pub fn permission(&self) -> (r: AreaPermission)
        ensures
            r.0 == self.spec_permission(),
    {
        self.permission
    }

    /// The pairs of the area, one `(vpn, optional ppn)` per page in rising
    /// order.
    pub fn iter(&self) -> (r: MapAreaIter)
        ensures
            r.cur.0 == self.spec_vpn_start(),
            r.end.0 == self.spec_vpn_end(),
            r.ppn_cur == self.ppn_start,
    {
        MapAreaIter { cur: self.vpn_start, end: self.vpn_end, ppn_cur: self.ppn_start }
    }

    pub fn vpn_range(&self) -> (r: core::ops::Range<VPN>)
        ensures
            r.start.0 == self.spec_vpn_start(),
            r.end.0 == self.spec_vpn_end(),
    {
        self.vpn_start..self.vpn_end
    }

    pub fn ppn_range(&self) -> (r: Option<core::ops::Range<PPN>>)
        requires
            self.wf(),
            match self.spec_ppn_start() {
                Some(p) => p + self.spec_len() <= usize::MAX,
                None => true,
            },
        ensures
            match r {
                Some(ps) => self.spec_ppn_start() == Some(ps.start.0 as int) && ps.end.0 - ps.start.0
                    == self.spec_len(),
                None => self.spec_ppn_start() is None,
            },
    {
        match self.ppn_start {
            Some(p) => Some(p..PageNumber(p.0 + (self.vpn_end.0 - self.vpn_start.0))),
            None => None,
        }
    }
}

/// The iteration state over an area's pages.
pub struct MapAreaIter {
    pub cur: VPN,
    pub end: VPN,
    pub ppn_cur: Option<PPN>,
}

impl MapAreaIter {
    /// The next `(vpn, optional ppn)` pair, stepping both ranges.
    pub fn next(&mut self) -> (r: Option<(VPN, Option<PPN>)>)
        requires
            match old(self).ppn_cur {
                Some(p) => p.0 < usize::MAX,
                None => true,
            },
        ensures
            match r {
                Some((v, p)) => old(self).cur.0 < old(self).end.0 && v == old(self).cur && p == old(
                    self,
                ).ppn_cur && final (self).cur.0 == old(self).cur.0 + 1 && final (self).end == old(
                    self,
                ).end && (match (old(self).ppn_cur, final (self).ppn_cur) {
                    (Some(p0), Some(p1)) => p1.0 == p0.0 + 1,
                    (None, None) => true,
                    _ => false,
                }),
                None => old(self).cur.0 >= old(self).end.0 && *final (self) == *old(self),
            },
    {
        if self.cur.0 >= self.end.0 {
            None
        } else {
            let vpn = self.cur;
            let ppn = self.ppn_cur;
            self.cur = PageNumber(self.cur.0 + 1);
            match self.ppn_cur {
                Some(p) => {
                    self.ppn_cur = Some(PageNumber(p.0 + 1));
                },
                None => {},
            }
            Some((vpn, ppn))
        }
    }
}

} // verus!
