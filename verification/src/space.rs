//! The address space: a three-level table of areas and single pages.
//!
//! `AddressSpace` keeps its own small walker over
//! [`PageTableEntry`](crate::entry::PageTableEntry): a root table, the middle
//! tables it points to, and the leaf tables under those, each owned as a
//! value and identified by the physical page number its frame lives at.  All
//! frames come from the caller's [`PageManager`], which is handed to every
//! operation that allocates or frees.

use vstd::prelude::*;

use crate::area::Area;
use crate::entry::{PTEFlags, PageTableEntry};
use crate::error::PTableError;
use crate::table::PageTable;
use crate::{page_number_in_range, PageManager, PageNumber, PPN, VPN};

verus! {

/// One owned table frame of the space: its page number and its entries.
pub struct SpaceFrame {
    pub ppn: usize,
    pub table: PageTable,
}

/// Whether some frame of `s` sits at page `p`.
pub open spec fn sf_contains(s: Seq<SpaceFrame>, p: int) -> bool {
    exists|j: int| 0 <= j < s.len() && s[j].ppn == p
}

/// The position of the frame at page `p`.
pub open spec fn sf_index(s: Seq<SpaceFrame>, p: int) -> int {
    choose|j: int| 0 <= j < s.len() && s[j].ppn == p
}

/// The view of one level: page number to entries.
pub open spec fn sframe_map(s: Seq<SpaceFrame>) -> Map<int, Seq<PageTableEntry>> {
    Map::new(|p: int| sf_contains(s, p), |p: int| s[sf_index(s, p)].table.entries@)
}

/// The three 9-bit indices of a virtual page number, top level first.
pub open spec fn vpn_index(vpn: usize, pos: int) -> int {
    if pos == 0 {
        (vpn as int / 0x40000) % 512
    } else if pos == 1 {
        (vpn as int / 512) % 512
    } else {
        vpn as int % 512
    }
}

/// The bookkeeping half of the allocator interface: remembers every page it
/// handed out so that the space can return them all on recycle.
pub struct InternalManager {
    ppn_set: Vec<PageNumber>,
}

impl InternalManager {
    /// The pages allocated through this manager so far, in order.
    pub closed spec fn spec_ppns(&self) -> Seq<PageNumber> {
        self.ppn_set@
    }

    pub fn new() -> (r: Self)
        ensures
            r.spec_ppns() == Seq::<PageNumber>::empty(),
    {
        InternalManager { ppn_set: Vec::new() }
    }

    /// One fresh zeroed frame, recorded for recycle.
    pub fn alloc_frame<M: PageManager>(&mut self, mgr: &mut M) -> (r: Option<PageNumber>)
        requires
            old(mgr).inv(),
        ensures
            final (mgr).inv(),
            match r {
                Some(p) => !old(mgr).mem().dom().contains(p.0 as int) && final (mgr).mem() == old(
                    mgr,
                ).mem().insert(p.0 as int, crate::zero_frame()) && page_number_in_range(p.0) && (
                p.0 as u64) < 0x1000_0000_0000u64 && final (self).spec_ppns() == old(
                    self,
                ).spec_ppns().push(p),
                None => final (mgr).mem() == old(mgr).mem() && final (self).spec_ppns() == old(
                    self,
                ).spec_ppns(),
            },
    {
        let r = mgr.alloc_frame();
        match r {
            Some(p) => {
                self.ppn_set.push(p);
                Some(p)
            },
            None => None,
        }
    }

    /// Returns one frame to the allocator.
    pub fn dealloc<M: PageManager>(&self, ppn: PageNumber, mgr: &mut M)
        requires
            old(mgr).inv(),
        ensures
            final (mgr).inv(),
            final (mgr).mem() == old(mgr).mem().remove(ppn.0 as int),
    {
        mgr.dealloc_frame(ppn)
    }
}

/// A virtual address space: a root table lazily allocated on first use, the
/// areas and single pages pushed into it, and the record of every frame
/// allocated on its behalf.
pub struct AddressSpace {
    root_ppn: Option<PageNumber>,
    root: Option<SpaceFrame>,
    l1: Vec<SpaceFrame>,
    l2: Vec<SpaceFrame>,
    map_area: Vec<Area>,
    single_vpn: Vec<(VPN, PTEFlags)>,
    page_manager: InternalManager,
}

impl AddressSpace {
    pub closed spec fn spec_root_ppn(&self) -> Option<int> {
        match self.root_ppn {
            Some(p) => Some(p.0 as int),
            None => None,
        }
    }

    /// The view of the middle level.
    pub closed spec fn m1(&self) -> Map<int, Seq<PageTableEntry>> {
        sframe_map(self.l1@)
    }

    /// The view of the leaf level.
    pub closed spec fn m2(&self) -> Map<int, Seq<PageTableEntry>> {
        sframe_map(self.l2@)
    }

    /// The root's entries.
    pub closed spec fn m0(&self) -> Seq<PageTableEntry> {
        self.root->Some_0.table.entries@
    }

    pub closed spec fn spec_areas(&self) -> Seq<Area> {
        self.map_area@
    }

    pub closed spec fn spec_singles(&self) -> Seq<(VPN, PTEFlags)> {
        self.single_vpn@
    }

    /// The pages this space has allocated and not yet recycled.
    pub closed spec fn spec_owned(&self) -> Seq<PageNumber> {
        self.page_manager.spec_ppns()
    }

    /// The leaf slot the walk of `vpn` reaches, if every intermediate entry
    /// on the way is valid: the page of the leaf table and the index inside
    /// it.
    pub open spec fn spec_route(&self, vpn: usize) -> Option<(int, int)> {
        if self.spec_root_ppn() is None {
            None
        } else {
            let e0 = self.m0()[vpn_index(vpn, 0)];
            if !e0.spec_is_valid() || !self.m1().dom().contains(e0.spec_ppn()) {
                None
            } else {
                let e1 = self.m1()[e0.spec_ppn()][vpn_index(vpn, 1)];
                if !e1.spec_is_valid() || !self.m2().dom().contains(e1.spec_ppn()) {
                    None
                } else {
                    Some((e1.spec_ppn(), vpn_index(vpn, 2)))
                }
            }
        }
    }

    /// The leaf entry of `vpn`, along valid intermediates.
    pub open spec fn spec_leaf(&self, vpn: usize) -> Option<PageTableEntry> {
        match self.spec_route(vpn) {
            Some((p, i)) => Some(self.m2()[p][i]),
            None => None,
        }
    }

    /// The physical page `vpn` translates to: the target of a valid leaf.
    pub open spec fn spec_vpn_to_ppn(&self, vpn: usize) -> Option<int> {
        match self.spec_leaf(vpn) {
            Some(e) => if e.spec_is_valid() {
                Some(e.spec_ppn())
            } else {
                None
            },
            None => None,
        }
    }

    /// One level's frames are well formed and pairwise distinct.
    pub open spec fn sframes_wf(s: Seq<SpaceFrame>) -> bool {
        &&& (forall|j: int|
            0 <= j < s.len() ==> (#[trigger] s[j]).table.entries@.len() == 512 && s[j].ppn
                <= usize::MAX / 1024)
        &&& (forall|a: int, b: int| 0 <= a < b < s.len() ==> #[trigger] s[a].ppn != #[trigger] s[b].ppn)
    }

    /// An intermediate entry is either empty or a bare valid pointer into
    /// the next level.
    pub open spec fn pointer_entry_ok(e: PageTableEntry, next: Map<int, Seq<PageTableEntry>>) -> bool {
        e.bits() == 0 || (e.spec_is_valid() && e.spec_flag_bits() == 1 && next.dom().contains(
            e.spec_ppn(),
        ))
    }

    spec fn root_wf(&self) -> bool {
        match self.root {
            Some(f) => self.root_ppn is Some && f.ppn == self.root_ppn->Some_0.0
                && f.table.entries@.len() == 512 && (forall|i: int|
                0 <= i < 512 ==> Self::pointer_entry_ok(#[trigger] self.m0()[i], self.m1())),
            None => self.root_ppn is None,
        }
    }

    spec fn l1_wf(&self) -> bool {
        forall|p: int, i: int|
            self.m1().dom().contains(p) && 0 <= i < 512 ==> Self::pointer_entry_ok(
                #[trigger] self.m1()[p][i],
                self.m2(),
            )
    }

    /// Distinct pointers lead to distinct tables: entries of one level,
    /// read as pointers, are injective.
    spec fn inj_wf(&self) -> bool {
        &&& (self.root is Some ==> (forall|i: int, j: int|
            0 <= i < j < 512 && (#[trigger] self.m0()[i]).spec_is_valid() && (
            #[trigger] self.m0()[j]).spec_is_valid() ==> self.m0()[i].spec_ppn()
                != self.m0()[j].spec_ppn()))
        &&& (forall|p1: int, i1: int, p2: int, i2: int|
            self.m1().dom().contains(p1) && self.m1().dom().contains(p2) && 0 <= i1 < 512 && 0 <= i2
                < 512 && (p1 != p2 || i1 != i2) && (#[trigger] self.m1()[p1][i1]).spec_is_valid()
                && (#[trigger] self.m1()[p2][i2]).spec_is_valid() ==> self.m1()[p1][i1].spec_ppn()
                != self.m1()[p2][i2].spec_ppn())
    }

    /// Leaf entries target pages that still shift into addresses.
    spec fn l2_wf(&self) -> bool {
        forall|p: int, i: int|
            self.m2().dom().contains(p) && 0 <= i < 512 ==> (#[trigger] self.m2()[p][i]).spec_ppn()
                <= usize::MAX / 4096
    }

    /// Well-formedness of the whole space.
    pub closed spec fn wf(&self) -> bool {
        &&& usize::MAX == u64::MAX
        &&& Self::sframes_wf(self.l1@)
        &&& Self::sframes_wf(self.l2@)
        &&& self.root_wf()
        &&& self.l1_wf()
        &&& self.inj_wf()
        &&& self.l2_wf()
    }

    pub fn new() -> (r: Self)
        requires
            usize::MAX == u64::MAX,
        ensures
            r.wf(),
            r.spec_root_ppn() is None,
            r.spec_areas() == Seq::<Area>::empty(),
            r.spec_singles() == Seq::<(VPN, PTEFlags)>::empty(),
            r.spec_owned() == Seq::<PageNumber>::empty(),
            forall|v: usize| #[trigger] r.spec_leaf(v) is None,
    {
        AddressSpace {
            root_ppn: None,
            root: None,
            l1: Vec::new(),
            l2: Vec::new(),
            map_area: Vec::new(),
            single_vpn: Vec::new(),
            page_manager: InternalManager::new(),
        }
    }

    pub fn root_ppn(&self) -> (r: Option<PageNumber>)
        ensures
            match r {
                Some(p) => self.spec_root_ppn() == Some(p.0 as int),
                None => self.spec_root_ppn() is None,
            },
    {
        self.root_ppn
    }

    /// A page this space allocated on its own behalf.
    pub open spec fn owned_page(&self, q: int) -> bool {
        exists|j: int| 0 <= j < self.spec_owned().len() && (#[trigger] self.spec_owned()[j]).0 == q
    }

    /// Returns every frame this space allocated to the allocator, exactly
    /// once each: afterwards the managed memory holds the frames it held
    /// before, minus every page this space owned.  The space is consumed.
    pub fn recycle<M: PageManager>(self, mgr: &mut M)
        requires
            old(mgr).inv(),
        ensures
            final (mgr).inv(),
            forall|q: int|
                #[trigger] final (mgr).mem().dom().contains(q) <==> (old(mgr).mem().dom().contains(
                    q,
                ) && !self.owned_page(q)),
            forall|q: int|
                final (mgr).mem().dom().contains(q) ==> #[trigger] final (mgr).mem()[q] == old(
                    mgr,
                ).mem()[q],
    {
        let ghost pre = self;
        let ghost mem0 = mgr.mem();
        let mut j: usize = 0;
        let n = self.page_manager.ppn_set.len();
        while j < n
            invariant
                self == pre,
                mem0 == old(mgr).mem(),
                mgr.inv(),
                n == pre.spec_owned().len(),
                j <= n,
                forall|q: int|
                    #[trigger] mgr.mem().dom().contains(q) <==> (mem0.dom().contains(q)
                        && !owned_upto(&pre, j as int, q)),
                forall|q: int|
                    mgr.mem().dom().contains(q) ==> #[trigger] mgr.mem()[q] == mem0[q],
            decreases n - j,
        {
            let p = self.page_manager.ppn_set[j];
            let ghost memj = mgr.mem();
            self.page_manager.dealloc(p, mgr);
            proof {
                assert(mgr.mem() == memj.remove(p.0 as int));
                assert forall|q: int| #[trigger]
                    mgr.mem().dom().contains(q) <==> (mem0.dom().contains(q) && !owned_upto(
                        &pre,
                        j as int + 1,
                        q,
                    )) by {
                    if owned_upto(&pre, j as int + 1, q) {
                        let j2 = choose|j2: int|
                            0 <= j2 < j + 1 && j2 < pre.spec_owned().len() && (
                            #[trigger] pre.spec_owned()[j2]).0 == q;
                        if j2 < j {
                            assert(owned_upto(&pre, j as int, q));
                        } else {
                            assert(q == p.0 as int);
                        }
                    }
                    if !mgr.mem().dom().contains(q) && mem0.dom().contains(q) {
                        if q == p.0 as int {
                            assert(pre.spec_owned()[j as int].0 == q);
                            assert(owned_upto(&pre, j as int + 1, q));
                        } else {
                            assert(owned_upto(&pre, j as int, q));
                            assert(owned_upto(&pre, j as int + 1, q));
                        }
                    }
                }
            }
            j = j + 1;
        }
        proof {
            assert forall|q: int| owned_upto(&pre, n as int, q) <==> pre.owned_page(q) by {}
        }
    }

    /// The position of the leaf-level frame at `ppn`.
    fn find_l2(&self, ppn: usize) -> (r: Option<usize>)
        ensures
            match r {
                Some(j) => j < self.l2@.len() && self.l2@[j as int].ppn == ppn,
                None => !sf_contains(self.l2@, ppn as int),
            },
    {
        let mut j: usize = 0;
        while j < self.l2.len()
            invariant
                j <= self.l2@.len(),
                forall|a: int| 0 <= a < j ==> (#[trigger] self.l2@[a]).ppn != ppn,
            decreases self.l2@.len() - j,
        {
            if self.l2[j].ppn == ppn {
                return Some(j);
            }
            j = j + 1;
        }
        proof {
            if sf_contains(self.l2@, ppn as int) {
                let a = sf_index(self.l2@, ppn as int);
                assert(0 <= a < self.l2@.len() && self.l2@[a].ppn == ppn);
                assert(false);
            }
        }
        None
    }

    /// The position of the middle-level frame at `ppn`.
    fn find_l1(&self, ppn: usize) -> (r: Option<usize>)
        ensures
            match r {
                Some(j) => j < self.l1@.len() && self.l1@[j as int].ppn == ppn,
                None => !sf_contains(self.l1@, ppn as int),
            },
    {
        let mut j: usize = 0;
        while j < self.l1.len()
            invariant
                j <= self.l1@.len(),
                forall|a: int| 0 <= a < j ==> (#[trigger] self.l1@[a]).ppn != ppn,
            decreases self.l1@.len() - j,
        {
            if self.l1[j].ppn == ppn {
                return Some(j);
            }
            j = j + 1;
        }
        proof {
            if sf_contains(self.l1@, ppn as int) {
                let a = sf_index(self.l1@, ppn as int);
                assert(0 <= a < self.l1@.len() && self.l1@[a].ppn == ppn);
                assert(false);
            }
        }
        None
    }

    /// The three indices of `vpn`, most significant first.
    fn indices(vpn: VPN) -> (r: (usize, usize, usize))
        ensures
            r.0 == vpn_index(vpn.0, 0) && r.0 < 512,
            r.1 == vpn_index(vpn.0, 1) && r.1 < 512,
            r.2 == vpn_index(vpn.0, 2) && r.2 < 512,
    {
        proof {
            vstd::arithmetic::power2::lemma2_to64();
            vstd::bits::lemma_usize_shr_is_div(vpn.0, 18);
            vstd::bits::lemma_usize_shr_is_div(vpn.0, 9);
            let n = vpn.0;
            assert(((n >> 18usize) & 0x1ff) == (n >> 18usize) % 512 && ((n >> 9usize) & 0x1ff) == (n
                >> 9usize) % 512 && (n & 0x1ff) == n % 512) by (bit_vector);
        }
        ((vpn.0 >> 18usize) & 0x1ff, (vpn.0 >> 9usize) & 0x1ff, vpn.0 & 0x1ff)
    }

    /// Reads the leaf entry of `vpn` along valid intermediates.
    fn walk_read(&self, vpn: VPN) -> (r: Option<PageTableEntry>)
        requires
            self.wf(),
        ensures
            r == self.spec_leaf(vpn.0),
    {
        let root = match &self.root {
            Some(f) => f,
            None => {
                return None;
            },
        };
        let (i0, i1, i2) = Self::indices(vpn);
        let e0 = root.table.get(i0);
        if e0.flag().bits() & 0x01 != 0x01 {
            proof {
                crate::entry::lemma_flag_valid_bit(e0);
            }
            return None;
        }
        proof {
            crate::entry::lemma_flag_valid_bit(e0);
        }
        let p1 = e0.ppn();
        let vj = match self.find_l1(p1.0) {
            Some(vj) => vj,
            None => {
                proof {
                    assert(false);
                }
                return None;
            },
        };
        proof {
            let s = self.l1@;
            assert(sf_contains(s, p1.0 as int));
            let a = sf_index(s, p1.0 as int);
            assert(0 <= a < s.len() && s[a].ppn == p1.0);
            assert(a == vj as int);
        }
        let e1 = self.l1[vj].table.get(i1);
        if e1.flag().bits() & 0x01 != 0x01 {
            proof {
                crate::entry::lemma_flag_valid_bit(e1);
            }
            return None;
        }
        proof {
            crate::entry::lemma_flag_valid_bit(e1);
        }
        let p2 = e1.ppn();
        let wj = match self.find_l2(p2.0) {
            Some(wj) => wj,
            None => {
                proof {
                    assert(false);
                }
                return None;
            },
        };
        proof {
            let s = self.l2@;
            assert(sf_contains(s, p2.0 as int));
            let a = sf_index(s, p2.0 as int);
            assert(0 <= a < s.len() && s[a].ppn == p2.0);
            assert(a == wj as int);
        }
        Some(self.l2[wj].table.get(i2))
    }

    /// The flag byte of the leaf installed for `vpn`, if its path is
    /// complete: what a table dump prints beside each page.
    pub fn leaf_flags(&self, vpn: VPN) -> (r: Option<PTEFlags>)
        requires
            self.wf(),
        ensures
            match r {
                Some(f) => self.spec_leaf(vpn.0) is Some && f.0 == self.spec_leaf(
                    vpn.0,
                )->Some_0.spec_flag_bits(),
                None => self.spec_leaf(vpn.0) is None,
            },
    {
        match self.walk_read(vpn) {
            Some(e) => Some(e.flag()),
            None => None,
        }
    }

    /// Translates a virtual page to the physical page of its valid leaf.
    pub fn vpn_to_ppn(&self, vpn: VPN) -> (r: Option<PPN>)
        requires
            self.wf(),
        ensures
            match r {
                Some(p) => self.spec_vpn_to_ppn(vpn.0) == Some(p.0 as int),
                None => self.spec_vpn_to_ppn(vpn.0) is None,
            },
    {
        match self.walk_read(vpn) {
            Some(e) => {
                let fl = e.flag();
                if fl.bits() & 0x01 == 0x01 {
                    proof {
                        crate::entry::lemma_flag_valid_bit(e);
                    }
                    Some(e.ppn())
                } else {
                    proof {
                        crate::entry::lemma_flag_valid_bit(e);
                    }
                    None
                }
            },
            None => None,
        }
    }

    /// Translates a whole virtual address, keeping its offset in the page.
    pub fn virtual_to_physical(&self, virtual_address: usize) -> (r: Option<usize>)
        requires
            self.wf(),
        ensures
            match r {
                Some(pa) => self.spec_vpn_to_ppn((virtual_address / 4096) as usize) is Some && pa
                    == self.spec_vpn_to_ppn((virtual_address / 4096) as usize)->Some_0 * 4096 + (
                virtual_address as int % 4096),
                None => self.spec_vpn_to_ppn((virtual_address / 4096) as usize) is None,
            },
    {
        let vpn = PageNumber::floor_address(virtual_address);
        match self.vpn_to_ppn(vpn) {
            Some(ppn) => {
                proof {
                    let b = virtual_address;
                    assert((b & 0xfff) == b % 4096 && b % 4096 < 4096) by (bit_vector);
                    assert(ppn.0 * 4096 + 4095 <= usize::MAX) by (nonlinear_arith)
                        requires
                            ppn.0 <= usize::MAX / 4096,
                    ;
                }
                Some(ppn.to_address() + (virtual_address & 0xfff))
            },
            None => None,
        }
    }

    /// The first area whose range contains `vpn`.
    pub fn find_area(&self, vpn: VPN) -> (r: Option<&Area>)
        ensures
            match r {
                Some(a) => exists|j: int|
                    0 <= j < self.spec_areas().len() && *a == self.spec_areas()[j]
                        && self.spec_areas()[j].spec_vpn_start() <= vpn.0
                        < self.spec_areas()[j].spec_vpn_end(),
                None => forall|j: int|
                    0 <= j < self.spec_areas().len() ==> !((#[trigger] self.spec_areas()[j]).spec_vpn_start()
                        <= vpn.0 < self.spec_areas()[j].spec_vpn_end()),
            },
    {
        let mut j: usize = 0;
        while j < self.map_area.len()
            invariant
                j <= self.map_area@.len(),
                forall|a: int|
                    0 <= a < j ==> !((#[trigger] self.map_area@[a]).spec_vpn_start() <= vpn.0
                        < self.map_area@[a].spec_vpn_end()),
            decreases self.map_area@.len() - j,
        {
            let area = &self.map_area[j];
            if area.vpn_start.0 <= vpn.0 && vpn.0 < area.vpn_end.0 {
                proof {
                    let jj = j as int;
                    assert(self.spec_areas()[jj].spec_vpn_start() <= vpn.0
                        < self.spec_areas()[jj].spec_vpn_end());
                }
                return Some(&self.map_area[j]);
            }
            j = j + 1;
        }
        None
    }
}

proof fn lemma_sf_at(s: Seq<SpaceFrame>, j: int)
    requires
        forall|a: int, b: int| 0 <= a < b < s.len() ==> #[trigger] s[a].ppn != #[trigger] s[b].ppn,
        0 <= j < s.len(),
    ensures
        sframe_map(s).dom().contains(s[j].ppn as int),
        sframe_map(s)[s[j].ppn as int] == s[j].table.entries@,
{
    assert(sf_contains(s, s[j].ppn as int));
    let a = sf_index(s, s[j].ppn as int);
    assert(0 <= a < s.len() && s[a].ppn == s[j].ppn);
    if a != j {
        assert(false);
    }
}

proof fn lemma_sf_push(s: Seq<SpaceFrame>, f: SpaceFrame)
    requires
        forall|a: int, b: int| 0 <= a < b < s.len() ==> #[trigger] s[a].ppn != #[trigger] s[b].ppn,
        !sf_contains(s, f.ppn as int),
    ensures
        sframe_map(s.push(f)) == sframe_map(s).insert(f.ppn as int, f.table.entries@),
        forall|a: int, b: int|
            0 <= a < b < s.push(f).len() ==> #[trigger] s.push(f)[a].ppn != #[trigger] s.push(
                f,
            )[b].ppn,
{
    let t = s.push(f);
    assert forall|a: int, b: int| 0 <= a < b < t.len() implies #[trigger] t[a].ppn
        != #[trigger] t[b].ppn by {
        if b == s.len() {
            assert(t[a] == s[a]);
            if t[a].ppn == f.ppn {
                assert(sf_contains(s, f.ppn as int));
                assert(false);
            }
        }
    }
    assert forall|p: int| #[trigger]
        sframe_map(t).dom().contains(p) <==> sframe_map(s).insert(
            f.ppn as int,
            f.table.entries@,
        ).dom().contains(p) by {
        if sf_contains(t, p) {
            let a = sf_index(t, p);
            assert(0 <= a < t.len() && t[a].ppn == p);
            if a < s.len() {
                assert(s[a].ppn == p);
                assert(sf_contains(s, p));
            }
        }
        if sf_contains(s, p) {
            let a = sf_index(s, p);
            assert(0 <= a < s.len() && s[a].ppn == p);
            assert(t[a].ppn == p);
            assert(sf_contains(t, p));
        }
        if p == f.ppn {
            assert(t[s.len() as int].ppn == p);
            assert(sf_contains(t, p));
        }
    }
    assert forall|p: int| sframe_map(t).dom().contains(p) implies sframe_map(t)[p] == sframe_map(
        s,
    ).insert(f.ppn as int, f.table.entries@)[p] by {
        let a = sf_index(t, p);
        assert(0 <= a < t.len() && t[a].ppn == p);
        assert(sframe_map(t)[p] == t[a].table.entries@);
        if p == f.ppn {
            if a != s.len() {
                assert(s[a].ppn == p);
                assert(sf_contains(s, p));
                assert(false);
            }
        } else {
            assert(a < s.len());
            assert(t[a] == s[a]);
            lemma_sf_at(s, a);
        }
    }
    assert(sframe_map(t) =~= sframe_map(s).insert(f.ppn as int, f.table.entries@));
}

proof fn lemma_sf_update(s: Seq<SpaceFrame>, j: int, f: SpaceFrame)
    requires
        forall|a: int, b: int| 0 <= a < b < s.len() ==> #[trigger] s[a].ppn != #[trigger] s[b].ppn,
        0 <= j < s.len(),
        f.ppn == s[j].ppn,
    ensures
        sframe_map(s.update(j, f)) == sframe_map(s).insert(f.ppn as int, f.table.entries@),
        forall|a: int, b: int|
            0 <= a < b < s.update(j, f).len() ==> #[trigger] s.update(j, f)[a].ppn
                != #[trigger] s.update(j, f)[b].ppn,
{
    let t = s.update(j, f);
    assert(forall|a: int| 0 <= a < t.len() ==> #[trigger] t[a].ppn == s[a].ppn);
    assert forall|p: int| #[trigger]
        sframe_map(t).dom().contains(p) <==> sframe_map(s).insert(
            f.ppn as int,
            f.table.entries@,
        ).dom().contains(p) by {
        if sf_contains(t, p) {
            let a = sf_index(t, p);
            assert(0 <= a < t.len() && t[a].ppn == p);
            assert(s[a].ppn == p);
            assert(sf_contains(s, p));
        }
        if sf_contains(s, p) {
            let a = sf_index(s, p);
            assert(0 <= a < s.len() && s[a].ppn == p);
            assert(t[a].ppn == p);
            assert(sf_contains(t, p));
        }
        if p == f.ppn {
            assert(t[j].ppn == p);
            assert(sf_contains(t, p));
        }
    }
    assert forall|p: int| sframe_map(t).dom().contains(p) implies sframe_map(t)[p] == sframe_map(
        s,
    ).insert(f.ppn as int, f.table.entries@)[p] by {
        let a = sf_index(t, p);
        assert(0 <= a < t.len() && t[a].ppn == p);
        assert(sframe_map(t)[p] == t[a].table.entries@);
        if p == f.ppn {
            if a != j {
                assert(s[a].ppn == s[j].ppn);
                assert(false);
            }
        } else {
            assert(a != j);
            assert(t[a] == s[a]);
            lemma_sf_at(s, a);
        }
    }
    assert(sframe_map(t) =~= sframe_map(s).insert(f.ppn as int, f.table.entries@));
}

impl AddressSpace {
    /// Distinct pages route to distinct leaf slots.
    pub proof fn lemma_routes_distinct(&self, v1: usize, v2: usize)
        requires
            self.wf(),
            v1 != v2,
            v1 < 0x800_0000,
            v2 < 0x800_0000,
            self.spec_route(v1) is Some,
            self.spec_route(v2) is Some,
        ensures
            self.spec_route(v1) != self.spec_route(v2),
    {
        if vpn_index(v1, 0) == vpn_index(v2, 0) && vpn_index(v1, 1) == vpn_index(v2, 1)
            && vpn_index(v1, 2) == vpn_index(v2, 2) {
            assert(v1 as int % 512 == v2 as int % 512 && (v1 as int / 512) % 512 == (v2 as int
                / 512) % 512 && (v1 as int / 0x40000) % 512 == (v2 as int / 0x40000) % 512);
            assert(false) by (bit_vector)
                requires
                    v1 as int % 512 == v2 as int % 512,
                    (v1 as int / 512) % 512 == (v2 as int / 512) % 512,
                    (v1 as int / 0x40000) % 512 == (v2 as int / 0x40000) % 512,
                    v1 != v2,
                    v1 < 0x800_0000usize,
                    v2 < 0x800_0000usize,
            ;
        }
    }

    /// Whether `ppn` identifies no table of this space.
    fn space_ppn_fresh(&self, ppn: usize) -> (r: bool)
        ensures
            r == (!sf_contains(self.l1@, ppn as int) && !sf_contains(self.l2@, ppn as int) && (
            match self.spec_root_ppn() {
                Some(p) => p != ppn,
                None => true,
            })),
    {
        if let Some(rp) = self.root_ppn {
            if rp.0 == ppn {
                return false;
            }
        }
        if self.find_l1(ppn).is_some() {
            proof {
                assert(sf_contains(self.l1@, ppn as int));
            }
            return false;
        }
        if self.find_l2(ppn).is_some() {
            proof {
                assert(sf_contains(self.l2@, ppn as int));
            }
            return false;
        }
        true
    }

    /// Allocates the root table if the space has none yet.
    pub fn check_root<M: PageManager>(&mut self, mgr: &mut M) -> (r: Result<(), PTableError>)
        requires
            old(self).wf(),
            old(mgr).inv(),
        ensures
            final (self).wf(),
            final (mgr).inv(),
            crate::bits64::mem_grown(old(mgr).mem(), final (mgr).mem()),
            final (self).spec_areas() == old(self).spec_areas(),
            final (self).spec_singles() == old(self).spec_singles(),
            final (self).m1() == old(self).m1(),
            final (self).m2() == old(self).m2(),
            forall|j: int|
                0 <= j < old(self).spec_owned().len() ==> #[trigger] final (self).spec_owned()[j]
                    == old(self).spec_owned()[j],
            old(self).spec_owned().len() <= final (self).spec_owned().len(),
            old(self).spec_root_ppn() is Some ==> r is Ok,
            match r {
                Ok(()) => final (self).spec_root_ppn() is Some && (old(self).spec_root_ppn()
                    is Some ==> *final (self) == *old(self) && *final (mgr) == *old(mgr)) && (forall|
                    v: usize,
                |
                    #[trigger] final (self).spec_leaf(v) == old(self).spec_leaf(v)) && (forall|v: usize|
                    #[trigger] final (self).spec_route(v) == old(self).spec_route(v)) && (forall|
                    v: usize,
                |
                    #[trigger] final (self).spec_vpn_to_ppn(v) == old(self).spec_vpn_to_ppn(v)),
                Err(e) => e == PTableError::AllocError && final (self).spec_root_ppn() == old(
                    self,
                ).spec_root_ppn() && final (self).spec_owned() == old(self).spec_owned() && (forall|
                    v: usize,
                |
                    #[trigger] final (self).spec_leaf(v) == old(self).spec_leaf(v)) && (forall|
                    v: usize,
                |
                    #[trigger] final (self).spec_route(v) == old(self).spec_route(v)) && (forall|
                    v: usize,
                |
                    #[trigger] final (self).spec_vpn_to_ppn(v) == old(self).spec_vpn_to_ppn(v)),
            },
    {
        if self.root_ppn.is_some() {
            return Ok(());
        }
        let p = match self.page_manager.alloc_frame(mgr) {
            Some(p) => p,
            None => {
                proof {
                    assert(self.root == old(self).root && self.l1 == old(self).l1 && self.l2 == old(
                        self,
                    ).l2 && self.root_ppn == old(self).root_ppn);
                    assert(self.m1() == old(self).m1() && self.m2() == old(self).m2());
                    assert forall|v: usize| #[trigger]
                        self.spec_route(v) == old(self).spec_route(v) by {}
                    assert forall|v: usize| #[trigger]
                        self.spec_leaf(v) == old(self).spec_leaf(v) by {}
                    assert forall|v: usize| #[trigger]
                        self.spec_vpn_to_ppn(v) == old(self).spec_vpn_to_ppn(v) by {}
                    assert(Self::sframes_wf(self.l1@));
                    assert(Self::sframes_wf(self.l2@));
                    assert(self.root_wf());
                    assert(self.l1_wf());
                    assert(self.inj_wf());
                    assert(self.l2_wf());
                    assert(self.wf());
                }
                return Err(PTableError::AllocError);
            },
        };
        let table = PageTable::new();
        self.root = Some(SpaceFrame { ppn: p.0, table });
        self.root_ppn = Some(p);
        proof {
            assert forall|i: int| 0 <= i < 512 implies Self::pointer_entry_ok(
                #[trigger] self.m0()[i],
                self.m1(),
            ) by {
                assert(self.m0()[i].bits() == 0);
            }
            assert(Self::sframes_wf(self.l1@));
            assert(Self::sframes_wf(self.l2@));
            assert(self.root_wf());
            assert(self.l1_wf()) by {
                assert(self.m1() == old(self).m1());
            }
            assert(self.inj_wf());
            assert(self.l2_wf()) by {
                assert(self.m2() == old(self).m2());
            }
            assert(self.wf());
            assert forall|v: usize| #[trigger]
                self.spec_leaf(v) == old(self).spec_leaf(v) by {
                let e0 = self.m0()[vpn_index(v, 0)];
                assert(e0.bits() == 0);
                assert(!e0.spec_is_valid());
            }
            assert forall|v: usize| #[trigger]
                self.spec_route(v) == old(self).spec_route(v) by {
                let e0 = self.m0()[vpn_index(v, 0)];
                assert(e0.bits() == 0);
                assert(!e0.spec_is_valid());
            }
            assert forall|v: usize| #[trigger]
                self.spec_vpn_to_ppn(v) == old(self).spec_vpn_to_ppn(v) by {
                assert(self.spec_leaf(v) == old(self).spec_leaf(v));
            }
        }
        Ok(())
    }
}

impl AddressSpace {
    /// Walks to the leaf slot of `vpn`, creating the missing intermediate
    /// tables, and returns the leaf frame's position and the index inside
    /// it.
    #[verifier::rlimit(100)]
    #[verifier::spinoff_prover]
    fn walk_create<M: PageManager>(&mut self, vpn: VPN, mgr: &mut M) -> (r: Result<
        (usize, usize),
        PTableError,
    >)
        requires
            old(self).wf(),
            old(mgr).inv(),
            old(self).spec_root_ppn() is Some,
        ensures
            final (self).wf(),
            final (mgr).inv(),
            crate::bits64::mem_grown(old(mgr).mem(), final (mgr).mem()),
            final (self).spec_root_ppn() == old(self).spec_root_ppn(),
            final (self).spec_areas() == old(self).spec_areas(),
            final (self).spec_singles() == old(self).spec_singles(),
            forall|j: int|
                0 <= j < old(self).spec_owned().len() ==> #[trigger] final (self).spec_owned()[j]
                    == old(self).spec_owned()[j],
            old(self).spec_owned().len() <= final (self).spec_owned().len(),
            forall|v2: usize|
                #[trigger] old(self).spec_route(v2) is Some ==> final (self).spec_route(v2) == old(
                    self,
                ).spec_route(v2) && final (self).spec_leaf(v2) == old(self).spec_leaf(v2),
            forall|v2: usize|
                #[trigger] final (self).spec_vpn_to_ppn(v2) == old(self).spec_vpn_to_ppn(v2),
            old(self).spec_route(vpn.0) is Some ==> r is Ok,
            match r {
                Ok((w, i2)) => {
                    &&& w < final (self).spec_l2_len()
                    &&& i2 == vpn_index(vpn.0, 2)
                    &&& i2 < 512
                    &&& final (self).spec_route(vpn.0) == Some(
                        (final (self).spec_l2_ppn(w as int), i2 as int),
                    )
                },
                Err(e) => e == PTableError::AllocError,
            },
    {
        let (i0, i1, i2) = Self::indices(vpn);
        let e0 = match &self.root {
            Some(f) => f.table.get(i0),
            None => {
                proof {
                    assert(false);
                }
                return Err(PTableError::AllocError);
            },
        };
        proof {
            crate::entry::lemma_flag_valid_bit(e0);
        }
        let t1: usize;
        if e0.flag().bits() & 0x01 != 0x01 {
            // the slot is empty: hang a fresh middle table under it
            proof {
                assert(e0.bits() == 0);
            }
            let p1 = match self.page_manager.alloc_frame(mgr) {
                Some(p) => p,
                None => {
                    proof {
                        lemma_space_unchanged_wf(*old(self), *self);
                    }
                    return Err(PTableError::AllocError);
                },
            };
            if !self.space_ppn_fresh(p1.0) {
                proof {
                    lemma_space_unchanged_wf(*old(self), *self);
                }
                return Err(PTableError::AllocError);
            }
            let ghost pre1 = *self;
            let table = PageTable::new();
            t1 = self.l1.len();
            self.l1.push(SpaceFrame { ppn: p1.0, table });
            proof {
                lemma_sf_push(pre1.l1@, self.l1@[t1 as int]);
            }
            let ghost pre2 = *self;
            let ptr = PageTableEntry::new(p1, PTEFlags(0x01));
            match &mut self.root {
                Some(f) => {
                    f.table.set(i0, ptr);
                },
                None => {
                    proof {
                        assert(false);
                    }
                },
            }
            proof {
                crate::entry::lemma_flag_valid_bit(ptr);
                assert(self.m0() =~= pre2.m0().update(i0 as int, ptr));
                assert(self.m1() == pre2.m1());
                assert(self.l1@[t1 as int].table.entries@ =~= zero_entries()) by {
                    assert(forall|i: int|
                        0 <= i < 512 ==> (#[trigger] self.l1@[t1 as int].table.entries@[i]).bits()
                            == 0);
                }
                assert(self.m1() == pre1.m1().insert(p1.0 as int, zero_entries()));
                lemma_sf_at(self.l1@, t1 as int);
                assert(self.m1().dom().contains(p1.0 as int));
                assert forall|i: int| 0 <= i < 512 implies Self::pointer_entry_ok(
                    #[trigger] self.m0()[i],
                    self.m1(),
                ) by {
                    if i != i0 {
                        assert(self.m0()[i] == pre1.m0()[i]);
                        assert(Self::pointer_entry_ok(pre1.m0()[i], pre1.m1()));
                    }
                }
                assert forall|p: int, i: int|
                    self.m1().dom().contains(p) && 0 <= i < 512 implies Self::pointer_entry_ok(
                    #[trigger] self.m1()[p][i],
                    self.m2(),
                ) by {
                    if p == p1.0 as int {
                        assert(self.m1()[p][i].bits() == 0);
                    } else {
                        assert(pre1.m1().dom().contains(p));
                        assert(self.m1()[p] == pre1.m1()[p]);
                        assert(Self::pointer_entry_ok(pre1.m1()[p][i], pre1.m2()));
                    }
                }
                assert forall|i: int, j: int|
                    0 <= i < j < 512 && (#[trigger] self.m0()[i]).spec_is_valid() && (
                #[trigger] self.m0()[j]).spec_is_valid() implies self.m0()[i].spec_ppn()
                    != self.m0()[j].spec_ppn() by {
                    if i != i0 && j != i0 {
                        assert(self.m0()[i] == pre1.m0()[i] && self.m0()[j] == pre1.m0()[j]);
                    } else {
                        let other = if i == i0 {
                            j
                        } else {
                            i
                        };
                        assert(self.m0()[other] == pre1.m0()[other]);
                        assert(Self::pointer_entry_ok(pre1.m0()[other], pre1.m1()));
                        assert(pre1.m1().dom().contains(pre1.m0()[other].spec_ppn()));
                        assert(!sf_contains(pre1.l1@, p1.0 as int));
                    }
                }
                assert forall|p1x: int, i1x: int, p2x: int, i2x: int|
                    self.m1().dom().contains(p1x) && self.m1().dom().contains(p2x) && 0 <= i1x < 512
                        && 0 <= i2x < 512 && (p1x != p2x || i1x != i2x) && (
                    #[trigger] self.m1()[p1x][i1x]).spec_is_valid() && (
                    #[trigger] self.m1()[p2x][i2x]).spec_is_valid() implies self.m1()[p1x][i1x].spec_ppn()
                    != self.m1()[p2x][i2x].spec_ppn() by {
                    if p1x != p1.0 as int && p2x != p1.0 as int {
                        assert(self.m1()[p1x] == pre1.m1()[p1x] && self.m1()[p2x]
                            == pre1.m1()[p2x]);
                    } else {
                        if p1x == p1.0 as int {
                            assert(self.m1()[p1x][i1x].bits() == 0);
                        }
                        if p2x == p1.0 as int {
                            assert(self.m1()[p2x][i2x].bits() == 0);
                        }
                    }
                }
                assert((p1.0 as u64) < 0x1000_0000_0000u64);
                assert(p1.0 <= usize::MAX / 1024);
                assert(AddressSpace::sframes_wf(self.l1@));
                assert(AddressSpace::sframes_wf(self.l2@)) by {
                    assert(self.l2@ == pre1.l2@);
                }
                assert(self.root_wf());
                assert(self.l2_wf()) by {
                    lemma_space_unchanged_wf(*old(self), pre1);
                    assert(self.m2() == pre1.m2());
                    assert forall|p: int, i: int|
                        self.m2().dom().contains(p) && 0 <= i < 512 implies (
                    #[trigger] self.m2()[p][i]).spec_ppn() <= usize::MAX / 4096 by {
                        assert(pre1.m2().dom().contains(p));
                        assert(pre1.m2()[p][i].spec_ppn() <= usize::MAX / 4096);
                    }
                }
                assert(self.wf());
                assert forall|v2: usize|
                    (#[trigger] self.spec_route(v2)) == pre1.spec_route(v2) && self.spec_leaf(v2)
                        == pre1.spec_leaf(v2) by {
                    let f0 = pre1.m0()[vpn_index(v2, 0)];
                    if vpn_index(v2, 0) == i0 as int {
                        assert(f0 == e0 && e0.bits() == 0);
                        assert(!f0.spec_is_valid());
                        assert(pre1.spec_route(v2) is None);
                        let n0 = self.m0()[vpn_index(v2, 0)];
                        assert(n0 == ptr);
                        assert(self.m1()[p1.0 as int][vpn_index(v2, 1)].bits() == 0);
                        crate::entry::lemma_flag_valid_bit(
                            self.m1()[p1.0 as int][vpn_index(v2, 1)],
                        );
                        assert(!self.m1()[p1.0 as int][vpn_index(v2, 1)].spec_is_valid());
                        assert(self.spec_route(v2) is None);
                    } else {
                        assert(self.m0()[vpn_index(v2, 0)] == f0);
                        if f0.spec_is_valid() {
                            assert(pre1.m1().dom().contains(f0.spec_ppn()));
                            assert(self.m1()[f0.spec_ppn()] == pre1.m1()[f0.spec_ppn()]);
                        }
                    }
                }
                assert forall|v2: usize|
                    (#[trigger] self.spec_vpn_to_ppn(v2)) == pre1.spec_vpn_to_ppn(v2) by {
                    assert(self.spec_leaf(v2) == pre1.spec_leaf(v2));
                }
                lemma_space_unchanged_wf(*old(self), pre1);
                assert forall|v2: usize|
                    (#[trigger] self.spec_vpn_to_ppn(v2)) == old(self).spec_vpn_to_ppn(v2) by {
                    assert(self.spec_vpn_to_ppn(v2) == pre1.spec_vpn_to_ppn(v2));
                    assert(pre1.spec_vpn_to_ppn(v2) == old(self).spec_vpn_to_ppn(v2));
                }
            }
        } else {
            let p1 = e0.ppn();
            match self.find_l1(p1.0) {
                Some(w) => {
                    t1 = w;
                },
                None => {
                    proof {
                        assert(false);
                    }
                    return Err(PTableError::AllocError);
                },
            }
        }
        proof {
            assert(self.l1@[t1 as int].ppn as int == self.m0()[vpn_index(vpn.0, 0)].spec_ppn());
            lemma_sf_at(self.l1@, t1 as int);
        }
        let ghost mid = *self;
        let e1 = self.l1[t1].table.get(i1);
        proof {
            crate::entry::lemma_flag_valid_bit(e1);
            assert(forall|v2: usize|
                (#[trigger] mid.spec_vpn_to_ppn(v2)) == old(self).spec_vpn_to_ppn(v2));
        }
        if e1.flag().bits() & 0x01 != 0x01 {
            proof {
                assert(e1.bits() == 0);
            }
            let p2 = match self.page_manager.alloc_frame(mgr) {
                Some(p) => p,
                None => {
                    proof {
                        lemma_space_unchanged_wf(mid, *self);
                        assert forall|v2: usize|
                            (#[trigger] self.spec_vpn_to_ppn(v2)) == old(self).spec_vpn_to_ppn(
                            v2,
                        ) by {
                            assert(self.spec_vpn_to_ppn(v2) == mid.spec_vpn_to_ppn(v2));
                        }
                    }
                    return Err(PTableError::AllocError);
                },
            };
            if !self.space_ppn_fresh(p2.0) {
                proof {
                    lemma_space_unchanged_wf(mid, *self);
                    assert forall|v2: usize|
                        (#[trigger] self.spec_vpn_to_ppn(v2)) == old(self).spec_vpn_to_ppn(v2) by {
                        assert(self.spec_vpn_to_ppn(v2) == mid.spec_vpn_to_ppn(v2));
                    }
                }
                return Err(PTableError::AllocError);
            }
            let ghost pre1 = *self;
            let table = PageTable::new();
            let w = self.l2.len();
            self.l2.push(SpaceFrame { ppn: p2.0, table });
            proof {
                lemma_sf_push(pre1.l2@, self.l2@[w as int]);
            }
            let ghost pre2 = *self;
            let ptr = PageTableEntry::new(p2, PTEFlags(0x01));
            let ghost l1_old = self.l1@;
            let mut frame_table = PageTable::new();
            core::mem::swap(&mut frame_table, &mut self.l1[t1].table);
            frame_table.set(i1, ptr);
            core::mem::swap(&mut frame_table, &mut self.l1[t1].table);
            proof {
                crate::entry::lemma_flag_valid_bit(ptr);
                assert(self.l1@ =~= pre2.l1@.update(t1 as int, self.l1@[t1 as int]));
                assert(self.l1@[t1 as int].ppn == pre2.l1@[t1 as int].ppn);
                assert(self.l1@[t1 as int].table.entries@ == pre2.l1@[t1 as int].table.entries@.update(
                    i1 as int,
                    ptr,
                ));
                lemma_sf_update(pre2.l1@, t1 as int, self.l1@[t1 as int]);
                let pp = pre2.l1@[t1 as int].ppn as int;
                assert(self.m1() == pre2.m1().insert(
                    pp,
                    pre2.m1()[pp].update(i1 as int, ptr),
                ));
                assert(self.l2@[w as int].table.entries@ =~= zero_entries()) by {
                    assert(forall|i: int|
                        0 <= i < 512 ==> (#[trigger] self.l2@[w as int].table.entries@[i]).bits()
                            == 0);
                }
                assert(self.m2() == pre1.m2().insert(p2.0 as int, zero_entries()));
                lemma_sf_at(self.l2@, w as int);
                assert(self.m2().dom().contains(p2.0 as int));
                assert(self.m0() == pre1.m0());
                assert forall|i: int| 0 <= i < 512 implies Self::pointer_entry_ok(
                    #[trigger] self.m0()[i],
                    self.m1(),
                ) by {
                    assert(Self::pointer_entry_ok(pre1.m0()[i], pre1.m1()));
                    if self.m0()[i].bits() != 0 {
                        assert(self.m1().dom().contains(self.m0()[i].spec_ppn()));
                    }
                }
                assert forall|p: int, i: int|
                    self.m1().dom().contains(p) && 0 <= i < 512 implies Self::pointer_entry_ok(
                    #[trigger] self.m1()[p][i],
                    self.m2(),
                ) by {
                    if p == pp && i == i1 as int {
                        assert(self.m1()[p][i] == ptr);
                    } else {
                        assert(self.m1()[p][i] == pre1.m1()[p][i]);
                        assert(Self::pointer_entry_ok(pre1.m1()[p][i], pre1.m2()));
                        if pre1.m1()[p][i].bits() != 0 {
                            assert(self.m2().dom().contains(pre1.m1()[p][i].spec_ppn()));
                        }
                    }
                }
                assert forall|p1x: int, i1x: int, p2x: int, i2x: int|
                    self.m1().dom().contains(p1x) && self.m1().dom().contains(p2x) && 0 <= i1x < 512
                        && 0 <= i2x < 512 && (p1x != p2x || i1x != i2x) && (
                    #[trigger] self.m1()[p1x][i1x]).spec_is_valid() && (
                    #[trigger] self.m1()[p2x][i2x]).spec_is_valid() implies self.m1()[p1x][i1x].spec_ppn()
                    != self.m1()[p2x][i2x].spec_ppn() by {
                    if (p1x == pp && i1x == i1 as int) || (p2x == pp && i2x == i2 as int && false) {
                    }
                    if p1x == pp && i1x == i1 as int {
                        let other = self.m1()[p2x][i2x];
                        assert(other == pre1.m1()[p2x][i2x]);
                        assert(Self::pointer_entry_ok(pre1.m1()[p2x][i2x], pre1.m2()));
                        assert(pre1.m2().dom().contains(other.spec_ppn()));
                        assert(!sf_contains(pre1.l2@, p2.0 as int));
                    } else if p2x == pp && i2x == i1 as int {
                        let other = self.m1()[p1x][i1x];
                        assert(other == pre1.m1()[p1x][i1x]);
                        assert(Self::pointer_entry_ok(pre1.m1()[p1x][i1x], pre1.m2()));
                        assert(pre1.m2().dom().contains(other.spec_ppn()));
                        assert(!sf_contains(pre1.l2@, p2.0 as int));
                    } else {
                        assert(self.m1()[p1x][i1x] == pre1.m1()[p1x][i1x]);
                        assert(self.m1()[p2x][i2x] == pre1.m1()[p2x][i2x]);
                    }
                }
                assert forall|p: int, i: int|
                    self.m2().dom().contains(p) && 0 <= i < 512 implies (
                #[trigger] self.m2()[p][i]).spec_ppn() <= usize::MAX / 4096 by {
                    if p == p2.0 as int {
                        assert(self.m2()[p][i].bits() == 0);
                    } else {
                        assert(self.m2()[p][i] == pre1.m2()[p][i]);
                    }
                }
                assert(self.wf());
                assert forall|v2: usize| #[trigger]
                    mid.spec_route(v2) is Some implies self.spec_route(v2) == mid.spec_route(v2)
                    && self.spec_leaf(v2) == mid.spec_leaf(v2) by {
                    let f0 = mid.m0()[vpn_index(v2, 0)];
                    assert(f0.spec_is_valid());
                    assert(self.m0()[vpn_index(v2, 0)] == f0);
                    let f1 = mid.m1()[f0.spec_ppn()][vpn_index(v2, 1)];
                    assert(f1.spec_is_valid());
                    if f0.spec_ppn() == pp && vpn_index(v2, 1) == i1 as int {
                        assert(f1 == e1);
                        assert(false);
                    }
                    assert(self.m1()[f0.spec_ppn()][vpn_index(v2, 1)] == f1);
                    assert(self.m2()[f1.spec_ppn()] == mid.m2()[f1.spec_ppn()]);
                }
                assert(self.spec_route(vpn.0) == Some((p2.0 as int, i2 as int)));
                assert forall|v2: usize|
                    (#[trigger] self.spec_vpn_to_ppn(v2)) == mid.spec_vpn_to_ppn(v2) by {
                    if mid.spec_route(v2) is Some {
                        assert(self.spec_leaf(v2) == mid.spec_leaf(v2));
                    } else {
                        assert(mid.spec_vpn_to_ppn(v2) is None);
                        if self.spec_route(v2) is Some {
                            let g0 = self.m0()[vpn_index(v2, 0)];
                            assert(g0 == mid.m0()[vpn_index(v2, 0)]);
                            assert(g0.spec_is_valid());
                            let pp2 = g0.spec_ppn();
                            assert(mid.m1().dom().contains(pp2));
                            let g1 = self.m1()[pp2][vpn_index(v2, 1)];
                            if pp2 == pp && vpn_index(v2, 1) == i1 as int {
                                assert(g1 == ptr);
                                assert(self.m2()[p2.0 as int][vpn_index(v2, 2)].bits() == 0);
                                crate::entry::lemma_flag_valid_bit(
                                    self.m2()[p2.0 as int][vpn_index(v2, 2)],
                                );
                                assert(self.spec_vpn_to_ppn(v2) is None);
                            } else {
                                assert(g1 == mid.m1()[pp2][vpn_index(v2, 1)]);
                                assert(mid.spec_route(v2) is Some);
                                assert(false);
                            }
                        }
                    }
                }
                assert forall|v2: usize|
                    (#[trigger] self.spec_vpn_to_ppn(v2)) == old(self).spec_vpn_to_ppn(v2) by {
                    assert(mid.spec_vpn_to_ppn(v2) == old(self).spec_vpn_to_ppn(v2));
                }
            }
            Ok((w, i2))
        } else {
            let p2 = e1.ppn();
            match self.find_l2(p2.0) {
                Some(w) => {
                    proof {
                        assert(self.spec_route(vpn.0) == Some((p2.0 as int, i2 as int)));
                        assert(self.spec_l2_ppn(w as int) == p2.0 as int);
                        assert(forall|v2: usize|
                            (#[trigger] self.spec_vpn_to_ppn(v2)) == old(self).spec_vpn_to_ppn(
                            v2,
                        ));
                    }
                    Ok((w, i2))
                },
                None => {
                    proof {
                        assert(false);
                    }
                    Err(PTableError::AllocError)
                },
            }
        }
    }

    pub closed spec fn spec_l2_len(&self) -> int {
        self.l2@.len() as int
    }

    pub closed spec fn spec_l2_ppn(&self, w: int) -> int {
        self.l2@[w].ppn as int
    }

    /// Overwrites the leaf entry at frame position `w`, index `i2`.
    fn set_leaf(&mut self, w: usize, i2: usize, e: PageTableEntry)
        requires
            old(self).wf(),
            w < old(self).spec_l2_len(),
            i2 < 512,
            e.spec_ppn() <= usize::MAX / 4096,
        ensures
            final (self).wf(),
            final (self).spec_root_ppn() == old(self).spec_root_ppn(),
            final (self).spec_areas() == old(self).spec_areas(),
            final (self).spec_singles() == old(self).spec_singles(),
            final (self).spec_owned() == old(self).spec_owned(),
            final (self).spec_l2_len() == old(self).spec_l2_len(),
            forall|x: int|
                0 <= x < old(self).spec_l2_len() ==> #[trigger] final (self).spec_l2_ppn(x) == old(
                    self,
                ).spec_l2_ppn(x),
            forall|v2: usize| #[trigger]
                final (self).spec_route(v2) == old(self).spec_route(v2),
            forall|v2: usize|
                #[trigger] old(self).spec_route(v2) is Some ==> final (self).spec_leaf(v2) == (if
                old(self).spec_route(v2)->Some_0 == (
                    old(self).spec_l2_ppn(w as int),
                    i2 as int,
                ) {
                    Some(e)
                } else {
                    old(self).spec_leaf(v2)
                }),
    {
        let ghost pre = *self;
        let ghost l2_old = self.l2@;
        let mut frame_table = PageTable::new();
        core::mem::swap(&mut frame_table, &mut self.l2[w].table);
        frame_table.set(i2, e);
        core::mem::swap(&mut frame_table, &mut self.l2[w].table);
        proof {
            assert(self.l2@ =~= pre.l2@.update(w as int, self.l2@[w as int]));
            assert(self.l2@[w as int].ppn == pre.l2@[w as int].ppn);
            assert(self.l2@[w as int].table.entries@ == pre.l2@[w as int].table.entries@.update(
                i2 as int,
                e,
            ));
            lemma_sf_update(pre.l2@, w as int, self.l2@[w as int]);
            let pp = pre.l2@[w as int].ppn as int;
            assert(self.m2() == pre.m2().insert(pp, pre.m2()[pp].update(i2 as int, e)));
            lemma_sf_at(pre.l2@, w as int);
            assert(self.m2().dom() =~= pre.m2().dom());
            assert(self.m0() == pre.m0() && self.m1() == pre.m1());
            assert forall|p: int, i: int|
                self.m1().dom().contains(p) && 0 <= i < 512 implies Self::pointer_entry_ok(
                #[trigger] self.m1()[p][i],
                self.m2(),
            ) by {
                assert(Self::pointer_entry_ok(pre.m1()[p][i], pre.m2()));
            }
            assert forall|p: int, i: int|
                self.m2().dom().contains(p) && 0 <= i < 512 implies (
            #[trigger] self.m2()[p][i]).spec_ppn() <= usize::MAX / 4096 by {
                if p == pp && i == i2 as int {
                } else {
                    assert(self.m2()[p][i] == pre.m2()[p][i]);
                }
            }
            assert(self.root_wf()) by {
                if self.root is Some {
                    assert forall|i: int| 0 <= i < 512 implies Self::pointer_entry_ok(
                        #[trigger] self.m0()[i],
                        self.m1(),
                    ) by {
                        assert(Self::pointer_entry_ok(pre.m0()[i], pre.m1()));
                    }
                }
            }
            assert(self.wf());
            assert forall|v2: usize| #[trigger]
                self.spec_route(v2) == pre.spec_route(v2) by {}
            assert forall|v2: usize| #[trigger]
                pre.spec_route(v2) is Some implies self.spec_leaf(v2) == (if pre.spec_route(
                v2,
            )->Some_0 == (pp, i2 as int) {
                Some(e)
            } else {
                pre.spec_leaf(v2)
            }) by {
                let (p, i) = pre.spec_route(v2)->Some_0;
                if p == pp {
                    assert(self.m2()[p] == pre.m2()[p].update(i2 as int, e));
                } else {
                    assert(self.m2()[p] == pre.m2()[p]);
                }
            }
        }
    }
}

/// Sameness of every table field keeps well-formedness, whatever the
/// bookkeeping did.
proof fn lemma_space_unchanged_wf(pre: AddressSpace, post: AddressSpace)
    requires
        pre.wf(),
        post.root == pre.root,
        post.root_ppn == pre.root_ppn,
        post.l1 == pre.l1,
        post.l2 == pre.l2,
    ensures
        post.wf(),
        forall|v2: usize| #[trigger] post.spec_route(v2) == pre.spec_route(v2),
        forall|v2: usize| #[trigger] post.spec_leaf(v2) == pre.spec_leaf(v2),
        forall|v2: usize| #[trigger] post.spec_vpn_to_ppn(v2) == pre.spec_vpn_to_ppn(v2),
{
    assert(post.m0() == pre.m0() && post.m1() == pre.m1() && post.m2() == pre.m2());
    assert(AddressSpace::sframes_wf(post.l1@));
    assert(AddressSpace::sframes_wf(post.l2@));
    assert(post.root_wf());
    assert(post.l1_wf());
    assert(post.inj_wf());
    assert(post.l2_wf());
}


/// The bytes of `data` starting at `off` lie at the start of the frame
/// `ppn`, as far as the data reaches into it.
pub open spec fn page_bytes_laid(m: Map<int, Seq<u8>>, ppn: int, data: Seq<u8>, off: int) -> bool {
    forall|b: int| 0 <= b < 4096 && off + b < data.len() ==> #[trigger] m[ppn][b] == data[off + b]
}

/// The pages freed by the owned-list entries before `j`.
pub open spec fn owned_upto(s: &AddressSpace, j: int, q: int) -> bool {
    exists|j2: int|
        0 <= j2 < j && j2 < s.spec_owned().len() && (#[trigger] s.spec_owned()[j2]).0 == q
}

/// All 512 entries empty: the view of a fresh table.
pub open spec fn zero_entries() -> Seq<PageTableEntry> {
    Seq::new(512, |i: int| PageTableEntry { entry: 0 })
}

impl AddressSpace {
    /// The physical page of the leaf of `v`, for stating distinctness.
    pub open spec fn spec_leaf_ppn(&self, v: usize) -> int {
        self.spec_leaf(v)->Some_0.spec_ppn()
    }

    /// What holds of page `x` of an area once it is mapped: a leaf with the
    /// area's permissions, V as asked, and a backing page from the area's
    /// range or freshly allocated between the two memory states.
    pub open spec fn page_mapped_ok(
        &self,
        area: Area,
        is_valid: bool,
        x: int,
        m_old: Map<int, Seq<u8>>,
        m_new: Map<int, Seq<u8>>,
    ) -> bool {
        let vx = (area.spec_vpn_start() + x) as usize;
        let flbits = (area.spec_permission() | (if is_valid {
            0x01u8
        } else {
            0x00u8
        })) as u8;
        &&& self.spec_leaf(vx) is Some
        &&& self.spec_route(vx) is Some
        &&& self.spec_leaf(vx)->Some_0.spec_flag_bits() == flbits
        &&& self.spec_leaf(vx)->Some_0.spec_is_valid() == is_valid
        &&& self.spec_leaf_ppn(vx) <= usize::MAX / 4096
        &&& match area.spec_ppn_start() {
            Some(p) => self.spec_leaf_ppn(vx) == p + x,
            None => !m_old.dom().contains(self.spec_leaf_ppn(vx)) && m_new.dom().contains(
                self.spec_leaf_ppn(vx),
            ),
        }
    }

    /// The first `n` pages of the area are mapped as asked.
    pub open spec fn pages_done(
        &self,
        area: Area,
        is_valid: bool,
        n: int,
        m_old: Map<int, Seq<u8>>,
        m_new: Map<int, Seq<u8>>,
    ) -> bool {
        forall|x0: int|
            0 <= x0 < n ==> #[trigger] self.page_mapped_ok(area, is_valid, x0, m_old, m_new)
    }

    /// Installs one leaf per page of the area: at the area's physical range
    /// if it has one, else at freshly allocated frames.  The leaves carry
    /// the area's permission bits, with V set when `is_valid`.  Returns the
    /// backing pages in order when `collect` asks for them.
    #[verifier::rlimit(100)]
    #[verifier::spinoff_prover]
    fn map<M: PageManager>(
        &mut self,
        map_area: &Area,
        collect: bool,
        is_valid: bool,
        mgr: &mut M,
    ) -> (r: Result<Vec<PageNumber>, PTableError>)
        requires
            old(self).wf(),
            old(mgr).inv(),
            map_area.wf(),
            map_area.spec_vpn_end() <= 0x800_0000,
            match map_area.spec_ppn_start() {
                Some(p) => p + (map_area.spec_vpn_end() - map_area.spec_vpn_start()) <= usize::MAX
                    / 4096,
                None => true,
            },
        ensures
            final (self).wf(),
            final (mgr).inv(),
            crate::bits64::mem_grown(old(mgr).mem(), final (mgr).mem()),
            final (self).spec_areas() == old(self).spec_areas(),
            final (self).spec_singles() == old(self).spec_singles(),
            old(self).spec_root_ppn() is Some ==> final (self).spec_root_ppn() == old(
                self,
            ).spec_root_ppn(),
            forall|j: int|
                0 <= j < old(self).spec_owned().len() ==> #[trigger] final (self).spec_owned()[j]
                    == old(self).spec_owned()[j],
            old(self).spec_owned().len() <= final (self).spec_owned().len(),
            forall|v2: usize|
                #[trigger] old(self).spec_route(v2) is Some ==> final (self).spec_route(v2) == old(
                    self,
                ).spec_route(v2),
            match r {
                Ok(v) => ({
                    let start = map_area.spec_vpn_start();
                    let len = map_area.spec_vpn_end() - map_area.spec_vpn_start();
                    &&& final (self).spec_root_ppn() is Some
                    &&& v@.len() == (if collect {
                        len
                    } else {
                        0
                    })
                    &&& final (self).pages_done(
                        *map_area,
                        is_valid,
                        len,
                        old(mgr).mem(),
                        final (mgr).mem(),
                    )
                    &&& (map_area.spec_ppn_start() is None ==> (forall|x1: int, x2: int|
                        0 <= x1 < x2 < len ==> #[trigger] final (self).spec_leaf_ppn(
                            ((start + x1) as usize),
                        ) != #[trigger] final (self).spec_leaf_ppn(((start + x2) as usize))))
                    &&& (forall|v2: usize|
                        v2 < 0x800_0000 && !(start <= v2 < start + len) && #[trigger] old(
                            self,
                        ).spec_route(v2) is Some ==> final (self).spec_leaf(v2) == old(
                            self,
                        ).spec_leaf(v2))
                    &&& (forall|v2: usize|
                        v2 < 0x800_0000 && !(start <= v2 < start + len)
                            ==> #[trigger] final (self).spec_vpn_to_ppn(v2) == old(
                            self,
                        ).spec_vpn_to_ppn(v2))
                }),
                Err(e) => e == PTableError::AllocError,
            },
            (map_area.spec_ppn_start() is Some && old(self).spec_root_ppn() is Some && (forall|
                x: int,
            |
                0 <= x < map_area.spec_vpn_end() - map_area.spec_vpn_start()
                    ==> #[trigger] old(self).spec_route(((map_area.spec_vpn_start() + x) as usize))
                    is Some)) ==> r is Ok,
    {
        let ghost mgr0 = *mgr;
        match self.check_root(mgr) {
            Ok(()) => {},
            Err(e) => {
                return Err(e);
            },
        }
        let ghost pre = *self;
        let start = map_area.vpn_range().start;
        let end = map_area.vpn_range().end;
        let len = end.0 - start.0;
        let ppn_start = match map_area.ppn_range() {
            Some(ps) => Some(ps.start),
            None => None,
        };
        let perm = map_area.permission().bits();
        let valid: u8 = if is_valid {
            0x01
        } else {
            0x00
        };
        let mut out: Vec<PageNumber> = Vec::new();
        let mut x: usize = 0;
        let ghost flbits = (map_area.spec_permission() | valid) as u8;
        while x < len
            invariant
                mgr0 == *old(mgr),
                pre.spec_areas() == old(self).spec_areas(),
                pre.spec_singles() == old(self).spec_singles(),
                forall|v2: usize| #[trigger] pre.spec_route(v2) == old(self).spec_route(v2),
                forall|v2: usize| #[trigger] pre.spec_leaf(v2) == old(self).spec_leaf(v2),
                old(self).spec_root_ppn() is Some ==> pre.spec_root_ppn() == old(
                    self,
                ).spec_root_ppn(),
                self.wf(),
                mgr.inv(),
                x <= len,
                len == map_area.spec_vpn_end() - map_area.spec_vpn_start(),
                start.0 == map_area.spec_vpn_start(),
                start.0 + len <= 0x800_0000,
                ppn_start == match map_area.spec_ppn_start() {
                    Some(p) => Some(PageNumber(p as usize)),
                    None => None::<PageNumber>,
                },
                match map_area.spec_ppn_start() {
                    Some(p) => p + len <= usize::MAX / 4096,
                    None => true,
                },
                perm == map_area.spec_permission(),
                perm & !0x1eu8 == 0,
                valid == (if is_valid {
                    0x01u8
                } else {
                    0x00u8
                }),
                flbits == (map_area.spec_permission() | valid) as u8,
                self.spec_root_ppn() is Some,
                self.spec_root_ppn() == pre.spec_root_ppn(),
                self.spec_areas() == pre.spec_areas(),
                self.spec_singles() == pre.spec_singles(),
                forall|jo: int|
                    0 <= jo < old(self).spec_owned().len() ==> #[trigger] self.spec_owned()[jo]
                        == old(self).spec_owned()[jo],
                old(self).spec_owned().len() <= self.spec_owned().len(),
                crate::bits64::mem_grown(mgr0.mem(), mgr.mem()),
                out@.len() == (if collect {
                    x as int
                } else {
                    0
                }),
                forall|v2: usize|
                    #[trigger] pre.spec_route(v2) is Some ==> self.spec_route(v2) == pre.spec_route(
                        v2,
                    ),
                self.pages_done(*map_area, is_valid, x as int, mgr0.mem(), mgr.mem()),
                map_area.spec_ppn_start() is None ==> (forall|x1: int, x2: int|
                    0 <= x1 < x2 < x ==> #[trigger] self.spec_leaf_ppn(
                        ((map_area.spec_vpn_start() + x1) as usize),
                    ) != #[trigger] self.spec_leaf_ppn(
                        ((map_area.spec_vpn_start() + x2) as usize),
                    )),
                forall|v2: usize|
                    v2 < 0x800_0000 && !(start.0 <= v2 < start.0 + len) && #[trigger] pre.spec_route(
                        v2,
                    ) is Some ==> self.spec_leaf(v2) == pre.spec_leaf(v2),
                forall|v2: usize|
                    v2 < 0x800_0000 && !(start.0 <= v2 < start.0 + len)
                        ==> #[trigger] self.spec_vpn_to_ppn(v2) == pre.spec_vpn_to_ppn(v2),
            decreases len - x,
        {
            let vpn = PageNumber(start.0 + x);
            let ghost before = *self;
            let ghost mem_b = mgr.mem();
            proof {
                assert(before.pages_done(*map_area, is_valid, x as int, mgr0.mem(), mem_b));
            }
            let wc_result = self.walk_create(vpn, mgr);
            let ghost mem_w = mgr.mem();
            let (w, i2) = match wc_result {
                Ok(wi) => wi,
                Err(e) => {
                    proof {
                        crate::bits64::lemma_mem_grown_trans(mgr0.mem(), mem_b, mgr.mem());
                        assert forall|v2: usize| #[trigger]
                            old(self).spec_route(v2) is Some implies self.spec_route(v2) == old(
                            self,
                        ).spec_route(v2) by {
                            assert(pre.spec_route(v2) == old(self).spec_route(v2));
                            assert(before.spec_route(v2) == pre.spec_route(v2));
                        }
                        // the walk only fails where a table was missing, so
                        // a fully routed area cannot end here
                        if old(self).spec_route(vpn.0) is Some {
                            assert(pre.spec_route(vpn.0) == old(self).spec_route(vpn.0));
                            assert(before.spec_route(vpn.0) is Some);
                            assert(false);
                        }
                        assert(old(self).spec_route(
                            ((map_area.spec_vpn_start() + x as int) as usize),
                        ) is None);
                    }
                    return Err(e);
                },
            };
            let ghost s_wc = *self;
            let ghost mem_aw = mgr.mem();
            let ppn = match ppn_start {
                Some(p) => PageNumber(p.0 + x),
                None => {
                    let ghost aw = *self;
                    match self.page_manager.alloc_frame(mgr) {
                        Some(p) => {
                            proof {
                                lemma_space_unchanged_wf(aw, *self);
                            }
                            p
                        },
                        None => {
                            proof {
                                lemma_space_unchanged_wf(aw, *self);
                                crate::bits64::lemma_mem_grown_trans(mgr0.mem(), mem_b, mgr.mem());
                                assert forall|v2: usize| #[trigger]
                                    old(self).spec_route(v2) is Some implies self.spec_route(v2)
                                    == old(self).spec_route(v2) by {
                                    assert(pre.spec_route(v2) == old(self).spec_route(v2));
                                    assert(before.spec_route(v2) == pre.spec_route(v2));
                                    assert(aw.spec_route(v2) == before.spec_route(v2));
                                }
                            }
                            return Err(PTableError::AllocError);
                        },
                    }
                },
            };
            proof {
                assert(ppn.0 <= usize::MAX / 4096);
                assert(usize::MAX / 4096 <= usize::MAX / 1024);
                assert forall|v2u: usize|
                    (#[trigger] self.spec_vpn_to_ppn(v2u)) == before.spec_vpn_to_ppn(v2u) by {
                    assert(self.spec_vpn_to_ppn(v2u) == s_wc.spec_vpn_to_ppn(v2u));
                    assert(s_wc.spec_vpn_to_ppn(v2u) == before.spec_vpn_to_ppn(v2u));
                }
            }
            let entry = PageTableEntry::new(ppn, PTEFlags(valid | perm));
            let ghost mid = *self;
            self.set_leaf(w, i2, entry);
            if collect {
                out.push(ppn);
            }
            proof {
                assert(crate::bits64::mem_grown(mem_b, mgr.mem())) by {
                    assert(crate::bits64::mem_grown(mem_b, mem_w));
                    assert(crate::bits64::mem_grown(mem_w, mgr.mem()));
                    crate::bits64::lemma_mem_grown_trans(mem_b, mem_w, mgr.mem());
                }
                assert(crate::bits64::mem_grown(mem_b, mgr.mem())) by {
                    assert(crate::bits64::mem_grown(mem_b, mem_w));
                    assert(crate::bits64::mem_grown(mem_w, mgr.mem()));
                    crate::bits64::lemma_mem_grown_trans(mem_b, mem_w, mgr.mem());
                }
                let vx = vpn.0;
                assert(mid.spec_route(vx) is Some);
                assert(mid.spec_route(vx)->Some_0 == (mid.spec_l2_ppn(w as int), i2 as int));
                assert(self.spec_leaf(vx) == Some(entry));
                let pb = perm;
                assert(pb & 0x01 == 0) by (bit_vector)
                    requires
                        pb & !0x1eu8 == 0,
                ;
                assert((valid | pb) == ((pb | valid) as u8) && ((valid | pb) & 1 == 1) == (valid
                    == 0x01u8)) by (bit_vector)
                    requires
                        valid == 0x00u8 || valid == 0x01u8,
                        pb & 0x01 == 0,
                ;
                if map_area.spec_ppn_start() is None {
                    assert(!mem_aw.dom().contains(entry.spec_ppn()));
                    assert(crate::bits64::mem_grown(mem_b, mem_w) && mem_w == mem_aw);
                    assert(!mem_b.dom().contains(entry.spec_ppn()));
                    assert forall|x1: int, x2: int|
                        0 <= x1 < x2 < x implies #[trigger] before.spec_leaf_ppn(
                        ((map_area.spec_vpn_start() + x1) as usize),
                    ) != #[trigger] before.spec_leaf_ppn(
                        ((map_area.spec_vpn_start() + x2) as usize),
                    ) by {}
                }
                lemma_map_pages_step(
                    before,
                    mid,
                    *self,
                    *map_area,
                    is_valid,
                    x as int,
                    mgr0.mem(),
                    mem_b,
                    mgr.mem(),
                    mid.spec_l2_ppn(w as int),
                    i2 as int,
                    entry,
                );
                assert(self.pages_done(*map_area, is_valid, x as int + 1, mgr0.mem(), mgr.mem()));
                assert forall|v2: usize|
                    v2 < 0x800_0000 && !(start.0 <= v2 < start.0 + len) && #[trigger] pre.spec_route(
                        v2,
                    ) is Some implies self.spec_leaf(v2) == pre.spec_leaf(v2) by {
                    assert(before.spec_leaf(v2) == pre.spec_leaf(v2));
                    assert(mid.spec_route(v2) == pre.spec_route(v2));
                    assert(mid.spec_leaf(v2) == before.spec_leaf(v2));
                    mid.lemma_routes_distinct(v2, vx);
                    assert(self.spec_leaf(v2) == mid.spec_leaf(v2));
                }
                assert forall|v2: usize|
                    v2 < 0x800_0000 && !(start.0 <= v2 < start.0
                        + len) implies #[trigger] self.spec_vpn_to_ppn(v2) == pre.spec_vpn_to_ppn(
                    v2,
                ) by {
                    assert(mid.spec_vpn_to_ppn(v2) == before.spec_vpn_to_ppn(v2));
                    assert(before.spec_vpn_to_ppn(v2) == pre.spec_vpn_to_ppn(v2));
                    if mid.spec_route(v2) is Some {
                        mid.lemma_routes_distinct(v2, vx);
                        assert(self.spec_leaf(v2) == mid.spec_leaf(v2));
                    } else {
                        assert(self.spec_route(v2) == mid.spec_route(v2));
                        assert(self.spec_vpn_to_ppn(v2) is None && mid.spec_vpn_to_ppn(v2) is None);
                    }
                }
            }
            x = x + 1;
        }
        proof {
            assert forall|v2: usize| #[trigger]
                old(self).spec_route(v2) is Some implies self.spec_route(v2) == old(
                self,
            ).spec_route(v2) by {
                assert(pre.spec_route(v2) == old(self).spec_route(v2));
            }
            assert forall|v2: usize|
                v2 < 0x800_0000 && !(map_area.spec_vpn_start() <= v2 < map_area.spec_vpn_start()
                    + (map_area.spec_vpn_end() - map_area.spec_vpn_start())) && #[trigger] old(
                self,
            ).spec_route(v2) is Some implies self.spec_leaf(v2) == old(self).spec_leaf(v2) by {
                assert(pre.spec_route(v2) == old(self).spec_route(v2));
                assert(pre.spec_leaf(v2) == old(self).spec_leaf(v2));
            }
        }
        Ok(out)
    }
}


/// Mapped pages stay mapped when only the bookkeeping fields change.
proof fn lemma_pages_done_frame(
    a: AddressSpace,
    b: AddressSpace,
    area: Area,
    is_valid: bool,
    n: int,
    m0: Map<int, Seq<u8>>,
    m1: Map<int, Seq<u8>>,
)
    requires
        a.pages_done(area, is_valid, n, m0, m1),
        b.root == a.root,
        b.root_ppn == a.root_ppn,
        b.l1 == a.l1,
        b.l2 == a.l2,
    ensures
        b.pages_done(area, is_valid, n, m0, m1),
{
    assert forall|x0: int| 0 <= x0 < n implies #[trigger] b.page_mapped_ok(
        area,
        is_valid,
        x0,
        m0,
        m1,
    ) by {
        assert(a.page_mapped_ok(area, is_valid, x0, m0, m1));
        let vx = (area.spec_vpn_start() + x0) as usize;
        assert(b.spec_leaf(vx) == a.spec_leaf(vx) && b.spec_route(vx) == a.spec_route(vx));
    }
}

/// One more page of the area is mapped: the prefix facts carry over the
/// two-step mutation (path creation, then the leaf write) and the fresh leaf
/// satisfies them too.
proof fn lemma_map_pages_step(
    before: AddressSpace,
    mid: AddressSpace,
    post: AddressSpace,
    area: Area,
    is_valid: bool,
    x: int,
    m0: Map<int, Seq<u8>>,
    mem_b: Map<int, Seq<u8>>,
    mem_now: Map<int, Seq<u8>>,
    slot_p: int,
    slot_i: int,
    entry: PageTableEntry,
)
    requires
        mid.wf(),
        area.wf(),
        area.spec_vpn_end() <= 0x800_0000,
        area.spec_vpn_start() <= area.spec_vpn_end(),
        0 <= x < area.spec_vpn_end() - area.spec_vpn_start(),
        before.pages_done(area, is_valid, x, m0, mem_b),
        forall|v2: usize|
            #[trigger] before.spec_route(v2) is Some ==> mid.spec_route(v2) == before.spec_route(v2)
                && mid.spec_leaf(v2) == before.spec_leaf(v2),
        mid.spec_route(((area.spec_vpn_start() + x) as usize)) == Some((slot_p, slot_i)),
        forall|v2: usize| #[trigger] post.spec_route(v2) == mid.spec_route(v2),
        forall|v2: usize|
            #[trigger] mid.spec_route(v2) is Some ==> post.spec_leaf(v2) == (if mid.spec_route(
                v2,
            )->Some_0 == (slot_p, slot_i) {
                Some(entry)
            } else {
                mid.spec_leaf(v2)
            }),
        crate::bits64::mem_grown(mem_b, mem_now),
        entry.spec_flag_bits() == (area.spec_permission() | (if is_valid {
            0x01u8
        } else {
            0x00u8
        })) as u8,
        entry.spec_is_valid() == is_valid,
        entry.spec_ppn() <= usize::MAX / 4096,
        match area.spec_ppn_start() {
            Some(p) => entry.spec_ppn() == p + x,
            None => !m0.dom().contains(entry.spec_ppn()) && mem_now.dom().contains(
                entry.spec_ppn(),
            ),
        },
        area.spec_ppn_start() is None ==> !mem_b.dom().contains(entry.spec_ppn()),
        area.spec_ppn_start() is None ==> (forall|x1: int, x2: int|
            0 <= x1 < x2 < x ==> #[trigger] before.spec_leaf_ppn(
                ((area.spec_vpn_start() + x1) as usize),
            ) != #[trigger] before.spec_leaf_ppn(((area.spec_vpn_start() + x2) as usize))),
    ensures
        post.pages_done(area, is_valid, x + 1, m0, mem_now),
        area.spec_ppn_start() is None ==> (forall|x1: int, x2: int|
            0 <= x1 < x2 < x + 1 ==> #[trigger] post.spec_leaf_ppn(
                ((area.spec_vpn_start() + x1) as usize),
            ) != #[trigger] post.spec_leaf_ppn(((area.spec_vpn_start() + x2) as usize))),
        forall|x0: int|
            0 <= x0 < x + 1 ==> #[trigger] post.spec_leaf(((area.spec_vpn_start() + x0) as usize))
                == (if x0 == x {
                Some(entry)
            } else {
                before.spec_leaf(((area.spec_vpn_start() + x0) as usize))
            }),
{
    let vx = (area.spec_vpn_start() + x) as usize;
    assert forall|x0: int| 0 <= x0 < x + 1 implies #[trigger] post.spec_leaf(
        ((area.spec_vpn_start() + x0) as usize),
    ) == (if x0 == x {
        Some(entry)
    } else {
        before.spec_leaf(((area.spec_vpn_start() + x0) as usize))
    }) by {
        let vx0 = (area.spec_vpn_start() + x0) as usize;
        if x0 < x {
            assert(before.page_mapped_ok(area, is_valid, x0, m0, mem_b));
            assert(before.spec_route(vx0) is Some);
            assert(mid.spec_route(vx0) == before.spec_route(vx0));
            assert(mid.spec_leaf(vx0) == before.spec_leaf(vx0));
            assert(vx0 != vx) by {
                assert(area.spec_vpn_start() + x0 < area.spec_vpn_start() + x <= 0x800_0000);
            }
            mid.lemma_routes_distinct(vx0, vx);
            assert(post.spec_leaf(vx0) == mid.spec_leaf(vx0));
        } else {
            assert(post.spec_leaf(vx) == Some(entry));
        }
    }
    if area.spec_ppn_start() is None {
        assert forall|x1: int, x2: int| 0 <= x1 < x2 < x + 1 implies #[trigger] post.spec_leaf_ppn(
            ((area.spec_vpn_start() + x1) as usize),
        ) != #[trigger] post.spec_leaf_ppn(((area.spec_vpn_start() + x2) as usize)) by {
            let v1 = (area.spec_vpn_start() + x1) as usize;
            let v2 = (area.spec_vpn_start() + x2) as usize;
            if x2 == x {
                assert(before.page_mapped_ok(area, is_valid, x1, m0, mem_b));
                assert(mem_b.dom().contains(before.spec_leaf_ppn(v1)));
                assert(!mem_b.dom().contains(entry.spec_ppn()));
                assert(post.spec_leaf(v1) == before.spec_leaf(v1));
                assert(post.spec_leaf_ppn(v1) == before.spec_leaf_ppn(v1));
                assert(post.spec_leaf_ppn(v2) == entry.spec_ppn());
                assert(before.spec_leaf_ppn(v1) != entry.spec_ppn());
            } else {
                assert(before.spec_leaf_ppn(v1) != before.spec_leaf_ppn(v2));
                assert(post.spec_leaf(v1) == before.spec_leaf(v1));
                assert(post.spec_leaf(v2) == before.spec_leaf(v2));
                assert(post.spec_leaf_ppn(v1) == before.spec_leaf_ppn(v1));
                assert(post.spec_leaf_ppn(v2) == before.spec_leaf_ppn(v2));
            }
        }
    }
    assert forall|x0: int| 0 <= x0 < x + 1 implies #[trigger] post.page_mapped_ok(
        area,
        is_valid,
        x0,
        m0,
        mem_now,
    ) by {
        let vx0 = (area.spec_vpn_start() + x0) as usize;
        if x0 < x {
            assert(before.page_mapped_ok(area, is_valid, x0, m0, mem_b));
            assert(before.spec_route(vx0) is Some);
            assert(mid.spec_route(vx0) == before.spec_route(vx0));
            assert(mid.spec_leaf(vx0) == before.spec_leaf(vx0));
            assert(vx0 != vx) by {
                assert(area.spec_vpn_start() + x0 < area.spec_vpn_start() + x <= 0x800_0000);
            }
            mid.lemma_routes_distinct(vx0, vx);
            assert(post.spec_leaf(vx0) == mid.spec_leaf(vx0));
            if area.spec_ppn_start() is None {
                assert(mem_b.dom().contains(before.spec_leaf_ppn(vx0)));
                assert(mem_now.dom().contains(before.spec_leaf_ppn(vx0)));
            }
        } else {
            assert(post.spec_leaf(vx) == Some(entry));
        }
    }
}

impl AddressSpace {
    /// Position of the leaf slot of `vpn`, if the path to it is complete.
    fn locate_slot(&self, vpn: VPN) -> (r: Option<(usize, usize)>)
        requires
            self.wf(),
        ensures
            match r {
                Some((w, i2)) => self.spec_route(vpn.0) == Some(
                    (self.spec_l2_ppn(w as int), i2 as int),
                ) && w < self.spec_l2_len() && i2 < 512 && i2 == vpn_index(vpn.0, 2),
                None => self.spec_route(vpn.0) is None,
            },
    {
        let root = match &self.root {
            Some(f) => f,
            None => {
                return None;
            },
        };
        let (i0, i1, i2) = Self::indices(vpn);
        let e0 = root.table.get(i0);
        proof {
            crate::entry::lemma_flag_valid_bit(e0);
        }
        if e0.flag().bits() & 0x01 != 0x01 {
            return None;
        }
        let p1 = e0.ppn();
        let vj = match self.find_l1(p1.0) {
            Some(vj) => vj,
            None => {
                proof {
                    assert(false);
                }
                return None;
            },
        };
        proof {
            let s = self.l1@;
            assert(sf_contains(s, p1.0 as int));
            let a = sf_index(s, p1.0 as int);
            assert(0 <= a < s.len() && s[a].ppn == p1.0);
            assert(a == vj as int);
        }
        let e1 = self.l1[vj].table.get(i1);
        proof {
            crate::entry::lemma_flag_valid_bit(e1);
        }
        if e1.flag().bits() & 0x01 != 0x01 {
            return None;
        }
        let p2 = e1.ppn();
        match self.find_l2(p2.0) {
            Some(w) => {
                proof {
                    assert(self.spec_l2_ppn(w as int) == p2.0 as int);
                }
                Some((w, i2))
            },
            None => {
                proof {
                    assert(false);
                }
                None
            },
        }
    }

    /// Maps every page of the area with valid leaves and appends the area to
    /// the space's list.
    pub fn push<M: PageManager>(&mut self, map_area: Area, mgr: &mut M) -> (r: Result<
        (),
        PTableError,
    >)
        requires
            old(self).wf(),
            old(mgr).inv(),
            map_area.wf(),
            map_area.spec_vpn_end() <= 0x800_0000,
            match map_area.spec_ppn_start() {
                Some(p) => p + (map_area.spec_vpn_end() - map_area.spec_vpn_start()) <= usize::MAX
                    / 4096,
                None => true,
            },
        ensures
            final (self).wf(),
            final (mgr).inv(),
            crate::bits64::mem_grown(old(mgr).mem(), final (mgr).mem()),
            final (self).spec_singles() == old(self).spec_singles(),
            match r {
                Ok(()) => final (self).spec_areas() == old(self).spec_areas().push(map_area)
                    && final (self).pages_done(
                    map_area,
                    true,
                    map_area.spec_vpn_end() - map_area.spec_vpn_start(),
                    old(mgr).mem(),
                    final (mgr).mem(),
                ) && (map_area.spec_ppn_start() is None ==> (forall|x1: int, x2: int|
                    0 <= x1 < x2 < map_area.spec_vpn_end() - map_area.spec_vpn_start()
                        ==> #[trigger] final (self).spec_leaf_ppn(
                        ((map_area.spec_vpn_start() + x1) as usize),
                    ) != #[trigger] final (self).spec_leaf_ppn(
                        ((map_area.spec_vpn_start() + x2) as usize),
                    ))) && (forall|v2: usize|
                    v2 < 0x800_0000 && !(map_area.spec_vpn_start() <= v2
                        < map_area.spec_vpn_end()) && #[trigger] old(self).spec_route(v2) is Some
                        ==> final (self).spec_leaf(v2) == old(self).spec_leaf(v2)) && (forall|
                    v2: usize,
                |
                    v2 < 0x800_0000 && !(map_area.spec_vpn_start() <= v2
                        < map_area.spec_vpn_end()) ==> #[trigger] final (self).spec_vpn_to_ppn(v2)
                        == old(self).spec_vpn_to_ppn(v2)),
                Err(e) => e == PTableError::AllocError && final (self).spec_areas() == old(
                    self,
                ).spec_areas(),
            },
            (map_area.spec_ppn_start() is Some && old(self).spec_root_ppn() is Some && (forall|
                x: int,
            |
                0 <= x < map_area.spec_vpn_end() - map_area.spec_vpn_start()
                    ==> #[trigger] old(self).spec_route(((map_area.spec_vpn_start() + x) as usize))
                    is Some)) ==> r is Ok,
            old(self).spec_root_ppn() is Some ==> final (self).spec_root_ppn() == old(
                self,
            ).spec_root_ppn(),
            r is Ok ==> final (self).spec_root_ppn() is Some,
            forall|j: int|
                0 <= j < old(self).spec_owned().len() ==> #[trigger] final (self).spec_owned()[j]
                    == old(self).spec_owned()[j],
            old(self).spec_owned().len() <= final (self).spec_owned().len(),
    {
        match self.map(&map_area, false, true, mgr) {
            Ok(_) => {
                let ghost mid = *self;
                self.map_area.push(map_area);
                proof {
                    lemma_space_unchanged_wf(mid, *self);
                    lemma_pages_done_frame(
                        mid,
                        *self,
                        map_area,
                        true,
                        map_area.spec_vpn_end() - map_area.spec_vpn_start(),
                        old(mgr).mem(),
                        mgr.mem(),
                    );
                    if map_area.spec_ppn_start() is None {
                        assert forall|x1: int, x2: int|
                            0 <= x1 < x2 < map_area.spec_vpn_end()
                                - map_area.spec_vpn_start() implies #[trigger] self.spec_leaf_ppn(
                            ((map_area.spec_vpn_start() + x1) as usize),
                        ) != #[trigger] self.spec_leaf_ppn(
                            ((map_area.spec_vpn_start() + x2) as usize),
                        ) by {
                            let v1 = (map_area.spec_vpn_start() + x1) as usize;
                            let v2 = (map_area.spec_vpn_start() + x2) as usize;
                            assert(mid.spec_leaf_ppn(v1) != mid.spec_leaf_ppn(v2));
                            assert(self.spec_leaf(v1) == mid.spec_leaf(v1));
                            assert(self.spec_leaf(v2) == mid.spec_leaf(v2));
                        }
                    }
                }
                Ok(())
            },
            Err(e) => Err(e),
        }
    }

    /// Like `push`, but the leaves are valid only when `is_valid`: used to
    /// reserve ranges that are activated on demand.
    pub fn tmp_push<M: PageManager>(&mut self, map_area: Area, is_valid: bool, mgr: &mut M) -> (r:
        Result<(), PTableError>)
        requires
            old(self).wf(),
            old(mgr).inv(),
            map_area.wf(),
            map_area.spec_vpn_end() <= 0x800_0000,
            match map_area.spec_ppn_start() {
                Some(p) => p + (map_area.spec_vpn_end() - map_area.spec_vpn_start()) <= usize::MAX
                    / 4096,
                None => true,
            },
        ensures
            final (self).wf(),
            final (mgr).inv(),
            crate::bits64::mem_grown(old(mgr).mem(), final (mgr).mem()),
            final (self).spec_singles() == old(self).spec_singles(),
            match r {
                Ok(()) => final (self).spec_areas() == old(self).spec_areas().push(map_area)
                    && final (self).pages_done(
                    map_area,
                    is_valid,
                    map_area.spec_vpn_end() - map_area.spec_vpn_start(),
                    old(mgr).mem(),
                    final (mgr).mem(),
                ),
                Err(e) => e == PTableError::AllocError && final (self).spec_areas() == old(
                    self,
                ).spec_areas(),
            },
            (map_area.spec_ppn_start() is Some && old(self).spec_root_ppn() is Some && (forall|
                x: int,
            |
                0 <= x < map_area.spec_vpn_end() - map_area.spec_vpn_start()
                    ==> #[trigger] old(self).spec_route(((map_area.spec_vpn_start() + x) as usize))
                    is Some)) ==> r is Ok,
            old(self).spec_root_ppn() is Some ==> final (self).spec_root_ppn() == old(
                self,
            ).spec_root_ppn(),
            r is Ok ==> final (self).spec_root_ppn() is Some,
            forall|j: int|
                0 <= j < old(self).spec_owned().len() ==> #[trigger] final (self).spec_owned()[j]
                    == old(self).spec_owned()[j],
            old(self).spec_owned().len() <= final (self).spec_owned().len(),
    {
        match self.map(&map_area, false, is_valid, mgr) {
            Ok(_) => {
                let ghost mid = *self;
                self.map_area.push(map_area);
                proof {
                    lemma_space_unchanged_wf(mid, *self);
                    lemma_pages_done_frame(
                        mid,
                        *self,
                        map_area,
                        is_valid,
                        map_area.spec_vpn_end() - map_area.spec_vpn_start(),
                        old(mgr).mem(),
                        mgr.mem(),
                    );
                }
                Ok(())
            },
            Err(e) => Err(e),
        }
    }

    /// Promotes the lazy leaf of `vpn`: the path must be complete and the
    /// leaf not yet valid; its V bit is set, everything else kept.
    pub fn tmp_make_valid(&mut self, vpn: VPN)
        requires
            old(self).wf(),
            old(self).spec_route(vpn.0) is Some,
            !old(self).spec_leaf(vpn.0)->Some_0.spec_is_valid(),
        ensures
            final (self).wf(),
            final (self).spec_areas() == old(self).spec_areas(),
            final (self).spec_singles() == old(self).spec_singles(),
            final (self).spec_owned() == old(self).spec_owned(),
            final (self).spec_leaf(vpn.0) is Some,
            final (self).spec_leaf(vpn.0)->Some_0.spec_is_valid(),
            final (self).spec_leaf(vpn.0)->Some_0.spec_ppn() == old(self).spec_leaf(
                vpn.0,
            )->Some_0.spec_ppn(),
            final (self).spec_leaf(vpn.0)->Some_0.spec_flag_bits() == (old(self).spec_leaf(
                vpn.0,
            )->Some_0.spec_flag_bits() | 0x01u8),
            forall|v2: usize|
                v2 != vpn.0 && #[trigger] old(self).spec_route(v2) is Some && v2 < 0x800_0000
                    && vpn.0 < 0x800_0000 ==> final (self).spec_leaf(v2) == old(self).spec_leaf(v2),
    {
        let (w, i2) = match self.locate_slot(vpn) {
            Some(wi) => wi,
            None => {
                proof {
                    assert(false);
                }
                return ;
            },
        };
        let pte = self.l2[w].table.get(i2);
        proof {
            lemma_sf_at(self.l2@, w as int);
            assert(self.m2()[self.spec_l2_ppn(w as int)][i2 as int] == pte);
            assert(self.spec_leaf(vpn.0) == Some(pte));
            assert(pte.spec_ppn() <= usize::MAX / 4096);
            assert(usize::MAX / 4096 <= usize::MAX / 1024);
        }
        let newpte = PageTableEntry::new(pte.ppn(), pte.flag().union(PTEFlags(0x01)));
        proof {
            let fb = pte.spec_flag_bits();
            assert(((fb | 0x01u8) & 1) == 1) by (bit_vector);
        }
        let ghost mid = *self;
        self.set_leaf(w, i2, newpte);
        proof {
            assert(self.spec_leaf(vpn.0) == Some(newpte));
            assert forall|v2: usize|
                v2 != vpn.0 && #[trigger] mid.spec_route(v2) is Some && v2 < 0x800_0000 && vpn.0
                    < 0x800_0000 implies self.spec_leaf(v2) == mid.spec_leaf(v2) by {
                mid.lemma_routes_distinct(v2, vpn.0);
            }
        }
    }

    /// Allocates one fresh frame, installs a leaf with exactly the given
    /// flags over it, and records the page in the singles list.  The flags
    /// pass through unchanged: a caller may deliberately install an invalid
    /// entry.
    #[verifier::rlimit(100)]
    #[verifier::spinoff_prover]
    pub fn push_with_vpn<M: PageManager>(&mut self, vpn: VPN, permission: PTEFlags, mgr: &mut M) -> (r:
        Result<PPN, PTableError>)
        requires
            old(self).wf(),
            old(mgr).inv(),
            vpn.0 < 0x800_0000,
        ensures
            final (self).wf(),
            final (mgr).inv(),
            crate::bits64::mem_grown(old(mgr).mem(), final (mgr).mem()),
            final (self).spec_areas() == old(self).spec_areas(),
            old(self).spec_root_ppn() is Some ==> final (self).spec_root_ppn() == old(
                self,
            ).spec_root_ppn(),
            r is Ok ==> final (self).spec_root_ppn() is Some,
            match r {
                Ok(p) => {
                    &&& final (self).spec_singles() == old(self).spec_singles().push(
                        (vpn, permission),
                    )
                    &&& final (self).spec_leaf(vpn.0) is Some
                    &&& final (self).spec_leaf(vpn.0)->Some_0.spec_ppn() == p.0
                    &&& final (self).spec_leaf(vpn.0)->Some_0.spec_flag_bits() == permission.0
                    &&& !old(mgr).mem().dom().contains(p.0 as int)
                    &&& final (mgr).mem().dom().contains(p.0 as int)
                    &&& (forall|v2: usize|
                        v2 < 0x800_0000 && v2 != vpn.0 && #[trigger] old(self).spec_route(v2)
                            is Some ==> final (self).spec_leaf(v2) == old(self).spec_leaf(v2))
                    &&& (forall|v2: usize|
                        v2 < 0x800_0000 && v2 != vpn.0 ==> #[trigger] final (self).spec_vpn_to_ppn(
                            v2,
                        ) == old(self).spec_vpn_to_ppn(v2))
                },
                Err(e) => e == PTableError::AllocError && final (self).spec_singles() == old(
                    self,
                ).spec_singles(),
            },
    {
        let ghost mgr0 = *mgr;
        match self.check_root(mgr) {
            Ok(()) => {},
            Err(e) => {
                return Err(e);
            },
        }
        let ghost pre = *self;
        let ghost mem_cr = mgr.mem();
        let (w, i2) = match self.walk_create(vpn, mgr) {
            Ok(wi) => wi,
            Err(e) => {
                proof {
                    crate::bits64::lemma_mem_grown_trans(mgr0.mem(), mem_cr, mgr.mem());
                }
                return Err(e);
            },
        };
        let ghost mem_wc = mgr.mem();
        let ghost aw = *self;
        let ppn = match self.page_manager.alloc_frame(mgr) {
            Some(p) => {
                proof {
                    lemma_space_unchanged_wf(aw, *self);
                }
                p
            },
            None => {
                proof {
                    lemma_space_unchanged_wf(aw, *self);
                    crate::bits64::lemma_mem_grown_trans(mgr0.mem(), mem_cr, mgr.mem());
                }
                return Err(PTableError::AllocError);
            },
        };
        proof {
            assert(ppn.0 <= usize::MAX / 4096);
            assert(usize::MAX / 4096 <= usize::MAX / 1024);
        }
        let entry = PageTableEntry::new(ppn, permission);
        let ghost mid = *self;
        self.set_leaf(w, i2, entry);
        let ghost mid2 = *self;
        self.single_vpn.push((vpn, permission));
        proof {
            lemma_space_unchanged_wf(mid2, *self);
            assert(mid2.spec_leaf(vpn.0) == Some(entry));
            assert(self.spec_leaf(vpn.0) == Some(entry));
            crate::bits64::lemma_mem_grown_trans(mgr0.mem(), mem_cr, mem_wc);
            assert(crate::bits64::mem_grown(mem_wc, mgr.mem()));
            crate::bits64::lemma_mem_grown_trans(mgr0.mem(), mem_wc, mgr.mem());
            assert forall|v2: usize|
                v2 < 0x800_0000 && v2 != vpn.0 && #[trigger] old(self).spec_route(v2)
                    is Some implies self.spec_leaf(v2) == old(self).spec_leaf(v2) by {
                assert(pre.spec_route(v2) == old(self).spec_route(v2));
                assert(pre.spec_leaf(v2) == old(self).spec_leaf(v2));
                assert(mid.spec_route(v2) == pre.spec_route(v2));
                assert(mid.spec_leaf(v2) == pre.spec_leaf(v2));
                mid.lemma_routes_distinct(v2, vpn.0);
            }
            assert forall|v2: usize|
                v2 < 0x800_0000 && v2 != vpn.0 implies #[trigger] self.spec_vpn_to_ppn(v2) == old(
                self,
            ).spec_vpn_to_ppn(v2) by {
                assert(mid.spec_vpn_to_ppn(v2) == aw.spec_vpn_to_ppn(v2));
                assert(aw.spec_vpn_to_ppn(v2) == pre.spec_vpn_to_ppn(v2));
                assert(pre.spec_vpn_to_ppn(v2) == old(self).spec_vpn_to_ppn(v2));
                assert(mid.spec_vpn_to_ppn(v2) == old(self).spec_vpn_to_ppn(v2));
                if mid.spec_route(v2) is Some {
                    mid.lemma_routes_distinct(v2, vpn.0);
                    assert(self.spec_leaf(v2) == mid.spec_leaf(v2));
                } else {
                    assert(self.spec_route(v2) == mid.spec_route(v2));
                }
            }
        }
        Ok(ppn)
    }

    /// Clears the leaf of one page; the path to it must be complete.
    pub fn unmap_with_vpn(&mut self, vpn: VPN) -> (r: Result<(), PTableError>)
        requires
            old(self).wf(),
        ensures
            final (self).wf(),
            final (self).spec_areas() == old(self).spec_areas(),
            final (self).spec_singles() == old(self).spec_singles(),
            final (self).spec_owned() == old(self).spec_owned(),
            match r {
                Ok(()) => old(self).spec_route(vpn.0) is Some && final (self).spec_leaf(vpn.0)
                    == Some(PageTableEntry { entry: 0 }) && final (self).spec_vpn_to_ppn(vpn.0)
                    is None && (forall|v2: usize|
                    v2 < 0x800_0000 && v2 != vpn.0 && vpn.0 < 0x800_0000 && #[trigger] old(
                        self,
                    ).spec_route(v2) is Some ==> final (self).spec_leaf(v2) == old(self).spec_leaf(
                        v2,
                    )),
                Err(e) => e == PTableError::NotValid && old(self).spec_route(vpn.0) is None
                    && *final (self) == *old(self),
            },
    {
        let (w, i2) = match self.locate_slot(vpn) {
            Some(wi) => wi,
            None => {
                return Err(PTableError::NotValid);
            },
        };
        let ghost mid = *self;
        self.set_leaf(w, i2, PageTableEntry::empty());
        proof {
            assert(self.spec_leaf(vpn.0) == Some(PageTableEntry { entry: 0 }));
            assert forall|v2: usize|
                v2 < 0x800_0000 && v2 != vpn.0 && vpn.0 < 0x800_0000 && #[trigger] old(
                    self,
                ).spec_route(v2) is Some implies self.spec_leaf(v2) == old(self).spec_leaf(v2) by {
                mid.lemma_routes_distinct(v2, vpn.0);
            }
        }
        Ok(())
    }
}

impl AddressSpace {
    /// The first `n` pages of the area have empty leaves.
    pub open spec fn pages_cleared(&self, area: Area, n: int) -> bool {
        forall|x0: int|
            0 <= x0 < n ==> #[trigger] self.spec_leaf(((area.spec_vpn_start() + x0) as usize))
                == Some(PageTableEntry { entry: 0 })
    }

    /// Whether two areas are the same in every field.
    fn area_eq(a: &Area, b: &Area) -> (r: bool)
        ensures
            r == (*a == *b),
    {
        let ppn_same = match (a.ppn_start, b.ppn_start) {
            (Some(x), Some(y)) => x.0 == y.0,
            (None, None) => true,
            _ => false,
        };
        let r = a.vpn_start.0 == b.vpn_start.0 && a.vpn_end.0 == b.vpn_end.0 && ppn_same
            && a.permission.0 == b.permission.0;
        proof {
            if r {
                assert(a.vpn_start == b.vpn_start && a.vpn_end == b.vpn_end && a.permission
                    == b.permission && a.ppn_start == b.ppn_start);
                assert(*a == *b);
            }
        }
        r
    }

    /// Clears the leaf of every page of the area and drops every equal area
    /// from the space's list.  Fails with `NotValid` as soon as a page's
    /// path is incomplete, leaving the pages already cleared as they are.
    pub fn unmap(&mut self, map_area: &Area) -> (r: Result<(), PTableError>)
        requires
            old(self).wf(),
            map_area.wf(),
            map_area.spec_vpn_end() <= 0x800_0000,
        ensures
            final (self).wf(),
            final (self).spec_singles() == old(self).spec_singles(),
            final (self).spec_owned() == old(self).spec_owned(),
            match r {
                Ok(()) => {
                    &&& (forall|x: int|
                        0 <= x < map_area.spec_vpn_end() - map_area.spec_vpn_start()
                            ==> #[trigger] old(self).spec_route(
                            ((map_area.spec_vpn_start() + x) as usize),
                        ) is Some)
                    &&& final (self).pages_cleared(
                        *map_area,
                        map_area.spec_vpn_end() - map_area.spec_vpn_start(),
                    )
                    &&& final (self).spec_areas() == old(self).spec_areas().filter(
                        |a: Area| a != *map_area,
                    )
                    &&& (forall|v2: usize|
                        v2 < 0x800_0000 && !(map_area.spec_vpn_start() <= v2
                            < map_area.spec_vpn_end()) && #[trigger] old(self).spec_route(v2)
                            is Some ==> final (self).spec_leaf(v2) == old(self).spec_leaf(v2))
                },
                Err(e) => e == PTableError::NotValid && final (self).spec_areas() == old(
                    self,
                ).spec_areas() && (exists|x: int|
                    0 <= x < map_area.spec_vpn_end() - map_area.spec_vpn_start()
                        && (#[trigger] old(self).spec_route(
                        ((map_area.spec_vpn_start() + x) as usize),
                    )) is None),
            },
            (forall|x: int|
                0 <= x < map_area.spec_vpn_end() - map_area.spec_vpn_start()
                    ==> #[trigger] old(self).spec_route(((map_area.spec_vpn_start() + x) as usize))
                    is Some) ==> r is Ok,
    {
        let ghost pre = *self;
        let start = map_area.vpn_range().start;
        let end = map_area.vpn_range().end;
        let len = end.0 - start.0;
        let mut x: usize = 0;
        while x < len
            invariant
                pre == *old(self),
                self.wf(),
                x <= len,
                len == map_area.spec_vpn_end() - map_area.spec_vpn_start(),
                start.0 == map_area.spec_vpn_start(),
                start.0 + len <= 0x800_0000,
                self.spec_areas() == pre.spec_areas(),
                self.spec_singles() == pre.spec_singles(),
                self.spec_owned() == pre.spec_owned(),
                self.pages_cleared(*map_area, x as int),
                forall|x0: int|
                    0 <= x0 < x ==> #[trigger] pre.spec_route(
                        ((map_area.spec_vpn_start() + x0) as usize),
                    ) is Some,
                forall|v2: usize| #[trigger] self.spec_route(v2) == pre.spec_route(v2),
                forall|v2: usize|
                    v2 < 0x800_0000 && !(start.0 <= v2 < start.0 + len) && #[trigger] pre.spec_route(
                        v2,
                    ) is Some ==> self.spec_leaf(v2) == pre.spec_leaf(v2),
            decreases len - x,
        {
            let vpn = PageNumber(start.0 + x);
            let (w, i2) = match self.locate_slot(vpn) {
                Some(wi) => wi,
                None => {
                    proof {
                        assert(pre.spec_route(vpn.0) is None);
                        assert(pre.spec_route(((map_area.spec_vpn_start() + x as int) as usize))
                            is None);
                    }
                    return Err(PTableError::NotValid);
                },
            };
            let ghost mid = *self;
            proof {
                assert(pre.spec_route(vpn.0) is Some);
            }
            self.set_leaf(w, i2, PageTableEntry::empty());
            proof {
                assert(self.spec_leaf(vpn.0) == Some(PageTableEntry { entry: 0 }));
                assert forall|x0: int| 0 <= x0 < x + 1 implies #[trigger] self.spec_leaf(
                    ((map_area.spec_vpn_start() + x0) as usize),
                ) == Some(PageTableEntry { entry: 0 }) by {
                    let vx0 = (map_area.spec_vpn_start() + x0) as usize;
                    if x0 < x {
                        assert(mid.spec_leaf(vx0) == Some(PageTableEntry { entry: 0 }));
                        assert(mid.spec_route(vx0) is Some);
                        mid.lemma_routes_distinct(vx0, vpn.0);
                    }
                }
                assert(self.pages_cleared(*map_area, x as int + 1));
                assert forall|v2: usize|
                    v2 < 0x800_0000 && !(start.0 <= v2 < start.0 + len) && #[trigger] pre.spec_route(
                        v2,
                    ) is Some implies self.spec_leaf(v2) == pre.spec_leaf(v2) by {
                    assert(mid.spec_leaf(v2) == pre.spec_leaf(v2));
                    assert(mid.spec_route(v2) == pre.spec_route(v2));
                    mid.lemma_routes_distinct(v2, vpn.0);
                }
            }
            x = x + 1;
        }
        let ghost mid3 = *self;
        let mut kept: Vec<Area> = Vec::new();
        let mut j: usize = 0;
        let n = self.map_area.len();
        while j < n
            invariant
                n == self.map_area@.len(),
                j <= n,
                kept@ == self.map_area@.take(j as int).filter(|a: Area| a != *map_area),
            decreases n - j,
        {
            let keep = !Self::area_eq(&self.map_area[j], map_area);
            proof {
                broadcast use vstd::prelude::Seq::lemma_filter_push;

                assert(self.map_area@.take(j as int + 1).drop_last() =~= self.map_area@.take(
                    j as int,
                ));
                assert(self.map_area@.take(j as int + 1) =~= self.map_area@.take(j as int).push(
                    self.map_area@[j as int],
                ));
            }
            if keep {
                kept.push(self.map_area[j]);
            }
            j = j + 1;
        }
        proof {
            assert(self.map_area@.take(n as int) =~= self.map_area@);
        }
        let ghost mid4 = *self;
        self.map_area = kept;
        proof {
            lemma_space_unchanged_wf(mid4, *self);
            assert forall|x0: int| 0 <= x0 < len implies #[trigger] self.spec_leaf(
                ((map_area.spec_vpn_start() + x0) as usize),
            ) == Some(PageTableEntry { entry: 0 }) by {
                assert(mid4.spec_leaf(((map_area.spec_vpn_start() + x0) as usize)) == Some(
                    PageTableEntry { entry: 0 },
                ));
            }
            assert forall|v2: usize|
                v2 < 0x800_0000 && !(start.0 <= v2 < start.0 + len) && #[trigger] pre.spec_route(
                    v2,
                ) is Some implies self.spec_leaf(v2) == pre.spec_leaf(v2) by {
                assert(mid4.spec_leaf(v2) == pre.spec_leaf(v2));
            }
        }
        Ok(())
    }
}

impl AddressSpace {
    /// Every mapped page of this space translates and its frame is in the
    /// managed memory: what a fork-style copy needs of its source.
    pub open spec fn copy_ready(&self, m: Map<int, Seq<u8>>) -> bool {
        &&& (forall|j: int|
            0 <= j < self.spec_areas().len() ==> (#[trigger] self.spec_areas()[j]).wf()
                && self.spec_areas()[j].spec_vpn_end() <= 0x800_0000)
        &&& (forall|j: int, x: int|
            0 <= j < self.spec_areas().len() && 0 <= x < (#[trigger] self.spec_areas()[j]).spec_vpn_end()
                - self.spec_areas()[j].spec_vpn_start() ==> (#[trigger] self.spec_vpn_to_ppn(
                ((self.spec_areas()[j].spec_vpn_start() + x) as usize),
            )) is Some && m.dom().contains(
                self.spec_vpn_to_ppn(((self.spec_areas()[j].spec_vpn_start() + x) as usize))->Some_0,
            ))
        &&& (forall|k: int|
            0 <= k < self.spec_singles().len() ==> (#[trigger] self.spec_singles()[k]).0.0
                < 0x800_0000 && self.spec_singles()[k].1.0 & 0x01 == 0x01
                && self.spec_vpn_to_ppn(self.spec_singles()[k].0.0) is Some && m.dom().contains(
                self.spec_vpn_to_ppn(self.spec_singles()[k].0.0)->Some_0))
    }

    /// Every valid leaf of this space targets a frame allocated after `m0`
    /// and still present in `m1`.
    pub open spec fn leaves_fresh(&self, m0: Map<int, Seq<u8>>, m1: Map<int, Seq<u8>>) -> bool {
        forall|v: usize|
            v < 0x800_0000 && (#[trigger] self.spec_vpn_to_ppn(v)) is Some ==> !m0.dom().contains(
                self.spec_vpn_to_ppn(v)->Some_0,
            ) && m1.dom().contains(self.spec_vpn_to_ppn(v)->Some_0)
    }

    /// Page `v` of this copy is backed and holds the very bytes the
    /// source's frame for `v` held.
    pub open spec fn page_copied(
        &self,
        source: &AddressSpace,
        v: usize,
        m0: Map<int, Seq<u8>>,
        m1: Map<int, Seq<u8>>,
    ) -> bool {
        &&& self.spec_leaf(v) is Some
        &&& m1.dom().contains(self.spec_leaf_ppn(v))
        &&& m1[self.spec_leaf_ppn(v)] == m0[source.spec_vpn_to_ppn(v)->Some_0]
    }

    /// Page `x` of the source's area `j2` is translated by the copy and
    /// carries the source's bytes.
    pub open spec fn area_page_ok(
        &self,
        source: &AddressSpace,
        j2: int,
        x: int,
        m0: Map<int, Seq<u8>>,
        m1: Map<int, Seq<u8>>,
    ) -> bool {
        &&& self.page_copied(
            source,
            ((source.spec_areas()[j2].spec_vpn_start() + x) as usize),
            m0,
            m1,
        )
        &&& self.spec_vpn_to_ppn(((source.spec_areas()[j2].spec_vpn_start() + x) as usize)) is Some
    }

    /// Every page of the source's area `j2` is translated by the copy and
    /// carries the source's bytes.
    pub open spec fn area_copied(
        &self,
        source: &AddressSpace,
        j2: int,
        m0: Map<int, Seq<u8>>,
        m1: Map<int, Seq<u8>>,
    ) -> bool {
        forall|x: int|
            0 <= x < source.spec_areas()[j2].spec_vpn_end()
                - source.spec_areas()[j2].spec_vpn_start() ==> #[trigger] self.area_page_ok(
                source,
                j2,
                x,
                m0,
                m1,
            )
    }

    /// As `area_copied`, away from the pages of `[lo, hi)`.
    pub open spec fn area_copied_outside(
        &self,
        source: &AddressSpace,
        j2: int,
        lo: int,
        hi: int,
        m0: Map<int, Seq<u8>>,
        m1: Map<int, Seq<u8>>,
    ) -> bool {
        forall|x: int|
            0 <= x < source.spec_areas()[j2].spec_vpn_end()
                - source.spec_areas()[j2].spec_vpn_start() && !(lo <= source.spec_areas()[j2].spec_vpn_start()
                + x < hi) ==> #[trigger] self.area_page_ok(source, j2, x, m0, m1)
    }

    /// One recorded single page of the source, replayed with its bytes; a
    /// recorded V flag makes it translate in the copy.
    pub open spec fn single_copied_ok(
        &self,
        source: &AddressSpace,
        k2: int,
        m0: Map<int, Seq<u8>>,
        m1: Map<int, Seq<u8>>,
    ) -> bool {
        &&& self.page_copied(source, source.spec_singles()[k2].0.0, m0, m1)
        &&& (source.spec_singles()[k2].1.0 & 0x01 == 0x01 ==> self.spec_vpn_to_ppn(
            source.spec_singles()[k2].0.0,
        ) is Some)
    }

    /// The recorded single pages of the source, replayed with their bytes.
    pub open spec fn singles_copied(
        &self,
        source: &AddressSpace,
        upto: int,
        m0: Map<int, Seq<u8>>,
        m1: Map<int, Seq<u8>>,
    ) -> bool {
        forall|k2: int|
            0 <= k2 < upto && k2 < source.spec_singles().len() ==> #[trigger] self.single_copied_ok(
                source,
                k2,
                m0,
                m1,
            )
    }

    /// After an area's pages are copied, every earlier area is whole again:
    /// its pages inside the fresh range are the fresh range's own pages, and
    /// the rest were never touched.
    proof fn lemma_copy_area_end(
        ns: &AddressSpace,
        source: &AddressSpace,
        j: int,
        lo: int,
        hi: int,
        m0: Map<int, Seq<u8>>,
        mnow: Map<int, Seq<u8>>,
    )
        requires
            0 <= j < source.spec_areas().len(),
            lo == source.spec_areas()[j].spec_vpn_start(),
            hi == source.spec_areas()[j].spec_vpn_end(),
            lo <= hi,
            forall|x0: int|
                0 <= x0 < hi - lo ==> #[trigger] ns.page_copied(source, ((lo + x0) as usize), m0, mnow),
            forall|x0: int|
                0 <= x0 < hi - lo ==> #[trigger] ns.spec_vpn_to_ppn(((lo + x0) as usize)) is Some,
            forall|j2: int|
                0 <= j2 < j ==> #[trigger] ns.area_copied_outside(source, j2, lo, hi, m0, mnow),
        ensures
            forall|j2: int| 0 <= j2 < j + 1 ==> #[trigger] ns.area_copied(source, j2, m0, mnow),
    {
        assert forall|j2: int| 0 <= j2 < j + 1 implies #[trigger] ns.area_copied(
            source,
            j2,
            m0,
            mnow,
        ) by {
            let astart = source.spec_areas()[j2].spec_vpn_start();
            let aend = source.spec_areas()[j2].spec_vpn_end();
            assert forall|x2: int| 0 <= x2 < aend - astart implies #[trigger] ns.area_page_ok(
                source,
                j2,
                x2,
                m0,
                mnow,
            ) by {
                let v2 = (astart + x2) as usize;
                if lo <= astart + x2 < hi {
                    let x0 = astart + x2 - lo;
                    assert(ns.page_copied(source, ((lo + x0) as usize), m0, mnow));
                    assert(ns.spec_vpn_to_ppn(((lo + x0) as usize)) is Some);
                    assert(((lo + x0) as usize) == v2);
                } else {
                    assert(j2 < j);
                    assert(ns.area_copied_outside(source, j2, lo, hi, m0, mnow));
                    assert(ns.area_page_ok(source, j2, x2, m0, mnow));
                }
            }
        }
    }

    /// Builds a fresh address space that mirrors `address_space`: one area
    /// for each of its areas over freshly allocated frames, the contents of
    /// each page copied over, and the single pages likewise.  Every page of
    /// the copy is backed by a frame of its own, never one of the source's,
    /// and carries the source's bytes.
    #[verifier::rlimit(100)]
    #[verifier::spinoff_prover]
    pub fn copy_from_other<M: PageManager>(address_space: &AddressSpace, mgr: &mut M) -> (r: Result<
        AddressSpace,
        PTableError,
    >)
        requires
            usize::MAX == u64::MAX,
            address_space.wf(),
            old(mgr).inv(),
            address_space.copy_ready(old(mgr).mem()),
        ensures
            final (mgr).inv(),
            forall|q: int|
                old(mgr).mem().dom().contains(q) ==> #[trigger] final (mgr).mem().dom().contains(q)
                    && final (mgr).mem()[q] == old(mgr).mem()[q],
            (address_space.spec_areas().len() == 0 && address_space.spec_singles().len() == 0)
                ==> r is Ok,
            match r {
                Ok(s2) => {
                    &&& s2.wf()
                    &&& s2.spec_areas().len() == address_space.spec_areas().len()
                    &&& (forall|j2: int|
                        0 <= j2 < address_space.spec_areas().len() ==> {
                            let a2 = #[trigger] s2.spec_areas()[j2];
                            let a0 = address_space.spec_areas()[j2];
                            a2.spec_vpn_start() == a0.spec_vpn_start() && a2.spec_vpn_end()
                                == a0.spec_vpn_end() && a2.spec_permission() == a0.spec_permission()
                                && a2.spec_ppn_start() is None
                        })
                    &&& s2.spec_singles() == address_space.spec_singles()
                    &&& s2.leaves_fresh(old(mgr).mem(), final (mgr).mem())
                    &&& (forall|j2: int|
                        0 <= j2 < address_space.spec_areas().len() ==> #[trigger] s2.area_copied(
                            address_space,
                            j2,
                            old(mgr).mem(),
                            final (mgr).mem(),
                        ))
                    &&& s2.singles_copied(
                        address_space,
                        address_space.spec_singles().len() as int,
                        old(mgr).mem(),
                        final (mgr).mem(),
                    )
                    &&& (forall|v: usize|
                        v < 0x800_0000 && (#[trigger] s2.spec_vpn_to_ppn(v)) is Some
                            && address_space.spec_vpn_to_ppn(v) is Some && old(
                            mgr,
                        ).mem().dom().contains(address_space.spec_vpn_to_ppn(v)->Some_0)
                            ==> s2.spec_vpn_to_ppn(v) != address_space.spec_vpn_to_ppn(v))
                },
                Err(e) => e == PTableError::AllocError,
            },
    {
        let ghost mgr0 = *mgr;
        let mut new_space = AddressSpace::new();
        let mut j: usize = 0;
        let n = address_space.map_area.len();
        while j < n
            invariant
                mgr0 == *old(mgr),
                usize::MAX == u64::MAX,
                address_space.wf(),
                address_space.copy_ready(mgr0.mem()),
                n == address_space.spec_areas().len(),
                j <= n,
                new_space.wf(),
                mgr.inv(),
                forall|q: int|
                    mgr0.mem().dom().contains(q) ==> #[trigger] mgr.mem().dom().contains(q)
                        && mgr.mem()[q] == mgr0.mem()[q],
                new_space.leaves_fresh(mgr0.mem(), mgr.mem()),
                forall|j2: int|
                    0 <= j2 < j ==> #[trigger] new_space.area_copied(
                        address_space,
                        j2,
                        mgr0.mem(),
                        mgr.mem(),
                    ),
                new_space.spec_areas().len() == j as int,
                forall|j2: int|
                    0 <= j2 < j ==> {
                        let a2 = #[trigger] new_space.spec_areas()[j2];
                        let a0 = address_space.spec_areas()[j2];
                        a2.spec_vpn_start() == a0.spec_vpn_start() && a2.spec_vpn_end()
                            == a0.spec_vpn_end() && a2.spec_permission() == a0.spec_permission()
                            && a2.spec_ppn_start() is None
                    },
                new_space.spec_singles() == Seq::<(VPN, PTEFlags)>::empty(),
            decreases n - j,
        {
            let area = &address_space.map_area[j];
            let new_area = Area::new(area.vpn_range(), None, area.permission());
            let ghost ns0 = new_space;
            let ghost mem0 = mgr.mem();
            match new_space.push(new_area, mgr) {
                Ok(()) => {},
                Err(e) => {
                    return Err(e);
                },
            }
            let ghost lo = new_area.spec_vpn_start();
            let ghost hi = new_area.spec_vpn_end();
            proof {
                let len = hi - lo;
                // translations are fresh everywhere they exist
                assert forall|v: usize|
                    v < 0x800_0000 && (#[trigger] new_space.spec_vpn_to_ppn(v))
                        is Some implies !mgr0.mem().dom().contains(
                    new_space.spec_vpn_to_ppn(v)->Some_0,
                ) && mgr.mem().dom().contains(new_space.spec_vpn_to_ppn(v)->Some_0) by {
                    if lo <= v < hi {
                        let x = v - lo;
                        assert(new_space.page_mapped_ok(new_area, true, x, mem0, mgr.mem()));
                        assert(!mem0.dom().contains(new_space.spec_leaf_ppn(v)));
                    } else {
                        assert(new_space.spec_vpn_to_ppn(v) == ns0.spec_vpn_to_ppn(v));
                        if ns0.spec_vpn_to_ppn(v) is Some {
                        }
                    }
                }
                // earlier areas keep their copied pages outside this range,
                // whose frames all predate this push
                assert forall|j2: int| 0 <= j2 < j implies #[trigger] new_space.area_copied_outside(
                    address_space,
                    j2,
                    lo,
                    hi,
                    mgr0.mem(),
                    mem0,
                ) by {
                    assert(ns0.area_copied(address_space, j2, mgr0.mem(), mem0));
                    let astart = address_space.spec_areas()[j2].spec_vpn_start();
                    let aend = address_space.spec_areas()[j2].spec_vpn_end();
                    assert forall|x: int|
                        0 <= x < aend - astart && !(lo <= astart + x
                            < hi) implies #[trigger] new_space.area_page_ok(
                        address_space,
                        j2,
                        x,
                        mgr0.mem(),
                        mem0,
                    ) by {
                        let v = (astart + x) as usize;
                        assert(ns0.area_page_ok(address_space, j2, x, mgr0.mem(), mem0));
                        assert(ns0.page_copied(address_space, v, mgr0.mem(), mem0));
                        assert(ns0.spec_vpn_to_ppn(v) is Some);
                        assert(v < 0x800_0000);
                        assert(ns0.spec_route(v) is Some);
                        assert(new_space.spec_leaf(v) == ns0.spec_leaf(v));
                    }
                }
                assert forall|j2: int| 0 <= j2 < j implies #[trigger] new_space.area_copied_outside(
                    address_space,
                    j2,
                    lo,
                    hi,
                    mgr0.mem(),
                    mgr.mem(),
                ) by {
                    assert(ns0.area_copied(address_space, j2, mgr0.mem(), mem0));
                    let astart = address_space.spec_areas()[j2].spec_vpn_start();
                    let aend = address_space.spec_areas()[j2].spec_vpn_end();
                    assert forall|x: int|
                        0 <= x < aend - astart && !(lo <= astart + x
                            < hi) implies #[trigger] new_space.area_page_ok(
                        address_space,
                        j2,
                        x,
                        mgr0.mem(),
                        mgr.mem(),
                    ) by {
                        let v = (astart + x) as usize;
                        assert(ns0.area_page_ok(address_space, j2, x, mgr0.mem(), mem0));
                        assert(ns0.page_copied(address_space, v, mgr0.mem(), mem0));
                        assert(ns0.spec_vpn_to_ppn(v) is Some);
                        assert(v < 0x800_0000);
                        assert(ns0.spec_route(v) is Some);
                        assert(new_space.spec_leaf(v) == ns0.spec_leaf(v));
                        assert(mem0.dom().contains(ns0.spec_leaf_ppn(v)));
                        assert(mgr.mem().dom().contains(ns0.spec_leaf_ppn(v)));
                        assert(mgr.mem()[ns0.spec_leaf_ppn(v)] == mem0[ns0.spec_leaf_ppn(v)]);
                    }
                }
            }
            let ghost mem_p = mgr.mem();
            let ghost ns1 = new_space;
            let start = area.vpn_range().start;
            let end = area.vpn_range().end;
            let len = end.0 - start.0;
            let mut x: usize = 0;
            while x < len
                invariant
                    mgr0 == *old(mgr),
                    usize::MAX == u64::MAX,
                    address_space.wf(),
                    address_space.copy_ready(mgr0.mem()),
                    0 <= j < address_space.spec_areas().len(),
                    *area == address_space.spec_areas()[j as int],
                    start.0 == area.spec_vpn_start(),
                    len == area.spec_vpn_end() - area.spec_vpn_start(),
                    start.0 + len <= 0x800_0000,
                    lo == start.0 && hi == start.0 + len,
                    new_area.spec_vpn_start() == start.0 && new_area.spec_vpn_end() == start.0
                        + len,
                    new_area.spec_ppn_start() is None,
                    x <= len,
                    new_space == ns1,
                    new_space.wf(),
                    mgr.inv(),
                    mgr.mem().dom() =~= mem_p.dom(),
                    forall|q: int|
                        mgr0.mem().dom().contains(q) ==> #[trigger] mgr.mem().dom().contains(q)
                            && mgr.mem()[q] == mgr0.mem()[q],
                    new_space.leaves_fresh(mgr0.mem(), mgr.mem()),
                    new_space.pages_done(new_area, true, len as int, mem0, mem_p),
                    forall|x1: int, x2: int|
                        0 <= x1 < x2 < len ==> #[trigger] new_space.spec_leaf_ppn(
                            ((start.0 + x1) as usize),
                        ) != #[trigger] new_space.spec_leaf_ppn(((start.0 + x2) as usize)),
                    forall|x0: int|
                        0 <= x0 < x ==> #[trigger] new_space.page_copied(
                            address_space,
                            ((start.0 + x0) as usize),
                            mgr0.mem(),
                            mgr.mem(),
                        ),
                    forall|j2: int|
                        0 <= j2 < j ==> #[trigger] new_space.area_copied_outside(
                            address_space,
                            j2,
                            lo,
                            hi,
                            mgr0.mem(),
                            mgr.mem(),
                        ),
                    forall|j2: int|
                        0 <= j2 < j ==> #[trigger] new_space.area_copied_outside(
                            address_space,
                            j2,
                            lo,
                            hi,
                            mgr0.mem(),
                            mem0,
                        ),
                decreases len - x,
            {
                let vpn = PageNumber(start.0 + x);
                proof {
                    assert(new_space.page_mapped_ok(new_area, true, x as int, mem0, mem_p));
                }
                let dst = match new_space.vpn_to_ppn(vpn) {
                    Some(p) => p,
                    None => {
                        proof {
                            assert(false);
                        }
                        return Err(PTableError::AllocError);
                    },
                };
                let src = match address_space.vpn_to_ppn(vpn) {
                    Some(p) => p,
                    None => {
                        proof {
                            assert(address_space.spec_vpn_to_ppn(vpn.0) is Some);
                            assert(false);
                        }
                        return Err(PTableError::AllocError);
                    },
                };
                proof {
                    assert(mgr0.mem().dom().contains(src.0 as int));
                    assert(mgr.mem().dom().contains(src.0 as int));
                    assert(mgr.mem().dom().contains(dst.0 as int));
                    assert(!mem0.dom().contains(dst.0 as int));
                    assert(!mgr0.mem().dom().contains(dst.0 as int));
                }
                let ghost memc = mgr.mem();
                mgr.copy_frame(src, dst);
                proof {
                    assert(mgr.mem() == memc.insert(dst.0 as int, memc[src.0 as int]));
                    assert(mgr.mem()[dst.0 as int] == mgr0.mem()[src.0 as int]);
                    // the fresh frame written is nobody else's backing
                    assert forall|x0: int| 0 <= x0 < x + 1 implies #[trigger] new_space.page_copied(
                        address_space,
                        ((start.0 + x0) as usize),
                        mgr0.mem(),
                        mgr.mem(),
                    ) by {
                        let v0 = (start.0 + x0) as usize;
                        if x0 < x {
                            assert(new_space.page_copied(address_space, v0, mgr0.mem(), memc));
                            assert(new_space.spec_leaf_ppn(v0) != new_space.spec_leaf_ppn(vpn.0));
                            assert(new_space.spec_leaf_ppn(vpn.0) == dst.0 as int);
                        } else {
                            assert(new_space.spec_leaf_ppn(vpn.0) == dst.0 as int);
                        }
                    }
                    assert forall|j2: int|
                        0 <= j2 < j implies #[trigger] new_space.area_copied_outside(
                        address_space,
                        j2,
                        lo,
                        hi,
                        mgr0.mem(),
                        mgr.mem(),
                    ) by {
                        let astart = address_space.spec_areas()[j2].spec_vpn_start();
                        let aend = address_space.spec_areas()[j2].spec_vpn_end();
                        assert(new_space.area_copied_outside(
                            address_space,
                            j2,
                            lo,
                            hi,
                            mgr0.mem(),
                            memc,
                        ));
                        assert forall|x2: int|
                            0 <= x2 < aend - astart && !(lo <= astart + x2
                                < hi) implies #[trigger] new_space.area_page_ok(
                            address_space,
                            j2,
                            x2,
                            mgr0.mem(),
                            mgr.mem(),
                        ) by {
                            let v2 = (astart + x2) as usize;
                            assert(new_space.area_page_ok(address_space, j2, x2, mgr0.mem(), memc));
                            assert(new_space.page_copied(address_space, v2, mgr0.mem(), memc));
                            assert(new_space.area_copied_outside(
                                address_space,
                                j2,
                                lo,
                                hi,
                                mgr0.mem(),
                                mem0,
                            ));
                            assert(new_space.area_page_ok(address_space, j2, x2, mgr0.mem(), mem0));
                            assert(new_space.page_copied(address_space, v2, mgr0.mem(), mem0));
                            assert(mem0.dom().contains(new_space.spec_leaf_ppn(v2)));
                            assert(!mem0.dom().contains(dst.0 as int));
                            assert(new_space.spec_leaf_ppn(v2) != dst.0 as int);
                        }
                    }
                }
                x = x + 1;
            }
            proof {
                // the whole area is copied now, and the earlier ones follow
                assert forall|x0: int|
                    0 <= x0 < hi - lo implies #[trigger] new_space.spec_vpn_to_ppn(
                    ((lo + x0) as usize),
                ) is Some by {
                    assert(new_space.page_mapped_ok(new_area, true, x0, mem0, mem_p));
                }
                Self::lemma_copy_area_end(
                    &new_space,
                    address_space,
                    j as int,
                    lo,
                    hi,
                    mgr0.mem(),
                    mgr.mem(),
                );
            }
            j = j + 1;
        }
        let ghost mem_areas = mgr.mem();
        let ghost ns_areas = new_space;
        let mut k: usize = 0;
        let nk = address_space.single_vpn.len();
        while k < nk
            invariant
                mgr0 == *old(mgr),
                usize::MAX == u64::MAX,
                address_space.wf(),
                address_space.copy_ready(mgr0.mem()),
                n == address_space.spec_areas().len(),
                nk == address_space.spec_singles().len(),
                k <= nk,
                new_space.wf(),
                mgr.inv(),
                forall|q: int|
                    mgr0.mem().dom().contains(q) ==> #[trigger] mgr.mem().dom().contains(q)
                        && mgr.mem()[q] == mgr0.mem()[q],
                new_space.leaves_fresh(mgr0.mem(), mgr.mem()),
                forall|j2: int|
                    0 <= j2 < n ==> #[trigger] new_space.area_copied(
                        address_space,
                        j2,
                        mgr0.mem(),
                        mgr.mem(),
                    ),
                new_space.singles_copied(address_space, k as int, mgr0.mem(), mgr.mem()),
                new_space.spec_areas().len() == n as int,
                forall|j2: int|
                    0 <= j2 < n ==> {
                        let a2 = #[trigger] new_space.spec_areas()[j2];
                        let a0 = address_space.spec_areas()[j2];
                        a2.spec_vpn_start() == a0.spec_vpn_start() && a2.spec_vpn_end()
                            == a0.spec_vpn_end() && a2.spec_permission() == a0.spec_permission()
                            && a2.spec_ppn_start() is None
                    },
                new_space.spec_singles() == address_space.spec_singles().take(k as int),
            decreases nk - k,
        {
            let (vpn, perm) = address_space.single_vpn[k];
            let ghost ns0 = new_space;
            let ghost mem0 = mgr.mem();
            let new_ppn = match new_space.push_with_vpn(vpn, perm, mgr) {
                Ok(p) => p,
                Err(e) => {
                    return Err(e);
                },
            };
            let src = match address_space.vpn_to_ppn(vpn) {
                Some(p) => p,
                None => {
                    proof {
                        assert(address_space.spec_vpn_to_ppn(vpn.0) is Some);
                        assert(false);
                    }
                    return Err(PTableError::AllocError);
                },
            };
            proof {
                assert(mgr0.mem().dom().contains(src.0 as int));
                assert(mgr.mem().dom().contains(src.0 as int));
                assert(mgr.mem().dom().contains(new_ppn.0 as int));
                assert(!mem0.dom().contains(new_ppn.0 as int));
                assert(!mgr0.mem().dom().contains(new_ppn.0 as int));
            }
            let ghost memc = mgr.mem();
            mgr.copy_frame(src, new_ppn);
            proof {
                assert(new_space.spec_singles() =~= address_space.spec_singles().take(
                    k as int + 1,
                ));
                assert(mgr.mem() == memc.insert(new_ppn.0 as int, memc[src.0 as int]));
                assert(mgr.mem()[new_ppn.0 as int] == mgr0.mem()[src.0 as int]);
                // a fresh frame again: every translation except the new page
                // keeps its frame and bytes, and the new page now holds the
                // source's
                assert forall|v: usize|
                    v < 0x800_0000 && (#[trigger] new_space.spec_vpn_to_ppn(v))
                        is Some implies !mgr0.mem().dom().contains(
                    new_space.spec_vpn_to_ppn(v)->Some_0,
                ) && mgr.mem().dom().contains(new_space.spec_vpn_to_ppn(v)->Some_0) by {
                    if v == vpn.0 {
                        assert(new_space.spec_leaf(vpn.0)->Some_0.spec_ppn() == new_ppn.0);
                        assert(mgr.mem().dom() =~= memc.dom());
                    } else {
                        assert(new_space.spec_vpn_to_ppn(v) == ns0.spec_vpn_to_ppn(v));
                        assert(ns0.spec_vpn_to_ppn(v) is Some);
                        assert(mem0.dom().contains(ns0.spec_vpn_to_ppn(v)->Some_0));
                        assert(crate::bits64::mem_grown(mem0, memc));
                        assert(memc.dom().contains(ns0.spec_vpn_to_ppn(v)->Some_0));
                        assert(mgr.mem().dom() =~= memc.dom());
                    }
                }
                assert(new_space.page_copied(address_space, vpn.0, mgr0.mem(), mgr.mem())) by {
                    assert(new_space.spec_leaf_ppn(vpn.0) == new_ppn.0 as int);
                }
                assert forall|j2: int| 0 <= j2 < n implies #[trigger] new_space.area_copied(
                    address_space,
                    j2,
                    mgr0.mem(),
                    mgr.mem(),
                ) by {
                    let astart = address_space.spec_areas()[j2].spec_vpn_start();
                    let aend = address_space.spec_areas()[j2].spec_vpn_end();
                    assert forall|x2: int|
                        0 <= x2 < aend - astart implies #[trigger] new_space.area_page_ok(
                        address_space,
                        j2,
                        x2,
                        mgr0.mem(),
                        mgr.mem(),
                    ) by {
                        let v2 = (astart + x2) as usize;
                        assert(ns0.area_copied(address_space, j2, mgr0.mem(), mem0));
                        assert(ns0.area_page_ok(address_space, j2, x2, mgr0.mem(), mem0));
                        assert(ns0.page_copied(address_space, v2, mgr0.mem(), mem0));
                        assert(ns0.spec_vpn_to_ppn(v2) is Some);
                        if v2 == vpn.0 {
                            assert(new_space.page_copied(
                                address_space,
                                vpn.0,
                                mgr0.mem(),
                                mgr.mem(),
                            ));
                            assert(address_space.spec_singles()[k as int].1.0 & 0x01 == 0x01);
                            assert(perm.0 & 0x01 == 0x01);
                            let lf = new_space.spec_leaf(vpn.0)->Some_0;
                            crate::entry::lemma_flag_valid_bit(lf);
                            assert(new_space.spec_vpn_to_ppn(vpn.0) is Some);
                        } else {
                            assert(new_space.spec_leaf(v2) == ns0.spec_leaf(v2));
                            assert(new_space.spec_vpn_to_ppn(v2) == ns0.spec_vpn_to_ppn(v2));
                            assert(mem0.dom().contains(ns0.spec_leaf_ppn(v2)));
                            assert(ns0.spec_leaf_ppn(v2) != new_ppn.0 as int);
                            assert(mgr.mem()[ns0.spec_leaf_ppn(v2)] == mem0[ns0.spec_leaf_ppn(
                                v2,
                            )]);
                        }
                    }
                }
                assert forall|k2: int|
                    0 <= k2 < k + 1 && k2 < nk implies #[trigger] new_space.single_copied_ok(
                    address_space,
                    k2,
                    mgr0.mem(),
                    mgr.mem(),
                ) by {
                    let v2 = address_space.spec_singles()[k2].0.0;
                    if k2 < k {
                        assert(ns0.single_copied_ok(address_space, k2, mgr0.mem(), mem0));
                        assert(ns0.page_copied(address_space, v2, mgr0.mem(), mem0));
                        if v2 == vpn.0 {
                            assert(new_space.page_copied(
                                address_space,
                                vpn.0,
                                mgr0.mem(),
                                mgr.mem(),
                            ));
                            assert(address_space.spec_singles()[k2].1.0 & 0x01 == 0x01);
                            let lf = new_space.spec_leaf(vpn.0)->Some_0;
                            crate::entry::lemma_flag_valid_bit(lf);
                            assert(new_space.spec_vpn_to_ppn(vpn.0) is Some);
                        } else {
                            assert(v2 < 0x800_0000);
                            assert(new_space.spec_leaf(v2) == ns0.spec_leaf(v2));
                            assert(new_space.spec_leaf_ppn(v2) == ns0.spec_leaf_ppn(v2));
                            assert(mem0.dom().contains(ns0.spec_leaf_ppn(v2)));
                            assert(crate::bits64::mem_grown(mem0, memc));
                            assert(memc.dom().contains(ns0.spec_leaf_ppn(v2)));
                            assert(memc[ns0.spec_leaf_ppn(v2)] == mem0[ns0.spec_leaf_ppn(v2)]);
                            assert(!mem0.dom().contains(new_ppn.0 as int));
                            assert(ns0.spec_leaf_ppn(v2) != new_ppn.0 as int);
                            assert(mgr.mem().dom().contains(ns0.spec_leaf_ppn(v2)));
                            assert(mgr.mem()[ns0.spec_leaf_ppn(v2)] == mem0[ns0.spec_leaf_ppn(
                                v2,
                            )]);
                            assert(new_space.page_copied(address_space, v2, mgr0.mem(), mgr.mem()));
                            if address_space.spec_singles()[k2].1.0 & 0x01 == 0x01 {
                                assert(ns0.spec_vpn_to_ppn(v2) is Some);
                                assert(new_space.spec_vpn_to_ppn(v2) == ns0.spec_vpn_to_ppn(v2));
                            }
                        }
                    } else {
                        assert(v2 == vpn.0);
                        if perm.0 & 0x01 == 0x01 {
                            let lf = new_space.spec_leaf(vpn.0)->Some_0;
                            crate::entry::lemma_flag_valid_bit(lf);
                            assert(lf.spec_flag_bits() & 0x01 == 0x01);
                            assert(new_space.spec_vpn_to_ppn(vpn.0) is Some);
                        }
                    }
                }
            }
            k = k + 1;
        }
        proof {
            assert(address_space.spec_singles().take(nk as int) =~= address_space.spec_singles());
        }
        Ok(new_space)
    }
}

impl AddressSpace {
    /// Like `push`, but additionally lays `data` into the freshly mapped
    /// region, one 4 KiB page at a time in rising page order.  Short data is
    /// allowed; the remainder of the last page is left as allocated, all
    /// zeroes.
    pub fn push_with_data<M: PageManager>(
        &mut self,
        map_area: Area,
        data: &[u8],
        mgr: &mut M,
    ) -> (r: Result<(), PTableError>)
        requires
            old(self).wf(),
            old(mgr).inv(),
            map_area.wf(),
            map_area.spec_ppn_start() is None,
            map_area.spec_vpn_end() <= 0x800_0000,
        ensures
            final (self).wf(),
            final (mgr).inv(),
            final (self).spec_singles() == old(self).spec_singles(),
            match r {
                Ok(()) => final (self).spec_areas() == old(self).spec_areas().push(map_area)
                    && final (self).pages_done(
                    map_area,
                    true,
                    map_area.spec_vpn_end() - map_area.spec_vpn_start(),
                    old(mgr).mem(),
                    final (mgr).mem(),
                ) && (forall|x: int|
                    0 <= x < map_area.spec_vpn_end() - map_area.spec_vpn_start() && x * 4096
                        < data@.len() ==> #[trigger] page_bytes_laid(
                        final (mgr).mem(),
                        final (self).spec_leaf_ppn(((map_area.spec_vpn_start() + x) as usize)),
                        data@,
                        x * 4096,
                    )),
                Err(e) => e == PTableError::AllocError && final (self).spec_areas() == old(
                    self,
                ).spec_areas(),
            },
            old(self).spec_root_ppn() is Some ==> final (self).spec_root_ppn() == old(
                self,
            ).spec_root_ppn(),
            r is Ok ==> final (self).spec_root_ppn() is Some,
    {
        let ghost mgr0 = *mgr;
        match self.map(&map_area, true, true, mgr) {
            Ok(_) => {},
            Err(e) => {
                return Err(e);
            },
        }
        let ghost mid = *self;
        self.map_area.push(map_area);
        proof {
            lemma_space_unchanged_wf(mid, *self);
            lemma_pages_done_frame(
                mid,
                *self,
                map_area,
                true,
                map_area.spec_vpn_end() - map_area.spec_vpn_start(),
                mgr0.mem(),
                mgr.mem(),
            );
            assert forall|x1: int, x2: int|
                0 <= x1 < x2 < map_area.spec_vpn_end()
                    - map_area.spec_vpn_start() implies #[trigger] self.spec_leaf_ppn(
                ((map_area.spec_vpn_start() + x1) as usize),
            ) != #[trigger] self.spec_leaf_ppn(((map_area.spec_vpn_start() + x2) as usize)) by {
                let v1 = (map_area.spec_vpn_start() + x1) as usize;
                let v2 = (map_area.spec_vpn_start() + x2) as usize;
                assert(mid.spec_leaf_ppn(v1) != mid.spec_leaf_ppn(v2));
                assert(self.spec_leaf(v1) == mid.spec_leaf(v1));
                assert(self.spec_leaf(v2) == mid.spec_leaf(v2));
            }
        }
        let ghost mem_mapped = mgr.mem();
        proof {
            // the fresh leaf frames are the zeroed pages allocation gave out
            assert forall|x0: int|
                0 <= x0 < map_area.spec_vpn_end()
                    - map_area.spec_vpn_start() implies #[trigger] mgr.mem()[self.spec_leaf_ppn(
                ((map_area.spec_vpn_start() + x0) as usize),
            )].len() == 4096 by {
                assert(self.page_mapped_ok(map_area, true, x0, mgr0.mem(), mem_mapped));
                let pp = self.spec_leaf_ppn(((map_area.spec_vpn_start() + x0) as usize));
                assert(!mgr0.mem().dom().contains(pp));
                assert(mem_mapped.dom().contains(pp));
                assert(crate::bits64::mem_grown(mgr0.mem(), mem_mapped));
                assert(mem_mapped[pp] == crate::zero_frame());
            }
        }
        let start_vpn = map_area.vpn_range().start;
        let end_vpn = map_area.vpn_range().end;
        let pages = end_vpn.0 - start_vpn.0;
        let len = data.len();
        let mut x: usize = 0;
        let mut start: usize = 0;
        while x < pages && start < len
            invariant
                mgr0 == *old(mgr),
                self.wf(),
                mgr.inv(),
                x <= pages,
                start <= len,
                len == data@.len(),
                pages == map_area.spec_vpn_end() - map_area.spec_vpn_start(),
                start_vpn.0 == map_area.spec_vpn_start(),
                start_vpn.0 + pages <= 0x800_0000,
                map_area.spec_ppn_start() is None,
                self.pages_done(map_area, true, pages as int, mgr0.mem(), mem_mapped),
                forall|q: int|
                    #[trigger] mgr.mem().dom().contains(q) <==> mem_mapped.dom().contains(q),
                len == data@.len(),
                start == x * 4096 || start >= len,
                start >= len ==> x as int * 4096 >= len,
                forall|x1: int, x2: int|
                    0 <= x1 < x2 < pages ==> #[trigger] self.spec_leaf_ppn(
                        ((map_area.spec_vpn_start() + x1) as usize),
                    ) != #[trigger] self.spec_leaf_ppn(((map_area.spec_vpn_start() + x2) as usize)),
                forall|x0: int|
                    0 <= x0 < pages ==> #[trigger] mgr.mem()[self.spec_leaf_ppn(
                        ((map_area.spec_vpn_start() + x0) as usize),
                    )].len() == 4096,
                forall|x0: int|
                    0 <= x0 < x && x0 * 4096 < len ==> #[trigger] page_bytes_laid(
                        mgr.mem(),
                        self.spec_leaf_ppn(((map_area.spec_vpn_start() + x0) as usize)),
                        data@,
                        x0 * 4096,
                    ),
            decreases pages - x,
        {
            let vpn = PageNumber(start_vpn.0 + x);
            proof {
                assert(self.page_mapped_ok(map_area, true, x as int, mgr0.mem(), mem_mapped));
            }
            let ppn = match self.vpn_to_ppn(vpn) {
                Some(p) => p,
                None => {
                    proof {
                        assert(false);
                    }
                    return Err(PTableError::AllocError);
                },
            };
            proof {
                assert(vpn.0 == ((map_area.spec_vpn_start() + x as int) as usize));
                assert(self.page_mapped_ok(map_area, true, x as int, mgr0.mem(), mem_mapped));
                assert(mem_mapped.dom().contains(
                    self.spec_leaf_ppn(((map_area.spec_vpn_start() + x as int) as usize)),
                ));
                assert(self.spec_leaf_ppn(vpn.0) == ppn.0);
                assert(mem_mapped.dom().contains(ppn.0 as int));
                assert(mgr.mem().dom().contains(ppn.0 as int));
                assert(mgr.mem()[ppn.0 as int].len() == 4096);
            }
            let chunk = if len - start < 4096 {
                len - start
            } else {
                4096
            };
            let ghost mem_x = mgr.mem();
            let mut b: usize = 0;
            while b < chunk
                invariant
                    mgr.inv(),
                    b <= chunk,
                    chunk <= 4096,
                    start + chunk <= len,
                    len == data@.len(),
                    ppn.0 as int == self.spec_leaf_ppn(vpn.0),
                    mgr.mem().dom().contains(ppn.0 as int),
                    mgr.mem().dom() =~= mem_x.dom(),
                    mem_x.dom() =~= mem_mapped.dom(),
                    mgr.mem()[ppn.0 as int].len() == 4096,
                    forall|q: int|
                        q != ppn.0 as int && #[trigger] mgr.mem().dom().contains(q) ==> mgr.mem()[q]
                            == mem_x[q],
                    forall|b2: int|
                        0 <= b2 < b ==> #[trigger] mgr.mem()[ppn.0 as int][b2] == data@[start + b2],
                decreases chunk - b,
            {
                let byte = data[start + b];
                let ghost memb = mgr.mem();
                mgr.write_byte(ppn, b, byte);
                proof {
                    assert(mgr.mem() == memb.insert(
                        ppn.0 as int,
                        memb[ppn.0 as int].update(b as int, byte),
                    ));
                }
                b = b + 1;
            }
            proof {
                // this page now carries its slice of the data
                assert(page_bytes_laid(
                    mgr.mem(),
                    self.spec_leaf_ppn(((map_area.spec_vpn_start() + x as int) as usize)),
                    data@,
                    x as int * 4096,
                )) by {
                    assert(start == x * 4096);
                    assert forall|b2: int|
                        0 <= b2 < 4096 && x as int * 4096 + b2 < data@.len() implies #[trigger] mgr.mem()[ppn.0 as int][b2]
                        == data@[x as int * 4096 + b2] by {
                        assert(b2 < chunk);
                        assert(mgr.mem()[ppn.0 as int][b2] == data@[start + b2]);
                    }
                }
                // earlier pages keep their bytes: the fresh frames are
                // pairwise distinct
                assert forall|x0: int|
                    0 <= x0 < x + 1 && x0 * 4096 < len implies #[trigger] page_bytes_laid(
                    mgr.mem(),
                    self.spec_leaf_ppn(((map_area.spec_vpn_start() + x0) as usize)),
                    data@,
                    x0 * 4096,
                ) by {
                    if x0 < x {
                        assert(page_bytes_laid(
                            mem_x,
                            self.spec_leaf_ppn(((map_area.spec_vpn_start() + x0) as usize)),
                            data@,
                            x0 * 4096,
                        ));
                        assert(self.spec_leaf_ppn(((map_area.spec_vpn_start() + x0) as usize))
                            != self.spec_leaf_ppn(
                            ((map_area.spec_vpn_start() + x as int) as usize),
                        ));
                        assert(self.page_mapped_ok(map_area, true, x0, mgr0.mem(), mem_mapped));
                        assert(mgr.mem().dom().contains(
                            self.spec_leaf_ppn(((map_area.spec_vpn_start() + x0) as usize)),
                        ));
                        assert(mgr.mem()[self.spec_leaf_ppn(
                            ((map_area.spec_vpn_start() + x0) as usize),
                        )] == mem_x[self.spec_leaf_ppn(
                            ((map_area.spec_vpn_start() + x0) as usize),
                        )]);
                    }
                }
                assert forall|x0: int|
                    0 <= x0 < pages implies #[trigger] mgr.mem()[self.spec_leaf_ppn(
                    ((map_area.spec_vpn_start() + x0) as usize),
                )].len() == 4096 by {
                    let pp = self.spec_leaf_ppn(((map_area.spec_vpn_start() + x0) as usize));
                    if pp != ppn.0 as int {
                        assert(self.page_mapped_ok(map_area, true, x0, mgr0.mem(), mem_mapped));
                        assert(mgr.mem().dom().contains(pp));
                        assert(mgr.mem()[pp] == mem_x[pp]);
                    }
                }
            }
            start = start + chunk;
            x = x + 1;
        }
        proof {
            assert forall|x0: int| 0 <= x0 < pages implies #[trigger] self.page_mapped_ok(
                map_area,
                true,
                x0,
                mgr0.mem(),
                mgr.mem(),
            ) by {
                assert(self.page_mapped_ok(map_area, true, x0, mgr0.mem(), mem_mapped));
            }
            // pages past the loop's end lie wholly past the data
            assert forall|x0: int|
                0 <= x0 < pages && x0 * 4096 < len implies #[trigger] page_bytes_laid(
                mgr.mem(),
                self.spec_leaf_ppn(((map_area.spec_vpn_start() + x0) as usize)),
                data@,
                x0 * 4096,
            ) by {
                assert(x0 < x) by (nonlinear_arith)
                    requires
                        x0 * 4096 < len,
                        x >= pages || start >= len,
                        start == x * 4096 || start >= len,
                        x0 < pages,
                        start >= len ==> x as int * 4096 >= len,
                ;
            }
        }
        Ok(())
    }
}

impl AddressSpace {
    /// One row of the table dump is sound: the three indices lead over
    /// valid entries to a valid leaf with the stated frame and flags.
    pub open spec fn dump_row_ok(&self, row: (usize, usize, usize, PPN, PTEFlags)) -> bool {
        let (i0, i1, i2, p, f) = row;
        &&& i0 < 512 && i1 < 512 && i2 < 512
        &&& self.spec_root_ppn() is Some
        &&& self.m0()[i0 as int].spec_is_valid()
        &&& self.m1().dom().contains(self.m0()[i0 as int].spec_ppn())
        &&& self.m1()[self.m0()[i0 as int].spec_ppn()][i1 as int].spec_is_valid()
        &&& self.m2().dom().contains(
            self.m1()[self.m0()[i0 as int].spec_ppn()][i1 as int].spec_ppn(),
        )
        &&& ({
            let mid_ppn = self.m1()[self.m0()[i0 as int].spec_ppn()][i1 as int].spec_ppn();
            let leaf = self.m2()[mid_ppn][i2 as int];
            leaf.spec_is_valid() && p.0 == leaf.spec_ppn() && f.0 == leaf.spec_flag_bits()
        })
    }

    /// The three-level dump a kernel log prints: one row for every valid
    /// leaf found under valid intermediates, as `(root index, middle index,
    /// leaf index, frame, flags)`, in walk order.  Rendered with
    /// [`PTEFlagsBuilder`](crate::entry::PTEFlagsBuilder), a row reads as
    /// the indented listing of the table.
    pub fn dump(&self) -> (r: Vec<(usize, usize, usize, PPN, PTEFlags)>)
        requires
            self.wf(),
        ensures
            forall|idx: int| 0 <= idx < r@.len() ==> #[trigger] self.dump_row_ok(r@[idx]),
    {
        let mut rows: Vec<(usize, usize, usize, PPN, PTEFlags)> = Vec::new();
        let root = match &self.root {
            Some(f) => f,
            None => {
                return rows;
            },
        };
        let mut i0: usize = 0;
        while i0 < 512
            invariant
                self.wf(),
                self.root is Some,
                root == self.root->Some_0,
                i0 <= 512,
                forall|idx: int| 0 <= idx < rows@.len() ==> #[trigger] self.dump_row_ok(rows@[idx]),
            decreases 512 - i0,
        {
            let e0 = root.table.get(i0);
            proof {
                crate::entry::lemma_flag_valid_bit(e0);
            }
            if e0.flag().bits() & 0x01 == 0x01 {
                let vj = match self.find_l1(e0.ppn().0) {
                    Some(vj) => vj,
                    None => {
                        proof {
                            assert(e0 == self.m0()[i0 as int]);
                            assert(AddressSpace::pointer_entry_ok(
                                self.m0()[i0 as int],
                                self.m1(),
                            ));
                            assert(self.m1().dom().contains(e0.spec_ppn()));
                            assert(sf_contains(self.l1@, e0.spec_ppn()));
                            assert(false);
                        }
                        return rows;
                    },
                };
                proof {
                    lemma_sf_at(self.l1@, vj as int);
                }
                let mut i1: usize = 0;
                while i1 < 512
                    invariant
                        self.wf(),
                        self.root is Some,
                        root == self.root->Some_0,
                        i0 < 512,
                        e0 == self.m0()[i0 as int],
                        e0.spec_is_valid(),
                        vj < self.l1@.len(),
                        self.l1@[vj as int].ppn as int == e0.spec_ppn(),
                        self.m1().dom().contains(e0.spec_ppn()),
                        self.m1()[e0.spec_ppn()] == self.l1@[vj as int].table.entries@,
                        i1 <= 512,
                        forall|idx: int|
                            0 <= idx < rows@.len() ==> #[trigger] self.dump_row_ok(rows@[idx]),
                    decreases 512 - i1,
                {
                    let e1 = self.l1[vj].table.get(i1);
                    proof {
                        crate::entry::lemma_flag_valid_bit(e1);
                    }
                    if e1.flag().bits() & 0x01 == 0x01 {
                        let wj = match self.find_l2(e1.ppn().0) {
                            Some(wj) => wj,
                            None => {
                                proof {
                                    assert(AddressSpace::pointer_entry_ok(
                                        self.m1()[e0.spec_ppn()][i1 as int],
                                        self.m2(),
                                    ));
                                    assert(self.m2().dom().contains(e1.spec_ppn()));
                                    assert(sf_contains(self.l2@, e1.spec_ppn()));
                                    assert(false);
                                }
                                return rows;
                            },
                        };
                        proof {
                            lemma_sf_at(self.l2@, wj as int);
                        }
                        let mut i2: usize = 0;
                        while i2 < 512
                            invariant
                                self.wf(),
                                self.root is Some,
                                root == self.root->Some_0,
                                i0 < 512,
                                i1 < 512,
                                e0 == self.m0()[i0 as int],
                                e0.spec_is_valid(),
                                self.m1().dom().contains(e0.spec_ppn()),
                                e1 == self.m1()[e0.spec_ppn()][i1 as int],
                                e1.spec_is_valid(),
                                wj < self.l2@.len(),
                                self.l2@[wj as int].ppn as int == e1.spec_ppn(),
                                self.m2().dom().contains(e1.spec_ppn()),
                                self.m2()[e1.spec_ppn()] == self.l2@[wj as int].table.entries@,
                                i2 <= 512,
                                forall|idx: int|
                                    0 <= idx < rows@.len() ==> #[trigger] self.dump_row_ok(
                                        rows@[idx],
                                    ),
                            decreases 512 - i2,
                        {
                            let leaf = self.l2[wj].table.get(i2);
                            proof {
                                crate::entry::lemma_flag_valid_bit(leaf);
                            }
                            if leaf.flag().bits() & 0x01 == 0x01 {
                                let row = (i0, i1, i2, leaf.ppn(), leaf.flag());
                                proof {
                                    assert(self.dump_row_ok(row));
                                }
                                rows.push(row);
                            }
                            i2 = i2 + 1;
                        }
                    }
                    i1 = i1 + 1;
                }
            }
            i0 = i0 + 1;
        }
        rows
    }
}

} // verus!
