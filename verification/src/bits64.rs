//! The multi-level walker for 64-bit RISC-V page tables.
//!
//! `PageTable64` owns every table frame it allocates, arranged by level: the
//! root alone on the first level, and below it the intermediate and leaf
//! tables.  A frame is identified by its physical address, handed out by the
//! caller's [`PageManager`]; the walker keeps the 512 raw entries of each
//! frame as a value of its own, which is its rendering of the kernel's
//! direct-map window.  The spec functions here define the walk over that
//! layered view, and every operation's contract is stated against them.

use vstd::prelude::*;

use crate::pte::{GenericPTE, MappingFlags, Rv64PTE};
use crate::table::{addr_aligned, PageSize, PagingError};
use crate::{page_number_in_range, PageManager, PageNumber};

verus! {

use vstd::arithmetic::power2::{lemma2_to64, lemma2_to64_rest, pow2};
use vstd::bits::lemma_usize_shr_is_div;

/// One table frame: its physical address and its 512 raw entries.
pub struct TableFrame {
    pub paddr: usize,
    pub entries: Vec<u64>,
}

/// Whether some frame of `s` has address `p`.
pub open spec fn tf_contains(s: Seq<TableFrame>, p: int) -> bool {
    exists|j: int| 0 <= j < s.len() && s[j].paddr == p
}

/// The position of the frame with address `p`.
pub open spec fn tf_index(s: Seq<TableFrame>, p: int) -> int {
    choose|j: int| 0 <= j < s.len() && s[j].paddr == p
}

/// The view of one level: physical address to entries.
pub open spec fn frame_map(s: Seq<TableFrame>) -> Map<int, Seq<u64>> {
    Map::new(|p: int| tf_contains(s, p), |p: int| s[tf_index(s, p)].entries@)
}

/// The flag nibble that makes an entry a leaf: R or X set.
pub open spec fn e_huge(e: u64) -> bool {
    e & 0x0au64 != 0u64
}

pub open spec fn e_present(e: u64) -> bool {
    e & 0x01u64 == 0x01u64
}

/// The physical address an entry points at.
pub open spec fn e_paddr(e: u64) -> int {
    (((e & crate::pte::phys_addr_mask()) << 2u64) as usize) as int
}

/// The flag bits an entry carries.
pub open spec fn e_flags(e: u64) -> usize {
    ((e & 0xffu64) as usize)
}

/// Basic facts of the entry predicates: a present or huge entry is not the
/// empty one.
proof fn lemma_e_bits(e: u64)
    by (bit_vector)
    ensures
        e_present(e) ==> e != 0u64,
        e_huge(e) ==> e != 0u64,
        e == 0u64 ==> !e_present(e) && !e_huge(e),
{
}

/// The number of address bits below the index of `layer`: 12 for the last
/// level, 9 more for each level above it.
pub open spec fn level_shift(levels: int, layer: int) -> nat {
    (12 + 9 * (levels - 1 - layer)) as nat
}

/// The 9-bit index a virtual address selects at `layer`.
pub open spec fn spec_index_at(vaddr: usize, levels: int, layer: int) -> int {
    (vaddr as int / pow2(level_shift(levels, layer)) as int) % 512
}

/// The page size a leaf at `layer` maps.
pub open spec fn size_at_layer(levels: int, layer: int) -> PageSize {
    if levels - 1 - layer == 0 {
        PageSize::Size4K
    } else if levels - 1 - layer == 1 {
        PageSize::Size2M
    } else {
        PageSize::Size1G
    }
}

/// The layer whose slots map pages of `size`.
pub open spec fn leaf_layer(levels: int, size: PageSize) -> int {
    match size {
        PageSize::Size4K => levels - 1,
        PageSize::Size2M => levels - 2,
        PageSize::Size1G => levels - 3,
    }
}

/// Result of a read-only walk: the level, table address and index of the
/// entry that maps `vaddr`, and the page size it maps, or the error the walk
/// runs into.  A huge-leaf shortcut applies everywhere but at the root of a
/// four-level table, as the hardware defines no 512 GiB pages.
pub open spec fn locate_rec(
    vs: Seq<Map<int, Seq<u64>>>,
    levels: int,
    vaddr: usize,
    layer: int,
    tbl: int,
) -> Result<(int, int, int, PageSize), PagingError>
    decreases levels - layer,
{
    let i = spec_index_at(vaddr, levels, layer);
    if layer >= levels - 1 {
        Ok((layer, tbl, i, PageSize::Size4K))
    } else {
        let e = vs[layer][tbl][i];
        if (levels == 3 || layer >= 1) && e_huge(e) {
            Ok((layer, tbl, i, size_at_layer(levels, layer)))
        } else if !e_present(e) {
            Err(PagingError::NotMapped)
        } else if e_huge(e) {
            Err(PagingError::MappedToHugePage)
        } else if !vs[layer + 1].dom().contains(e_paddr(e)) {
            Err(PagingError::NotMapped)
        } else {
            locate_rec(vs, levels, vaddr, layer + 1, e_paddr(e))
        }
    }
}

/// The walk of `locate_rec` started at the root.
pub open spec fn spec_locate(
    vs: Seq<Map<int, Seq<u64>>>,
    levels: int,
    root: int,
    vaddr: usize,
) -> Result<(int, int, int, PageSize), PagingError> {
    locate_rec(vs, levels, vaddr, 0, root)
}

/// Result of a creating walk towards the slot for a page of the target
/// layer, before any table is created: the slot when the path is complete,
/// `NoMemory` where a table is missing and would have to be created, and the
/// error of the walk otherwise.
pub open spec fn locate_at_rec(
    vs: Seq<Map<int, Seq<u64>>>,
    levels: int,
    vaddr: usize,
    target: int,
    layer: int,
    tbl: int,
) -> Result<(int, int), PagingError>
    decreases target - layer,
{
    let i = spec_index_at(vaddr, levels, layer);
    if layer >= target {
        Ok((tbl, i))
    } else {
        let e = vs[layer][tbl][i];
        if e == 0u64 {
            Err(PagingError::NoMemory)
        } else if !e_present(e) {
            Err(PagingError::NotMapped)
        } else if e_huge(e) {
            Err(PagingError::MappedToHugePage)
        } else if !vs[layer + 1].dom().contains(e_paddr(e)) {
            Err(PagingError::NotMapped)
        } else {
            locate_at_rec(vs, levels, vaddr, target, layer + 1, e_paddr(e))
        }
    }
}

/// The creating walk started at the root.
pub open spec fn spec_locate_at(
    vs: Seq<Map<int, Seq<u64>>>,
    levels: int,
    root: int,
    vaddr: usize,
    target: int,
) -> Result<(int, int), PagingError> {
    locate_at_rec(vs, levels, vaddr, target, 0, root)
}

/// The table the root reaches at `layer`, following present, non-huge
/// entries, if any.
pub open spec fn table_at_layer(
    vs: Seq<Map<int, Seq<u64>>>,
    levels: int,
    root: int,
    vaddr: usize,
    layer: int,
) -> Option<int>
    decreases layer,
{
    if layer <= 0 {
        if vs[0].dom().contains(root) {
            Some(root)
        } else {
            None
        }
    } else {
        match table_at_layer(vs, levels, root, vaddr, layer - 1) {
            None => None,
            Some(t) => {
                let e = vs[layer - 1][t][spec_index_at(vaddr, levels, layer - 1)];
                if e != 0u64 && e_present(e) && !e_huge(e) && vs[layer].dom().contains(e_paddr(e)) {
                    Some(e_paddr(e))
                } else {
                    None
                }
            },
        }
    }
}

/// The root reaches `tbl` at `layer` through present, non-huge entries.
pub open spec fn walk_prefix(
    vs: Seq<Map<int, Seq<u64>>>,
    levels: int,
    root: int,
    vaddr: usize,
    layer: int,
    tbl: int,
) -> bool {
    table_at_layer(vs, levels, root, vaddr, layer) == Some(tbl)
}

/// The query a read-only walk answers: physical address of the mapped page
/// with the offset of `vaddr` inside it, the flag bits, and the page size.
pub open spec fn spec_query(
    vs: Seq<Map<int, Seq<u64>>>,
    levels: int,
    root: int,
    vaddr: usize,
) -> Result<(int, usize, PageSize), PagingError> {
    match spec_locate(vs, levels, root, vaddr) {
        Ok((k, t, i, sz)) => {
            let e = vs[k][t][i];
            if e == 0u64 {
                Err(PagingError::NotMapped)
            } else {
                Ok((e_paddr(e) + (vaddr as int % sz.spec_bytes() as int), e_flags(e), sz))
            }
        },
        Err(e) => Err(e),
    }
}

/// One level's frames are well formed: 512 entries each, frame-aligned
/// addresses inside the frame-number field's range.
pub open spec fn frames_wf(s: Seq<TableFrame>) -> bool {
    forall|j: int|
        0 <= j < s.len() ==> (#[trigger] s[j]).entries@.len() == 512 && s[j].paddr % 4096 == 0 && (
        s[j].paddr as u64) < 0x100_0000_0000_0000u64
}

/// A generic page table for 64-bit platforms: the root and every
/// intermediate table it has allocated, arranged by level, and the record of
/// the leaf mappings it has installed, each marked as library-owned (the
/// backing frame must be freed on unmap) or caller-owned.
pub struct PageTable64 {
    levels: usize,
    root_paddr: usize,
    layers: Vec<Vec<TableFrame>>,
    record: Vec<(usize, bool)>,
}

impl PageTable64 {
    /// The layered view: one map per level, physical address to entries.
    pub closed spec fn views(&self) -> Seq<Map<int, Seq<u64>>> {
        Seq::new(self.layers@.len() as nat, |k: int| frame_map(self.layers@[k]@))
    }

    pub closed spec fn spec_levels(&self) -> int {
        self.levels as int
    }

    pub closed spec fn spec_root(&self) -> int {
        self.root_paddr as int
    }

    /// The recorded leaf mappings: virtual address and whether the backing
    /// frame is library-owned.
    pub closed spec fn record_view(&self) -> Seq<(usize, bool)> {
        self.record@
    }

    pub open spec fn record_contains(&self, vaddr: usize) -> bool {
        exists|j: int| 0 <= j < self.record_view().len() && self.record_view()[j].0 == vaddr
    }

    /// The located slot of a recorded address, with the page size dropped.
    pub open spec fn record_slot(&self, vaddr: usize) -> (int, int, int) {
        match spec_locate(self.views(), self.spec_levels(), self.spec_root(), vaddr) {
            Ok((k, t, i, sz)) => (k, t, i),
            Err(e) => (-1, -1, -1),
        }
    }

    spec fn layers_wf(&self) -> bool {
        &&& usize::MAX == u64::MAX
        &&& (self.levels == 3 || self.levels == 4)
        &&& self.layers@.len() == self.levels
        &&& (forall|k: int| 0 <= k < self.layers@.len() ==> frames_wf(#[trigger] self.layers@[k]@))
        &&& (forall|k1: int, j1: int, k2: int, j2: int|
            0 <= k1 < self.layers@.len() && 0 <= j1 < self.layers@[k1]@.len() && 0 <= k2
                < self.layers@.len() && 0 <= j2 < self.layers@[k2]@.len() && (k1 != k2 || j1 != j2)
                ==> (#[trigger] self.layers@[k1]@[j1]).paddr != (#[trigger] self.layers@[k2]@[j2]).paddr)
        &&& self.layers@[0]@.len() == 1
        &&& self.layers@[0]@[0].paddr == self.root_paddr
    }

    spec fn record_entry_ok(&self, j: int) -> bool {
        let v = self.record_view()[j].0;
        match spec_locate(self.views(), self.spec_levels(), self.spec_root(), v) {
            Ok((k, t, i, sz)) => self.views()[k][t][i] != 0u64,
            Err(e) => false,
        }
    }

    spec fn record_wf(&self) -> bool {
        &&& (forall|j1: int, j2: int|
            0 <= j1 < j2 < self.record_view().len() ==> (#[trigger] self.record_view()[j1]).0 != (
            #[trigger] self.record_view()[j2]).0)
        &&& (forall|j: int| 0 <= j < self.record_view().len() ==> self.record_entry_ok(j))
        &&& (forall|j1: int, j2: int|
            0 <= j1 < j2 < self.record_view().len() ==> self.record_slot(
                (#[trigger] self.record_view()[j1]).0,
            ) != self.record_slot((#[trigger] self.record_view()[j2]).0))
    }

    /// Well-formedness: the frame arena is consistent and every recorded
    /// address maps to its own non-empty slot.
    pub closed spec fn wf(&self) -> bool {
        self.layers_wf() && self.record_wf()
    }
}

/// The 9-bit index of `vaddr` at `layer`.
fn index_at(vaddr: usize, levels: usize, layer: usize) -> (r: usize)
    requires
        usize::MAX == u64::MAX,
        levels == 3 || levels == 4,
        layer < levels,
    ensures
        r == spec_index_at(vaddr, levels as int, layer as int),
        r < 512,
{
    let sh: usize = 12 + 9 * (levels - 1 - layer);
    proof {
        lemma2_to64();
        lemma2_to64_rest();
        assert(usize::BITS == 64);
        lemma_usize_shr_is_div(vaddr, sh);
        let v = vaddr;
        let s64 = sh as u64;
        assert(((v >> s64) & 0x1ff) == (v >> s64) % 512) by (bit_vector);
    }
    (vaddr >> sh) & 0x1ff
}

impl PageTable64 {
    /// Position of the frame with address `paddr` on level `k`.
    fn find_frame(&self, k: usize, paddr: usize) -> (r: Option<usize>)
        requires
            k < self.layers@.len(),
        ensures
            match r {
                Some(j) => j < self.layers@[k as int]@.len() && self.layers@[k as int]@[j as int].paddr
                    == paddr,
                None => !frame_map(self.layers@[k as int]@).dom().contains(paddr as int),
            },
    {
        let frames = &self.layers[k];
        let mut j: usize = 0;
        while j < frames.len()
            invariant
                j <= frames@.len(),
                frames@ == self.layers@[k as int]@,
                forall|a: int| 0 <= a < j ==> (#[trigger] frames@[a]).paddr != paddr,
            decreases frames@.len() - j,
        {
            if frames[j].paddr == paddr {
                return Some(j);
            }
            j = j + 1;
        }
        proof {
            if tf_contains(self.layers@[k as int]@, paddr as int) {
                let a = tf_index(self.layers@[k as int]@, paddr as int);
                assert(0 <= a < self.layers@[k as int]@.len() && self.layers@[k as int]@[a].paddr
                    == paddr as int);
                assert(false);
            }
        }
        None
    }

    /// The entry at a slot, by level, frame position and index.
    fn entry_at(&self, k: usize, vi: usize, i: usize) -> (r: u64)
        requires
            self.wf(),
            k < self.layers@.len(),
            vi < self.layers@[k as int]@.len(),
            i < 512,
        ensures
            r == self.views()[k as int][self.layers@[k as int]@[vi as int].paddr as int][i as int],
    {
        proof {
            let s = self.layers@[k as int]@;
            let p = s[vi as int].paddr as int;
            assert(tf_contains(s, p));
            let j = tf_index(s, p);
            assert(0 <= j < s.len() && s[j].paddr == p);
            assert(j == vi as int);
        }
        self.layers[k][vi].entries[i]
    }

    /// The read-only walk, as `locate_rec` describes it: level, frame
    /// position, index and size of the entry mapping `vaddr`.
    fn locate(&self, vaddr: usize) -> (r: Result<(usize, usize, usize, PageSize), PagingError>)
        requires
            self.wf(),
        ensures
            match r {
                Ok((k, vi, i, sz)) => k < self.layers@.len() && vi < self.layers@[k as int]@.len()
                    && i < 512 && spec_locate(self.views(), self.spec_levels(), self.spec_root(), vaddr) == Ok::<
                    (int, int, int, PageSize),
                    PagingError,
                >((k as int, self.layers@[k as int]@[vi as int].paddr as int, i as int, sz)),
                Err(e) => spec_locate(self.views(), self.spec_levels(), self.spec_root(), vaddr)
                    == Err::<(int, int, int, PageSize), PagingError>(e) && (e
                    == PagingError::NotMapped || e == PagingError::MappedToHugePage),
            },
    {
        let mut k: usize = 0;
        let mut vi: usize = 0;
        proof {
            assert(self.layers@[0]@[0].paddr == self.root_paddr);
        }
        while k < self.levels - 1
            invariant
                self.wf(),
                k < self.layers@.len(),
                vi < self.layers@[k as int]@.len(),
                locate_rec(
                    self.views(),
                    self.spec_levels(),
                    vaddr,
                    k as int,
                    self.layers@[k as int]@[vi as int].paddr as int,
                ) == spec_locate(self.views(), self.spec_levels(), self.spec_root(), vaddr),
            decreases self.levels - k,
        {
            let i = index_at(vaddr, self.levels, k);
            let e = self.entry_at(k, vi, i);
            let pte = Rv64PTE(e);
            if (self.levels == 3 || k >= 1) && pte.is_huge() {
                return Ok((k, vi, i, if self.levels - 1 - k == 1 {
                    PageSize::Size2M
                } else {
                    PageSize::Size1G
                }));
            }
            if !pte.is_present() {
                return Err(PagingError::NotMapped);
            }
            if pte.is_huge() {
                return Err(PagingError::MappedToHugePage);
            }
            let child = pte.paddr();
            match self.find_frame(k + 1, child) {
                Some(vj) => {
                    vi = vj;
                    k = k + 1;
                },
                None => {
                    return Err(PagingError::NotMapped);
                },
            }
        }
        let i = index_at(vaddr, self.levels, k);
        Ok((k, vi, i, PageSize::Size4K))
    }

    /// The shape facts of a well-formed walker, for callers of the public
    /// walk lemmas: the level count, the length and sizing of the layered
    /// view, the root's presence, and the machine word width.
    pub proof fn lemma_wf_shape(&self)
        requires
            self.wf(),
        ensures
            3 <= self.spec_levels() <= 4,
            self.views().len() == self.spec_levels(),
            views_sized(self.views()),
            self.views()[0].dom().contains(self.spec_root()),
            usize::MAX == u64::MAX,
    {
        self.lemma_layers_distinct();
        assert(tf_contains(self.layers@[0]@, self.root_paddr as int));
    }

    /// The physical address of the root page table.
    pub fn root_paddr(&self) -> (r: usize)
        ensures
            r == self.spec_root(),
    {
        self.root_paddr
    }

    /// A copy of the record of installed leaf mappings.  Unlike a
    /// key-ordered map, the record is kept and handed out in insertion
    /// order.
    pub fn get_record(&self) -> (r: Vec<(usize, bool)>)
        ensures
            r@ == self.record_view(),
    {
        let mut out: Vec<(usize, bool)> = Vec::new();
        let mut j: usize = 0;
        while j < self.record.len()
            invariant
                j <= self.record@.len(),
                out@ == self.record@.take(j as int),
            decreases self.record@.len() - j,
        {
            out.push(self.record[j]);
            proof {
                assert(out@ =~= self.record@.take(j as int + 1));
            }
            j = j + 1;
        }
        proof {
            assert(self.record@.take(self.record@.len() as int) =~= self.record@);
        }
        out
    }

    /// Queries the mapping of `vaddr`: the physical address it translates
    /// to, offset included, the flags and the page size of the leaf.
    pub fn query(&self, vaddr: usize) -> (r: Result<(usize, MappingFlags, PageSize), PagingError>)
        requires
            self.wf(),
        ensures
            match r {
                Ok((pa, fl, sz)) => spec_query(
                    self.views(),
                    self.spec_levels(),
                    self.spec_root(),
                    vaddr,
                ) == Ok::<(int, usize, PageSize), PagingError>((pa as int, fl.0, sz)),
                Err(e) => spec_query(self.views(), self.spec_levels(), self.spec_root(), vaddr)
                    == Err::<(int, usize, PageSize), PagingError>(e),
            },
    {
        match self.locate(vaddr) {
            Ok((k, vi, i, sz)) => {
                let e = self.entry_at(k, vi, i);
                let pte = Rv64PTE(e);
                if pte.is_unused() {
                    Err(PagingError::NotMapped)
                } else {
                    let off = vaddr % sz.bytes();
                    let pa = pte.paddr();
                    proof {
                        assert((pa as u64) < 0x100_0000_0000_0000u64 && off < 0x4000_0000) by {
                            let e64 = e;
                            assert((((e64 & 0x003f_ffff_ffff_fc00u64) << 2u64))
                                < 0x100_0000_0000_0000u64) by (bit_vector);
                        }
                    }
                    Ok((pa + off, pte.flags(), sz))
                }
            },
            Err(e) => Err(e),
        }
    }
}

/// `vs` with the entry at level `k`, table `t`, index `i` replaced by `e`.
pub open spec fn update_slot(
    vs: Seq<Map<int, Seq<u64>>>,
    k: int,
    t: int,
    i: int,
    e: u64,
) -> Seq<Map<int, Seq<u64>>> {
    vs.update(k, vs[k].insert(t, vs[k][t].update(i, e)))
}

/// Every table of every level has 512 entries.
pub open spec fn views_sized(vs: Seq<Map<int, Seq<u64>>>) -> bool {
    forall|k: int, t: int|
        0 <= k < vs.len() && vs[k].dom().contains(t) ==> (#[trigger] vs[k][t]).len() == 512
}

/// `vs1` extends `vs0` by fresh tables and by table pointers written into
/// formerly empty slots: what a creating walk does.  Every non-empty entry of
/// `vs0` is untouched.
pub open spec fn views_grown(vs0: Seq<Map<int, Seq<u64>>>, vs1: Seq<Map<int, Seq<u64>>>) -> bool {
    &&& vs1.len() == vs0.len()
    &&& (forall|k: int|
        0 <= k < vs0.len() ==> (#[trigger] vs0[k].dom()).subset_of(vs1[k].dom()))
    &&& (forall|k: int, t: int|
        0 <= k < vs0.len() && vs0[k].dom().contains(t) ==> (#[trigger] vs1[k][t]).len()
            == vs0[k][t].len())
    &&& (forall|k: int, t: int, i: int|
        0 <= k < vs0.len() && vs0[k].dom().contains(t) && 0 <= i < vs0[k][t].len() ==> ((
        #[trigger] vs1[k][t][i]) == vs0[k][t][i] || (vs0[k][t][i] == 0u64 && e_present(vs1[k][t][i])
            && !e_huge(vs1[k][t][i]))))
}

proof fn lemma_grown_refl(vs: Seq<Map<int, Seq<u64>>>)
    ensures
        views_grown(vs, vs),
{
}

proof fn lemma_grown_trans(
    vs0: Seq<Map<int, Seq<u64>>>,
    vs1: Seq<Map<int, Seq<u64>>>,
    vs2: Seq<Map<int, Seq<u64>>>,
)
    requires
        views_grown(vs0, vs1),
        views_grown(vs1, vs2),
    ensures
        views_grown(vs0, vs2),
{
    assert forall|k: int, t: int, i: int|
        0 <= k < vs0.len() && vs0[k].dom().contains(t) && 0 <= i < vs0[k][t].len() implies ((
    #[trigger] vs2[k][t][i]) == vs0[k][t][i] || (vs0[k][t][i] == 0u64 && e_present(vs2[k][t][i])
        && !e_huge(vs2[k][t][i]))) by {
        assert(vs1[k].dom().contains(t));
        assert(vs1[k][t][i] == vs0[k][t][i] || (vs0[k][t][i] == 0u64 && e_present(vs1[k][t][i])
            && !e_huge(vs1[k][t][i])));
        assert(vs2[k][t][i] == vs1[k][t][i] || (vs1[k][t][i] == 0u64 && e_present(vs2[k][t][i])
            && !e_huge(vs2[k][t][i])));
    }
}

/// A successful read-only walk is untouched by growth: the same slot is
/// found, and a non-empty entry there keeps its value.
proof fn lemma_locate_grown(
    vs0: Seq<Map<int, Seq<u64>>>,
    vs1: Seq<Map<int, Seq<u64>>>,
    levels: int,
    vaddr: usize,
    layer: int,
    tbl: int,
)
    requires
        views_grown(vs0, vs1),
        views_sized(vs0),
        vs0.len() == levels,
        0 <= layer < levels,
        vs0[layer].dom().contains(tbl),
        locate_rec(vs0, levels, vaddr, layer, tbl) is Ok,
    ensures
        locate_rec(vs1, levels, vaddr, layer, tbl) == locate_rec(vs0, levels, vaddr, layer, tbl),
        ({
            let (k, t, i, sz) = locate_rec(vs0, levels, vaddr, layer, tbl)->Ok_0;
            0 <= k < levels && vs0[k].dom().contains(t) && 0 <= i < 512 && (vs0[k][t][i] != 0u64
                ==> vs1[k][t][i] == vs0[k][t][i])
        }),
    decreases levels - layer,
{
    let i = spec_index_at(vaddr, levels, layer);
    assert(0 <= i < 512) by {
        assert(pow2(level_shift(levels, layer)) > 0) by {
            vstd::arithmetic::power2::lemma_pow2_pos(level_shift(levels, layer));
        }
    }
    if layer >= levels - 1 {
    } else {
        let e = vs0[layer][tbl][i];
        lemma_e_bits(e);
        if (levels == 3 || layer >= 1) && e_huge(e) {
            assert(vs1[layer][tbl][i] == e);
        } else {
            assert(e_present(e) && !e_huge(e) && e != 0u64);
            assert(vs1[layer][tbl][i] == e);
            assert(vs0[layer + 1].dom().contains(e_paddr(e)));
            assert(vs1[layer + 1].dom().contains(e_paddr(e)));
            lemma_locate_grown(vs0, vs1, levels, vaddr, layer + 1, e_paddr(e));
        }
    }
}

/// A successful read-only walk of one address is untouched by an update of a
/// slot other than the one it finds, provided the old entry there was no
/// table pointer: empty, a huge leaf, or on the last level.
proof fn lemma_locate_update(
    vs0: Seq<Map<int, Seq<u64>>>,
    levels: int,
    vaddr: usize,
    layer: int,
    tbl: int,
    uk: int,
    ut: int,
    ui: int,
    e: u64,
)
    requires
        views_sized(vs0),
        vs0.len() == levels,
        0 <= layer < levels,
        vs0[layer].dom().contains(tbl),
        locate_rec(vs0, levels, vaddr, layer, tbl) is Ok,
        0 <= uk < levels,
        vs0[uk].dom().contains(ut),
        0 <= ui < 512,
        vs0[uk][ut][ui] == 0u64 || e_huge(vs0[uk][ut][ui]) || uk == levels - 1,
        locate_rec(vs0, levels, vaddr, layer, tbl)->Ok_0.0 != uk || locate_rec(
            vs0,
            levels,
            vaddr,
            layer,
            tbl,
        )->Ok_0.1 != ut || locate_rec(vs0, levels, vaddr, layer, tbl)->Ok_0.2 != ui,
    ensures
        locate_rec(update_slot(vs0, uk, ut, ui, e), levels, vaddr, layer, tbl) == locate_rec(
            vs0,
            levels,
            vaddr,
            layer,
            tbl,
        ),
        ({
            let (k, t, i, sz) = locate_rec(vs0, levels, vaddr, layer, tbl)->Ok_0;
            update_slot(vs0, uk, ut, ui, e)[k][t][i] == vs0[k][t][i]
        }),
    decreases levels - layer,
{
    let vs1 = update_slot(vs0, uk, ut, ui, e);
    let i = spec_index_at(vaddr, levels, layer);
    if layer >= levels - 1 {
        assert(vs1[layer][tbl][i] == vs0[layer][tbl][i]);
    } else {
        let e0 = vs0[layer][tbl][i];
        if (layer != uk) || (tbl != ut) || (i != ui) {
            assert(vs1[layer][tbl][i] == e0);
        } else {
            assert(e0 == 0u64 || e_huge(e0) || uk == levels - 1);
            lemma_e_bits(e0);
            if e0 == 0u64 {
                assert(!e_present(e0));
                assert(locate_rec(vs0, levels, vaddr, layer, tbl) is Err);
            } else if e_huge(e0) {
                if (levels == 3 || layer >= 1) {
                    assert(locate_rec(vs0, levels, vaddr, layer, tbl) == Ok::<
                        (int, int, int, PageSize),
                        PagingError,
                    >((layer, tbl, i, size_at_layer(levels, layer))));
                    assert(false);
                } else {
                    assert(locate_rec(vs0, levels, vaddr, layer, tbl) is Err);
                }
            }
            assert(false);
        }
        if (levels == 3 || layer >= 1) && e_huge(e0) {
        } else {
            assert(e_present(e0) && !e_huge(e0));
            assert(vs0[layer + 1].dom().contains(e_paddr(e0)));
            assert(vs1[layer + 1].dom() == vs0[layer + 1].dom());
            lemma_locate_update(vs0, levels, vaddr, layer + 1, e_paddr(e0), uk, ut, ui, e);
        }
    }
}

/// A successful read-only walk yields a successful creating walk to the
/// level it stopped at.
proof fn lemma_locate_to_locate_at(
    vs: Seq<Map<int, Seq<u64>>>,
    levels: int,
    vaddr: usize,
    layer: int,
    tbl: int,
)
    requires
        vs.len() == levels,
        0 <= layer < levels,
        locate_rec(vs, levels, vaddr, layer, tbl) is Ok,
    ensures
        locate_rec(vs, levels, vaddr, layer, tbl)->Ok_0.0 >= layer,
        ({
            let (k, t, i, sz) = locate_rec(vs, levels, vaddr, layer, tbl)->Ok_0;
            locate_at_rec(vs, levels, vaddr, k, layer, tbl) == Ok::<(int, int), PagingError>((t, i))
        }),
    decreases levels - layer,
{
    let i = spec_index_at(vaddr, levels, layer);
    if layer >= levels - 1 {
    } else {
        let e = vs[layer][tbl][i];
        lemma_e_bits(e);
        if (levels == 3 || layer >= 1) && e_huge(e) {
        } else {
            lemma_locate_to_locate_at(vs, levels, vaddr, layer + 1, e_paddr(e));
            let (k, t, io, sz) = locate_rec(vs, levels, vaddr, layer, tbl)->Ok_0;
            assert(k > layer);
        }
    }
}

/// A successful creating walk ends at the index its target level selects.
proof fn lemma_locate_at_index(
    vs: Seq<Map<int, Seq<u64>>>,
    levels: int,
    vaddr: usize,
    target: int,
    layer: int,
    tbl: int,
)
    requires
        locate_at_rec(vs, levels, vaddr, target, layer, tbl) is Ok,
        layer <= target,
    ensures
        locate_at_rec(vs, levels, vaddr, target, layer, tbl)->Ok_0.1 == spec_index_at(
            vaddr,
            levels,
            target,
        ),
    decreases target - layer,
{
    if layer >= target {
    } else {
        let i = spec_index_at(vaddr, levels, layer);
        let e = vs[layer][tbl][i];
        lemma_locate_at_index(vs, levels, vaddr, target, layer + 1, e_paddr(e));
    }
}

/// A creating walk reads only the levels above its target: entry changes at
/// or below the target level, and any change that keeps the domains of those
/// levels, leave it unchanged.
proof fn lemma_locate_at_prefix(
    vs0: Seq<Map<int, Seq<u64>>>,
    vs1: Seq<Map<int, Seq<u64>>>,
    levels: int,
    vaddr: usize,
    target: int,
    layer: int,
    tbl: int,
)
    requires
        vs0.len() == levels,
        vs1.len() == levels,
        0 <= layer,
        target < levels,
        forall|j: int| layer <= j < target ==> vs1[j] == vs0[j],
        forall|j: int|
            layer < j <= target ==> (#[trigger] vs1[j].dom()) == vs0[j].dom(),
    ensures
        locate_at_rec(vs1, levels, vaddr, target, layer, tbl) == locate_at_rec(
            vs0,
            levels,
            vaddr,
            target,
            layer,
            tbl,
        ),
    decreases target - layer,
{
    if layer >= target {
    } else {
        let i = spec_index_at(vaddr, levels, layer);
        let e = vs0[layer][tbl][i];
        assert(vs1[layer] == vs0[layer]);
        if e == 0u64 || !e_present(e) || e_huge(e) {
        } else if !vs0[layer + 1].dom().contains(e_paddr(e)) {
            assert(vs1[layer + 1].dom() == vs0[layer + 1].dom());
        } else {
            assert(vs1[layer + 1].dom() == vs0[layer + 1].dom());
            lemma_locate_at_prefix(vs0, vs1, levels, vaddr, target, layer + 1, e_paddr(e));
        }
    }
}

/// From a table the root reaches, the walks give the same answer as from the
/// root itself.
proof fn lemma_walk_prefix_locate(
    vs: Seq<Map<int, Seq<u64>>>,
    levels: int,
    root: int,
    vaddr: usize,
    layer: int,
    tbl: int,
)
    requires
        vs.len() == levels,
        3 <= levels <= 4,
        0 <= layer < levels,
        walk_prefix(vs, levels, root, vaddr, layer, tbl),
    ensures
        locate_rec(vs, levels, vaddr, 0, root) == locate_rec(vs, levels, vaddr, layer, tbl),
    decreases layer,
{
    if layer == 0 {
    } else {
        let t = table_at_layer(vs, levels, root, vaddr, layer - 1)->Some_0;
        lemma_walk_prefix_locate(vs, levels, root, vaddr, layer - 1, t);
        let e = vs[layer - 1][t][spec_index_at(vaddr, levels, layer - 1)];
        assert(locate_rec(vs, levels, vaddr, layer - 1, t) == locate_rec(
            vs,
            levels,
            vaddr,
            layer,
            tbl,
        ));
    }
}

/// The creating-walk counterpart of `lemma_walk_prefix_locate`.
proof fn lemma_walk_prefix_locate_at(
    vs: Seq<Map<int, Seq<u64>>>,
    levels: int,
    root: int,
    vaddr: usize,
    target: int,
    layer: int,
    tbl: int,
)
    requires
        vs.len() == levels,
        3 <= levels <= 4,
        0 <= layer <= target,
        target < levels,
        walk_prefix(vs, levels, root, vaddr, layer, tbl),
    ensures
        locate_at_rec(vs, levels, vaddr, target, 0, root) == locate_at_rec(
            vs,
            levels,
            vaddr,
            target,
            layer,
            tbl,
        ),
    decreases layer,
{
    if layer == 0 {
    } else {
        let t = table_at_layer(vs, levels, root, vaddr, layer - 1)->Some_0;
        lemma_walk_prefix_locate_at(vs, levels, root, vaddr, target, layer - 1, t);
        lemma_e_bits(vs[layer - 1][t][spec_index_at(vaddr, levels, layer - 1)]);
    }
}

/// Growth below, or entry changes at or below, a reached level do not
/// detach it from the root.
proof fn lemma_walk_prefix_preserved(
    vs0: Seq<Map<int, Seq<u64>>>,
    vs1: Seq<Map<int, Seq<u64>>>,
    levels: int,
    root: int,
    vaddr: usize,
    layer: int,
    tbl: int,
)
    requires
        vs0.len() == levels,
        vs1.len() == levels,
        0 <= layer,
        walk_prefix(vs0, levels, root, vaddr, layer, tbl),
        forall|j: int| 0 <= j < layer ==> vs1[j] == vs0[j],
        forall|j: int| 0 <= j <= layer ==> (#[trigger] vs0[j].dom()).subset_of(vs1[j].dom()),
    ensures
        walk_prefix(vs1, levels, root, vaddr, layer, tbl),
    decreases layer,
{
    if layer <= 0 {
        assert(vs1[0].dom().contains(root));
    } else {
        let t = table_at_layer(vs0, levels, root, vaddr, layer - 1)->Some_0;
        lemma_walk_prefix_preserved(vs0, vs1, levels, root, vaddr, layer - 1, t);
        assert(vs1[layer - 1] == vs0[layer - 1]);
        assert(vs1[layer].dom().contains(tbl));
    }
}

/// A successful read-only walk reaches the table of its slot from the root.
proof fn lemma_locate_walk_prefix(
    vs: Seq<Map<int, Seq<u64>>>,
    levels: int,
    root: int,
    vaddr: usize,
    layer: int,
    tbl: int,
)
    requires
        vs.len() == levels,
        3 <= levels <= 4,
        0 <= layer < levels,
        vs[layer].dom().contains(tbl),
        walk_prefix(vs, levels, root, vaddr, layer, tbl),
        locate_rec(vs, levels, vaddr, layer, tbl) is Ok,
    ensures
        ({
            let (k, t, i, sz) = locate_rec(vs, levels, vaddr, layer, tbl)->Ok_0;
            walk_prefix(vs, levels, root, vaddr, k, t) && vs[k].dom().contains(t)
        }),
    decreases levels - layer,
{
    let i = spec_index_at(vaddr, levels, layer);
    if layer >= levels - 1 {
    } else {
        let e = vs[layer][tbl][i];
        lemma_e_bits(e);
        if (levels == 3 || layer >= 1) && e_huge(e) {
        } else {
            assert(walk_prefix(vs, levels, root, vaddr, layer + 1, e_paddr(e)));
            lemma_locate_walk_prefix(vs, levels, root, vaddr, layer + 1, e_paddr(e));
        }
    }
}

/// A recorded mapping blocks a creating walk of the same address: the walk
/// either errs or ends on a slot that already holds an entry.
proof fn lemma_locate_blocks_locate_at(
    vs: Seq<Map<int, Seq<u64>>>,
    levels: int,
    vaddr: usize,
    target: int,
    layer: int,
    tbl: int,
)
    requires
        vs.len() == levels,
        0 <= layer < levels,
        0 <= target < levels,
        layer <= target,
        locate_rec(vs, levels, vaddr, layer, tbl) is Ok,
        ({
            let (k, t, i, sz) = locate_rec(vs, levels, vaddr, layer, tbl)->Ok_0;
            vs[k][t][i] != 0u64
        }),
    ensures
        locate_at_rec(vs, levels, vaddr, target, layer, tbl) != Err::<
            (int, int),
            PagingError,
        >(PagingError::NoMemory),
        locate_at_rec(vs, levels, vaddr, target, layer, tbl) is Ok ==> ({
            let (t, i) = locate_at_rec(vs, levels, vaddr, target, layer, tbl)->Ok_0;
            vs[target][t][i] != 0u64
        }),
    decreases levels - layer,
{
    let i = spec_index_at(vaddr, levels, layer);
    if layer >= levels - 1 {
    } else {
        let e = vs[layer][tbl][i];
        lemma_e_bits(e);
        if layer == target {
        } else {
            if (levels == 3 || layer >= 1) && e_huge(e) {
                if e_present(e) {
                    assert(locate_at_rec(vs, levels, vaddr, target, layer, tbl) == Err::<
                        (int, int),
                        PagingError,
                    >(PagingError::MappedToHugePage));
                } else {
                    assert(locate_at_rec(vs, levels, vaddr, target, layer, tbl) == Err::<
                        (int, int),
                        PagingError,
                    >(PagingError::NotMapped));
                }
            } else {
                lemma_locate_blocks_locate_at(vs, levels, vaddr, target, layer + 1, e_paddr(e));
            }
        }
    }
}

/// All 512 entries empty: the contents of a freshly allocated table.
pub open spec fn zero_table() -> Seq<u64> {
    Seq::new(512, |i: int| 0u64)
}

/// `m1` extends `m0` by zeroed frames only: what allocation does to the
/// managed memory.
pub open spec fn mem_grown(m0: Map<int, Seq<u8>>, m1: Map<int, Seq<u8>>) -> bool {
    &&& m0.dom().subset_of(m1.dom())
    &&& (forall|p: int| m0.dom().contains(p) ==> #[trigger] m1[p] == m0[p])
    &&& (forall|p: int|
        m1.dom().contains(p) && !m0.dom().contains(p) ==> #[trigger] m1[p] == crate::zero_frame())
}

pub proof fn lemma_mem_grown_trans(m0: Map<int, Seq<u8>>, m1: Map<int, Seq<u8>>, m2: Map<int, Seq<u8>>)
    requires
        mem_grown(m0, m1),
        mem_grown(m1, m2),
    ensures
        mem_grown(m0, m2),
{
}

/// What a contiguous allocation of `n` frames at `base` did to the memory.
proof fn lemma_alloc_contiguous_grown(m0: Map<int, Seq<u8>>, m1: Map<int, Seq<u8>>, base: int, n: int)
    requires
        forall|i: int| 0 <= i < n ==> !m0.dom().contains(#[trigger] (base + i)),
        forall|q: int|
            !(base <= q < base + n) ==> (#[trigger] m1.dom().contains(q) <==> m0.dom().contains(q)),
        forall|q: int|
            m0.dom().contains(q) && !(base <= q < base + n) ==> #[trigger] m1[q] == m0[q],
        forall|i: int|
            0 <= i < n ==> m1.dom().contains(#[trigger] (base + i)) && m1[base + i]
                == crate::zero_frame(),
    ensures
        mem_grown(m0, m1),
        forall|q: int|
            base <= q < base + n ==> !(#[trigger] m0.dom().contains(q)) && m1.dom().contains(q)
                && m1[q] == crate::zero_frame(),
{
    assert forall|q: int| base <= q < base + n implies !(#[trigger] m0.dom().contains(q))
        && m1.dom().contains(q) && m1[q] == crate::zero_frame() by {
        let i = q - base;
        assert(!m0.dom().contains(base + i));
        assert(m1.dom().contains(base + i) && m1[base + i] == crate::zero_frame());
    }
    assert forall|q: int| m0.dom().contains(q) implies m1.dom().contains(q) && #[trigger] m1[q]
        == m0[q] by {
        if base <= q < base + n {
            assert(false);
        }
    }
    assert forall|q: int| m1.dom().contains(q) && !m0.dom().contains(q) implies #[trigger] m1[q]
        == crate::zero_frame() by {
        if !(base <= q < base + n) {
            assert(m0.dom().contains(q));
        }
    }
}

spec fn tframes_distinct(s: Seq<TableFrame>) -> bool {
    forall|a: int, b: int|
        0 <= a < b < s.len() ==> #[trigger] s[a].paddr != #[trigger] s[b].paddr
}

proof fn lemma_tf_at(s: Seq<TableFrame>, j: int)
    requires
        tframes_distinct(s),
        0 <= j < s.len(),
    ensures
        frame_map(s).dom().contains(s[j].paddr as int),
        frame_map(s)[s[j].paddr as int] == s[j].entries@,
{
    assert(tf_contains(s, s[j].paddr as int));
    let a = tf_index(s, s[j].paddr as int);
    assert(0 <= a < s.len() && s[a].paddr == s[j].paddr);
    if a != j {
        assert(false);
    }
}

proof fn lemma_tfmap_push(s: Seq<TableFrame>, f: TableFrame)
    requires
        tframes_distinct(s),
        !frame_map(s).dom().contains(f.paddr as int),
    ensures
        frame_map(s.push(f)) == frame_map(s).insert(f.paddr as int, f.entries@),
        tframes_distinct(s.push(f)),
{
    let t = s.push(f);
    assert forall|a: int, b: int| 0 <= a < b < t.len() implies #[trigger] t[a].paddr
        != #[trigger] t[b].paddr by {
        if b == s.len() {
            assert(t[a] == s[a]);
            if t[a].paddr == f.paddr {
                assert(tf_contains(s, f.paddr as int));
                assert(false);
            }
        }
    }
    assert forall|p: int| #[trigger]
        frame_map(t).dom().contains(p) <==> frame_map(s).insert(
            f.paddr as int,
            f.entries@,
        ).dom().contains(p) by {
        if tf_contains(t, p) {
            let a = tf_index(t, p);
            assert(0 <= a < t.len() && t[a].paddr == p);
            if a < s.len() {
                assert(s[a].paddr == p);
                assert(tf_contains(s, p));
            }
        }
        if tf_contains(s, p) {
            let a = tf_index(s, p);
            assert(0 <= a < s.len() && s[a].paddr == p);
            assert(t[a].paddr == p);
            assert(tf_contains(t, p));
        }
        if p == f.paddr {
            assert(t[s.len() as int].paddr == p);
            assert(tf_contains(t, p));
        }
    }
    assert forall|p: int| frame_map(t).dom().contains(p) implies frame_map(t)[p] == frame_map(
        s,
    ).insert(f.paddr as int, f.entries@)[p] by {
        let a = tf_index(t, p);
        assert(0 <= a < t.len() && t[a].paddr == p);
        assert(frame_map(t)[p] == t[a].entries@);
        if p == f.paddr {
            if a != s.len() {
                assert(s[a].paddr == p);
                assert(tf_contains(s, p));
                assert(false);
            }
        } else {
            assert(a < s.len());
            assert(t[a] == s[a]);
            lemma_tf_at(s, a);
        }
    }
    assert(frame_map(t) =~= frame_map(s).insert(f.paddr as int, f.entries@));
}

proof fn lemma_tfmap_update(s: Seq<TableFrame>, j: int, f: TableFrame)
    requires
        tframes_distinct(s),
        0 <= j < s.len(),
        f.paddr == s[j].paddr,
    ensures
        frame_map(s.update(j, f)) == frame_map(s).insert(f.paddr as int, f.entries@),
        tframes_distinct(s.update(j, f)),
{
    let t = s.update(j, f);
    assert(forall|a: int| 0 <= a < t.len() ==> #[trigger] t[a].paddr == s[a].paddr);
    assert forall|p: int| #[trigger]
        frame_map(t).dom().contains(p) <==> frame_map(s).insert(
            f.paddr as int,
            f.entries@,
        ).dom().contains(p) by {
        if tf_contains(t, p) {
            let a = tf_index(t, p);
            assert(0 <= a < t.len() && t[a].paddr == p);
            assert(s[a].paddr == p);
            assert(tf_contains(s, p));
        }
        if tf_contains(s, p) {
            let a = tf_index(s, p);
            assert(0 <= a < s.len() && s[a].paddr == p);
            assert(t[a].paddr == p);
            assert(tf_contains(t, p));
        }
        if p == f.paddr {
            assert(t[j].paddr == p);
            assert(tf_contains(t, p));
        }
    }
    assert forall|p: int| frame_map(t).dom().contains(p) implies frame_map(t)[p] == frame_map(
        s,
    ).insert(f.paddr as int, f.entries@)[p] by {
        let a = tf_index(t, p);
        assert(0 <= a < t.len() && t[a].paddr == p);
        assert(frame_map(t)[p] == t[a].entries@);
        if p == f.paddr {
            if a != j {
                assert(s[a].paddr == s[j].paddr);
                assert(false);
            }
        } else {
            assert(a != j);
            assert(t[a] == s[a]);
            lemma_tf_at(s, a);
        }
    }
    assert(frame_map(t) =~= frame_map(s).insert(f.paddr as int, f.entries@));
}

fn zero_entries_vec() -> (r: Vec<u64>)
    ensures
        r@ == zero_table(),
{
    let mut v: Vec<u64> = Vec::new();
    let mut i: usize = 0;
    while i < 512
        invariant
            i <= 512,
            v@.len() == i,
            forall|j: int| 0 <= j < i ==> v@[j] == 0u64,
        decreases 512 - i,
    {
        v.push(0u64);
        i = i + 1;
    }
    proof {
        assert(v@ =~= zero_table());
    }
    v
}

impl PageTable64 {
    spec fn layer_distinct_ok(&self) -> bool {
        forall|k: int|
            0 <= k < self.layers@.len() ==> tframes_distinct(#[trigger] self.layers@[k]@)
    }

    proof fn lemma_layers_distinct(&self)
        requires
            self.layers_wf(),
        ensures
            self.layer_distinct_ok(),
            views_sized(self.views()),
    {
        assert forall|k: int| 0 <= k < self.layers@.len() implies tframes_distinct(
            #[trigger] self.layers@[k]@,
        ) by {}
        assert forall|k: int, t: int|
            0 <= k < self.views().len() && self.views()[k].dom().contains(t) implies (
        #[trigger] self.views()[k][t]).len() == 512 by {
            let a = choose|a: int|
                0 <= a < self.layers@[k]@.len() && self.layers@[k]@[a].paddr == t;
            assert(self.layers@[k]@[a].entries@.len() == 512);
        }
    }

    /// Whether `paddr` identifies no table of any level.
    fn paddr_fresh(&self, paddr: usize) -> (r: bool)
        requires
            self.layers@.len() == self.levels,
            self.levels == 3 || self.levels == 4,
        ensures
            r == (forall|k: int|
                0 <= k < self.views().len() ==> !(#[trigger] self.views()[k].dom().contains(
                    paddr as int,
                ))),
    {
        let mut k: usize = 0;
        while k < self.levels
            invariant
                k <= self.layers@.len(),
                self.layers@.len() == self.levels,
                forall|j: int|
                    0 <= j < k ==> !(#[trigger] self.views()[j].dom().contains(paddr as int)),
            decreases self.levels - k,
        {
            match self.find_frame(k, paddr) {
                Some(vj) => {
                    proof {
                        assert(tf_contains(self.layers@[k as int]@, paddr as int));
                        assert(self.views()[k as int].dom().contains(paddr as int));
                    }
                    return false;
                },
                None => {
                    k = k + 1;
                },
            }
        }
        true
    }

    /// Appends a fresh zeroed table frame to level `k`.
    fn push_table(&mut self, k: usize, paddr: usize) -> (vi: usize)
        requires
            old(self).layers_wf(),
            1 <= k < old(self).levels,
            forall|j: int|
                0 <= j < old(self).views().len() ==> !(#[trigger] old(self).views()[j].dom().contains(
                    paddr as int,
                )),
            paddr % 4096 == 0,
            (paddr as u64) < 0x100_0000_0000_0000u64,
        ensures
            final (self).layers_wf(),
            final (self).levels == old(self).levels,
            final (self).root_paddr == old(self).root_paddr,
            final (self).record@ == old(self).record@,
            final (self).views() == old(self).views().update(
                k as int,
                old(self).views()[k as int].insert(paddr as int, zero_table()),
            ),
            vi < final (self).layers@[k as int]@.len(),
            final (self).layers@[k as int]@[vi as int].paddr == paddr,
            forall|j: int|
                0 <= j < final (self).layers@.len() && j != k ==> (#[trigger] final (
                self).layers@[j]@) == old(self).layers@[j]@,
    {
        proof {
            self.lemma_layers_distinct();
            assert forall|j: int| 0 <= j < self.layers@.len() implies !tf_contains(
                #[trigger] self.layers@[j]@,
                paddr as int,
            ) by {
                assert(!self.views()[j].dom().contains(paddr as int));
            }
        }
        let ghost layers0 = self.layers@;
        let entries = zero_entries_vec();
        let vi = self.layers[k].len();
        let f = TableFrame { paddr, entries };
        proof {
            lemma_tfmap_push(layers0[k as int]@, f);
        }
        self.layers[k].push(f);
        proof {
            assert forall|k1: int, j1: int, k2: int, j2: int|
                0 <= k1 < self.layers@.len() && 0 <= j1 < self.layers@[k1]@.len() && 0 <= k2
                    < self.layers@.len() && 0 <= j2 < self.layers@[k2]@.len() && (k1 != k2 || j1
                    != j2) implies (#[trigger] self.layers@[k1]@[j1]).paddr != (
            #[trigger] self.layers@[k2]@[j2]).paddr by {
                if k1 == k as int && j1 == vi {
                    if k2 != k as int || j2 != vi {
                        assert(self.layers@[k2]@[j2] == layers0[k2]@[j2]);
                        assert(!tf_contains(layers0[k2]@, paddr as int));
                    }
                } else if k2 == k as int && j2 == vi {
                    assert(self.layers@[k1]@[j1] == layers0[k1]@[j1]);
                    assert(!tf_contains(layers0[k1]@, paddr as int));
                } else {
                    assert(self.layers@[k1]@[j1] == layers0[k1]@[j1]);
                    assert(self.layers@[k2]@[j2] == layers0[k2]@[j2]);
                }
            }
            assert(self.views() =~= old(self).views().update(
                k as int,
                old(self).views()[k as int].insert(paddr as int, zero_table()),
            ));
        }
        vi
    }

    /// Overwrites the entry of one slot.
    fn write_entry(&mut self, k: usize, vi: usize, i: usize, e: u64)
        requires
            old(self).layers_wf(),
            k < old(self).layers@.len(),
            vi < old(self).layers@[k as int]@.len(),
            i < 512,
        ensures
            final (self).layers_wf(),
            final (self).levels == old(self).levels,
            final (self).root_paddr == old(self).root_paddr,
            final (self).record@ == old(self).record@,
            final (self).views() == update_slot(
                old(self).views(),
                k as int,
                old(self).layers@[k as int]@[vi as int].paddr as int,
                i as int,
                e,
            ),
            final (self).layers@[k as int]@[vi as int].paddr == old(self).layers@[k as int]@[vi as int].paddr,
            forall|j: int| 0 <= j < final (self).views().len() ==> (#[trigger] final (self).views()[j].dom())
                == old(self).views()[j].dom(),
            forall|j: int|
                0 <= j < final (self).layers@.len() && j != k ==> (#[trigger] final (
                self).layers@[j]@) == old(self).layers@[j]@,
            final (self).layers@[k as int]@.len() == old(self).layers@[k as int]@.len(),
            forall|a: int|
                0 <= a < final (self).layers@[k as int]@.len() ==> (#[trigger] final (
                self).layers@[k as int]@[a]).paddr == old(self).layers@[k as int]@[a].paddr,
    {
        proof {
            self.lemma_layers_distinct();
            lemma_tf_at(self.layers@[k as int]@, vi as int);
        }
        let ghost layers0 = self.layers@;
        let ghost p = self.layers@[k as int]@[vi as int].paddr as int;
        self.layers[k][vi].entries[i] = e;
        proof {
            let f = self.layers@[k as int]@[vi as int];
            assert(f.paddr == layers0[k as int]@[vi as int].paddr);
            assert(f.entries@ == layers0[k as int]@[vi as int].entries@.update(i as int, e));
            assert(self.layers@[k as int]@ =~= layers0[k as int]@.update(vi as int, f));
            lemma_tfmap_update(layers0[k as int]@, vi as int, f);
            assert(self.views() =~= update_slot(old(self).views(), k as int, p, i as int, e));
            assert forall|j: int| 0 <= j < self.views().len() implies (#[trigger] self.views()[j].dom())
                == old(self).views()[j].dom() by {
                if j == k as int {
                    assert(old(self).views()[j].dom().contains(p));
                    assert(self.views()[j].dom() =~= old(self).views()[j].dom());
                }
            }
        }
    }
}

/// Every mapping recorded in `rec` answers the walk identically in both
/// views, slot and entry value alike.
pub open spec fn mappings_preserved(
    vs0: Seq<Map<int, Seq<u64>>>,
    vs1: Seq<Map<int, Seq<u64>>>,
    lv: int,
    rt: int,
    rec: Seq<(usize, bool)>,
) -> bool {
    forall|j: int|
        0 <= j < rec.len() ==> {
            let v = (#[trigger] rec[j]).0;
            spec_locate(vs1, lv, rt, v) == spec_locate(vs0, lv, rt, v) && (spec_locate(
                vs0,
                lv,
                rt,
                v,
            ) is Ok ==> {
                let (k, t, i, sz) = spec_locate(vs0, lv, rt, v)->Ok_0;
                vs1[k][t][i] == vs0[k][t][i]
            })
        }
}

/// The bits `new_page` writes: the masked flag byte and the frame number of
/// an aligned physical address.
pub open spec fn page_bits(paddr: usize, flags: usize) -> u64 {
    ((flags as u64) & 0xffu64) | (((paddr as u64) >> 2u64) & crate::pte::phys_addr_mask())
}

/// The bits `new_table` writes: a valid pointer to a table frame.
pub open spec fn table_bits(paddr: usize) -> u64 {
    0x01u64 | (((paddr as u64) >> 2u64) & crate::pte::phys_addr_mask())
}

impl PageTable64 {
    /// Re-established well-formedness after pure growth of the frame arena.
    proof fn lemma_record_grown(pre: &PageTable64, post: &PageTable64)
        requires
            pre.wf(),
            post.layers_wf(),
            post.record@ == pre.record@,
            post.levels == pre.levels,
            post.root_paddr == pre.root_paddr,
            views_grown(pre.views(), post.views()),
        ensures
            post.wf(),
            forall|j: int|
                0 <= j < pre.record@.len() ==> post.record_slot(#[trigger] post.record@[j].0)
                    == pre.record_slot(pre.record@[j].0),
            mappings_preserved(
                pre.views(),
                post.views(),
                pre.spec_levels(),
                pre.spec_root(),
                pre.record@,
            ),
    {
        pre.lemma_layers_distinct();
        assert(tf_contains(pre.layers@[0]@, pre.root_paddr as int));
        assert(pre.views()[0].dom().contains(pre.spec_root()));
        assert forall|j: int| 0 <= j < post.record@.len() implies post.record_entry_ok(j)
            && post.record_slot(#[trigger] post.record@[j].0) == pre.record_slot(
            pre.record@[j].0,
        ) && ({
            let v = pre.record@[j].0;
            spec_locate(post.views(), pre.spec_levels(), pre.spec_root(), v) == spec_locate(
                pre.views(),
                pre.spec_levels(),
                pre.spec_root(),
                v,
            ) && ({
                let (k, t, i, sz) = spec_locate(pre.views(), pre.spec_levels(), pre.spec_root(), v)->Ok_0;
                post.views()[k][t][i] == pre.views()[k][t][i]
            })
        }) by {
            assert(pre.record_entry_ok(j));
            lemma_locate_grown(
                pre.views(),
                post.views(),
                pre.spec_levels(),
                pre.record@[j].0,
                0,
                pre.spec_root(),
            );
        }
    }

    /// The creating walk of `get_entry_mut_or_create`: finds the slot for a
    /// page of `page_size`, creating intermediate tables as needed.
    #[verifier::rlimit(60)]
    fn locate_or_create<M: PageManager>(
        &mut self,
        vaddr: usize,
        page_size: PageSize,
        mgr: &mut M,
    ) -> (r: Result<(usize, usize, usize), PagingError>)
        requires
            old(self).wf(),
            old(mgr).inv(),
        ensures
            final (self).wf(),
            final (mgr).inv(),
            final (self).spec_levels() == old(self).spec_levels(),
            final (self).spec_root() == old(self).spec_root(),
            final (self).record_view() == old(self).record_view(),
            views_grown(old(self).views(), final (self).views()),
            mem_grown(old(mgr).mem(), final (mgr).mem()),
            forall|j: int|
                0 <= j < old(self).record_view().len() ==> final (self).record_slot(
                    #[trigger] final (self).record_view()[j].0,
                ) == old(self).record_slot(old(self).record_view()[j].0),
            mappings_preserved(
                old(self).views(),
                final (self).views(),
                old(self).spec_levels(),
                old(self).spec_root(),
                old(self).record_view(),
            ),
            match r {
                Ok((k, vi, i)) => {
                    let lv = old(self).spec_levels();
                    let rt = old(self).spec_root();
                    let tl = leaf_layer(lv, page_size);
                    &&& k == tl && 0 <= tl < lv
                    &&& vi < final (self).layers@[k as int]@.len()
                    &&& i < 512
                    &&& ({
                        let t = final (self).layers@[k as int]@[vi as int].paddr as int;
                        &&& spec_locate_at(final (self).views(), lv, rt, vaddr, tl) == Ok::<
                            (int, int),
                            PagingError,
                        >((t, i as int))
                        &&& walk_prefix(final (self).views(), lv, rt, vaddr, tl, t)
                        &&& final (self).views()[tl].dom().contains(t)
                        &&& (spec_locate_at(old(self).views(), lv, rt, vaddr, tl) == Ok::<
                            (int, int),
                            PagingError,
                        >((t, i as int)) || (spec_locate_at(old(self).views(), lv, rt, vaddr, tl)
                            == Err::<(int, int), PagingError>(PagingError::NoMemory) && final (
                        self).views()[tl][t][i as int] == 0u64))
                    })
                    &&& (spec_locate_at(old(self).views(), lv, rt, vaddr, tl) is Ok ==> *final (
                    self) == *old(self) && *final (mgr) == *old(mgr))
                },
                Err(e) => {
                    let lv = old(self).spec_levels();
                    let rt = old(self).spec_root();
                    let tl = leaf_layer(lv, page_size);
                    &&& (e == PagingError::NoMemory ==> spec_locate_at(
                        old(self).views(),
                        lv,
                        rt,
                        vaddr,
                        tl,
                    ) == Err::<(int, int), PagingError>(PagingError::NoMemory))
                    &&& ((e == PagingError::NotMapped || e == PagingError::MappedToHugePage)
                        ==> spec_locate_at(old(self).views(), lv, rt, vaddr, tl) == Err::<
                        (int, int),
                        PagingError,
                    >(e) && *final (self) == *old(self) && *final (mgr) == *old(mgr))
                    &&& (e == PagingError::NoMemory || e == PagingError::NotMapped || e
                        == PagingError::MappedToHugePage)
                },
            },
    {
        let ghost pre = *self;
        let ghost mgr0 = *mgr;
        let levels = self.levels;
        let tl: usize = match page_size {
            PageSize::Size4K => levels - 1,
            PageSize::Size2M => levels - 2,
            PageSize::Size1G => levels - 3,
        };
        let mut k: usize = 0;
        let mut vi: usize = 0;
        proof {
            self.lemma_layers_distinct();
            assert(tf_contains(self.layers@[0]@, self.root_paddr as int));
            assert(self.views()[0].dom().contains(self.spec_root()));
            lemma_grown_refl(self.views());
        }
        while k < tl
            invariant
                pre == *old(self),
                mgr0 == *old(mgr),
                self.wf(),
                mgr.inv(),
                self.levels == pre.levels,
                self.root_paddr == pre.root_paddr,
                self.record@ == pre.record@,
                levels == self.levels,
                (levels == 3 || levels == 4),
                tl == leaf_layer(levels as int, page_size),
                0 <= tl < levels,
                k <= tl,
                vi < self.layers@[k as int]@.len(),
                views_grown(pre.views(), self.views()),
                mem_grown(mgr0.mem(), mgr.mem()),
                walk_prefix(
                    self.views(),
                    levels as int,
                    pre.spec_root(),
                    vaddr,
                    k as int,
                    self.layers@[k as int]@[vi as int].paddr as int,
                ),
                forall|j: int|
                    0 <= j < pre.record@.len() ==> self.record_slot(#[trigger] self.record@[j].0)
                        == pre.record_slot(pre.record@[j].0),
                mappings_preserved(
                    pre.views(),
                    self.views(),
                    levels as int,
                    pre.spec_root(),
                    pre.record@,
                ),
                (spec_locate_at(pre.views(), levels as int, pre.spec_root(), vaddr, tl as int)
                    == locate_at_rec(
                    self.views(),
                    levels as int,
                    vaddr,
                    tl as int,
                    k as int,
                    self.layers@[k as int]@[vi as int].paddr as int,
                ) && *self == pre && *mgr == mgr0) || (spec_locate_at(
                    pre.views(),
                    levels as int,
                    pre.spec_root(),
                    vaddr,
                    tl as int,
                ) == Err::<(int, int), PagingError>(PagingError::NoMemory) && (forall|a: int|
                    0 <= a < 512
                        ==> #[trigger] self.views()[k as int][self.layers@[k as int]@[vi as int].paddr as int][a]
                        == 0u64)),
            decreases tl - k,
        {
            let ghost cur = self.layers@[k as int]@[vi as int].paddr as int;
            let i = index_at(vaddr, levels, k);
            let e = self.entry_at(k, vi, i);
            let pte = Rv64PTE(e);
            proof {
                lemma_e_bits(e);
            }
            if pte.is_unused() {
                proof {
                    if *self == pre {
                        assert(locate_at_rec(
                            self.views(),
                            levels as int,
                            vaddr,
                            tl as int,
                            k as int,
                            cur,
                        ) == Err::<(int, int), PagingError>(PagingError::NoMemory));
                    }
                }
                let ghost mem_a = mgr.mem();
                let p_opt = mgr.alloc_frame();
                match p_opt {
                    None => {
                        return Err(PagingError::NoMemory);
                    },
                    Some(ppn) => {
                        let paddr = ppn.to_address();
                        proof {
                            assert((ppn.0 as u64) < 0x1000_0000_0000u64);
                            assert(paddr == ppn.0 * 4096);
                            assert((paddr as u64) < 0x100_0000_0000_0000u64) by (nonlinear_arith)
                                requires
                                    paddr == ppn.0 * 4096,
                                    (ppn.0 as u64) < 0x1000_0000_0000u64,
                                    paddr <= usize::MAX,
                                    usize::MAX == u64::MAX,
                            ;
                        }
                        if !self.paddr_fresh(paddr) {
                            mgr.dealloc_frame(ppn);
                            proof {
                                assert(mgr.mem() =~= mem_a);
                            }
                            return Err(PagingError::NoMemory);
                        }
                        let ghost vs_it = self.views();
                        let ghost self_it = *self;
                        let vj = self.push_table(k + 1, paddr);
                        let ptr = Rv64PTE::new_table(paddr);
                        let ghost vs_mid = self.views();
                        self.write_entry(k, vi, i, ptr.0);
                        proof {
                            let vs_new = self.views();
                            // growth of this iteration
                            assert(e_paddr(ptr.0) == paddr && e_present(ptr.0) && !e_huge(ptr.0)
                                && ptr.0 != 0u64);
                            assert(views_grown(vs_it, vs_new)) by {
                                assert forall|k1: int, t1: int, i1: int|
                                    0 <= k1 < vs_it.len() && vs_it[k1].dom().contains(t1) && 0 <= i1
                                        < vs_it[k1][t1].len() implies ((#[trigger] vs_new[k1][t1][i1])
                                    == vs_it[k1][t1][i1] || (vs_it[k1][t1][i1] == 0u64 && e_present(
                                    vs_new[k1][t1][i1],
                                ) && !e_huge(vs_new[k1][t1][i1]))) by {
                                    self_it.lemma_layers_distinct();
                                }
                            }
                            lemma_grown_trans(pre.views(), vs_it, vs_new);
                            Self::lemma_record_grown(&self_it, &*self);
                            // walk prefix extension
                            lemma_walk_prefix_preserved(
                                vs_it,
                                vs_new,
                                levels as int,
                                pre.spec_root(),
                                vaddr,
                                k as int,
                                cur,
                            );
                            assert(vs_new[k as int][cur][i as int] == ptr.0);
                            assert(vs_new[(k + 1) as int].dom().contains(paddr as int));
                            assert(walk_prefix(
                                vs_new,
                                levels as int,
                                pre.spec_root(),
                                vaddr,
                                k as int + 1,
                                paddr as int,
                            ));
                            // the new table is all zero
                            assert forall|a: int| 0 <= a < 512 implies #[trigger] vs_new[(k
                                + 1) as int][paddr as int][a] == 0u64 by {
                                assert(vs_new[(k + 1) as int][paddr as int] == zero_table());
                            }
                            // the whole walk was short of memory already
                            assert(spec_locate_at(
                                pre.views(),
                                levels as int,
                                pre.spec_root(),
                                vaddr,
                                tl as int,
                            ) == Err::<(int, int), PagingError>(PagingError::NoMemory)) by {
                                if self_it == pre {
                                    lemma_walk_prefix_locate_at(
                                        pre.views(),
                                        levels as int,
                                        pre.spec_root(),
                                        vaddr,
                                        tl as int,
                                        k as int,
                                        cur,
                                    );
                                }
                            }
                        }
                        vi = vj;
                        k = k + 1;
                    },
                }
            } else {
                if !pte.is_present() {
                    proof {
                        assert(*self == pre);
                        lemma_walk_prefix_locate_at(
                            pre.views(),
                            levels as int,
                            pre.spec_root(),
                            vaddr,
                            tl as int,
                            k as int,
                            cur,
                        );
                    }
                    return Err(PagingError::NotMapped);
                }
                if pte.is_huge() {
                    proof {
                        assert(*self == pre);
                        lemma_walk_prefix_locate_at(
                            pre.views(),
                            levels as int,
                            pre.spec_root(),
                            vaddr,
                            tl as int,
                            k as int,
                            cur,
                        );
                    }
                    return Err(PagingError::MappedToHugePage);
                }
                let child = pte.paddr();
                match self.find_frame(k + 1, child) {
                    None => {
                        proof {
                            assert(*self == pre);
                            lemma_walk_prefix_locate_at(
                                pre.views(),
                                levels as int,
                                pre.spec_root(),
                                vaddr,
                                tl as int,
                                k as int,
                                cur,
                            );
                            assert(!self.views()[(k + 1) as int].dom().contains(e_paddr(e)));
                        }
                        return Err(PagingError::NotMapped);
                    },
                    Some(vj) => {
                        proof {
                            assert(tf_contains(self.layers@[(k + 1) as int]@, child as int));
                            assert(self.views()[(k + 1) as int].dom().contains(child as int));
                            assert(e_paddr(e) == child as int);
                            assert(walk_prefix(
                                self.views(),
                                levels as int,
                                pre.spec_root(),
                                vaddr,
                                k as int + 1,
                                child as int,
                            ));
                        }
                        vi = vj;
                        k = k + 1;
                    },
                }
            }
        }
        let i = index_at(vaddr, levels, tl);
        proof {
            let t = self.layers@[tl as int]@[vi as int].paddr as int;
            lemma_walk_prefix_locate_at(
                self.views(),
                levels as int,
                pre.spec_root(),
                vaddr,
                tl as int,
                tl as int,
                t,
            );
            assert(tf_contains(self.layers@[tl as int]@, t));
            assert(self.views()[tl as int].dom().contains(t));
        }
        Ok((tl, vi, i))
    }
}

impl PageTable64 {
    /// Creates a walker with a freshly allocated, zeroed root table.
    pub fn try_new<M: PageManager>(levels: usize, mgr: &mut M) -> (r: Result<
        PageTable64,
        PagingError,
    >)
        requires
            levels == 3 || levels == 4,
            usize::MAX == u64::MAX,
            old(mgr).inv(),
        ensures
            final (mgr).inv(),
            mem_grown(old(mgr).mem(), final (mgr).mem()),
            match r {
                Ok(pt) => {
                    &&& pt.wf()
                    &&& pt.spec_levels() == levels
                    &&& pt.record_view() == Seq::<(usize, bool)>::empty()
                    &&& !old(mgr).mem().dom().contains(pt.spec_root() / 4096)
                    &&& final (mgr).mem() == old(mgr).mem().insert(
                        pt.spec_root() / 4096,
                        crate::zero_frame(),
                    )
                    &&& (forall|v: usize|
                        spec_query(pt.views(), pt.spec_levels(), pt.spec_root(), v) == Err::<
                            (int, usize, PageSize),
                            PagingError,
                        >(PagingError::NotMapped))
                },
                Err(e) => e == PagingError::NoMemory && final (mgr).mem() == old(mgr).mem(),
            },
    {
        match mgr.alloc_frame() {
            None => Err(PagingError::NoMemory),
            Some(ppn) => {
                let root_paddr = ppn.to_address();
                proof {
                    assert((root_paddr as u64) < 0x100_0000_0000_0000u64) by (nonlinear_arith)
                        requires
                            root_paddr == ppn.0 * 4096,
                            (ppn.0 as u64) < 0x1000_0000_0000u64,
                            root_paddr <= usize::MAX,
                            usize::MAX == u64::MAX,
                    ;
                }
                let entries = zero_entries_vec();
                let mut layers: Vec<Vec<TableFrame>> = Vec::new();
                let root_frame = TableFrame { paddr: root_paddr, entries };
                let mut first: Vec<TableFrame> = Vec::new();
                first.push(root_frame);
                layers.push(first);
                let mut k: usize = 1;
                while k < levels
                    invariant
                        1 <= k <= levels,
                        layers@.len() == k,
                        layers@[0]@.len() == 1,
                        layers@[0]@[0].paddr == root_paddr,
                        layers@[0]@[0].entries@ == zero_table(),
                        forall|j: int| 1 <= j < k ==> (#[trigger] layers@[j]@).len() == 0,
                    decreases levels - k,
                {
                    let next: Vec<TableFrame> = Vec::new();
                    layers.push(next);
                    k = k + 1;
                }
                let pt = PageTable64 { levels, root_paddr, layers, record: Vec::new() };
                proof {
                    assert(ppn.0 * 4096 % 4096 == 0) by (nonlinear_arith);
                    assert(pt.spec_root() / 4096 == ppn.0) by (nonlinear_arith)
                        requires
                            pt.spec_root() == ppn.0 * 4096,
                    ;
                    assert(pt.layers_wf());
                    assert(pt.record_wf());
                    assert forall|v: usize|
                        spec_query(pt.views(), pt.spec_levels(), pt.spec_root(), v) == Err::<
                            (int, usize, PageSize),
                            PagingError,
                        >(PagingError::NotMapped) by {
                        assert(tf_contains(pt.layers@[0]@, root_paddr as int));
                        assert(pt.views()[0][root_paddr as int] == zero_table());
                        let i = spec_index_at(v, levels as int, 0);
                        assert(0 <= i < 512) by {
                            vstd::arithmetic::power2::lemma_pow2_pos(level_shift(levels as int, 0));
                        }
                        let e = pt.views()[0][root_paddr as int][i];
                        assert(e == 0u64);
                        lemma_e_bits(e);
                    }
                }
                Ok(pt)
            },
        }
    }

    /// Maps the page of `vaddr` to the frame of `target`, aligned down to
    /// the page size, creating intermediate tables on demand.  The mapping is
    /// recorded as caller-owned.  Fails with `AlreadyMapped` if the slot
    /// already holds an entry, leaving the walker untouched.
    pub fn map<M: PageManager>(
        &mut self,
        vaddr: usize,
        target: usize,
        page_size: PageSize,
        flags: MappingFlags,
        mgr: &mut M,
    ) -> (r: Result<(), PagingError>)
        requires
            old(self).wf(),
            old(mgr).inv(),
            flags.0 & 0x0a != 0,
            (target as u64) < 0x100_0000_0000_0000u64,
        ensures
            final (self).wf(),
            final (mgr).inv(),
            final (self).spec_levels() == old(self).spec_levels(),
            final (self).spec_root() == old(self).spec_root(),
            mem_grown(old(mgr).mem(), final (mgr).mem()),
            mappings_preserved(
                old(self).views(),
                final (self).views(),
                old(self).spec_levels(),
                old(self).spec_root(),
                old(self).record_view(),
            ),
            ({
                let lv = old(self).spec_levels();
                let rt = old(self).spec_root();
                let tl = leaf_layer(lv, page_size);
                let bytes = page_size.spec_bytes() as int;
                let aligned = target as int - target as int % bytes;
                match r {
                    Ok(()) => {
                        &&& final (self).record_view() == old(self).record_view().push(
                            (vaddr, false),
                        )
                        &&& !old(self).record_contains(vaddr)
                        &&& spec_query(final (self).views(), lv, rt, vaddr) == Ok::<
                            (int, usize, PageSize),
                            PagingError,
                        >((aligned + vaddr as int % bytes, (flags.0 & 0xff) as usize, page_size))
                        &&& (spec_locate_at(old(self).views(), lv, rt, vaddr, tl) is Ok ==> ({
                            let (t, i) = spec_locate_at(old(self).views(), lv, rt, vaddr, tl)->Ok_0;
                            final (self).views() == update_slot(
                                old(self).views(),
                                tl,
                                t,
                                i,
                                page_bits(aligned as usize, flags.0),
                            ) && final (mgr).mem() == old(mgr).mem()
                        }))
                    },
                    Err(PagingError::AlreadyMapped) => {
                        &&& *final (self) == *old(self)
                        &&& *final (mgr) == *old(mgr)
                        &&& spec_locate_at(old(self).views(), lv, rt, vaddr, tl) is Ok
                        &&& ({
                            let (t, i) = spec_locate_at(old(self).views(), lv, rt, vaddr, tl)->Ok_0;
                            old(self).views()[tl][t][i] != 0u64
                        })
                    },
                    Err(PagingError::NoMemory) => final (self).record_view() == old(
                        self,
                    ).record_view() && spec_locate_at(old(self).views(), lv, rt, vaddr, tl)
                        == Err::<(int, int), PagingError>(PagingError::NoMemory),
                    Err(PagingError::NotMapped) => *final (self) == *old(self) && *final (mgr)
                        == *old(mgr) && spec_locate_at(old(self).views(), lv, rt, vaddr, tl)
                        == Err::<(int, int), PagingError>(PagingError::NotMapped),
                    Err(PagingError::MappedToHugePage) => *final (self) == *old(self) && *final (
                    mgr) == *old(mgr) && spec_locate_at(old(self).views(), lv, rt, vaddr, tl)
                        == Err::<(int, int), PagingError>(PagingError::MappedToHugePage),
                    _ => false,
                }
            }),
    {
        let ghost pre = *self;
        let ghost mgr0 = *mgr;
        let kvi = match self.locate_or_create(vaddr, page_size, mgr) {
            Ok(kvi) => kvi,
            Err(e) => {
                return Err(e);
            },
        };
        let (k, vi, i) = kvi;
        let e = self.entry_at(k, vi, i);
        if e != 0 {
            return Err(PagingError::AlreadyMapped);
        }
        let bytes = page_size.bytes();
        proof {
            assert(bytes == 4096 || bytes == 0x20_0000 || bytes == 0x4000_0000);
            assert(target % bytes <= target) by (nonlinear_arith)
                requires
                    bytes >= 1,
            ;
        }
        let aligned = target - (target % bytes);
        proof {
            assert(aligned % 4096 == 0 && aligned <= target) by (nonlinear_arith)
                requires
                    aligned == target - (target % bytes),
                    bytes == 4096 || bytes == 0x20_0000 || bytes == 0x4000_0000,
            ;
        }
        let pte = Rv64PTE::new_page(aligned, flags, page_size.is_huge());
        let ghost mid = *self;
        let ghost t_ = mid.layers@[k as int]@[vi as int].paddr as int;
        self.write_entry(k, vi, i, pte.0);
        proof {
            let lv = pre.spec_levels();
            let rt = pre.spec_root();
            let tl = leaf_layer(lv, page_size);
            let vs_mid = mid.views();
            let vs_new = self.views();
            mid.lemma_layers_distinct();
            assert(vs_new == update_slot(vs_mid, tl, t_, i as int, pte.0));
            assert(vs_mid[tl][t_][i as int] == 0u64);
            assert(e_paddr(pte.0) == aligned && e_flags(pte.0) == flags.0 & 0xff && e_huge(pte.0)
                && pte.0 != 0u64 && e_present(pte.0) == (flags.0 & 0x01 == 0x01));
            // the fresh leaf is found by the walk
            lemma_walk_prefix_preserved(vs_mid, vs_new, lv, rt, vaddr, tl, t_);
            lemma_walk_prefix_locate(vs_new, lv, rt, vaddr, tl, t_);
            lemma_locate_at_index(vs_mid, lv, vaddr, tl, 0, rt);
            assert(spec_index_at(vaddr, lv, tl) == i as int);
            assert(vs_new[tl][t_][i as int] == pte.0);
            assert(locate_rec(vs_new, lv, vaddr, tl, t_) == Ok::<
                (int, int, int, PageSize),
                PagingError,
            >((tl, t_, i as int, page_size)));
            assert(spec_query(vs_new, lv, rt, vaddr) == Ok::<(int, usize, PageSize), PagingError>(
                ((target as int - target as int % page_size.spec_bytes() as int) + vaddr as int
                    % page_size.spec_bytes() as int, (flags.0 & 0xff) as usize, page_size),
            ));
            // the recorded mappings keep their slots and entries
            assert forall|j: int| 0 <= j < mid.record@.len() implies self.record_entry_ok_in(
                j,
                vs_new,
            ) by {
                assert(mid.record_entry_ok(j));
                let v2 = mid.record@[j].0;
                let s2 = spec_locate(vs_mid, lv, rt, v2)->Ok_0;
                assert(vs_mid[s2.0][s2.1][s2.2] != 0u64);
                lemma_locate_update(vs_mid, lv, v2, 0, rt, tl, t_, i as int, pte.0);
            }
            // a recorded address cannot be the one just mapped
            if mid.record_contains(vaddr) {
                let j = choose|j: int|
                    0 <= j < mid.record@.len() && mid.record@[j].0 == vaddr;
                assert(mid.record_entry_ok(j));
                lemma_locate_blocks_locate_at(vs_mid, lv, vaddr, tl, 0, rt);
                assert(false);
            }
        }
        self.record.push((vaddr, false));
        proof {
            let lv = pre.spec_levels();
            let rt = pre.spec_root();
            let tl = leaf_layer(lv, page_size);
            let vs_mid = mid.views();
            let vs_new = self.views();
            assert(self.record@ == mid.record@.push((vaddr, false)));
            assert forall|j: int| 0 <= j < self.record@.len() implies self.record_entry_ok(j) by {
                if j < mid.record@.len() {
                    assert(mid.record_entry_ok(j));
                    let v2 = mid.record@[j].0;
                    let s2 = spec_locate(vs_mid, lv, rt, v2)->Ok_0;
                    assert(vs_mid[s2.0][s2.1][s2.2] != 0u64);
                    lemma_locate_update(vs_mid, lv, v2, 0, rt, tl, t_, i as int, pte.0);
                }
            }
            assert forall|j1: int, j2: int| 0 <= j1 < j2 < self.record@.len() implies self.record_slot(
                (#[trigger] self.record@[j1]).0,
            ) != self.record_slot((#[trigger] self.record@[j2]).0) by {
                if j2 == mid.record@.len() {
                    if j1 < mid.record@.len() {
                        assert(mid.record_entry_ok(j1));
                        let v1 = self.record@[j1].0;
                        let s1 = spec_locate(vs_mid, lv, rt, v1)->Ok_0;
                        assert(vs_mid[s1.0][s1.1][s1.2] != 0u64);
                        lemma_locate_update(vs_mid, lv, v1, 0, rt, tl, t_, i as int, pte.0);
                        if (s1.0, s1.1, s1.2) == (tl, t_, i as int) {
                            assert(false);
                        }
                    }
                } else {
                    assert(mid.record_entry_ok(j1));
                    assert(mid.record_entry_ok(j2));
                    let v1 = self.record@[j1].0;
                    let v2 = self.record@[j2].0;
                    let s1 = spec_locate(vs_mid, lv, rt, v1)->Ok_0;
                    let s2 = spec_locate(vs_mid, lv, rt, v2)->Ok_0;
                    assert(vs_mid[s1.0][s1.1][s1.2] != 0u64);
                    assert(vs_mid[s2.0][s2.1][s2.2] != 0u64);
                    lemma_locate_update(vs_mid, lv, v1, 0, rt, tl, t_, i as int, pte.0);
                    lemma_locate_update(vs_mid, lv, v2, 0, rt, tl, t_, i as int, pte.0);
                    assert(mid.record_slot(v1) != mid.record_slot(v2));
                }
            }
            assert(self.wf());

            assert forall|j: int| 0 <= j < pre.record@.len() implies ({
                let v = (#[trigger] pre.record@[j]).0;
                spec_locate(vs_new, lv, rt, v) == spec_locate(pre.views(), lv, rt, v)
                    && (spec_locate(pre.views(), lv, rt, v) is Ok ==> ({
                    let (k2, t2, i2, sz2) = spec_locate(pre.views(), lv, rt, v)->Ok_0;
                    vs_new[k2][t2][i2] == pre.views()[k2][t2][i2]
                }))
            }) by {
                let v = pre.record@[j].0;
                assert(mid.record@[j] == pre.record@[j]);
                assert(mid.record_entry_ok(j));
                let sm = spec_locate(vs_mid, lv, rt, v)->Ok_0;
                assert(vs_mid[sm.0][sm.1][sm.2] != 0u64);
                lemma_locate_update(vs_mid, lv, v, 0, rt, tl, t_, i as int, pte.0);
            }
            assert(mappings_preserved(pre.views(), vs_new, lv, rt, pre.record@));
        }
        Ok(())
    }

    /// `record_entry_ok` of another record list against explicit views, used
    /// while the record is being updated.
    spec fn record_entry_ok_in(&self, j: int, vs: Seq<Map<int, Seq<u64>>>) -> bool {
        let v = self.record@[j].0;
        match spec_locate(vs, self.spec_levels(), self.spec_root(), v) {
            Ok((k, t, i, sz)) => vs[k][t][i] != 0u64,
            Err(e) => false,
        }
    }
}

/// Shape of a successful read-only walk: the slot lies on the level its size
/// names, at the index the address selects there, in a table of that level,
/// and a slot above the last level holds a huge leaf.
proof fn lemma_locate_props(
    vs: Seq<Map<int, Seq<u64>>>,
    levels: int,
    vaddr: usize,
    layer: int,
    tbl: int,
)
    requires
        vs.len() == levels,
        3 <= levels <= 4,
        0 <= layer < levels,
        vs[layer].dom().contains(tbl),
        locate_rec(vs, levels, vaddr, layer, tbl) is Ok,
    ensures
        ({
            let (k, t, i, sz) = locate_rec(vs, levels, vaddr, layer, tbl)->Ok_0;
            &&& layer <= k < levels
            &&& vs[k].dom().contains(t)
            &&& i == spec_index_at(vaddr, levels, k)
            &&& 0 <= i < 512
            &&& sz == size_at_layer(levels, k)
            &&& k == leaf_layer(levels, sz)
            &&& (k < levels - 1 ==> (levels == 3 || k >= 1) && e_huge(vs[k][t][i]))
        }),
    decreases levels - layer,
{
    let i = spec_index_at(vaddr, levels, layer);
    assert(0 <= i < 512) by {
        vstd::arithmetic::power2::lemma_pow2_pos(level_shift(levels, layer));
    }
    if layer >= levels - 1 {
    } else {
        let e = vs[layer][tbl][i];
        if (levels == 3 || layer >= 1) && e_huge(e) {
        } else {
            lemma_locate_props(vs, levels, vaddr, layer + 1, e_paddr(e));
        }
    }
}

impl PageTable64 {
    /// Re-established well-formedness after a leaf slot is overwritten with
    /// a fresh non-empty leaf entry.
    proof fn lemma_record_leaf_write(pre: &PageTable64, post: &PageTable64, uk: int, ut: int, ui: int, e: u64)
        requires
            pre.wf(),
            post.layers_wf(),
            post.record@ == pre.record@,
            post.levels == pre.levels,
            post.root_paddr == pre.root_paddr,
            post.views() == update_slot(pre.views(), uk, ut, ui, e),
            0 <= uk < pre.spec_levels(),
            pre.views()[uk].dom().contains(ut),
            0 <= ui < 512,
            pre.views()[uk][ut][ui] == 0u64 || e_huge(pre.views()[uk][ut][ui]) || uk
                == pre.spec_levels() - 1,
            e != 0u64,
            uk < pre.spec_levels() - 1 ==> e_huge(e),
        ensures
            post.wf(),
            forall|j: int|
                0 <= j < pre.record@.len() ==> post.record_slot(#[trigger] post.record@[j].0)
                    == pre.record_slot(pre.record@[j].0),
    {
        let lv = pre.spec_levels();
        let rt = pre.spec_root();
        let vs0 = pre.views();
        let vs1 = post.views();
        pre.lemma_layers_distinct();
        assert(tf_contains(pre.layers@[0]@, pre.root_paddr as int));
        assert(vs0[0].dom().contains(rt));
        assert forall|j: int| 0 <= j < post.record@.len() implies post.record_entry_ok(j)
            && post.record_slot(#[trigger] post.record@[j].0) == pre.record_slot(
            pre.record@[j].0,
        ) by {
            assert(pre.record_entry_ok(j));
            let v = pre.record@[j].0;
            let (k, t, i, sz) = spec_locate(vs0, lv, rt, v)->Ok_0;
            lemma_locate_props(vs0, lv, v, 0, rt);
            if k != uk || t != ut || i != ui {
                lemma_locate_update(vs0, lv, v, 0, rt, uk, ut, ui, e);
            } else {
                lemma_locate_walk_prefix(vs0, lv, rt, v, 0, rt);
                lemma_walk_prefix_preserved(vs0, vs1, lv, rt, v, k, t);
                lemma_walk_prefix_locate(vs1, lv, rt, v, k, t);
                assert(vs1[k][t][i] == e);
                assert(locate_rec(vs1, lv, v, k, t) == Ok::<
                    (int, int, int, PageSize),
                    PagingError,
                >((k, t, i, sz)));
            }
        }
    }
}

/// An entry's target address is frame-aligned and inside the frame-number
/// field's range.
proof fn lemma_entry_paddr(e: u64)
    requires
        usize::MAX == u64::MAX,
    ensures
        e_paddr(e) % 4096 == 0,
        0 <= e_paddr(e),
        e_paddr(e) < 0x100_0000_0000_0000,
{
    let x = ((e & 0x003f_ffff_ffff_fc00u64) << 2u64);
    assert(((e & 0x003f_ffff_ffff_fc00u64) << 2u64) % 4096 == 0 && ((e & 0x003f_ffff_ffff_fc00u64)
        << 2u64) < 0x100_0000_0000_0000u64) by (bit_vector);
    assert(e_paddr(e) == x as usize as int);
}

impl PageTable64 {
    /// Maps the page of `vaddr` to library-allocated backing: a fresh block
    /// of contiguous frames, or no frame at all when `lazy_alloc`, in which
    /// case the leaf is installed with V cleared and a zero address, to be
    /// promoted later by `validate`.  The mapping is recorded as
    /// library-owned.  Returns the physical address of the backing.
    pub fn map_no_target<M: PageManager>(
        &mut self,
        vaddr: usize,
        page_size: PageSize,
        flags: MappingFlags,
        lazy_alloc: bool,
        mgr: &mut M,
    ) -> (r: Result<usize, PagingError>)
        requires
            old(self).wf(),
            old(mgr).inv(),
            flags.0 & 0x0a != 0,
            !lazy_alloc ==> flags.0 & 0x01 == 0x01,
        ensures
            final (self).wf(),
            final (mgr).inv(),
            final (self).spec_levels() == old(self).spec_levels(),
            final (self).spec_root() == old(self).spec_root(),
            mem_grown(old(mgr).mem(), final (mgr).mem()),
            mappings_preserved(
                old(self).views(),
                final (self).views(),
                old(self).spec_levels(),
                old(self).spec_root(),
                old(self).record_view(),
            ),
            ({
                let lv = old(self).spec_levels();
                let rt = old(self).spec_root();
                let tl = leaf_layer(lv, page_size);
                let la = spec_locate_at(old(self).views(), lv, rt, vaddr, tl);
                la is Ok ==> ({
                    let (t, i) = la->Ok_0;
                    &&& (old(self).views()[tl][t][i] != 0u64 ==> r == Err::<usize, PagingError>(
                        PagingError::AlreadyMapped,
                    ))
                    &&& (old(self).views()[tl][t][i] == 0u64 && lazy_alloc ==> r is Ok)
                })
            }),
            ({
                let lv = old(self).spec_levels();
                let rt = old(self).spec_root();
                let tl = leaf_layer(lv, page_size);
                let bytes = page_size.spec_bytes() as int;
                let n = bytes / 4096;
                let stored = if lazy_alloc {
                    (flags.0 & !0x01) & 0xff
                } else {
                    flags.0 & 0xff
                };
                match r {
                    Ok(phy) => {
                        &&& final (self).record_view() == old(self).record_view().push(
                            (vaddr, true),
                        )
                        &&& !old(self).record_contains(vaddr)
                        &&& phy % 4096 == 0
                        &&& spec_query(final (self).views(), lv, rt, vaddr) == Ok::<
                            (int, usize, PageSize),
                            PagingError,
                        >((phy + vaddr as int % bytes, stored as usize, page_size))
                        &&& (lazy_alloc ==> phy == 0)
                        &&& (!lazy_alloc ==> (forall|q: int|
                            phy as int / 4096 <= q < phy as int / 4096 + n ==> !old(
                                mgr,
                            ).mem().dom().contains(q) && final (mgr).mem().dom().contains(q)
                                && final (mgr).mem()[q] == crate::zero_frame()))
                        &&& (lazy_alloc && spec_locate_at(old(self).views(), lv, rt, vaddr, tl)
                            is Ok ==> ({
                            let (t, i) = spec_locate_at(old(self).views(), lv, rt, vaddr, tl)->Ok_0;
                            final (self).views() == update_slot(
                                old(self).views(),
                                tl,
                                t,
                                i,
                                page_bits(0, flags.0 & !0x01),
                            ) && final (mgr).mem() == old(mgr).mem()
                        }))
                    },
                    Err(PagingError::AlreadyMapped) => {
                        &&& *final (self) == *old(self)
                        &&& spec_locate_at(old(self).views(), lv, rt, vaddr, tl) is Ok
                        &&& ({
                            let (t, i) = spec_locate_at(old(self).views(), lv, rt, vaddr, tl)->Ok_0;
                            old(self).views()[tl][t][i] != 0u64
                        })
                    },
                    Err(PagingError::NoMemory) => final (self).record_view() == old(
                        self,
                    ).record_view(),
                    Err(PagingError::NotMapped) => *final (self) == *old(self) && *final (mgr)
                        == *old(mgr) && spec_locate_at(old(self).views(), lv, rt, vaddr, tl)
                        == Err::<(int, int), PagingError>(PagingError::NotMapped),
                    Err(PagingError::MappedToHugePage) => *final (self) == *old(self) && *final (
                    mgr) == *old(mgr) && spec_locate_at(old(self).views(), lv, rt, vaddr, tl)
                        == Err::<(int, int), PagingError>(PagingError::MappedToHugePage),
                    _ => false,
                }
            }),
    {
        let ghost pre = *self;
        let ghost mgr0 = *mgr;
        let kvi = match self.locate_or_create(vaddr, page_size, mgr) {
            Ok(kvi) => kvi,
            Err(e) => {
                return Err(e);
            },
        };
        let (k, vi, i) = kvi;
        let e = self.entry_at(k, vi, i);
        if e != 0 {
            return Err(PagingError::AlreadyMapped);
        }
        let mut use_flags = flags;
        let phy: usize;
        let ghost mem_loc = mgr.mem();
        if lazy_alloc {
            use_flags = flags.minus(MappingFlags::v());
            phy = 0;
        } else {
            let n = page_size.frames();
            match mgr.alloc_contiguous(n) {
                None => {
                    return Err(PagingError::NoMemory);
                },
                Some(base) => {
                    proof {
                        assert(page_number_in_range(base.0));
                        assert(base.0 + n <= 0x1000_0000_0000);
                        assert((base.0 as u64) < 0x1000_0000_0000u64);
                    }
                    phy = base.to_address();
                    proof {
                        assert(phy % 4096 == 0 && phy as int / 4096 == base.0 && (phy as u64)
                            < 0x100_0000_0000_0000u64) by (nonlinear_arith)
                            requires
                                phy == base.0 * 4096,
                                (base.0 as u64) < 0x1000_0000_0000u64,
                                phy <= usize::MAX,
                                usize::MAX == u64::MAX,
                        ;
                        lemma_alloc_contiguous_grown(mem_loc, mgr.mem(), base.0 as int, n as int);
                        lemma_mem_grown_trans(mgr0.mem(), mem_loc, mgr.mem());
                        assert forall|q: int|
                            phy as int / 4096 <= q < phy as int / 4096 + n implies !mgr0.mem().dom().contains(
                            q,
                        ) && mgr.mem().dom().contains(q) && mgr.mem()[q]
                            == crate::zero_frame() by {
                            assert(!mem_loc.dom().contains(q));
                        }
                    }
                },
            }
        }
        proof {
            let f0 = flags.0;
            assert((f0 & !0x01) & 0x0a != 0 && ((f0 & !0x01) & 0xff) == ((f0 & 0xff) & !0x01)
                && ((f0 & !0x01) & 0x01) != 0x01) by (bit_vector)
                requires
                    f0 & 0x0a != 0,
            ;
        }
        let pte = Rv64PTE::new_page(phy, use_flags, page_size.is_huge());
        let ghost mid = *self;
        let ghost t_ = mid.layers@[k as int]@[vi as int].paddr as int;
        self.write_entry(k, vi, i, pte.0);
        proof {
            let lv = pre.spec_levels();
            let rt = pre.spec_root();
            let tl = leaf_layer(lv, page_size);
            let vs_mid = mid.views();
            let vs_new = self.views();
            mid.lemma_layers_distinct();
            assert(vs_new == update_slot(vs_mid, tl, t_, i as int, pte.0));
            assert(vs_mid[tl][t_][i as int] == 0u64);
            lemma_walk_prefix_preserved(vs_mid, vs_new, lv, rt, vaddr, tl, t_);
            lemma_walk_prefix_locate(vs_new, lv, rt, vaddr, tl, t_);
            lemma_locate_at_index(vs_mid, lv, vaddr, tl, 0, rt);
            assert(vs_new[tl][t_][i as int] == pte.0);
            assert(locate_rec(vs_new, lv, vaddr, tl, t_) == Ok::<
                (int, int, int, PageSize),
                PagingError,
            >((tl, t_, i as int, page_size)));
            Self::lemma_record_leaf_write(&mid, &*self, tl, t_, i as int, pte.0);
            if mid.record_contains(vaddr) {
                let j = choose|j: int| 0 <= j < mid.record@.len() && mid.record@[j].0 == vaddr;
                assert(mid.record_entry_ok(j));
                lemma_locate_blocks_locate_at(vs_mid, lv, vaddr, tl, 0, rt);
                assert(false);
            }
        }
        let ghost mid2 = *self;
        self.record.push((vaddr, true));
        proof {
            let lv = pre.spec_levels();
            let rt = pre.spec_root();
            let vs_new = self.views();
            assert forall|j: int| 0 <= j < self.record@.len() implies self.record_entry_ok(j) by {
                if j < mid.record@.len() {
                    assert(mid2.record_entry_ok(j));
                    assert(self.record@[j] == mid2.record@[j]);
                } else {
                    assert(spec_locate(vs_new, lv, rt, vaddr) == Ok::<
                        (int, int, int, PageSize),
                        PagingError,
                    >((leaf_layer(lv, page_size), t_, spec_index_at(vaddr, lv, leaf_layer(
                        lv,
                        page_size,
                    )), page_size)));
                }
            }
            assert forall|j1: int, j2: int|
                0 <= j1 < j2 < self.record@.len() implies self.record_slot(
                (#[trigger] self.record@[j1]).0,
            ) != self.record_slot((#[trigger] self.record@[j2]).0) by {
                if j2 == mid.record@.len() {
                    if j1 < mid.record@.len() {
                        assert(mid.record_entry_ok(j1));
                        let v1 = self.record@[j1].0;
                        let s1 = spec_locate(mid.views(), lv, rt, v1)->Ok_0;
                        assert(mid.views()[s1.0][s1.1][s1.2] != 0u64);
                        lemma_locate_update(
                            mid.views(),
                            lv,
                            v1,
                            0,
                            rt,
                            leaf_layer(lv, page_size),
                            t_,
                            i as int,
                            page_bits(phy, if lazy_alloc {
                                flags.0 & !0x01
                            } else {
                                flags.0
                            }),
                        );
                        if (s1.0, s1.1, s1.2) == (
                            leaf_layer(lv, page_size),
                            t_,
                            i as int,
                        ) {
                            assert(false);
                        }
                    }
                } else {
                    assert(mid2.record_slot(self.record@[j1].0) != mid2.record_slot(
                        self.record@[j2].0,
                    ));
                }
            }
            assert(self.wf());
            let vs_mid = mid.views();

            assert forall|j: int| 0 <= j < pre.record@.len() implies ({
                let v = (#[trigger] pre.record@[j]).0;
                spec_locate(vs_new, lv, rt, v) == spec_locate(pre.views(), lv, rt, v)
                    && (spec_locate(pre.views(), lv, rt, v) is Ok ==> ({
                    let (k2, t2, i2, sz2) = spec_locate(pre.views(), lv, rt, v)->Ok_0;
                    vs_new[k2][t2][i2] == pre.views()[k2][t2][i2]
                }))
            }) by {
                let v = pre.record@[j].0;
                assert(mid.record@[j] == pre.record@[j]);
                assert(mid.record_entry_ok(j));
                let sm = spec_locate(vs_mid, lv, rt, v)->Ok_0;
                assert(vs_mid[sm.0][sm.1][sm.2] != 0u64);
                lemma_locate_update(vs_mid, lv, v, 0, rt, leaf_layer(lv, page_size), t_, i as int, pte.0);
            }
            assert(mappings_preserved(pre.views(), vs_new, lv, rt, pre.record@));
        }
        Ok(phy)
    }

    /// Promotes a lazy leaf: the slot must hold an entry that is not yet
    /// valid; fresh backing frames are allocated and a valid leaf with
    /// `flags` is written over it.
    pub fn validate<M: PageManager>(
        &mut self,
        vaddr: usize,
        flags: MappingFlags,
        mgr: &mut M,
    ) -> (r: Result<(), PagingError>)
        requires
            old(self).wf(),
            old(mgr).inv(),
            flags.0 & 0x0a != 0,
        ensures
            final (self).wf(),
            final (mgr).inv(),
            final (self).spec_levels() == old(self).spec_levels(),
            final (self).spec_root() == old(self).spec_root(),
            final (self).record_view() == old(self).record_view(),
            mem_grown(old(mgr).mem(), final (mgr).mem()),
            ({
                let loc = spec_locate(
                    old(self).views(),
                    old(self).spec_levels(),
                    old(self).spec_root(),
                    vaddr,
                );
                &&& (loc is Err ==> r == Err::<(), PagingError>(loc->Err_0))
                &&& (loc is Ok ==> ({
                    let (k, t, i, sz) = loc->Ok_0;
                    let e0 = old(self).views()[k][t][i];
                    &&& (e0 == 0u64 ==> r == Err::<(), PagingError>(PagingError::NotMapped))
                    &&& (e0 != 0u64 && e_present(e0) ==> r == Err::<(), PagingError>(
                        PagingError::AlreadyValid,
                    ))
                    &&& (e0 != 0u64 && !e_present(e0) ==> (r is Ok || r == Err::<(), PagingError>(
                        PagingError::NoMemory,
                    )))
                }))
            }),
            ({
                let lv = old(self).spec_levels();
                let rt = old(self).spec_root();
                match r {
                    Ok(()) => {
                        &&& spec_locate(old(self).views(), lv, rt, vaddr) is Ok
                        &&& ({
                            let (k, t, i, sz) = spec_locate(old(self).views(), lv, rt, vaddr)->Ok_0;
                            let e0 = old(self).views()[k][t][i];
                            let e1 = final (self).views()[k][t][i];
                            let n = sz.spec_bytes() as int / 4096;
                            &&& e0 != 0u64 && !e_present(e0)
                            &&& final (self).views() == update_slot(old(self).views(), k, t, i, e1)
                            &&& e_flags(e1) == flags.0 & 0xff
                            &&& e_present(e1) == (flags.0 & 0x01 == 0x01)
                            &&& e1 != 0u64
                            &&& e_paddr(e1) % 4096 == 0
                            &&& (forall|q: int|
                                e_paddr(e1) / 4096 <= q < e_paddr(e1) / 4096 + n ==> !old(
                                    mgr,
                                ).mem().dom().contains(q) && final (mgr).mem().dom().contains(q)
                                    && final (mgr).mem()[q] == crate::zero_frame())
                            &&& spec_locate(final (self).views(), lv, rt, vaddr) == Ok::<
                                (int, int, int, PageSize),
                                PagingError,
                            >((k, t, i, sz))
                        })
                    },
                    Err(PagingError::NotMapped) => *final (self) == *old(self) && *final (mgr)
                        == *old(mgr) && (spec_locate(old(self).views(), lv, rt, vaddr) == Err::<
                        (int, int, int, PageSize),
                        PagingError,
                    >(PagingError::NotMapped) || (spec_locate(old(self).views(), lv, rt, vaddr)
                        is Ok && ({
                        let (k, t, i, sz) = spec_locate(old(self).views(), lv, rt, vaddr)->Ok_0;
                        old(self).views()[k][t][i] == 0u64
                    }))),
                    Err(PagingError::MappedToHugePage) => *final (self) == *old(self) && *final (
                    mgr) == *old(mgr) && spec_locate(old(self).views(), lv, rt, vaddr) == Err::<
                        (int, int, int, PageSize),
                        PagingError,
                    >(PagingError::MappedToHugePage),
                    Err(PagingError::AlreadyValid) => *final (self) == *old(self) && *final (mgr)
                        == *old(mgr) && spec_locate(old(self).views(), lv, rt, vaddr) is Ok && ({
                        let (k, t, i, sz) = spec_locate(old(self).views(), lv, rt, vaddr)->Ok_0;
                        let e0 = old(self).views()[k][t][i];
                        e0 != 0u64 && e_present(e0)
                    }),
                    Err(PagingError::NoMemory) => *final (self) == *old(self) && final (mgr).mem()
                        == old(mgr).mem(),
                    _ => false,
                }
            }),
    {
        let ghost pre = *self;
        let r0 = self.locate(vaddr);
        let (k, vi, i, sz) = match r0 {
            Ok(x) => x,
            Err(e) => {
                return Err(e);
            },
        };
        let e = self.entry_at(k, vi, i);
        let pte = Rv64PTE(e);
        if pte.is_unused() {
            return Err(PagingError::NotMapped);
        }
        if pte.is_present() {
            return Err(PagingError::AlreadyValid);
        }
        let n = sz.frames();
        let base = match mgr.alloc_contiguous(n) {
            None => {
                return Err(PagingError::NoMemory);
            },
            Some(base) => base,
        };
        proof {
            assert(page_number_in_range(base.0));
        }
        let phy = base.to_address();
        proof {
            assert(phy % 4096 == 0 && phy as int / 4096 == base.0 && (phy as u64)
                < 0x100_0000_0000_0000u64) by (nonlinear_arith)
                requires
                    phy == base.0 * 4096,
                    (base.0 as u64) < 0x1000_0000_0000u64,
                    phy <= usize::MAX,
                    usize::MAX == u64::MAX,
            ;
        }
        let newpte = Rv64PTE::new_page(phy, flags, sz.is_huge());
        let ghost t_ = pre.layers@[k as int]@[vi as int].paddr as int;
        proof {
            lemma_alloc_contiguous_grown(old(mgr).mem(), mgr.mem(), base.0 as int, n as int);
            let lv = pre.spec_levels();
            let rt = pre.spec_root();
            pre.lemma_layers_distinct();
            assert(tf_contains(pre.layers@[0]@, pre.root_paddr as int));
            lemma_locate_props(pre.views(), lv, vaddr, 0, rt);
            assert(phy as int / 4096 == base.0);
        }
        self.write_entry(k, vi, i, newpte.0);
        proof {
            let lv = pre.spec_levels();
            let rt = pre.spec_root();
            let vs0 = pre.views();
            let vs1 = self.views();
            Self::lemma_record_leaf_write(&pre, &*self, k as int, t_, i as int, newpte.0);
            lemma_locate_walk_prefix(vs0, lv, rt, vaddr, 0, rt);
            lemma_walk_prefix_preserved(vs0, vs1, lv, rt, vaddr, k as int, t_);
            lemma_walk_prefix_locate(vs1, lv, rt, vaddr, k as int, t_);
            assert(vs1[k as int][t_][i as int] == newpte.0);
            assert(spec_locate(vs1, lv, rt, vaddr) == Ok::<
                (int, int, int, PageSize),
                PagingError,
            >((k as int, t_, i as int, sz)));
            assert(e_paddr(newpte.0) == phy);
        }
        Ok(())
    }
}

impl PageTable64 {
    /// Overwrites the flags of the leaf mapping `vaddr`; with `re_alloc` the
    /// backing is swapped for freshly allocated frames and the new physical
    /// address returned, the old backing left to the caller to retire.
    pub fn modify_pte_flags<M: PageManager>(
        &mut self,
        vaddr: usize,
        flags: MappingFlags,
        re_alloc: bool,
        mgr: &mut M,
    ) -> (r: Result<Option<usize>, PagingError>)
        requires
            old(self).wf(),
            old(mgr).inv(),
            flags.0 & 0x0a != 0,
        ensures
            final (self).wf(),
            final (mgr).inv(),
            final (self).spec_levels() == old(self).spec_levels(),
            final (self).spec_root() == old(self).spec_root(),
            final (self).record_view() == old(self).record_view(),
            mem_grown(old(mgr).mem(), final (mgr).mem()),
            ({
                let loc = spec_locate(
                    old(self).views(),
                    old(self).spec_levels(),
                    old(self).spec_root(),
                    vaddr,
                );
                &&& (loc is Err ==> r == Err::<Option<usize>, PagingError>(loc->Err_0))
                &&& (loc is Ok ==> ({
                    let (k, t, i, sz) = loc->Ok_0;
                    let e0 = old(self).views()[k][t][i];
                    &&& (e0 == 0u64 ==> r == Err::<Option<usize>, PagingError>(
                        PagingError::NotMapped,
                    ))
                    &&& (e0 != 0u64 && !re_alloc ==> r == Ok::<Option<usize>, PagingError>(None))
                    &&& (e0 != 0u64 && re_alloc ==> (r is Ok || r == Err::<
                        Option<usize>,
                        PagingError,
                    >(PagingError::NoMemory)))
                }))
            }),
            ({
                let lv = old(self).spec_levels();
                let rt = old(self).spec_root();
                match r {
                    Ok(opt) => {
                        &&& spec_locate(old(self).views(), lv, rt, vaddr) is Ok
                        &&& ({
                            let (k, t, i, sz) = spec_locate(old(self).views(), lv, rt, vaddr)->Ok_0;
                            let e0 = old(self).views()[k][t][i];
                            let e1 = final (self).views()[k][t][i];
                            let n = sz.spec_bytes() as int / 4096;
                            &&& e0 != 0u64
                            &&& final (self).views() == update_slot(old(self).views(), k, t, i, e1)
                            &&& e1 != 0u64
                            &&& e_flags(e1) == flags.0 & 0xff
                            &&& spec_locate(final (self).views(), lv, rt, vaddr) == Ok::<
                                (int, int, int, PageSize),
                                PagingError,
                            >((k, t, i, sz))
                            &&& match opt {
                                Some(p) => re_alloc && e_paddr(e1) == p && (forall|q: int|
                                    p as int / 4096 <= q < p as int / 4096 + n ==> !old(
                                        mgr,
                                    ).mem().dom().contains(q) && final (mgr).mem().dom().contains(q)
                                        && final (mgr).mem()[q] == crate::zero_frame()),
                                None => !re_alloc && e_paddr(e1) == e_paddr(e0) && final (mgr).mem()
                                    == old(mgr).mem(),
                            }
                        })
                    },
                    Err(PagingError::NotMapped) => *final (self) == *old(self) && *final (mgr)
                        == *old(mgr) && (spec_locate(old(self).views(), lv, rt, vaddr) == Err::<
                        (int, int, int, PageSize),
                        PagingError,
                    >(PagingError::NotMapped) || (spec_locate(old(self).views(), lv, rt, vaddr)
                        is Ok && ({
                        let (k, t, i, sz) = spec_locate(old(self).views(), lv, rt, vaddr)->Ok_0;
                        old(self).views()[k][t][i] == 0u64
                    }))),
                    Err(PagingError::MappedToHugePage) => *final (self) == *old(self) && *final (
                    mgr) == *old(mgr) && spec_locate(old(self).views(), lv, rt, vaddr) == Err::<
                        (int, int, int, PageSize),
                        PagingError,
                    >(PagingError::MappedToHugePage),
                    Err(PagingError::NoMemory) => *final (self) == *old(self) && final (mgr).mem()
                        == old(mgr).mem(),
                    _ => false,
                }
            }),
    {
        let ghost pre = *self;
        let (k, vi, i, sz) = match self.locate(vaddr) {
            Ok(x) => x,
            Err(e) => {
                return Err(e);
            },
        };
        let e = self.entry_at(k, vi, i);
        let pte = Rv64PTE(e);
        if pte.is_unused() {
            return Err(PagingError::NotMapped);
        }
        let phy: usize;
        if re_alloc {
            let n = sz.frames();
            match mgr.alloc_contiguous(n) {
                None => {
                    return Err(PagingError::NoMemory);
                },
                Some(base) => {
                    proof {
                        assert(page_number_in_range(base.0));
                    }
                    phy = base.to_address();
                    proof {
                        assert(phy % 4096 == 0 && phy as int / 4096 == base.0 && (phy as u64)
                            < 0x100_0000_0000_0000u64) by (nonlinear_arith)
                            requires
                                phy == base.0 * 4096,
                                (base.0 as u64) < 0x1000_0000_0000u64,
                                phy <= usize::MAX,
                                usize::MAX == u64::MAX,
                        ;
                        lemma_alloc_contiguous_grown(
                            old(mgr).mem(),
                            mgr.mem(),
                            base.0 as int,
                            n as int,
                        );
                    }
                },
            }
        } else {
            proof {
                lemma_entry_paddr(e);
            }
            phy = pte.paddr();
        }
        let newpte = Rv64PTE::new_page(phy, flags, sz.is_huge());
        let ghost t_ = pre.layers@[k as int]@[vi as int].paddr as int;
        proof {
            let lv = pre.spec_levels();
            let rt = pre.spec_root();
            pre.lemma_layers_distinct();
            assert(tf_contains(pre.layers@[0]@, pre.root_paddr as int));
            lemma_locate_props(pre.views(), lv, vaddr, 0, rt);
            lemma_e_bits(e);
        }
        self.write_entry(k, vi, i, newpte.0);
        proof {
            let lv = pre.spec_levels();
            let rt = pre.spec_root();
            let vs0 = pre.views();
            let vs1 = self.views();
            Self::lemma_record_leaf_write(&pre, &*self, k as int, t_, i as int, newpte.0);
            lemma_locate_walk_prefix(vs0, lv, rt, vaddr, 0, rt);
            lemma_walk_prefix_preserved(vs0, vs1, lv, rt, vaddr, k as int, t_);
            lemma_walk_prefix_locate(vs1, lv, rt, vaddr, k as int, t_);
            assert(vs1[k as int][t_][i as int] == newpte.0);
            assert(spec_locate(vs1, lv, rt, vaddr) == Ok::<
                (int, int, int, PageSize),
                PagingError,
            >((k as int, t_, i as int, sz)));
            assert(e_paddr(newpte.0) == phy);
        }
        if re_alloc {
            Ok(Some(phy))
        } else {
            Ok(None)
        }
    }

    /// Unmaps the leaf mapping `vaddr`: clears the slot, returns the frames
    /// of a library-owned, valid leaf to the allocator, and drops the
    /// address from the record.  An installed mapping must be unmapped by
    /// the address it was recorded under.
    pub fn unmap<M: PageManager>(&mut self, vaddr: usize, mgr: &mut M) -> (r: Result<
        (usize, PageSize),
        PagingError,
    >)
        requires
            old(self).wf(),
            old(mgr).inv(),
            ({
                match spec_locate(
                    old(self).views(),
                    old(self).spec_levels(),
                    old(self).spec_root(),
                    vaddr,
                ) {
                    Ok((k, t, i, sz)) => old(self).views()[k][t][i] != 0u64 ==> old(
                        self,
                    ).record_contains(vaddr),
                    Err(e) => true,
                }
            }),
        ensures
            final (self).wf(),
            final (mgr).inv(),
            final (self).spec_levels() == old(self).spec_levels(),
            final (self).spec_root() == old(self).spec_root(),
            ({
                let lv = old(self).spec_levels();
                let rt = old(self).spec_root();
                match r {
                    Ok((pa, sz)) => {
                        &&& spec_locate(old(self).views(), lv, rt, vaddr) is Ok
                        &&& ({
                            let (k, t, i, s0) = spec_locate(old(self).views(), lv, rt, vaddr)->Ok_0;
                            let e0 = old(self).views()[k][t][i];
                            let owned = old(self).record_owned(vaddr);
                            let n = s0.spec_bytes() as int / 4096;
                            &&& s0 == sz
                            &&& e0 != 0u64
                            &&& pa == e_paddr(e0)
                            &&& final (self).views() == update_slot(old(self).views(), k, t, i, 0u64)
                            &&& spec_query(final (self).views(), lv, rt, vaddr) == Err::<
                                (int, usize, PageSize),
                                PagingError,
                            >(PagingError::NotMapped)
                            &&& !final (self).record_contains(vaddr)
                            &&& (forall|v2: usize|
                                v2 != vaddr ==> #[trigger] final (self).record_contains(v2) == old(
                                    self,
                                ).record_contains(v2))
                            &&& final (self).record_view().len() == old(self).record_view().len()
                                - 1
                            &&& (owned && e_present(e0) ==> (forall|q: int|
                                !(pa as int / 4096 <= q < pa as int / 4096 + n)
                                    ==> (#[trigger] final (mgr).mem().dom().contains(q) <==> old(
                                    mgr,
                                ).mem().dom().contains(q)) && (old(mgr).mem().dom().contains(q)
                                    ==> final (mgr).mem()[q] == old(mgr).mem()[q])) && (forall|
                                q: int,
                            |
                                pa as int / 4096 <= q < pa as int / 4096 + n ==> !(#[trigger] final (
                                mgr).mem().dom().contains(q))))
                            &&& (!(owned && e_present(e0)) ==> final (mgr).mem() == old(mgr).mem())
                        })
                    },
                    Err(e) => {
                        &&& *final (self) == *old(self)
                        &&& *final (mgr) == *old(mgr)
                        &&& (spec_locate(old(self).views(), lv, rt, vaddr) == Err::<
                            (int, int, int, PageSize),
                            PagingError,
                        >(e) || (e == PagingError::NotMapped && spec_locate(
                            old(self).views(),
                            lv,
                            rt,
                            vaddr,
                        ) is Ok && ({
                            let (k, t, i, s0) = spec_locate(old(self).views(), lv, rt, vaddr)->Ok_0;
                            old(self).views()[k][t][i] == 0u64
                        })))
                    },
                }
            }),
    {
        let ghost pre = *self;
        let (k, vi, i, sz) = match self.locate(vaddr) {
            Ok(x) => x,
            Err(e) => {
                return Err(e);
            },
        };
        let e = self.entry_at(k, vi, i);
        let pte = Rv64PTE(e);
        if pte.is_unused() {
            return Err(PagingError::NotMapped);
        }
        proof {
            lemma_entry_paddr(e);
            lemma_e_bits(e);
        }
        let pa = pte.paddr();
        let owned = match self.record_find(vaddr) {
            Some(j) => {
                let owned = self.record[j].1;
                let ghost t_ = pre.layers@[k as int]@[vi as int].paddr as int;
                proof {
                    let lv = pre.spec_levels();
                    let rt = pre.spec_root();
                    pre.lemma_layers_distinct();
                    assert(tf_contains(pre.layers@[0]@, pre.root_paddr as int));
                    lemma_locate_props(pre.views(), lv, vaddr, 0, rt);
                }
                self.write_entry(k, vi, i, 0);
                self.record.remove(j);
                proof {
                    let lv = pre.spec_levels();
                    let rt = pre.spec_root();
                    let vs0 = pre.views();
                    let vs1 = self.views();
                    let r0 = pre.record@;
                    let r1 = self.record@;
                    assert(r1 == r0.remove(j as int));
                    // distinct keys survive removal
                    assert forall|a: int, b: int| 0 <= a < b < r1.len() implies (
                    #[trigger] r1[a]).0 != (#[trigger] r1[b]).0 by {
                        let a0 = if a < j {
                            a
                        } else {
                            a + 1
                        };
                        let b0 = if b < j {
                            b
                        } else {
                            b + 1
                        };
                        assert(r1[a] == r0[a0] && r1[b] == r0[b0]);
                    }
                    // every other recorded slot is untouched
                    assert forall|a: int| 0 <= a < r1.len() implies self.record_entry_ok(a)
                        && self.record_slot(r1[a].0) == pre.record_slot(r1[a].0) by {
                        let a0 = if a < j {
                            a
                        } else {
                            a + 1
                        };
                        assert(r1[a] == r0[a0]);
                        assert(pre.record_entry_ok(a0));
                        let v2 = r0[a0].0;
                        let s2 = spec_locate(vs0, lv, rt, v2)->Ok_0;
                        assert(vs0[s2.0][s2.1][s2.2] != 0u64);
                        assert(pre.record_slot(v2) != pre.record_slot(vaddr));
                        lemma_locate_update(vs0, lv, v2, 0, rt, k as int, t_, i as int, 0u64);
                    }
                    assert forall|a: int, b: int| 0 <= a < b < r1.len() implies self.record_slot(
                        (#[trigger] r1[a]).0,
                    ) != self.record_slot((#[trigger] r1[b]).0) by {
                        let a0 = if a < j {
                            a
                        } else {
                            a + 1
                        };
                        let b0 = if b < j {
                            b
                        } else {
                            b + 1
                        };
                        assert(r1[a] == r0[a0] && r1[b] == r0[b0]);
                        assert(pre.record_slot(r0[a0].0) != pre.record_slot(r0[b0].0));
                        assert(pre.record_entry_ok(a0));
                        assert(pre.record_entry_ok(b0));
                        let va = r0[a0].0;
                        let vb = r0[b0].0;
                        let sa = spec_locate(vs0, lv, rt, va)->Ok_0;
                        let sb = spec_locate(vs0, lv, rt, vb)->Ok_0;
                        assert(vs0[sa.0][sa.1][sa.2] != 0u64);
                        assert(vs0[sb.0][sb.1][sb.2] != 0u64);
                        assert(pre.record_slot(va) != pre.record_slot(vaddr));
                        assert(pre.record_slot(vb) != pre.record_slot(vaddr));
                        lemma_locate_update(vs0, lv, va, 0, rt, k as int, t_, i as int, 0u64);
                        lemma_locate_update(vs0, lv, vb, 0, rt, k as int, t_, i as int, 0u64);
                    }
                    assert(self.wf());
                    // the unmapped address is gone from the record
                    if self.record_contains(vaddr) {
                        let a = choose|a: int| 0 <= a < r1.len() && r1[a].0 == vaddr;
                        let a0 = if a < j {
                            a
                        } else {
                            a + 1
                        };
                        assert(r1[a] == r0[a0] && a0 != j);
                        assert(false);
                    }
                    assert forall|v2: usize| v2 != vaddr implies #[trigger] self.record_contains(v2)
                        == pre.record_contains(v2) by {
                        if pre.record_contains(v2) {
                            let a0 = choose|a0: int| 0 <= a0 < r0.len() && r0[a0].0 == v2;
                            assert(a0 != j);
                            let a = if a0 < j {
                                a0
                            } else {
                                a0 - 1
                            };
                            assert(r1[a] == r0[a0]);
                            assert(self.record_contains(v2));
                        }
                        if self.record_contains(v2) {
                            let a = choose|a: int| 0 <= a < r1.len() && r1[a].0 == v2;
                            let a0 = if a < j {
                                a
                            } else {
                                a + 1
                            };
                            assert(r1[a] == r0[a0]);
                            assert(pre.record_contains(v2));
                        }
                    }
                    // the cleared slot no longer answers a query
                    lemma_locate_walk_prefix(vs0, lv, rt, vaddr, 0, rt);
                    lemma_walk_prefix_preserved(vs0, vs1, lv, rt, vaddr, k as int, t_);
                    lemma_walk_prefix_locate(vs1, lv, rt, vaddr, k as int, t_);
                    lemma_e_bits(0u64);
                    assert(vs1[k as int][t_][i as int] == 0u64);
                }
                owned
            },
            None => {
                proof {
                    assert(pre.record_contains(vaddr));
                    assert(false);
                }
                false
            },
        };
        if owned && pte.is_present() {
            let n = sz.frames();
            let base = pa / 4096;
            let ghost mem0 = mgr.mem();
            let mut x: usize = 0;
            while x < n
                invariant
                    x <= n,
                    base == pa as int / 4096,
                    pa as int / 4096 + n <= usize::MAX as int,
                    base + n <= usize::MAX as int,
                    mgr.inv(),
                    forall|q: int|
                        !(base <= q < base + x) ==> (#[trigger] mgr.mem().dom().contains(q) <==> mem0.dom().contains(
                            q,
                        )) && (mem0.dom().contains(q) ==> mgr.mem()[q] == mem0[q]),
                    forall|q: int|
                        base <= q < base + x ==> !(#[trigger] mgr.mem().dom().contains(q)),
                decreases n - x,
            {
                let ghost memi = mgr.mem();
                mgr.dealloc_frame(PageNumber(base + x));
                proof {
                    assert(mgr.mem() == memi.remove((base + x) as int));
                }
                x = x + 1;
            }
        }
        Ok((pa, sz))
    }

    /// Position of `vaddr` in the record.
    fn record_find(&self, vaddr: usize) -> (r: Option<usize>)
        ensures
            match r {
                Some(j) => j < self.record_view().len() && self.record_view()[j as int].0 == vaddr,
                None => !self.record_contains(vaddr),
            },
    {
        let mut j: usize = 0;
        while j < self.record.len()
            invariant
                j <= self.record@.len(),
                forall|a: int| 0 <= a < j ==> (#[trigger] self.record@[a]).0 != vaddr,
            decreases self.record@.len() - j,
        {
            if self.record[j].0 == vaddr {
                return Some(j);
            }
            j = j + 1;
        }
        proof {
            if self.record_contains(vaddr) {
                let a = choose|a: int|
                    0 <= a < self.record_view().len() && self.record_view()[a].0 == vaddr;
                assert(false);
            }
        }
        None
    }

    /// Whether the recorded mapping of `vaddr` is library-owned.
    pub open spec fn record_owned(&self, vaddr: usize) -> bool {
        self.record_view()[choose|j: int|
            0 <= j < self.record_view().len() && self.record_view()[j].0 == vaddr].1
    }
}

/// Addresses of one mapped page translate together: an address in the same
/// page as a located one walks to the very same slot, and so queries the
/// same frame, offset apart.
pub proof fn lemma_locate_same_page(
    vs: Seq<Map<int, Seq<u64>>>,
    levels: int,
    rt: int,
    a: usize,
    b: usize,
)
    requires
        3 <= levels <= 4,
        vs.len() == levels,
        vs[0].dom().contains(rt),
        spec_locate(vs, levels, rt, b) is Ok,
        a as int / (spec_locate(vs, levels, rt, b)->Ok_0.3.spec_bytes() as int) == b as int / (
        spec_locate(vs, levels, rt, b)->Ok_0.3.spec_bytes() as int),
    ensures
        spec_locate(vs, levels, rt, a) == spec_locate(vs, levels, rt, b),
{
    let (k, t, i, sz) = spec_locate(vs, levels, rt, b)->Ok_0;
    lemma_locate_ok_layer(vs, levels, b, 0, rt);
    lemma_locate_props(vs, levels, b, 0, rt);
    assert(0 <= k < levels);
    assert(k < levels - 1 ==> (levels == 3 || k >= 1));
    let bytes = sz.spec_bytes() as int;
    assert(sz == size_at_layer(levels, k)) by {
        lemma_locate_size(vs, levels, b, 0, rt);
    }
    assert(levels - 1 - k == 0 || levels - 1 - k == 1 || levels - 1 - k == 2);
    assert(bytes == pow2(level_shift(levels, k)) as int) by {
        lemma2_to64();
    }
    assert forall|la: int| 0 <= la <= k implies spec_index_at(a, levels, la) == spec_index_at(
        b,
        levels,
        la,
    ) by {
        let sh = level_shift(levels, la);
        let shk = level_shift(levels, k);
        assert(sh >= shk);
        vstd::arithmetic::power2::lemma_pow2_adds(shk, (sh - shk) as nat);
        vstd::arithmetic::power2::lemma_pow2_pos(shk);
        vstd::arithmetic::power2::lemma_pow2_pos((sh - shk) as nat);
        vstd::arithmetic::div_mod::lemma_div_denominator(
            a as int,
            pow2(shk) as int,
            pow2((sh - shk) as nat) as int,
        );
        vstd::arithmetic::div_mod::lemma_div_denominator(
            b as int,
            pow2(shk) as int,
            pow2((sh - shk) as nat) as int,
        );
    }
    lemma_locate_same_indices(vs, levels, a, b, 0, rt, k);
}

/// A page can be mapped again right at the slot its unmapping cleared: the
/// creating walk of the same address finds the path complete and the slot
/// empty, which is exactly the case in which `map` promises success.
pub proof fn lemma_remap_after_unmap(
    vs: Seq<Map<int, Seq<u64>>>,
    levels: int,
    rt: int,
    vaddr: usize,
)
    requires
        3 <= levels <= 4,
        vs.len() == levels,
        views_sized(vs),
        vs[0].dom().contains(rt),
        spec_locate(vs, levels, rt, vaddr) is Ok,
    ensures
        ({
            let (k, t, i, sz) = spec_locate(vs, levels, rt, vaddr)->Ok_0;
            let vs1 = update_slot(vs, k, t, i, 0u64);
            spec_locate_at(vs1, levels, rt, vaddr, leaf_layer(levels, sz)) == Ok::<
                (int, int),
                PagingError,
            >((t, i)) && vs1[k][t][i] == 0u64
        }),
{
    let (k, t, i, sz) = spec_locate(vs, levels, rt, vaddr)->Ok_0;
    let vs1 = update_slot(vs, k, t, i, 0u64);
    lemma_locate_props(vs, levels, vaddr, 0, rt);
    lemma_locate_to_locate_at(vs, levels, vaddr, 0, rt);
    assert(k == leaf_layer(levels, sz));
    assert(vs[k].dom().contains(t));
    assert(vs1[k].dom() =~= vs[k].dom());
    assert forall|j: int| 0 < j <= k implies (#[trigger] vs1[j].dom()) == vs[j].dom() by {
        if j != k {
            assert(vs1[j] == vs[j]);
        }
    }
    lemma_locate_at_prefix(vs, vs1, levels, vaddr, k, 0, rt);
    assert(vs[k][t].len() == 512);
    assert(vs1[k][t][i] == 0u64);
}

/// A successful walk ends on a level no deeper than the last.
proof fn lemma_locate_ok_layer(vs: Seq<Map<int, Seq<u64>>>, levels: int, v: usize, layer: int, tbl: int)
    requires
        0 <= layer < levels,
        locate_rec(vs, levels, v, layer, tbl) is Ok,
    ensures
        layer <= locate_rec(vs, levels, v, layer, tbl)->Ok_0.0 < levels,
    decreases levels - layer,
{
    if layer >= levels - 1 {
    } else {
        let i = spec_index_at(v, levels, layer);
        let e = vs[layer][tbl][i];
        if (levels == 3 || layer >= 1) && e_huge(e) {
        } else {
            lemma_locate_ok_layer(vs, levels, v, layer + 1, e_paddr(e));
        }
    }
}

/// The size a successful walk reports is the one of the level it stops at.
proof fn lemma_locate_size(vs: Seq<Map<int, Seq<u64>>>, levels: int, v: usize, layer: int, tbl: int)
    requires
        0 <= layer < levels,
        locate_rec(vs, levels, v, layer, tbl) is Ok,
    ensures
        ({
            let (k, t, i, sz) = locate_rec(vs, levels, v, layer, tbl)->Ok_0;
            sz == size_at_layer(levels, k) && i == spec_index_at(v, levels, k)
        }),
    decreases levels - layer,
{
    if layer >= levels - 1 {
    } else {
        let i = spec_index_at(v, levels, layer);
        let e = vs[layer][tbl][i];
        if (levels == 3 || layer >= 1) && e_huge(e) {
        } else {
            lemma_locate_size(vs, levels, v, layer + 1, e_paddr(e));
        }
    }
}

/// Walks of two addresses that agree on every index down to the level the
/// first one stops at give the same answer.
proof fn lemma_locate_same_indices(
    vs: Seq<Map<int, Seq<u64>>>,
    levels: int,
    a: usize,
    b: usize,
    layer: int,
    tbl: int,
    k: int,
)
    requires
        0 <= layer < levels,
        locate_rec(vs, levels, b, layer, tbl) is Ok,
        locate_rec(vs, levels, b, layer, tbl)->Ok_0.0 == k,
        forall|la: int| 0 <= la <= k ==> spec_index_at(a, levels, la) == spec_index_at(b, levels, la),
    ensures
        locate_rec(vs, levels, a, layer, tbl) == locate_rec(vs, levels, b, layer, tbl),
    decreases levels - layer,
{
    lemma_locate_ok_layer(vs, levels, b, layer, tbl);
    let i = spec_index_at(b, levels, layer);
    if layer >= levels - 1 {
    } else {
        let e = vs[layer][tbl][i];
        if (levels == 3 || layer >= 1) && e_huge(e) {
        } else {
            lemma_locate_same_indices(vs, levels, a, b, layer + 1, e_paddr(e), k);
        }
    }
}

/// The chunks a region mapping produced, for the caller to walk: one
/// `(vaddr, paddr, size)` triple per installed leaf, in address order.
pub struct MapRegionIter {
    pub items: Vec<(usize, usize, PageSize)>,
    pub pos: usize,
}

impl MapRegionIter {
    /// The next chunk, if any.
    pub fn next(&mut self) -> (r: Option<(usize, usize, PageSize)>)
        ensures
            match r {
                Some(x) => old(self).pos < old(self).items@.len() && x == old(self).items@[old(
                    self,
                ).pos as int] && final (self).pos == old(self).pos + 1 && final (self).items@ == old(
                    self,
                ).items@,
                None => old(self).pos >= old(self).items@.len() && *final (self) == *old(self),
            },
    {
        if self.pos < self.items.len() {
            let x = self.items[self.pos];
            self.pos = self.pos + 1;
            Some(x)
        } else {
            None
        }
    }
}

impl PageTable64 {
    /// Maps the contiguous virtual region starting at `vaddr` to the
    /// physical region starting at `paddr`.  All three inputs must be 4 KiB
    /// aligned; with `allow_huge`, chunks whose addresses and remaining size
    /// admit a 1 GiB or 2 MiB page are mapped as single huge leaves.  A
    /// failing chunk stops the call and leaves the prior chunks installed.
    #[verifier::rlimit(100)]
    #[verifier::spinoff_prover]
    pub fn map_region<M: PageManager>(
        &mut self,
        vaddr: usize,
        paddr: usize,
        size: usize,
        flags: MappingFlags,
        allow_huge: bool,
        mgr: &mut M,
    ) -> (r: Result<(), PagingError>)
        requires
            old(self).wf(),
            old(mgr).inv(),
            flags.0 & 0x0a != 0,
            (paddr as int) + (size as int) < 0x100_0000_0000_0000,
            (vaddr as int) + (size as int) <= usize::MAX,
        ensures
            final (self).wf(),
            final (mgr).inv(),
            final (self).spec_levels() == old(self).spec_levels(),
            final (self).spec_root() == old(self).spec_root(),
            mem_grown(old(mgr).mem(), final (mgr).mem()),
            mappings_preserved(
                old(self).views(),
                final (self).views(),
                old(self).spec_levels(),
                old(self).spec_root(),
                old(self).record_view(),
            ),
            !(vaddr % 4096 == 0 && paddr % 4096 == 0 && size % 4096 == 0) <==> r == Err::<
                (),
                PagingError,
            >(PagingError::NotAligned),
            r == Err::<(), PagingError>(PagingError::NotAligned) ==> *final (self) == *old(self)
                && *final (mgr) == *old(mgr),
            (vaddr % 4096 == 0 && paddr % 4096 == 0 && size % 4096 == 0 && size == 0) ==> r is Ok,
            r is Ok ==> final (self).region_done(
                vaddr as int,
                (vaddr as int) + (size as int),
                Some(paddr as int),
                false,
                flags.0 & 0xff,
                region_uniform_size(allow_huge, vaddr as int, paddr as int, size as int),
            ),
    {
        if !(addr_aligned(vaddr, PageSize::Size4K) && addr_aligned(paddr, PageSize::Size4K)
            && addr_aligned(size, PageSize::Size4K)) {
            return Err(PagingError::NotAligned);
        }
        let ghost pre = *self;
        let ghost mgr0 = *mgr;
        let ghost usz = region_uniform_size(allow_huge, vaddr as int, paddr as int, size as int);
        let lv = self.levels;
        let mut va = vaddr;
        let mut pa = paddr;
        let mut left = size;
        while left > 0
            invariant
                pre == *old(self),
                mgr0 == *old(mgr),
                self.wf(),
                mgr.inv(),
                self.levels == pre.levels,
                self.root_paddr == pre.root_paddr,
                flags.0 & 0x0a != 0,
                views_sized(self.views()),
                mem_grown(mgr0.mem(), mgr.mem()),
                pre.record@.len() <= self.record@.len(),
                forall|j: int|
                    0 <= j < pre.record@.len() ==> #[trigger] self.record@[j] == pre.record@[j],
                mappings_preserved(
                    pre.views(),
                    self.views(),
                    pre.spec_levels(),
                    pre.spec_root(),
                    pre.record@,
                ),
                va as int == (vaddr as int) + ((size as int) - (left as int)),
                pa as int == (paddr as int) + ((size as int) - (left as int)),
                left <= size,
                va % 4096 == 0,
                pa % 4096 == 0,
                left % 4096 == 0,
                vaddr % 4096 == 0,
                paddr % 4096 == 0,
                size % 4096 == 0,
                (paddr as int) + (size as int) < 0x100_0000_0000_0000,
                (vaddr as int) + (size as int) <= usize::MAX,
                usz == region_uniform_size(allow_huge, vaddr as int, paddr as int, size as int),
                usz == Some(PageSize::Size1G) ==> va % 0x4000_0000 == 0 && pa % 0x4000_0000 == 0
                    && left % 0x4000_0000 == 0,
                self.region_done(
                    vaddr as int,
                    va as int,
                    Some(paddr as int),
                    false,
                    flags.0 & 0xff,
                    usz,
                ),
            decreases left,
        {
            let page_size = if allow_huge {
                if addr_aligned(va, PageSize::Size1G) && addr_aligned(pa, PageSize::Size1G) && left
                    >= 0x4000_0000 {
                    PageSize::Size1G
                } else if addr_aligned(va, PageSize::Size2M) && addr_aligned(pa, PageSize::Size2M)
                    && left >= 0x20_0000 {
                    PageSize::Size2M
                } else {
                    PageSize::Size4K
                }
            } else {
                PageSize::Size4K
            };
            proof {
                match usz {
                    Some(s) => {
                        if s == PageSize::Size1G {
                            assert(left >= 0x4000_0000) by (nonlinear_arith)
                                requires
                                    left % 0x4000_0000 == 0,
                                    left > 0,
                            ;
                            assert(page_size == PageSize::Size1G);
                        } else {
                            assert(!allow_huge);
                            assert(page_size == PageSize::Size4K);
                        }
                    },
                    None => {},
                }
            }
            let ghost it = *self;
            match self.map(va, pa, page_size, flags, mgr) {
                Ok(()) => {},
                Err(e) => {
                    proof {
                        assert(e != PagingError::NotAligned);
                        Self::lemma_chain_preserved(&pre, &it, &*self);
                    }
                    return Err(e);
                },
            }
            proof {
                Self::lemma_chain_preserved(&pre, &it, &*self);
                let lvs = pre.spec_levels();
                let rt = pre.spec_root();
                let cb = page_size.spec_bytes() as int;
                assert(va as int % cb == 0 && pa as int % cb == 0) by (nonlinear_arith)
                    requires
                        va % 4096 == 0,
                        pa % 4096 == 0,
                        cb == 4096 || cb == 0x20_0000 || cb == 0x4000_0000,
                        page_size == PageSize::Size1G ==> va % 0x4000_0000 == 0 && pa % 0x4000_0000
                            == 0,
                        page_size == PageSize::Size2M ==> va % 0x20_0000 == 0 && pa % 0x20_0000
                            == 0,
                        cb == page_size.spec_bytes() as int,
                ;
                // the chunk's own query: the aligned target is the target
                let q = spec_query(self.views(), lvs, rt, va);
                assert(pa as int - (pa as int % cb) == pa as int);
                assert(va as int % cb == 0);
                assert(q == Ok::<(int, usize, PageSize), PagingError>(
                    (pa as int, flags.0 & 0xff, page_size),
                ));
                lemma_region_step(
                    &it,
                    &*self,
                    vaddr as int,
                    va,
                    pa as int,
                    page_size,
                    Some(paddr as int),
                    false,
                    flags.0 & 0xff,
                    usz,
                );
            }
            let step = page_size.bytes();
            proof {
                assert(step <= left && (left - step) % 4096 == 0) by (nonlinear_arith)
                    requires
                        left % 4096 == 0,
                        step == 4096 || step == 0x20_0000 || step == 0x4000_0000,
                        step == 4096 || left >= step,
                        left >= 4096,
                ;
            }
            proof {
                if usz == Some(PageSize::Size1G) {
                    assert((va + step) % 0x4000_0000 == 0 && (pa + step) % 0x4000_0000 == 0 && (left
                        - step) % 0x4000_0000 == 0) by (nonlinear_arith)
                        requires
                            va % 0x4000_0000 == 0,
                            pa % 0x4000_0000 == 0,
                            left % 0x4000_0000 == 0,
                            step == 0x4000_0000,
                            va + step <= usize::MAX,
                            pa + step <= usize::MAX,
                            step <= left,
                    ;
                }
            }
            va = va + step;
            pa = pa + step;
            left = left - step;
        }
        Ok(())
    }

    /// Chained preservation of the recorded mappings across two steps.
    proof fn lemma_chain_preserved(pre: &PageTable64, mid: &PageTable64, post: &PageTable64)
        requires
            pre.spec_levels() == mid.spec_levels() == post.spec_levels(),
            pre.spec_root() == mid.spec_root() == post.spec_root(),
            pre.record@.len() <= mid.record@.len(),
            forall|j: int| 0 <= j < pre.record@.len() ==> #[trigger] mid.record@[j] == pre.record@[j],
            mappings_preserved(
                pre.views(),
                mid.views(),
                pre.spec_levels(),
                pre.spec_root(),
                pre.record@,
            ),
            mappings_preserved(
                mid.views(),
                post.views(),
                mid.spec_levels(),
                mid.spec_root(),
                mid.record@,
            ),
        ensures
            mappings_preserved(
                pre.views(),
                post.views(),
                pre.spec_levels(),
                pre.spec_root(),
                pre.record@,
            ),
    {
        let lv = pre.spec_levels();
        let rt = pre.spec_root();
        assert forall|j: int| 0 <= j < pre.record@.len() implies ({
            let v = (#[trigger] pre.record@[j]).0;
            spec_locate(post.views(), lv, rt, v) == spec_locate(pre.views(), lv, rt, v) && (
            spec_locate(pre.views(), lv, rt, v) is Ok ==> ({
                let (k, t, i, sz) = spec_locate(pre.views(), lv, rt, v)->Ok_0;
                post.views()[k][t][i] == pre.views()[k][t][i]
            }))
        }) by {
            let v = pre.record@[j].0;
            assert(mid.record@[j].0 == v);
        }
    }

}

impl PageTable64 {
    /// Maps a contiguous virtual region to library-allocated backing, chunk
    /// by chunk; with `lazy_alloc` each leaf is installed invalid and
    /// without frames, to be promoted on demand.  On success the installed
    /// chunks are handed back for the caller to walk.
    #[verifier::rlimit(100)]
    #[verifier::spinoff_prover]
    pub fn map_region_no_target<M: PageManager>(
        &mut self,
        vaddr: usize,
        size: usize,
        flags: MappingFlags,
        allow_huge: bool,
        lazy_alloc: bool,
        mgr: &mut M,
    ) -> (r: Result<MapRegionIter, PagingError>)
        requires
            old(self).wf(),
            old(mgr).inv(),
            flags.0 & 0x0a != 0,
            !lazy_alloc ==> flags.0 & 0x01 == 0x01,
            (vaddr as int) + (size as int) <= usize::MAX,
        ensures
            final (self).wf(),
            final (mgr).inv(),
            final (self).spec_levels() == old(self).spec_levels(),
            final (self).spec_root() == old(self).spec_root(),
            mem_grown(old(mgr).mem(), final (mgr).mem()),
            mappings_preserved(
                old(self).views(),
                final (self).views(),
                old(self).spec_levels(),
                old(self).spec_root(),
                old(self).record_view(),
            ),
            !(vaddr % 4096 == 0 && size % 4096 == 0) <==> r == Err::<
                MapRegionIter,
                PagingError,
            >(PagingError::NotAligned),
            r == Err::<MapRegionIter, PagingError>(PagingError::NotAligned) ==> *final (self)
                == *old(self) && *final (mgr) == *old(mgr),
            (vaddr % 4096 == 0 && size % 4096 == 0 && size == 0) ==> r is Ok,
            r is Ok ==> final (self).region_done(
                vaddr as int,
                (vaddr as int) + (size as int),
                None,
                lazy_alloc,
                (if lazy_alloc {
                    (flags.0 & !0x01) & 0xff
                } else {
                    flags.0 & 0xff
                }) as usize,
                region_uniform_size(allow_huge, vaddr as int, 0, size as int),
            ),
            r is Ok ==> r->Ok_0.pos == 0,
            r is Ok ==> (forall|ii: int|
                0 <= ii < r->Ok_0.items@.len() ==> vaddr <= (#[trigger] r->Ok_0.items@[ii]).0 && (
                r->Ok_0.items@[ii].0 as int) + r->Ok_0.items@[ii].2.spec_bytes() <= (vaddr as int)
                    + (size as int)),
    {
        if !(addr_aligned(vaddr, PageSize::Size4K) && addr_aligned(size, PageSize::Size4K)) {
            return Err(PagingError::NotAligned);
        }
        let ghost pre = *self;
        let ghost mgr0 = *mgr;
        let ghost usz = region_uniform_size(allow_huge, vaddr as int, 0, size as int);
        let ghost stored: usize = if lazy_alloc {
            ((flags.0 & !0x01) & 0xff) as usize
        } else {
            (flags.0 & 0xff) as usize
        };
        let mut items: Vec<(usize, usize, PageSize)> = Vec::new();
        let mut va = vaddr;
        let mut left = size;
        while left > 0
            invariant
                pre == *old(self),
                mgr0 == *old(mgr),
                self.wf(),
                mgr.inv(),
                self.levels == pre.levels,
                self.root_paddr == pre.root_paddr,
                flags.0 & 0x0a != 0,
                !lazy_alloc ==> flags.0 & 0x01 == 0x01,
                mem_grown(mgr0.mem(), mgr.mem()),
                pre.record@.len() <= self.record@.len(),
                forall|j: int|
                    0 <= j < pre.record@.len() ==> #[trigger] self.record@[j] == pre.record@[j],
                mappings_preserved(
                    pre.views(),
                    self.views(),
                    pre.spec_levels(),
                    pre.spec_root(),
                    pre.record@,
                ),
                va as int == (vaddr as int) + ((size as int) - (left as int)),
                left <= size,
                va % 4096 == 0,
                left % 4096 == 0,
                vaddr % 4096 == 0,
                size % 4096 == 0,
                (vaddr as int) + (size as int) <= usize::MAX,
                usz == region_uniform_size(allow_huge, vaddr as int, 0, size as int),
                usz == Some(PageSize::Size1G) ==> va % 0x4000_0000 == 0 && left % 0x4000_0000 == 0,
                stored == (if lazy_alloc {
                    ((flags.0 & !0x01) & 0xff) as usize
                } else {
                    (flags.0 & 0xff) as usize
                }),
                self.region_done(vaddr as int, va as int, None, lazy_alloc, stored, usz),
                forall|ii: int|
                    0 <= ii < items@.len() ==> vaddr <= (#[trigger] items@[ii]).0 && (
                    items@[ii].0 as int) + items@[ii].2.spec_bytes() <= (vaddr as int) + (
                    size as int),
            decreases left,
        {
            let page_size = if allow_huge {
                if addr_aligned(va, PageSize::Size1G) && left >= 0x4000_0000 {
                    PageSize::Size1G
                } else if addr_aligned(va, PageSize::Size2M) && left >= 0x20_0000 {
                    PageSize::Size2M
                } else {
                    PageSize::Size4K
                }
            } else {
                PageSize::Size4K
            };
            proof {
                match usz {
                    Some(sx) => {
                        if sx == PageSize::Size1G {
                            assert(left >= 0x4000_0000) by (nonlinear_arith)
                                requires
                                    left % 0x4000_0000 == 0,
                                    left > 0,
                            ;
                            assert(page_size == PageSize::Size1G);
                        } else {
                            assert(!allow_huge);
                            assert(page_size == PageSize::Size4K);
                        }
                    },
                    None => {},
                }
            }
            let ghost it = *self;
            let phy = match self.map_no_target(va, page_size, flags, lazy_alloc, mgr) {
                Ok(phy) => phy,
                Err(e) => {
                    proof {
                        assert(e != PagingError::NotAligned);
                        Self::lemma_chain_preserved(&pre, &it, &*self);
                    }
                    return Err(e);
                },
            };
            items.push((va, phy, page_size));
            proof {
                Self::lemma_chain_preserved(&pre, &it, &*self);
                let lvs = pre.spec_levels();
                let rt = pre.spec_root();
                let cb = page_size.spec_bytes() as int;
                assert(va as int % cb == 0) by (nonlinear_arith)
                    requires
                        va % 4096 == 0,
                        cb == 4096 || cb == 0x20_0000 || cb == 0x4000_0000,
                        page_size == PageSize::Size1G ==> va % 0x4000_0000 == 0,
                        page_size == PageSize::Size2M ==> va % 0x20_0000 == 0,
                        cb == page_size.spec_bytes() as int,
                ;
                let q = spec_query(self.views(), lvs, rt, va);
                assert(q == Ok::<(int, usize, PageSize), PagingError>(
                    (phy as int, stored, page_size),
                ));
                lemma_region_step(
                    &it,
                    &*self,
                    vaddr as int,
                    va,
                    phy as int,
                    page_size,
                    None,
                    lazy_alloc,
                    stored,
                    usz,
                );
            }
            let step = page_size.bytes();
            proof {
                assert(step <= left && (left - step) % 4096 == 0) by (nonlinear_arith)
                    requires
                        left % 4096 == 0,
                        step == 4096 || step == 0x20_0000 || step == 0x4000_0000,
                        step == 4096 || left >= step,
                        left >= 4096,
                ;
            }
            proof {
                if usz == Some(PageSize::Size1G) {
                    assert((va + step) % 0x4000_0000 == 0 && (left - step) % 0x4000_0000
                        == 0) by (nonlinear_arith)
                        requires
                            va % 0x4000_0000 == 0,
                            left % 0x4000_0000 == 0,
                            step == 0x4000_0000,
                            va + step <= usize::MAX,
                            step <= left,
                    ;
                }
            }
            va = va + step;
            left = left - step;
        }
        Ok(MapRegionIter { items, pos: 0 })
    }

    /// Unmaps a contiguous virtual region, page by page, at whatever page
    /// size each step finds installed.  Stops on the first page that is not
    /// mapped, leaving the later ones in place.
    #[verifier::rlimit(100)]
    #[verifier::spinoff_prover]
    pub fn unmap_region<M: PageManager>(&mut self, vaddr: usize, size: usize, mgr: &mut M) -> (r:
        Result<(), PagingError>)
        requires
            old(self).wf(),
            old(mgr).inv(),
            (vaddr as int) + (size as int) <= usize::MAX,
            forall|a: usize|
                vaddr <= a < (vaddr as int) + (size as int) ==> (match spec_locate(
                    old(self).views(),
                    old(self).spec_levels(),
                    old(self).spec_root(),
                    a,
                ) {
                    Ok((k, t, i, sz)) => old(self).views()[k][t][i] != 0u64 ==> #[trigger] old(
                    self).record_contains(a),
                    Err(e) => true,
                }),
        ensures
            final (self).wf(),
            final (mgr).inv(),
            final (self).spec_levels() == old(self).spec_levels(),
            final (self).spec_root() == old(self).spec_root(),
            forall|q: int|
                #[trigger] final (mgr).mem().dom().contains(q) ==> old(mgr).mem().dom().contains(q)
                    && final (mgr).mem()[q] == old(mgr).mem()[q],
            r is Ok ==> (forall|a: usize|
                vaddr <= a < (vaddr as int) + (size as int) ==> #[trigger] spec_query(
                    final (self).views(),
                    final (self).spec_levels(),
                    final (self).spec_root(),
                    a,
                ) == Err::<(int, usize, PageSize), PagingError>(PagingError::NotMapped)),
            r is Err ==> ({
                let e = r->Err_0;
                (e == PagingError::NotMapped || e == PagingError::MappedToHugePage) ==> (exists|
                    a: usize,
                |
                    vaddr <= a < (vaddr as int) + (size as int) && #[trigger] spec_query(
                        final (self).views(),
                        final (self).spec_levels(),
                        final (self).spec_root(),
                        a,
                    ) == Err::<(int, usize, PageSize), PagingError>(e))
            }),
    {
        let ghost pre = *self;
        let ghost mgr0 = *mgr;
        let mut va = vaddr;
        let mut left = size;
        while left > 0
            invariant
                pre == *old(self),
                mgr0 == *old(mgr),
                self.wf(),
                mgr.inv(),
                self.levels == pre.levels,
                self.root_paddr == pre.root_paddr,
                va as int == (vaddr as int) + ((size as int) - (left as int)),
                left <= size,
                (vaddr as int) + (size as int) <= usize::MAX,
                forall|q: int|
                    #[trigger] mgr.mem().dom().contains(q) ==> mgr0.mem().dom().contains(q)
                        && mgr.mem()[q] == mgr0.mem()[q],
                forall|a: usize|
                    vaddr <= a < va ==> #[trigger] spec_query(
                        self.views(),
                        self.spec_levels(),
                        self.spec_root(),
                        a,
                    ) == Err::<(int, usize, PageSize), PagingError>(PagingError::NotMapped),
                forall|a: usize|
                    va <= a < (vaddr as int) + (size as int) ==> (match spec_locate(
                        self.views(),
                        self.spec_levels(),
                        self.spec_root(),
                        a,
                    ) {
                        Ok((k, t, i, sz)) => self.views()[k][t][i] != 0u64
                            ==> #[trigger] self.record_contains(a),
                        Err(e) => true,
                    }),
            decreases left,
        {
            let ghost it = *self;
            let (pa, page_size) = match self.unmap(va, mgr) {
                Ok(x) => x,
                Err(e) => {
                    proof {
                        assert(vaddr <= va < (vaddr as int) + (size as int));
                        assert(spec_query(self.views(), self.spec_levels(), self.spec_root(), va)
                            == Err::<(int, usize, PageSize), PagingError>(e));
                    }
                    return Err(e);
                },
            };
            let step = page_size.bytes();
            if step > left || !addr_aligned(va, page_size) {
                // a page larger than the rest of the region, or one the
                // region cuts through: the caller did not build this region
                // with the bulk mapper
                return Err(PagingError::NotAligned);
            }
            proof {
                let lv = it.spec_levels();
                let rt = it.spec_root();
                let vs0 = it.views();
                let vs1 = self.views();
                let (k, t, i, sz) = spec_locate(vs0, lv, rt, va)->Ok_0;
                it.lemma_layers_distinct();
                assert(tf_contains(it.layers@[0]@, it.root_paddr as int));
                lemma_locate_props(vs0, lv, va, 0, rt);
                let e_old = vs0[k][t][i];
                assert(vs1 == update_slot(vs0, k, t, i, 0u64));
                // pages already cleared stay unmapped: the zeroing can only
                // take mappings away
                assert forall|a: usize| vaddr <= a < va implies #[trigger] spec_query(
                    vs1,
                    lv,
                    rt,
                    a,
                ) == Err::<(int, usize, PageSize), PagingError>(PagingError::NotMapped) by {
                    assert(spec_query(vs0, lv, rt, a) == Err::<
                        (int, usize, PageSize),
                        PagingError,
                    >(PagingError::NotMapped));
                    lemma_locate_clear(vs0, lv, a, 0, rt, k, t, i);
                    if spec_locate(vs1, lv, rt, a) is Ok {
                        let s1 = spec_locate(vs1, lv, rt, a)->Ok_0;
                        lemma_e_bits(vs1[s1.0][s1.1][s1.2]);
                    }
                }
                // the page just unmapped queries NotMapped
                assert(spec_query(vs1, lv, rt, va) == Err::<
                    (int, usize, PageSize),
                    PagingError,
                >(PagingError::NotMapped));
                // addresses of the same chunk beyond the base: their walk
                // reaches the cleared slot too
                assert forall|a: usize| (va as int) < a < (va as int) + (step as int) implies #[trigger] spec_query(
                    vs1,
                    lv,
                    rt,
                    a,
                ) == Err::<(int, usize, PageSize), PagingError>(PagingError::NotMapped) by {
                    let csb = sz.spec_bytes() as int;
                    assert(step == csb);
                    assert(a as int / csb == va as int / csb) by (nonlinear_arith)
                        requires
                            va as int % csb == 0,
                            (va as int) <= (a as int) < (va as int) + csb,
                            csb >= 4096,
                    ;
                    lemma_locate_same_page(vs0, lv, rt, a, va);
                    assert(spec_locate(vs0, lv, rt, a) == Ok::<
                        (int, int, int, PageSize),
                        PagingError,
                    >((k, t, i, sz)));
                    lemma_locate_clear(vs0, lv, a, 0, rt, k, t, i);
                    if spec_locate(vs1, lv, rt, a) is Ok {
                        assert(spec_locate(vs1, lv, rt, a) == spec_locate(vs0, lv, rt, a));
                        assert(vs1[k][t][i] == 0u64);
                        lemma_e_bits(0u64);
                    }
                }
                assert forall|a: usize|
                    va + step <= a < (vaddr as int) + (size as int) implies (match spec_locate(
                    vs1,
                    lv,
                    rt,
                    a,
                ) {
                    Ok((k2, t2, i2, sz2)) => vs1[k2][t2][i2] != 0u64
                        ==> #[trigger] self.record_contains(a),
                    Err(e2) => true,
                }) by {
                    if spec_locate(vs1, lv, rt, a) is Ok {
                        let (k2, t2, i2, sz2) = spec_locate(vs1, lv, rt, a)->Ok_0;
                        if vs1[k2][t2][i2] != 0u64 {
                            assert((k2, t2, i2) != (k, t, i));
                            assert(vs0[k][t].update(i, 0u64).update(i, e_old) =~= vs0[k][t]);
                            assert(vs1[k][t] == vs0[k][t].update(i, 0u64));
                            assert(update_slot(vs1, k, t, i, e_old)[k] == vs1[k].insert(
                                t,
                                vs1[k][t].update(i, e_old),
                            ));
                            assert(vs1[k].insert(t, vs1[k][t].update(i, e_old)) =~= vs0[k]);
                            assert(update_slot(vs1, k, t, i, e_old) =~= vs0);
                            lemma_locate_update(vs1, lv, a, 0, rt, k, t, i, e_old);
                            assert(spec_locate(vs0, lv, rt, a) == spec_locate(vs1, lv, rt, a));
                            assert(vs0[k2][t2][i2] == vs1[k2][t2][i2]);
                            assert(it.record_contains(a));
                            assert(a != va);
                            assert(self.record_contains(a));
                        }
                    }
                }
            }
            va = va + step;
            left = left - step;
        }
        Ok(())
    }
}

impl PageTable64 {
    /// A frame this walker would return on release: one of its table frames.
    pub open spec fn table_frame_at(&self, q: int) -> bool {
        exists|k: int| 0 <= k < self.views().len() && (#[trigger] self.views()[k]).dom().contains(q * 4096)
    }

    /// A frame this walker would return on release: part of the backing of a
    /// library-owned, valid leaf.
    pub open spec fn leaf_backing_at(&self, q: int) -> bool {
        exists|j: int|
            {
                &&& 0 <= j < self.record_view().len()
                &&& (#[trigger] self.record_view()[j]).1
                &&& match spec_locate(
                    self.views(),
                    self.spec_levels(),
                    self.spec_root(),
                    self.record_view()[j].0,
                ) {
                    Ok((k, t, i, sz)) => {
                        let e = self.views()[k][t][i];
                        e_present(e) && e_paddr(e) / 4096 <= q < e_paddr(e) / 4096
                            + sz.spec_bytes() as int / 4096
                    },
                    Err(er) => false,
                }
            }
    }

    /// Returns every frame the walker owns to the allocator: the backing of
    /// every library-owned valid leaf, and every table frame, root included.
    /// The walker is consumed; nothing else is ever freed.
    pub fn release<M: PageManager>(self, mgr: &mut M)
        requires
            self.wf(),
            old(mgr).inv(),
        ensures
            final (mgr).inv(),
            forall|q: int|
                #[trigger] final (mgr).mem().dom().contains(q) <==> (old(mgr).mem().dom().contains(
                    q,
                ) && !self.table_frame_at(q) && !self.leaf_backing_at(q)),
            forall|q: int|
                final (mgr).mem().dom().contains(q) ==> #[trigger] final (mgr).mem()[q] == old(
                    mgr,
                ).mem()[q],
    {
        let ghost pre = self;
        let ghost mem0 = mgr.mem();
        let lv = self.levels;
        let mut j: usize = 0;
        while j < self.record.len()
            invariant
                self == pre,
                mem0 == old(mgr).mem(),
                pre.wf(),
                mgr.inv(),
                j <= pre.record@.len(),
                forall|q: int|
                    #[trigger] mgr.mem().dom().contains(q) <==> (mem0.dom().contains(q)
                        && !leaf_backing_upto(&pre, j as int, q)),
                forall|q: int|
                    mgr.mem().dom().contains(q) ==> #[trigger] mgr.mem()[q] == mem0[q],
            decreases pre.record@.len() - j,
        {
            let (v, owned) = self.record[j];
            if owned {
                let (k, vi, i, sz) = match self.locate(v) {
                    Ok(x) => x,
                    Err(e) => {
                        proof {
                            assert(pre.record_entry_ok(j as int));
                            assert(false);
                        }
                        return ;
                    },
                };
                let e = self.entry_at(k, vi, i);
                let pte = Rv64PTE(e);
                if pte.is_present() {
                    proof {
                        lemma_entry_paddr(e);
                    }
                    let pa = pte.paddr();
                    let n = sz.frames();
                    let base = pa / 4096;
                    let ghost memj = mgr.mem();
                    let mut x: usize = 0;
                    while x < n
                        invariant
                            x <= n,
                            base == pa as int / 4096,
                            base + n <= usize::MAX as int,
                            mgr.inv(),
                            forall|q: int|
                                #[trigger] mgr.mem().dom().contains(q) <==> (memj.dom().contains(q)
                                    && !(base <= q < base + x)),
                            forall|q: int|
                                mgr.mem().dom().contains(q) ==> #[trigger] mgr.mem()[q] == memj[q],
                        decreases n - x,
                    {
                        let ghost memx = mgr.mem();
                        mgr.dealloc_frame(PageNumber(base + x));
                        proof {
                            assert(mgr.mem() == memx.remove((base + x) as int));
                        }
                        x = x + 1;
                    }
                    proof {
                        lemma_release_entry_step(&pre, j as int, base as int, n as int, mem0, memj, mgr.mem());
                    }
                } else {
                    proof {
                        lemma_release_entry_skip(&pre, j as int);
                    }
                }
            } else {
                proof {
                    lemma_release_entry_skip(&pre, j as int);
                }
            }
            j = j + 1;
        }
        proof {
            assert forall|q: int| leaf_backing_upto(&pre, pre.record@.len() as int, q) implies pre.leaf_backing_at(
                q,
            ) by {}
            assert forall|q: int| pre.leaf_backing_at(q) implies leaf_backing_upto(
                &pre,
                pre.record@.len() as int,
                q,
            ) by {}
        }
        let ghost mem1 = mgr.mem();
        let mut k: usize = 0;
        while k < lv
            invariant
                self == pre,
                pre.wf(),
                mgr.inv(),
                lv == pre.levels,
                k <= pre.layers@.len(),
                forall|q: int|
                    #[trigger] mgr.mem().dom().contains(q) <==> (mem1.dom().contains(q)
                        && !table_frame_upto(&pre, k as int, 0, q)),
                forall|q: int|
                    mgr.mem().dom().contains(q) ==> #[trigger] mgr.mem()[q] == mem1[q],
            decreases pre.layers@.len() - k,
        {
            proof {
                assert forall|q: int| table_frame_upto(&pre, k as int, 0, q) <==> table_frame_upto(
                    &pre,
                    k as int,
                    0,
                    q,
                ) by {}
            }
            let mut a: usize = 0;
            while a < self.layers[k].len()
                invariant
                    self == pre,
                    pre.wf(),
                    mgr.inv(),
                    lv == pre.levels,
                    k < pre.layers@.len(),
                    a <= pre.layers@[k as int]@.len(),
                    forall|q: int|
                        #[trigger] mgr.mem().dom().contains(q) <==> (mem1.dom().contains(q)
                            && !table_frame_upto(&pre, k as int, a as int, q)),
                    forall|q: int|
                        mgr.mem().dom().contains(q) ==> #[trigger] mgr.mem()[q] == mem1[q],
                decreases pre.layers@[k as int]@.len() - a,
            {
                let paddr = self.layers[k][a].paddr;
                let ghost memx = mgr.mem();
                mgr.dealloc_frame(PageNumber(paddr / 4096));
                proof {
                    assert(mgr.mem() == memx.remove((paddr / 4096) as int));
                    lemma_table_upto_step(&pre, k as int, a as int);
                    assert(paddr == pre.layer_paddr(k as int, a as int));
                    assert forall|q: int| #[trigger]
                        mgr.mem().dom().contains(q) <==> (mem1.dom().contains(q)
                            && !table_frame_upto(&pre, k as int, a as int + 1, q)) by {
                        assert(mgr.mem().dom().contains(q) <==> (memx.dom().contains(q) && q
                            != paddr as int / 4096));
                        assert(table_frame_upto(&pre, k as int, a as int + 1, q) <==> (
                        table_frame_upto(&pre, k as int, a as int, q) || q == pre.layer_paddr(
                            k as int,
                            a as int,
                        ) / 4096));
                    }
                }
                a = a + 1;
            }
            proof {
                lemma_table_upto_layer(&pre, k as int);
            }
            k = k + 1;
        }
        proof {
            pre.lemma_layers_distinct();
            assert forall|q: int| table_frame_upto(
                &pre,
                pre.layers@.len() as int,
                0,
                q,
            ) <==> pre.table_frame_at(q) by {
                if pre.table_frame_at(q) {
                    let kk = choose|kk: int|
                        0 <= kk < pre.views().len() && (#[trigger] pre.views()[kk]).dom().contains(
                            q * 4096,
                        );
                    assert(tf_contains(pre.layers@[kk]@, q * 4096));
                    let aa = tf_index(pre.layers@[kk]@, q * 4096);
                    assert(0 <= aa < pre.layers@[kk]@.len() && pre.layers@[kk]@[aa].paddr == q
                        * 4096);
                    assert(pre.layer_frame_paddr(kk, aa, q));
                    assert(table_frame_upto(&pre, pre.layers@.len() as int, 0, q));
                }
                if table_frame_upto(&pre, pre.layers@.len() as int, 0, q) {
                    let (k2, a2) = choose|k2: int, a2: int|
                        {
                            &&& 0 <= k2 < pre.spec_levels()
                            &&& 0 <= a2
                            &&& (k2 < pre.layers@.len() as int || (k2 == pre.layers@.len() as int
                                && a2 < 0))
                            &&& pre.layer_frame_paddr(k2, a2, q)
                        };
                    lemma_tf_at(pre.layers@[k2]@, a2);
                    assert(pre.views()[k2].dom().contains(q * 4096));
                }
            }
        }
    }
}

/// The backing frames freed by the record entries before `j`.
pub open spec fn leaf_backing_upto(pt: &PageTable64, j: int, q: int) -> bool {
    exists|j2: int|
        {
            &&& 0 <= j2 < j && j2 < pt.record_view().len()
            &&& (#[trigger] pt.record_view()[j2]).1
            &&& match spec_locate(pt.views(), pt.spec_levels(), pt.spec_root(), pt.record_view()[j2].0) {
                Ok((k, t, i, sz)) => {
                    let e = pt.views()[k][t][i];
                    e_present(e) && e_paddr(e) / 4096 <= q < e_paddr(e) / 4096 + sz.spec_bytes() as int
                        / 4096
                },
                Err(er) => false,
            }
        }
}

/// The table frames freed by layers before `k`, plus the first `a` frames of
/// layer `k`.
pub open spec fn table_frame_upto(pt: &PageTable64, k: int, a: int, q: int) -> bool {
    exists|k2: int, a2: int|
        {
            &&& 0 <= k2 < pt.spec_levels()
            &&& 0 <= a2
            &&& (k2 < k || (k2 == k && a2 < a))
            &&& pt.layer_frame_paddr(k2, a2, q)
        }
}

impl PageTable64 {
    /// Frame `a` of layer `k` is the one numbered `q`.
    pub closed spec fn layer_frame_paddr(&self, k: int, a: int, q: int) -> bool {
        0 <= k < self.layers@.len() && 0 <= a < self.layers@[k]@.len() && self.layers@[k]@[a].paddr
            == q * 4096
    }
}

proof fn lemma_release_entry_step(
    pt: &PageTable64,
    j: int,
    base: int,
    n: int,
    mem0: Map<int, Seq<u8>>,
    memj: Map<int, Seq<u8>>,
    memx: Map<int, Seq<u8>>,
)
    requires
        pt.wf(),
        0 <= j < pt.record_view().len(),
        pt.record_view()[j].1,
        spec_locate(pt.views(), pt.spec_levels(), pt.spec_root(), pt.record_view()[j].0) is Ok,
        ({
            let (k, t, i, sz) = spec_locate(
                pt.views(),
                pt.spec_levels(),
                pt.spec_root(),
                pt.record_view()[j].0,
            )->Ok_0;
            let e = pt.views()[k][t][i];
            e_present(e) && base == e_paddr(e) / 4096 && n == sz.spec_bytes() as int / 4096
        }),
        forall|q: int|
            #[trigger] memj.dom().contains(q) <==> (mem0.dom().contains(q) && !leaf_backing_upto(
                pt,
                j,
                q,
            )),
        forall|q: int| #[trigger] memx.dom().contains(q) <==> (memj.dom().contains(q) && !(base <= q < base + n)),
    ensures
        forall|q: int|
            #[trigger] memx.dom().contains(q) <==> (mem0.dom().contains(q) && !leaf_backing_upto(
                pt,
                j + 1,
                q,
            )),
{
    assert forall|q: int| #[trigger]
        memx.dom().contains(q) <==> (mem0.dom().contains(q) && !leaf_backing_upto(pt, j + 1, q)) by {
        if leaf_backing_upto(pt, j + 1, q) {
            let j2 = choose|j2: int|
                {
                    &&& 0 <= j2 < j + 1 && j2 < pt.record_view().len()
                    &&& (#[trigger] pt.record_view()[j2]).1
                    &&& match spec_locate(
                        pt.views(),
                        pt.spec_levels(),
                        pt.spec_root(),
                        pt.record_view()[j2].0,
                    ) {
                        Ok((k, t, i, sz)) => {
                            let e = pt.views()[k][t][i];
                            e_present(e) && e_paddr(e) / 4096 <= q < e_paddr(e) / 4096
                                + sz.spec_bytes() as int / 4096
                        },
                        Err(er) => false,
                    }
                };
            if j2 < j {
                assert(leaf_backing_upto(pt, j, q));
            } else {
                assert(base <= q < base + n);
            }
        }
        if memj.dom().contains(q) && !(base <= q < base + n) {
        }
        if !memx.dom().contains(q) && mem0.dom().contains(q) {
            if !memj.dom().contains(q) {
                assert(leaf_backing_upto(pt, j, q));
                assert(leaf_backing_upto(pt, j + 1, q));
            } else {
                assert(base <= q < base + n);
                assert(leaf_backing_upto(pt, j + 1, q));
            }
        }
    }
}

proof fn lemma_release_entry_skip(pt: &PageTable64, j: int)
    requires
        pt.wf(),
        0 <= j < pt.record_view().len(),
        !(pt.record_view()[j].1 && ({
            let (k, t, i, sz) = spec_locate(
                pt.views(),
                pt.spec_levels(),
                pt.spec_root(),
                pt.record_view()[j].0,
            )->Ok_0;
            e_present(pt.views()[k][t][i])
        })),
    ensures
        forall|q: int| leaf_backing_upto(pt, j + 1, q) <==> leaf_backing_upto(pt, j, q),
{
    assert forall|q: int| leaf_backing_upto(pt, j + 1, q) implies leaf_backing_upto(pt, j, q) by {
        let j2 = choose|j2: int|
            {
                &&& 0 <= j2 < j + 1 && j2 < pt.record_view().len()
                &&& (#[trigger] pt.record_view()[j2]).1
                &&& match spec_locate(
                    pt.views(),
                    pt.spec_levels(),
                    pt.spec_root(),
                    pt.record_view()[j2].0,
                ) {
                    Ok((k, t, i, sz)) => {
                        let e = pt.views()[k][t][i];
                        e_present(e) && e_paddr(e) / 4096 <= q < e_paddr(e) / 4096
                            + sz.spec_bytes() as int / 4096
                    },
                    Err(er) => false,
                }
            };
        assert(j2 != j);
    }
    assert forall|q: int| leaf_backing_upto(pt, j, q) implies leaf_backing_upto(pt, j + 1, q) by {}
}

proof fn lemma_table_upto_step(pt: &PageTable64, k: int, a: int)
    requires
        pt.wf(),
        0 <= k < pt.spec_levels(),
        0 <= a < pt.layer_len(k),
    ensures
        forall|q: int|
            table_frame_upto(pt, k, a + 1, q) <==> (table_frame_upto(pt, k, a, q) || q
                == pt.layer_paddr(k, a) / 4096),
{
    assert forall|q: int|
        table_frame_upto(pt, k, a + 1, q) implies (table_frame_upto(pt, k, a, q) || q
        == pt.layer_paddr(k, a) / 4096) by {
        let (k2, a2) = choose|k2: int, a2: int|
            {
                &&& 0 <= k2 < pt.spec_levels()
                &&& 0 <= a2
                &&& (k2 < k || (k2 == k && a2 < a + 1))
                &&& pt.layer_frame_paddr(k2, a2, q)
            };
        if k2 == k && a2 == a {
            pt.lemma_paddr_div(k, a);
        } else {
            assert(table_frame_upto(pt, k, a, q));
        }
    }
    assert forall|q: int|
        (table_frame_upto(pt, k, a, q) || q == pt.layer_paddr(k, a) / 4096) implies table_frame_upto(
        pt,
        k,
        a + 1,
        q,
    ) by {
        if q == pt.layer_paddr(k, a) / 4096 {
            pt.lemma_paddr_div(k, a);
            assert(pt.layer_frame_paddr(k, a, q));
        }
    }
}

proof fn lemma_table_upto_layer(pt: &PageTable64, k: int)
    requires
        pt.wf(),
        0 <= k < pt.spec_levels(),
    ensures
        forall|q: int| table_frame_upto(pt, k, pt.layer_len(k), q) <==> table_frame_upto(pt, k + 1, 0, q),
{
    assert forall|q: int| table_frame_upto(pt, k, pt.layer_len(k), q) implies table_frame_upto(
        pt,
        k + 1,
        0,
        q,
    ) by {}
    assert forall|q: int| table_frame_upto(pt, k + 1, 0, q) implies table_frame_upto(
        pt,
        k,
        pt.layer_len(k),
        q,
    ) by {
        let (k2, a2) = choose|k2: int, a2: int|
            {
                &&& 0 <= k2 < pt.spec_levels()
                &&& 0 <= a2
                &&& (k2 < k + 1 || (k2 == k + 1 && a2 < 0))
                &&& pt.layer_frame_paddr(k2, a2, q)
            };
        assert(k2 <= k);
    }
}

impl PageTable64 {
    pub closed spec fn layer_len(&self, k: int) -> int {
        self.layers@[k]@.len() as int
    }

    pub closed spec fn layer_paddr(&self, k: int, a: int) -> int {
        self.layers@[k]@[a].paddr as int
    }

    proof fn lemma_paddr_div(&self, k: int, a: int)
        requires
            self.wf(),
            0 <= k < self.spec_levels(),
            0 <= a < self.layer_len(k),
        ensures
            self.layer_paddr(k, a) == (self.layer_paddr(k, a) / 4096) * 4096,
            self.layer_frame_paddr(k, a, self.layer_paddr(k, a) / 4096),
    {
        let p = self.layer_paddr(k, a);
        assert(p % 4096 == 0);
        vstd::arithmetic::div_mod::lemma_fundamental_div_mod(p, 4096);
    }
}

impl PageTable64 {
    /// Walks the table pre-order, calling `func` on every present entry with
    /// its level, its index, the virtual address it maps, and the entry.
    /// Per-table enumeration stops after `limit` present entries.
    pub fn walk<F: Fn(usize, usize, usize, &Rv64PTE)>(&self, limit: usize, func: &F) -> (r: Result<
        (),
        PagingError,
    >)
        requires
            self.wf(),
            forall|a: usize, b: usize, c: usize, e: Rv64PTE| func.requires((a, b, c, &e)),
        ensures
            r is Ok,
    {
        proof {
            assert(tf_contains(self.layers@[0]@, self.root_paddr as int));
            lemma2_to64();
            lemma2_to64_rest();
            assert(level_shift(self.spec_levels(), 0) == 30 || level_shift(self.spec_levels(), 0)
                == 39);
        }
        self.walk_recursive(0, 0, 0, limit, func)
    }

    fn walk_recursive<F: Fn(usize, usize, usize, &Rv64PTE)>(
        &self,
        k: usize,
        vi: usize,
        start_vaddr: usize,
        limit: usize,
        func: &F,
    ) -> (r: Result<(), PagingError>)
        requires
            self.wf(),
            k < self.layers@.len(),
            vi < self.layers@[k as int]@.len(),
            (start_vaddr as int) + 512 * pow2(level_shift(self.spec_levels(), k as int))
                <= 0x1_0000_0000_0000,
            forall|a: usize, b: usize, c: usize, e: Rv64PTE| func.requires((a, b, c, &e)),
        ensures
            r is Ok,
        decreases self.layers@.len() - k,
    {
        let levels = self.levels;
        let sh: usize = 12 + 9 * (levels - 1 - k);
        proof {
            lemma2_to64();
            lemma2_to64_rest();
            assert(usize::BITS == 64);
        }
        let mut n: usize = 0;
        let mut i: usize = 0;
        while i < 512
            invariant
                self.wf(),
                k < self.layers@.len(),
                vi < self.layers@[k as int]@.len(),
                levels == self.levels,
                sh == level_shift(self.spec_levels(), k as int),
                pow2(level_shift(self.spec_levels(), k as int)) < 0x1_0000_0000_0000,
                (start_vaddr as int) + 512 * pow2(level_shift(self.spec_levels(), k as int))
                    <= 0x1_0000_0000_0000,
                i <= 512,
                n <= i,
                forall|a: usize, b: usize, c: usize, e: Rv64PTE| func.requires((a, b, c, &e)),
            decreases 512 - i,
        {
            let e = self.entry_at(k, vi, i);
            let pte = Rv64PTE(e);
            proof {
                lemma2_to64();
                lemma2_to64_rest();
                assert(usize::BITS == 64);
                assert(i * pow2(sh as nat) <= 511 * pow2(sh as nat)) by (nonlinear_arith)
                    requires
                        i <= 511,
                        pow2(sh as nat) >= 1,
                ;
                vstd::bits::lemma_usize_shl_is_mul(i, sh);
            }
            let vaddr = start_vaddr + (i << sh);
            if pte.is_present() {
                func(k, i, vaddr, &pte);
                if k + 1 < levels && !pte.is_huge() {
                    let child = pte.paddr();
                    match self.find_frame(k + 1, child) {
                        Some(vj) => {
                            proof {
                                assert(pow2(level_shift(self.spec_levels(), k as int + 1)) * 512
                                    == pow2(level_shift(self.spec_levels(), k as int))) by {
                                    vstd::arithmetic::power2::lemma_pow2_adds(
                                        level_shift(self.spec_levels(), k as int + 1),
                                        9,
                                    );
                                    lemma2_to64();
                                }
                                assert((vaddr as int) + 512 * pow2(
                                    level_shift(self.spec_levels(), k as int + 1),
                                ) <= 0x1_0000_0000_0000) by (nonlinear_arith)
                                    requires
                                        vaddr as int == start_vaddr + i * pow2(
                                            level_shift(self.spec_levels(), k as int),
                                        ),
                                        512 * pow2(level_shift(self.spec_levels(), k as int + 1))
                                            == pow2(level_shift(self.spec_levels(), k as int)),
                                        i <= 511,
                                        (start_vaddr as int) + 512 * pow2(
                                            level_shift(self.spec_levels(), k as int),
                                        ) <= 0x1_0000_0000_0000,
                                        pow2(level_shift(self.spec_levels(), k as int)) >= 1,
                                ;
                            }
                            match self.walk_recursive(k + 1, vj, vaddr, limit, func) {
                                Ok(()) => {},
                                Err(er) => {
                                    return Err(er);
                                },
                            }
                        },
                        None => {
                            // a pointer outside the arena has no subtree to
                            // visit; the entry itself was already reported
                        },
                    }
                }
                n = n + 1;
                if n >= limit {
                    return Ok(());
                }
            }
            i = i + 1;
        }
        Ok(())
    }
}

impl PageTable64 {
    /// Page `a` of a mapped region: it queries successfully with the
    /// region's flags; with a contiguous target its physical address is the
    /// matching offset into it; for a lazy region the stored address is
    /// zero; with a fixed chunk size the leaf has that size.  The chunk base
    /// the page belongs to is recorded, and the page walks to the base's
    /// slot.
    pub open spec fn region_page_ok(
        &self,
        a: usize,
        vaddr0: int,
        target: Option<int>,
        zero_target: bool,
        flbits: usize,
        usz: Option<PageSize>,
    ) -> bool {
        let q = spec_query(self.views(), self.spec_levels(), self.spec_root(), a);
        let bytes = q->Ok_0.2.spec_bytes() as int;
        let base = ((a as int - (a as int % bytes)) as usize);
        &&& q is Ok
        &&& q->Ok_0.1 == flbits
        &&& (match target {
            Some(p0) => q->Ok_0.0 == p0 + (a as int - vaddr0),
            None => true,
        })
        &&& (zero_target ==> q->Ok_0.0 == a as int % bytes)
        &&& (match usz {
            Some(s) => q->Ok_0.2 == s,
            None => true,
        })
        &&& self.record_contains(base)
        &&& spec_locate(self.views(), self.spec_levels(), self.spec_root(), a) == spec_locate(
            self.views(),
            self.spec_levels(),
            self.spec_root(),
            base,
        )
    }

    /// Every page of `[vaddr0, upto)` is mapped as `region_page_ok` says.
    pub open spec fn region_done(
        &self,
        vaddr0: int,
        upto: int,
        target: Option<int>,
        zero_target: bool,
        flbits: usize,
        usz: Option<PageSize>,
    ) -> bool {
        forall|a: usize|
            vaddr0 <= a < upto ==> #[trigger] self.region_page_ok(
                a,
                vaddr0,
                target,
                zero_target,
                flbits,
                usz,
            )
    }
}

/// The page size every chunk of a region gets, where the inputs force one:
/// 4 KiB without `allow_huge`, a single size of 1 GiB when all three inputs
/// are 1 GiB multiples.
pub open spec fn region_uniform_size(allow_huge: bool, vaddr: int, paddr: int, size: int) -> Option<
    PageSize,
> {
    if !allow_huge {
        Some(PageSize::Size4K)
    } else if vaddr % 0x4000_0000 == 0 && paddr % 0x4000_0000 == 0 && size % 0x4000_0000 == 0 {
        Some(PageSize::Size1G)
    } else {
        None
    }
}

/// One more chunk of a region is mapped: the pages of the fresh chunk
/// satisfy the region statement through the same-page lemma, and the pages
/// of the earlier chunks keep theirs because their recorded chunk bases are
/// preserved.
proof fn lemma_region_step(
    it: &PageTable64,
    cur: &PageTable64,
    vaddr0: int,
    va: usize,
    chunk_pa: int,
    cs: PageSize,
    target: Option<int>,
    zero_target: bool,
    flbits: usize,
    usz: Option<PageSize>,
)
    requires
        it.wf(),
        cur.wf(),
        cur.spec_levels() == it.spec_levels(),
        cur.spec_root() == it.spec_root(),
        vaddr0 <= va,
        (va as int) + cs.spec_bytes() <= usize::MAX,
        va as int % cs.spec_bytes() as int == 0,
        it.region_done(vaddr0, va as int, target, zero_target, flbits, usz),
        cur.record_view() == it.record_view().push((va, true)) || cur.record_view()
            == it.record_view().push((va, false)),
        mappings_preserved(
            it.views(),
            cur.views(),
            it.spec_levels(),
            it.spec_root(),
            it.record_view(),
        ),
        spec_query(cur.views(), cur.spec_levels(), cur.spec_root(), va) == Ok::<
            (int, usize, PageSize),
            PagingError,
        >((chunk_pa, flbits, cs)),
        match target {
            Some(p0) => chunk_pa == p0 + (va as int - vaddr0),
            None => true,
        },
        zero_target ==> chunk_pa == 0,
        match usz {
            Some(s) => cs == s,
            None => true,
        },
    ensures
        cur.region_done(vaddr0, va as int + cs.spec_bytes(), target, zero_target, flbits, usz),
{
    let lv = it.spec_levels();
    let rt = it.spec_root();
    let csb = cs.spec_bytes() as int;
    cur.lemma_wf_shape();
    assert forall|a: usize|
        vaddr0 <= a < va as int + csb implies #[trigger] cur.region_page_ok(
        a,
        vaddr0,
        target,
        zero_target,
        flbits,
        usz,
    ) by {
        if a < va {
            // a page of an earlier chunk: its recorded base keeps its slot
            assert(it.region_page_ok(a, vaddr0, target, zero_target, flbits, usz));
            let q0 = spec_query(it.views(), lv, rt, a);
            let bytes = q0->Ok_0.2.spec_bytes() as int;
            let base = ((a as int - (a as int % bytes)) as usize);
            assert(bytes >= 4096) by {
                let sz0 = q0->Ok_0.2;
                assert(sz0.spec_bytes() >= 4096);
            }
            assert(0 <= a as int % bytes < bytes && a as int % bytes <= a as int) by (nonlinear_arith)
                requires
                    bytes >= 4096,
                    a >= 0,
            ;
            assert(0 <= a as int - (a as int % bytes) <= a as int);
            assert(base as int == a as int - (a as int % bytes));
            let j = choose|j: int|
                0 <= j < it.record_view().len() && (#[trigger] it.record_view()[j]).0 == base;
            assert(it.record_view()[j].0 == base);
            assert(spec_locate(cur.views(), lv, rt, base) == spec_locate(it.views(), lv, rt, base));
            assert(spec_locate(it.views(), lv, rt, base) == spec_locate(it.views(), lv, rt, a));
            assert(spec_locate(it.views(), lv, rt, a) is Ok) by {
                if spec_locate(it.views(), lv, rt, a) is Err {
                    assert(q0 is Err);
                }
            }
            let (k0, t0, i0, sz0) = spec_locate(it.views(), lv, rt, a)->Ok_0;
            assert(cur.views()[k0][t0][i0] == it.views()[k0][t0][i0]);
            // walk a from the preserved base in the new state
            assert(a as int / bytes == base as int / bytes) by (nonlinear_arith)
                requires
                    base as int == a as int - (a as int % bytes),
                    bytes >= 4096,
                    a >= 0,
            ;
            assert(sz0 == q0->Ok_0.2) by {
                assert(q0 == Ok::<(int, usize, PageSize), PagingError>(
                    (e_paddr(it.views()[k0][t0][i0]) + (a as int % sz0.spec_bytes() as int),
                    e_flags(it.views()[k0][t0][i0]), sz0),
                ));
            }
            lemma_locate_same_page(cur.views(), lv, rt, a, base);
            assert(spec_locate(cur.views(), lv, rt, a) == spec_locate(it.views(), lv, rt, a));
            assert(spec_query(cur.views(), lv, rt, a) == q0);
            assert(cur.record_contains(base)) by {
                assert(cur.record_view()[j].0 == base);
            }
        } else {
            // a page of the fresh chunk: it walks to the chunk's own slot
            assert(a as int / csb == va as int / csb) by (nonlinear_arith)
                requires
                    va as int % csb == 0,
                    va <= a < va as int + csb,
                    csb >= 4096,
            ;
            assert(spec_locate(cur.views(), lv, rt, va) is Ok) by {
                if spec_locate(cur.views(), lv, rt, va) is Err {
                    assert(spec_query(cur.views(), lv, rt, va) is Err);
                }
            }
            assert(spec_locate(cur.views(), lv, rt, va)->Ok_0.3 == cs) by {
                let (k1, t1, i1, sz1) = spec_locate(cur.views(), lv, rt, va)->Ok_0;
                assert(spec_query(cur.views(), lv, rt, va)->Ok_0.2 == sz1);
            }
            lemma_locate_same_page(cur.views(), lv, rt, a, va);
            assert(spec_locate(cur.views(), lv, rt, a) == spec_locate(cur.views(), lv, rt, va));
            let (k1, t1, i1, sz1) = spec_locate(cur.views(), lv, rt, va)->Ok_0;
            let e1 = cur.views()[k1][t1][i1];
            assert(spec_query(cur.views(), lv, rt, va) == Ok::<
                (int, usize, PageSize),
                PagingError,
            >((e_paddr(e1) + (va as int % csb), e_flags(e1), cs)));
            assert(spec_query(cur.views(), lv, rt, a) == Ok::<
                (int, usize, PageSize),
                PagingError,
            >((e_paddr(e1) + (a as int % csb), e_flags(e1), cs)));
            assert(a as int % csb == a as int - va as int) by (nonlinear_arith)
                requires
                    va as int % csb == 0,
                    va <= a < va as int + csb,
                    csb >= 4096,
            ;
            assert(va as int % csb == 0);
            assert(e_paddr(e1) == chunk_pa);
            let bytes = cs.spec_bytes() as int;
            assert(((a as int - (a as int % bytes)) as usize) == va);
            assert(cur.record_contains(va)) by {
                assert(cur.record_view()[cur.record_view().len() - 1].0 == va);
            }
        }
    }
}

/// Clearing a leaf slot can only take mappings away: every walk either
/// answers as before or runs into `NotMapped`, and a found slot holds its
/// old entry or the written zero.
proof fn lemma_locate_clear(
    vs0: Seq<Map<int, Seq<u64>>>,
    levels: int,
    vaddr: usize,
    layer: int,
    tbl: int,
    uk: int,
    ut: int,
    ui: int,
)
    requires
        views_sized(vs0),
        vs0.len() == levels,
        0 <= layer < levels,
        0 <= uk < levels,
        vs0[uk].dom().contains(ut),
        0 <= ui < 512,
        vs0[uk][ut][ui] == 0u64 || e_huge(vs0[uk][ut][ui]) || uk == levels - 1,
    ensures
        ({
            let vs1 = update_slot(vs0, uk, ut, ui, 0u64);
            &&& (locate_rec(vs1, levels, vaddr, layer, tbl) == locate_rec(
                vs0,
                levels,
                vaddr,
                layer,
                tbl,
            ) || locate_rec(vs1, levels, vaddr, layer, tbl) == Err::<
                (int, int, int, PageSize),
                PagingError,
            >(PagingError::NotMapped))
            &&& (locate_rec(vs1, levels, vaddr, layer, tbl) is Ok ==> ({
                let (k, t, i, sz) = locate_rec(vs1, levels, vaddr, layer, tbl)->Ok_0;
                vs1[k][t][i] == vs0[k][t][i] || vs1[k][t][i] == 0u64
            }))
        }),
    decreases levels - layer,
{
    let vs1 = update_slot(vs0, uk, ut, ui, 0u64);
    let i = spec_index_at(vaddr, levels, layer);
    assert(0 <= i < 512) by {
        vstd::arithmetic::power2::lemma_pow2_pos(level_shift(levels, layer));
    }
    let e0 = vs0[layer][tbl][i];
    let e1 = vs1[layer][tbl][i];
    lemma_e_bits(e0);
    lemma_e_bits(e1);
    if layer >= levels - 1 {
        if layer == uk && tbl == ut && i == ui && vs0[uk].dom().contains(tbl) {
        }
    } else {
        if layer == uk && tbl == ut && i == ui {
            assert(e1 == 0u64);
        } else {
            assert(e1 == e0 || !vs0[layer].dom().contains(tbl));
            if vs0[layer].dom().contains(tbl) {
                assert(e1 == e0);
            } else {
                assert(tbl != ut || layer != uk);
                assert(vs1[layer][tbl] == vs0[layer][tbl]);
            }
            assert(e1 == e0);
            assert(vs1[layer + 1].dom() =~= vs0[layer + 1].dom());
            if (levels == 3 || layer >= 1) && e_huge(e0) {
            } else if !e_present(e0) {
            } else if e_huge(e0) {
            } else if !vs0[layer + 1].dom().contains(e_paddr(e0)) {
            } else {
                lemma_locate_clear(vs0, levels, vaddr, layer + 1, e_paddr(e0), uk, ut, ui);
            }
        }
    }
}

} // verus!
