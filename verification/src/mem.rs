//! A reference frame allocator.
//!
//! `FramePool` implements [`PageManager`](crate::PageManager) by handing out
//! page numbers from a rising counter and keeping the bytes of every live
//! frame as owned data.  It also counts allocations and deallocations, so
//! that frame accounting can be stated and checked: the two counters agree
//! exactly when no frame is outstanding.

use vstd::prelude::*;

use crate::{zero_frame, PageManager, PageNumber};

verus! {

struct PoolFrame {
    ppn: usize,
    bytes: Vec<u8>,
}

/// All page numbers in `s` are pairwise distinct.
spec fn frames_distinct(s: Seq<PoolFrame>) -> bool {
    forall|i: int, j: int|
        0 <= i < j < s.len() ==> #[trigger] s[i].ppn != #[trigger] s[j].ppn
}

spec fn frames_contain(s: Seq<PoolFrame>, p: int) -> bool {
    exists|i: int| 0 <= i < s.len() && s[i].ppn == p
}

spec fn frame_index(s: Seq<PoolFrame>, p: int) -> int {
    choose|i: int| 0 <= i < s.len() && s[i].ppn == p
}

/// The memory model induced by a list of live frames.
spec fn pool_mem(s: Seq<PoolFrame>) -> Map<int, Seq<u8>> {
    Map::new(|p: int| frames_contain(s, p), |p: int| s[frame_index(s, p)].bytes@)
}

proof fn lemma_pool_mem_at(s: Seq<PoolFrame>, i: int)
    requires
        frames_distinct(s),
        0 <= i < s.len(),
    ensures
        pool_mem(s).dom().contains(s[i].ppn as int),
        pool_mem(s)[s[i].ppn as int] == s[i].bytes@,
{
    assert(frames_contain(s, s[i].ppn as int));
    let j = frame_index(s, s[i].ppn as int);
    assert(s[j].ppn == s[i].ppn);
    if i != j {
        assert(false);
    }
}

proof fn lemma_pool_mem_push(s: Seq<PoolFrame>, f: PoolFrame)
    requires
        frames_distinct(s),
        !frames_contain(s, f.ppn as int),
    ensures
        pool_mem(s.push(f)) == pool_mem(s).insert(f.ppn as int, f.bytes@),
        frames_distinct(s.push(f)),
{
    let t = s.push(f);
    assert forall|i: int, j: int| 0 <= i < j < t.len() implies #[trigger] t[i].ppn
        != #[trigger] t[j].ppn by {
        if j == s.len() {
            assert(t[i] == s[i]);
            if t[i].ppn == f.ppn {
                assert(frames_contain(s, f.ppn as int));
            }
        }
    }
    assert forall|p: int| #[trigger]
        pool_mem(t).dom().contains(p) <==> pool_mem(s).insert(
            f.ppn as int,
            f.bytes@,
        ).dom().contains(p) by {
        if frames_contain(t, p) {
            let i = choose|i: int| 0 <= i < t.len() && t[i].ppn == p;
            if i < s.len() {
                assert(frames_contain(s, p));
            }
        }
        if frames_contain(s, p) {
            let i = choose|i: int| 0 <= i < s.len() && s[i].ppn == p;
            assert(t[i].ppn == p);
            assert(frames_contain(t, p));
        }
        if p == f.ppn {
            assert(t[s.len() as int].ppn == p);
            assert(frames_contain(t, p));
        }
    }
    assert forall|p: int| pool_mem(t).dom().contains(p) implies pool_mem(t)[p] == pool_mem(s).insert(
        f.ppn as int,
        f.bytes@,
    )[p] by {
        let i = frame_index(t, p);
        assert(0 <= i < t.len() && t[i].ppn == p);
        if p == f.ppn {
            if i != s.len() {
                assert(t[i] == s[i]);
                assert(frames_contain(s, p));
            }
            assert(pool_mem(t)[p] == f.bytes@);
        } else {
            assert(i < s.len());
            assert(t[i] == s[i]);
            lemma_pool_mem_at(s, i);
        }
    }
    assert(pool_mem(t) =~= pool_mem(s).insert(f.ppn as int, f.bytes@));
}

proof fn lemma_pool_mem_remove(s: Seq<PoolFrame>, i: int)
    requires
        frames_distinct(s),
        0 <= i < s.len(),
    ensures
        pool_mem(s.remove(i)) == pool_mem(s).remove(s[i].ppn as int),
        frames_distinct(s.remove(i)),
{
    let t = s.remove(i);
    assert forall|a: int, b: int| 0 <= a < b < t.len() implies #[trigger] t[a].ppn
        != #[trigger] t[b].ppn by {
        let a0 = if a < i {
            a
        } else {
            a + 1
        };
        let b0 = if b < i {
            b
        } else {
            b + 1
        };
        assert(t[a] == s[a0] && t[b] == s[b0]);
    }
    assert forall|p: int| #[trigger]
        pool_mem(t).dom().contains(p) <==> pool_mem(s).remove(s[i].ppn as int).dom().contains(
            p,
        ) by {
        if frames_contain(t, p) {
            let a = choose|a: int| 0 <= a < t.len() && t[a].ppn == p;
            let a0 = if a < i {
                a
            } else {
                a + 1
            };
            assert(t[a] == s[a0]);
            assert(frames_contain(s, p));
            if p == s[i].ppn {
                assert(a0 != i && s[a0].ppn == s[i].ppn);
                assert(false);
            }
        }
        if frames_contain(s, p) && p != s[i].ppn {
            let a0 = choose|a0: int| 0 <= a0 < s.len() && s[a0].ppn == p;
            assert(a0 != i);
            let a = if a0 < i {
                a0
            } else {
                a0 - 1
            };
            assert(t[a] == s[a0]);
            assert(frames_contain(t, p));
        }
    }
    assert forall|p: int| pool_mem(t).dom().contains(p) implies pool_mem(t)[p] == pool_mem(
        s,
    ).remove(s[i].ppn as int)[p] by {
        let a = frame_index(t, p);
        assert(0 <= a < t.len() && t[a].ppn == p);
        let a0 = if a < i {
            a
        } else {
            a + 1
        };
        assert(t[a] == s[a0]);
        lemma_pool_mem_at(s, a0);
    }
    assert(pool_mem(t) =~= pool_mem(s).remove(s[i].ppn as int));
}

proof fn lemma_pool_mem_update(s: Seq<PoolFrame>, i: int, f: PoolFrame)
    requires
        frames_distinct(s),
        0 <= i < s.len(),
        f.ppn == s[i].ppn,
    ensures
        pool_mem(s.update(i, f)) == pool_mem(s).insert(f.ppn as int, f.bytes@),
        frames_distinct(s.update(i, f)),
{
    let t = s.update(i, f);
    assert(forall|a: int| 0 <= a < t.len() ==> #[trigger] t[a].ppn == s[a].ppn);
    assert forall|p: int| #[trigger]
        pool_mem(t).dom().contains(p) <==> pool_mem(s).insert(
            f.ppn as int,
            f.bytes@,
        ).dom().contains(p) by {
        if frames_contain(t, p) {
            let a = choose|a: int| 0 <= a < t.len() && t[a].ppn == p;
            assert(s[a].ppn == p);
            assert(frames_contain(s, p));
        }
        if frames_contain(s, p) {
            let a = choose|a: int| 0 <= a < s.len() && s[a].ppn == p;
            assert(t[a].ppn == p);
            assert(frames_contain(t, p));
        }
        if p == f.ppn {
            assert(t[i].ppn == p);
            assert(frames_contain(t, p));
        }
    }
    assert forall|p: int| pool_mem(t).dom().contains(p) implies pool_mem(t)[p] == pool_mem(
        s,
    ).insert(f.ppn as int, f.bytes@)[p] by {
        let a = frame_index(t, p);
        assert(0 <= a < t.len() && t[a].ppn == p);
        if p == f.ppn {
            if a != i {
                assert(s[a].ppn == s[i].ppn);
                assert(false);
            }
            assert(pool_mem(t)[p] == f.bytes@);
        } else {
            assert(a != i);
            assert(t[a] == s[a]);
            lemma_pool_mem_at(s, a);
        }
    }
    assert(pool_mem(t) =~= pool_mem(s).insert(f.ppn as int, f.bytes@));
}

/// A frame allocator over modelled memory: page numbers rise monotonically,
/// every live frame's bytes are kept, and the allocation and deallocation
/// counters witness frame accounting.
pub struct FramePool {
    next: usize,
    frames: Vec<PoolFrame>,
    n_alloc: usize,
    n_dealloc: usize,
}

impl FramePool {
    pub closed spec fn spec_alloc_count(&self) -> usize {
        self.n_alloc
    }

    pub closed spec fn spec_dealloc_count(&self) -> usize {
        self.n_dealloc
    }

    pub fn new() -> (r: Self)
        ensures
            r.inv(),
            r.mem() == Map::<int, Seq<u8>>::empty(),
            r.spec_alloc_count() == 0,
            r.spec_dealloc_count() == 0,
    {
        let r = FramePool { next: 0, frames: Vec::new(), n_alloc: 0, n_dealloc: 0 };
        proof {
            assert(pool_mem(r.frames@) =~= Map::<int, Seq<u8>>::empty());
        }
        r
    }

    /// How many frames this pool has handed out so far.
    pub fn alloc_count(&self) -> (r: usize)
        ensures
            r == self.spec_alloc_count(),
    {
        self.n_alloc
    }

    /// How many frames have been returned to this pool so far.
    pub fn dealloc_count(&self) -> (r: usize)
        ensures
            r == self.spec_dealloc_count(),
    {
        self.n_dealloc
    }

    fn find(&self, ppn: usize) -> (r: Option<usize>)
        ensures
            match r {
                Some(i) => i < self.frames@.len() && self.frames@[i as int].ppn == ppn,
                None => !frames_contain(self.frames@, ppn as int),
            },
    {
        let mut i: usize = 0;
        while i < self.frames.len()
            invariant
                i <= self.frames@.len(),
                forall|j: int| 0 <= j < i ==> #[trigger] self.frames@[j].ppn != ppn,
            decreases self.frames@.len() - i,
        {
            if self.frames[i].ppn == ppn {
                return Some(i);
            }
            i = i + 1;
        }
        None
    }

    fn zeroed_bytes() -> (r: Vec<u8>)
        ensures
            r@ == zero_frame(),
    {
        let mut v: Vec<u8> = Vec::new();
        let mut i: usize = 0;
        while i < 4096
            invariant
                i <= 4096,
                v@.len() == i,
                forall|j: int| 0 <= j < i ==> v@[j] == 0u8,
            decreases 4096 - i,
        {
            v.push(0u8);
            i = i + 1;
        }
        proof {
            assert(v@ =~= zero_frame());
        }
        v
    }
}

/// Frame accounting: a pool holds no frame exactly when every allocation has
/// been matched by a deallocation.
pub proof fn lemma_frame_accounting(pool: &FramePool)
    requires
        pool.inv(),
    ensures
        pool.mem().dom() =~= Set::<int>::empty() <==> pool.spec_alloc_count()
            == pool.spec_dealloc_count(),
{
    if pool.spec_alloc_count() == pool.spec_dealloc_count() {
        assert(pool.frames@.len() == 0);
        assert forall|p: int| !(#[trigger] pool.mem().dom().contains(p)) by {
            if frames_contain(pool.frames@, p) {
                let i = choose|i: int| 0 <= i < pool.frames@.len() && pool.frames@[i].ppn == p;
                assert(false);
            }
        }
    } else {
        assert(pool.frames@.len() > 0);
        lemma_pool_mem_at(pool.frames@, 0);
        assert(pool.mem().dom().contains(pool.frames@[0].ppn as int));
    }
}

impl PageManager for FramePool {
    closed spec fn mem(&self) -> Map<int, Seq<u8>> {
        pool_mem(self.frames@)
    }

    closed spec fn inv(&self) -> bool {
        &&& frames_distinct(self.frames@)
        &&& forall|i: int| 0 <= i < self.frames@.len() ==> #[trigger] self.frames@[i].ppn < self.next
        &&& forall|i: int|
            0 <= i < self.frames@.len() ==> (#[trigger] self.frames@[i].bytes@).len() == 4096
        &&& self.next <= usize::MAX / 4096
        &&& self.n_alloc == self.n_dealloc + self.frames@.len()
        &&& self.n_alloc <= self.next
    }

    fn alloc_frame(&mut self) -> (r: Option<PageNumber>) {
        if self.next >= usize::MAX / 4096 || (self.next as u64) >= 0x1000_0000_0000u64 {
            return None;
        }
        let p = self.next;
        self.next = p + 1;
        let bytes = Self::zeroed_bytes();
        let ghost frames0 = self.frames@;
        let f = PoolFrame { ppn: p, bytes };
        proof {
            if frames_contain(frames0, p as int) {
                let i = choose|i: int| 0 <= i < frames0.len() && frames0[i].ppn == p;
                assert(false);
            }
            lemma_pool_mem_push(frames0, f);
        }
        self.frames.push(f);
        self.n_alloc = self.n_alloc + 1;
        Some(PageNumber(p))
    }

    fn alloc_contiguous(&mut self, n: usize) -> (r: Option<PageNumber>) {
        if self.next >= usize::MAX / 4096 - n || (self.next as u64) >= 0x1000_0000_0000u64 - (
        n as u64) {
            return None;
        }
        let base = self.next;
        let ghost mem0 = self.mem();
        let mut k: usize = 0;
        while k < n
            invariant
                self.inv(),
                k <= n,
                base + n < usize::MAX / 4096,
                self.next == base + k,
                mem0 == old(self).mem(),
                forall|q: int|
                    !(base <= q < base + k) ==> (#[trigger] self.mem().dom().contains(q)
                        <==> mem0.dom().contains(q)),
                forall|q: int|
                    mem0.dom().contains(q) && !(base <= q < base + k)
                        ==> #[trigger] self.mem()[q] == mem0[q],
                forall|i: int|
                    0 <= i < k ==> self.mem().dom().contains(#[trigger] (base + i))
                        && self.mem()[base + i] == zero_frame(),
                forall|i: int| 0 <= i < k ==> !mem0.dom().contains(#[trigger] (base + i)),
                self.n_alloc == old(self).n_alloc + k,
                self.n_dealloc == old(self).n_dealloc,
            decreases n - k,
        {
            let ghost frames0 = self.frames@;
            let ghost prev = self.mem();
            proof {
                assert forall|q: int| !(base <= q < base + k) implies (#[trigger] prev.dom().contains(
                    q,
                ) <==> mem0.dom().contains(q)) by {
                    assert(self.mem().dom().contains(q) <==> mem0.dom().contains(q));
                }
                assert forall|q: int| mem0.dom().contains(q) && !(base <= q < base + k) implies
                    #[trigger] prev[q] == mem0[q] by {
                    assert(self.mem()[q] == mem0[q]);
                }
            }
            let p = self.next;
            self.next = p + 1;
            let bytes = Self::zeroed_bytes();
            let f = PoolFrame { ppn: p, bytes };
            proof {
                if frames_contain(frames0, p as int) {
                    let i = choose|i: int| 0 <= i < frames0.len() && frames0[i].ppn == p;
                    assert(false);
                }
                lemma_pool_mem_push(frames0, f);
            }
            self.frames.push(f);
            self.n_alloc = self.n_alloc + 1;
            proof {
                assert(self.mem() == prev.insert(p as int, f.bytes@));
                assert(!prev.dom().contains(p as int));
                assert(!mem0.dom().contains(p as int));
                assert forall|q: int| !(base <= q < base + k + 1) implies (
                #[trigger] self.mem().dom().contains(q) <==> mem0.dom().contains(q)) by {
                    assert(q != p);
                    assert(prev.dom().contains(q) <==> mem0.dom().contains(q));
                    assert(self.mem().dom().contains(q) <==> prev.dom().contains(q));
                }
                assert forall|q: int|
                    mem0.dom().contains(q) && !(base <= q < base + k
                        + 1) implies #[trigger] self.mem()[q] == mem0[q] by {
                    assert(q != p);
                    assert(self.mem()[q] == prev[q]);
                }
            }
            k = k + 1;
        }
        Some(PageNumber(base))
    }

    fn dealloc_frame(&mut self, ppn: PageNumber) {
        match self.find(ppn.0) {
            Some(i) => {
                proof {
                    lemma_pool_mem_remove(self.frames@, i as int);
                }
                self.frames.remove(i);
                self.n_dealloc = self.n_dealloc + 1;
            },
            None => {
                proof {
                    assert(!self.mem().dom().contains(ppn.0 as int));
                    assert(self.mem().remove(ppn.0 as int) =~= self.mem());
                }
            },
        }
    }

    fn read_byte(&self, ppn: PageNumber, off: usize) -> (r: u8) {
        let i = match self.find(ppn.0) {
            Some(i) => i,
            None => {
                proof {
                    assert(false);
                }
                0
            },
        };
        proof {
            lemma_pool_mem_at(self.frames@, i as int);
        }
        self.frames[i].bytes[off]
    }

    fn write_byte(&mut self, ppn: PageNumber, off: usize, val: u8) {
        let i = match self.find(ppn.0) {
            Some(i) => i,
            None => {
                proof {
                    assert(false);
                }
                0
            },
        };
        proof {
            lemma_pool_mem_at(self.frames@, i as int);
        }
        let ghost frames0 = self.frames@;
        self.frames[i].bytes[off] = val;
        proof {
            let f = self.frames@[i as int];
            assert(self.frames@ =~= frames0.update(i as int, f));
            lemma_pool_mem_update(frames0, i as int, f);
        }
    }

    fn copy_frame(&mut self, src: PageNumber, dst: PageNumber) {
        let si = match self.find(src.0) {
            Some(i) => i,
            None => {
                proof {
                    assert(false);
                }
                0
            },
        };
        let di = match self.find(dst.0) {
            Some(i) => i,
            None => {
                proof {
                    assert(false);
                }
                0
            },
        };
        proof {
            lemma_pool_mem_at(self.frames@, si as int);
            lemma_pool_mem_at(self.frames@, di as int);
        }
        let bytes = self.frames[si].bytes.clone();
        let ghost frames0 = self.frames@;
        self.frames[di].bytes = bytes;
        proof {
            let f = self.frames@[di as int];
            assert(self.frames@ =~= frames0.update(di as int, f));
            lemma_pool_mem_update(frames0, di as int, f);
        }
    }
}

} // verus!
