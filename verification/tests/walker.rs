//! The 64-bit walker: map, query, unmap, promotion and frame accounting.

use page_table::bits64::PageTable64;
use page_table::pte::Rv64PTE;
use page_table::mem::FramePool;
use page_table::pte::MappingFlags;
use page_table::table::PageSize;
use page_table::table::PagingError;

fn rwxv() -> MappingFlags {
    MappingFlags::r().union(MappingFlags::w()).union(MappingFlags::x()).union(MappingFlags::v())
}

fn rwv() -> MappingFlags {
    MappingFlags::r().union(MappingFlags::w()).union(MappingFlags::v())
}

fn rw() -> MappingFlags {
    MappingFlags::r().union(MappingFlags::w())
}

#[test]
fn test_map_then_query() {
    let mut pool = FramePool::new();
    let mut pt = PageTable64::try_new(3, &mut pool).unwrap();
    pt.map(0x20_0000, 0x8040_0000, PageSize::Size4K, rwv(), &mut pool).unwrap();
    let (pa, fl, sz) = pt.query(0x20_0000).unwrap();
    assert_eq!(pa, 0x8040_0000);
    assert_eq!(fl.bits(), rwv().bits());
    assert_eq!(sz, PageSize::Size4K);
    // an address inside the same page answers offset apart
    let (pa2, _, _) = pt.query(0x20_0ABC).unwrap();
    assert_eq!(pa2, 0x8040_0ABC);
    pt.release(&mut pool);
}

#[test]
fn test_unmap_removes_and_remap_succeeds() {
    let mut pool = FramePool::new();
    let mut pt = PageTable64::try_new(3, &mut pool).unwrap();
    pt.map(0x40_0000, 0x8000_0000, PageSize::Size4K, rwv(), &mut pool).unwrap();
    let (pa, sz) = pt.unmap(0x40_0000, &mut pool).unwrap();
    assert_eq!(pa, 0x8000_0000);
    assert_eq!(sz, PageSize::Size4K);
    assert_eq!(pt.query(0x40_0000), Err(PagingError::NotMapped));
    pt.map(0x40_0000, 0x8000_1000, PageSize::Size4K, rwv(), &mut pool).unwrap();
    let (pa, _, _) = pt.query(0x40_0000).unwrap();
    assert_eq!(pa, 0x8000_1000);
    pt.release(&mut pool);
}

#[test]
fn test_double_map_rejected() {
    let mut pool = FramePool::new();
    let mut pt = PageTable64::try_new(3, &mut pool).unwrap();
    pt.map(0x40_0000, 0x8000_0000, PageSize::Size4K, rwv(), &mut pool).unwrap();
    let r = pt.map(0x40_0000, 0x9000_0000, PageSize::Size4K, rwv(), &mut pool);
    assert_eq!(r, Err(PagingError::AlreadyMapped));
    // the earlier mapping stands untouched
    let (pa, _, _) = pt.query(0x40_0000).unwrap();
    assert_eq!(pa, 0x8000_0000);
    pt.release(&mut pool);
}

#[test]
fn test_huge_region_single_leaf() {
    let mut pool = FramePool::new();
    let mut pt = PageTable64::try_new(3, &mut pool).unwrap();
    pt.map_region(0x4000_0000, 0x8000_0000, 0x4000_0000, rwxv(), true, &mut pool).unwrap();
    let (pa, fl, sz) = pt.query(0x4000_0ABC).unwrap();
    assert_eq!(pa, 0x8000_0ABC);
    assert_eq!(fl.bits(), rwxv().bits());
    assert_eq!(sz, PageSize::Size1G);
    pt.release(&mut pool);
}

#[test]
fn test_lazy_region_and_promotion() {
    let mut pool = FramePool::new();
    let mut pt = PageTable64::try_new(3, &mut pool).unwrap();
    pt.map_region_no_target(0x10_0000, 8192, rw(), false, true, &mut pool).unwrap();
    let (_, fl, _) = pt.query(0x10_0000).unwrap();
    assert!(!fl.contains(MappingFlags::v()));
    pt.validate(0x10_0000, rwv(), &mut pool).unwrap();
    let (_, fl, _) = pt.query(0x10_0000).unwrap();
    assert!(fl.contains(MappingFlags::v()));
    let r = pt.validate(0x10_0000, rwv(), &mut pool);
    assert_eq!(r, Err(PagingError::AlreadyValid));
    pt.release(&mut pool);
}

#[test]
fn test_frame_accounting_balances() {
    let mut pool = FramePool::new();
    let mut pt = PageTable64::try_new(3, &mut pool).unwrap();
    let p1 = pt.map_no_target(0x20_0000, PageSize::Size4K, rwv(), false, &mut pool).unwrap();
    let p2 = pt.map_no_target(0x40_0000, PageSize::Size4K, rwv(), false, &mut pool).unwrap();
    assert_ne!(p1, p2);
    pt.unmap(0x20_0000, &mut pool).unwrap();
    pt.unmap(0x40_0000, &mut pool).unwrap();
    pt.release(&mut pool);
    assert_eq!(pool.alloc_count(), pool.dealloc_count());
}

#[test]
fn test_map_region_not_aligned() {
    let mut pool = FramePool::new();
    let mut pt = PageTable64::try_new(3, &mut pool).unwrap();
    let r = pt.map_region(0x1001, 0x8000_0000, 4096, rwv(), false, &mut pool);
    assert_eq!(r, Err(PagingError::NotAligned));
    pt.release(&mut pool);
}

#[test]
fn test_map_below_huge_leaf_rejected() {
    let mut pool = FramePool::new();
    let mut pt = PageTable64::try_new(3, &mut pool).unwrap();
    pt.map(0x20_0000, 0x8020_0000, PageSize::Size2M, rwv(), &mut pool).unwrap();
    let r = pt.map(0x20_1000, 0x8000_0000, PageSize::Size4K, rwv(), &mut pool);
    assert_eq!(r, Err(PagingError::MappedToHugePage));
    pt.release(&mut pool);
}

#[test]
fn test_unmap_region_and_record() {
    let mut pool = FramePool::new();
    let mut pt = PageTable64::try_new(3, &mut pool).unwrap();
    pt.map_region(0x40_0000, 0x8000_0000, 4 * 4096, rwv(), false, &mut pool).unwrap();
    assert_eq!(pt.get_record().len(), 4);
    pt.unmap_region(0x40_0000, 4 * 4096, &mut pool).unwrap();
    assert_eq!(pt.get_record().len(), 0);
    assert_eq!(pt.query(0x40_0000), Err(PagingError::NotMapped));
    pt.release(&mut pool);
}

#[test]
fn test_modify_pte_flags_keeps_address() {
    let mut pool = FramePool::new();
    let mut pt = PageTable64::try_new(3, &mut pool).unwrap();
    pt.map(0x40_0000, 0x8000_0000, PageSize::Size4K, rwv(), &mut pool).unwrap();
    let r = pt.modify_pte_flags(0x40_0000, rwxv(), false, &mut pool).unwrap();
    assert_eq!(r, None);
    let (pa, fl, _) = pt.query(0x40_0000).unwrap();
    assert_eq!(pa, 0x8000_0000);
    assert_eq!(fl.bits(), rwxv().bits());
    pt.release(&mut pool);
}

#[test]
fn test_modify_pte_flags_re_alloc() {
    let mut pool = FramePool::new();
    let mut pt = PageTable64::try_new(3, &mut pool).unwrap();
    pt.map_no_target(0x40_0000, PageSize::Size4K, rwv(), false, &mut pool).unwrap();
    let (old_pa, _, _) = pt.query(0x40_0000).unwrap();
    let r = pt.modify_pte_flags(0x40_0000, rwv(), true, &mut pool).unwrap();
    let new_pa = r.unwrap();
    assert_ne!(new_pa, old_pa);
    let (pa, _, _) = pt.query(0x40_0000).unwrap();
    assert_eq!(pa, new_pa);
    pt.release(&mut pool);
}

#[test]
fn test_sv48_walk() {
    let mut pool = FramePool::new();
    let mut pt = PageTable64::try_new(4, &mut pool).unwrap();
    pt.map(0x7000_0000_0000, 0x8000_0000, PageSize::Size4K, rwv(), &mut pool).unwrap();
    let (pa, _, sz) = pt.query(0x7000_0000_0000).unwrap();
    assert_eq!(pa, 0x8000_0000);
    assert_eq!(sz, PageSize::Size4K);
    assert_eq!(pt.query(0x7000_0000_2000), Err(PagingError::NotMapped));
    pt.release(&mut pool);
}

#[test]
fn test_walk_visits_present_entries() {
    let mut pool = FramePool::new();
    let mut pt = PageTable64::try_new(3, &mut pool).unwrap();
    pt.map(0x40_0000, 0x8000_0000, PageSize::Size4K, rwv(), &mut pool).unwrap();
    let count = std::cell::Cell::new(0usize);
    let seen_leaf = std::cell::Cell::new(false);
    pt.walk(512, &|level: usize, _i: usize, _va: usize, e: &Rv64PTE| {
        count.set(count.get() + 1);
        if level == 2 && e.0 != 0 {
            seen_leaf.set(true);
        }
    })
    .unwrap();
    // the path to one page: a root entry, a middle entry, and the leaf
    assert_eq!(count.get(), 3);
    assert!(seen_leaf.get());
    pt.release(&mut pool);
}

#[test]
fn test_mapping_flags_from_str() {
    let fl = MappingFlags::from_str("RWV");
    assert_eq!(fl.bits(), 0x07);
    assert!(fl.contains(MappingFlags::v()));
    assert!(fl.contains(MappingFlags::r()));
    assert!(fl.contains(MappingFlags::w()));
    assert!(!fl.contains(MappingFlags::x()));
    assert_eq!(MappingFlags::from_str("").bits(), 0);
    assert_eq!(MappingFlags::from_str("DAGUXWRV").bits(), 0xff);
}

#[test]
fn test_map_region_every_page_translates()
{
    let mut pool = FramePool::new();
    let mut pt = PageTable64::try_new(3, &mut pool).unwrap();
    pt.map_region(0x40_0000, 0x8000_0000, 3 * 4096, rwv(), false, &mut pool).unwrap();
    for i in 0..3usize {
        let (pa, fl, sz) = pt.query(0x40_0000 + i * 4096 + 0x21).unwrap();
        assert_eq!(pa, 0x8000_0000 + i * 4096 + 0x21);
        assert_eq!(fl.bits(), rwv().bits());
        assert_eq!(sz, PageSize::Size4K);
    }
    pt.release(&mut pool);
}

#[test]
fn test_lazy_region_stores_zero_address() {
    let mut pool = FramePool::new();
    let mut pt = PageTable64::try_new(3, &mut pool).unwrap();
    let iter = pt.map_region_no_target(0x10_0000, 8192, rw(), false, true, &mut pool).unwrap();
    let mut it = iter;
    let mut seen = 0;
    while let Some((va, pa, sz)) = it.next() {
        assert!((0x10_0000..0x10_2000).contains(&va));
        assert_eq!(pa, 0);
        assert_eq!(sz, PageSize::Size4K);
        seen += 1;
    }
    assert_eq!(seen, 2);
    let (pa, _, sz) = pt.query(0x10_1000).unwrap();
    assert_eq!(pa, 0);
    assert_eq!(sz, PageSize::Size4K);
    let (pa_off, _, _) = pt.query(0x10_1234).unwrap();
    assert_eq!(pa_off, 0x234);
    pt.release(&mut pool);
}
