//! The address-space layer: areas pushed, queried, promoted and unmapped.

use std::collections::BTreeMap;

use page_table::entry::PTEFlagsBuilder;
use page_table::mem::FramePool;
use page_table::PageManager;
use page_table::space::InternalManager;
use page_table::AddressSpace;
use page_table::Area;
use page_table::AreaPermission;
use page_table::PTEFlags;
use page_table::PTableError;
use page_table::PageNumber;

type VPN = PageNumber;

#[test]
fn test_() {
    let mut map = BTreeMap::new();
    for i in 1..100usize {
        map.insert(VPN::new(i), i + 1);
    }
    let mut i = 1usize;
    map.iter().for_each(|(key, _value)| {
        assert_eq!(*key, i.into());
        i = i + 1;
    })
}

#[test]
fn test_push_area_all_leaves_valid() {
    let mut pool = FramePool::new();
    let mut space = AddressSpace::new();
    let kernel = VPN::new(0)..VPN::new(100);
    let area = Area::new(kernel, None, AreaPermission::r().union(AreaPermission::x()));
    space.push(area, &mut pool).unwrap();
    for i in 0..100usize {
        assert!(space.vpn_to_ppn(VPN::new(i)).is_some());
    }
    assert!(space.vpn_to_ppn(VPN::new(100)).is_none());
    assert!(space.root_ppn().is_some());
    space.recycle(&mut pool);
}

#[test]
fn test_two_areas_and_find_area() {
    let mut pool = FramePool::new();
    let mut space = AddressSpace::new();
    let first = Area::new(VPN::new(0)..VPN::new(1), None, AreaPermission::r());
    let second = Area::new(
        VPN::new(10000)..VPN::new(10100),
        None,
        AreaPermission::r().union(AreaPermission::w()),
    );
    space.push(first, &mut pool).unwrap();
    space.push(second, &mut pool).unwrap();
    assert!(space.vpn_to_ppn(VPN::new(0)).is_some());
    assert!(space.vpn_to_ppn(VPN::new(10050)).is_some());
    let hit = space.find_area(VPN::new(10050)).unwrap();
    assert_eq!(hit.vpn_range(), VPN::new(10000)..VPN::new(10100));
    assert!(space.find_area(VPN::new(500)).is_none());
    space.recycle(&mut pool);
}

#[test]
fn test_unmap_slice_of_area() {
    let mut pool = FramePool::new();
    let mut space = AddressSpace::new();
    let area = Area::new(
        VPN::new(0)..VPN::new(100),
        None,
        AreaPermission::r().union(AreaPermission::x()),
    );
    space.push(area, &mut pool).unwrap();
    let slice = Area::new(
        VPN::new(50)..VPN::new(60),
        None,
        AreaPermission::r().union(AreaPermission::x()),
    );
    space.unmap(&slice).unwrap();
    assert!(space.vpn_to_ppn(VPN::new(55)).is_none());
    assert!(space.vpn_to_ppn(VPN::new(49)).is_some());
    assert!(space.vpn_to_ppn(VPN::new(60)).is_some());
    space.push(slice, &mut pool).unwrap();
    assert!(space.vpn_to_ppn(VPN::new(55)).is_some());
    space.recycle(&mut pool);
}

#[test]
fn test_tmp_push_and_make_valid() {
    let mut pool = FramePool::new();
    let mut space = AddressSpace::new();
    let area = Area::new(
        VPN::new(16)..VPN::new(18),
        None,
        AreaPermission::r().union(AreaPermission::w()),
    );
    space.tmp_push(area, false, &mut pool).unwrap();
    assert!(space.vpn_to_ppn(VPN::new(16)).is_none());
    space.tmp_make_valid(VPN::new(16));
    assert!(space.vpn_to_ppn(VPN::new(16)).is_some());
    assert!(space.vpn_to_ppn(VPN::new(17)).is_none());
    space.recycle(&mut pool);
}

#[test]
fn test_push_with_vpn_passes_flags_through() {
    let mut pool = FramePool::new();
    let mut space = AddressSpace::new();
    // without V the page is installed but does not translate
    let lazy = PTEFlags::r().union(PTEFlags::w());
    let ppn = space.push_with_vpn(VPN::new(77), lazy, &mut pool).unwrap();
    assert!(space.vpn_to_ppn(VPN::new(77)).is_none());
    // with V the fresh page translates to the returned frame
    let valid = PTEFlags::r().union(PTEFlags::w()).union(PTEFlags::v());
    let ppn2 = space.push_with_vpn(VPN::new(78), valid, &mut pool).unwrap();
    assert_eq!(space.vpn_to_ppn(VPN::new(78)), Some(ppn2));
    assert_ne!(ppn, ppn2);
    space.recycle(&mut pool);
}

#[test]
fn test_unmap_with_vpn() {
    let mut pool = FramePool::new();
    let mut space = AddressSpace::new();
    let valid = PTEFlags::r().union(PTEFlags::v());
    space.push_with_vpn(VPN::new(5), valid, &mut pool).unwrap();
    space.unmap_with_vpn(VPN::new(5)).unwrap();
    assert!(space.vpn_to_ppn(VPN::new(5)).is_none());
    // a page whose path was never built cannot be unmapped
    assert_eq!(space.unmap_with_vpn(VPN::new(0x700000)), Err(PTableError::NotValid));
    space.recycle(&mut pool);
}

#[test]
fn test_unmap_unrouted_area_not_valid() {
    let mut pool = FramePool::new();
    let mut space = AddressSpace::new();
    let area = Area::new(VPN::new(3)..VPN::new(4), None, AreaPermission::r());
    space.push(area, &mut pool).unwrap();
    let far = Area::new(VPN::new(0x400000)..VPN::new(0x400001), None, AreaPermission::r());
    assert_eq!(space.unmap(&far), Err(PTableError::NotValid));
    space.recycle(&mut pool);
}

#[test]
fn test_virtual_to_physical_offset() {
    let mut pool = FramePool::new();
    let mut space = AddressSpace::new();
    let area = Area::new(VPN::new(9)..VPN::new(10), None, AreaPermission::r());
    space.push(area, &mut pool).unwrap();
    let ppn = space.vpn_to_ppn(VPN::new(9)).unwrap();
    let pa = space.virtual_to_physical(9 * 4096 + 0x123).unwrap();
    assert_eq!(pa, ppn.to_address() + 0x123);
    assert!(space.virtual_to_physical(123 * 4096).is_none());
    space.recycle(&mut pool);
}

#[test]
fn test_area_with_fixed_physical_range() {
    let mut pool = FramePool::new();
    let mut space = AddressSpace::new();
    let area = Area::new(
        VPN::new(30)..VPN::new(33),
        Some(PageNumber::new(0x700)..PageNumber::new(0x703)),
        AreaPermission::r(),
    );
    space.push(area, &mut pool).unwrap();
    assert_eq!(space.vpn_to_ppn(VPN::new(30)), Some(PageNumber::new(0x700)));
    assert_eq!(space.vpn_to_ppn(VPN::new(32)), Some(PageNumber::new(0x702)));
    space.recycle(&mut pool);
}

#[test]
fn test_internal_manager_records_pages() {
    let mut pool = FramePool::new();
    let mut manager = InternalManager::new();
    let p = manager.alloc_frame(&mut pool).unwrap();
    manager.dealloc(p, &mut pool);
    assert_eq!(pool.alloc_count(), 1);
    assert_eq!(pool.dealloc_count(), 1);
}

#[test]
fn test_fork_style_copy() {
    let mut pool = FramePool::new();
    let mut space = AddressSpace::new();
    let first = Area::new(VPN::new(0)..VPN::new(1), None, AreaPermission::r());
    let second = Area::new(
        VPN::new(10000)..VPN::new(10100),
        None,
        AreaPermission::r().union(AreaPermission::w()),
    );
    space.push(first, &mut pool).unwrap();
    space.push(second, &mut pool).unwrap();
    // write a marker byte into the frame backing one page of the source
    let src_ppn = space.vpn_to_ppn(VPN::new(10050)).unwrap();
    pool.write_byte(src_ppn, 7, 0xA5);
    let copy = AddressSpace::copy_from_other(&space, &mut pool).unwrap();
    let dst_ppn = copy.vpn_to_ppn(VPN::new(10050)).unwrap();
    // the copy is backed by a frame of its own with the same contents
    assert_ne!(dst_ppn, src_ppn);
    assert_eq!(pool.read_byte(dst_ppn, 7), 0xA5);
    assert_eq!(pool.read_byte(src_ppn, 7), 0xA5);
    // every mapped page of the source is mapped in the copy, frames apart
    for i in 0..100usize {
        let v = VPN::new(10000 + i);
        let s = space.vpn_to_ppn(v).unwrap();
        let d = copy.vpn_to_ppn(v).unwrap();
        assert_ne!(s, d);
    }
    copy.recycle(&mut pool);
    space.recycle(&mut pool);
}

#[test]
fn test_copy_includes_singles() {
    let mut pool = FramePool::new();
    let mut space = AddressSpace::new();
    let valid = PTEFlags::r().union(PTEFlags::v());
    let src_ppn = space.push_with_vpn(VPN::new(321), valid, &mut pool).unwrap();
    pool.write_byte(src_ppn, 0, 0x5A);
    let copy = AddressSpace::copy_from_other(&space, &mut pool).unwrap();
    let dst_ppn = copy.vpn_to_ppn(VPN::new(321)).unwrap();
    assert_ne!(dst_ppn, src_ppn);
    assert_eq!(pool.read_byte(dst_ppn, 0), 0x5A);
    copy.recycle(&mut pool);
    space.recycle(&mut pool);
}

#[test]
fn test_push_with_data_lays_bytes_out() {
    let mut pool = FramePool::new();
    let mut space = AddressSpace::new();
    let area = Area::new(
        VPN::new(64)..VPN::new(66),
        None,
        AreaPermission::r().union(AreaPermission::w()),
    );
    // a pattern longer than one page but shorter than two
    let mut data = Vec::new();
    for i in 0..5000usize {
        data.push((i % 251) as u8);
    }
    space.push_with_data(area, &data, &mut pool).unwrap();
    let p0 = space.vpn_to_ppn(VPN::new(64)).unwrap();
    let p1 = space.vpn_to_ppn(VPN::new(65)).unwrap();
    assert_eq!(pool.read_byte(p0, 0), 0);
    assert_eq!(pool.read_byte(p0, 250), 250);
    assert_eq!(pool.read_byte(p0, 4095), (4095 % 251) as u8);
    assert_eq!(pool.read_byte(p1, 0), (4096 % 251) as u8);
    assert_eq!(pool.read_byte(p1, 5000 - 4096 - 1), (4999 % 251) as u8);
    // the remainder of the last page is untouched, still zeroed
    assert_eq!(pool.read_byte(p1, 5000 - 4096), 0);
    assert_eq!(pool.read_byte(p1, 4095), 0);
    space.recycle(&mut pool);
}

#[test]
fn test_dump_lists_valid_leaves() {
    let mut pool = FramePool::new();
    let mut space = AddressSpace::new();
    let area = Area::new(
        VPN::new(0)..VPN::new(3),
        None,
        AreaPermission::r().union(AreaPermission::x()),
    );
    space.push(area, &mut pool).unwrap();
    let rows = space.dump();
    assert_eq!(rows.len(), 3);
    for (n, row) in rows.iter().enumerate() {
        let (i0, i1, i2, ppn, flags) = *row;
        assert_eq!((i0, i1, i2), (0, 0, n));
        assert_eq!(space.vpn_to_ppn(VPN::new(n)), Some(ppn));
        // the flag letters of an R|X|V leaf
        assert_eq!(PTEFlagsBuilder(flags).render(), "----X-RV");
    }
    space.recycle(&mut pool);
}
