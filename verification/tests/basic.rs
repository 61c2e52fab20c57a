//! The page-number codec, the entry codec, and areas.

use page_table::area::MapAreaIter;
use page_table::entry::PTEFlagsBuilder;
use page_table::entry::PTELike;
use page_table::entry::PageTableEntry;
use page_table::table::PageTable;
use page_table::Area;
use page_table::AreaPermission;
use page_table::PTEFlags;
use page_table::PageNumber;
use page_table::VPNToSlice;

type VPN = PageNumber;
type PPN = PageNumber;

#[test]
fn test_map_area_permission() {
    let bits = 0b0001_1110u8;
    let p = AreaPermission::from_bits(bits).unwrap();
    assert!(p.contains(AreaPermission::r()));
    assert!(p.contains(AreaPermission::w()));
    assert!(p.contains(AreaPermission::x()));
    assert!(p.contains(AreaPermission::u()));
}

#[test]
fn test_map_area_permission_from_str() {
    let s = "rwxu";
    let p = AreaPermission::from_str(s);
    assert!(p.contains(AreaPermission::r()));
    assert!(p.contains(AreaPermission::w()));
    assert!(p.contains(AreaPermission::x()));
    assert!(p.contains(AreaPermission::u()));
}

#[test]
fn test_map_area() {
    let rang = VPN::new(1)..VPN::new(100);
    let area = Area::new(rang.clone(), None, AreaPermission::from_str("x"));
    let mut i = 1;
    let mut it: MapAreaIter = area.iter();
    while let Some((vpn, ppn)) = it.next() {
        assert_eq!(vpn, VPN::new(i));
        i += 1;
        assert!(ppn.is_none());
    }
    assert_eq!(i, 100);
    let ppn_s = PPN::new(1)..PPN::new(100);
    let area = Area::new(rang, Some(ppn_s), AreaPermission::w());
    let mut i = 1;
    let mut it = area.iter();
    while let Some((vpn, ppn)) = it.next() {
        assert_eq!(vpn, VPN::new(i));
        assert_eq!(ppn.unwrap(), PPN::new(i));
        i += 1;
    }
}

#[test]
fn test_entry() {
    let entry = PageTableEntry::new(PPN::new(0), PTEFlags::v());
    assert!(entry.is_valid());
    assert!(!entry.is_read());
    assert!(!entry.is_write());
    assert!(!entry.is_exec());
    assert!(!entry.is_user());
    assert!(!entry.is_accessed());
    assert!(!entry.is_dirty());
    assert_eq!(entry.physical_address(), 0);
    let entry = PageTableEntry::new(PPN::new(1), PTEFlags::v().union(PTEFlags::r()));
    assert!(entry.is_valid());
    assert!(entry.is_read());
    assert_eq!(entry.physical_address(), 0x1000);
    assert_eq!(core::mem::size_of_val(&entry), core::mem::size_of::<usize>());
}

#[test]
fn test_vpn_to_slice() {
    let vpn = VPN::new(0b111_111_111_111_111_111_111_111_111);
    let slice = vpn.to_slice();
    assert_eq!(slice.len(), 3);
    assert_eq!(slice[0], 511);
    assert_eq!(slice[1], 511);
    assert_eq!(slice[2], 511);
    let num = 0b000_000_001_111_111_111_000_000_001usize;
    let vpn: VPN = num.into();
    let slice = vpn.to_slice();
    assert_eq!(slice[0], 1);
    assert_eq!(slice[1], 511);
    assert_eq!(slice[2], 1);
    let vpn = VPN::new(0x80200);
    let slice = vpn.to_slice();
    assert_eq!(slice[0], 2);
    assert_eq!(slice[1], 1);
    assert_eq!(slice[2], 0);
}

#[test]
fn test_page_number_from_address() {
    let addr = 1024;
    let vpn = PageNumber::ceil_address(addr);
    assert_eq!(vpn.0, 1);
    let addr = 4097;
    let vpn = PageNumber::ceil_address(addr);
    assert_eq!(vpn.0, 2);
    let addr = 4096;
    let vpn = PageNumber::ceil_address(addr);
    assert_eq!(vpn.0, 1);
}

#[test]
fn test_page_number_range_macro() {
    let vpn_s = VPN::floor_address(0)..VPN::ceil_address(10);
    let ppn_s = PPN::floor_address(0)..PPN::ceil_address(10);
    assert_eq!(vpn_s, VPN::new(0)..VPN::new(1));
    assert_eq!(ppn_s, PPN::new(0)..PPN::new(1));
}

#[test]
fn test_page_table() {
    let page_table = PageTable::new();
    for entry in page_table.iter() {
        assert!(!entry.is_valid());
    }
}

#[test]
fn test_floor_to_address_brackets() {
    let a = 0x1234_5678usize;
    let floor = PageNumber::floor_address(a);
    assert!(floor.to_address() <= a);
    let ceil_next = PageNumber::ceil_address(a + 1);
    assert!(a < ceil_next.to_address());
}

#[test]
fn test_entry_round_trip_flags() {
    let flags = PTEFlags::r().union(PTEFlags::w());
    let entry = PageTableEntry::new(PPN::new(0xABCDE), flags.union(PTEFlags::v()));
    assert_eq!(entry.ppn(), PPN::new(0xABCDE));
    assert_eq!(entry.flag().bits(), flags.union(PTEFlags::v()).bits());
    assert_eq!(entry.physical_address(), 0xABCDE * 4096);
}

#[test]
fn test_flag_letters_rendering() {
    let b = PTEFlagsBuilder(PTEFlags::v().union(PTEFlags::r()).union(PTEFlags::d()));
    assert_eq!(b.render(), "D-----RV");
    let b = PTEFlagsBuilder(PTEFlags::empty());
    assert_eq!(b.render(), "--------");
}
