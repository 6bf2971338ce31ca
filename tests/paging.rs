use vanadinite::addr::{PhysicalAddress, VirtualAddress};
use vanadinite::error::KError;
use vanadinite::manager::{PageTableManager, PhysicalFrames, MMIO_DEVICE_OFFSET};
use vanadinite::paging::{PageSize, Permissions, Sv39PageTable, Sv39PageTableEntry};

const POOL: u64 = 0x8020_0000;

fn rw() -> Permissions {
    Permissions::read_write()
}

fn tables(capacity: usize) -> Sv39PageTable {
    Sv39PageTable::new(PhysicalAddress(POOL), capacity).unwrap()
}

#[test]
fn three_level_walk() {
    let mut pt = tables(8);
    pt.map(PhysicalAddress(0xCAFE_B000), VirtualAddress(0xDEAD_B000), PageSize::Kilopage, rw()).unwrap();
    let root = pt.entry_at(0, 0x03);
    assert!(root.is_branch());
    let mid_index = (root.ppn() - POOL / 4096) as usize;
    let mid = pt.entry_at(mid_index, 0xF5);
    assert!(mid.is_branch());
    let leaf_index = (mid.ppn() - POOL / 4096) as usize;
    let leaf = pt.entry_at(leaf_index, 0xDB);
    assert!(leaf.is_leaf());
    assert_eq!(leaf.ppn(), 0xCAFEB);
    assert_eq!(pt.translate(VirtualAddress(0xDEAD_BEEF)), Some(PhysicalAddress(0xCAFE_BEEF)));
}

#[test]
fn map_translates_every_byte_of_the_page() {
    let mut pt = tables(8);
    pt.map(PhysicalAddress(0x8000_0000), VirtualAddress(0x4000_2000), PageSize::Kilopage, rw()).unwrap();
    for k in [0u64, 1, 0x7FF, 0xFFF] {
        assert_eq!(pt.translate(VirtualAddress(0x4000_2000 + k)), Some(PhysicalAddress(0x8000_0000 + k)));
    }
    assert_eq!(pt.translate(VirtualAddress(0x4000_3000)), None);
    assert_eq!(pt.translate(VirtualAddress(0x4000_1FFF)), None);
}

#[test]
fn unmap_then_translate_is_none() {
    let mut pt = tables(8);
    let va = VirtualAddress(0x1234_5000);
    pt.map(PhysicalAddress(0x9000_0000), va, PageSize::Kilopage, rw()).unwrap();
    assert!(pt.is_mapped(va));
    assert_eq!(pt.unmap(va), Ok(()));
    assert_eq!(pt.translate(va), None);
    assert!(!pt.is_mapped(va));
    assert_eq!(pt.unmap(va), Err(KError::InvalidMapping));
}

#[test]
fn map_unmap_map_uses_new_frame() {
    let mut pt = tables(8);
    let va = VirtualAddress(0x7000);
    pt.map(PhysicalAddress(0x1000_0000), va, PageSize::Kilopage, rw()).unwrap();
    let used = pt.num_tables_exec();
    pt.unmap(va).unwrap();
    pt.map(PhysicalAddress(0x2000_0000), va, PageSize::Kilopage, rw()).unwrap();
    assert_eq!(pt.num_tables_exec(), used);
    assert_eq!(pt.translate(va), Some(PhysicalAddress(0x2000_0000)));
}

#[test]
fn misaligned_map_is_rejected() {
    let mut pt = tables(8);
    let r = pt.map(PhysicalAddress(0x1001), VirtualAddress(0x2000), PageSize::Kilopage, rw());
    assert_eq!(r, Err(KError::InvalidArgument));
    assert_eq!(pt.num_tables_exec(), 1);
    assert_eq!(pt.translate(VirtualAddress(0x2000)), None);
}

#[test]
fn write_only_permissions_are_rejected() {
    let mut pt = tables(8);
    let w = Permissions { read: false, write: true, execute: false, user: false };
    assert_eq!(
        pt.map(PhysicalAddress(0x1000), VirtualAddress(0x2000), PageSize::Kilopage, w),
        Err(KError::InvalidArgument)
    );
    let none = Permissions { read: false, write: false, execute: false, user: true };
    assert_eq!(
        pt.map(PhysicalAddress(0x1000), VirtualAddress(0x2000), PageSize::Kilopage, none),
        Err(KError::InvalidArgument)
    );
    let x = Permissions { read: false, write: false, execute: true, user: false };
    assert_eq!(pt.map(PhysicalAddress(0x1000), VirtualAddress(0x2000), PageSize::Kilopage, x), Ok(()));
}

#[test]
fn non_canonical_address_is_rejected() {
    let mut pt = tables(8);
    let r = pt.map(PhysicalAddress(0x1000), VirtualAddress(0x0000_8000_0000_0000), PageSize::Kilopage, rw());
    assert_eq!(r, Err(KError::InvalidArgument));
    assert_eq!(pt.translate(VirtualAddress(0x0000_8000_0000_0000)), None);
}

#[test]
fn mapping_across_a_leaf_collides() {
    let mut pt = tables(8);
    pt.map(PhysicalAddress(0x4000_0000), VirtualAddress(0x4000_0000), PageSize::Gigapage, rw()).unwrap();
    let r = pt.map(PhysicalAddress(0x1000), VirtualAddress(0x4000_1000), PageSize::Kilopage, rw());
    assert_eq!(r, Err(KError::InvalidMapping));
    let again = pt.map(PhysicalAddress(0x8000_0000), VirtualAddress(0x4000_0000), PageSize::Gigapage, rw());
    assert_eq!(again, Err(KError::InvalidMapping));
}

#[test]
fn superpages_translate_with_their_offset() {
    let mut pt = tables(8);
    pt.map(PhysicalAddress(0x4000_0000), VirtualAddress(0xC000_0000), PageSize::Gigapage, rw()).unwrap();
    assert_eq!(pt.translate(VirtualAddress(0xC123_4567)), Some(PhysicalAddress(0x4123_4567)));
    pt.map(PhysicalAddress(0x20_0000), VirtualAddress(0x60_0000), PageSize::Megapage, rw()).unwrap();
    assert_eq!(pt.translate(VirtualAddress(0x7F_FFFF)), Some(PhysicalAddress(0x3F_FFFF)));
    assert_eq!(pt.num_tables_exec(), 2);
}

#[test]
fn table_pool_exhaustion_is_out_of_memory() {
    let mut pt = tables(2);
    let r = pt.map(PhysicalAddress(0x1000), VirtualAddress(0x2000), PageSize::Kilopage, rw());
    assert_eq!(r, Err(KError::OutOfMemory));
    assert_eq!(pt.num_tables_exec(), 1);
    assert_eq!(pt.map(PhysicalAddress(0x20_0000), VirtualAddress(0x20_0000), PageSize::Megapage, rw()), Ok(()));
}

#[test]
fn table_pool_arguments_are_checked() {
    assert!(Sv39PageTable::new(PhysicalAddress(0x1001), 4).is_err());
    assert!(Sv39PageTable::new(PhysicalAddress(0x1000), 0).is_err());
    assert!(Sv39PageTable::new(PhysicalAddress(0x1000), 4).is_ok());
}

#[test]
fn entry_encoding() {
    let e = Sv39PageTableEntry::leaf(PhysicalAddress(0xCAFE_B000), rw());
    assert_eq!(e.0, (0xCAFEB << 10) | 0b111);
    assert!(e.is_valid() && e.is_leaf() && !e.is_branch());
    let b = Sv39PageTableEntry::branch(PhysicalAddress(0x8020_1000));
    assert_eq!(b.0, (0x80201 << 10) | 1);
    assert!(b.is_branch());
    assert_eq!(b.physical_address(), PhysicalAddress(0x8020_1000));
    assert!(!e.invalidated().is_valid());
    assert!(!Sv39PageTableEntry::new().is_valid());
}

fn manager(frames: &[u64]) -> PageTableManager {
    let mut pool = PhysicalFrames::new();
    for f in frames {
        pool.free_frame(PhysicalAddress(*f)).unwrap();
    }
    PageTableManager::new(tables(16), pool)
}

#[test]
fn mmio_is_mapped_at_the_device_offset() {
    let mut m = manager(&[]);
    let va = m.map_mmio(PhysicalAddress(0x1000_0000), 0x1000).unwrap();
    assert_eq!(va, VirtualAddress(0xFFFF_FFE0_1000_0000));
    assert_eq!(m.translate(VirtualAddress(0xFFFF_FFE0_1000_0000)), Some(PhysicalAddress(0x1000_0000)));
    assert_eq!(MMIO_DEVICE_OFFSET, 0xFFFF_FFE0_0000_0000);
}

#[test]
fn mmio_range_maps_every_page() {
    let mut m = manager(&[]);
    let va = m.map_mmio(PhysicalAddress(0x0C00_0000), 0x3000).unwrap();
    for k in 0..3u64 {
        assert_eq!(m.translate(VirtualAddress(va.0 + k * 0x1000 + 8)), Some(PhysicalAddress(0x0C00_0000 + k * 0x1000 + 8)));
    }
    assert_eq!(m.map_mmio(PhysicalAddress(0x1000_0000), 0x1001), Err(KError::InvalidArgument));
}

#[test]
fn alloc_virtual_range_backs_each_page() {
    let mut m = manager(&[0x9000_0000, 0x9000_1000, 0x9000_2000]);
    m.alloc_virtual_range(VirtualAddress(0x10_0000), 0x2000, rw()).unwrap();
    assert_eq!(m.translate(VirtualAddress(0x10_0000)), Some(PhysicalAddress(0x9000_2000)));
    assert_eq!(m.translate(VirtualAddress(0x10_1004)), Some(PhysicalAddress(0x9000_1004)));
    assert_eq!(m.frames.len(), 1);
    assert_eq!(m.alloc_virtual_range(VirtualAddress(0x20_0000), 0x1800, rw()), Err(KError::InvalidArgument));
}

#[test]
fn alloc_virtual_without_frames_is_out_of_memory() {
    let mut m = manager(&[]);
    assert_eq!(m.alloc_virtual(VirtualAddress(0x5000), rw()), Err(KError::OutOfMemory));
}

#[test]
fn failed_alloc_virtual_keeps_the_frame() {
    let mut m = manager(&[0x9000_0000]);
    assert_eq!(m.alloc_virtual(VirtualAddress(0x5001), rw()), Err(KError::InvalidArgument));
    assert_eq!(m.frames.len(), 1);
    assert_eq!(m.alloc_virtual(VirtualAddress(0x5000), rw()), Ok(PhysicalAddress(0x9000_0000)));
    assert_eq!(m.frames.len(), 0);
}

#[test]
fn satp_holds_mode_and_root() {
    let m = manager(&[]);
    assert_eq!(m.satp_value(), (8u64 << 60) | 0x80200);
}

#[test]
fn manager_unmap() {
    let mut m = manager(&[0x9000_0000]);
    m.alloc_virtual(VirtualAddress(0x5000), rw()).unwrap();
    assert!(m.is_mapped(VirtualAddress(0x5000)));
    m.unmap(VirtualAddress(0x5000)).unwrap();
    assert!(!m.is_mapped(VirtualAddress(0x5000)));
}

#[test]
fn unmap_keeps_the_entry_but_its_valid_bit() {
    let mut pt = tables(8);
    pt.map(PhysicalAddress(0x8000_0000), VirtualAddress(0x4000_0000), PageSize::Gigapage, rw()).unwrap();
    let before = pt.entry_at(0, 1);
    pt.unmap(VirtualAddress(0x4000_0000)).unwrap();
    let after = pt.entry_at(0, 1);
    assert_eq!(after.0, before.0 & !1);
    assert_eq!(pt.num_tables_exec(), 1);
}

#[test]
fn mapped_leaf_carries_the_permissions() {
    let mut pt = tables(8);
    let perms = Permissions { read: true, write: false, execute: true, user: true };
    pt.map(PhysicalAddress(0x20_0000), VirtualAddress(0x20_0000), PageSize::Megapage, perms).unwrap();
    let branch = pt.entry_at(0, 0);
    let leaf = pt.entry_at((branch.ppn() - POOL / 4096) as usize, 1);
    assert_eq!(leaf.0 & 0x1F, 0b11011);
}
