use vanadinite::addr::PhysicalAddress;
use vanadinite::capabilities::CapabilityPtr;
use vanadinite::error::KError;
use vanadinite::mem::{DmaRegion, MemoryAllocation, ALLOCATION_NONE, ALLOCATION_PRIVATE, DMA_NONE, DMA_ZERO};

#[test]
fn dma_elements_have_their_own_physical_address() {
    let region = DmaRegion::new_many(4, 24, Ok((PhysicalAddress(0x8000_0000), 0x1000_0000))).unwrap();
    assert_eq!(region.physical_address(), PhysicalAddress(0x8000_0000));
    for i in 0..4usize {
        let e = region.get(i).unwrap();
        assert_eq!(e.physical_address(), PhysicalAddress(0x8000_0000 + 24 * i as u64));
        assert_eq!(e.virtual_address(), 0x1000_0000 + 24 * i);
    }
    assert!(region.get(4).is_none());
    assert_eq!(region.len(), 4);
}

#[test]
fn dma_request_size_and_options() {
    let r = DmaRegion::request_many(10, 16, true).unwrap();
    assert_eq!(r.size, 160);
    assert_eq!(r.options, DMA_ZERO);
    assert_eq!(DmaRegion::request_many(10, 16, false).unwrap().options, DMA_NONE);
    assert_eq!(DmaRegion::request_many(usize::MAX, 2, false), Err(KError::InvalidArgument));
}

#[test]
fn dma_errors_pass_through() {
    assert_eq!(DmaRegion::new_many(1, 8, Err(KError::OutOfMemory)).err(), Some(KError::OutOfMemory));
    assert_eq!(
        DmaRegion::new_many(2, 8, Ok((PhysicalAddress(u64::MAX - 4), 0x1000))).err(),
        Some(KError::InvalidArgument)
    );
}

#[test]
fn public_allocation_keeps_its_capability() {
    let req = MemoryAllocation::public_rw_request(4096);
    assert_eq!(req.options, ALLOCATION_NONE);
    assert_eq!(req.size, 4096);
    let a = MemoryAllocation::public_rw(4096, Ok((CapabilityPtr(7), 0x4000))).unwrap();
    assert_eq!(a.cptr, CapabilityPtr(7));
    assert_eq!(a.ptr, 0x4000);
    assert_eq!(a.len, 4096);
}

#[test]
fn private_allocation_gets_the_sentinel() {
    assert_eq!(MemoryAllocation::private_rw_request(64).options, ALLOCATION_PRIVATE);
    let a = MemoryAllocation::private_rw(64, Ok((CapabilityPtr(7), 0x4000))).unwrap();
    assert_eq!(a.cptr, CapabilityPtr(usize::MAX));
    assert_eq!(a.len, 64);
}

#[test]
fn allocation_errors() {
    assert_eq!(MemoryAllocation::public_rw(64, Err(KError::InvalidCapability)).err(), Some(KError::InvalidCapability));
    assert_eq!(MemoryAllocation::private_rw(64, Ok((CapabilityPtr(1), 0))).err(), Some(KError::InvalidArgument));
}

#[test]
fn single_element_dma_region() {
    let req = DmaRegion::request_one(64, true);
    assert_eq!(req.size, 64);
    assert_eq!(req.options, DMA_ZERO);
    let r = DmaRegion::new(64, Ok((PhysicalAddress(0x8000_1000), 0x2000))).unwrap();
    assert_eq!(r.len(), 1);
    assert_eq!(r.get(0).unwrap().physical_address(), PhysicalAddress(0x8000_1000));
    assert!(r.get(1).is_none());
}
