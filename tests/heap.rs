use vanadinite::error::KError;
use vanadinite::heap::{align_to_usize, FreeListAllocator, FreeListNode};

const X: usize = 0x10_0000;

#[test]
fn heap_split() {
    let mut h = FreeListAllocator::new();
    h.init(X, 4096).unwrap();
    let p = h.allocate(16, 8).unwrap();
    assert_eq!(p, X + 16);
    let hdr = FreeListNode::struct_size();
    assert_eq!(hdr, 16);
    let head = h.head().unwrap();
    assert_eq!(head.size, 4096 - hdr - 16 - hdr);
    assert_eq!(head.addr, X + hdr + 16);
}

#[test]
fn heap_no_split() {
    let mut h = FreeListAllocator::new();
    h.init(X, 16 + 16 + 4).unwrap();
    assert_eq!(h.head().unwrap().size, 20);
    let p = h.allocate(16, 8).unwrap();
    assert_eq!(p, X + 16);
    assert_eq!(h.head(), None);
}

#[test]
fn alloc_dealloc_alloc_again() {
    let mut h = FreeListAllocator::new();
    h.init(X, 256).unwrap();
    let a = h.allocate(100, 8).unwrap();
    assert_eq!(a % 8, 0);
    let b = h.allocate(100, 8).unwrap();
    assert_eq!(b % 8, 0);
    assert_eq!(h.allocate(100, 8), Err(KError::OutOfMemory));
    h.deallocate(a).unwrap();
    let c = h.allocate(100, 8).unwrap();
    assert_eq!(c, a);
}

#[test]
fn first_fit_order() {
    let mut h = FreeListAllocator::new();
    h.init(X, 1024).unwrap();
    let a = h.allocate(8, 8).unwrap();
    let b = h.allocate(64, 8).unwrap();
    h.deallocate(b).unwrap();
    h.deallocate(a).unwrap();
    let nodes = h.free_list();
    assert_eq!(nodes[0], FreeListNode { addr: a - 16, size: 8 });
    assert_eq!(nodes[1], FreeListNode { addr: b - 16, size: 64 });
    assert_eq!(h.allocate(32, 8), Ok(b));
}

#[test]
fn sizes_round_up_to_a_word() {
    assert_eq!(align_to_usize(0), 0);
    assert_eq!(align_to_usize(1), 8);
    assert_eq!(align_to_usize(8), 8);
    assert_eq!(align_to_usize(13), 16);
    let mut h = FreeListAllocator::new();
    h.init(X, 4096).unwrap();
    let p = h.allocate(13, 4).unwrap();
    assert_eq!(p, X + 16);
    assert_eq!(h.head().unwrap().addr, X + 16 + 16);
}

#[test]
fn large_alignment_is_refused() {
    let mut h = FreeListAllocator::new();
    h.init(X, 4096).unwrap();
    assert_eq!(h.allocate(16, 16), Err(KError::InvalidArgument));
}

#[test]
fn uninitialised_heap_has_nothing() {
    let mut h = FreeListAllocator::new();
    assert_eq!(h.allocate(8, 8), Err(KError::OutOfMemory));
    assert_eq!(h.allocate(usize::MAX, 8), Err(KError::OutOfMemory));
}

#[test]
fn foreign_pointer_is_refused() {
    let mut h = FreeListAllocator::new();
    h.init(X, 4096).unwrap();
    assert_eq!(h.deallocate(X + 8), Err(KError::InvalidArgument));
}

#[test]
fn bad_region_is_refused() {
    let mut h = FreeListAllocator::new();
    assert_eq!(h.init(0, 4096), Err(KError::InvalidArgument));
    assert_eq!(h.init(X + 4, 4096), Err(KError::InvalidArgument));
    assert_eq!(h.init(X, 8), Err(KError::InvalidArgument));
}

#[test]
fn split_node() {
    let mut n = FreeListNode { addr: X, size: 100 };
    let tail = n.split(20);
    assert_eq!(n, FreeListNode { addr: X, size: 24 });
    assert_eq!(tail, FreeListNode { addr: X + 16 + 24, size: 100 - 24 - 16 });
    assert_eq!(n.data(), X + 16);
}
