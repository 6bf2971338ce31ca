use vstd::prelude::*;

use crate::addr::PhysicalAddress;
use crate::capabilities::{CapabilityPtr, PRIVATE_CAPABILITY};
use crate::error::KError;

verus! {

/// Options of a virtual allocation, as a bit set.
pub const ALLOCATION_NONE: u8 = 0;

/// The allocation cannot be shared; its handle is the private sentinel.
pub const ALLOCATION_PRIVATE: u8 = 1;

/// Options of a DMA allocation: frames are zeroed before return.
pub const DMA_ZERO: u8 = 1;

pub const DMA_NONE: u8 = 0;

pub const MEMORY_READ: u8 = 1;

pub const MEMORY_WRITE: u8 = 2;

pub const MEMORY_EXECUTE: u8 = 4;

/// What a task asks the kernel for when it reserves virtual memory.
#[derive(Debug, Clone, Copy, PartialEq, Eq, Structural)]
pub struct AllocationRequest {
    pub size: usize,
    pub options: u8,
    pub permissions: u8,
}

/// A virtual mapping owned by the task: the handle through which it is
/// named, and the base and length of the bytes it maps.
#[derive(Debug, Clone, Copy, PartialEq, Eq, Structural)]
pub struct MemoryAllocation {
    pub cptr: CapabilityPtr,
    pub ptr: usize,
    pub len: usize,
}

impl MemoryAllocation {
    /// The request for `size` bytes with `options` and `permissions`.
    pub fn request(size: usize, options: u8, permissions: u8) -> (r: AllocationRequest)
        ensures
            r == (AllocationRequest { size, options, permissions }),
    {
        AllocationRequest { size, options, permissions }
    }

    /// The request behind `public_rw`: shareable, read and write.
    pub fn public_rw_request(size: usize) -> (r: AllocationRequest)
        ensures
            r == (AllocationRequest { size, options: ALLOCATION_NONE, permissions: MEMORY_READ | MEMORY_WRITE }),
    {
        Self::request(size, ALLOCATION_NONE, MEMORY_READ | MEMORY_WRITE)
    }

    /// The request behind `private_rw`: private, read and write.
    pub fn private_rw_request(size: usize) -> (r: AllocationRequest)
        ensures
            r == (AllocationRequest {
                size,
                options: ALLOCATION_PRIVATE,
                permissions: MEMORY_READ | MEMORY_WRITE,
            }),
    {
        Self::request(size, ALLOCATION_PRIVATE, MEMORY_READ | MEMORY_WRITE)
    }

    /// The allocation of `size` bytes from the kernel's `reply` to a request:
    /// its error passes through, and a null pointer is refused.
    pub fn new(size: usize, reply: Result<(CapabilityPtr, usize), KError>) -> (r: Result<Self, KError>)
        ensures
            match reply {
                Err(e) => r == Err::<Self, KError>(e),
                Ok((cptr, ptr)) => if ptr == 0 {
                    r == Err::<Self, KError>(KError::InvalidArgument)
                } else {
                    r == Ok::<Self, KError>(MemoryAllocation { cptr, ptr, len: size })
                },
            },
    {
        match reply {
            Err(e) => Err(e),
            Ok((cptr, ptr)) => {
                if ptr == 0 {
                    Err(KError::InvalidArgument)
                } else {
                    Ok(MemoryAllocation { cptr, ptr, len: size })
                }
            },
        }
    }

    /// A shareable read/write allocation from the reply to
    /// `public_rw_request(size)`.
    pub fn public_rw(size: usize, reply: Result<(CapabilityPtr, usize), KError>) -> (r: Result<Self, KError>)
        ensures
            match reply {
                Err(e) => r == Err::<Self, KError>(e),
                Ok((cptr, ptr)) => if ptr == 0 {
                    r == Err::<Self, KError>(KError::InvalidArgument)
                } else {
                    r == Ok::<Self, KError>(MemoryAllocation { cptr, ptr, len: size })
                },
            },
    {
        Self::new(size, reply)
    }

    /// A private read/write allocation from the reply to
    /// `private_rw_request(size)`; its handle becomes the private sentinel.
    pub fn private_rw(size: usize, reply: Result<(CapabilityPtr, usize), KError>) -> (r: Result<Self, KError>)
        ensures
            match reply {
                Err(e) => r == Err::<Self, KError>(e),
                Ok((cptr, ptr)) => if ptr == 0 {
                    r == Err::<Self, KError>(KError::InvalidArgument)
                } else {
                    r == Ok::<Self, KError>(
                        MemoryAllocation { cptr: CapabilityPtr(PRIVATE_CAPABILITY), ptr, len: size },
                    )
                },
            },
    {
        match Self::new(size, reply) {
            Ok(a) => Ok(MemoryAllocation { cptr: CapabilityPtr::new(PRIVATE_CAPABILITY), ptr: a.ptr, len: a.len }),
            Err(e) => Err(e),
        }
    }
}

/// The I/O orderings that a fence can enforce.
#[derive(Debug, Clone, Copy, PartialEq, Eq, Structural)]
pub enum FenceMode {
    Full,
    Read,
    Write,
}

/// What a task asks the kernel for when it allocates DMA memory.
#[derive(Debug, Clone, Copy, PartialEq, Eq, Structural)]
pub struct DmaRequest {
    pub size: usize,
    pub options: u8,
}

/// Physically contiguous DMA memory holding `len` elements of `elem_size`
/// bytes: its physical address, for devices, and its virtual address.
#[derive(Debug, PartialEq, Eq, Structural)]
pub struct DmaRegion {
    phys: PhysicalAddress,
    virt: usize,
    len: usize,
    elem_size: usize,
}

/// One element of a `DmaRegion`, with its own physical address.
#[derive(Debug, Clone, Copy, PartialEq, Eq, Structural)]
pub struct DmaElement {
    phys: PhysicalAddress,
    virt: usize,
}

impl DmaRegion {
    pub closed spec fn phys_spec(&self) -> int {
        self.phys.0 as int
    }

    pub closed spec fn virt_spec(&self) -> int {
        self.virt as int
    }

    pub closed spec fn len_spec(&self) -> int {
        self.len as int
    }

    pub closed spec fn elem_size_spec(&self) -> int {
        self.elem_size as int
    }

    /// Both ends of the region have addresses.
    pub closed spec fn wf(&self) -> bool {
        &&& self.len * self.elem_size <= usize::MAX
        &&& self.phys.0 + self.len * self.elem_size <= u64::MAX
        &&& self.virt + self.len * self.elem_size <= usize::MAX
    }

    /// The request for `n_elements` of `elem_size` bytes each, zeroed or not;
    /// refused when the byte count does not fit a `usize`.
    pub fn request_many(n_elements: usize, elem_size: usize, zero: bool) -> (r: Result<DmaRequest, KError>)
        ensures
            n_elements * elem_size <= usize::MAX ==> r == Ok::<DmaRequest, KError>(
                DmaRequest { size: (n_elements * elem_size) as usize, options: if zero { DMA_ZERO } else { DMA_NONE } },
            ),
            n_elements * elem_size > usize::MAX ==> r == Err::<DmaRequest, KError>(KError::InvalidArgument),
    {
        if elem_size != 0 && n_elements > usize::MAX / elem_size {
            proof {
                lemma_mul_over(n_elements as int, elem_size as int);
            }
            return Err(KError::InvalidArgument);
        }
        proof {
            if elem_size != 0 {
                lemma_mul_within(n_elements as int, elem_size as int);
            }
        }
        Ok(DmaRequest { size: n_elements * elem_size, options: if zero { DMA_ZERO } else { DMA_NONE } })
    }

    /// The region of `n_elements` of `elem_size` bytes from the kernel's
    /// `reply` `(physical, virtual)` to `request_many`. Its error passes
    /// through; a region whose end has no address is refused.
    pub fn new_many(n_elements: usize, elem_size: usize, reply: Result<(PhysicalAddress, usize), KError>) -> (r:
        Result<DmaRegion, KError>)
        ensures
            match reply {
                Err(e) => r == Err::<DmaRegion, KError>(e),
                Ok((phys, virt)) => if n_elements * elem_size <= usize::MAX && phys.0 + n_elements * elem_size
                    <= u64::MAX && virt + n_elements * elem_size <= usize::MAX {
                    &&& r is Ok
                    &&& r->Ok_0.wf()
                    &&& r->Ok_0.phys_spec() == phys.0
                    &&& r->Ok_0.virt_spec() == virt
                    &&& r->Ok_0.len_spec() == n_elements
                    &&& r->Ok_0.elem_size_spec() == elem_size
                } else {
                    r == Err::<DmaRegion, KError>(KError::InvalidArgument)
                },
            },
    {
        match reply {
            Err(e) => Err(e),
            Ok((phys, virt)) => {
                let bytes = match Self::request_many(n_elements, elem_size, false) {
                    Ok(req) => req.size,
                    Err(e) => {
                        return Err(e);
                    },
                };
                if phys.0 > u64::MAX - bytes as u64 || virt > usize::MAX - bytes {
                    return Err(KError::InvalidArgument);
                }
                Ok(DmaRegion { phys, virt, len: n_elements, elem_size })
            },
        }
    }

    /// The request for one element of `elem_size` bytes, zeroed or not.
    pub fn request_one(elem_size: usize, zero: bool) -> (r: DmaRequest)
        ensures
            r == (DmaRequest { size: elem_size, options: if zero { DMA_ZERO } else { DMA_NONE } }),
    {
        DmaRequest { size: elem_size, options: if zero { DMA_ZERO } else { DMA_NONE } }
    }

    /// The region of one element of `elem_size` bytes from the kernel's
    /// `reply` to `request_one`; as `new_many` with one element.
    pub fn new(elem_size: usize, reply: Result<(PhysicalAddress, usize), KError>) -> (r: Result<DmaRegion, KError>)
        ensures
            match reply {
                Err(e) => r == Err::<DmaRegion, KError>(e),
                Ok((phys, virt)) => if phys.0 + elem_size <= u64::MAX && virt + elem_size <= usize::MAX {
                    &&& r is Ok
                    &&& r->Ok_0.wf()
                    &&& r->Ok_0.phys_spec() == phys.0
                    &&& r->Ok_0.virt_spec() == virt
                    &&& r->Ok_0.len_spec() == 1
                    &&& r->Ok_0.elem_size_spec() == elem_size
                } else {
                    r == Err::<DmaRegion, KError>(KError::InvalidArgument)
                },
            },
    {
        Self::new_many(1, elem_size, reply)
    }

    pub fn physical_address(&self) -> (r: PhysicalAddress)
        ensures
            r.0 == self.phys_spec(),
    {
        self.phys
    }

    pub fn virtual_address(&self) -> (r: usize)
        ensures
            r == self.virt_spec(),
    {
        self.virt
    }

    pub fn len(&self) -> (r: usize)
        ensures
            r == self.len_spec(),
    {
        self.len
    }

    /// Element `index`, at `elem_size * index` bytes from the start of the
    /// region on both sides; none past the end.
    pub fn get(&self, index: usize) -> (r: Option<DmaElement>)
        requires
            self.wf(),
        ensures
            index >= self.len_spec() ==> r is None,
            index < self.len_spec() ==> {
                &&& r is Some
                &&& r->0.phys_spec() == self.phys_spec() + index * self.elem_size_spec()
                &&& r->0.virt_spec() == self.virt_spec() + index * self.elem_size_spec()
            },
    {
        if index < self.len {
            proof {
                lemma_mul_le(index as int, self.len as int, self.elem_size as int);
            }
            let off = self.elem_size * index;
            Some(DmaElement { phys: PhysicalAddress(self.phys.0 + off as u64), virt: self.virt + off })
        } else {
            None
        }
    }
}

impl DmaElement {
    pub closed spec fn phys_spec(&self) -> int {
        self.phys.0 as int
    }

    pub closed spec fn virt_spec(&self) -> int {
        self.virt as int
    }

    pub fn physical_address(&self) -> (r: PhysicalAddress)
        ensures
            r.0 == self.phys_spec(),
    {
        self.phys
    }

    pub fn virtual_address(&self) -> (r: usize)
        ensures
            r == self.virt_spec(),
    {
        self.virt
    }
}

proof fn lemma_mul_over(n: int, s: int)
    requires
        s > 0,
        n > (usize::MAX as int) / s,
    ensures
        n * s > usize::MAX,
{
    assert(n * s > usize::MAX) by (nonlinear_arith)
        requires
            s > 0,
            n >= (usize::MAX as int) / s + 1,
    {
        assert(((usize::MAX as int) / s + 1) * s > usize::MAX) by (nonlinear_arith)
            requires
                s > 0,
        ;
    }
}

proof fn lemma_mul_within(n: int, s: int)
    requires
        s > 0,
        0 <= n <= (usize::MAX as int) / s,
    ensures
        n * s <= usize::MAX,
{
    assert(n * s <= usize::MAX) by (nonlinear_arith)
        requires
            s > 0,
            0 <= n <= (usize::MAX as int) / s,
    ;
}

proof fn lemma_mul_le(i: int, n: int, s: int)
    requires
        0 <= i < n,
        0 <= s,
    ensures
        i * s <= n * s,
        s * i == i * s,
{
    assert(i * s <= n * s) by (nonlinear_arith)
        requires
            0 <= i < n,
            0 <= s,
    ;
    assert(s * i == i * s) by (nonlinear_arith);
}

} // verus!
