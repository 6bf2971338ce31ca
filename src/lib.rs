//! Memory management of a small Sv39 RISC-V kernel: page-table entries and
//! the three-level walk (`paging`), the kernel's root table and frame pool
//! (`manager`), a first-fit free-list heap (`heap`), user-side virtual and
//! DMA allocations (`mem`), and the spawn hand-off of a new address space
//! (`vmspace`). System calls, device access and printing stay with the
//! caller: functions that depend on the kernel take its reply as an argument.

pub mod addr;
pub mod error;
pub mod paging;
pub mod heap;
pub mod manager;
pub mod capabilities;
pub mod mem;
pub mod vmspace;
pub mod boot;
pub mod util;
