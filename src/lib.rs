//! Per-process virtual-memory management: the heap boundary (`brk`), memory
//! mappings (`mmap`, `munmap`, `mprotect`, `msync`) and System V shared-memory
//! segments (`shmget`, `shmat`), with a small table of mounted file systems.
//!
//! An address space is a sorted sequence of disjoint, page-aligned regions;
//! its meaning is the page map `AddressSpace::page`, and every operation is
//! stated over that map. Policies where the interface leaves room:
//! - `munmap`, `mprotect` and `msync` round a non-empty range outward to whole
//!   pages (an empty range touches nothing),
//!   clip it to the user window, and always succeed, also over unmapped pages;
//! - `mmap` refuses a zero length and a misaligned fixed address (`EINVAL`);
//! - `shmat` without `SHM_REMAP` refuses a range that is not free (`EINVAL`);
//! - the callers flush the translation caches after each call that changes a
//!   mapping, and hold the address-space lock before the registry lock.
use vstd::prelude::*;

pub mod consts;
pub mod heap;
pub mod laws;
pub mod mount;
pub mod region;
pub mod shm;
pub mod space;
pub mod syscall;

verus! {

} // verus!
