//! Page geometry, the user address window, error numbers and flag bits.
use vstd::prelude::*;

verus! {

/// Size of one page in bytes.
pub const PAGE_SIZE: usize = 0x1000;

/// Lowest address that a mapping may start at (address 0 is never mapped).
pub const USER_MEM_START: usize = 0x1000;

/// One past the highest address that a mapping may cover.
pub const USER_MEM_END: usize = 0x7000_0000;

/// Start of the window that placement scans when no hint is given.
pub const MMAP_AREA_START: usize = 0x2000_0000;

/// Largest distance by which `brk` may move the heap top above its bottom.
pub const MAX_HEAP_SIZE: usize = 0x20000;

/// Largest byte size of one shared-memory segment.
pub const SHM_SIZE_MAX: usize = 0x100_0000;

/// No such entry.
pub const ENOENT: isize = -2;
/// Out of memory or address space.
pub const ENOMEM: isize = -12;
/// Already exists.
pub const EEXIST: isize = -17;
/// Invalid argument.
pub const EINVAL: isize = -22;
/// Generic failure when a segment cannot be created.
pub const EGENERIC: isize = -1;

/// `PROT_READ`.
pub const PROT_READ: u32 = 0x1;
/// `PROT_WRITE`.
pub const PROT_WRITE: u32 = 0x2;
/// `PROT_EXEC`.
pub const PROT_EXEC: u32 = 0x4;

/// `MAP_FIXED`: place the mapping exactly at the given address.
pub const MAP_FIXED: u32 = 0x10;
/// `MAP_ANONYMOUS`: zero-filled memory with no backing file.
pub const MAP_ANONYMOUS: u32 = 0x20;

/// `IPC_PRIVATE`: the key of a segment visible to its creator only.
pub const IPC_PRIVATE: i32 = 0;
/// Permission bits of a `shmget` flag word.
pub const SHM_MODE_MASK: i32 = 0o777;
/// `IPC_CREAT`.
pub const IPC_CREAT: i32 = 0o1000;
/// `IPC_EXCL`.
pub const IPC_EXCL: i32 = 0o2000;
/// `SHM_HUGETLB`: accepted, no effect.
pub const SHM_HUGETLB: i32 = 0o4000;
/// `SHM_NORESERVE`: accepted, no effect.
pub const SHM_NORESERVE: i32 = 0o10000;
/// Every control bit that `shmget` accepts.
pub const SHMGET_KNOWN: i32 = 0o17000;

/// `SHM_RDONLY`: attach read-only.
pub const SHM_RDONLY: i32 = 0o10000;
/// `SHM_RND`: round a misaligned attach address up to a page.
pub const SHM_RND: i32 = 0o20000;
/// `SHM_REMAP`: replace mappings in the way of the attach range.
pub const SHM_REMAP: i32 = 0o40000;
/// `SHM_EXEC`: attach executable.
pub const SHM_EXEC: i32 = 0o100000;
/// Every bit that `shmat` accepts.
pub const SHMAT_KNOWN: i32 = 0o170000;

} // verus!
