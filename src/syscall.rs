//! Entry points of the memory system calls: they check raw arguments and apply
//! the request to the heap, the address space and the shared-memory registry.
//! The caller flushes the translation caches after every call that changes a
//! mapping.
use vstd::prelude::*;
use std::collections::HashMap;
use crate::consts::{
    EINVAL, ENOMEM, MAP_ANONYMOUS, MAP_FIXED, MAX_HEAP_SIZE, PAGE_SIZE, PROT_EXEC, PROT_READ, PROT_WRITE,
    USER_MEM_END, USER_MEM_START, MMAP_AREA_START, EEXIST, EGENERIC, ENOENT, IPC_CREAT, IPC_EXCL, IPC_PRIVATE,
    SHMAT_KNOWN, SHMGET_KNOWN, SHM_EXEC, SHM_MODE_MASK, SHM_RDONLY, SHM_REMAP, SHM_RND,
};
use crate::heap::HeapTracker;
use crate::region::{aligned, Backing, MapPerm, Region};
use crate::shm::{page_round, segment_size_ok, Segment, ShmRegistry};
use crate::space::{
    free_at, is_writeback_plan, page_span, protected, replaced, search_base, span_hi, span_lo, AddressSpace, WriteBack,
};

verus! {

/// An entry of a process's descriptor table.
#[derive(Clone, Copy, Debug, PartialEq, Eq, Structural)]
pub enum Descriptor {
    /// An open regular file, known by its handle.
    File { handle: u64 },
    /// Anything else (pipe, socket, directory, device).
    Other,
}

/// The file handle that descriptor `fd` names, if it names an open file.
pub open spec fn file_of(fds: Seq<Option<Descriptor>>, fd: i32) -> Option<u64> {
    if 0 <= fd < fds.len() {
        match fds[fd as int] {
            Some(Descriptor::File { handle }) => Some(handle),
            _ => None,
        }
    } else {
        None
    }
}

/// The rights that a `PROT_*` word asks for; user access is always granted.
pub open spec fn prot_perm(prot: u32) -> MapPerm {
    MapPerm {
        read: prot & PROT_READ != 0,
        write: prot & PROT_WRITE != 0,
        execute: prot & PROT_EXEC != 0,
        user: true,
    }
}

/// The rights that a `PROT_*` word asks for.
pub fn perm_from_prot(prot: u32) -> (r: MapPerm)
    ensures
        r == prot_perm(prot),
{
    MapPerm {
        read: prot & PROT_READ != 0,
        write: prot & PROT_WRITE != 0,
        execute: prot & PROT_EXEC != 0,
        user: true,
    }
}

pub open spec fn map_fixed(flags: u32) -> bool {
    flags & MAP_FIXED != 0
}

pub open spec fn map_anonymous(flags: u32) -> bool {
    flags & MAP_ANONYMOUS != 0
}

/// The backing that an `mmap` request names, or `None` when its descriptor
/// arguments are malformed.
pub open spec fn mmap_backing(fds: Seq<Option<Descriptor>>, flags: u32, fd: i32, offset: usize) -> Option<Backing> {
    if map_anonymous(flags) {
        if fd == -1 && offset == 0 { Some(Backing::Anonymous) } else { None }
    } else {
        match file_of(fds, fd) {
            Some(handle) => Some(Backing::File { handle, offset: offset as u64 }),
            None => None,
        }
    }
}

/// The error that an `mmap` request fails with before any placement, in the
/// order they are tested, or `None` when its arguments are acceptable.
pub open spec fn mmap_error(fds: Seq<Option<Descriptor>>, start: usize, len: usize, flags: u32, fd: i32, offset: usize) -> Option<isize> {
    if map_fixed(flags) && start == 0 {
        Some(EINVAL)
    } else if mmap_backing(fds, flags, fd, offset) is None {
        Some(EINVAL)
    } else if len == 0 {
        Some(EINVAL)
    } else if len > USER_MEM_END {
        Some(ENOMEM)
    } else if !map_anonymous(flags) && offset + page_round(len as int) > u64::MAX {
        Some(EINVAL)
    } else if map_fixed(flags) && !aligned(start as int) {
        Some(EINVAL)
    } else if map_fixed(flags) && !(USER_MEM_START <= start && start + page_round(len as int) <= USER_MEM_END) {
        Some(ENOMEM)
    } else {
        None
    }
}

/// `space2` is `space1` with every page of `[lo, hi)` replaced by those of `new`
/// (or unmapped), and its private segments untouched.
pub open spec fn is_replacement(space1: AddressSpace, space2: AddressSpace, lo: int, hi: int, new: Option<Region>) -> bool {
    &&& space2.wf()
    &&& space2.private_shm@ == space1.private_shm@
    &&& forall|p: int| #[trigger] space2.page(p) == replaced(space1.page(p), p, lo, hi, new)
}

/// The region that a successful `mmap` at `addr` inserts.
pub open spec fn mmap_region(addr: int, len: usize, prot: u32, backing: Backing) -> Region {
    Region {
        start: addr as usize,
        end: (addr + page_round(len as int)) as usize,
        perm: prot_perm(prot),
        backing,
    }
}

/// Moves the heap top as [`HeapTracker::brk`] does; `brk` 0 only reports it.
pub fn syscall_brk(heap: &mut HeapTracker, brk: usize) -> (r: isize)
    requires
        old(heap).wf(),
    ensures
        final(heap).wf(),
        final(heap).bottom == old(heap).bottom,
        brk != 0 && old(heap).bottom <= brk <= old(heap).bottom + MAX_HEAP_SIZE ==> final(heap).top == brk,
        !(brk != 0 && old(heap).bottom <= brk <= old(heap).bottom + MAX_HEAP_SIZE) ==> final(heap).top == old(heap).top,
        r == final(heap).top,
{
    heap.brk(brk)
}

/// Maps `len` bytes (rounded up to whole pages) with the rights of `prot`,
/// zero-filled for `MAP_ANONYMOUS` or read from the file of descriptor `fd` at
/// `offset`. With `MAP_FIXED` the mapping lands at `start` and replaces what
/// was there; otherwise at the first free range from `start` up (or from the
/// mapping area when `start` is 0). Returns the address, or a negative error
/// with the address space unchanged.
pub fn syscall_mmap(
    space: &mut AddressSpace,
    fds: &Vec<Option<Descriptor>>,
    start: usize,
    len: usize,
    prot: u32,
    flags: u32,
    fd: i32,
    offset: usize,
) -> (r: isize)
    requires
        old(space).wf(),
    ensures
        final(space).wf(),
        map_fixed(flags) && start == 0 ==> r == EINVAL,
        r < 0 ==> *final(space) == *old(space),
        mmap_error(fds@, start, len, flags, fd, offset) matches Some(e) ==> r == e,
        mmap_error(fds@, start, len, flags, fd, offset) is None && map_fixed(flags) ==> {
            &&& r == start
            &&& is_replacement(*old(space), *final(space), start as int, start + page_round(len as int),
                Some(mmap_region(start as int, len, prot, mmap_backing(fds@, flags, fd, offset).unwrap())))
        },
        mmap_error(fds@, start, len, flags, fd, offset) is None && !map_fixed(flags) ==> {
            ||| {
                &&& r == ENOMEM
                &&& forall|c: int| search_base(start as int) <= c && c + page_round(len as int) <= USER_MEM_END
                    ==> !(#[trigger] free_at(old(space).regions@, c, page_round(len as int)))
            }
            ||| {
                &&& r >= 0
                &&& aligned(r as int)
                &&& search_base(start as int) <= r
                &&& free_at(old(space).regions@, r as int, page_round(len as int))
                &&& r + page_round(len as int) <= USER_MEM_END
                &&& forall|c: int| search_base(start as int) <= c < r ==> !(#[trigger] free_at(old(space).regions@, c, page_round(len as int)))
                &&& is_replacement(*old(space), *final(space), r as int, r + page_round(len as int),
                    Some(mmap_region(r as int, len, prot, mmap_backing(fds@, flags, fd, offset).unwrap())))
            }
        },
{
    let fixed = flags & MAP_FIXED != 0;
    let anonymous = flags & MAP_ANONYMOUS != 0;
    if fixed && start == 0 {
        return EINVAL;
    }
    let backing = if anonymous {
        if !(fd == -1 && offset == 0) {
            return EINVAL;
        }
        Backing::Anonymous
    } else {
        if fd < 0 || fd as usize >= fds.len() {
            return EINVAL;
        }
        match fds[fd as usize] {
            Some(Descriptor::File { handle }) => Backing::File { handle, offset: offset as u64 },
            _ => {
                return EINVAL;
            },
        }
    };
    assert(mmap_backing(fds@, flags, fd, offset) == Some(backing));
    if len == 0 {
        return EINVAL;
    }
    if len > USER_MEM_END {
        return ENOMEM;
    }
    let plen = if len % PAGE_SIZE == 0 { len } else { len - len % PAGE_SIZE + PAGE_SIZE };
    assert(plen == page_round(len as int) && aligned(plen as int));
    if !anonymous && offset as u64 > u64::MAX - plen as u64 {
        return EINVAL;
    }
    let addr = if fixed {
        if start % PAGE_SIZE != 0 {
            return EINVAL;
        }
        if start < USER_MEM_START || start > USER_MEM_END - plen {
            return ENOMEM;
        }
        start
    } else {
        match space.find_free_area(start, plen) {
            Some(a) => a,
            None => {
                return ENOMEM;
            },
        }
    };
    let region = Region { start: addr, end: addr + plen, perm: perm_from_prot(prot), backing };
    assert(region == mmap_region(addr as int, len, prot, backing));
    space.replace_range(addr, addr + plen, Some(region));
    addr as isize
}

/// Unmaps every page that `[start, start + len)` touches, splitting regions
/// that reach beyond it. Always succeeds.
pub fn syscall_munmap(space: &mut AddressSpace, start: usize, len: usize) -> (r: isize)
    requires
        old(space).wf(),
    ensures
        r == 0,
        is_replacement(*old(space), *final(space), span_lo(start as int, len as int), span_hi(start as int, len as int), None),
{
    let (lo, hi) = page_span(start, len);
    space.replace_range(lo, hi, None);
    0
}

/// The write-backs that flush the file-backed pages that `[start, start + len)`
/// touches. Always succeeds; the caller performs them in order.
pub fn syscall_msync(space: &AddressSpace, start: usize, len: usize) -> (out: Vec<WriteBack>)
    requires
        space.wf(),
    ensures
        is_writeback_plan(*space, span_lo(start as int, len as int), span_hi(start as int, len as int), out@),
{
    let (lo, hi) = page_span(start, len);
    space.writebacks(lo, hi)
}

/// Gives every mapped page that `[start, start + len)` touches the rights of
/// `prot`, splitting regions at the bounds. Always succeeds.
pub fn syscall_mprotect(space: &mut AddressSpace, start: usize, len: usize, prot: u32) -> (r: isize)
    requires
        old(space).wf(),
    ensures
        r == 0,
        final(space).wf(),
        final(space).private_shm@ == old(space).private_shm@,
        forall|p: int| #[trigger] final(space).page(p) == protected(old(space).page(p), p,
            span_lo(start as int, len as int), span_hi(start as int, len as int), prot_perm(prot)),
{
    let (lo, hi) = page_span(start, len);
    space.protect_range(lo, hi, perm_from_prot(prot));
    0
}

/// A `shmget` flag word holds only permission bits and known control bits.
pub open spec fn shmget_flags_ok(flags: i32) -> bool {
    flags & !(SHM_MODE_MASK | SHMGET_KNOWN) == 0
}

/// The permission bits of a `shmget` flag word.
pub open spec fn shm_mode(flags: i32) -> u16 {
    (flags & SHM_MODE_MASK) as u16
}

pub open spec fn has_flag(flags: i32, bit: i32) -> bool {
    flags & bit != 0
}

/// Whether `shmget` creates a segment: the flags are valid, the key is
/// private or absent with `IPC_CREAT`, the size can be backed and an id is left.
pub open spec fn shmget_creates(reg: ShmRegistry, key: i32, size: usize, flags: i32) -> bool {
    &&& shmget_flags_ok(flags)
    &&& (key == IPC_PRIVATE || (!reg.key_to_id@.contains_key(key) && has_flag(flags, IPC_CREAT)))
    &&& segment_size_ok(size as int)
    &&& reg.next_id < i32::MAX
}

/// What `shmget` returns against the registry `reg`.
pub open spec fn shmget_result(reg: ShmRegistry, key: i32, size: usize, flags: i32) -> isize {
    if !shmget_flags_ok(flags) {
        EGENERIC
    } else if key != IPC_PRIVATE && reg.key_to_id@.contains_key(key) {
        if has_flag(flags, IPC_CREAT) && has_flag(flags, IPC_EXCL) { EEXIST } else { reg.key_to_id@[key] as isize }
    } else if key != IPC_PRIVATE && !has_flag(flags, IPC_CREAT) {
        ENOENT
    } else if shmget_creates(reg, key, size, flags) {
        reg.next_id as isize
    } else {
        EGENERIC
    }
}

/// Segment ids are process-wide: the private ones of `space` are below the
/// registry's next id and not among its segments.
pub open spec fn ids_disjoint(space: AddressSpace, reg: ShmRegistry) -> bool {
    forall|id: i32| #[trigger] space.private_shm@.contains_key(id) ==> id < reg.next_id && !reg.segments@.contains_key(id)
}

/// `m2` is `m1` with one more attachment counted on segment `id`.
pub open spec fn bumped(m1: Map<i32, Segment>, m2: Map<i32, Segment>, id: i32) -> bool {
    &&& m2.dom() == m1.dom()
    &&& forall|i: i32| m1.contains_key(i) && i != id ==> #[trigger] m2[i] == m1[i]
    &&& m1.contains_key(id) ==> {
        &&& m2[id].id == m1[id].id
        &&& m2[id].key == m1[id].key
        &&& m2[id].size == m1[id].size
        &&& m2[id].owner_pid == m1[id].owner_pid
        &&& m2[id].mode == m1[id].mode
        &&& m2[id].content@ == m1[id].content@
        &&& m2[id].attach_count == m1[id].attach_count + 1
    }
}

/// Creates or looks up a shared-memory segment. The low nine bits of `flags`
/// are its mode, the others control bits. Key 0 always creates a segment known
/// to this address space only. Another key names the segment filed under it:
/// `EEXIST` when both `IPC_CREAT` and `IPC_EXCL` are set, otherwise its id;
/// an absent key is created with `IPC_CREAT`, else `ENOENT`. Unknown control
/// bits, a size of 0 or beyond the backing capacity, or no id left give -1.
pub fn syscall_shmget(
    reg: &mut ShmRegistry,
    space: &mut AddressSpace,
    pid: u64,
    key: i32,
    size: usize,
    flags: i32,
) -> (r: isize)
    requires
        old(reg).wf(),
        old(space).wf(),
        ids_disjoint(*old(space), *old(reg)),
    ensures
        final(reg).wf(),
        final(space).wf(),
        ids_disjoint(*final(space), *final(reg)),
        final(space).regions == old(space).regions,
        r == shmget_result(*old(reg), key, size, flags),
        !shmget_creates(*old(reg), key, size, flags) ==> *final(reg) == *old(reg) && *final(space) == *old(space),
        shmget_creates(*old(reg), key, size, flags) ==> {
            &&& final(reg).next_id == old(reg).next_id + 1
            &&& key == IPC_PRIVATE ==> {
                &&& final(reg).key_to_id@ == old(reg).key_to_id@
                &&& final(reg).segments@ == old(reg).segments@
                &&& final(space).private_shm@ == old(space).private_shm@.insert(r as i32, final(space).private_shm@[r as i32])
                &&& final(space).private_shm@[r as i32].is_fresh(r as i32, key, size as int, pid, shm_mode(flags))
            }
            &&& key != IPC_PRIVATE ==> {
                &&& final(space).private_shm@ == old(space).private_shm@
                &&& final(reg).key_to_id@ == old(reg).key_to_id@.insert(key, r as i32)
                &&& final(reg).segments@ == old(reg).segments@.insert(r as i32, final(reg).segments@[r as i32])
                &&& final(reg).segments@[r as i32].is_fresh(r as i32, key, size as int, pid, shm_mode(flags))
            }
        },
{
    if flags & !(SHM_MODE_MASK | SHMGET_KNOWN) != 0 {
        return EGENERIC;
    }
    let m = flags & SHM_MODE_MASK;
    assert(0 <= m <= 0o777) by (bit_vector)
        requires m == flags & 0o777i32;
    let mode = m as u16;
    let creat = flags & IPC_CREAT != 0;
    let excl = flags & IPC_EXCL != 0;
    if key != IPC_PRIVATE {
        match reg.key_to_id.get(&key) {
            Some(id) => {
                return if creat && excl { EEXIST } else { *id as isize };
            },
            None => {
                if !creat {
                    return ENOENT;
                }
            },
        }
    }
    if reg.next_id == i32::MAX {
        return EGENERIC;
    }
    let id = reg.next_id;
    let seg = match Segment::create(id, key, size, pid, mode) {
        Some(seg) => seg,
        None => {
            return EGENERIC;
        },
    };
    reg.next_id = id + 1;
    if key == IPC_PRIVATE {
        space.private_shm.insert(id, seg);
    } else {
        reg.key_to_id.insert(key, id);
        reg.segments.insert(id, seg);
    }
    id as isize
}

/// The segment that `shmid` names for `space`: its private table first, then
/// the registry.
pub open spec fn segment_of(space: AddressSpace, reg: ShmRegistry, shmid: i32) -> Option<Segment> {
    if space.private_shm@.contains_key(shmid) {
        Some(space.private_shm@[shmid])
    } else if reg.segments@.contains_key(shmid) {
        Some(reg.segments@[shmid])
    } else {
        None
    }
}

/// The rights of an attachment: readable and user-accessible always, writable
/// unless `SHM_RDONLY`, executable with `SHM_EXEC`.
pub open spec fn shm_perm(flags: i32) -> MapPerm {
    MapPerm { read: true, write: !has_flag(flags, SHM_RDONLY), execute: has_flag(flags, SHM_EXEC), user: true }
}

/// The address that a non-zero `shmat` address resolves to: itself when
/// page-aligned, rounded up with `SHM_RND`, otherwise none.
pub open spec fn attach_addr(addr: usize, flags: i32) -> Option<int> {
    if aligned(addr as int) {
        Some(addr as int)
    } else if has_flag(flags, SHM_RND) {
        Some(page_round(addr as int))
    } else {
        None
    }
}

/// The error that a `shmat` request fails with, in the order they are
/// tested, or `None`. Without `SHM_REMAP`, a range that is not free is refused.
pub open spec fn shmat_error(space: AddressSpace, reg: ShmRegistry, shmid: i32, addr: usize, flags: i32) -> Option<isize> {
    let seg = segment_of(space, reg, shmid);
    let a = attach_addr(addr, flags);
    if flags & !SHMAT_KNOWN != 0 {
        Some(EINVAL)
    } else if seg is None {
        Some(EINVAL)
    } else if addr != 0 && a is None {
        Some(EINVAL)
    } else if addr != 0 && !(USER_MEM_START <= a.unwrap() && a.unwrap() + seg.unwrap().size <= USER_MEM_END) {
        Some(EINVAL)
    } else if addr != 0 && !has_flag(flags, SHM_REMAP) && !free_at(space.regions@, a.unwrap(), seg.unwrap().size as int) {
        Some(EINVAL)
    } else if seg.unwrap().attach_count == usize::MAX {
        Some(ENOMEM)
    } else {
        None
    }
}

/// The region that attaching segment `shmid` of `size` bytes at `a` inserts.
pub open spec fn shm_region(a: int, size: int, shmid: i32, flags: i32) -> Region {
    Region { start: a as usize, end: (a + size) as usize, perm: shm_perm(flags), backing: Backing::Shared { shmid, shm_offset: 0 } }
}

/// `space2` and `reg2` are `space1` and `reg1` after segment `shmid` was
/// attached at `a`: its pages replace `[a, a + size)` and its attachment count
/// went up by one.
pub open spec fn attached(
    space1: AddressSpace,
    reg1: ShmRegistry,
    space2: AddressSpace,
    reg2: ShmRegistry,
    shmid: i32,
    a: int,
    flags: i32,
) -> bool {
    let size = segment_of(space1, reg1, shmid).unwrap().size as int;
    &&& space2.wf()
    &&& reg2.wf()
    &&& ids_disjoint(space2, reg2)
    &&& forall|p: int| #[trigger] space2.page(p) == replaced(space1.page(p), p, a, a + size, Some(shm_region(a, size, shmid, flags)))
    &&& reg2.key_to_id@ == reg1.key_to_id@
    &&& reg2.next_id == reg1.next_id
    &&& if space1.private_shm@.contains_key(shmid) {
        bumped(space1.private_shm@, space2.private_shm@, shmid) && reg2.segments@ == reg1.segments@
    } else {
        bumped(reg1.segments@, reg2.segments@, shmid) && space2.private_shm@ == space1.private_shm@
    }
}

/// Counts one more attachment of segment `id` in `m`.
fn bump_attach(m: &mut HashMap<i32, Segment>, id: i32)
    requires
        old(m)@.contains_key(id),
        old(m)@[id].attach_count < usize::MAX,
    ensures
        bumped(old(m)@, final(m)@, id),
        final(m)@.contains_key(id),
        final(m)@ == old(m)@.insert(id, final(m)@[id]),
{
    let seg = m.remove(&id);
    let mut seg = seg.unwrap();
    seg.attach_count = seg.attach_count + 1;
    m.insert(id, seg);
    assert(final(m)@.dom() =~= old(m)@.dom());
}

/// Attaches segment `shmid` to `space`. With `addr` 0 at the first free range
/// of the mapping area (`ENOMEM` when there is none); otherwise at `addr`,
/// rounded up to a page with `SHM_RND` and refused misaligned without it. With
/// `SHM_REMAP` mappings in the way are removed; without it the range must be
/// free. Returns the address, or a negative error with nothing changed.
pub fn syscall_shmat(
    reg: &mut ShmRegistry,
    space: &mut AddressSpace,
    shmid: i32,
    addr: usize,
    flags: i32,
) -> (r: isize)
    requires
        old(reg).wf(),
        old(space).wf(),
        ids_disjoint(*old(space), *old(reg)),
    ensures
        final(reg).wf(),
        final(space).wf(),
        ids_disjoint(*final(space), *final(reg)),
        r < 0 ==> *final(reg) == *old(reg) && *final(space) == *old(space),
        shmat_error(*old(space), *old(reg), shmid, addr, flags) matches Some(e) ==> r == e,
        shmat_error(*old(space), *old(reg), shmid, addr, flags) is None && addr != 0 ==> {
            &&& r == attach_addr(addr, flags).unwrap()
            &&& attached(*old(space), *old(reg), *final(space), *final(reg), shmid, r as int, flags)
        },
        shmat_error(*old(space), *old(reg), shmid, addr, flags) is None && addr == 0 ==> {
            let size = segment_of(*old(space), *old(reg), shmid).unwrap().size as int;
            ||| {
                &&& r == ENOMEM
                &&& forall|c: int| MMAP_AREA_START <= c && c + size <= USER_MEM_END
                    ==> !(#[trigger] free_at(old(space).regions@, c, size))
            }
            ||| {
                &&& r >= 0
                &&& aligned(r as int)
                &&& MMAP_AREA_START <= r
                &&& free_at(old(space).regions@, r as int, size)
                &&& r + size <= USER_MEM_END
                &&& forall|c: int| MMAP_AREA_START <= c < r ==> !(#[trigger] free_at(old(space).regions@, c, size))
                &&& attached(*old(space), *old(reg), *final(space), *final(reg), shmid, r as int, flags)
            }
        },
{
    let ghost space0 = *space;
    let ghost reg0 = *reg;
    if flags & !SHMAT_KNOWN != 0 {
        return EINVAL;
    }
    let private = space.private_shm.contains_key(&shmid);
    let (size, count) = if private {
        let seg = space.private_shm.get(&shmid).unwrap();
        (seg.size, seg.attach_count)
    } else {
        match reg.segments.get(&shmid) {
            Some(seg) => (seg.size, seg.attach_count),
            None => {
                return EINVAL;
            },
        }
    };
    let a: usize = if addr == 0 {
        match space.find_free_area(0, size) {
            Some(a) => a,
            None => {
                return ENOMEM;
            },
        }
    } else {
        let a = if addr % PAGE_SIZE == 0 {
            addr
        } else if flags & SHM_RND != 0 && addr < USER_MEM_END {
            addr - addr % PAGE_SIZE + PAGE_SIZE
        } else {
            return EINVAL;
        };
        if a < USER_MEM_START || a > USER_MEM_END || size > USER_MEM_END - a {
            return EINVAL;
        }
        if flags & SHM_REMAP == 0 && !space.range_is_free(a, a + size) {
            return EINVAL;
        }
        a
    };
    if count == usize::MAX {
        return ENOMEM;
    }
    let perm = MapPerm { read: true, write: flags & SHM_RDONLY == 0, execute: flags & SHM_EXEC != 0, user: true };
    let region = Region { start: a, end: a + size, perm, backing: Backing::Shared { shmid, shm_offset: 0 } };
    assert(region == shm_region(a as int, size as int, shmid, flags));
    space.replace_range(a, a + size, Some(region));
    let ghost space1 = *space;
    if private {
        bump_attach(&mut space.private_shm, shmid);
    } else {
        bump_attach(&mut reg.segments, shmid);
    }
    assert(segment_of(space0, reg0, shmid).unwrap().size == size);
    assert forall|p: int| #[trigger] space.page(p) == replaced(space0.page(p), p, a as int, a + size, Some(shm_region(a as int, size as int, shmid, flags))) by {
        assert(space.page(p) == space1.page(p));
    }
    assert(attached(space0, reg0, *space, *reg, shmid, a as int, flags));
    a as isize
}

/// `old` with `data` written over it from byte `offset`.
pub open spec fn spliced(old: Seq<u8>, offset: int, data: Seq<u8>) -> Seq<u8> {
    Seq::new(old.len(), |j: int| if offset <= j < offset + data.len() { data[j - offset] } else { old[j] })
}

/// `m2` is `m1` with `data` written into the content of segment `id` from
/// byte `offset`.
pub open spec fn written(m1: Map<i32, Segment>, m2: Map<i32, Segment>, id: i32, offset: int, data: Seq<u8>) -> bool {
    &&& m2.dom() == m1.dom()
    &&& forall|i: i32| m1.contains_key(i) && i != id ==> #[trigger] m2[i] == m1[i]
    &&& m1.contains_key(id) ==> {
        &&& m2[id].id == m1[id].id
        &&& m2[id].key == m1[id].key
        &&& m2[id].size == m1[id].size
        &&& m2[id].owner_pid == m1[id].owner_pid
        &&& m2[id].mode == m1[id].mode
        &&& m2[id].attach_count == m1[id].attach_count
        &&& m2[id].content@ == spliced(m1[id].content@, offset, data)
    }
}

fn write_into(m: &mut HashMap<i32, Segment>, id: i32, offset: usize, data: &Vec<u8>)
    requires
        old(m)@.contains_key(id),
        offset + data.len() <= old(m)@[id].content@.len(),
    ensures
        written(old(m)@, final(m)@, id, offset as int, data@),
{
    let seg = m.remove(&id);
    let mut seg = seg.unwrap();
    let ghost before = seg.content@;
    let ghost s0 = (seg.id, seg.key, seg.size, seg.owner_pid, seg.mode, seg.attach_count);
    let n = seg.content.len();
    let mut i: usize = 0;
    while i < data.len()
        invariant
            s0 == (seg.id, seg.key, seg.size, seg.owner_pid, seg.mode, seg.attach_count),
            before.len() == n,
            offset + data.len() <= before.len(),
            seg.content@.len() == before.len(),
            i <= data.len(),
            forall|j: int| 0 <= j < before.len() ==> #[trigger] seg.content@[j] == if offset <= j < offset + i {
                data@[j - offset]
            } else {
                before[j]
            },
        decreases data.len() - i,
    {
        seg.content.set(offset + i, data[i]);
        i += 1;
    }
    assert(seg.content@ =~= spliced(before, offset as int, data@));
    m.insert(id, seg);
    assert(final(m)@.dom() =~= old(m)@.dom());
}

/// Writes `data` into the content of segment `shmid`, as seen from `space`,
/// from byte `offset`. Returns false, changing nothing, when the segment is
/// unknown or the bytes run past its end.
pub fn shm_write(
    reg: &mut ShmRegistry,
    space: &mut AddressSpace,
    shmid: i32,
    offset: usize,
    data: &Vec<u8>,
) -> (ok: bool)
    requires
        old(reg).wf(),
        old(space).wf(),
        ids_disjoint(*old(space), *old(reg)),
    ensures
        final(reg).wf(),
        final(space).wf(),
        ids_disjoint(*final(space), *final(reg)),
        ok == (segment_of(*old(space), *old(reg), shmid) matches Some(seg) && offset + data@.len() <= seg.size),
        !ok ==> *final(reg) == *old(reg) && *final(space) == *old(space),
        ok ==> {
            &&& segment_of(*final(space), *final(reg), shmid) is Some
            &&& segment_of(*final(space), *final(reg), shmid).unwrap().content@
                == spliced(segment_of(*old(space), *old(reg), shmid).unwrap().content@, offset as int, data@)
            &&& final(space).regions == old(space).regions
            &&& final(reg).key_to_id@ == old(reg).key_to_id@
            &&& final(reg).next_id == old(reg).next_id
            &&& if old(space).private_shm@.contains_key(shmid) {
                written(old(space).private_shm@, final(space).private_shm@, shmid, offset as int, data@)
                    && final(reg).segments@ == old(reg).segments@
            } else {
                written(old(reg).segments@, final(reg).segments@, shmid, offset as int, data@)
                    && final(space).private_shm@ == old(space).private_shm@
            }
        },
{
    let private = space.private_shm.contains_key(&shmid);
    let size = if private {
        space.private_shm.get(&shmid).unwrap().size
    } else {
        match reg.segments.get(&shmid) {
            Some(seg) => seg.size,
            None => {
                return false;
            },
        }
    };
    if offset > size || data.len() > size - offset {
        return false;
    }
    if private {
        write_into(&mut space.private_shm, shmid, offset, data);
    } else {
        write_into(&mut reg.segments, shmid, offset, data);
    }
    true
}

/// A copy of the content of segment `shmid`, as seen from `space`.
pub fn shm_read(reg: &ShmRegistry, space: &AddressSpace, shmid: i32) -> (r: Option<Vec<u8>>)
    requires
        reg.wf(),
        space.wf(),
    ensures
        r is Some <==> segment_of(*space, *reg, shmid) is Some,
        r matches Some(v) ==> v@ == segment_of(*space, *reg, shmid).unwrap().content@,
{
    let seg = match space.private_shm.get(&shmid) {
        Some(seg) => seg,
        None => match reg.segments.get(&shmid) {
            Some(seg) => seg,
            None => {
                return None;
            },
        },
    };
    let mut out: Vec<u8> = Vec::new();
    let mut i: usize = 0;
    while i < seg.content.len()
        invariant
            i <= seg.content@.len(),
            out@ == seg.content@.subrange(0, i as int),
        decreases seg.content@.len() - i,
    {
        out.push(seg.content[i]);
        i += 1;
        assert(out@ =~= seg.content@.subrange(0, i as int));
    }
    assert(out@ =~= seg.content@);
    Some(out)
}

} // verus!
