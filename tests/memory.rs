use axstarry::consts::{
    EEXIST, EGENERIC, EINVAL, ENOENT, ENOMEM, IPC_CREAT, IPC_EXCL, MAP_ANONYMOUS, MAP_FIXED,
    MAX_HEAP_SIZE, MMAP_AREA_START, PAGE_SIZE, PROT_EXEC, PROT_READ, PROT_WRITE, SHM_RDONLY,
    SHM_REMAP, SHM_RND,
};
use axstarry::heap::HeapTracker;
use axstarry::region::{Backing, MapPerm, Region};
use axstarry::shm::{Segment, ShmRegistry};
use axstarry::space::{page_span, AddressSpace};
use axstarry::syscall::{
    perm_from_prot, shm_read, shm_write, syscall_brk, syscall_mmap, syscall_mprotect, syscall_msync, syscall_munmap,
    syscall_shmat, syscall_shmget, Descriptor,
};

const RW: u32 = PROT_READ | PROT_WRITE;

fn perm(read: bool, write: bool, execute: bool) -> MapPerm {
    MapPerm { read, write, execute, user: true }
}

fn no_fds() -> Vec<Option<Descriptor>> {
    Vec::new()
}

fn anon(space: &mut AddressSpace, start: usize, len: usize, prot: u32, fixed: bool) -> isize {
    let flags = MAP_ANONYMOUS | if fixed { MAP_FIXED } else { 0 };
    syscall_mmap(space, &no_fds(), start, len, prot, flags, -1, 0)
}

#[test]
fn brk_query_and_move() {
    let mut heap = HeapTracker::new(0x10000);
    assert_eq!(syscall_brk(&mut heap, 0), 0x10000);
    assert_eq!(syscall_brk(&mut heap, 0x12000), 0x12000);
    assert_eq!(heap.top, 0x12000);
    assert_eq!(syscall_brk(&mut heap, 0x10000 + MAX_HEAP_SIZE), (0x10000 + MAX_HEAP_SIZE) as isize);
}

#[test]
fn brk_out_of_range_keeps_top() {
    let mut heap = HeapTracker::new(0x10000);
    assert_eq!(syscall_brk(&mut heap, 0x11000), 0x11000);
    assert_eq!(syscall_brk(&mut heap, 0x10000 + MAX_HEAP_SIZE + 1), 0x11000);
    assert_eq!(syscall_brk(&mut heap, 0xffff), 0x11000);
    assert_eq!(heap.top, 0x11000);
    assert_eq!(heap.bottom, 0x10000);
}

#[test]
fn mmap_fixed_null_is_invalid() {
    let mut space = AddressSpace::new();
    assert_eq!(anon(&mut space, 0, 0x1000, RW, true), EINVAL);
    let fds = vec![Some(Descriptor::File { handle: 7 })];
    assert_eq!(syscall_mmap(&mut space, &fds, 0, 0x2000, PROT_READ, MAP_FIXED, 0, 0), EINVAL);
    assert!(space.regions.is_empty());
}

#[test]
fn mmap_argument_errors() {
    let mut space = AddressSpace::new();
    assert_eq!(syscall_mmap(&mut space, &no_fds(), 0, 0x1000, RW, MAP_ANONYMOUS, 3, 0), EINVAL);
    assert_eq!(syscall_mmap(&mut space, &no_fds(), 0, 0x1000, RW, MAP_ANONYMOUS, -1, 0x1000), EINVAL);
    assert_eq!(syscall_mmap(&mut space, &no_fds(), 0, 0x1000, RW, 0, 0, 0), EINVAL);
    let fds = vec![None, Some(Descriptor::Other)];
    assert_eq!(syscall_mmap(&mut space, &fds, 0, 0x1000, RW, 0, 0, 0), EINVAL);
    assert_eq!(syscall_mmap(&mut space, &fds, 0, 0x1000, RW, 0, 1, 0), EINVAL);
    assert_eq!(syscall_mmap(&mut space, &fds, 0, 0x1000, RW, 0, -1, 0), EINVAL);
    assert_eq!(anon(&mut space, 0, 0, RW, false), EINVAL);
    assert_eq!(anon(&mut space, 0x10_0800, 0x1000, RW, true), EINVAL);
    assert_eq!(anon(&mut space, 0x10_0000, usize::MAX, RW, false), ENOMEM);
    assert!(space.regions.is_empty());
}

#[test]
fn mmap_anonymous_first_fit() {
    let mut space = AddressSpace::new();
    let a = anon(&mut space, 0, 0x1800, RW, false);
    assert_eq!(a, MMAP_AREA_START as isize);
    let b = anon(&mut space, 0, 0x1000, PROT_READ, false);
    assert_eq!(b, (MMAP_AREA_START + 0x2000) as isize);
    assert_eq!(space.regions.len(), 2);
    assert_eq!(space.regions[0].end, MMAP_AREA_START + 0x2000);
    assert_eq!(space.regions[0].perm, perm(true, true, false));
    assert_eq!(space.regions[0].backing, Backing::Anonymous);
    // a hint is rounded up and scanned upward from
    let c = anon(&mut space, 0x30_0001, 0x1000, RW, false);
    assert_eq!(c, 0x30_1000);
}

#[test]
fn mmap_then_munmap_leaves_nothing() {
    let mut space = AddressSpace::new();
    let a = anon(&mut space, 0, 0x3000, RW, false);
    assert!(a > 0);
    assert_eq!(syscall_munmap(&mut space, a as usize, 0x3000), 0);
    assert!(space.regions.is_empty());
    assert_eq!(syscall_munmap(&mut space, a as usize, 0x3000), 0);
}

#[test]
fn munmap_middle_splits() {
    let mut space = AddressSpace::new();
    assert_eq!(anon(&mut space, 0x10_0000, 0x4000, RW, true), 0x10_0000);
    assert_eq!(syscall_munmap(&mut space, 0x10_1000, 0x2000), 0);
    assert_eq!(space.regions.len(), 2);
    assert_eq!((space.regions[0].start, space.regions[0].end), (0x10_0000, 0x10_1000));
    assert_eq!((space.regions[1].start, space.regions[1].end), (0x10_3000, 0x10_4000));
}

#[test]
fn mmap_fixed_replaces_overlap() {
    let mut space = AddressSpace::new();
    assert_eq!(anon(&mut space, 0x10_0000, 0x4000, RW, true), 0x10_0000);
    assert_eq!(anon(&mut space, 0x10_1000, 0x1000, PROT_EXEC, true), 0x10_1000);
    assert_eq!(space.regions.len(), 3);
    assert_eq!(space.regions[1].perm, perm(false, false, true));
    assert_eq!(space.regions[2].start, 0x10_2000);
    assert_eq!(space.regions[2].perm, perm(true, true, false));
}

#[test]
fn mprotect_strict_subrange_splits() {
    let mut space = AddressSpace::new();
    assert_eq!(anon(&mut space, 0x10_0000, 0x4000, RW, true), 0x10_0000);
    assert_eq!(syscall_mprotect(&mut space, 0x10_1000, 0x2000, PROT_READ), 0);
    assert_eq!(space.regions.len(), 3);
    assert_eq!((space.regions[0].start, space.regions[0].end), (0x10_0000, 0x10_1000));
    assert_eq!(space.regions[0].perm, perm(true, true, false));
    assert_eq!((space.regions[1].start, space.regions[1].end), (0x10_1000, 0x10_3000));
    assert_eq!(space.regions[1].perm, perm(true, false, false));
    assert_eq!((space.regions[2].start, space.regions[2].end), (0x10_3000, 0x10_4000));
    assert_eq!(space.regions[2].perm, perm(true, true, false));
}

#[test]
fn mprotect_file_mapping_keeps_offsets() {
    let mut space = AddressSpace::new();
    let fds = vec![Some(Descriptor::File { handle: 9 })];
    assert_eq!(syscall_mmap(&mut space, &fds, 0x10_0000, 0x3000, RW, MAP_FIXED, 0, 0x5000), 0x10_0000);
    assert_eq!(syscall_mprotect(&mut space, 0x10_1000, 0x1000, PROT_READ), 0);
    assert_eq!(space.regions[1].backing, Backing::File { handle: 9, offset: 0x6000 });
    assert_eq!(space.regions[2].backing, Backing::File { handle: 9, offset: 0x7000 });
}

#[test]
fn msync_writes_pages_at_file_offsets() {
    let mut space = AddressSpace::new();
    let fds = vec![None, Some(Descriptor::File { handle: 4 })];
    let a = syscall_mmap(&mut space, &fds, 0, 0x3000, RW, 0, 1, 0x2000);
    assert!(a > 0);
    let b = anon(&mut space, 0, 0x1000, RW, false);
    assert!(b > 0);
    let plan = syscall_msync(&space, a as usize + 0x1000, 0x1000);
    assert_eq!(plan.len(), 1);
    assert_eq!(plan[0].handle, 4);
    assert_eq!(plan[0].addr, a as usize + 0x1000);
    assert_eq!(plan[0].file_offset, 0x2000 + 0x1000);
    assert_eq!(plan[0].len, 0x1000);
    let all = syscall_msync(&space, a as usize, 0x10000);
    assert_eq!(all.len(), 1);
    assert_eq!(all[0].len, 0x3000);
    assert_eq!(all[0].file_offset, 0x2000);
    assert!(syscall_msync(&space, b as usize, 0x1000).is_empty());
}

#[test]
fn page_span_rounds_outward() {
    assert_eq!(page_span(0x10_0010, 0x10), (0x10_0000, 0x10_1000));
    assert_eq!(page_span(0x10_0000, 0x1000), (0x10_0000, 0x10_1000));
}

#[test]
fn perm_bits() {
    assert_eq!(perm_from_prot(PROT_READ | PROT_EXEC), perm(true, false, true));
    assert_eq!(perm_from_prot(0), perm(false, false, false));
}

#[test]
fn region_slice_shifts_offset() {
    let r = Region {
        start: 0x10_0000,
        end: 0x10_4000,
        perm: perm(true, false, false),
        backing: Backing::Shared { shmid: 3, shm_offset: 0x1000 },
    };
    let s = r.slice(0x10_2000, 0x10_3000);
    assert_eq!(s.backing, Backing::Shared { shmid: 3, shm_offset: 0x3000 });
    assert_eq!(s.start, 0x10_2000);
}

#[test]
fn segment_create_rounds_size() {
    let seg = Segment::create(5, 9, 10, 1, 0o600).unwrap();
    assert_eq!(seg.size, PAGE_SIZE);
    assert_eq!(seg.content.len(), PAGE_SIZE);
    assert!(seg.content.iter().all(|b| *b == 0));
    assert!(Segment::create(5, 9, 0, 1, 0o600).is_none());
}

#[test]
fn shmget_exclusive_twice() {
    let mut reg = ShmRegistry::new();
    let mut space = AddressSpace::new();
    let flags = IPC_CREAT | IPC_EXCL | 0o666;
    let id = syscall_shmget(&mut reg, &mut space, 1, 42, 4096, flags);
    assert!(id >= 1);
    assert_eq!(syscall_shmget(&mut reg, &mut space, 1, 42, 4096, flags), EEXIST);
    assert_eq!(syscall_shmget(&mut reg, &mut space, 1, 42, 4096, IPC_CREAT), id);
    assert_eq!(syscall_shmget(&mut reg, &mut space, 1, 42, 4096, 0), id);
    let seg = reg.segments.get(&(id as i32)).unwrap();
    assert_eq!(seg.mode, 0o666);
    assert_eq!(seg.key, 42);
}

#[test]
fn shmget_missing_key_without_create() {
    let mut reg = ShmRegistry::new();
    let mut space = AddressSpace::new();
    assert_eq!(syscall_shmget(&mut reg, &mut space, 1, 77, 4096, 0o600), ENOENT);
    assert!(reg.segments.is_empty());
}

#[test]
fn shmget_private_and_errors() {
    let mut reg = ShmRegistry::new();
    let mut space = AddressSpace::new();
    let a = syscall_shmget(&mut reg, &mut space, 1, 0, 100, 0o600);
    let b = syscall_shmget(&mut reg, &mut space, 1, 0, 100, 0o600);
    assert!(a >= 1 && b >= 1 && a != b);
    assert_eq!(space.private_shm.len(), 2);
    assert!(reg.key_to_id.is_empty());
    assert_eq!(syscall_shmget(&mut reg, &mut space, 1, 5, 0, IPC_CREAT), EGENERIC);
    assert_eq!(syscall_shmget(&mut reg, &mut space, 1, 5, 4096, 0o100000), EGENERIC);
}

#[test]
fn shmat_auto_address_is_aligned_and_disjoint() {
    let mut reg = ShmRegistry::new();
    let mut space = AddressSpace::new();
    let id = syscall_shmget(&mut reg, &mut space, 1, 11, 0x2000, IPC_CREAT | 0o600) as i32;
    let a = syscall_shmat(&mut reg, &mut space, id, 0, 0);
    let b = syscall_shmat(&mut reg, &mut space, id, 0, SHM_RDONLY);
    assert!(a > 0 && b > 0);
    assert_eq!(a as usize % PAGE_SIZE, 0);
    assert_eq!(b as usize % PAGE_SIZE, 0);
    assert!(a + 0x2000 <= b || b + 0x2000 <= a);
    assert_eq!(reg.segments.get(&id).unwrap().attach_count, 2);
    assert_eq!(space.regions[1].perm, perm(true, false, false));
    assert_eq!(space.regions[0].perm, perm(true, true, false));
}

#[test]
fn shmat_errors() {
    let mut reg = ShmRegistry::new();
    let mut space = AddressSpace::new();
    assert_eq!(syscall_shmat(&mut reg, &mut space, 3, 0, 0), EINVAL);
    let id = syscall_shmget(&mut reg, &mut space, 1, 0, 0x1000, 0o600) as i32;
    assert_eq!(syscall_shmat(&mut reg, &mut space, id, 0x10_0010, 0), EINVAL);
    assert_eq!(syscall_shmat(&mut reg, &mut space, id, 0x10_0010, SHM_RND), 0x10_1000);
    assert_eq!(syscall_shmat(&mut reg, &mut space, id, 0x10_1000, 0), EINVAL);
    assert_eq!(syscall_shmat(&mut reg, &mut space, id, 0x10_1000, SHM_REMAP), 0x10_1000);
    assert_eq!(space.regions.len(), 1);
    assert_eq!(space.private_shm.get(&id).unwrap().attach_count, 2);
    assert_eq!(syscall_shmat(&mut reg, &mut space, id, 0, 1), EINVAL);
}

#[test]
fn private_segment_keeps_content_across_attaches() {
    let mut reg = ShmRegistry::new();
    let mut space = AddressSpace::new();
    let id = syscall_shmget(&mut reg, &mut space, 1, 0, 4096, 0o600);
    assert!(id >= 1);
    let id = id as i32;
    let a = syscall_shmat(&mut reg, &mut space, id, 0, 0);
    assert!(a > 0);
    let pattern: Vec<u8> = (0..64u32).map(|i| (i * 7 % 251) as u8).collect();
    assert!(shm_write(&mut reg, &mut space, id, 128, &pattern));
    let b = syscall_shmat(&mut reg, &mut space, id, 0, 0);
    assert!(b > 0 && b != a);
    let content = shm_read(&reg, &space, id).unwrap();
    assert_eq!(content.len(), 4096);
    assert_eq!(&content[128..192], &pattern[..]);
    assert!(content[..128].iter().all(|x| *x == 0));
    assert_eq!(space.private_shm.get(&id).unwrap().attach_count, 2);
}

#[test]
fn shm_write_out_of_bounds_or_unknown() {
    let mut reg = ShmRegistry::new();
    let mut space = AddressSpace::new();
    let id = syscall_shmget(&mut reg, &mut space, 1, 8, 4096, IPC_CREAT | 0o600) as i32;
    assert!(!shm_write(&mut reg, &mut space, id, 4090, &vec![1u8; 7]));
    assert!(!shm_write(&mut reg, &mut space, id + 1, 0, &vec![1u8; 1]));
    assert!(shm_write(&mut reg, &mut space, id, 4089, &vec![1u8; 7]));
    assert!(shm_read(&reg, &space, id + 1).is_none());
    assert_eq!(shm_read(&reg, &space, id).unwrap()[4095], 1);
}

#[test]
fn mmap_fixed_outside_window_is_enomem() {
    let mut space = AddressSpace::new();
    assert_eq!(anon(&mut space, axstarry::consts::USER_MEM_END - 0x1000, 0x2000, RW, true), ENOMEM);
    assert!(space.regions.is_empty());
}

#[test]
fn shmat_saturated_count_is_enomem() {
    let mut reg = ShmRegistry::new();
    let mut space = AddressSpace::new();
    let mut seg = Segment::create(1, 0, 4096, 1, 0o600).unwrap();
    seg.attach_count = usize::MAX;
    space.private_shm.insert(1, seg);
    reg.next_id = 2;
    assert_eq!(syscall_shmat(&mut reg, &mut space, 1, 0, 0), ENOMEM);
    assert!(space.regions.is_empty());
}

#[test]
fn empty_range_touches_nothing() {
    let mut space = AddressSpace::new();
    let fds = vec![Some(Descriptor::File { handle: 2 })];
    assert_eq!(syscall_mmap(&mut space, &fds, 0x10_0000, 0x1000, RW, MAP_FIXED, 0, 0), 0x10_0000);
    assert_eq!(syscall_mprotect(&mut space, 0x10_0800, 0, PROT_READ), 0);
    assert_eq!(space.regions[0].perm, perm(true, true, false));
    assert!(syscall_msync(&space, 0x10_0800, 0).is_empty());
    assert_eq!(syscall_munmap(&mut space, 0x10_0800, 0), 0);
    assert_eq!(space.regions.len(), 1);
    assert_eq!(page_span(0x10_0800, 0), (0x10_0000, 0x10_0000));
}
