//! Facts that relate several calls: mapping then unmapping, unmapping what is
//! not mapped, protecting part of a mapping, creating a key twice, attaching
//! twice, flushing a file mapping, and reattaching a written segment.
use vstd::prelude::*;
use crate::consts::{IPC_CREAT, IPC_EXCL, PAGE_SIZE, USER_MEM_END, USER_MEM_START};
use crate::region::{aligned, lemma_lookup_region, lemma_lookup_some, Backing, Page, Region};
use crate::shm::{page_round, segment_size_ok, ShmRegistry};
use crate::space::{
    file_backed, free_at, is_writeback_plan, protected, replaced, span_hi, span_lo, writes_to, AddressSpace, WriteBack,
};
use crate::syscall::{
    attached, has_flag, spliced, is_replacement, mmap_region, prot_perm, segment_of, shmget_creates,
    shmget_flags_ok, shmget_result,
};

verus! {

proof fn lemma_span_of_mapping(r: int, len: int)
    requires
        aligned(r),
        USER_MEM_START <= r,
        0 < len,
        r + page_round(len) <= USER_MEM_END,
    ensures
        span_lo(r, len) == r,
        span_hi(r, len) == r + page_round(len),
{
    assert((r + len) % (PAGE_SIZE as int) == len % (PAGE_SIZE as int)) by (nonlinear_arith)
        requires
            r % 4096 == 0,
    {
        assert(r == (r / 4096) * 4096);
    }
}

/// Unmapping exactly the range that a mapping returned leaves no page of it
/// mapped; where the mapping was placed in free space, the address space is
/// back to what it was before the mapping.
pub proof fn lemma_mmap_then_munmap(s0: AddressSpace, s1: AddressSpace, s2: AddressSpace, r: int, len: usize, region: Region)
    requires
        aligned(r),
        USER_MEM_START <= r,
        0 < len,
        r + page_round(len as int) <= USER_MEM_END,
        is_replacement(s0, s1, r, r + page_round(len as int), Some(region)),
        is_replacement(s1, s2, span_lo(r, len as int), span_hi(r, len as int), None),
    ensures
        forall|p: int| r <= p < r + len ==> #[trigger] s2.page(p) is None,
        free_at(s0.regions@, r, page_round(len as int)) ==> forall|p: int| #[trigger] s2.page(p) == s0.page(p),
{
    lemma_span_of_mapping(r, len as int);
    assert forall|p: int| r <= p < r + len implies #[trigger] s2.page(p) is None by {
        assert(s2.page(p) == replaced(s1.page(p), p, r, r + page_round(len as int), None));
    }
    if free_at(s0.regions@, r, page_round(len as int)) {
        assert forall|p: int| #[trigger] s2.page(p) == s0.page(p) by {
            assert(s1.page(p) == replaced(s0.page(p), p, r, r + page_round(len as int), Some(region)));
            assert(s2.page(p) == replaced(s1.page(p), p, r, r + page_round(len as int), None));
        }
    }
}

/// Changing the rights of a page-aligned strict part of a mapped region gives
/// exactly that part the new rights; the rest of the region keeps its pages,
/// and the regions stay sorted and disjoint.
pub proof fn lemma_mprotect_splits(s1: AddressSpace, s2: AddressSpace, region: Region, lo: usize, len: usize, prot: u32)
    requires
        s1.wf(),
        region.wf(),
        forall|p: int| region.contains(p) ==> #[trigger] s1.page(p) == Some(region.page_at(p)),
        region.start <= lo,
        lo + len <= region.end,
        0 < len,
        region.start < lo || lo + len < region.end,
        aligned(lo as int),
        aligned(lo + len),
        s2.wf(),
        forall|p: int| #[trigger] s2.page(p) == protected(s1.page(p), p, span_lo(lo as int, len as int), span_hi(lo as int, len as int), prot_perm(prot)),
    ensures
        s2.wf(),
        forall|p: int| lo <= p < lo + len ==> #[trigger] s2.page(p) == Some(Page { perm: prot_perm(prot), source: region.page_at(p).source }),
        forall|p: int| region.contains(p) && !(lo <= p < lo + len) ==> #[trigger] s2.page(p) == Some(region.page_at(p)),
{
    assert(span_lo(lo as int, len as int) == lo);
    assert(span_hi(lo as int, len as int) == lo + len);
    assert forall|p: int| lo <= p < lo + len implies #[trigger] s2.page(p) == Some(Page { perm: prot_perm(prot), source: region.page_at(p).source }) by {
        assert(s1.page(p) == Some(region.page_at(p)));
    }
    assert forall|p: int| region.contains(p) && !(lo <= p < lo + len) implies #[trigger] s2.page(p) == Some(region.page_at(p)) by {
        assert(s1.page(p) == Some(region.page_at(p)));
    }
}

/// Creating a fresh key exclusively succeeds with a new id, and a second
/// exclusive create of the same key then fails with `EEXIST`.
pub proof fn lemma_exclusive_create_twice(reg1: ShmRegistry, reg2: ShmRegistry, key: i32, size1: usize, size2: usize, flags: i32)
    requires
        reg1.wf(),
        key != 0,
        shmget_flags_ok(flags),
        has_flag(flags, IPC_CREAT),
        has_flag(flags, IPC_EXCL),
        !reg1.key_to_id@.contains_key(key),
        segment_size_ok(size1 as int),
        reg1.next_id < i32::MAX,
        reg2.key_to_id@ == reg1.key_to_id@.insert(key, shmget_result(reg1, key, size1, flags) as i32),
    ensures
        shmget_creates(reg1, key, size1, flags),
        shmget_result(reg1, key, size1, flags) >= 1,
        shmget_result(reg2, key, size2, flags) == crate::consts::EEXIST,
{
    assert(reg2.key_to_id@.contains_key(key));
}

/// Two attachments of one segment, the second placed in space that was free
/// after the first, never overlap.
pub proof fn lemma_attach_twice_disjoint(
    s0: AddressSpace,
    reg0: ShmRegistry,
    s1: AddressSpace,
    reg1: ShmRegistry,
    shmid: i32,
    a1: int,
    a2: int,
    flags: i32,
)
    requires
        s0.wf(),
        reg0.wf(),
        segment_of(s0, reg0, shmid) is Some,
        attached(s0, reg0, s1, reg1, shmid, a1, flags),
        free_at(s1.regions@, a2, segment_of(s1, reg1, shmid).unwrap().size as int),
    ensures
        segment_of(s1, reg1, shmid).unwrap().size == segment_of(s0, reg0, shmid).unwrap().size,
        a1 + segment_of(s0, reg0, shmid).unwrap().size <= a2 || a2 + segment_of(s0, reg0, shmid).unwrap().size <= a1,
{
    let size = segment_of(s0, reg0, shmid).unwrap().size as int;
    assert(segment_of(s1, reg1, shmid).unwrap().size == size);
    assert(size > 0);
    if !(a1 + size <= a2 || a2 + size <= a1) {
        let p = if a1 < a2 { a2 } else { a1 };
        assert(s1.page(p) is Some);
        assert(a2 <= p < a2 + size);
    }
}

/// After a file mapping of `len` bytes at `r` from byte `offset` of file
/// `handle`, a flush that covers page `r + i * PAGE_SIZE` writes it to the file
/// at `offset + i * PAGE_SIZE`.
pub proof fn lemma_msync_reaches_file_offset(
    s0: AddressSpace,
    s1: AddressSpace,
    r: int,
    len: usize,
    prot: u32,
    handle: u64,
    offset: u64,
    lo: int,
    hi: int,
    out: Seq<WriteBack>,
    i: int,
)
    requires
        USER_MEM_START <= r,
        r + page_round(len as int) <= USER_MEM_END,
        is_replacement(s0, s1, r, r + page_round(len as int), Some(mmap_region(r, len, prot, Backing::File { handle, offset }))),
        0 <= i,
        r + i * PAGE_SIZE < r + page_round(len as int),
        lo <= r + i * PAGE_SIZE < hi,
        is_writeback_plan(s1, lo, hi, out),
    ensures
        exists|k: int| 0 <= k < out.len() && (#[trigger] out[k]).covers(r + i * PAGE_SIZE) && out[k].handle == handle
            && out[k].file_offset + (r + i * PAGE_SIZE - out[k].addr) == offset + i * PAGE_SIZE,
{
    let p = r + i * PAGE_SIZE;
    assert(s1.page(p) == Some(mmap_region(r, len, prot, Backing::File { handle, offset }).page_at(p)));
    assert(file_backed(s1.page(p)));
    let k = choose|k: int| 0 <= k < out.len() && (#[trigger] out[k]).covers(p);
    assert(writes_to(s1.page(p), out[k].handle, out[k].file_offset + (p - out[k].addr)));
}

/// Bytes written into a segment are still its content after a later
/// attachment: attaching counts one more user and keeps the bytes, so a
/// segment written through one attachment shows the same bytes through the
/// next.
pub proof fn lemma_written_content_survives_attach(
    s0: AddressSpace,
    reg0: ShmRegistry,
    s1: AddressSpace,
    reg1: ShmRegistry,
    s2: AddressSpace,
    reg2: ShmRegistry,
    shmid: i32,
    offset: int,
    data: Seq<u8>,
    a: int,
    flags: i32,
)
    requires
        segment_of(s0, reg0, shmid) is Some,
        0 <= offset,
        offset + data.len() <= segment_of(s0, reg0, shmid).unwrap().size,
        segment_of(s0, reg0, shmid).unwrap().wf(),
        segment_of(s1, reg1, shmid) is Some,
        segment_of(s1, reg1, shmid).unwrap().content@ == spliced(segment_of(s0, reg0, shmid).unwrap().content@, offset, data),
        attached(s1, reg1, s2, reg2, shmid, a, flags),
    ensures
        segment_of(s2, reg2, shmid) is Some,
        segment_of(s2, reg2, shmid).unwrap().attach_count == segment_of(s1, reg1, shmid).unwrap().attach_count + 1,
        forall|i: int| 0 <= i < data.len() ==> #[trigger] segment_of(s2, reg2, shmid).unwrap().content@[offset + i] == data[i],
{
    assert(segment_of(s2, reg2, shmid).unwrap().content@ == segment_of(s1, reg1, shmid).unwrap().content@);
    assert forall|i: int| 0 <= i < data.len() implies #[trigger] segment_of(s2, reg2, shmid).unwrap().content@[offset + i] == data[i] by {
        assert(spliced(segment_of(s0, reg0, shmid).unwrap().content@, offset, data)[offset + i] == data[offset + i - offset]);
    }
}

proof fn lemma_same_page(x: int, y: int)
    requires
        0 <= x <= y,
        y < x - x % 4096 + 4096,
    ensures
        y - y % 4096 == x - x % 4096,
{
    assert(y - y % 4096 == x - x % 4096) by (nonlinear_arith)
        requires 0 <= x <= y, y < x - x % 4096 + 4096;
}

/// Unmapping a range in which no byte is mapped changes nothing: regions
/// are whole pages, so none of them reaches the pages that the range touches.
pub proof fn lemma_munmap_of_unmapped_range(s1: AddressSpace, s2: AddressSpace, start: usize, len: usize)
    requires
        s1.wf(),
        forall|q: int| start <= q < start + len ==> #[trigger] s1.page(q) is None,
        is_replacement(s1, s2, span_lo(start as int, len as int), span_hi(start as int, len as int), None),
    ensures
        forall|p: int| #[trigger] s2.page(p) == s1.page(p),
{
    let lo = span_lo(start as int, len as int);
    let hi = span_hi(start as int, len as int);
    assert forall|p: int| #[trigger] s2.page(p) == s1.page(p) by {
        if lo <= p < hi && s1.page(p) is Some {
            let k = lemma_lookup_region(s1.regions@, p);
            let r = s1.regions@[k];
            assert(r.wf());
            let q: int = if p < start { start as int } else if p >= start + len { start + len - 1 } else { p };
            assert(r.start <= q < r.end) by {
                assert(start < USER_MEM_END);
                let ps = p - p % 4096;
                assert(r.start <= ps) by (nonlinear_arith)
                    requires r.start % 4096 == 0, r.start <= p, ps == p - p % 4096, 0 <= p;
                assert(ps + 4096 <= r.end) by (nonlinear_arith)
                    requires r.end % 4096 == 0, p < r.end, ps == p - p % 4096, 0 <= p;
                if p < start {
                    lemma_same_page(lo, p);
                    lemma_same_page(lo, start as int);
                } else if p >= start + len {
                    let e = start + len;
                    assert(!aligned(e) && e < USER_MEM_END);
                    assert(hi == e - e % 4096 + 4096);
                    lemma_same_page(e - e % 4096, p);
                    lemma_same_page(e - e % 4096, e - 1);
                }
            }
            lemma_lookup_some(s1.regions@, k, q);
            assert(start <= q < start + len);
            assert(s1.page(q) is Some);
            assert(false);
        } else {
            assert(s2.page(p) == replaced(s1.page(p), p, lo, hi, None));
        }
    }
}

} // verus!
