//! The address space of one process: an ordered set of disjoint regions, with
//! placement, splitting, protection changes and write-back planning.
use vstd::prelude::*;
use std::collections::HashMap;
use crate::consts::{MMAP_AREA_START, PAGE_SIZE, USER_MEM_END, USER_MEM_START};
use crate::region::{
    aligned, is_free, lemma_lookup_in, lemma_lookup_none, lemma_lookup_push, lemma_lookup_some,
    lemma_lookup_take, lookup, sorted_regions, Backing, MapPerm, Page, PageSource, Region,
};
use crate::shm::Segment;

verus! {

/// The regions of one process, in address order, and the shared-memory
/// segments it created without a key.
pub struct AddressSpace {
    pub regions: Vec<Region>,
    pub private_shm: HashMap<i32, Segment>,
}

/// The page at `p` once the rights of mapped pages in `[lo, hi)` became `perm`.
pub open spec fn protected(old: Option<Page>, p: int, lo: int, hi: int, perm: MapPerm) -> Option<Page> {
    match old {
        Some(pg) => if lo <= p < hi { Some(Page { perm, source: pg.source }) } else { Some(pg) },
        None => None,
    }
}

/// The page at `p` once `[lo, hi)` was cleared and `new`, which covers exactly
/// `[lo, hi)`, if any, was put in its place.
pub open spec fn replaced(old: Option<Page>, p: int, lo: int, hi: int, new: Option<Region>) -> Option<Page> {
    if lo <= p < hi {
        match new {
            Some(r) => Some(r.page_at(p)),
            None => None,
        }
    } else {
        old
    }
}

/// One write-back of mapped memory to its file: `len` bytes from `addr` go to
/// the file `handle` at byte `file_offset`.
#[derive(Clone, Copy, Debug, PartialEq, Eq, Structural)]
pub struct WriteBack {
    pub handle: u64,
    pub file_offset: u64,
    pub addr: usize,
    pub len: usize,
}

impl WriteBack {
    pub open spec fn covers(&self, p: int) -> bool {
        self.addr <= p < self.addr + self.len
    }
}

/// The page at `p` is read from a file.
pub open spec fn file_backed(pg: Option<Page>) -> bool {
    pg matches Some(Page { source: PageSource::File { .. }, .. })
}

/// The page at `p` writes back to file `handle` at byte `offset`.
pub open spec fn writes_to(pg: Option<Page>, handle: u64, offset: int) -> bool {
    pg == Some(Page { perm: pg.unwrap().perm, source: PageSource::File { handle, offset } })
}

/// `out` flushes the file-backed pages of `[lo, hi)` in `space`, in address
/// order: each write-back sends a page to its file at that page's own offset,
/// and every such page is sent once.
pub open spec fn is_writeback_plan(space: AddressSpace, lo: int, hi: int, out: Seq<WriteBack>) -> bool {
    &&& forall|k: int, p: int| 0 <= k < out.len() && (#[trigger] out[k]).covers(p) ==> {
        &&& lo <= p < hi
        &&& writes_to(#[trigger] space.page(p), out[k].handle, out[k].file_offset + (p - out[k].addr))
    }
    &&& forall|p: int| lo <= p < hi && file_backed(#[trigger] space.page(p)) ==> exists|k: int| 0 <= k < out.len() && (#[trigger] out[k]).covers(p)
    &&& forall|a: int, b: int| 0 <= a < b < out.len() ==> (#[trigger] out[a]).addr + out[a].len <= (#[trigger] out[b]).addr
}

/// Lowest page of the span that `[start, start + len)` touches, clipped to the
/// user window.
pub open spec fn span_lo(start: int, len: int) -> int {
    if start >= USER_MEM_END { USER_MEM_END as int } else { start - start % (PAGE_SIZE as int) }
}

/// End of the page span that `[start, start + len)` touches, clipped to the
/// user window; an empty range touches no page.
pub open spec fn span_hi(start: int, len: int) -> int {
    if len == 0 {
        span_lo(start, len)
    } else if start >= USER_MEM_END || start + len >= USER_MEM_END {
        USER_MEM_END as int
    } else if aligned(start + len) {
        start + len
    } else {
        start + len - (start + len) % (PAGE_SIZE as int) + PAGE_SIZE
    }
}

/// The page span `[span_lo, span_hi)` of `len` bytes from `start`; empty when
/// `len` is 0.
pub fn page_span(start: usize, len: usize) -> (r: (usize, usize))
    ensures
        r.0 == span_lo(start as int, len as int),
        r.1 == span_hi(start as int, len as int),
        r.0 <= r.1,
        aligned(r.0 as int),
        aligned(r.1 as int),
{
    if start >= USER_MEM_END {
        (USER_MEM_END, USER_MEM_END)
    } else if len == 0 {
        (start - start % PAGE_SIZE, start - start % PAGE_SIZE)
    } else if len >= USER_MEM_END - start {
        (start - start % PAGE_SIZE, USER_MEM_END)
    } else {
        let x = start + len;
        let hi = if x % PAGE_SIZE == 0 { x } else { x - x % PAGE_SIZE + PAGE_SIZE };
        (start - start % PAGE_SIZE, hi)
    }
}

/// No page of the `len` bytes from `a` is mapped.
pub open spec fn free_at(s: Seq<Region>, a: int, len: int) -> bool {
    is_free(s, a, a + len)
}

/// Where the search for a free range starts: the hint rounded up to a page,
/// never below the user window, or the mapping area when there is no hint.
pub open spec fn search_base(hint: int) -> int {
    if hint == 0 {
        MMAP_AREA_START as int
    } else if hint <= USER_MEM_START {
        USER_MEM_START as int
    } else if hint >= USER_MEM_END {
        USER_MEM_END as int
    } else if aligned(hint) {
        hint
    } else {
        hint - hint % (PAGE_SIZE as int) + PAGE_SIZE
    }
}

proof fn lemma_push_sorted(s: Seq<Region>, x: Region)
    requires
        sorted_regions(s),
        x.wf(),
        forall|k: int| 0 <= k < s.len() ==> (#[trigger] s[k]).end <= x.start,
    ensures
        sorted_regions(s.push(x)),
{
    let t = s.push(x);
    assert forall|a: int, b: int| 0 <= a < b < t.len() implies (#[trigger] t[a]).end <= (#[trigger] t[b]).start by {
        if b < s.len() {
            assert(t[a] == s[a] && t[b] == s[b]);
        } else {
            assert(t[a] == s[a]);
        }
    }
}

impl AddressSpace {
    /// Regions are well formed and sorted; private segments are filed under
    /// their own ids.
    pub open spec fn wf(&self) -> bool {
        &&& sorted_regions(self.regions@)
        &&& forall|id: i32| #[trigger] self.private_shm@.contains_key(id) ==> {
            &&& 1 <= id
            &&& self.private_shm@[id].id == id
            &&& self.private_shm@[id].key == 0
            &&& self.private_shm@[id].wf()
        }
    }

    /// The page mapped at address `p`, if any.
    pub open spec fn page(&self, p: int) -> Option<Page> {
        lookup(self.regions@, p)
    }

    /// An empty address space.
    pub fn new() -> (s: Self)
        ensures
            s.wf(),
            forall|p: int| #[trigger] s.page(p) is None,
            s.private_shm@ == Map::<i32, Segment>::empty(),
    {
        AddressSpace { regions: Vec::new(), private_shm: HashMap::new() }
    }

    /// Clears `[lo, hi)`, splitting the regions that reach into it, and puts
    /// `new` there when given.
    pub fn replace_range(&mut self, lo: usize, hi: usize, new: Option<Region>)
        requires
            old(self).wf(),
            lo <= hi,
            aligned(lo as int),
            aligned(hi as int),
            new matches Some(r) ==> r.wf() && r.start == lo && r.end == hi,
        ensures
            final(self).wf(),
            final(self).private_shm == old(self).private_shm,
            forall|p: int| #[trigger] final(self).page(p) == replaced(old(self).page(p), p, lo as int, hi as int, new),
    {
        let ghost olds = self.regions@;
        let n = self.regions.len();
        let mut out: Vec<Region> = Vec::new();
        let mut i: usize = 0;
        while i < n
            invariant
                n == olds.len(),
                olds == self.regions@,
                sorted_regions(olds),
                lo <= hi,
                aligned(lo as int),
                aligned(hi as int),
                0 <= i <= n,
                sorted_regions(out@),
                forall|k: int| 0 <= k < out.len() ==> (#[trigger] out@[k]).end <= lo,
                forall|k: int, j: int| 0 <= k < out.len() && i <= j < n ==> (#[trigger] out@[k]).end <= (#[trigger] olds[j]).start,
                forall|p: int| #[trigger] lookup(out@, p) == if p < lo { lookup(olds.take(i as int), p) } else { None },
            decreases n - i,
        {
            let r = self.regions[i];
            let ghost before = out@;
            assert(olds[i as int] == r && r.wf());
            if r.start < lo {
                let top = if r.end < lo { r.end } else { lo };
                assert(aligned(top as int));
                let piece = r.slice(r.start, top);
                proof {
                    assert forall|k: int| 0 <= k < out.len() implies (#[trigger] out@[k]).end <= piece.start by {
                        assert(out@[k].end <= olds[i as int].start);
                    }
                    lemma_push_sorted(out@, piece);
                }
                out.push(piece);
            }
            proof {
                assert forall|k: int, j: int| 0 <= k < out.len() && i + 1 <= j < n implies (#[trigger] out@[k]).end <= (#[trigger] olds[j]).start by {
                    if k >= before.len() {
                        assert(olds[i as int].end <= olds[j].start);
                    } else {
                        assert(out@[k] == before[k]);
                    }
                }
                assert forall|p: int| #[trigger] lookup(out@, p) == if p < lo { lookup(olds.take(i + 1), p) } else { None } by {
                    lemma_lookup_take(olds, i as int, p);
                    if out@.len() > before.len() {
                        assert(out@ == before.push(out@.last()));
                        lemma_lookup_push(before, out@.last(), p);
                    }
                }
            }
            i += 1;
        }
        match new {
            Some(r) => {
                proof {
                    lemma_push_sorted(out@, r);
                    assert forall|p: int| #[trigger] lookup(out@.push(r), p) == if p < lo { lookup(olds, p) } else if p < hi { Some(r.page_at(p)) } else { None } by {
                        lemma_lookup_push(out@, r, p);
                        assert(olds.take(n as int) == olds);
                    }
                }
                out.push(r);
            },
            None => {
                proof {
                    assert(olds.take(n as int) == olds);
                }
            },
        }
        let ghost mid = out@;
        assert(forall|p: int| #[trigger] lookup(mid, p) == if p < lo { lookup(olds, p) } else if p < hi { replaced(None, p, lo as int, hi as int, new) } else { None });
        let mut i: usize = 0;
        while i < n
            invariant
                n == olds.len(),
                olds == self.regions@,
                sorted_regions(olds),
                lo <= hi,
                aligned(lo as int),
                aligned(hi as int),
                0 <= i <= n,
                sorted_regions(out@),
                mid.len() <= out.len(),
                forall|k: int| 0 <= k < mid.len() ==> (#[trigger] out@[k]) == mid[k],
                forall|k: int| 0 <= k < mid.len() ==> (#[trigger] mid[k]).end <= hi,
                forall|k: int, j: int| 0 <= k < out.len() && i <= j < n ==> (#[trigger] out@[k]).end <= hi || out@[k].end <= (#[trigger] olds[j]).start,
                forall|p: int| #[trigger] lookup(out@, p) == if p < lo { lookup(olds, p) } else if p < hi {
                    replaced(None, p, lo as int, hi as int, new)
                } else { lookup(olds.take(i as int), p) },
            decreases n - i,
        {
            let r = self.regions[i];
            let ghost before = out@;
            assert(olds[i as int] == r && r.wf());
            if r.end > hi {
                let bot = if r.start > hi { r.start } else { hi };
                assert(aligned(bot as int));
                let piece = r.slice(bot, r.end);
                proof {
                    assert forall|k: int| 0 <= k < out.len() implies (#[trigger] out@[k]).end <= piece.start by {
                        assert(out@[k].end <= hi || out@[k].end <= olds[i as int].start);
                    }
                    lemma_push_sorted(out@, piece);
                }
                out.push(piece);
                proof {
                    assert forall|p: int| #[trigger] lookup(out@, p) == if p < lo { lookup(olds, p) } else if p < hi {
                        replaced(None, p, lo as int, hi as int, new)
                    } else { lookup(olds.take(i + 1), p) } by {
                        lemma_lookup_take(olds, i as int, p);
                        lemma_lookup_push(before, piece, p);
                        if piece.contains(p) {
                            assert(piece.page_at(p) == r.page_at(p));
                        }
                    }
                }
            } else {
                proof {
                    assert forall|p: int| #[trigger] lookup(out@, p) == if p < lo { lookup(olds, p) } else if p < hi {
                        replaced(None, p, lo as int, hi as int, new)
                    } else { lookup(olds.take(i + 1), p) } by {
                        lemma_lookup_take(olds, i as int, p);
                    }
                }
            }
            proof {
                assert forall|k: int, j: int| 0 <= k < out.len() && i + 1 <= j < n implies (#[trigger] out@[k]).end <= hi || out@[k].end <= (#[trigger] olds[j]).start by {
                    if k >= before.len() {
                        assert(olds[i as int].end <= olds[j].start);
                    } else {
                        assert(out@[k] == before[k]);
                        assert(before[k].end <= hi || before[k].end <= olds[i as int].start);
                        assert(olds[i as int].end <= olds[j].start);
                    }
                }
            }
            i += 1;
        }
        proof {
            assert(olds.take(n as int) == olds);
        }
        self.regions = out;
    }

    /// Gives the mapped pages of `[lo, hi)` the rights `perm`, splitting the
    /// regions that straddle either bound; every other page keeps its rights.
    pub fn protect_range(&mut self, lo: usize, hi: usize, perm: MapPerm)
        requires
            old(self).wf(),
            lo <= hi,
            aligned(lo as int),
            aligned(hi as int),
        ensures
            final(self).wf(),
            final(self).private_shm == old(self).private_shm,
            forall|p: int| #[trigger] final(self).page(p) == protected(old(self).page(p), p, lo as int, hi as int, perm),
    {
        let ghost olds = self.regions@;
        let n = self.regions.len();
        let mut out: Vec<Region> = Vec::new();
        let mut i: usize = 0;
        let ghost mut done_end: int = 0;
        while i < n
            invariant
                n == olds.len(),
                olds == self.regions@,
                sorted_regions(olds),
                lo <= hi,
                aligned(lo as int),
                aligned(hi as int),
                0 <= i <= n,
                sorted_regions(out@),
                i == 0 ==> done_end == 0,
                i > 0 ==> done_end == olds[i - 1].end,
                forall|k: int| 0 <= k < out.len() ==> (#[trigger] out@[k]).end <= done_end,
                forall|p: int| #[trigger] lookup(out@, p) == protected(lookup(olds.take(i as int), p), p, lo as int, hi as int, perm),
            decreases n - i,
        {
            let r = self.regions[i];
            assert(olds[i as int] == r && r.wf());
            if i > 0 {
                assert(olds[i - 1].end <= olds[i as int].start);
            }
            let ghost s0 = out@;
            if r.start < lo {
                let top = if r.end < lo { r.end } else { lo };
                assert(aligned(top as int));
                let piece = r.slice(r.start, top);
                proof { lemma_push_sorted(out@, piece); }
                out.push(piece);
                proof {
                    assert forall|p: int| #[trigger] lookup(out@, p) == if piece.contains(p) { Some(r.page_at(p)) } else { lookup(s0, p) } by {
                        lemma_lookup_push(s0, piece, p);
                    }
                }
            }
            let ghost s1 = out@;
            let mid_lo = if r.start < lo { lo } else { r.start };
            let mid_hi = if r.end < hi { r.end } else { hi };
            if mid_lo < mid_hi {
                assert(aligned(mid_lo as int) && aligned(mid_hi as int));
                let part = r.slice(mid_lo, mid_hi);
                let piece = Region { start: part.start, end: part.end, perm, backing: part.backing };
                proof {
                    assert forall|k: int| 0 <= k < out.len() implies (#[trigger] out@[k]).end <= piece.start by {
                        if k >= s0.len() {
                            assert(out@[k].end <= lo);
                        } else {
                            assert(out@[k] == s0[k]);
                        }
                    }
                    lemma_push_sorted(out@, piece);
                }
                out.push(piece);
                proof {
                    assert forall|p: int| #[trigger] lookup(out@, p) == if piece.contains(p) {
                        Some(Page { perm, source: r.page_at(p).source })
                    } else { lookup(s1, p) } by {
                        lemma_lookup_push(s1, piece, p);
                        if piece.contains(p) {
                            assert(part.page_at(p) == r.page_at(p));
                        }
                    }
                }
            }
            let ghost s2 = out@;
            if r.end > hi {
                let bot = if r.start > hi { r.start } else { hi };
                assert(aligned(bot as int));
                let piece = r.slice(bot, r.end);
                proof {
                    assert forall|k: int| 0 <= k < out.len() implies (#[trigger] out@[k]).end <= piece.start by {
                        if k >= s1.len() {
                            assert(out@[k].end <= hi);
                        } else if k >= s0.len() {
                            assert(out@[k] == s1[k]);
                            assert(out@[k].end <= lo);
                        } else {
                            assert(out@[k] == s0[k]);
                        }
                    }
                    lemma_push_sorted(out@, piece);
                }
                out.push(piece);
                proof {
                    assert forall|p: int| #[trigger] lookup(out@, p) == if piece.contains(p) { Some(r.page_at(p)) } else { lookup(s2, p) } by {
                        lemma_lookup_push(s2, piece, p);
                    }
                }
            }
            proof {
                assert forall|k: int| 0 <= k < out.len() implies (#[trigger] out@[k]).end <= r.end by {
                    if k < s0.len() {
                        assert(out@[k] == s0[k]);
                    }
                }
                assert forall|p: int| #[trigger] lookup(out@, p) == protected(lookup(olds.take(i + 1), p), p, lo as int, hi as int, perm) by {
                    lemma_lookup_take(olds, i as int, p);
                    assert(lookup(s0, p) == protected(lookup(olds.take(i as int), p), p, lo as int, hi as int, perm));
                }
                done_end = r.end as int;
            }
            i += 1;
        }
        proof {
            assert(olds.take(n as int) == olds);
        }
        self.regions = out;
    }

    /// First fit: the lowest address from `search_base(hint)` up at which `len`
    /// bytes are unmapped and inside the user window.
    pub fn find_free_area(&self, hint: usize, len: usize) -> (r: Option<usize>)
        requires
            self.wf(),
            len > 0,
        ensures
            r matches Some(a) ==> {
                &&& aligned(a as int)
                &&& search_base(hint as int) <= a
                &&& a + len <= USER_MEM_END
                &&& free_at(self.regions@, a as int, len as int)
                &&& forall|c: int| search_base(hint as int) <= c < a ==> !(#[trigger] free_at(self.regions@, c, len as int))
            },
            r is None ==> forall|c: int| search_base(hint as int) <= c && c + len <= USER_MEM_END ==> !(#[trigger] free_at(self.regions@, c, len as int)),
    {
        let ghost s = self.regions@;
        let base: usize = if hint == 0 {
            MMAP_AREA_START
        } else if hint <= USER_MEM_START {
            USER_MEM_START
        } else if hint >= USER_MEM_END {
            USER_MEM_END
        } else if hint % PAGE_SIZE == 0 {
            hint
        } else {
            hint - hint % PAGE_SIZE + PAGE_SIZE
        };
        assert(base == search_base(hint as int));
        let mut last_end: usize = base;
        let n = self.regions.len();
        let mut i: usize = 0;
        while i < n
            invariant
                s == self.regions@,
                n == s.len(),
                sorted_regions(s),
                len > 0,
                base == search_base(hint as int),
                0 <= i <= n,
                base <= last_end <= USER_MEM_END,
                aligned(last_end as int),
                forall|k: int| 0 <= k < i ==> (#[trigger] s[k]).end <= last_end,
                forall|c: int| base <= c < last_end ==> !(#[trigger] free_at(s, c, len as int)),
            decreases n - i,
        {
            let r = self.regions[i];
            assert(s[i as int] == r && r.wf());
            if last_end <= r.start && len <= r.start - last_end {
                proof {
                    assert forall|p: int| last_end <= p < last_end + len implies #[trigger] lookup(s, p) is None by {
                        assert forall|k: int| 0 <= k < s.len() implies !(#[trigger] s[k]).contains(p) by {
                            if k > i {
                                assert(s[i as int].end <= s[k].start);
                            }
                        }
                        lemma_lookup_none(s, p);
                    }
                }
                return Some(last_end);
            }
            proof {
                assert forall|c: int| base <= c < (if last_end < r.end { r.end as int } else { last_end as int }) implies !(#[trigger] free_at(s, c, len as int)) by {
                    if c >= last_end {
                        let p = if c < r.start { r.start as int } else { c };
                        lemma_lookup_some(s, i as int, p);
                        assert(c <= p < c + len);
                    }
                }
            }
            if last_end < r.end {
                last_end = r.end;
            }
            i += 1;
        }
        if len <= USER_MEM_END - last_end {
            proof {
                assert forall|p: int| last_end <= p < last_end + len implies #[trigger] lookup(s, p) is None by {
                    assert forall|k: int| 0 <= k < s.len() implies !(#[trigger] s[k]).contains(p) by {}
                    lemma_lookup_none(s, p);
                }
            }
            Some(last_end)
        } else {
            None
        }
    }

    /// The write-backs of the file-backed pages in `[lo, hi)`, in address
    /// order: each sends a page to its file at that page's own offset, and every
    /// such page is sent once.
    pub fn writebacks(&self, lo: usize, hi: usize) -> (out: Vec<WriteBack>)
        requires
            self.wf(),
        ensures
            is_writeback_plan(*self, lo as int, hi as int, out@),
    {
        let ghost s = self.regions@;
        let n = self.regions.len();
        let mut out: Vec<WriteBack> = Vec::new();
        let mut i: usize = 0;
        while i < n
            invariant
                s == self.regions@,
                n == s.len(),
                sorted_regions(s),
                0 <= i <= n,
                forall|k: int| 0 <= k < out.len() ==> (#[trigger] out@[k]).addr + out@[k].len <= (if i < n { s[i as int].start as int } else { USER_MEM_END as int }),
                forall|k: int, p: int| 0 <= k < out.len() && (#[trigger] out@[k]).covers(p) ==> {
                    &&& lo <= p < hi
                    &&& writes_to(#[trigger] lookup(s, p), out@[k].handle, out@[k].file_offset + (p - out@[k].addr))
                },
                forall|p: int| lo <= p < hi && (i > 0 && p < s[i - 1].end) && file_backed(#[trigger] lookup(s, p)) ==> exists|k: int| 0 <= k < out.len() && (#[trigger] out@[k]).covers(p),
                forall|a: int, b: int| 0 <= a < b < out.len() ==> (#[trigger] out@[a]).addr + out@[a].len <= (#[trigger] out@[b]).addr,
            decreases n - i,
        {
            let r = self.regions[i];
            assert(s[i as int] == r && r.wf());
            let ghost before = out@;
            let a = if r.start < lo { lo } else { r.start };
            let b = if r.end < hi { r.end } else { hi };
            match r.backing {
                Backing::File { handle, offset } => {
                    if a < b {
                        let w = WriteBack { handle, file_offset: offset + (a - r.start) as u64, addr: a, len: b - a };
                        out.push(w);
                        proof {
                            assert forall|p: int| #[trigger] w.covers(p) implies writes_to(lookup(s, p), w.handle, w.file_offset + (p - w.addr)) by {
                                lemma_lookup_in(s, i as int, p);
                            }
                        }
                    }
                },
                _ => {},
            }
            proof {
                if i + 1 < n {
                    assert(s[i as int].end <= s[i + 1].start);
                }
                assert forall|k: int| 0 <= k < out.len() implies (#[trigger] out@[k]).addr + out@[k].len <= (if i + 1 < n { s[i + 1].start as int } else { USER_MEM_END as int }) by {
                    if k < before.len() {
                        assert(out@[k] == before[k]);
                    }
                }
                assert forall|p: int| lo <= p < hi && p < s[i as int].end && file_backed(#[trigger] lookup(s, p)) implies exists|k: int| 0 <= k < out.len() && (#[trigger] out@[k]).covers(p) by {
                    if i > 0 && p < s[i - 1].end {
                        let k = choose|k: int| 0 <= k < before.len() && (#[trigger] before[k]).covers(p);
                        assert(out@[k] == before[k]);
                    } else if p >= r.start {
                        lemma_lookup_in(s, i as int, p);
                        assert(out@[out.len() - 1].covers(p));
                    } else {
                        assert forall|k: int| 0 <= k < s.len() implies !(#[trigger] s[k]).contains(p) by {
                            if k < i {
                                assert(s[k].end <= s[i - 1].end || k == i - 1);
                                if k < i - 1 {
                                    assert(s[k].end <= s[i - 1].start);
                                }
                            } else if k > i {
                                assert(s[i as int].end <= s[k].start);
                            }
                        }
                        lemma_lookup_none(s, p);
                    }
                }
            }
            i += 1;
        }
        proof {
            assert forall|p: int| lo <= p < hi && file_backed(#[trigger] lookup(s, p)) implies exists|k: int| 0 <= k < out.len() && (#[trigger] out@[k]).covers(p) by {
                if n == 0 || p >= s[n - 1].end {
                    assert forall|k: int| 0 <= k < s.len() implies !(#[trigger] s[k]).contains(p) by {
                        if k < n - 1 {
                            assert(s[k].end <= s[n - 1].start);
                        }
                    }
                    lemma_lookup_none(s, p);
                }
            }
        }
        out
    }

    /// Whether no page of `[lo, hi)` is mapped.
    pub fn range_is_free(&self, lo: usize, hi: usize) -> (r: bool)
        requires
            self.wf(),
        ensures
            r == is_free(self.regions@, lo as int, hi as int),
    {
        let ghost s = self.regions@;
        let n = self.regions.len();
        let mut i: usize = 0;
        while i < n
            invariant
                s == self.regions@,
                n == s.len(),
                sorted_regions(s),
                0 <= i <= n,
                forall|k: int| 0 <= k < i ==> hi <= lo || (#[trigger] s[k]).end <= lo || hi <= s[k].start,
            decreases n - i,
        {
            let r = self.regions[i];
            assert(s[i as int] == r && r.wf());
            if lo < hi && r.start < hi && lo < r.end {
                proof {
                    let p = if r.start < lo { lo as int } else { r.start as int };
                    lemma_lookup_some(s, i as int, p);
                    assert(lo <= p < hi);
                }
                return false;
            }
            i += 1;
        }
        proof {
            assert forall|p: int| lo <= p < hi implies #[trigger] lookup(s, p) is None by {
                assert forall|k: int| 0 <= k < s.len() implies !(#[trigger] s[k]).contains(p) by {}
                lemma_lookup_none(s, p);
            }
        }
        true
    }
}

} // verus!
