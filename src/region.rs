//! Region descriptors and the page-level view of a sequence of them.
use vstd::prelude::*;
use crate::consts::{PAGE_SIZE, USER_MEM_END, USER_MEM_START};

verus! {

/// Access rights of a mapped page.
#[derive(Clone, Copy, Debug, PartialEq, Eq, Structural)]
pub struct MapPerm {
    pub read: bool,
    pub write: bool,
    pub execute: bool,
    pub user: bool,
}

/// Where the content of a region comes from. Offsets are those of the
/// region's first page.
#[derive(Clone, Copy, Debug, PartialEq, Eq, Structural)]
pub enum Backing {
    /// Zero-filled memory.
    Anonymous,
    /// Read lazily from an open file, starting at a byte offset.
    File { handle: u64, offset: u64 },
    /// An attachment of a shared-memory segment, starting at a byte offset in it.
    Shared { shmid: i32, shm_offset: usize },
}

/// One mapped range `[start, end)` with uniform rights and one backing source.
#[derive(Clone, Copy, Debug, PartialEq, Eq, Structural)]
pub struct Region {
    pub start: usize,
    pub end: usize,
    pub perm: MapPerm,
    pub backing: Backing,
}

/// Where the content of a single page comes from.
pub enum PageSource {
    Zero,
    File { handle: u64, offset: int },
    Shared { shmid: i32, offset: int },
}

/// What one mapped page is: its rights and its source.
pub struct Page {
    pub perm: MapPerm,
    pub source: PageSource,
}

pub open spec fn aligned(x: int) -> bool {
    x % (PAGE_SIZE as int) == 0
}

impl Region {
    /// Page-aligned, non-empty, inside the user window, and every offset of its
    /// pages fits the backing's offset type.
    pub open spec fn wf(&self) -> bool {
        &&& aligned(self.start as int)
        &&& aligned(self.end as int)
        &&& USER_MEM_START <= self.start < self.end <= USER_MEM_END
        &&& match self.backing {
            Backing::Anonymous => true,
            Backing::File { offset, .. } => offset + (self.end - self.start) <= u64::MAX,
            Backing::Shared { shm_offset, .. } => shm_offset + (self.end - self.start) <= usize::MAX,
        }
    }

    pub open spec fn contains(&self, p: int) -> bool {
        self.start <= p < self.end
    }

    /// The page at address `p` of this region.
    pub open spec fn page_at(&self, p: int) -> Page {
        Page {
            perm: self.perm,
            source: match self.backing {
                Backing::Anonymous => PageSource::Zero,
                Backing::File { handle, offset } => PageSource::File {
                    handle,
                    offset: offset + (p - self.start),
                },
                Backing::Shared { shmid, shm_offset } => PageSource::Shared {
                    shmid,
                    offset: shm_offset + (p - self.start),
                },
            },
        }
    }

    /// The part `[lo, hi)` of this region, with the same pages.
    pub fn slice(&self, lo: usize, hi: usize) -> (r: Region)
        requires
            self.wf(),
            self.start <= lo < hi <= self.end,
            aligned(lo as int),
            aligned(hi as int),
        ensures
            r.wf(),
            r.start == lo,
            r.end == hi,
            r.perm == self.perm,
            forall|p: int| lo <= p < hi ==> #[trigger] r.page_at(p) == self.page_at(p),
    {
        let backing = match self.backing {
            Backing::Anonymous => Backing::Anonymous,
            Backing::File { handle, offset } => Backing::File {
                handle,
                offset: offset + (lo - self.start) as u64,
            },
            Backing::Shared { shmid, shm_offset } => Backing::Shared {
                shmid,
                shm_offset: shm_offset + (lo - self.start),
            },
        };
        Region { start: lo, end: hi, perm: self.perm, backing }
    }
}

/// The page at address `p` in a sequence of regions; a later region covers an
/// earlier one.
pub open spec fn lookup(s: Seq<Region>, p: int) -> Option<Page>
    decreases s.len(),
{
    if s.len() == 0 {
        None
    } else if s.last().contains(p) {
        Some(s.last().page_at(p))
    } else {
        lookup(s.drop_last(), p)
    }
}

/// Every region is well formed, and they come in ascending, disjoint order.
pub open spec fn sorted_regions(s: Seq<Region>) -> bool {
    &&& forall|k: int| 0 <= k < s.len() ==> (#[trigger] s[k]).wf()
    &&& forall|a: int, b: int| 0 <= a < b < s.len() ==> (#[trigger] s[a]).end <= (#[trigger] s[b]).start
}

/// No page of `[a, b)` is mapped.
pub open spec fn is_free(s: Seq<Region>, a: int, b: int) -> bool {
    forall|p: int| a <= p < b ==> #[trigger] lookup(s, p) is None
}

pub proof fn lemma_lookup_push(s: Seq<Region>, x: Region, p: int)
    ensures
        lookup(s.push(x), p) == if x.contains(p) { Some(x.page_at(p)) } else { lookup(s, p) },
{
    assert(s.push(x).drop_last() =~= s);
}

pub proof fn lemma_lookup_take(s: Seq<Region>, i: int, p: int)
    requires
        0 <= i < s.len(),
    ensures
        lookup(s.take(i + 1), p) == if s[i].contains(p) { Some(s[i].page_at(p)) } else {
            lookup(s.take(i), p)
        },
{
    assert(s.take(i + 1).drop_last() =~= s.take(i));
}

/// A page inside some region is mapped.
pub proof fn lemma_lookup_some(s: Seq<Region>, k: int, p: int)
    requires
        0 <= k < s.len(),
        s[k].contains(p),
    ensures
        lookup(s, p) is Some,
    decreases s.len(),
{
    if k < s.len() - 1 && !s.last().contains(p) {
        lemma_lookup_some(s.drop_last(), k, p);
    }
}

/// A page outside every region is not mapped.
pub proof fn lemma_lookup_none(s: Seq<Region>, p: int)
    requires
        forall|k: int| 0 <= k < s.len() ==> !(#[trigger] s[k]).contains(p),
    ensures
        lookup(s, p) is None,
    decreases s.len(),
{
    if s.len() > 0 {
        assert(!s[s.len() - 1].contains(p));
        assert forall|k: int| 0 <= k < s.drop_last().len() implies !(#[trigger] s.drop_last()[k]).contains(p) by {
            assert(s.drop_last()[k] == s[k]);
        }
        lemma_lookup_none(s.drop_last(), p);
    }
}

/// In a sorted sequence, the page at `p` is the one of the region containing it.
pub proof fn lemma_lookup_in(s: Seq<Region>, k: int, p: int)
    requires
        sorted_regions(s),
        0 <= k < s.len(),
        s[k].contains(p),
    ensures
        lookup(s, p) == Some(s[k].page_at(p)),
    decreases s.len(),
{
    if k < s.len() - 1 {
        assert(s[k].end <= s[s.len() - 1].start);
        let t = s.drop_last();
        assert forall|a: int, b: int| 0 <= a < b < t.len() implies (#[trigger] t[a]).end <= (#[trigger] t[b]).start by {
            assert(t[a] == s[a] && t[b] == s[b]);
        }
        assert(t[k] == s[k]);
        lemma_lookup_in(t, k, p);
    }
}

/// A mapped page lies in some region.
pub proof fn lemma_lookup_region(s: Seq<Region>, p: int) -> (k: int)
    requires
        lookup(s, p) is Some,
    ensures
        0 <= k < s.len(),
        s[k].contains(p),
        lookup(s, p) == Some(s[k].page_at(p)),
    decreases s.len(),
{
    if s.last().contains(p) {
        s.len() - 1
    } else {
        let k = lemma_lookup_region(s.drop_last(), p);
        assert(s.drop_last()[k] == s[k]);
        k
    }
}

} // verus!
