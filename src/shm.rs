//! Shared-memory segments and the process-wide registry of them.
use vstd::prelude::*;
use std::collections::HashMap;
use crate::consts::{PAGE_SIZE, SHM_SIZE_MAX};
use crate::region::aligned;

verus! {

broadcast use vstd::std_specs::hash::group_hash_axioms;

/// One shared-memory segment: its identity, owner, mode, how many
/// attachments refer to it, and its bytes.
pub struct Segment {
    pub id: i32,
    pub key: i32,
    pub size: usize,
    pub owner_pid: u64,
    pub mode: u16,
    pub attach_count: usize,
    pub content: Vec<u8>,
}

/// `size` rounded up to whole pages.
pub open spec fn page_round(size: int) -> int {
    if aligned(size) { size } else { size - size % (PAGE_SIZE as int) + PAGE_SIZE }
}

/// A segment of `size` bytes can be backed.
pub open spec fn segment_size_ok(size: int) -> bool {
    0 < size <= SHM_SIZE_MAX
}

impl Segment {
    /// The size is whole pages within the backing capacity, and the content
    /// holds exactly that many bytes.
    pub open spec fn wf(&self) -> bool {
        &&& aligned(self.size as int)
        &&& segment_size_ok(self.size as int)
        &&& self.content@.len() == self.size
    }

    /// A fresh, zero-filled segment with these attributes and no attachment.
    pub open spec fn is_fresh(&self, id: i32, key: i32, size: int, pid: u64, mode: u16) -> bool {
        &&& self.id == id
        &&& self.key == key
        &&& self.size == page_round(size)
        &&& self.owner_pid == pid
        &&& self.mode == mode
        &&& self.attach_count == 0
        &&& self.content@ == Seq::new(self.size as nat, |i: int| 0u8)
    }

    /// A zero-filled segment of `size` bytes rounded up to whole pages, or
    /// `None` when that size cannot be backed.
    pub fn create(id: i32, key: i32, size: usize, pid: u64, mode: u16) -> (r: Option<Segment>)
        ensures
            segment_size_ok(size as int) <==> r is Some,
            r matches Some(seg) ==> seg.wf() && seg.is_fresh(id, key, size as int, pid, mode),
    {
        if size == 0 || size > SHM_SIZE_MAX {
            return None;
        }
        let rounded = if size % PAGE_SIZE == 0 { size } else { size - size % PAGE_SIZE + PAGE_SIZE };
        let mut content: Vec<u8> = Vec::new();
        let mut i: usize = 0;
        while i < rounded
            invariant
                i <= rounded,
                content@ == Seq::new(i as nat, |j: int| 0u8),
            decreases rounded - i,
        {
            content.push(0);
            i += 1;
            assert(content@ =~= Seq::new(i as nat, |j: int| 0u8));
        }
        Some(Segment { id, key, size: rounded, owner_pid: pid, mode, attach_count: 0, content })
    }
}

/// The process-wide registry: keys to ids, ids to segments, and the next id
/// to hand out.
pub struct ShmRegistry {
    pub key_to_id: HashMap<i32, i32>,
    pub segments: HashMap<i32, Segment>,
    pub next_id: i32,
}

impl ShmRegistry {
    /// Every key is non-zero and names a live segment carrying that key; every
    /// segment is filed under its own id, below the next id.
    pub open spec fn wf(&self) -> bool {
        &&& 1 <= self.next_id
        &&& forall|key: i32| #[trigger] self.key_to_id@.contains_key(key) ==> {
            &&& key != 0
            &&& self.segments@.contains_key(self.key_to_id@[key])
            &&& self.segments@[self.key_to_id@[key]].key == key
        }
        &&& forall|id: i32| #[trigger] self.segments@.contains_key(id) ==> {
            &&& 1 <= id < self.next_id
            &&& self.segments@[id].id == id
            &&& self.segments@[id].wf()
        }
    }

    /// An empty registry.
    pub fn new() -> (r: Self)
        ensures
            r.wf(),
            r.key_to_id@ == Map::<i32, i32>::empty(),
            r.segments@ == Map::<i32, Segment>::empty(),
            r.next_id == 1,
    {
        ShmRegistry { key_to_id: HashMap::new(), segments: HashMap::new(), next_id: 1 }
    }
}

} // verus!
