//! An append-only arena of node records in fixed-size extents. Growing it adds an
//! extent and never moves the records of another.

use crate::node_data::E4XNodeDataReadOnly;
use crate::node_data::NodeRecord;
use vstd::prelude::*;

verus! {

/// Node records per extent.
pub const NODE_CHUNK_LEN: usize = 65536;

pub const NODE_CHUNK_SHIFT: u32 = 16;

pub const NODE_CHUNK_MASK: u32 = 0xffff;

/// The node arena.
pub struct NodeArena {
    chunks: Vec<Vec<E4XNodeDataReadOnly>>,
    len: u32,
}

impl View for NodeArena {
    type V = Seq<NodeRecord>;

    closed spec fn view(&self) -> Seq<NodeRecord> {
        Seq::new(self.len as nat, |i: int| self.chunks@[i / 65536]@[i % 65536]@)
    }
}

proof fn lemma_split(idx: u32)
    ensures
        idx >> 16u32 == idx / 65536,
        idx & 0xffffu32 == idx % 65536,
{
    assert(idx >> 16u32 == idx / 65536) by (bit_vector);
    assert(idx & 0xffffu32 == idx % 65536) by (bit_vector);
}

impl NodeArena {
    /// Every extent but the last is full.
    pub closed spec fn wf(self) -> bool {
        &&& self.chunks@.len() == (self.len + 65535) / 65536
        &&& forall|c: int|
            0 <= c < self.chunks@.len() ==> (#[trigger] self.chunks@[c])@.len() == (if self.len
                - 65536 * c < 65536 {
                self.len - 65536 * c
            } else {
                65536
            })
    }

    /// The empty arena.
    pub fn new() -> (r: Self)
        ensures
            r.wf(),
            r@ == Seq::<NodeRecord>::empty(),
    {
        let r = NodeArena { chunks: Vec::new(), len: 0 };
        assert(r@ =~= Seq::<NodeRecord>::empty());
        r
    }

    /// Number of records.
    pub fn len(&self) -> (r: u32)
        ensures
            r == self@.len(),
    {
        self.len
    }

    /// Number of extents: one per started run of `NODE_CHUNK_LEN` records.
    pub fn chunk_count(&self) -> (r: usize)
        requires
            self.wf(),
        ensures
            r == (self@.len() + 65535) / 65536,
    {
        self.chunks.len()
    }

    /// The record at `idx`.
    pub fn at(&self, idx: u32) -> (r: E4XNodeDataReadOnly)
        requires
            self.wf(),
            idx < self@.len(),
        ensures
            r@ == self@[idx as int],
    {
        proof {
            lemma_split(idx);
        }
        self.chunks[(idx >> NODE_CHUNK_SHIFT) as usize][(idx & NODE_CHUNK_MASK) as usize]
    }

    /// Appends `node` and returns its index. Records already there keep theirs.
    pub fn push(&mut self, node: E4XNodeDataReadOnly) -> (r: u32)
        requires
            old(self).wf(),
            old(self)@.len() < u32::MAX,
        ensures
            final(self).wf(),
            r == old(self)@.len(),
            final(self)@ == old(self)@.push(node@),
    {
        let idx: u32 = self.len;
        proof {
            lemma_split(idx);
        }
        let c: usize = (idx >> NODE_CHUNK_SHIFT) as usize;
        if c == self.chunks.len() {
            self.chunks.push(Vec::with_capacity(NODE_CHUNK_LEN));
        }
        assert(c + 1 == self.chunks@.len());
        self.chunks[c].push(node);
        self.len = self.len + 1;
        assert(self@ =~= old(self)@.push(node@)) by {
            assert forall|i: int| 0 <= i < idx implies #[trigger] self@[i] == old(self)@[i] by {
                assert(0 <= i / 65536 <= c);
            }
        }
        idx
    }

    /// Mutable access to a record already there; no other record changes.
    pub fn at_mut(&mut self, idx: u32) -> (r: &mut E4XNodeDataReadOnly)
        requires
            old(self).wf(),
            idx < old(self)@.len(),
        ensures
            (*r)@ == old(self)@[idx as int],
            final(self).wf(),
            final(self)@ == old(self)@.update(idx as int, (*final(r))@),
    {
        proof {
            lemma_split(idx);
        }
        let c: usize = (idx >> NODE_CHUNK_SHIFT) as usize;
        let k: usize = (idx & NODE_CHUNK_MASK) as usize;
        &mut self.chunks[c][k]
    }
}

} // verus!
