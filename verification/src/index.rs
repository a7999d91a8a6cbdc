//! The placement index: the mapping from node identity to placement
//! record.
//!
//! The index is an insertion log of (node id, placement) entries whose
//! meaning is the map in which the latest entry for an id wins — the
//! unconditional-upsert contract of the engine. Lookups scan from the
//! newest entry backwards. The surrounding process may mirror the log into
//! an embedded key-value store to survive restarts; the meaning stays the
//! map below.

use vstd::prelude::*;

use crate::types::{node_id_eq, NodeID, NodeIdModel, Pointer};

verus! {

/// One insertion: a node identity and where its fragment's bytes sit.
pub struct IndexEntry {
    pub key: NodeID,
    pub ptr: Pointer,
}

/// The map an entry log denotes: later entries overwrite earlier ones.
pub open spec fn index_map(s: Seq<(NodeIdModel, Pointer)>) -> Map<NodeIdModel, Pointer>
    decreases s.len(),
{
    if s.len() == 0 {
        Map::empty()
    } else {
        index_map(s.drop_last()).insert(s.last().0, s.last().1)
    }
}

/// The models of the entries, in log order.
pub open spec fn entries_view(s: Seq<IndexEntry>) -> Seq<(NodeIdModel, Pointer)> {
    Seq::new(s.len(), |i: int| (s[i].key@, s[i].ptr))
}

/// Durable mapping from node identity to placement record for one shard.
pub struct ShardIndex {
    pub entries: Vec<IndexEntry>,
}

impl View for ShardIndex {
    type V = Map<NodeIdModel, Pointer>;

    open spec fn view(&self) -> Map<NodeIdModel, Pointer> {
        index_map(entries_view(self.entries@))
    }
}

impl ShardIndex {
    /// An empty index.
    pub fn new() -> (s: Self)
        ensures
            s@ == Map::<NodeIdModel, Pointer>::empty(),
    {
        let s = ShardIndex { entries: Vec::new() };
        proof {
            assert(entries_view(s.entries@) =~= Seq::<(NodeIdModel, Pointer)>::empty());
        }
        s
    }

    /// Unconditional upsert: after the call the index maps `key` to `ptr`
    /// and every other id to what it mapped to before.
    pub fn insert(&mut self, key: NodeID, ptr: Pointer)
        ensures
            final(self)@ == old(self)@.insert(key@, ptr),
    {
        let ghost kg = key@;
        let ghost oldv = entries_view(self.entries@);
        self.entries.push(IndexEntry { key, ptr });
        proof {
            let newv = entries_view(self.entries@);
            assert(newv.drop_last() =~= oldv);
            assert(newv.last() == (kg, ptr));
        }
    }

    /// Point lookup: the latest placement inserted for `key`, or `None`
    /// if the id was never inserted.
    pub fn lookup(&self, key: &NodeID) -> (r: Option<Pointer>)
        ensures
            match r {
                Some(p) => self@.contains_key(key@) && p == self@[key@],
                None => !self@.contains_key(key@),
            },
    {
        let ghost ev = entries_view(self.entries@);
        let mut i = self.entries.len();
        proof {
            assert(ev.subrange(0, ev.len() as int) =~= ev);
        }
        while i > 0
            invariant
                i <= self.entries@.len(),
                ev == entries_view(self.entries@),
                index_map(ev).contains_key(key@) == index_map(ev.subrange(0, i as int))
                    .contains_key(key@),
                index_map(ev).contains_key(key@) ==> index_map(ev.subrange(0, i as int))[key@]
                    == index_map(ev)[key@],
            decreases i,
        {
            i = i - 1;
            proof {
                assert(ev.subrange(0, i + 1).drop_last() =~= ev.subrange(0, i as int));
                assert(ev.subrange(0, i + 1).last() == (self.entries@[i as int].key@,
                self.entries@[i as int].ptr));
            }
            let e = &self.entries[i];
            if node_id_eq(&e.key, key) {
                return Some(e.ptr);
            }
        }
        proof {
            assert(ev.subrange(0, 0) =~= Seq::<(NodeIdModel, Pointer)>::empty());
        }
        None
    }
}

} // verus!
