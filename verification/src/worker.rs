//! The shard worker: the single-threaded actor that owns one shard's
//! fragment store and placement index.
//!
//! The worker is a state machine over the events of the command protocol:
//! a batched write opens with `BeginBatch`, streams any number of
//! `Fragment` events, and closes with `EndBatch`, which flushes the store
//! and yields the batch's one acknowledgment; `Read` serves a point lookup
//! while the worker is idle. Every transition is the mathematical function
//! [`spec_step`] of the worker's own state and the event alone, so running
//! two workers side by side cannot let one shard's writes touch the other.
//!
//! Within a batch the policy is fail-fast: the first fragment that cannot
//! be encoded or appended puts the batch into a failed state, later
//! fragments of the batch are drained without effect, and the failure is
//! reported once on the batch's acknowledgment.
//!
//! The surrounding process runs the loop: it drains a command queue, feeds
//! events to `step`, and delivers each reply to the command's reply
//! channel.

use vstd::prelude::*;

use crate::codec::{decode_fragment, enc_fragment, encode_fragment};
use crate::index::ShardIndex;
use crate::store::{
    store_append, store_flush, FileModel, FragmentStore, StoreModel, DEFAULT_FILE_LIMIT,
};
use crate::types::{FragmentModel, NodeFragment, NodeID, NodeIdModel, Pointer, ShardError};

verus! {

/// Where the worker stands between events: idle, or draining one write
/// batch (which may already have failed fail-fast). A read is served
/// within a single idle step.
#[derive(Clone, Copy)]
pub enum WorkerState {
    Idle,
    Ingesting { failed: Option<ShardError> },
}

/// One event of the command protocol, as the worker sees it.
pub enum ShardEvent {
    /// A write-batch command was dequeued; its fragment stream follows.
    BeginBatch,
    /// The next fragment of the open batch arrived.
    Fragment(NodeFragment),
    /// The producer closed the fragment stream.
    EndBatch,
    /// A point-read command for one node id.
    Read(NodeID),
}

/// Mathematical model of a [`ShardEvent`].
pub ghost enum EventModel {
    BeginBatch,
    Fragment(FragmentModel),
    EndBatch,
    Read(NodeIdModel),
}

impl View for ShardEvent {
    type V = EventModel;

    open spec fn view(&self) -> EventModel {
        match self {
            ShardEvent::BeginBatch => EventModel::BeginBatch,
            ShardEvent::Fragment(f) => EventModel::Fragment(f@),
            ShardEvent::EndBatch => EventModel::EndBatch,
            ShardEvent::Read(id) => EventModel::Read(id@),
        }
    }
}

/// What the worker hands back for an event: nothing yet, the batch's one
/// acknowledgment, or a read's result.
pub enum ShardReply {
    NoReply,
    WriteDone(Result<(), ShardError>),
    ReadDone(Result<NodeFragment, ShardError>),
}

/// Mathematical model of a [`ShardReply`].
#[verifier::ext_equal]
pub ghost enum ReplyModel {
    NoReply,
    WriteDone(Result<(), ShardError>),
    ReadDone(Result<FragmentModel, ShardError>),
}

impl View for ShardReply {
    type V = ReplyModel;

    open spec fn view(&self) -> ReplyModel {
        match self {
            ShardReply::NoReply => ReplyModel::NoReply,
            ShardReply::WriteDone(r) => ReplyModel::WriteDone(*r),
            ShardReply::ReadDone(r) => ReplyModel::ReadDone(
                match r {
                    Ok(f) => Ok(f@),
                    Err(e) => Err(*e),
                },
            ),
        }
    }
}

/// Mathematical model of a [`ShardWorker`]: its control state, the store
/// and index models, and the map of fragments the shard holds.
#[verifier::ext_equal]
pub ghost struct WorkerModel {
    pub state: WorkerState,
    pub store: StoreModel,
    pub index: Map<NodeIdModel, Pointer>,
    pub contents: Map<NodeIdModel, FragmentModel>,
}

impl WorkerModel {
    /// Worker invariant: the store is well-formed, index and contents
    /// know exactly the same ids, and every indexed placement addresses
    /// exactly the encoding of the fragment held for that id.
    pub open spec fn wf(self) -> bool {
        &&& self.store.wf()
        &&& self.index.dom() == self.contents.dom()
        &&& forall|id: NodeIdModel| #[trigger]
            self.contents.contains_key(id) ==> {
                &&& self.index.contains_key(id)
                &&& self.store.valid_pointer(self.index[id])
                &&& self.store.bytes_at(self.index[id]) == enc_fragment(self.contents[id])
                &&& self.contents[id].id == id
                &&& self.contents[id].wf()
            }
    }
}

/// A fresh worker model for one shard.
pub open spec fn init_worker(shard_id: u64, file_limit: nat) -> WorkerModel {
    WorkerModel {
        state: WorkerState::Idle,
        store: StoreModel {
            partition: shard_id,
            file_limit,
            files: seq![FileModel { data: Seq::empty(), durable: 0 }],
            placements: Seq::empty(),
        },
        index: Map::empty(),
        contents: Map::empty(),
    }
}

/// The worker's transition function: next state and reply, as a function
/// of the worker's own state and the event alone.
///
/// Protocol misuse (a fragment or stream close while idle, a command
/// while a batch is open) leaves the state unchanged with no reply; the
/// surrounding loop never produces those pairings.
pub open spec fn spec_step(w: WorkerModel, ev: EventModel) -> (WorkerModel, ReplyModel) {
    match ev {
        EventModel::BeginBatch => {
            if w.state is Idle {
                (
                    WorkerModel { state: WorkerState::Ingesting { failed: None }, ..w },
                    ReplyModel::NoReply,
                )
            } else {
                (w, ReplyModel::NoReply)
            }
        },
        EventModel::Fragment(f) => {
            if w.state == (WorkerState::Ingesting { failed: None::<ShardError> }) {
                if !f.wf() {
                    (
                        WorkerModel {
                            state: WorkerState::Ingesting {
                                failed: Some(ShardError::EncodeError),
                            },
                            ..w
                        },
                        ReplyModel::NoReply,
                    )
                } else {
                    let outcome = store_append(w.store, enc_fragment(f));
                    match outcome.1 {
                        Ok(p) => (
                            WorkerModel {
                                store: outcome.0,
                                index: w.index.insert(f.id, p),
                                contents: w.contents.insert(f.id, f),
                                ..w
                            },
                            ReplyModel::NoReply,
                        ),
                        Err(e) => (
                            WorkerModel {
                                state: WorkerState::Ingesting { failed: Some(e) },
                                ..w
                            },
                            ReplyModel::NoReply,
                        ),
                    }
                }
            } else {
                (w, ReplyModel::NoReply)
            }
        },
        EventModel::EndBatch => {
            match w.state {
                WorkerState::Ingesting { failed } => (
                    WorkerModel { state: WorkerState::Idle, store: store_flush(w.store), ..w },
                    ReplyModel::WriteDone(
                        match failed {
                            None => Ok(()),
                            Some(e) => Err(e),
                        },
                    ),
                ),
                WorkerState::Idle => (w, ReplyModel::NoReply),
            }
        },
        EventModel::Read(id) => {
            if w.state is Idle {
                (
                    w,
                    ReplyModel::ReadDone(
                        if w.contents.contains_key(id) {
                            Ok(w.contents[id])
                        } else {
                            Err(ShardError::NotFound)
                        },
                    ),
                )
            } else {
                (w, ReplyModel::NoReply)
            }
        },
    }
}

/// The per-shard storage actor: control state, fragment store, placement
/// index, and (in the model) the fragments the shard holds.
pub struct ShardWorker {
    pub state: WorkerState,
    pub store: FragmentStore,
    pub index: ShardIndex,
    pub contents: Ghost<Map<NodeIdModel, FragmentModel>>,
}

impl View for ShardWorker {
    type V = WorkerModel;

    open spec fn view(&self) -> WorkerModel {
        WorkerModel {
            state: self.state,
            store: self.store@,
            index: self.index@,
            contents: self.contents@,
        }
    }
}

impl ShardWorker {
    /// A fresh worker owning one shard, with the default file-rotation
    /// threshold.
    pub fn new(shard_id: u64) -> (w: Self)
        ensures
            w@ == init_worker(shard_id, DEFAULT_FILE_LIMIT as nat),
            w@.wf(),
    {
        Self::with_file_limit(shard_id, DEFAULT_FILE_LIMIT)
    }

    /// A fresh worker with an explicit file-rotation threshold.
    pub fn with_file_limit(shard_id: u64, file_limit: usize) -> (w: Self)
        ensures
            w@ == init_worker(shard_id, file_limit as nat),
            w@.wf(),
    {
        let w = ShardWorker {
            state: WorkerState::Idle,
            store: FragmentStore::new(shard_id, file_limit),
            index: ShardIndex::new(),
            contents: Ghost(Map::empty()),
        };
        proof {
            assert(w@ =~= init_worker(shard_id, file_limit as nat));
            assert(w@.index.dom() =~= w@.contents.dom());
        }
        w
    }

    /// Feeds one event to the worker: exactly the [`spec_step`] transition
    /// of its model.
    pub fn step(&mut self, ev: ShardEvent) -> (r: ShardReply)
        requires
            old(self)@.wf(),
        ensures
            final(self)@.wf(),
            final(self)@ == spec_step(old(self)@, ev@).0,
            r@ == spec_step(old(self)@, ev@).1,
    {
        match ev {
            ShardEvent::BeginBatch => {
                match self.state {
                    WorkerState::Idle => {
                        self.state = WorkerState::Ingesting { failed: None };
                    },
                    WorkerState::Ingesting { .. } => {},
                }
                proof {
                    assert(self@ =~= spec_step(old(self)@, ev@).0);
                }
                ShardReply::NoReply
            },
            ShardEvent::Fragment(f) => {
                match self.state {
                    WorkerState::Ingesting { failed: None } => {
                        if f.keys.len() != f.values.len() {
                            self.state = WorkerState::Ingesting {
                                failed: Some(ShardError::EncodeError),
                            };
                            proof {
                                assert(self@ =~= spec_step(old(self)@, ev@).0);
                            }
                            return ShardReply::NoReply;
                        }
                        let ghost fm = f@;
                        let bytes = encode_fragment(&f);
                        match self.store.append(&bytes) {
                            Ok(p) => {
                                self.index.insert(f.id, p);
                                proof {
                                    self.contents@ = self.contents@.insert(fm.id, fm);
                                }
                                proof {
                                    let oldm = old(self)@;
                                    let m2 = spec_step(oldm, ev@).0;
                                    assert(self@ =~= m2);
                                    lemma_step_fragment_wf(oldm, fm, p);
                                }
                                ShardReply::NoReply
                            },
                            Err(e) => {
                                self.state = WorkerState::Ingesting { failed: Some(e) };
                                proof {
                                    assert(self@ =~= spec_step(old(self)@, ev@).0);
                                }
                                ShardReply::NoReply
                            },
                        }
                    },
                    WorkerState::Ingesting { failed: Some(_) } => {
                        proof {
                            assert(self@ =~= spec_step(old(self)@, ev@).0);
                        }
                        ShardReply::NoReply
                    },
                    WorkerState::Idle => {
                        proof {
                            assert(self@ =~= spec_step(old(self)@, ev@).0);
                        }
                        ShardReply::NoReply
                    },
                }
            },
            ShardEvent::EndBatch => {
                match self.state {
                    WorkerState::Ingesting { failed } => {
                        self.store.flush();
                        self.state = WorkerState::Idle;
                        proof {
                            let oldm = old(self)@;
                            assert(self@ =~= spec_step(oldm, ev@).0);
                            lemma_flush_wf(oldm);
                        }
                        match failed {
                            None => ShardReply::WriteDone(Ok(())),
                            Some(e) => ShardReply::WriteDone(Err(e)),
                        }
                    },
                    WorkerState::Idle => {
                        proof {
                            assert(self@ =~= spec_step(old(self)@, ev@).0);
                        }
                        ShardReply::NoReply
                    },
                }
            },
            ShardEvent::Read(id) => {
                match self.state {
                    WorkerState::Idle => {
                        proof {
                            assert(self@ =~= spec_step(old(self)@, ev@).0);
                        }
                        match self.index.lookup(&id) {
                            Some(ptr) => {
                                proof {
                                    assert(self@.contents.contains_key(id@));
                                }
                                let bytes = self.store.read_range(&ptr).unwrap();
                                proof {
                                    assert(bytes@ == enc_fragment(self@.contents[id@]));
                                }
                                let frag = decode_fragment(&bytes).unwrap();
                                proof {
                                    assert(frag@ == self@.contents[id@]);
                                }
                                ShardReply::ReadDone(Ok(frag))
                            },
                            None => ShardReply::ReadDone(Err(ShardError::NotFound)),
                        }
                    },
                    WorkerState::Ingesting { .. } => {
                        proof {
                            assert(self@ =~= spec_step(old(self)@, ev@).0);
                        }
                        ShardReply::NoReply
                    },
                }
            },
        }
    }
}

/// A successful fragment step preserves the worker invariant.
proof fn lemma_step_fragment_wf(w: WorkerModel, f: FragmentModel, p: Pointer)
    requires
        w.wf(),
        f.wf(),
        w.state == (WorkerState::Ingesting { failed: None::<ShardError> }),
        store_append(w.store, enc_fragment(f)).1 == Ok::<Pointer, ShardError>(p),
    ensures
        store_append(w.store, enc_fragment(f)).0.wf() ==> spec_step(
            w,
            EventModel::Fragment(f),
        ).0.wf(),
{
    if store_append(w.store, enc_fragment(f)).0.wf() {
        let m2 = spec_step(w, EventModel::Fragment(f)).0;
        let store2 = store_append(w.store, enc_fragment(f)).0;
        let bytes = enc_fragment(f);
        assert(m2.index.dom() =~= m2.contents.dom());
        let rotate = w.store.files.last().data.len() >= w.store.file_limit;
        let base: int = if rotate {
            0
        } else {
            w.store.files.last().data.len() as int
        };
        let files1 = if rotate {
            w.store.files.push(FileModel { data: Seq::empty(), durable: 0 })
        } else {
            w.store.files
        };
        let fidx = files1.len() - 1;
        assert(usize::MAX <= u64::MAX);
        assert(base + bytes.len() <= usize::MAX);
        assert(fidx <= usize::MAX);
        assert(p.filename as int == fidx);
        assert(p.offset as int == base);
        assert(p.length as int == bytes.len());
        assert(store2.files[fidx].data == files1[fidx].data + bytes);
        assert forall|id: NodeIdModel| #[trigger] m2.contents.contains_key(id) implies {
            &&& m2.index.contains_key(id)
            &&& m2.store.valid_pointer(m2.index[id])
            &&& m2.store.bytes_at(m2.index[id]) == enc_fragment(m2.contents[id])
            &&& m2.contents[id].id == id
            &&& m2.contents[id].wf()
        } by {
            if id == f.id {
                assert(m2.index[id] == p);
                assert(m2.contents[id] == f);
                let fidx = p.filename as int;
                assert(store2.files[fidx].data.subrange(
                    p.offset as int,
                    p.offset + p.length,
                ) =~= bytes);
            } else {
                assert(w.contents.contains_key(id));
                let q = w.index[id];
                assert(w.store.valid_pointer(q));
                assert((q.filename as int) < store2.files.len());
                assert(store2.files[q.filename as int].data.subrange(
                    q.offset as int,
                    q.offset + q.length,
                ) =~= w.store.files[q.filename as int].data.subrange(
                    q.offset as int,
                    q.offset + q.length,
                ));
            }
        }
    }
}

/// Flushing preserves the worker invariant: no byte and no index entry
/// moves.
proof fn lemma_flush_wf(w: WorkerModel)
    requires
        w.wf(),
    ensures
        (WorkerModel { state: WorkerState::Idle, store: store_flush(w.store), ..w }).wf(),
{
    let m2 = WorkerModel { state: WorkerState::Idle, store: store_flush(w.store), ..w };
    assert forall|id: NodeIdModel| #[trigger] m2.contents.contains_key(id) implies {
        &&& m2.index.contains_key(id)
        &&& m2.store.valid_pointer(m2.index[id])
        &&& m2.store.bytes_at(m2.index[id]) == enc_fragment(m2.contents[id])
        &&& m2.contents[id].id == id
        &&& m2.contents[id].wf()
    } by {
        let q = w.index[id];
        assert(m2.store.files[q.filename as int].data == w.store.files[q.filename as int].data);
    }
}

/// Law: everything written in a batch and later retrieved comes back
/// exactly as written. Appending a fragment, closing the batch with a
/// successful acknowledgment, and reading the fragment's id returns a
/// fragment equal to the one appended, keys and values in order.
pub proof fn lemma_round_trip(w: WorkerModel, f: FragmentModel)
    requires
        w.state == (WorkerState::Ingesting { failed: None::<ShardError> }),
        f.wf(),
        store_append(w.store, enc_fragment(f)).1 is Ok,
    ensures
        ({
            let w1 = spec_step(w, EventModel::Fragment(f)).0;
            let w2 = spec_step(w1, EventModel::EndBatch).0;
            let rep2 = spec_step(w1, EventModel::EndBatch).1;
            let w3 = spec_step(w2, EventModel::Read(f.id)).0;
            let rep3 = spec_step(w2, EventModel::Read(f.id)).1;
            &&& rep2 == ReplyModel::WriteDone(Ok::<(), ShardError>(()))
            &&& rep3 == ReplyModel::ReadDone(Ok::<FragmentModel, ShardError>(f))
            &&& w3 == w2
        }),
{
}

/// Law: an immediately-closed batch acknowledges success and performs
/// zero store writes and zero index insertions.
pub proof fn lemma_empty_batch(w: WorkerModel)
    requires
        w.state is Idle,
    ensures
        ({
            let w1 = spec_step(w, EventModel::BeginBatch).0;
            let w2 = spec_step(w1, EventModel::EndBatch).0;
            let rep = spec_step(w1, EventModel::EndBatch).1;
            &&& rep == ReplyModel::WriteDone(Ok::<(), ShardError>(()))
            &&& w2.state is Idle
            &&& w2.contents == w.contents
            &&& w2.index == w.index
            &&& w2.store.placements == w.store.placements
            &&& w2.store.files.len() == w.store.files.len()
            &&& forall|i: int|
                0 <= i < w.store.files.len() ==> (#[trigger] w2.store.files[i]).data == w.store.files[
                    i
                ].data
        }),
{
}

/// The worker model after a whole sequence of events.
pub open spec fn run_events(w: WorkerModel, evs: Seq<EventModel>) -> WorkerModel
    decreases evs.len(),
{
    if evs.len() == 0 {
        w
    } else {
        run_events(spec_step(w, evs[0]).0, evs.subrange(1, evs.len() as int))
    }
}

/// Whether an event can write fragment contents for `id`.
pub open spec fn event_writes_id(ev: EventModel, id: NodeIdModel) -> bool {
    ev matches EventModel::Fragment(g) && g.id == id
}

/// Law: the fragment held for an id survives any events that do not write
/// that id again.
pub proof fn lemma_contents_stable(w: WorkerModel, evs: Seq<EventModel>, id: NodeIdModel)
    requires
        w.contents.contains_key(id),
        forall|i: int| 0 <= i < evs.len() ==> !event_writes_id(#[trigger] evs[i], id),
    ensures
        run_events(w, evs).contents.contains_key(id),
        run_events(w, evs).contents[id] == w.contents[id],
    decreases evs.len(),
{
    if evs.len() > 0 {
        let w1 = spec_step(w, evs[0]).0;
        assert(!event_writes_id(evs[0], id));
        assert(w1.contents.contains_key(id) && w1.contents[id] == w.contents[id]);
        let rest = evs.subrange(1, evs.len() as int);
        assert forall|i: int| 0 <= i < rest.len() implies !event_writes_id(
            #[trigger] rest[i],
            id,
        ) by {
            assert(rest[i] == evs[i + 1]);
        }
        lemma_contents_stable(w1, rest, id);
    }
}

/// Law: everything written via a write batch and later retrieved by the
/// same node id comes back exactly as written, however many events that
/// do not rewrite the id lie in between.
pub proof fn lemma_round_trip_later(w: WorkerModel, f: FragmentModel, evs: Seq<EventModel>)
    requires
        w.state == (WorkerState::Ingesting { failed: None::<ShardError> }),
        f.wf(),
        store_append(w.store, enc_fragment(f)).1 is Ok,
        forall|i: int| 0 <= i < evs.len() ==> !event_writes_id(#[trigger] evs[i], f.id),
        run_events(spec_step(w, EventModel::Fragment(f)).0, evs).state is Idle,
    ensures
        spec_step(run_events(spec_step(w, EventModel::Fragment(f)).0, evs), EventModel::Read(f.id)).1
            == ReplyModel::ReadDone(Ok::<FragmentModel, ShardError>(f)),
{
    let w1 = spec_step(w, EventModel::Fragment(f)).0;
    assert(w1.contents.contains_key(f.id) && w1.contents[f.id] == f);
    lemma_contents_stable(w1, evs, f.id);
}

/// Law: ingesting a fragment changes the shard's contents at that
/// fragment's id alone; every other id keeps exactly the fragment it had.
pub proof fn lemma_ingest_preserves_other_ids(w: WorkerModel, f: FragmentModel, id: NodeIdModel)
    requires
        w.state == (WorkerState::Ingesting { failed: None::<ShardError> }),
        f.wf(),
        store_append(w.store, enc_fragment(f)).1 is Ok,
        id != f.id,
    ensures
        spec_step(w, EventModel::Fragment(f)).0.contents.contains_key(id)
            == w.contents.contains_key(id),
        w.contents.contains_key(id) ==> spec_step(w, EventModel::Fragment(f)).0.contents[id]
            == w.contents[id],
{
}

/// Law: reading an id that was never written returns `NotFound` and
/// changes nothing.
pub proof fn lemma_read_miss(w: WorkerModel, id: NodeIdModel)
    requires
        w.state is Idle,
        !w.contents.contains_key(id),
    ensures
        spec_step(w, EventModel::Read(id)).0 == w,
        spec_step(w, EventModel::Read(id)).1 == ReplyModel::ReadDone(
            Err::<FragmentModel, ShardError>(ShardError::NotFound),
        ),
{
}

} // verus!
