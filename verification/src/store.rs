//! The fragment store: an append-only byte-range allocator over the
//! shard's files.
//!
//! The store owns the byte image of every file of its shard and hands out
//! placement records. Appends go to the active (last) file; once the active
//! file has reached the size threshold the next append rotates to a fresh
//! file id. Already-allocated ranges are never overwritten, which is stated
//! by [`lemma_placements_non_overlap`]. A batch counts as durable only once
//! `flush` has marked every file; the surrounding process mirrors the byte
//! images and the flush mark onto disk.

use vstd::prelude::*;

use crate::types::{Pointer, ShardError};

verus! {

/// Size threshold, in bytes, after which the store rotates to a new file.
pub const DEFAULT_FILE_LIMIT: usize = 0x4000_0000;

/// One backing file: its byte image and how much of it is durable.
pub struct FileBuf {
    pub data: Vec<u8>,
    pub durable_len: usize,
}

/// Mathematical model of a [`FileBuf`].
#[verifier::ext_equal]
pub ghost struct FileModel {
    pub data: Seq<u8>,
    pub durable: nat,
}

impl View for FileBuf {
    type V = FileModel;

    open spec fn view(&self) -> FileModel {
        FileModel { data: self.data@, durable: self.durable_len as nat }
    }
}

/// Mathematical model of a [`FragmentStore`]. `placements` records every
/// placement the store ever returned, in order.
#[verifier::ext_equal]
pub ghost struct StoreModel {
    pub partition: u64,
    pub file_limit: nat,
    pub files: Seq<FileModel>,
    pub placements: Seq<Pointer>,
}

impl StoreModel {
    /// A pointer addresses bytes that the store has really allocated.
    pub open spec fn valid_pointer(self, p: Pointer) -> bool {
        &&& (p.filename as int) < self.files.len()
        &&& p.offset + p.length <= self.files[p.filename as int].data.len()
    }

    /// The bytes a pointer addresses.
    pub open spec fn bytes_at(self, p: Pointer) -> Seq<u8> {
        self.files[p.filename as int].data.subrange(
            p.offset as int,
            p.offset + p.length,
        )
    }

    /// Every byte written so far has been flushed.
    pub open spec fn fully_durable(self) -> bool {
        forall|i: int|
            0 <= i < self.files.len() ==> (#[trigger] self.files[i]).durable == self.files[
                i
            ].data.len()
    }

    /// Store invariant: at least one file, durable marks within bounds,
    /// every returned placement valid, on this partition, and placements
    /// into one file laid out in order without overlap.
    pub open spec fn wf(self) -> bool {
        &&& 1 <= self.files.len() <= usize::MAX
        &&& forall|i: int|
            0 <= i < self.files.len() ==> (#[trigger] self.files[i]).durable <= self.files[
                i
            ].data.len()
        &&& forall|i: int|
            0 <= i < self.placements.len() ==> {
                &&& (#[trigger] self.placements[i]).partition_key == self.partition
                &&& self.valid_pointer(self.placements[i])
            }
        &&& forall|i: int, j: int|
            #![trigger self.placements[i], self.placements[j]]
            0 <= i < j < self.placements.len() && self.placements[i].filename
                == self.placements[j].filename ==> self.placements[i].offset + self.placements[
                i
            ].length <= self.placements[j].offset
    }
}

/// What one append does to the store model: rotate if the active file is
/// full, then either refuse (the new range would not be addressable) and
/// leave the store unchanged, or extend the active file and hand out the
/// placement of exactly the appended range.
pub open spec fn store_append(m: StoreModel, bytes: Seq<u8>) -> (StoreModel, Result<
    Pointer,
    ShardError,
>) {
    let rotate = m.files.last().data.len() >= m.file_limit;
    let base: int = if rotate {
        0
    } else {
        m.files.last().data.len() as int
    };
    if base + bytes.len() > usize::MAX {
        (m, Err(ShardError::StoreIOError))
    } else {
        let files1 = if rotate {
            m.files.push(FileModel { data: Seq::empty(), durable: 0 })
        } else {
            m.files
        };
        let fidx = files1.len() - 1;
        let p = Pointer {
            partition_key: m.partition,
            offset: base as u64,
            length: bytes.len() as u64,
            filename: fidx as u64,
        };
        let files2 = files1.update(
            fidx,
            FileModel { data: files1[fidx].data + bytes, durable: files1[fidx].durable },
        );
        (
            StoreModel {
                partition: m.partition,
                file_limit: m.file_limit,
                files: files2,
                placements: m.placements.push(p),
            },
            Ok(p),
        )
    }
}

/// What `flush` does to the store model: every file becomes durable up to
/// its current length; bytes and placements do not move.
pub open spec fn store_flush(m: StoreModel) -> StoreModel {
    StoreModel {
        partition: m.partition,
        file_limit: m.file_limit,
        files: Seq::new(
            m.files.len(),
            |i: int| FileModel { data: m.files[i].data, durable: m.files[i].data.len() },
        ),
        placements: m.placements,
    }
}

/// Placements into one (partition, file) pair never overlap, and later
/// appends sit at offsets no lower than earlier ones.
pub proof fn lemma_placements_non_overlap(m: StoreModel, i: int, j: int)
    requires
        m.wf(),
        0 <= i < j < m.placements.len(),
        m.placements[i].filename == m.placements[j].filename,
    ensures
        m.placements[i].offset + m.placements[i].length <= m.placements[j].offset,
{
}

/// Append-only byte storage with physical addressing for one shard.
pub struct FragmentStore {
    pub partition: u64,
    pub file_limit: usize,
    pub files: Vec<FileBuf>,
    pub placements: Ghost<Seq<Pointer>>,
}

impl View for FragmentStore {
    type V = StoreModel;

    open spec fn view(&self) -> StoreModel {
        StoreModel {
            partition: self.partition,
            file_limit: self.file_limit as nat,
            files: Seq::new(self.files@.len(), |i: int| self.files@[i]@),
            placements: self.placements@,
        }
    }
}

impl FragmentStore {
    /// A fresh store for one partition: a single empty file, nothing
    /// allocated, nothing pending.
    pub fn new(partition: u64, file_limit: usize) -> (s: Self)
        ensures
            s@ == (StoreModel {
                partition,
                file_limit: file_limit as nat,
                files: seq![FileModel { data: Seq::empty(), durable: 0 }],
                placements: Seq::empty(),
            }),
            s@.wf(),
            s@.fully_durable(),
    {
        let mut files: Vec<FileBuf> = Vec::new();
        files.push(FileBuf { data: Vec::new(), durable_len: 0 });
        let s = FragmentStore { partition, file_limit, files, placements: Ghost(Seq::empty()) };
        proof {
            assert(s@.files =~= seq![FileModel { data: Seq::empty(), durable: 0 }]);
            assert(s@ =~= (StoreModel {
                partition,
                file_limit: file_limit as nat,
                files: seq![FileModel { data: Seq::empty(), durable: 0 }],
                placements: Seq::empty(),
            }));
        }
        s
    }

    /// Allocates the next range of the active file, writes the bytes, and
    /// returns their placement; exactly the `store_append` transition.
    pub fn append(&mut self, bytes: &Vec<u8>) -> (r: Result<Pointer, ShardError>)
        requires
            old(self)@.wf(),
        ensures
            final(self)@.wf(),
            final(self)@ == store_append(old(self)@, bytes@).0,
            r == store_append(old(self)@, bytes@).1,
    {
        let last = self.files.len() - 1;
        let cur_len = self.files[last].data.len();
        let rotate = cur_len >= self.file_limit;
        if !rotate && bytes.len() > usize::MAX - cur_len {
            return Err(ShardError::StoreIOError);
        }
        if rotate {
            self.files.push(FileBuf { data: Vec::new(), durable_len: 0 });
        }
        let idx = self.files.len() - 1;
        let ghost ef1 = self.files@;
        let mut fb = self.files.pop().unwrap();
        let ghost orig = fb.data@;
        let ghost durable0 = fb.durable_len as nat;
        let offset = fb.data.len();
        let n = bytes.len();
        let mut i: usize = 0;
        while i < n
            invariant
                n == bytes@.len(),
                i <= n,
                offset == orig.len(),
                offset + n <= usize::MAX,
                fb.durable_len as nat == durable0,
                fb.data@ == orig + bytes@.subrange(0, i as int),
            decreases n - i,
        {
            fb.data.push(bytes[i]);
            proof {
                assert(orig + bytes@.subrange(0, i as int) + seq![bytes@[i as int]] =~= orig
                    + bytes@.subrange(0, i + 1));
            }
            i = i + 1;
        }
        let ptr = Pointer {
            partition_key: self.partition,
            offset: offset as u64,
            length: n as u64,
            filename: idx as u64,
        };
        self.files.push(fb);
        proof {
            self.placements@ = self.placements@.push(ptr);
        }
        proof {
            let oldm = old(self)@;
            let m2 = store_append(oldm, bytes@).0;
            assert(self.files.len() <= usize::MAX);
            assert(bytes@.subrange(0, n as int) =~= bytes@);
            let files1 = if rotate {
                oldm.files.push(FileModel { data: Seq::empty(), durable: 0 })
            } else {
                oldm.files
            };
            assert forall|t: int| 0 <= t < ef1.len() implies ef1[t]@ == files1[t] by {}
            assert(self.files@ == ef1.drop_last().push(fb));
            assert forall|t: int| 0 <= t < self@.files.len() implies self@.files[t]
                == m2.files[t] by {
                if t < ef1.len() - 1 {
                    assert(self@.files[t] == ef1[t]@);
                } else {
                    assert(self@.files[t] == fb@);
                    assert(fb@ == (FileModel {
                        data: orig + bytes@,
                        durable: durable0,
                    }));
                }
            }
            assert(self@.files =~= m2.files);
            assert(self@ =~= m2);
            let m = self@;
            assert forall|a: int|
                0 <= a < m.placements.len() implies (#[trigger] m.placements[a]).partition_key
                == m.partition && m.valid_pointer(m.placements[a]) by {
                if a < m.placements.len() - 1 {
                    assert(oldm.placements[a] == m.placements[a]);
                    assert(oldm.valid_pointer(oldm.placements[a]));
                    assert(m.valid_pointer(m.placements[a]));
                } else {
                    assert(m.placements[a] == ptr);
                    assert(m.files[idx as int].data.len() == offset + n);
                }
            }
            assert forall|a: int, b: int|
                #![trigger m.placements[a], m.placements[b]]
                0 <= a < b < m.placements.len() && m.placements[a].filename
                    == m.placements[b].filename implies m.placements[a].offset + m.placements[
                a
            ].length <= m.placements[b].offset by {
                if b < m.placements.len() - 1 {
                    assert(oldm.placements[a] == m.placements[a]);
                    assert(oldm.placements[b] == m.placements[b]);
                } else {
                    assert(m.placements[a] == oldm.placements[a]);
                    assert(oldm.valid_pointer(oldm.placements[a]));
                    assert((oldm.placements[a].filename as int) < oldm.files.len());
                    assert(m.placements[b] == ptr);
                }
            }
        }
        Ok(ptr)
    }

    /// Reads back the bytes a placement addresses, failing on any range the
    /// store never allocated.
    pub fn read_range(&self, p: &Pointer) -> (r: Result<Vec<u8>, ShardError>)
        requires
            self@.wf(),
        ensures
            r matches Ok(v) ==> self@.valid_pointer(*p) && v@ == self@.bytes_at(*p),
            r is Err <==> !self@.valid_pointer(*p),
            r matches Err(e) ==> e == ShardError::StoreIOError,
    {
        if p.filename >= self.files.len() as u64 {
            return Err(ShardError::StoreIOError);
        }
        let idx = p.filename as usize;
        let flen = self.files[idx].data.len() as u64;
        if p.offset > flen || p.length > flen - p.offset {
            return Err(ShardError::StoreIOError);
        }
        let off = p.offset as usize;
        let n = p.length as usize;
        let mut v: Vec<u8> = Vec::new();
        let mut i: usize = 0;
        while i < n
            invariant
                idx < self.files@.len(),
                off + n <= self.files@[idx as int].data@.len(),
                off + n <= usize::MAX,
                i <= n,
                v@ == self.files@[idx as int].data@.subrange(off as int, off + i),
            decreases n - i,
        {
            v.push(self.files[idx].data[off + i]);
            proof {
                assert(self.files@[idx as int].data@.subrange(off as int, off + i).push(
                    self.files@[idx as int].data@[off + i],
                ) =~= self.files@[idx as int].data@.subrange(off as int, off + i + 1));
            }
            i = i + 1;
        }
        proof {
            assert(v@ =~= self@.bytes_at(*p));
        }
        Ok(v)
    }

    /// Forces everything written so far to count as durable; exactly the
    /// `store_flush` transition.
    pub fn flush(&mut self)
        requires
            old(self)@.wf(),
        ensures
            final(self)@ == store_flush(old(self)@),
            final(self)@.wf(),
            final(self)@.fully_durable(),
    {
        let ghost oldm = self@;
        let n = self.files.len();
        let mut i: usize = 0;
        while i < n
            invariant
                n == self.files@.len(),
                i <= n,
                self.partition == oldm.partition,
                self.file_limit as nat == oldm.file_limit,
                self.placements@ == oldm.placements,
                self.files@.len() == oldm.files.len(),
                forall|j: int|
                    0 <= j < i ==> (#[trigger] self.files@[j])@ == (FileModel {
                        data: oldm.files[j].data,
                        durable: oldm.files[j].data.len(),
                    }),
                forall|j: int| i <= j < n ==> (#[trigger] self.files@[j])@ == oldm.files[j],
            decreases n - i,
        {
            let dl = self.files[i].data.len();
            let fb = &mut self.files[i];
            fb.durable_len = dl;
            i = i + 1;
        }
        proof {
            assert(self@.files =~= store_flush(oldm).files);
            assert(self@ =~= store_flush(oldm));
        }
    }
}

} // verus!
