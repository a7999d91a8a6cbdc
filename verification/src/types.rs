//! Value types of the storage core: node identities, fragments, placement
//! records and the error taxonomy.
//!
//! Textual data (graph names, node ids, attribute names, string payloads)
//! is carried as UTF-8 bytes.

use vstd::prelude::*;

verus! {

/// Logical identity of a node: a graph name plus an id local to that graph.
pub struct NodeID {
    pub graph: Vec<u8>,
    pub nodeid: Vec<u8>,
}

/// Mathematical model of a [`NodeID`].
#[verifier::ext_equal]
pub ghost struct NodeIdModel {
    pub graph: Seq<u8>,
    pub nodeid: Seq<u8>,
}

impl View for NodeID {
    type V = NodeIdModel;

    open spec fn view(&self) -> NodeIdModel {
        NodeIdModel { graph: self.graph@, nodeid: self.nodeid@ }
    }
}

/// A versioned attribute name.
pub struct Key {
    pub timestamp: u64,
    pub name: Vec<u8>,
}

/// Mathematical model of a [`Key`].
#[verifier::ext_equal]
pub ghost struct KeyModel {
    pub timestamp: u64,
    pub name: Seq<u8>,
}

impl View for Key {
    type V = KeyModel;

    open spec fn view(&self) -> KeyModel {
        KeyModel { timestamp: self.timestamp, name: self.name@ }
    }
}

/// Tagged payload of an attribute value: a closed variant type, kept
/// extensible by the codec's tag byte.
pub enum Data {
    StringData(Vec<u8>),
}

/// Mathematical model of a [`Data`].
#[verifier::ext_equal]
pub ghost enum DataModel {
    StringData(Seq<u8>),
}

impl View for Data {
    type V = DataModel;

    open spec fn view(&self) -> DataModel {
        match self {
            Data::StringData(s) => DataModel::StringData(s@),
        }
    }
}

/// An attribute value.
pub struct Value {
    pub data: Data,
}

/// Mathematical model of a [`Value`].
#[verifier::ext_equal]
pub ghost struct ValueModel {
    pub data: DataModel,
}

impl View for Value {
    type V = ValueModel;

    open spec fn view(&self) -> ValueModel {
        ValueModel { data: self.data@ }
    }
}

/// The key/value bundle stored for one logical node. `values[i]` is the
/// payload for `keys[i]`; a well-formed fragment has as many values as keys.
pub struct NodeFragment {
    pub id: NodeID,
    pub keys: Vec<Key>,
    pub values: Vec<Value>,
}

/// Mathematical model of a [`NodeFragment`].
#[verifier::ext_equal]
pub ghost struct FragmentModel {
    pub id: NodeIdModel,
    pub keys: Seq<KeyModel>,
    pub values: Seq<ValueModel>,
}

impl FragmentModel {
    /// The fragment invariant: one value per key.
    pub open spec fn wf(self) -> bool {
        self.keys.len() == self.values.len()
    }
}

/// The models of a sequence of keys, element by element.
pub open spec fn keys_view(s: Seq<Key>) -> Seq<KeyModel> {
    Seq::new(s.len(), |i: int| s[i]@)
}

/// The models of a sequence of values, element by element.
pub open spec fn values_view(s: Seq<Value>) -> Seq<ValueModel> {
    Seq::new(s.len(), |i: int| s[i]@)
}

impl View for NodeFragment {
    type V = FragmentModel;

    open spec fn view(&self) -> FragmentModel {
        FragmentModel { id: self.id@, keys: keys_view(self.keys@), values: values_view(self.values@) }
    }
}

/// Physical location of a stored fragment's bytes: a partition, a byte
/// offset, a byte length and a file identifier.
#[derive(Clone, Copy, PartialEq, Eq, Structural, Debug)]
pub struct Pointer {
    pub partition_key: u64,
    pub offset: u64,
    pub length: u64,
    pub filename: u64,
}

/// Everything that can go wrong inside a shard. Errors are reported on the
/// command's reply, never by tearing the worker down.
#[derive(Clone, Copy, PartialEq, Eq, Structural, Debug)]
pub enum ShardError {
    /// A fragment could not be encoded (it breaks the fragment invariant).
    EncodeError,
    /// Stored bytes did not parse back into a fragment.
    DecodeError,
    /// The fragment store could not honour an append or a read.
    StoreIOError,
    /// The placement index could not honour an insert or a lookup.
    IndexError,
    /// A read asked for a node id that was never written.
    NotFound,
    /// A producer or consumer disconnected while a command was in flight.
    ChannelClosed,
}

/// Byte-string equality, decided element by element.
pub fn bytes_eq(a: &Vec<u8>, b: &Vec<u8>) -> (r: bool)
    ensures
        r == (a@ == b@),
{
    if a.len() != b.len() {
        return false;
    }
    let n = a.len();
    let mut i: usize = 0;
    while i < n
        invariant
            n == a@.len() && n == b@.len(),
            i <= n,
            forall|j: int| 0 <= j < i ==> a@[j] == b@[j],
        decreases n - i,
    {
        if a[i] != b[i] {
            return false;
        }
        i = i + 1;
    }
    proof {
        assert(a@ =~= b@);
    }
    true
}

/// Node-identity equality: both the graph name and the local id agree.
pub fn node_id_eq(a: &NodeID, b: &NodeID) -> (r: bool)
    ensures
        r == (a@ == b@),
{
    let r = bytes_eq(&a.graph, &b.graph) && bytes_eq(&a.nodeid, &b.nodeid);
    proof {
        if r {
            assert(a@ =~= b@);
        }
    }
    r
}

} // verus!
