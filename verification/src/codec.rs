//! Binary codec for fragments and placement records.
//!
//! The wire format is length-prefixed little-endian binary: byte strings
//! travel as an 8-byte length followed by the bytes, u64 fields as 8
//! little-endian bytes, and a value payload behind a one-byte variant tag.
//! Encoding is a total function of the fragment alone; `decode_fragment`
//! accepts exactly the byte strings that `encode_fragment` produces.

use vstd::bytes::*;
use vstd::prelude::*;
use vstd::slice::slice_subrange;

use crate::types::{
    keys_view, values_view, Data, DataModel, FragmentModel, Key, KeyModel, NodeFragment, NodeID,
    NodeIdModel, Pointer, ShardError, Value, ValueModel,
};

verus! {

/// Tag byte of a string-typed value payload.
pub const STRING_DATA_TAG: u8 = 1;

/// Encoding of a byte string: 8-byte little-endian length, then the bytes.
pub open spec fn enc_bytes(b: Seq<u8>) -> Seq<u8> {
    spec_u64_to_le_bytes(b.len() as u64) + b
}

/// Encoding of a node identity: graph name, then local id.
pub open spec fn enc_node_id(nid: NodeIdModel) -> Seq<u8> {
    enc_bytes(nid.graph) + enc_bytes(nid.nodeid)
}

/// Encoding of one attribute key: timestamp, then name.
pub open spec fn enc_key(k: KeyModel) -> Seq<u8> {
    spec_u64_to_le_bytes(k.timestamp) + enc_bytes(k.name)
}

/// Encoding of one attribute value: variant tag, then payload.
pub open spec fn enc_value(v: ValueModel) -> Seq<u8> {
    match v.data {
        DataModel::StringData(s) => seq![STRING_DATA_TAG] + enc_bytes(s),
    }
}

/// Encoding of a key sequence, in order.
pub open spec fn enc_keys(ks: Seq<KeyModel>) -> Seq<u8>
    decreases ks.len(),
{
    if ks.len() == 0 {
        Seq::empty()
    } else {
        enc_keys(ks.drop_last()) + enc_key(ks.last())
    }
}

/// Encoding of a value sequence, in order.
pub open spec fn enc_values(vs: Seq<ValueModel>) -> Seq<u8>
    decreases vs.len(),
{
    if vs.len() == 0 {
        Seq::empty()
    } else {
        enc_values(vs.drop_last()) + enc_value(vs.last())
    }
}

/// Encoding of a whole fragment: identity, key count, keys, value count,
/// values.
pub open spec fn enc_fragment(f: FragmentModel) -> Seq<u8> {
    enc_node_id(f.id) + spec_u64_to_le_bytes(f.keys.len() as u64) + enc_keys(f.keys)
        + spec_u64_to_le_bytes(f.values.len() as u64) + enc_values(f.values)
}

/// Encoding of a placement record: four 8-byte little-endian integers.
pub open spec fn enc_pointer(p: Pointer) -> Seq<u8> {
    spec_u64_to_le_bytes(p.partition_key) + spec_u64_to_le_bytes(p.offset)
        + spec_u64_to_le_bytes(p.length) + spec_u64_to_le_bytes(p.filename)
}

/// A key sequence encodes to the front as well: first key, then the rest.
pub proof fn lemma_enc_keys_first(ks: Seq<KeyModel>)
    requires
        ks.len() > 0,
    ensures
        enc_keys(ks) == enc_key(ks[0]) + enc_keys(ks.subrange(1, ks.len() as int)),
    decreases ks.len(),
{
    if ks.len() == 1 {
        assert(ks.drop_last() =~= Seq::<KeyModel>::empty());
        assert(ks.subrange(1, ks.len() as int) =~= Seq::<KeyModel>::empty());
        assert(enc_keys(ks) =~= enc_key(ks[0]) + enc_keys(ks.subrange(1, ks.len() as int)));
    } else {
        let front = ks.drop_last();
        lemma_enc_keys_first(front);
        let tail = ks.subrange(1, ks.len() as int);
        assert(front.subrange(1, front.len() as int) =~= tail.drop_last());
        assert(tail.last() == ks.last());
        assert(enc_keys(ks) == enc_keys(front) + enc_key(ks.last()));
        assert(enc_keys(tail) == enc_keys(tail.drop_last()) + enc_key(tail.last()));
        assert(enc_keys(ks) =~= enc_key(ks[0]) + enc_keys(tail));
    }
}

/// A value sequence encodes to the front as well.
pub proof fn lemma_enc_values_first(vs: Seq<ValueModel>)
    requires
        vs.len() > 0,
    ensures
        enc_values(vs) == enc_value(vs[0]) + enc_values(vs.subrange(1, vs.len() as int)),
    decreases vs.len(),
{
    if vs.len() == 1 {
        assert(vs.drop_last() =~= Seq::<ValueModel>::empty());
        assert(vs.subrange(1, vs.len() as int) =~= Seq::<ValueModel>::empty());
        assert(enc_values(vs) =~= enc_value(vs[0]) + enc_values(vs.subrange(1, vs.len() as int)));
    } else {
        let front = vs.drop_last();
        lemma_enc_values_first(front);
        let tail = vs.subrange(1, vs.len() as int);
        assert(front.subrange(1, front.len() as int) =~= tail.drop_last());
        assert(tail.last() == vs.last());
        assert(enc_values(vs) == enc_values(front) + enc_value(vs.last()));
        assert(enc_values(tail) == enc_values(tail.drop_last()) + enc_value(tail.last()));
        assert(enc_values(vs) =~= enc_value(vs[0]) + enc_values(tail));
    }
}

/// Every key occupies at least its two fixed-width fields on the wire.
pub proof fn lemma_enc_keys_len(ks: Seq<KeyModel>)
    ensures
        enc_keys(ks).len() >= 16 * ks.len(),
    decreases ks.len(),
{
    lemma_auto_spec_u64_to_from_le_bytes();
    if ks.len() > 0 {
        lemma_enc_keys_len(ks.drop_last());
    }
}

/// Every value occupies at least its tag and length prefix on the wire.
pub proof fn lemma_enc_values_len(vs: Seq<ValueModel>)
    ensures
        enc_values(vs).len() >= 9 * vs.len(),
    decreases vs.len(),
{
    lemma_auto_spec_u64_to_from_le_bytes();
    if vs.len() > 0 {
        lemma_enc_values_len(vs.drop_last());
        match vs.last().data {
            DataModel::StringData(s) => {
                assert(enc_value(vs.last()).len() >= 9);
            }
        }
    }
}

/// Appends the little-endian bytes of `x`.
fn push_u64(out: &mut Vec<u8>, x: u64)
    ensures
        final(out)@ == old(out)@ + spec_u64_to_le_bytes(x),
{
    let mut s = u64_to_le_bytes(x);
    out.append(&mut s);
}

/// Appends a length-prefixed byte string.
fn push_bytes(out: &mut Vec<u8>, b: &Vec<u8>)
    ensures
        final(out)@ == old(out)@ + enc_bytes(b@),
{
    proof {
        lemma_auto_spec_u64_to_from_le_bytes();
    }
    push_u64(out, b.len() as u64);
    let ghost mid = out@;
    let n = b.len();
    let mut i: usize = 0;
    while i < n
        invariant
            n == b@.len(),
            i <= n,
            out@ == mid + b@.subrange(0, i as int),
        decreases n - i,
    {
        out.push(b[i]);
        proof {
            assert(mid + b@.subrange(0, i as int) + seq![b@[i as int]] =~= mid + b@.subrange(
                0,
                i + 1,
            ));
        }
        i = i + 1;
    }
    proof {
        assert(b@.subrange(0, n as int) =~= b@);
    }
}

/// Appends the encoding of one key.
fn push_key(out: &mut Vec<u8>, k: &Key)
    ensures
        final(out)@ == old(out)@ + enc_key(k@),
{
    push_u64(out, k.timestamp);
    push_bytes(out, &k.name);
    proof {
        assert(final(out)@ =~= old(out)@ + enc_key(k@));
    }
}

/// Appends the encoding of one value.
fn push_value(out: &mut Vec<u8>, v: &Value)
    ensures
        final(out)@ == old(out)@ + enc_value(v@),
{
    match &v.data {
        Data::StringData(s) => {
            out.push(STRING_DATA_TAG);
            push_bytes(out, s);
            proof {
                assert(final(out)@ =~= old(out)@ + enc_value(v@));
            }
        },
    }
}

/// Encodes a fragment; the result is exactly `enc_fragment` of its model.
pub fn encode_fragment(f: &NodeFragment) -> (out: Vec<u8>)
    ensures
        out@ == enc_fragment(f@),
{
    let mut out: Vec<u8> = Vec::new();
    push_bytes(&mut out, &f.id.graph);
    push_bytes(&mut out, &f.id.nodeid);
    push_u64(&mut out, f.keys.len() as u64);
    let ghost head = out@;
    let nk = f.keys.len();
    let mut i: usize = 0;
    while i < nk
        invariant
            nk == f.keys@.len(),
            i <= nk,
            out@ == head + enc_keys(keys_view(f.keys@).subrange(0, i as int)),
        decreases nk - i,
    {
        push_key(&mut out, &f.keys[i]);
        proof {
            let kv = keys_view(f.keys@);
            assert(kv.subrange(0, i + 1).drop_last() =~= kv.subrange(0, i as int));
            assert(kv.subrange(0, i + 1).last() == f.keys@[i as int]@);
        }
        i = i + 1;
    }
    proof {
        assert(keys_view(f.keys@).subrange(0, nk as int) =~= keys_view(f.keys@));
    }
    push_u64(&mut out, f.values.len() as u64);
    let ghost head2 = out@;
    let nv = f.values.len();
    let mut j: usize = 0;
    while j < nv
        invariant
            nv == f.values@.len(),
            j <= nv,
            out@ == head2 + enc_values(values_view(f.values@).subrange(0, j as int)),
        decreases nv - j,
    {
        push_value(&mut out, &f.values[j]);
        proof {
            let vv = values_view(f.values@);
            assert(vv.subrange(0, j + 1).drop_last() =~= vv.subrange(0, j as int));
            assert(vv.subrange(0, j + 1).last() == f.values@[j as int]@);
        }
        j = j + 1;
    }
    proof {
        assert(values_view(f.values@).subrange(0, nv as int) =~= values_view(f.values@));
        assert(out@ =~= enc_fragment(f@));
    }
    out
}

/// Reads 8 little-endian bytes as a u64. Succeeds exactly when 8 bytes
/// remain, and the bytes pin the value down.
fn read_u64(buf: &Vec<u8>, pos: usize) -> (r: Option<(u64, usize)>)
    ensures
        r is Some <==> pos + 8 <= buf@.len(),
        r matches Some((x, p)) ==> {
            &&& p == pos + 8
            &&& spec_u64_to_le_bytes(x) == buf@.subrange(pos as int, pos + 8)
            &&& forall|x2: u64| #[trigger]
                spec_u64_to_le_bytes(x2) == buf@.subrange(pos as int, pos + 8) ==> x2 == x
        },
{
    if pos <= buf.len() && buf.len() - pos >= 8 {
        let s = slice_subrange(buf.as_slice(), pos, pos + 8);
        let x = u64_from_le_bytes(s);
        proof {
            lemma_auto_spec_u64_to_from_le_bytes();
        }
        Some((x, pos + 8))
    } else {
        None
    }
}

/// Reads a length-prefixed byte string. The parse is pinned down: at a given
/// position at most one byte string can be read, and failure means no byte
/// string ends anywhere in the buffer from this position.
fn read_chunk(buf: &Vec<u8>, pos: usize) -> (r: Option<(Vec<u8>, usize)>)
    ensures
        r matches Some((v, p)) ==> {
            &&& pos + 8 <= p <= buf@.len()
            &&& p == pos + 8 + v@.len()
            &&& buf@.subrange(pos as int, p as int) == enc_bytes(v@)
            &&& forall|b2: Seq<u8>, p2: int|
                #![trigger enc_bytes(b2), buf@.subrange(pos as int, p2)]
                pos <= p2 <= buf@.len() && buf@.subrange(pos as int, p2) == enc_bytes(b2) ==> b2
                    == v@ && p2 == p
        },
        r is None ==> forall|b2: Seq<u8>, p2: int|
            #![trigger enc_bytes(b2), buf@.subrange(pos as int, p2)]
            pos <= p2 <= buf@.len() ==> buf@.subrange(pos as int, p2) != enc_bytes(b2),
{
    let blen = buf.len();
    proof {
        lemma_auto_spec_u64_to_from_le_bytes();
    }
    match read_u64(buf, pos) {
        None => {
            proof {
                assert forall|b2: Seq<u8>, p2: int| #![trigger enc_bytes(b2), buf@.subrange(pos as int, p2)]
                    pos <= p2 <= buf@.len() implies buf@.subrange(pos as int, p2) != enc_bytes(
                    b2,
                ) by {
                    assert(enc_bytes(b2).len() == 8 + b2.len());
                }
            }
            None
        },
        Some((n, p1)) => {
            if n > (blen - p1) as u64 {
                proof {
                    assert forall|b2: Seq<u8>, p2: int| #![trigger enc_bytes(b2), buf@.subrange(pos as int, p2)]
                        pos <= p2 <= buf@.len() implies buf@.subrange(pos as int, p2)
                        != enc_bytes(b2) by {
                        if buf@.subrange(pos as int, p2) == enc_bytes(b2) {
                            assert(buf@.subrange(pos as int, p2).len() == p2 - pos);
                            assert(enc_bytes(b2).len() == 8 + b2.len());
                            assert(p2 - pos == 8 + b2.len());
                            assert(buf@.subrange(pos as int, pos + 8) =~= spec_u64_to_le_bytes(
                                b2.len() as u64,
                            ));
                            assert(b2.len() as u64 == n);
                            assert(b2.len() <= buf@.len() - pos - 8);
                            assert(b2.len() < 0x1_0000_0000_0000_0000);
                            assert(b2.len() == n);
                            assert(false);
                        }
                    }
                }
                None
            } else {
                let nus = n as usize;
                let mut v: Vec<u8> = Vec::new();
                let mut i: usize = 0;
                while i < nus
                    invariant
                        p1 + nus <= blen,
                        blen == buf@.len(),
                        i <= nus,
                        v@ == buf@.subrange(p1 as int, p1 + i),
                    decreases nus - i,
                {
                    v.push(buf[p1 + i]);
                    proof {
                        assert(buf@.subrange(p1 as int, p1 + i).push(buf@[p1 + i]) =~= buf@
                            .subrange(p1 as int, p1 + i + 1));
                    }
                    i = i + 1;
                }
                let p = p1 + nus;
                proof {
                    assert(v@.len() == nus);
                    assert(v@.len() as u64 == n);
                    assert forall|k: int| 0 <= k < p - pos implies buf@.subrange(
                        pos as int,
                        p as int,
                    )[k] == enc_bytes(v@)[k] by {
                        if k < 8 {
                            assert(buf@.subrange(pos as int, p as int)[k] == buf@.subrange(
                                pos as int,
                                pos + 8,
                            )[k]);
                        } else {
                            assert(enc_bytes(v@)[k] == v@[k - 8]);
                            assert(v@[k - 8] == buf@[p1 + k - 8]);
                        }
                    }
                    assert(buf@.subrange(pos as int, p as int) =~= enc_bytes(v@));
                    assert forall|b2: Seq<u8>, p2: int| #![trigger enc_bytes(b2), buf@.subrange(pos as int, p2)]
                        pos <= p2 <= buf@.len() && buf@.subrange(pos as int, p2) == enc_bytes(
                        b2,
                    ) implies b2 == v@ && p2 == p by {
                        assert(buf@.subrange(pos as int, p2).len() == p2 - pos);
                        assert(enc_bytes(b2).len() == 8 + b2.len());
                        assert(p2 - pos == 8 + b2.len());
                        assert(buf@.subrange(pos as int, pos + 8) =~= spec_u64_to_le_bytes(
                            b2.len() as u64,
                        ));
                        assert(b2.len() as u64 == n);
                        assert(b2.len() <= buf@.len() - pos - 8);
                        assert(b2.len() < 0x1_0000_0000_0000_0000);
                        assert(b2.len() == n);
                        assert(p2 == p);
                        assert forall|k: int| 0 <= k < b2.len() implies b2[k] == v@[k] by {
                            assert(b2[k] == buf@.subrange(pos as int, p2)[8 + k]);
                            assert(v@[k] == buf@[p1 + k]);
                        }
                        assert(b2 =~= v@);
                    }
                }
                Some((v, p))
            }
        },
    }
}

/// Reads one attribute key: timestamp, then name.
fn read_key(buf: &Vec<u8>, pos: usize) -> (r: Option<(Key, usize)>)
    ensures
        r matches Some((k, p)) ==> {
            &&& pos <= p <= buf@.len()
            &&& buf@.subrange(pos as int, p as int) == enc_key(k@)
            &&& forall|k2: KeyModel, p2: int|
                #![trigger enc_key(k2), buf@.subrange(pos as int, p2)]
                pos <= p2 <= buf@.len() && buf@.subrange(pos as int, p2) == enc_key(k2) ==> k2
                    == k@ && p2 == p
        },
        r is None ==> forall|k2: KeyModel, p2: int|
            #![trigger enc_key(k2), buf@.subrange(pos as int, p2)]
            pos <= p2 <= buf@.len() ==> buf@.subrange(pos as int, p2) != enc_key(k2),
{
    proof {
        lemma_auto_spec_u64_to_from_le_bytes();
    }
    match read_u64(buf, pos) {
        None => {
            proof {
                assert forall|k2: KeyModel, p2: int| #![trigger enc_key(k2), buf@.subrange(pos as int, p2)]
                    pos <= p2 <= buf@.len() implies buf@.subrange(pos as int, p2) != enc_key(
                    k2,
                ) by {
                    assert(enc_key(k2).len() >= 16);
                }
            }
            None
        },
        Some((ts, p1)) => {
            match read_chunk(buf, p1) {
                None => {
                    proof {
                        assert forall|k2: KeyModel, p2: int| #![trigger enc_key(k2), buf@.subrange(pos as int, p2)]
                            pos <= p2 <= buf@.len() implies buf@.subrange(pos as int, p2)
                            != enc_key(k2) by {
                            if buf@.subrange(pos as int, p2) == enc_key(k2) {
                                assert(buf@.subrange(pos as int, p2).len() == p2 - pos);
                                assert(enc_bytes(k2.name).len() == 8 + k2.name.len());
                                assert(enc_key(k2).len() == 16 + k2.name.len());
                                assert(p2 - pos == 16 + k2.name.len());
                                assert forall|j: int| 0 <= j < p2 - p1 implies buf@.subrange(
                                    p1 as int,
                                    p2,
                                )[j] == enc_bytes(k2.name)[j] by {
                                    assert(buf@.subrange(p1 as int, p2)[j] == buf@.subrange(
                                        pos as int,
                                        p2,
                                    )[j + 8]);
                                }
                                assert(buf@.subrange(p1 as int, p2) =~= enc_bytes(k2.name));
                                assert(false);
                            }
                        }
                    }
                    None
                },
                Some((name, p)) => {
                    let k = Key { timestamp: ts, name };
                    proof {
                        assert forall|j: int| 0 <= j < p - pos implies buf@.subrange(
                            pos as int,
                            p as int,
                        )[j] == enc_key(k@)[j] by {
                            if j < 8 {
                                assert(buf@.subrange(pos as int, p as int)[j] == buf@.subrange(
                                    pos as int,
                                    pos + 8,
                                )[j]);
                            } else {
                                assert(enc_key(k@)[j] == enc_bytes(k@.name)[j - 8]);
                                assert(buf@.subrange(pos as int, p as int)[j] == buf@.subrange(
                                    p1 as int,
                                    p as int,
                                )[j - 8]);
                            }
                        }
                        assert(buf@.subrange(pos as int, p as int) =~= enc_key(k@));
                        assert forall|k2: KeyModel, p2: int| #![trigger enc_key(k2), buf@.subrange(pos as int, p2)]
                            pos <= p2 <= buf@.len() && buf@.subrange(pos as int, p2)
                                == enc_key(k2) implies k2 == k@ && p2 == p by {
                            assert(buf@.subrange(pos as int, p2).len() == p2 - pos);
                            assert(enc_bytes(k2.name).len() == 8 + k2.name.len());
                            assert(enc_key(k2).len() == 16 + k2.name.len());
                            assert forall|j: int| 0 <= j < 8 implies buf@.subrange(
                                pos as int,
                                pos + 8,
                            )[j] == spec_u64_to_le_bytes(k2.timestamp)[j] by {
                                assert(buf@.subrange(pos as int, pos + 8)[j] == buf@.subrange(
                                    pos as int,
                                    p2,
                                )[j]);
                            }
                            assert(buf@.subrange(pos as int, pos + 8) =~= spec_u64_to_le_bytes(
                                k2.timestamp,
                            ));
                            assert(k2.timestamp == ts);
                            assert forall|j: int| 0 <= j < p2 - p1 implies buf@.subrange(
                                p1 as int,
                                p2,
                            )[j] == enc_bytes(k2.name)[j] by {
                                assert(buf@.subrange(p1 as int, p2)[j] == buf@.subrange(
                                    pos as int,
                                    p2,
                                )[j + 8]);
                            }
                            assert(buf@.subrange(p1 as int, p2) =~= enc_bytes(k2.name));
                            assert(k2.name == name@ && p2 == p);
                            assert(k2 =~= k@);
                        }
                    }
                    Some((k, p))
                },
            }
        },
    }
}

/// Reads one attribute value: variant tag, then payload.
fn read_value(buf: &Vec<u8>, pos: usize) -> (r: Option<(Value, usize)>)
    ensures
        r matches Some((v, p)) ==> {
            &&& pos <= p <= buf@.len()
            &&& buf@.subrange(pos as int, p as int) == enc_value(v@)
            &&& forall|v2: ValueModel, p2: int|
                #![trigger enc_value(v2), buf@.subrange(pos as int, p2)]
                pos <= p2 <= buf@.len() && buf@.subrange(pos as int, p2) == enc_value(v2) ==> v2
                    == v@ && p2 == p
        },
        r is None ==> forall|v2: ValueModel, p2: int|
            #![trigger enc_value(v2), buf@.subrange(pos as int, p2)]
            pos <= p2 <= buf@.len() ==> buf@.subrange(pos as int, p2) != enc_value(v2),
{
    proof {
        lemma_auto_spec_u64_to_from_le_bytes();
    }
    if pos >= buf.len() {
        proof {
            assert forall|v2: ValueModel, p2: int| #![trigger enc_value(v2), buf@.subrange(pos as int, p2)]
                pos <= p2 <= buf@.len() implies buf@.subrange(pos as int, p2) != enc_value(
                v2,
            ) by {
                assert(enc_value(v2).len() >= 9);
            }
        }
        return None;
    }
    let tag = buf[pos];
    if tag != STRING_DATA_TAG {
        proof {
            assert forall|v2: ValueModel, p2: int| #![trigger enc_value(v2), buf@.subrange(pos as int, p2)]
                pos <= p2 <= buf@.len() implies buf@.subrange(pos as int, p2) != enc_value(
                v2,
            ) by {
                if buf@.subrange(pos as int, p2) == enc_value(v2) {
                    match v2.data {
                        DataModel::StringData(d) => {
                            assert(enc_value(v2).len() == 9 + d.len());
                        },
                    }
                    assert(buf@.subrange(pos as int, p2).len() == p2 - pos);
                    assert(p2 - pos >= 9);
                    assert(enc_value(v2)[0] == STRING_DATA_TAG);
                    assert(buf@.subrange(pos as int, p2)[0] == buf@[pos as int]);
                    assert(false);
                }
            }
        }
        return None;
    }
    match read_chunk(buf, pos + 1) {
        None => {
            proof {
                assert forall|v2: ValueModel, p2: int| #![trigger enc_value(v2), buf@.subrange(pos as int, p2)]
                    pos <= p2 <= buf@.len() implies buf@.subrange(pos as int, p2)
                    != enc_value(v2) by {
                    if buf@.subrange(pos as int, p2) == enc_value(v2) {
                        match v2.data {
                            DataModel::StringData(d) => {
                                assert(enc_value(v2).len() == 9 + d.len());
                            },
                        }
                        assert(buf@.subrange(pos as int, p2).len() == p2 - pos);
                        assert(p2 - pos >= 9);
                        let s2 = enc_value(v2).subrange(1, enc_value(v2).len() as int);
                        assert forall|j: int| 0 <= j < p2 - pos - 1 implies buf@.subrange(
                            pos + 1,
                            p2,
                        )[j] == s2[j] by {
                            assert(buf@.subrange(pos + 1, p2)[j] == buf@.subrange(
                                pos as int,
                                p2,
                            )[j + 1]);
                        }
                        assert(buf@.subrange(pos + 1, p2) =~= s2);
                        match v2.data {
                            DataModel::StringData(d) => {
                                assert(s2 =~= enc_bytes(d));
                            },
                        }
                        assert(false);
                    }
                }
            }
            None
        },
        Some((payload, p)) => {
            let v = Value { data: Data::StringData(payload) };
            proof {
                assert forall|j: int| 0 <= j < p - pos implies buf@.subrange(pos as int, p as int)[j]
                    == enc_value(v@)[j] by {
                    if j >= 1 {
                        assert(buf@.subrange(pos as int, p as int)[j] == buf@.subrange(
                            pos + 1,
                            p as int,
                        )[j - 1]);
                    }
                }
                assert(buf@.subrange(pos as int, p as int) =~= enc_value(v@));
                assert forall|v2: ValueModel, p2: int| #![trigger enc_value(v2), buf@.subrange(pos as int, p2)]
                    pos <= p2 <= buf@.len() && buf@.subrange(pos as int, p2) == enc_value(
                    v2,
                ) implies v2 == v@ && p2 == p by {
                    match v2.data {
                        DataModel::StringData(d) => {
                            assert(enc_value(v2).len() == 9 + d.len());
                            assert(buf@.subrange(pos as int, p2).len() == p2 - pos);
                            assert(p2 - pos == 9 + d.len());
                            assert forall|j: int| 0 <= j < p2 - pos - 1 implies buf@.subrange(
                                pos + 1,
                                p2,
                            )[j] == enc_bytes(d)[j] by {
                                assert(buf@.subrange(pos + 1, p2)[j] == buf@.subrange(
                                    pos as int,
                                    p2,
                                )[j + 1]);
                            }
                            assert(buf@.subrange(pos + 1, p2) =~= enc_bytes(d));
                            assert(d == payload@ && p2 == p);
                            assert(v2 =~= v@);
                        },
                    }
                }
            }
            Some((v, p))
        },
    }
}

/// Reads exactly `n` keys. At a given position and count the parse is
/// pinned down, and failure means no sequence of `n` keys starts here.
fn read_keys(buf: &Vec<u8>, pos: usize, n: u64) -> (r: Option<(Vec<Key>, usize)>)
    requires
        pos <= buf@.len(),
    ensures
        r matches Some((ks, p)) ==> {
            &&& pos <= p <= buf@.len()
            &&& ks@.len() == n
            &&& buf@.subrange(pos as int, p as int) == enc_keys(keys_view(ks@))
            &&& forall|ks2: Seq<KeyModel>, p2: int|
                #![trigger enc_keys(ks2), buf@.subrange(pos as int, p2)]
                ks2.len() == n && pos <= p2 <= buf@.len() && buf@.subrange(pos as int, p2)
                    == enc_keys(ks2) ==> ks2 == keys_view(ks@) && p2 == p
        },
        r is None ==> forall|ks2: Seq<KeyModel>, p2: int|
            #![trigger enc_keys(ks2), buf@.subrange(pos as int, p2)]
            ks2.len() == n && pos <= p2 <= buf@.len() ==> buf@.subrange(pos as int, p2)
                != enc_keys(ks2),
    decreases n,
{
    if n == 0 {
        let ks: Vec<Key> = Vec::new();
        proof {
            assert(keys_view(ks@) =~= Seq::<KeyModel>::empty());
            assert(buf@.subrange(pos as int, pos as int) =~= enc_keys(keys_view(ks@)));
            assert forall|ks2: Seq<KeyModel>, p2: int|
                #![trigger enc_keys(ks2), buf@.subrange(pos as int, p2)]
                ks2.len() == n && pos <= p2 <= buf@.len() && buf@.subrange(pos as int, p2)
                    == enc_keys(ks2) implies ks2 == keys_view(ks@) && p2 == pos by {
                assert(ks2 =~= keys_view(ks@));
                assert(buf@.subrange(pos as int, p2).len() == p2 - pos);
            }
        }
        return Some((ks, pos));
    }
    match read_key(buf, pos) {
        None => {
            proof {
                assert forall|ks2: Seq<KeyModel>, p2: int|
                    #![trigger enc_keys(ks2), buf@.subrange(pos as int, p2)]
                    ks2.len() == n && pos <= p2 <= buf@.len() implies buf@.subrange(
                    pos as int,
                    p2,
                ) != enc_keys(ks2) by {
                    if buf@.subrange(pos as int, p2) == enc_keys(ks2) {
                        lemma_enc_keys_first(ks2);
                        let e0 = enc_key(ks2[0]);
                        let q0 = pos + e0.len();
                        assert(buf@.subrange(pos as int, p2).len() == p2 - pos);
                        assert(q0 <= p2);
                        assert forall|j: int| 0 <= j < e0.len() implies buf@.subrange(
                            pos as int,
                            q0,
                        )[j] == e0[j] by {
                            assert(buf@.subrange(pos as int, q0)[j] == buf@.subrange(
                                pos as int,
                                p2,
                            )[j]);
                        }
                        assert(buf@.subrange(pos as int, q0) =~= enc_key(ks2[0]));
                        assert(false);
                    }
                }
            }
            None
        },
        Some((k, p1)) => {
            let ghost kg = k@;
            match read_keys(buf, p1, n - 1) {
                None => {
                    proof {
                        assert forall|ks2: Seq<KeyModel>, p2: int|
                            #![trigger enc_keys(ks2), buf@.subrange(pos as int, p2)]
                            ks2.len() == n && pos <= p2 <= buf@.len() implies buf@.subrange(
                            pos as int,
                            p2,
                        ) != enc_keys(ks2) by {
                            if buf@.subrange(pos as int, p2) == enc_keys(ks2) {
                                lemma_enc_keys_first(ks2);
                                let e0 = enc_key(ks2[0]);
                                let q0 = pos + e0.len();
                                assert(buf@.subrange(pos as int, p2).len() == p2 - pos);
                                assert(q0 <= p2);
                                assert forall|j: int| 0 <= j < e0.len() implies buf@.subrange(
                                    pos as int,
                                    q0,
                                )[j] == e0[j] by {
                                    assert(buf@.subrange(pos as int, q0)[j] == buf@.subrange(
                                        pos as int,
                                        p2,
                                    )[j]);
                                }
                                assert(buf@.subrange(pos as int, q0) =~= enc_key(ks2[0]));
                                assert(ks2[0] == kg && q0 == p1);
                                let tail = ks2.subrange(1, ks2.len() as int);
                                assert forall|j: int| 0 <= j < p2 - p1 implies buf@.subrange(
                                    p1 as int,
                                    p2,
                                )[j] == enc_keys(tail)[j] by {
                                    assert(buf@.subrange(p1 as int, p2)[j] == buf@.subrange(
                                        pos as int,
                                        p2,
                                    )[j + (p1 - pos)]);
                                }
                                assert(buf@.subrange(p1 as int, p2) =~= enc_keys(tail));
                                assert(false);
                            }
                        }
                    }
                    None
                },
                Some((rest, p)) => {
                    let ghost restg = rest@;
                    let mut ks = rest;
                    ks.insert(0, k);
                    proof {
                        restg.insert_ensures(0, k);
                        assert(ks@[0] == k);
                        let kv = keys_view(ks@);
                        assert(kv.len() == n);
                        assert(kv[0] == kg);
                        assert forall|j: int| 1 <= j < kv.len() implies kv[j] == keys_view(
                            restg,
                        )[j - 1] by {
                            assert(ks@[j] == restg[j - 1]);
                        }
                        assert(kv.subrange(1, kv.len() as int) =~= keys_view(restg));
                        lemma_enc_keys_first(kv);
                        assert forall|j: int| 0 <= j < p - pos implies buf@.subrange(
                            pos as int,
                            p as int,
                        )[j] == enc_keys(kv)[j] by {
                            if j < p1 - pos {
                                assert(buf@.subrange(pos as int, p as int)[j] == buf@.subrange(
                                    pos as int,
                                    p1 as int,
                                )[j]);
                            } else {
                                assert(buf@.subrange(pos as int, p as int)[j] == buf@.subrange(
                                    p1 as int,
                                    p as int,
                                )[j - (p1 - pos)]);
                            }
                        }
                        assert(buf@.subrange(pos as int, p as int) =~= enc_keys(kv));
                        assert forall|ks2: Seq<KeyModel>, p2: int|
                            #![trigger enc_keys(ks2), buf@.subrange(pos as int, p2)]
                            ks2.len() == n && pos <= p2 <= buf@.len() && buf@.subrange(
                            pos as int,
                            p2,
                        ) == enc_keys(ks2) implies ks2 == kv && p2 == p by {
                            lemma_enc_keys_first(ks2);
                            let e0 = enc_key(ks2[0]);
                            let q0 = pos + e0.len();
                            assert(buf@.subrange(pos as int, p2).len() == p2 - pos);
                            assert(q0 <= p2);
                            assert forall|j: int| 0 <= j < e0.len() implies buf@.subrange(
                                pos as int,
                                q0,
                            )[j] == e0[j] by {
                                assert(buf@.subrange(pos as int, q0)[j] == buf@.subrange(
                                    pos as int,
                                    p2,
                                )[j]);
                            }
                            assert(buf@.subrange(pos as int, q0) =~= enc_key(ks2[0]));
                            assert(ks2[0] == kg && q0 == p1);
                            let tail = ks2.subrange(1, ks2.len() as int);
                            assert forall|j: int| 0 <= j < p2 - p1 implies buf@.subrange(
                                p1 as int,
                                p2,
                            )[j] == enc_keys(tail)[j] by {
                                assert(buf@.subrange(p1 as int, p2)[j] == buf@.subrange(
                                    pos as int,
                                    p2,
                                )[j + (p1 - pos)]);
                            }
                            assert(buf@.subrange(p1 as int, p2) =~= enc_keys(tail));
                            assert(tail == keys_view(restg) && p2 == p);
                            assert(ks2 =~= kv);
                        }
                    }
                    Some((ks, p))
                },
            }
        },
    }
}

/// Reads exactly `n` values. At a given position and count the parse is
/// pinned down, and failure means no sequence of `n` values starts here.
fn read_values(buf: &Vec<u8>, pos: usize, n: u64) -> (r: Option<(Vec<Value>, usize)>)
    requires
        pos <= buf@.len(),
    ensures
        r matches Some((vs, p)) ==> {
            &&& pos <= p <= buf@.len()
            &&& vs@.len() == n
            &&& buf@.subrange(pos as int, p as int) == enc_values(values_view(vs@))
            &&& forall|vs2: Seq<ValueModel>, p2: int|
                #![trigger enc_values(vs2), buf@.subrange(pos as int, p2)]
                vs2.len() == n && pos <= p2 <= buf@.len() && buf@.subrange(pos as int, p2)
                    == enc_values(vs2) ==> vs2 == values_view(vs@) && p2 == p
        },
        r is None ==> forall|vs2: Seq<ValueModel>, p2: int|
            #![trigger enc_values(vs2), buf@.subrange(pos as int, p2)]
            vs2.len() == n && pos <= p2 <= buf@.len() ==> buf@.subrange(pos as int, p2)
                != enc_values(vs2),
    decreases n,
{
    if n == 0 {
        let vs: Vec<Value> = Vec::new();
        proof {
            assert(values_view(vs@) =~= Seq::<ValueModel>::empty());
            assert(buf@.subrange(pos as int, pos as int) =~= enc_values(values_view(vs@)));
            assert forall|vs2: Seq<ValueModel>, p2: int|
                #![trigger enc_values(vs2), buf@.subrange(pos as int, p2)]
                vs2.len() == n && pos <= p2 <= buf@.len() && buf@.subrange(pos as int, p2)
                    == enc_values(vs2) implies vs2 == values_view(vs@) && p2 == pos by {
                assert(vs2 =~= values_view(vs@));
                assert(buf@.subrange(pos as int, p2).len() == p2 - pos);
            }
        }
        return Some((vs, pos));
    }
    match read_value(buf, pos) {
        None => {
            proof {
                assert forall|vs2: Seq<ValueModel>, p2: int|
                    #![trigger enc_values(vs2), buf@.subrange(pos as int, p2)]
                    vs2.len() == n && pos <= p2 <= buf@.len() implies buf@.subrange(
                    pos as int,
                    p2,
                ) != enc_values(vs2) by {
                    if buf@.subrange(pos as int, p2) == enc_values(vs2) {
                        lemma_enc_values_first(vs2);
                        let e0 = enc_value(vs2[0]);
                        let q0 = pos + e0.len();
                        assert(buf@.subrange(pos as int, p2).len() == p2 - pos);
                        assert(q0 <= p2);
                        assert forall|j: int| 0 <= j < e0.len() implies buf@.subrange(
                            pos as int,
                            q0,
                        )[j] == e0[j] by {
                            assert(buf@.subrange(pos as int, q0)[j] == buf@.subrange(
                                pos as int,
                                p2,
                            )[j]);
                        }
                        assert(buf@.subrange(pos as int, q0) =~= enc_value(vs2[0]));
                        assert(false);
                    }
                }
            }
            None
        },
        Some((k, p1)) => {
            let ghost vg = k@;
            match read_values(buf, p1, n - 1) {
                None => {
                    proof {
                        assert forall|vs2: Seq<ValueModel>, p2: int|
                            #![trigger enc_values(vs2), buf@.subrange(pos as int, p2)]
                            vs2.len() == n && pos <= p2 <= buf@.len() implies buf@.subrange(
                            pos as int,
                            p2,
                        ) != enc_values(vs2) by {
                            if buf@.subrange(pos as int, p2) == enc_values(vs2) {
                                lemma_enc_values_first(vs2);
                                let e0 = enc_value(vs2[0]);
                                let q0 = pos + e0.len();
                                assert(buf@.subrange(pos as int, p2).len() == p2 - pos);
                                assert(q0 <= p2);
                                assert forall|j: int| 0 <= j < e0.len() implies buf@.subrange(
                                    pos as int,
                                    q0,
                                )[j] == e0[j] by {
                                    assert(buf@.subrange(pos as int, q0)[j] == buf@.subrange(
                                        pos as int,
                                        p2,
                                    )[j]);
                                }
                                assert(buf@.subrange(pos as int, q0) =~= enc_value(vs2[0]));
                                assert(vs2[0] == vg && q0 == p1);
                                let tail = vs2.subrange(1, vs2.len() as int);
                                assert forall|j: int| 0 <= j < p2 - p1 implies buf@.subrange(
                                    p1 as int,
                                    p2,
                                )[j] == enc_values(tail)[j] by {
                                    assert(buf@.subrange(p1 as int, p2)[j] == buf@.subrange(
                                        pos as int,
                                        p2,
                                    )[j + (p1 - pos)]);
                                }
                                assert(buf@.subrange(p1 as int, p2) =~= enc_values(tail));
                                assert(false);
                            }
                        }
                    }
                    None
                },
                Some((rest, p)) => {
                    let ghost restg = rest@;
                    let mut vs = rest;
                    vs.insert(0, k);
                    proof {
                        restg.insert_ensures(0, k);
                        assert(vs@[0] == k);
                        let vv = values_view(vs@);
                        assert(vv.len() == n);
                        assert(vv[0] == vg);
                        assert forall|j: int| 1 <= j < vv.len() implies vv[j] == values_view(
                            restg,
                        )[j - 1] by {
                            assert(vs@[j] == restg[j - 1]);
                        }
                        assert(vv.subrange(1, vv.len() as int) =~= values_view(restg));
                        lemma_enc_values_first(vv);
                        assert forall|j: int| 0 <= j < p - pos implies buf@.subrange(
                            pos as int,
                            p as int,
                        )[j] == enc_values(vv)[j] by {
                            if j < p1 - pos {
                                assert(buf@.subrange(pos as int, p as int)[j] == buf@.subrange(
                                    pos as int,
                                    p1 as int,
                                )[j]);
                            } else {
                                assert(buf@.subrange(pos as int, p as int)[j] == buf@.subrange(
                                    p1 as int,
                                    p as int,
                                )[j - (p1 - pos)]);
                            }
                        }
                        assert(buf@.subrange(pos as int, p as int) =~= enc_values(vv));
                        assert forall|vs2: Seq<ValueModel>, p2: int|
                            #![trigger enc_values(vs2), buf@.subrange(pos as int, p2)]
                            vs2.len() == n && pos <= p2 <= buf@.len() && buf@.subrange(
                            pos as int,
                            p2,
                        ) == enc_values(vs2) implies vs2 == vv && p2 == p by {
                            lemma_enc_values_first(vs2);
                            let e0 = enc_value(vs2[0]);
                            let q0 = pos + e0.len();
                            assert(buf@.subrange(pos as int, p2).len() == p2 - pos);
                            assert(q0 <= p2);
                            assert forall|j: int| 0 <= j < e0.len() implies buf@.subrange(
                                pos as int,
                                q0,
                            )[j] == e0[j] by {
                                assert(buf@.subrange(pos as int, q0)[j] == buf@.subrange(
                                    pos as int,
                                    p2,
                                )[j]);
                            }
                            assert(buf@.subrange(pos as int, q0) =~= enc_value(vs2[0]));
                            assert(vs2[0] == vg && q0 == p1);
                            let tail = vs2.subrange(1, vs2.len() as int);
                            assert forall|j: int| 0 <= j < p2 - p1 implies buf@.subrange(
                                p1 as int,
                                p2,
                            )[j] == enc_values(tail)[j] by {
                                assert(buf@.subrange(p1 as int, p2)[j] == buf@.subrange(
                                    pos as int,
                                    p2,
                                )[j + (p1 - pos)]);
                            }
                            assert(buf@.subrange(p1 as int, p2) =~= enc_values(tail));
                            assert(tail == values_view(restg) && p2 == p);
                            assert(vs2 =~= vv);
                        }
                    }
                    Some((vs, p))
                },
            }
        },
    }
}

/// Encodes a placement record as 32 bytes.
pub fn encode_pointer(p: &Pointer) -> (out: Vec<u8>)
    ensures
        out@ == enc_pointer(*p),
{
    let mut out: Vec<u8> = Vec::new();
    push_u64(&mut out, p.partition_key);
    push_u64(&mut out, p.offset);
    push_u64(&mut out, p.length);
    push_u64(&mut out, p.filename);
    proof {
        assert(out@ =~= enc_pointer(*p));
    }
    out
}


/// End of the graph-name segment inside an encoded fragment.
pub open spec fn fg_c1(g: FragmentModel) -> int {
    enc_bytes(g.id.graph).len() as int
}

/// End of the node-id segment.
pub open spec fn fg_c2(g: FragmentModel) -> int {
    fg_c1(g) + enc_bytes(g.id.nodeid).len()
}

/// End of the key-count segment.
pub open spec fn fg_c3(g: FragmentModel) -> int {
    fg_c2(g) + 8
}

/// End of the keys segment.
pub open spec fn fg_c4(g: FragmentModel) -> int {
    fg_c3(g) + enc_keys(g.keys).len()
}

/// End of the value-count segment.
pub open spec fn fg_c5(g: FragmentModel) -> int {
    fg_c4(g) + 8
}

/// An encoded fragment splits into its six segments.
proof fn lemma_frag_segments(bufs: Seq<u8>, g: FragmentModel)
    requires
        bufs == enc_fragment(g),
    ensures
        bufs.len() == fg_c5(g) + enc_values(g.values).len(),
        0 <= fg_c1(g) <= fg_c2(g) <= fg_c3(g) <= fg_c4(g) <= fg_c5(g) <= bufs.len(),
        bufs.subrange(0, fg_c1(g)) == enc_bytes(g.id.graph),
        bufs.subrange(fg_c1(g), fg_c2(g)) == enc_bytes(g.id.nodeid),
        bufs.subrange(fg_c2(g), fg_c3(g)) == spec_u64_to_le_bytes(g.keys.len() as u64),
        bufs.subrange(fg_c3(g), fg_c4(g)) == enc_keys(g.keys),
        bufs.subrange(fg_c4(g), fg_c5(g)) == spec_u64_to_le_bytes(g.values.len() as u64),
        bufs.subrange(fg_c5(g), bufs.len() as int) == enc_values(g.values),
{
    lemma_auto_spec_u64_to_from_le_bytes();
    assert(bufs.subrange(0, fg_c1(g)) =~= enc_bytes(g.id.graph));
    assert(bufs.subrange(fg_c1(g), fg_c2(g)) =~= enc_bytes(g.id.nodeid));
    assert(bufs.subrange(fg_c2(g), fg_c3(g)) =~= spec_u64_to_le_bytes(g.keys.len() as u64));
    assert(bufs.subrange(fg_c3(g), fg_c4(g)) =~= enc_keys(g.keys));
    assert(bufs.subrange(fg_c4(g), fg_c5(g)) =~= spec_u64_to_le_bytes(g.values.len() as u64));
    assert(bufs.subrange(fg_c5(g), bufs.len() as int) =~= enc_values(g.values));
}

/// Decodes a fragment. Succeeds on exactly the buffers `encode_fragment`
/// produces, returns the one fragment that encodes to the buffer, and
/// reports `DecodeError` on everything else.
#[verifier::rlimit(100)]
#[verifier::spinoff_prover]
pub fn decode_fragment(buf: &Vec<u8>) -> (r: Result<NodeFragment, ShardError>)
    ensures
        r matches Ok(f) ==> buf@ == enc_fragment(f@),
        r matches Ok(f) ==> forall|g: FragmentModel| buf@ == enc_fragment(g) ==> g == f@,
        (exists|g: FragmentModel| buf@ == enc_fragment(g)) ==> r is Ok,
        r matches Err(e) ==> e == ShardError::DecodeError,
{
    let blen = buf.len();
    proof {
        lemma_auto_spec_u64_to_from_le_bytes();
        if exists|g: FragmentModel| buf@ == enc_fragment(g) {
            let g = choose|g: FragmentModel| buf@ == enc_fragment(g);
            lemma_frag_segments(buf@, g);
        }
    }
    let step1 = read_chunk(buf, 0);
    if step1.is_none() {
        return Err(ShardError::DecodeError);
    }
    let (graph, p1) = step1.unwrap();
    let step2 = read_chunk(buf, p1);
    if step2.is_none() {
        proof {
            if exists|g: FragmentModel| buf@ == enc_fragment(g) {
                let g = choose|g: FragmentModel| buf@ == enc_fragment(g);
                lemma_frag_segments(buf@, g);
                assert(p1 == fg_c1(g));
            }
        }
        return Err(ShardError::DecodeError);
    }
    let (nodeid, p2) = step2.unwrap();
    let step3 = read_u64(buf, p2);
    if step3.is_none() {
        proof {
            if exists|g: FragmentModel| buf@ == enc_fragment(g) {
                let g = choose|g: FragmentModel| buf@ == enc_fragment(g);
                lemma_frag_segments(buf@, g);
                assert(p2 == fg_c2(g));
            }
        }
        return Err(ShardError::DecodeError);
    }
    let (nk, p3) = step3.unwrap();
    let step4 = read_keys(buf, p3, nk);
    if step4.is_none() {
        proof {
            if exists|g: FragmentModel| buf@ == enc_fragment(g) {
                let g = choose|g: FragmentModel| buf@ == enc_fragment(g);
                lemma_frag_segments(buf@, g);
                assert(p3 == fg_c3(g));
                lemma_enc_keys_len(g.keys);
                assert(g.keys.len() as u64 == nk);
                assert(g.keys.len() == nk);
            }
        }
        return Err(ShardError::DecodeError);
    }
    let (keys, p4) = step4.unwrap();
    let step5 = read_u64(buf, p4);
    if step5.is_none() {
        proof {
            if exists|g: FragmentModel| buf@ == enc_fragment(g) {
                let g = choose|g: FragmentModel| buf@ == enc_fragment(g);
                lemma_frag_segments(buf@, g);
                assert(p3 == fg_c3(g));
                lemma_enc_keys_len(g.keys);
                assert(g.keys.len() == nk);
                assert(p4 == fg_c4(g));
            }
        }
        return Err(ShardError::DecodeError);
    }
    let (nv, p5) = step5.unwrap();
    let step6 = read_values(buf, p5, nv);
    if step6.is_none() {
        proof {
            if exists|g: FragmentModel| buf@ == enc_fragment(g) {
                let g = choose|g: FragmentModel| buf@ == enc_fragment(g);
                lemma_frag_segments(buf@, g);
                assert(p3 == fg_c3(g));
                lemma_enc_keys_len(g.keys);
                assert(g.keys.len() == nk);
                assert(p4 == fg_c4(g));
                assert(p5 == fg_c5(g));
                lemma_enc_values_len(g.values);
                assert(g.values.len() as u64 == nv);
                assert(g.values.len() == nv);
            }
        }
        return Err(ShardError::DecodeError);
    }
    let (values, p6) = step6.unwrap();
    if p6 != blen {
        proof {
            if exists|g: FragmentModel| buf@ == enc_fragment(g) {
                let g = choose|g: FragmentModel| buf@ == enc_fragment(g);
                lemma_frag_segments(buf@, g);
                assert(p3 == fg_c3(g));
                lemma_enc_keys_len(g.keys);
                assert(g.keys.len() == nk);
                assert(p4 == fg_c4(g));
                assert(p5 == fg_c5(g));
                lemma_enc_values_len(g.values);
                assert(g.values.len() == nv);
                assert(p6 == blen);
            }
        }
        return Err(ShardError::DecodeError);
    }
    let f = NodeFragment { id: NodeID { graph, nodeid }, keys, values };
    proof {
        assert(f@.keys == keys_view(keys@));
        assert(f@.keys.len() == nk);
        assert(f@.keys.len() as u64 == nk);
        assert(f@.values.len() as u64 == nv);
        assert forall|j: int| 0 <= j < blen implies buf@[j] == enc_fragment(f@)[j] by {
            assert(enc_fragment(f@).len() == blen);
            if j < p1 {
                assert(buf@.subrange(0, p1 as int)[j] == buf@[j]);
                assert(enc_fragment(f@)[j] == enc_bytes(f@.id.graph)[j]);
            } else if j < p2 {
                assert(buf@.subrange(p1 as int, p2 as int)[j - p1] == buf@[j]);
                assert(enc_fragment(f@)[j] == enc_bytes(f@.id.nodeid)[j - p1]);
            } else if j < p3 {
                assert(buf@.subrange(p2 as int, p2 + 8)[j - p2] == buf@[j]);
                assert(enc_fragment(f@)[j] == spec_u64_to_le_bytes(nk)[j - p2]);
            } else if j < p4 {
                assert(buf@.subrange(p3 as int, p4 as int)[j - p3] == buf@[j]);
                assert(enc_fragment(f@)[j] == enc_keys(f@.keys)[j - p3]);
            } else if j < p5 {
                assert(buf@.subrange(p4 as int, p4 + 8)[j - p4] == buf@[j]);
                assert(enc_fragment(f@)[j] == spec_u64_to_le_bytes(nv)[j - p4]);
            } else {
                assert(buf@.subrange(p5 as int, p6 as int)[j - p5] == buf@[j]);
                assert(enc_fragment(f@)[j] == enc_values(f@.values)[j - p5]);
            }
        }
        assert(buf@ =~= enc_fragment(f@));
        assert forall|g: FragmentModel| buf@ == enc_fragment(g) implies g == f@ by {
            lemma_frag_segments(buf@, g);
            assert(g.id.graph == graph@ && fg_c1(g) == p1);
            assert(g.id.nodeid == nodeid@ && fg_c2(g) == p2);
            lemma_enc_keys_len(g.keys);
            assert(g.keys.len() as u64 == nk);
            assert(g.keys.len() == nk);
            assert(p3 == fg_c3(g));
            assert(g.keys == keys_view(keys@) && fg_c4(g) == p4);
            lemma_enc_values_len(g.values);
            assert(g.values.len() as u64 == nv);
            assert(g.values.len() == nv);
            assert(g.values == values_view(values@));
            assert(g.id =~= f@.id);
            assert(g =~= f@);
        }
    }
    Ok(f)
}

/// Decodes a placement record from exactly 32 bytes. Succeeds on exactly
/// the buffers `encode_pointer` produces.
pub fn decode_pointer(buf: &Vec<u8>) -> (r: Result<Pointer, ShardError>)
    ensures
        r matches Ok(p) ==> buf@ == enc_pointer(p),
        r matches Ok(p) ==> forall|q: Pointer| buf@ == enc_pointer(q) ==> q == p,
        (exists|q: Pointer| buf@ == enc_pointer(q)) ==> r is Ok,
        r matches Err(e) ==> e == ShardError::DecodeError,
{
    let blen = buf.len();
    proof {
        lemma_auto_spec_u64_to_from_le_bytes();
        if exists|q: Pointer| buf@ == enc_pointer(q) {
            let q = choose|q: Pointer| buf@ == enc_pointer(q);
            assert(buf@.subrange(0, 8) =~= spec_u64_to_le_bytes(q.partition_key));
            assert(buf@.subrange(8, 16) =~= spec_u64_to_le_bytes(q.offset));
            assert(buf@.subrange(16, 24) =~= spec_u64_to_le_bytes(q.length));
            assert(buf@.subrange(24, 32) =~= spec_u64_to_le_bytes(q.filename));
        }
    }
    if blen != 32 {
        return Err(ShardError::DecodeError);
    }
    let s1 = read_u64(buf, 0);
    let s2 = read_u64(buf, 8);
    let s3 = read_u64(buf, 16);
    let s4 = read_u64(buf, 24);
    let p = Pointer {
        partition_key: s1.unwrap().0,
        offset: s2.unwrap().0,
        length: s3.unwrap().0,
        filename: s4.unwrap().0,
    };
    proof {
        assert(buf@ =~= enc_pointer(p));
        assert forall|q: Pointer| buf@ == enc_pointer(q) implies q == p by {
            assert(buf@.subrange(0, 8) =~= spec_u64_to_le_bytes(q.partition_key));
            assert(buf@.subrange(8, 16) =~= spec_u64_to_le_bytes(q.offset));
            assert(buf@.subrange(16, 24) =~= spec_u64_to_le_bytes(q.length));
            assert(buf@.subrange(24, 32) =~= spec_u64_to_le_bytes(q.filename));
        }
    }
    Ok(p)
}

} // verus!
