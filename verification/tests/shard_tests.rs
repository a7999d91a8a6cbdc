use rand::seq::SliceRandom;
use shard::types::{Data, Key, NodeFragment, NodeID, Pointer, ShardError, Value};
use shard::worker::{ShardEvent, ShardReply, ShardWorker};

fn node_id(graph: &str, id: &str) -> NodeID {
    NodeID { graph: graph.as_bytes().to_vec(), nodeid: id.as_bytes().to_vec() }
}

fn sample_fragment(id: &str, timestamp: u64) -> NodeFragment {
    NodeFragment {
        id: node_id("default", id),
        keys: vec![
            Key { timestamp, name: b"name".to_vec() },
            Key { timestamp, name: b"uses".to_vec() },
            Key { timestamp, name: b"eats".to_vec() },
        ],
        values: vec![
            Value { data: Data::StringData(b"Austin Harris".to_vec()) },
            Value { data: Data::StringData(b"Linux".to_vec()) },
            Value { data: Data::StringData(b"Pizza".to_vec()) },
        ],
    }
}

fn assert_sample_fragment(frag: &NodeFragment, id: &str, timestamp: u64) {
    assert_eq!(frag.id.graph, b"default".to_vec());
    assert_eq!(frag.id.nodeid, id.as_bytes().to_vec());
    assert_eq!(frag.keys.len(), 3);
    assert_eq!(frag.values.len(), 3);
    let names: Vec<&[u8]> = vec![b"name", b"uses", b"eats"];
    let payloads: Vec<&[u8]> = vec![b"Austin Harris", b"Linux", b"Pizza"];
    for i in 0..3 {
        assert_eq!(frag.keys[i].timestamp, timestamp);
        assert_eq!(frag.keys[i].name, names[i].to_vec());
        let Data::StringData(ref s) = frag.values[i].data;
        assert_eq!(s, &payloads[i].to_vec());
    }
}

fn write_batch(worker: &mut ShardWorker, frags: Vec<NodeFragment>) -> Result<(), ShardError> {
    let r = worker.step(ShardEvent::BeginBatch);
    assert!(matches!(r, ShardReply::NoReply));
    for f in frags {
        let r = worker.step(ShardEvent::Fragment(f));
        assert!(matches!(r, ShardReply::NoReply));
    }
    match worker.step(ShardEvent::EndBatch) {
        ShardReply::WriteDone(res) => res,
        _ => panic!("stream close must be acknowledged with the batch result"),
    }
}

fn read_by_id(worker: &mut ShardWorker, id: NodeID) -> Result<NodeFragment, ShardError> {
    match worker.step(ShardEvent::Read(id)) {
        ShardReply::ReadDone(res) => res,
        _ => panic!("a read while idle must be answered"),
    }
}

#[test]
fn concrete_scenario_three_fragments() {
    let mut worker = ShardWorker::new(1);
    let frags = vec![
        sample_fragment("0", 7),
        sample_fragment("1", 7),
        sample_fragment("2", 7),
    ];
    assert!(write_batch(&mut worker, frags).is_ok());
    let got = read_by_id(&mut worker, node_id("default", "1")).expect("written id must be found");
    assert_sample_fragment(&got, "1", 7);
}

#[test]
fn round_trip_all_written_ids() {
    let mut worker = ShardWorker::new(1);
    let n = 50;
    let mut frags = Vec::new();
    for i in 0..n {
        frags.push(sample_fragment(&i.to_string(), i as u64));
    }
    assert!(write_batch(&mut worker, frags).is_ok());
    for i in 0..n {
        let got = read_by_id(&mut worker, node_id("default", &i.to_string()))
            .expect("written id must be found");
        assert_sample_fragment(&got, &i.to_string(), i as u64);
    }
}

#[test]
fn empty_batch_succeeds_and_writes_nothing() {
    let mut worker = ShardWorker::new(1);
    let res = write_batch(&mut worker, Vec::new());
    assert!(res.is_ok());
    assert_eq!(worker.store.files.len(), 1);
    assert_eq!(worker.store.files[0].data.len(), 0);
    assert_eq!(worker.index.entries.len(), 0);
    // a read after the empty batch still misses
    let miss = read_by_id(&mut worker, node_id("default", "0"));
    assert!(matches!(miss, Err(ShardError::NotFound)));
}

#[test]
fn read_of_unwritten_id_is_not_found() {
    let mut worker = ShardWorker::new(1);
    let miss = read_by_id(&mut worker, node_id("default", "nowhere"));
    assert!(matches!(miss, Err(ShardError::NotFound)));
    // the worker keeps serving afterwards
    assert!(write_batch(&mut worker, vec![sample_fragment("0", 1)]).is_ok());
    assert!(read_by_id(&mut worker, node_id("default", "0")).is_ok());
}

#[test]
fn shard_independence() {
    let mut shard_a = ShardWorker::new(1);
    let mut shard_b = ShardWorker::new(2);
    let mut frags_a = Vec::new();
    for i in 0..20 {
        frags_a.push(sample_fragment(&i.to_string(), 3));
    }
    let mut frags_b = Vec::new();
    for i in 20..40 {
        frags_b.push(sample_fragment(&i.to_string(), 4));
    }
    assert!(write_batch(&mut shard_b, frags_b).is_ok());
    let b_file_before = shard_b.store.files[0].data.clone();
    let b_entries_before = shard_b.index.entries.len();
    assert!(write_batch(&mut shard_a, frags_a).is_ok());
    // writing to shard A left shard B's file and index contents untouched
    assert_eq!(shard_b.store.files[0].data, b_file_before);
    assert_eq!(shard_b.index.entries.len(), b_entries_before);
    // each shard holds exactly its own ids
    for i in 0..20 {
        let id = i.to_string();
        assert!(read_by_id(&mut shard_a, node_id("default", &id)).is_ok());
        assert!(matches!(
            read_by_id(&mut shard_b, node_id("default", &id)),
            Err(ShardError::NotFound)
        ));
    }
    for i in 20..40 {
        let id = i.to_string();
        assert!(read_by_id(&mut shard_b, node_id("default", &id)).is_ok());
        assert!(matches!(
            read_by_id(&mut shard_a, node_id("default", &id)),
            Err(ShardError::NotFound)
        ));
    }
    assert_eq!(shard_a.index.entries.len(), 20);
    assert_eq!(shard_b.index.entries.len(), 20);
    assert_eq!(shard_a.store.partition, 1);
    assert_eq!(shard_b.store.partition, 2);
}

#[test]
fn large_ingest_and_random_reads() {
    let n: usize = 2000;
    let mut worker = ShardWorker::new(1);
    let mut frags = Vec::new();
    for i in 0..n {
        frags.push(sample_fragment(&i.to_string(), i as u64));
    }
    assert!(write_batch(&mut worker, frags).is_ok());
    let mut ids: Vec<usize> = (0..n / 10).collect();
    let mut rng = rand::rng();
    ids.shuffle(&mut rng);
    for i in ids {
        let got = read_by_id(&mut worker, node_id("default", &i.to_string()))
            .expect("written id must be found");
        assert_sample_fragment(&got, &i.to_string(), i as u64);
    }
}

#[test]
fn upsert_last_write_wins() {
    let mut worker = ShardWorker::new(1);
    assert!(write_batch(&mut worker, vec![sample_fragment("7", 100)]).is_ok());
    // a second batch re-fragments the same node id with a new timestamp
    assert!(write_batch(&mut worker, vec![sample_fragment("7", 200)]).is_ok());
    let got = read_by_id(&mut worker, node_id("default", "7")).expect("id must be found");
    assert_sample_fragment(&got, "7", 200);
}

#[test]
fn fail_fast_on_malformed_fragment() {
    let mut worker = ShardWorker::new(1);
    let bad = NodeFragment {
        id: node_id("default", "bad"),
        keys: vec![Key { timestamp: 1, name: b"name".to_vec() }],
        values: Vec::new(),
    };
    let res = write_batch(&mut worker, vec![sample_fragment("0", 1), bad, sample_fragment("1", 1)]);
    assert!(matches!(res, Err(ShardError::EncodeError)));
    // the fragment after the failure was drained without effect
    let miss = read_by_id(&mut worker, node_id("default", "1"));
    assert!(matches!(miss, Err(ShardError::NotFound)));
    // the worker keeps serving subsequent commands
    assert!(write_batch(&mut worker, vec![sample_fragment("2", 1)]).is_ok());
    assert!(read_by_id(&mut worker, node_id("default", "2")).is_ok());
}

#[test]
fn graphs_distinguish_node_ids() {
    let mut worker = ShardWorker::new(1);
    let mut frag = sample_fragment("x", 5);
    frag.id = NodeID { graph: b"other".to_vec(), nodeid: b"x".to_vec() };
    assert!(write_batch(&mut worker, vec![frag]).is_ok());
    assert!(read_by_id(&mut worker, NodeID {
        graph: b"other".to_vec(),
        nodeid: b"x".to_vec(),
    })
    .is_ok());
    assert!(matches!(
        read_by_id(&mut worker, node_id("default", "x")),
        Err(ShardError::NotFound)
    ));
}

#[test]
fn pointer_fields_describe_the_shard() {
    let p = Pointer { partition_key: 101, offset: 202, length: 303, filename: 404 };
    assert_eq!(p.partition_key, 101);
    assert_eq!(p.offset, 202);
    assert_eq!(p.length, 303);
    assert_eq!(p.filename, 404);
}
