use tidb_dump::keycodec::{append_ts, encode_bytes, encode_row_key, DATA_PREFIX};
use tidb_dump::tabledataiterator::{Step, TableDataIterator};
use tidb_dump::tidbtypes::{CIStr, TableInfo, StatePublic};

fn table() -> TableInfo {
    TableInfo {
        id: 1,
        name: CIStr { O: "t".to_string(), L: "t".to_string() },
        charset: String::new(),
        collate: String::new(),
        cols: vec![],
        index_info: vec![],
        state: StatePublic,
        pk_is_handle: false,
        is_common_handle: false,
        common_handle_version: 0,
        comment: String::new(),
        auto_inc_id: 0,
        auto_id_cache: 0,
        update_timestamp: 1,
        version: 4,
        partition: None,
    }
}

fn store_key(handle: i64, ts: u64) -> Vec<u8> {
    let mut k = vec![DATA_PREFIX];
    k.extend_from_slice(&encode_bytes(&encode_row_key(1, handle)));
    append_ts(&k, ts)
}

fn put(start: u8, body: Option<&[u8]>) -> Vec<u8> {
    let mut v = vec![b'P', start];
    if let Some(b) = body {
        v.push(b'v');
        v.push(b.len() as u8);
        v.extend_from_slice(b);
    }
    v
}

/// Runs the engine feeding one entry at a time; returns (handle, commit ts) of each row.
fn run_streaming(defaults: &[(Vec<u8>, Vec<u8>)], writes: &[(Vec<u8>, Vec<u8>)]) -> Vec<(i64, u64)> {
    let t = table();
    let mut e = TableDataIterator::streaming(&t);
    let (mut di, mut wi) = (0, 0);
    let mut out = vec![];
    loop {
        match e.step() {
            Step::Row(r) => out.push((r.handle_int, r.append_ts)),
            Step::Hidden => {}
            Step::Error(err) => panic!("{:?}", err),
            Step::NeedDefaults => {
                if di < defaults.len() {
                    e.feed_defaults(&vec![defaults[di].clone()]);
                    di += 1;
                } else {
                    e.finish_defaults();
                }
            }
            Step::NeedWrites => {
                if wi < writes.len() {
                    e.feed_writes(&vec![writes[wi].clone()]);
                    wi += 1;
                } else {
                    e.finish_writes();
                }
            }
            Step::Done => break,
        }
    }
    out
}

fn run_whole(defaults: &[(Vec<u8>, Vec<u8>)], writes: &[(Vec<u8>, Vec<u8>)]) -> Vec<(i64, u64)> {
    let t = table();
    let (d, w) = (defaults.to_vec(), writes.to_vec());
    let mut e = TableDataIterator::new(&t, &d, &w);
    let mut out = vec![];
    while let Some(r) = e.next() {
        let r = r.unwrap();
        out.push((r.handle_int, r.append_ts));
    }
    out
}

#[test]
fn streaming_matches_whole_input() {
    let body = [128u8, 0, 0, 0, 0, 0];
    let defaults = vec![(store_key(2, 50), body.to_vec()), (store_key(4, 70), body.to_vec())];
    let writes = vec![
        (store_key(1, 30), put(29, Some(&body))),
        (store_key(2, 60), vec![b'D', 55]),
        (store_key(2, 50), put(49, None)),
        (store_key(3, 90), vec![b'D', 10]),
        (store_key(3, 20), put(19, Some(&body))),
        (store_key(4, 70), put(69, None)),
        (store_key(5, 10), vec![b'L', 9]),
    ];
    let whole = run_whole(&defaults, &writes);
    assert_eq!(whole, vec![(1, 30), (3, 20), (4, 70)]);
    assert_eq!(run_streaming(&defaults, &writes), whole);
}

#[test]
fn streaming_asks_for_both_streams_first() {
    let t = table();
    let mut e = TableDataIterator::streaming(&t);
    assert!(matches!(e.step(), Step::NeedDefaults));
    e.feed_defaults(&vec![]);
    assert!(matches!(e.step(), Step::NeedDefaults));
    e.finish_defaults();
    assert!(matches!(e.step(), Step::NeedWrites));
    let body = [128u8, 0, 0, 0, 0, 0];
    e.feed_writes(&vec![(store_key(1, 30), put(29, Some(&body)))]);
    // the write stream may still hold older versions of handle 1
    assert!(matches!(e.step(), Step::NeedWrites));
    e.feed_writes(&vec![(store_key(2, 30), put(29, Some(&body)))]);
    assert!(matches!(e.step(), Step::Row(_)));
    assert!(matches!(e.step(), Step::NeedWrites));
    e.finish_writes();
    assert!(matches!(e.step(), Step::Row(_)));
    assert!(matches!(e.step(), Step::Done));
}
