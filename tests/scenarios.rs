use tidb_dump::csvwriter::row_to_csv;
use tidb_dump::keycodec::{append_ts, encode_bytes, encode_row_key, DATA_PREFIX};
use tidb_dump::tabledataiterator::TableDataIterator;
use tidb_dump::tidbtypes::{
    CIStr, ColumnInfo, FieldType, PartitionDefinition, PartitionInfo, TableInfo, StatePublic, TP_LONG,
};

fn name(s: &str) -> CIStr {
    CIStr { O: s.to_string(), L: s.to_lowercase() }
}

fn int_column(id: i64, flag: u32) -> ColumnInfo {
    ColumnInfo {
        id,
        name: name(&format!("c{}", id)),
        offset: (id - 1) as i32,
        field_type: FieldType {
            Tp: TP_LONG,
            Flag: flag,
            Flen: 11,
            Decimal: 0,
            Charset: "binary".to_string(),
            Collate: "binary".to_string(),
            Elems: vec![],
        },
        state: StatePublic,
        comment: String::new(),
        hidden: false,
        version: 2,
    }
}

fn table(id: i64, cols: Vec<ColumnInfo>, pk_is_handle: bool) -> TableInfo {
    TableInfo {
        id,
        name: name("t"),
        charset: "utf8mb4".to_string(),
        collate: "utf8mb4_bin".to_string(),
        cols,
        index_info: vec![],
        state: StatePublic,
        pk_is_handle,
        is_common_handle: false,
        common_handle_version: 0,
        comment: String::new(),
        auto_inc_id: 0,
        auto_id_cache: 0,
        update_timestamp: 1,
        version: 4,
        partition: None,
    }
}

/// A small row-v2 value whose non-null columns are `(id, bytes)`, ids ascending.
fn row_v2(cols: &[(u8, Vec<u8>)]) -> Vec<u8> {
    let mut v = vec![128u8, 0, cols.len() as u8, 0, 0, 0];
    for (id, _) in cols {
        v.push(*id);
    }
    let mut end: u16 = 0;
    for (_, bytes) in cols {
        end += bytes.len() as u16;
        v.extend_from_slice(&end.to_le_bytes());
    }
    for (_, bytes) in cols {
        v.extend_from_slice(bytes);
    }
    v
}

fn store_key(table_id: i64, handle: i64, ts: u64) -> Vec<u8> {
    let user = encode_row_key(table_id, handle);
    let mut k = vec![DATA_PREFIX];
    k.extend_from_slice(&encode_bytes(&user));
    append_ts(&k, ts)
}

fn varint(mut x: u64) -> Vec<u8> {
    let mut out = vec![];
    while x >= 0x80 {
        out.push((x as u8) | 0x80);
        x >>= 7;
    }
    out.push(x as u8);
    out
}

fn put(start_ts: u64, short_value: Option<&[u8]>) -> Vec<u8> {
    let mut v = vec![b'P'];
    v.extend_from_slice(&varint(start_ts));
    if let Some(sv) = short_value {
        v.push(b'v');
        v.push(sv.len() as u8);
        v.extend_from_slice(sv);
    }
    v
}

fn delete(start_ts: u64) -> Vec<u8> {
    let mut v = vec![b'D'];
    v.extend_from_slice(&varint(start_ts));
    v
}

fn export(t: &TableInfo, defaults: Vec<(Vec<u8>, Vec<u8>)>, writes: Vec<(Vec<u8>, Vec<u8>)>) -> String {
    let mut it = TableDataIterator::new(t, &defaults, &writes);
    let mut out = Vec::new();
    while let Some(row) = it.next() {
        let row = row.expect("row");
        out.extend_from_slice(&row_to_csv(&row, t).expect("csv"));
    }
    String::from_utf8(out).unwrap()
}

#[test]
fn single_put_with_inline_value() {
    let t = table(1, vec![int_column(1, 0)], false);
    let blob = row_v2(&[(1, vec![42])]);
    let writes = vec![(store_key(1, 7, 101), put(100, Some(&blob)))];
    assert_eq!(export(&t, vec![], writes), "42\n");
}

#[test]
fn put_then_delete() {
    let t = table(1, vec![int_column(1, 0)], false);
    let blob = row_v2(&[(1, vec![42])]);
    let writes = vec![
        (store_key(1, 7, 201), delete(200)),
        (store_key(1, 7, 101), put(100, Some(&blob))),
    ];
    assert_eq!(export(&t, vec![], writes), "");
}

#[test]
fn large_row_split_across_column_families() {
    let t = table(1, vec![int_column(1, 0)], false);
    let blob = row_v2(&[(1, vec![42])]);
    let defaults = vec![(store_key(1, 7, 101), blob)];
    let writes = vec![(store_key(1, 7, 101), put(100, None))];
    assert_eq!(export(&t, defaults, writes), "42\n");
}

#[test]
fn superseded_put() {
    let t = table(1, vec![int_column(1, 0)], false);
    let old = row_v2(&[(1, vec![1])]);
    let new = row_v2(&[(1, vec![2])]);
    let writes = vec![
        (store_key(1, 7, 202), put(201, Some(&new))),
        (store_key(1, 7, 101), put(100, Some(&old))),
    ];
    assert_eq!(export(&t, vec![], writes), "2\n");
}

#[test]
fn primary_key_in_handle() {
    // column 1: primary key, unsigned; column 2: a plain int
    let t = table(1, vec![int_column(1, 2 | 32), int_column(2, 0)], true);
    let blob = row_v2(&[(2, vec![5])]);
    let writes = vec![(store_key(1, -1, 101), put(100, Some(&blob)))];
    assert_eq!(export(&t, vec![], writes), "18446744073709551615,5\n");
}

#[test]
fn partitioned_table() {
    let mut t = table(99, vec![int_column(1, 0)], false);
    t.partition = Some(PartitionInfo {
        definitions: vec![
            PartitionDefinition { id: 100, name: name("p0") },
            PartitionDefinition { id: 101, name: name("p1") },
        ],
    });
    assert!(t.have_partitions());
    let parts = t.get_partiton_table_infos();
    assert_eq!(parts.len(), 2);
    let mut out = String::new();
    for (k, p) in parts.iter().enumerate() {
        assert!(p.partition.is_none());
        let blob = row_v2(&[(1, vec![10 + k as u8])]);
        let writes = vec![(store_key(p.id, 1, 101), put(100, Some(&blob)))];
        out.push_str(&export(p, vec![], writes));
    }
    assert_eq!(out, "10\n11\n");
}
