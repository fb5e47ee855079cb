use tidb_dump::datum::{is_valid_utf8, DatumRef, RowData};
use tidb_dump::errors::Error;
use tidb_dump::keycodec::append_ts;
use tidb_dump::keycodec::encode_row_key;
use tidb_dump::tabledataiterator::TableDataIterator;
use tidb_dump::tidbtypes::{
    CIStr, ColumnInfo, FieldType, PartitionDefinition, PartitionInfo, TableInfo, StatePublic, TP_ENUM, TP_LONG,
    TP_SET, TP_VAR_CHAR,
};

fn name(s: &str) -> CIStr {
    CIStr { O: s.to_string(), L: s.to_lowercase() }
}

fn column(id: i64, tp: u8, flag: u32, elems: &[&str]) -> ColumnInfo {
    ColumnInfo {
        id,
        name: name("c"),
        offset: 0,
        field_type: FieldType {
            Tp: tp,
            Flag: flag,
            Flen: 0,
            Decimal: 0,
            Charset: String::new(),
            Collate: String::new(),
            Elems: elems.iter().map(|s| s.to_string()).collect(),
        },
        state: StatePublic,
        comment: String::new(),
        hidden: false,
        version: 2,
    }
}

fn table(cols: Vec<ColumnInfo>) -> TableInfo {
    TableInfo {
        id: 1,
        name: name("Orders"),
        charset: "utf8mb4".to_string(),
        collate: "utf8mb4_bin".to_string(),
        cols,
        index_info: vec![],
        state: StatePublic,
        pk_is_handle: false,
        is_common_handle: true,
        common_handle_version: 1,
        comment: "note".to_string(),
        auto_inc_id: 11,
        auto_id_cache: 12,
        update_timestamp: 13,
        version: 5,
        partition: None,
    }
}

fn bytes_of(e: &Error) -> Option<Vec<u8>> {
    match e {
        Error::CorruptedDataBytes(_, b) => Some(b.clone()),
        _ => None,
    }
}

#[test]
fn strings_must_be_utf8() {
    let c = column(1, TP_VAR_CHAR, 0, &[]);
    let bad = DatumRef::parse_from(&[0xff, 0xfe], &c);
    let e = bad.try_to_string().unwrap_err();
    assert_eq!(bytes_of(&e), Some(vec![0xff, 0xfe]));
    let good = DatumRef::parse_from("é€😀".as_bytes(), &c);
    assert_eq!(good.try_to_string().unwrap(), "é€😀".as_bytes().to_vec());
    assert!(is_valid_utf8(b""));
    assert!(!is_valid_utf8(&[0xc0, 0x80]));
    assert!(!is_valid_utf8(&[0xed, 0xa0, 0x80]));
    assert!(!is_valid_utf8(&[0xf4, 0x90, 0x80, 0x80]));
    assert!(!is_valid_utf8(&[0xe2, 0x82]));
    for s in ["", "abc", "ü", "\u{10ffff}"] {
        assert_eq!(is_valid_utf8(s.as_bytes()), std::str::from_utf8(s.as_bytes()).is_ok());
    }
}

#[test]
fn accessor_error_kinds() {
    let signed = column(1, TP_LONG, 0, &[]);
    assert!(matches!(DatumRef::parse_from(&[1], &signed).as_u64(), Err(Error::CorruptedData(_))));
    assert_eq!(bytes_of(&DatumRef::parse_from(&[1, 2, 3], &signed).as_i64().unwrap_err()), Some(vec![1, 2, 3]));
    let unsigned = column(2, TP_LONG, 32, &[]);
    assert!(matches!(DatumRef::parse_from(&[1], &unsigned).as_i64(), Err(Error::CorruptedData(_))));
    assert_eq!(bytes_of(&DatumRef::parse_from(&[1, 2, 3], &unsigned).as_u64().unwrap_err()), Some(vec![1, 2, 3]));
    let e = column(3, TP_ENUM, 0, &["a"]);
    assert!(matches!(DatumRef::parse_from(&[1], &signed).as_enum_val(), Err(Error::CorruptedData(_))));
    assert!(matches!(DatumRef::parse_from(&[2], &e).as_enum_val(), Err(Error::CorruptedData(_))));
    assert_eq!(bytes_of(&DatumRef::parse_from(&[1, 2, 3], &e).as_enum_val().unwrap_err()), Some(vec![1, 2, 3]));
    let set = column(4, TP_SET, 0, &["a"]);
    assert!(matches!(DatumRef::parse_from(&[1], &e).as_set_vals(), Err(Error::CorruptedData(_))));
    assert_eq!(bytes_of(&DatumRef::parse_from(&[1, 2, 3], &set).as_set_vals().unwrap_err()), Some(vec![1, 2, 3]));
}

#[test]
fn row_errors_hold_their_bytes() {
    let t = table(vec![column(1, TP_LONG, 0, &[])]);
    let key = b"not a row key".to_vec();
    assert_eq!(bytes_of(&RowData::new(key.clone(), vec![], &t).unwrap_err()), Some(key));
    let row = RowData::new(append_ts(&encode_row_key(1, 1), 5), vec![7, 0, 0, 0, 0, 0], &t).unwrap();
    assert_eq!(bytes_of(&row.get_datum_refs(&t).unwrap_err()), Some(vec![7, 0, 0, 0, 0, 0]));
}

#[test]
fn engine_error_holds_raw_key() {
    let t = table(vec![]);
    let raw_key = b"zgarbage".to_vec();
    let writes = vec![(raw_key.clone(), vec![b'P', 1])];
    let mut it = TableDataIterator::new(&t, &vec![], &writes);
    let e = it.next().unwrap().unwrap_err();
    assert_eq!(bytes_of(&e), Some(raw_key));
    assert!(it.next().is_none());
}

#[test]
fn partitions_copy_every_other_field() {
    let mut t = table(vec![column(1, TP_LONG, 0, &[])]);
    t.partition = Some(PartitionInfo { definitions: vec![PartitionDefinition { id: 100, name: name("p0") }] });
    let parts = t.get_partiton_table_infos();
    let p = &parts[0];
    assert_eq!(p.id, 100);
    assert_eq!(p.name.O, "Orders");
    assert_eq!(p.name.L, "orders");
    assert_eq!((p.charset.as_str(), p.collate.as_str(), p.comment.as_str()), ("utf8mb4", "utf8mb4_bin", "note"));
    assert_eq!((p.is_common_handle, p.common_handle_version, p.auto_inc_id, p.auto_id_cache), (true, 1, 11, 12));
    assert_eq!((p.update_timestamp, p.version, p.cols.len()), (13, 5, 1));
    assert!(p.partition.is_none());
}
