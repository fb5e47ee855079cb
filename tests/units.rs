use tidb_dump::buf::LinkedBuffer;
use tidb_dump::csvwriter::{csv_field, csv_line};
use tidb_dump::datum::{decode_v2_i64, decode_v2_u64, DatumRef, RowData, Time};
use tidb_dump::errors::{display_corrupted_err_data, Error};
use tidb_dump::export::{create_file_write_wrap, CsvExporter, FileWriteWrap};
use tidb_dump::keycodec::{
    append_ts, decode_bytes, decode_int_handle, decode_store_key, decode_ts, encode_bytes, encode_meta_db_list_range,
    encode_meta_db_range, encode_row_key, encode_table_row_range, strip_mvcc_suffix, DATA_PREFIX,
};
use tidb_dump::storagenode::{select_databases, select_tables};
use tidb_dump::tabledataiterator::TableDataIterator;
use tidb_dump::tidbtypes::{
    CIStr, ColumnInfo, FieldType, TableInfo, StateDeleteOnly, StatePublic, TP_DATE, TP_DATETIME, TP_DOUBLE, TP_DURATION,
    TP_ENUM, TP_LONG, TP_LONG_LONG, TP_NULL, TP_SET, TP_SHORT, TP_TIMESTAMP, TP_VAR_CHAR, TP_YEAR,
};
use tidb_dump::writeref::{decode_var_u64, WriteRef, WriteType};

fn name(s: &str) -> CIStr {
    CIStr { O: s.to_string(), L: s.to_lowercase() }
}

fn column(id: i64, tp: u8, flag: u32, decimal: i32, elems: &[&str]) -> ColumnInfo {
    ColumnInfo {
        id,
        name: name(&format!("c{}", id)),
        offset: 0,
        field_type: FieldType {
            Tp: tp,
            Flag: flag,
            Flen: 0,
            Decimal: decimal,
            Charset: String::new(),
            Collate: String::new(),
            Elems: elems.iter().map(|s| s.to_string()).collect(),
        },
        state: StatePublic,
        comment: String::new(),
        hidden: false,
        version: 2,
    }
}

fn table(id: i64, cols: Vec<ColumnInfo>, state: u8, update_timestamp: i64) -> TableInfo {
    TableInfo {
        id,
        name: name("t"),
        charset: String::new(),
        collate: String::new(),
        cols,
        index_info: vec![],
        state,
        pk_is_handle: false,
        is_common_handle: false,
        common_handle_version: 0,
        comment: String::new(),
        auto_inc_id: 0,
        auto_id_cache: 0,
        update_timestamp,
        version: 4,
        partition: None,
    }
}

fn text(r: Result<Vec<u8>, Error>) -> String {
    String::from_utf8(r.expect("text")).unwrap()
}

fn store_key(table_id: i64, handle: i64, ts: u64) -> Vec<u8> {
    let mut k = vec![DATA_PREFIX];
    k.extend_from_slice(&encode_bytes(&encode_row_key(table_id, handle)));
    append_ts(&k, ts)
}

fn small_row(cols: &[(u8, Vec<u8>)]) -> Vec<u8> {
    let mut v = vec![128u8, 0, cols.len() as u8, 0, 0, 0];
    for (id, _) in cols {
        v.push(*id);
    }
    let mut end: u16 = 0;
    for (_, b) in cols {
        end += b.len() as u16;
        v.extend_from_slice(&end.to_le_bytes());
    }
    for (_, b) in cols {
        v.extend_from_slice(b);
    }
    v
}

fn put(start_ts: u8, sv: Option<&[u8]>) -> Vec<u8> {
    let mut v = vec![b'P', start_ts];
    if let Some(sv) = sv {
        v.push(b'v');
        v.push(sv.len() as u8);
        v.extend_from_slice(sv);
    }
    v
}

#[test]
fn memcomparable_empty_and_full_groups() {
    assert_eq!(encode_bytes(&[]), vec![0, 0, 0, 0, 0, 0, 0, 0, 0xf7]);
    assert_eq!(encode_bytes(&[1, 2, 3]), vec![1, 2, 3, 0, 0, 0, 0, 0, 0xfa]);
    let eight = [1u8, 2, 3, 4, 5, 6, 7, 8];
    let mut expected = eight.to_vec();
    expected.push(0xff);
    expected.extend_from_slice(&[0, 0, 0, 0, 0, 0, 0, 0, 0xf7]);
    assert_eq!(encode_bytes(&eight), expected);
}

#[test]
fn memcomparable_round_trip_with_trailing_bytes() {
    for len in [0usize, 1, 7, 8, 9, 16, 100, 1000] {
        let data: Vec<u8> = (0..len).map(|i| (i * 31 % 256) as u8).collect();
        let mut enc = encode_bytes(&data);
        let n = enc.len();
        enc.extend_from_slice(&[9, 9, 9]);
        let (dec, end) = decode_bytes(&enc, 0).expect("decodes");
        assert_eq!(dec, data);
        assert_eq!(end, n);
    }
}

#[test]
fn memcomparable_keeps_order() {
    let a = encode_bytes(b"abc");
    let b = encode_bytes(b"abcd");
    let c = encode_bytes(b"abd");
    assert!(a < b && b < c);
}

#[test]
fn memcomparable_rejects_bad_input() {
    assert!(decode_bytes(&[1, 2, 3], 0).is_err());
    assert!(decode_bytes(&[0, 0, 0, 0, 0, 0, 0, 0, 0x10], 0).is_err());
    assert!(decode_bytes(&[1, 2, 3, 4, 0, 0, 0, 0, 0xfa], 0).is_err());
}

#[test]
fn row_key_handle_round_trip() {
    for h in [0i64, 7, -1, i64::MIN, i64::MAX] {
        let k = encode_row_key(42, h);
        assert_eq!(k.len(), 19);
        assert_eq!(k[0], b't');
        assert_eq!(&k[9..11], b"_r");
        assert_eq!(decode_int_handle(&k).unwrap(), h);
    }
    assert_eq!(&encode_row_key(1, 0)[1..9], &[0x80, 0, 0, 0, 0, 0, 0, 1]);
}

#[test]
fn decode_int_handle_rejects_other_keys() {
    assert!(matches!(decode_int_handle(b"t12345678_i12345678"), Err(Error::CorruptedDataBytes(..))));
    assert!(decode_int_handle(b"short").is_err());
}

#[test]
fn timestamp_suffix() {
    let k = append_ts(b"key", 101);
    assert_eq!(&k[3..], &(!101u64).to_be_bytes());
    assert_eq!(decode_ts(&k).unwrap(), 101);
    assert_eq!(strip_mvcc_suffix(&k).unwrap(), b"key".to_vec());
    assert!(strip_mvcc_suffix(&[1, 2, 3]).is_err());
    assert!(decode_ts(&[1, 2, 3]).is_err());
}

#[test]
fn stored_key_decodes() {
    let raw = store_key(3, 9, 555);
    let (user, ts) = decode_store_key(&raw).unwrap();
    assert_eq!(user, encode_row_key(3, 9));
    assert_eq!(ts, 555);
    let mut bad = raw.clone();
    bad[0] = b'x';
    assert!(decode_store_key(&bad).is_err());
    assert!(decode_store_key(&raw[..raw.len() - 1]).is_err());
}

#[test]
fn key_ranges() {
    let (lo, hi) = encode_table_row_range(5);
    let mut expected_lo = vec![DATA_PREFIX];
    expected_lo.extend_from_slice(&encode_bytes(&encode_row_key(5, 0)));
    let mut expected_hi = vec![DATA_PREFIX];
    expected_hi.extend_from_slice(&encode_bytes(&encode_row_key(5, i64::MAX)));
    assert_eq!(lo, expected_lo);
    assert_eq!(hi, expected_hi);
    let (lo, hi) = encode_meta_db_range(9);
    let mut e_lo = vec![DATA_PREFIX];
    e_lo.extend_from_slice(&encode_bytes(b"mDB:9"));
    let mut e_hi = vec![DATA_PREFIX];
    e_hi.extend_from_slice(&encode_bytes(b"mDB:10"));
    assert_eq!(lo, e_lo);
    assert_eq!(hi, e_hi);
    let (lo, hi) = encode_meta_db_list_range();
    assert_eq!(lo, b"zmDBs".to_vec());
    assert_eq!(hi, b"zmDBs\xff".to_vec());
}

#[test]
fn write_record_parsing() {
    let w = WriteRef::parse(&[b'P', 100, b'v', 2, 7, 8]).unwrap();
    assert_eq!(w.write_type, WriteType::Put);
    assert_eq!(w.start_ts, 100);
    assert_eq!(w.short_value, Some(vec![7, 8]));
    let w = WriteRef::parse(&[b'D', 0xac, 0x02]).unwrap();
    assert_eq!(w.write_type, WriteType::Delete);
    assert_eq!(w.start_ts, 300);
    assert_eq!(w.short_value, None);
    assert_eq!(WriteRef::parse(&[b'L', 1]).unwrap().write_type, WriteType::Lock);
    assert_eq!(WriteRef::parse(&[b'R', 1, b'R']).unwrap().write_type, WriteType::Rollback);
    let w = WriteRef::parse(&[b'P', 1, b'f', 0, 0, 0, 0, 0, 0, 0, 5, b'v', 1, 9]).unwrap();
    assert_eq!(w.short_value, Some(vec![9]));
    assert!(WriteRef::parse(&[b'X', 1]).is_err());
    assert!(WriteRef::parse(&[]).is_err());
    assert!(WriteRef::parse(&[b'P', 1, b'v', 5, 1]).is_err());
    assert!(WriteRef::parse(&[b'P', 0x80]).is_err());
}

#[test]
fn varint_reading() {
    assert_eq!(decode_var_u64(&[0x05], 0).unwrap(), (5, 1));
    assert_eq!(decode_var_u64(&[9, 0xac, 0x02], 1).unwrap(), (300, 3));
    let max = [0xff, 0xff, 0xff, 0xff, 0xff, 0xff, 0xff, 0xff, 0xff, 0x01];
    assert_eq!(decode_var_u64(&max, 0).unwrap(), (u64::MAX, 10));
    assert!(decode_var_u64(&[0x80; 11], 0).is_err());
}

#[test]
fn error_dump_text() {
    let e = Error::CorruptedDataBytes("x".to_string(), vec![0xab, 0x01]);
    assert_eq!(
        String::from_utf8(display_corrupted_err_data(&e)).unwrap(),
        "\n********Error Data********\nab01\n********Error Data End********\n"
    );
    let e = Error::CorruptedDataString("x".to_string(), "{bad".to_string());
    assert_eq!(
        String::from_utf8(display_corrupted_err_data(&e)).unwrap(),
        "\n********Error Data********\n{bad\n********Error Data End********\n"
    );
    for e in [
        Error::CorruptedData("x".to_string()),
        Error::StorageNodeError("x".to_string()),
        Error::IO("x".to_string()),
        Error::Other("x".to_string()),
    ] {
        assert!(display_corrupted_err_data(&e).is_empty());
    }
}

#[test]
fn csv_fields_and_records() {
    assert_eq!(csv_field(TP_NULL, b""), b"\\N".to_vec());
    assert_eq!(csv_field(TP_LONG, b"-12"), b"-12".to_vec());
    assert_eq!(csv_field(TP_DOUBLE, b"1.5"), b"1.5".to_vec());
    assert_eq!(csv_field(TP_VAR_CHAR, b"a\\b\nc\rd\"e"), b"\"a\\\\b\\nc\\rd\\\"e\"".to_vec());
    assert_eq!(csv_line(&vec![b"a".to_vec(), b"b".to_vec()]), b"a,b\n".to_vec());
    assert_eq!(csv_line(&vec![b"".to_vec()]), b"\"\"\n".to_vec());
    assert_eq!(csv_line(&vec![]), b"\"\"\n".to_vec());
    assert_eq!(csv_line(&vec![b"".to_vec(), b"".to_vec()]), b",\n".to_vec());
    assert_eq!(csv_line(&vec![b"x\"y".to_vec()]), b"x\"y\n".to_vec());
}

#[test]
fn integer_payloads() {
    assert_eq!(decode_v2_u64(&[0xff]).unwrap(), 255);
    assert_eq!(decode_v2_u64(&[0x34, 0x12]).unwrap(), 0x1234);
    assert_eq!(decode_v2_u64(&[0xff; 8]).unwrap(), u64::MAX);
    assert_eq!(decode_v2_i64(&[0xff, 0xff]).unwrap(), -1);
    assert_eq!(decode_v2_i64(&[0x80]).unwrap(), -128);
    assert_eq!(decode_v2_i64(&[0, 0, 0, 0x80]).unwrap(), i32::MIN as i64);
    assert_eq!(decode_v2_i64(&[0xff; 8]).unwrap(), -1);
    assert!(decode_v2_u64(&[1, 2, 3]).is_err());
    assert!(decode_v2_i64(&[]).is_err());
}

#[test]
fn datum_texts() {
    let signed = column(1, TP_SHORT, 0, 0, &[]);
    let d = DatumRef::parse_from(&[0xfe, 0xff], &signed);
    assert_eq!(d.as_i64().unwrap(), -2);
    assert!(d.as_u64().is_err());
    assert_eq!(text(d.try_to_string()), "-2");
    let unsigned = column(2, TP_LONG_LONG, 32, 0, &[]);
    let d = DatumRef::parse_from(&[0xff; 8], &unsigned);
    assert_eq!(text(d.try_to_string()), "18446744073709551615");
    assert!(d.as_i64().is_err());
    let s = column(3, TP_VAR_CHAR, 0, 0, &[]);
    assert_eq!(text(DatumRef::parse_from(b"hi", &s).try_to_string()), "hi");
    let e = column(4, TP_ENUM, 0, 0, &["a", "b", "c"]);
    assert_eq!(text(DatumRef::parse_from(&[2], &e).try_to_string()), "b");
    assert!(DatumRef::parse_from(&[0], &e).try_to_string().is_err());
    assert!(DatumRef::parse_from(&[4], &e).try_to_string().is_err());
    let set = column(5, TP_SET, 0, 0, &["a", "b", "c"]);
    assert_eq!(text(DatumRef::parse_from(&[0b101], &set).try_to_string()), "[a,c]");
    assert_eq!(text(DatumRef::parse_from(&[0], &set).try_to_string()), "[]");
    let y = column(6, TP_YEAR, 0, 0, &[]);
    assert_eq!(text(DatumRef::parse_from(&[0xe9, 0x07], &y).try_to_string()), "2025");
    let f = column(7, TP_DOUBLE, 0, 0, &[]);
    assert!(DatumRef::parse_from(&[0; 8], &f).try_to_string().is_err());
    let n = DatumRef::get_null(&s);
    assert!(n.is_null());
    assert!(n.try_to_string().is_ok());
}

fn packed(y: u64, mo: u64, d: u64, h: u64, mi: u64, s: u64, us: u64) -> u64 {
    let ymd = ((y * 13 + mo) << 5) | d;
    let hms = (h << 12) | (mi << 6) | s;
    (((ymd << 17) | hms) << 24) | us
}

#[test]
fn date_and_time_texts() {
    let p = packed(2023, 4, 5, 6, 7, 8, 123456);
    let dt = column(1, TP_DATETIME, 0, 3, &[]);
    let d = DatumRef::parse_from(&p.to_le_bytes(), &dt);
    assert_eq!(text(d.try_to_string()), "2023-04-05 06:07:08.123");
    let t: Time = d.as_datetime().unwrap();
    assert_eq!((t.year, t.month, t.day, t.hour, t.minute, t.second, t.micro), (2023, 4, 5, 6, 7, 8, 123456));
    let date = column(2, TP_DATE, 0, 0, &[]);
    assert_eq!(text(DatumRef::parse_from(&p.to_le_bytes(), &date).try_to_string()), "2023-04-05");
    let ts = column(3, TP_TIMESTAMP, 0, -1, &[]);
    assert_eq!(text(DatumRef::parse_from(&p.to_le_bytes(), &ts).try_to_string()), "2023-04-05 06:07:08");
    let bad_fsp = column(4, TP_DATETIME, 0, 7, &[]);
    assert!(DatumRef::parse_from(&p.to_le_bytes(), &bad_fsp).try_to_string().is_err());
}

#[test]
fn duration_texts() {
    let c = column(1, TP_DURATION, 0, 2, &[]);
    let nanos: i64 = -((25 * 3600 + 61) * 1_000_000_000 + 456_000_000);
    assert_eq!(text(DatumRef::parse_from(&nanos.to_le_bytes(), &c).try_to_string()), "-25:01:01.45");
    let c0 = column(2, TP_DURATION, 0, 0, &[]);
    let nanos: i64 = 59 * 1_000_000_000;
    assert_eq!(text(DatumRef::parse_from(&nanos.to_le_bytes(), &c0).try_to_string()), "00:00:59");
}

#[test]
fn row_v2_decoding_paths() {
    let cols = vec![column(1, TP_LONG, 0, 0, &[]), column(2, TP_VAR_CHAR, 0, 0, &[]), column(3, TP_LONG, 0, 0, &[])];
    let t = table(1, cols, StatePublic, 1);
    // big form: ids and offsets on four bytes; column 2 is null, column 3 absent
    let mut v = vec![128u8, 1, 1, 0, 1, 0];
    v.extend_from_slice(&1u32.to_le_bytes());
    v.extend_from_slice(&2u32.to_le_bytes());
    v.extend_from_slice(&1u32.to_le_bytes());
    v.push(9);
    let row = RowData::new(encode_row_key(1, 1).iter().chain((!5u64).to_be_bytes().iter()).copied().collect(), v, &t).unwrap();
    assert_eq!(row.handle_int, 1);
    assert_eq!(row.append_ts, 5);
    let ds = row.get_datum_refs(&t).unwrap();
    assert_eq!(ds.len(), 3);
    assert_eq!(ds[0].data, vec![9]);
    assert!(ds[1].is_null());
    assert!(ds[2].is_null());
    let key = append_ts(&encode_row_key(1, 1), 5);
    let bad_version = RowData::new(key.clone(), vec![1, 0, 0, 0, 0, 0], &t).unwrap();
    assert!(bad_version.get_datum_refs(&t).is_err());
    let unordered = RowData::new(key.clone(), vec![128, 0, 2, 0, 0, 0, 2, 1, 1, 0, 2, 0, 5, 6], &t).unwrap();
    assert!(unordered.get_datum_refs(&t).is_err());
    let bad_offset = RowData::new(key.clone(), vec![128, 0, 1, 0, 0, 0, 1, 9, 0, 5], &t).unwrap();
    assert!(bad_offset.get_datum_refs(&t).is_err());
    assert!(RowData::new(b"not a row key".to_vec(), vec![], &t).is_err());
}

#[test]
fn linked_buffer_blocks() {
    let mut b = LinkedBuffer::new(4, 3);
    assert_eq!(b.block_size(), 4);
    assert_eq!(b.len(), 0);
    assert_eq!(b.get_cur_writable_block().unwrap(), 0);
    assert_eq!(b.write(b"hello").unwrap(), 5);
    assert_eq!(b.get_cur_writable_block().unwrap(), 1);
    assert_eq!(b.write(b"abcdefg").unwrap(), 7);
    assert!(b.is_full());
    assert!(b.get_cur_writable_block().is_err());
    assert!(b.write(b"x").is_err());
    let mut out = vec![1u8];
    assert_eq!(b.write_to(&mut out), 12);
    assert_eq!(out, b"\x01helloabcdefg".to_vec());
    b.reset();
    assert_eq!(b.len(), 0);
    assert!(b.write(b"0123456789abc").is_err());
}

#[test]
fn sink_names_and_rotation() {
    let mut fw = FileWriteWrap::new(b"out".to_vec(), Some(b"csv".to_vec()), 10, true);
    assert_eq!(fw.file_name(), b"out.000000001.csv.gz".to_vec());
    assert!(!fw.flush_batch(8));
    assert!(!fw.is_exceed_file_size());
    assert!(!fw.flush_batch(5));
    assert!(fw.is_exceed_file_size());
    assert!(fw.is_need_flush());
    assert!(fw.flush_batch(4));
    assert_eq!(fw.cur_file_num, 2);
    assert_eq!(fw.written, 4);
    assert_eq!(fw.file_name(), b"out.000000002.csv.gz".to_vec());
    let mut single = FileWriteWrap::new(b"out".to_vec(), None, 0, false);
    assert_eq!(single.file_name(), b"out".to_vec());
    assert!(!single.flush_batch(1 << 40));
    assert!(!single.is_exceed_file_size());
    assert_eq!(single.maximum_file_size(), 0);
    single.generate_next_file();
    assert_eq!(single.file_name(), b"out.000000001".to_vec());
    let fw = create_file_write_wrap(b"a".to_vec(), None, 2, false);
    assert_eq!(fw.maximum_file_size(), 2 * 1024 * 1024);
    let fw = create_file_write_wrap(b"a".to_vec(), None, usize::MAX, false);
    assert_eq!(fw.maximum_file_size(), usize::MAX);
}

#[test]
fn exporter_settings() {
    let mut e = CsvExporter::new(table(1, vec![], StatePublic, 1), b"o".to_vec(), None, 0, false);
    assert_eq!(e.thread_num, 3);
    e.set_thread_num(0);
    assert_eq!(e.thread_num, 3);
    e.set_thread_num(5);
    assert_eq!(e.thread_num, 5);
    e.set_debug_mode(true);
    assert!(e.is_debug_mode);
}

#[test]
fn database_records_selection() {
    let key = |id: u8, ts: u64| append_ts(&[b'z', b'm', b'D', b'B', b's', id], ts);
    let entries = vec![
        (key(1, 9), vec![b'L', 9]),
        (key(1, 8), put(7, Some(b"db1"))),
        (key(1, 5), put(4, Some(b"old"))),
        (key(2, 9), vec![b'D', 8]),
        (key(2, 5), put(4, Some(b"db2"))),
        (key(3, 9), vec![b'?']),
        (key(3, 5), put(4, Some(b"db3"))),
    ];
    let vals = select_databases(&entries).unwrap();
    assert_eq!(vals, vec![b"db1".to_vec(), b"db3".to_vec()]);
    assert!(select_databases(&vec![(vec![1, 2], vec![])]).is_err());
}

#[test]
fn table_versions_selection() {
    let infos = vec![
        table(1, vec![], StatePublic, 1),
        table(1, vec![], StatePublic, 3),
        table(2, vec![], StatePublic, 2),
        table(2, vec![], StateDeleteOnly, 2),
        table(3, vec![], StatePublic, 4),
        table(3, vec![], StatePublic, 4),
        table(4, vec![], StateDeleteOnly, 1),
    ];
    assert_eq!(select_tables(&infos), vec![1, 4]);
}

fn rows_of(t: &TableInfo, defaults: Vec<(Vec<u8>, Vec<u8>)>, writes: Vec<(Vec<u8>, Vec<u8>)>) -> Vec<(i64, u64)> {
    let mut it = TableDataIterator::new(t, &defaults, &writes);
    let mut out = vec![];
    while let Some(r) = it.next() {
        let r = r.unwrap();
        out.push((r.handle_int, r.append_ts));
    }
    out
}

#[test]
fn delete_at_commit_time_hides_row() {
    let t = table(1, vec![column(1, TP_LONG, 0, 0, &[])], StatePublic, 1);
    let blob = small_row(&[(1, vec![1])]);
    let hidden = vec![(store_key(1, 1, 150), vec![b'D', 100]), (store_key(1, 1, 100), put(99, Some(&blob)))];
    assert_eq!(rows_of(&t, vec![], hidden), vec![]);
    let shown = vec![(store_key(1, 1, 150), vec![b'D', 99]), (store_key(1, 1, 100), put(99, Some(&blob)))];
    assert_eq!(rows_of(&t, vec![], shown), vec![(1, 100)]);
}

#[test]
fn locks_rollbacks_and_missing_bodies() {
    let t = table(1, vec![column(1, TP_LONG, 0, 0, &[])], StatePublic, 1);
    let blob = small_row(&[(1, vec![1])]);
    let writes = vec![
        (store_key(1, 1, 300), vec![b'L', 1]),
        (store_key(1, 1, 200), vec![b'R', 1]),
        (store_key(1, 1, 100), put(99, Some(&blob))),
        (store_key(1, 2, 100), put(99, None)),
        (store_key(1, 3, 100), put(99, Some(&blob))),
    ];
    assert_eq!(rows_of(&t, vec![], writes), vec![(1, 100), (3, 100)]);
}

#[test]
fn default_entries_ahead_of_writes() {
    let t = table(1, vec![column(1, TP_LONG, 0, 0, &[])], StatePublic, 1);
    let blob = small_row(&[(1, vec![1])]);
    let defaults = vec![(store_key(1, 5, 100), blob.clone()), (store_key(1, 5, 50), blob.clone())];
    let writes = vec![
        (store_key(1, 2, 100), put(99, Some(&blob))),
        (store_key(1, 5, 100), put(99, None)),
        (store_key(1, 5, 50), put(49, None)),
    ];
    assert_eq!(rows_of(&t, defaults, writes), vec![(2, 100), (5, 100)]);
}

#[test]
fn corrupt_entries_are_reported_first() {
    let t = table(1, vec![column(1, TP_LONG, 0, 0, &[])], StatePublic, 1);
    let blob = small_row(&[(1, vec![1])]);
    let writes = vec![(b"garbage".to_vec(), vec![]), (store_key(1, 1, 100), put(99, Some(&blob)))];
    let defaults = vec![];
    let mut it = TableDataIterator::new(&t, &defaults, &writes);
    assert!(it.next().unwrap().is_err());
    assert_eq!(it.next().unwrap().unwrap().handle_int, 1);
    assert!(it.next().is_none());
}
