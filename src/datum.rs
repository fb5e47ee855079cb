use vstd::prelude::*;
use vstd::string::StringSliceAdditionalSpecFns;
use vstd::utf8::encode_utf8;
use crate::errors::{Error, error_bytes, is_corrupted_data};
use vstd::utf8::{valid_utf8, valid_first_scalar, length_of_first_scalar, decode_first_codepoint};
use crate::keycodec::{copy_bytes, decode_int_handle, decode_ts, row_key_handle, suffix_ts};
use crate::tidbtypes::{ColumnInfo, TableInfo, tp_of, field_type_tp_from_u8, TP_NULL, TP_TINY, TP_SHORT, TP_INT24, TP_LONG, TP_LONG_LONG, TP_VAR_CHAR, TP_VAR_STRING, TP_STRING, TP_GEOMETRY, TP_TINY_BLOB, TP_MEDIUM_BLOB, TP_LONG_BLOB, TP_BLOB, TP_FLOAT, TP_NEW_DECIMAL, TP_DOUBLE, TP_JSON, TP_DATE, TP_DATETIME, TP_TIMESTAMP, TP_DURATION, TP_ENUM, TP_SET, TP_BIT, TP_YEAR};
use crate::bytes::{push_range, push_all, push_padded, push_decimal, push_i64_text, pow10_u64, padded, pow10, decimal, int_text};

verus! {

/// Version byte that opens every row-v2 value.
pub const CODEC_VERSION: u8 = 128;

/// Little-endian unsigned integer of `w` bytes (1, 2 or 4) at `b[at]`.
pub open spec fn le_uint(b: Seq<u8>, at: int, w: int) -> nat {
    if w == 1 {
        b[at] as nat
    } else if w == 2 {
        b[at] as nat + 256 * (b[at + 1] as nat)
    } else if w == 4 {
        b[at] as nat + 256 * (b[at + 1] as nat) + 65536 * (b[at + 2] as nat) + 16777216 * (b[at + 3] as nat)
    } else {
        b[at] as nat + 256 * (b[at + 1] as nat) + 65536 * (b[at + 2] as nat) + 16777216 * (b[at + 3] as nat)
            + 0x1_0000_0000 * (b[at + 4] as nat + 256 * (b[at + 5] as nat) + 65536 * (b[at + 6] as nat)
            + 16777216 * (b[at + 7] as nat))
    }
}

/// `n` little-endian integers of `w` bytes each, stored from `b[at]` on.
pub open spec fn le_array(b: Seq<u8>, at: int, w: int, n: nat) -> Seq<nat> {
    Seq::new(n, |i: int| le_uint(b, at + w * i, w))
}

/// Each element is greater than the one before it.
pub open spec fn strictly_ascending(s: Seq<nat>) -> bool {
    forall|i: int, j: int| 0 <= i < j < s.len() ==> #[trigger] s[i] < #[trigger] s[j]
}

/// The parts of a row-v2 value.
pub struct RowLayout {
    pub non_null_ids: Seq<nat>,
    pub null_ids: Seq<nat>,
    /// End of each non-null column's bytes within `values`.
    pub offsets: Seq<nat>,
    pub values: Seq<u8>,
}

/// Splits a row-v2 value into its parts: version byte, flag byte (bit 0 selects
/// four-byte ids and offsets instead of one-byte ids and two-byte offsets), the two
/// counts, the id arrays, the offsets, the column bytes. `None` for a value with
/// another version, one cut short, or id arrays that are not strictly ascending.
pub open spec fn parse_row_layout(v: Seq<u8>) -> Option<RowLayout> {
    if v.len() < 6 || v[0] != CODEC_VERSION {
        None
    } else {
        let big = v[1] % 2 == 1;
        let w: int = if big { 4 } else { 1 };
        let ow: int = if big { 4 } else { 2 };
        let nn = le_uint(v, 2, 2);
        let nl = le_uint(v, 4, 2);
        let nulls_at = 6 + nn * w;
        let offsets_at = nulls_at + nl * w;
        let values_at = offsets_at + nn * ow;
        if v.len() < values_at {
            None
        } else {
            let l = RowLayout {
                non_null_ids: le_array(v, 6, w, nn),
                null_ids: le_array(v, nulls_at, w, nl),
                offsets: le_array(v, offsets_at, ow, nn),
                values: v.subrange(values_at, v.len() as int),
            };
            if strictly_ascending(l.non_null_ids) && strictly_ascending(l.null_ids) {
                Some(l)
            } else {
                None
            }
        }
    }
}

/// Index of `id` in a list of ids, if it is there.
pub open spec fn position(ids: Seq<nat>, id: int) -> Option<int> {
    if exists|i: int| 0 <= i < ids.len() && ids[i] == id {
        Some(choose|i: int| 0 <= i < ids.len() && ids[i] == id)
    } else {
        None
    }
}

/// Type code and bytes of one column of a row: the column's slice of the values
/// when its id is among the non-null ids; the null datum when it is among the null
/// ids; the handle's bytes for a primary key kept in the handle; else the null
/// datum. `None` when the column's offsets do not delimit a slice of the values.
pub open spec fn column_datum(l: RowLayout, col: ColumnInfo, pk_is_handle: bool, pri: Seq<u8>) -> Option<(u8, Seq<u8>)> {
    match position(l.non_null_ids, col.id as int) {
        Some(i) => {
            let start: int = if i == 0 { 0 } else { l.offsets[i - 1] as int };
            let end: int = l.offsets[i] as int;
            if start <= end && end <= l.values.len() {
                Some((tp_of(col.field_type.Tp), l.values.subrange(start, end)))
            } else {
                None
            }
        },
        None => if position(l.null_ids, col.id as int) is Some {
            Some((TP_NULL, Seq::empty()))
        } else if pk_is_handle && col.field_type.spec_has_prikey_flag() {
            Some((tp_of(col.field_type.Tp), pri))
        } else {
            Some((TP_NULL, Seq::empty()))
        },
    }
}

/// Whether every column of the list decodes.
pub open spec fn all_columns_decode(l: RowLayout, cols: Seq<ColumnInfo>, pk_is_handle: bool, pri: Seq<u8>) -> bool {
    forall|k: int| 0 <= k < cols.len() ==> (#[trigger] column_datum(l, cols[k], pk_is_handle, pri)) is Some
}

/// The columns of a row-v2 value, in the order of `cols`; `None` when the value or
/// one of its columns is malformed.
pub open spec fn decode_row(v: Seq<u8>, cols: Seq<ColumnInfo>, pk_is_handle: bool, pri: Seq<u8>) -> Option<Seq<(u8, Seq<u8>)>> {
    match parse_row_layout(v) {
        None => None,
        Some(l) => if all_columns_decode(l, cols, pk_is_handle, pri) {
            Some(Seq::new(cols.len(), |k: int| column_datum(l, cols[k], pk_is_handle, pri)->0))
        } else {
            None
        },
    }
}

/// Reads the little-endian integer of `w` bytes at `b[at]`.
fn read_le(b: &[u8], at: usize, w: usize) -> (r: u64)
    requires
        w == 1 || w == 2 || w == 4,
        at + w <= b@.len(),
    ensures
        r == le_uint(b@, at as int, w as int),
{
    if w == 1 {
        b[at] as u64
    } else if w == 2 {
        b[at] as u64 + 256 * (b[at + 1] as u64)
    } else {
        b[at] as u64 + 256 * (b[at + 1] as u64) + 65536 * (b[at + 2] as u64) + 16777216 * (b[at + 3] as u64)
    }
}

/// Reads `n` little-endian integers of `w` bytes each from `b[at]` on.
fn read_le_array(b: &[u8], at: usize, w: usize, n: usize) -> (r: Vec<u64>)
    requires
        w == 1 || w == 2 || w == 4,
        at + w * n <= b@.len(),
    ensures
        r@.len() == n,
        forall|i: int| 0 <= i < n ==> r@[i] as nat == #[trigger] le_array(b@, at as int, w as int, n as nat)[i],
{
    let mut r: Vec<u64> = Vec::new();
    let mut i: usize = 0;
    let mut pos: usize = at;
    while i < n
        invariant
            w == 1 || w == 2 || w == 4,
            at + w * n <= b@.len(),
            i <= n,
            pos == at + w * i,
            r@.len() == i,
            forall|k: int| 0 <= k < i ==> r@[k] as nat == #[trigger] le_array(b@, at as int, w as int, n as nat)[k],
        decreases n - i,
    {
        proof {
            assert(w * i + w <= w * n) by (nonlinear_arith)
                requires i < n, w >= 1;
        }
        let x = read_le(b, pos, w);
        r.push(x);
        assert(pos + w <= b@.len());
        assert(b@.len() == b.len());
        i += 1;
        pos += w;
        proof {
            assert(w * i == w * (i - 1) + w) by (nonlinear_arith);
        }
    }
    r
}

/// Whether each element is greater than the one before it.
fn check_ascending(s: &Vec<u64>) -> (r: bool)
    ensures
        r == strictly_ascending(s@.map_values(|x: u64| x as nat)),
{
    let ghost m = s@.map_values(|x: u64| x as nat);
    let mut i: usize = 1;
    if s.len() == 0 {
        return true;
    }
    while i < s.len()
        invariant
            1 <= i <= s@.len(),
            m == s@.map_values(|x: u64| x as nat),
            forall|a: int, b: int| 0 <= a < b < i ==> #[trigger] m[a] < #[trigger] m[b],
        decreases s@.len() - i,
    {
        if s[i] <= s[i - 1] {
            assert(m[i - 1] >= m[i as int]);
            return false;
        }
        assert forall|a: int, b: int| 0 <= a < b < i + 1 implies #[trigger] m[a] < #[trigger] m[b] by {
            if b == i && a < i - 1 {
                assert(m[a] < m[i - 1]);
            }
        }
        i += 1;
    }
    true
}

/// Index of `id` in a strictly ascending list, found by halving.
fn binary_search(ids: &Vec<u64>, id: i64) -> (r: Option<usize>)
    requires
        strictly_ascending(ids@.map_values(|x: u64| x as nat)),
    ensures
        position(ids@.map_values(|x: u64| x as nat), id as int) == match r {
            Some(i) => Some(i as int),
            None => None::<int>,
        },
{
    let ghost m = ids@.map_values(|x: u64| x as nat);
    if id < 0 {
        return None;
    }
    let target = id as u64;
    let mut lo: usize = 0;
    let mut hi: usize = ids.len();
    while lo < hi
        invariant
            0 <= lo <= hi <= ids@.len(),
            m == ids@.map_values(|x: u64| x as nat),
            strictly_ascending(m),
            target as int == id,
            forall|k: int| 0 <= k < lo ==> #[trigger] m[k] < target,
            forall|k: int| hi <= k < ids@.len() ==> #[trigger] m[k] > target,
        decreases hi - lo,
    {
        let mid = lo + (hi - lo) / 2;
        if ids[mid] == target {
            proof {
                assert forall|j: int| 0 <= j < m.len() && m[j] == id implies j == mid by {
                    if j < mid {
                        assert(m[j] < m[mid as int]);
                    } else if j > mid {
                        assert(m[mid as int] < m[j]);
                    }
                }
                assert(m[mid as int] == id);
            }
            return Some(mid);
        } else if ids[mid] < target {
            proof {
                assert forall|k: int| 0 <= k < mid + 1 implies #[trigger] m[k] < target by {
                    if k < mid {
                        assert(m[k] < m[mid as int]);
                    }
                }
            }
            lo = mid + 1;
        } else {
            proof {
                assert forall|k: int| mid <= k < ids@.len() implies #[trigger] m[k] > target by {
                    if k > mid {
                        assert(m[mid as int] < m[k]);
                    }
                }
            }
            hi = mid;
        }
    }
    proof {
        assert(!(exists|i: int| 0 <= i < m.len() && m[i] == id));
    }
    None
}

/// Little-endian bytes of a 64-bit integer.
pub open spec fn u64_le(x: u64) -> Seq<u8> {
    seq![
        x as u8,
        (x >> 8) as u8,
        (x >> 16) as u8,
        (x >> 24) as u8,
        (x >> 32) as u8,
        (x >> 40) as u8,
        (x >> 48) as u8,
        (x >> 56) as u8,
    ]
}

/// Whether a table keeps its primary key in the handle and has a primary-key column.
pub open spec fn has_pk_in_handle(t: TableInfo) -> bool {
    t.pk_is_handle && exists|k: int| 0 <= k < t.cols@.len() && t.cols@[k].field_type.spec_has_prikey_flag()
}

/// Bytes that stand for the primary-key column of a row whose key is the handle:
/// the handle's eight little-endian bytes; zeros for other tables.
pub open spec fn pri_bytes(handle: i64, t: TableInfo) -> Seq<u8> {
    if has_pk_in_handle(t) {
        u64_le(handle as u64)
    } else {
        Seq::new(8, |i: int| 0u8)
    }
}

/// One row as read from the store: its handle, the commit timestamp of the chosen
/// version, its key (user key and timestamp suffix), its row-v2 value, and the bytes
/// that stand for a primary key kept in the handle.
#[derive(Debug)]
pub struct RowData {
    pub handle_int: i64,
    pub append_ts: u64,
    pub key_data: Vec<u8>,
    pub val_data: Vec<u8>,
    pub pri_data: Vec<u8>,
}

/// One decoded column of a row: its type code (the null code for a null value),
/// its column, and its bytes.
#[derive(Debug)]
pub struct DatumRef<'b> {
    pub tp: u8,
    pub col: &'b ColumnInfo,
    pub data: Vec<u8>,
}

impl RowData {
    /// Whether the row was built from this key, value and table definition.
    pub open spec fn built_from(&self, key: Seq<u8>, val: Seq<u8>, t: TableInfo) -> bool {
        &&& row_key_handle(key) == Some(self.handle_int)
        &&& self.append_ts == suffix_ts(key)
        &&& self.key_data@ == key
        &&& self.val_data@ == val
        &&& self.pri_data@ == pri_bytes(self.handle_int, t)
    }

    /// Builds a row from its key (user key followed by the timestamp suffix) and
    /// value; fails where the key is not a row key.
    pub fn new(key_data: Vec<u8>, val_data: Vec<u8>, table_info: &TableInfo) -> (r: Result<RowData, Error>)
        ensures
            row_key_handle(key_data@) is None ==> r is Err && error_bytes(r->Err_0) == Some(key_data@),
            row_key_handle(key_data@) is Some ==> r is Ok && r->Ok_0.built_from(key_data@, val_data@, *table_info),
    {
        let handle_int = match decode_int_handle(key_data.as_slice()) {
            Ok(h) => h,
            Err(_) => {
                return Err(Error::CorruptedDataBytes(
                    "decode the 'handle' error in the new method of RowData. ".to_owned(),
                    key_data,
                ));
            },
        };
        let append_ts = match decode_ts(key_data.as_slice()) {
            Ok(ts) => ts,
            Err(e) => {
                return Err(e);
            },
        };
        let mut has_pk = false;
        if table_info.pk_is_handle {
            let mut k: usize = 0;
            while k < table_info.cols.len()
                invariant
                    k <= table_info.cols@.len(),
                    has_pk == exists|j: int| 0 <= j < k && table_info.cols@[j].field_type.spec_has_prikey_flag(),
                decreases table_info.cols@.len() - k,
            {
                if table_info.cols[k].field_type.has_prikey_flag() {
                    has_pk = true;
                }
                k += 1;
            }
        }
        let mut pri_data: Vec<u8> = Vec::new();
        if has_pk {
            let u = handle_int as u64;
            pri_data.push(u as u8);
            pri_data.push((u >> 8) as u8);
            pri_data.push((u >> 16) as u8);
            pri_data.push((u >> 24) as u8);
            pri_data.push((u >> 32) as u8);
            pri_data.push((u >> 40) as u8);
            pri_data.push((u >> 48) as u8);
            pri_data.push((u >> 56) as u8);
        } else {
            let mut k: usize = 0;
            while k < 8
                invariant
                    k <= 8,
                    pri_data@ == Seq::new(k as nat, |i: int| 0u8),
                decreases 8 - k,
            {
                pri_data.push(0);
                k += 1;
                assert(pri_data@ =~= Seq::new(k as nat, |i: int| 0u8));
            }
        }
        assert(pri_data@ =~= pri_bytes(handle_int, *table_info));
        Ok(RowData { handle_int, append_ts, key_data, val_data, pri_data })
    }

    /// Decodes the row's value into one datum per column of the table, in the
    /// table's column order.
    pub fn get_datum_refs<'b>(&self, table_info: &'b TableInfo) -> (r: Result<Vec<DatumRef<'b>>, Error>)
        ensures
            match decode_row(self.val_data@, table_info.cols@, table_info.pk_is_handle, self.pri_data@) {
                Some(ds) => r is Ok && datums_match(r->Ok_0@, ds, table_info.cols@),
                None => r is Err && error_bytes(r->Err_0) == Some(self.val_data@),
            },
    {
        let v = self.val_data.as_slice();
        if v.len() < 6 || v[0] != CODEC_VERSION {
            return Err(Error::CorruptedDataBytes("row value has no row-v2 header".to_owned(), copy_bytes(v)));
        }
        let big = v[1] % 2 == 1;
        let w: usize = if big { 4 } else { 1 };
        let ow: usize = if big { 4 } else { 2 };
        let nn = read_le(v, 2, 2) as usize;
        let nl = read_le(v, 4, 2) as usize;
        let nulls_at = 6 + nn * w;
        let offsets_at = nulls_at + nl * w;
        let values_at = offsets_at + nn * ow;
        if v.len() < values_at {
            return Err(Error::CorruptedDataBytes("row value is cut short".to_owned(), copy_bytes(v)));
        }
        let ids = read_le_array(v, 6, w, nn);
        let nulls = read_le_array(v, nulls_at, w, nl);
        let offsets = read_le_array(v, offsets_at, ow, nn);
        let ghost l = RowLayout {
            non_null_ids: le_array(v@, 6, w as int, nn as nat),
            null_ids: le_array(v@, nulls_at as int, w as int, nl as nat),
            offsets: le_array(v@, offsets_at as int, ow as int, nn as nat),
            values: v@.subrange(values_at as int, v@.len() as int),
        };
        assert(ids@.map_values(|x: u64| x as nat) =~= l.non_null_ids);
        assert(nulls@.map_values(|x: u64| x as nat) =~= l.null_ids);
        if !check_ascending(&ids) || !check_ascending(&nulls) {
            return Err(Error::CorruptedDataBytes("row value ids are out of order".to_owned(), copy_bytes(v)));
        }
        assert(parse_row_layout(v@) == Some(l));
        let cols = &table_info.cols;
        let mut out: Vec<DatumRef<'b>> = Vec::new();
        let mut k: usize = 0;
        while k < cols.len()
            invariant
                parse_row_layout(v@) == Some(l),
                v@ == self.val_data@,
                ids@.map_values(|x: u64| x as nat) == l.non_null_ids,
                nulls@.map_values(|x: u64| x as nat) == l.null_ids,
                offsets@.len() == nn,
                ids@.len() == nn,
                l.offsets.len() == nn,
                forall|i: int| 0 <= i < nn ==> offsets@[i] as nat == #[trigger] l.offsets[i],
                values_at <= v@.len(),
                l.values == v@.subrange(values_at as int, v@.len() as int),
                strictly_ascending(l.non_null_ids),
                strictly_ascending(l.null_ids),
                cols == &table_info.cols,
                k <= cols@.len(),
                out@.len() == k,
                forall|j: int| 0 <= j < k ==> {
                    &&& (#[trigger] column_datum(l, cols@[j], table_info.pk_is_handle, self.pri_data@)) is Some
                    &&& datum_matches(out@[j], column_datum(l, cols@[j], table_info.pk_is_handle, self.pri_data@)->0, cols@[j])
                },
            decreases cols@.len() - k,
        {
            let col = &cols[k];
            match decode_column(v, values_at, &ids, &nulls, &offsets, col, table_info.pk_is_handle, self.pri_data.as_slice(), Ghost(l)) {
                Ok(d) => {
                    out.push(d);
                },
                Err(e) => {
                    assert(column_datum(l, cols@[k as int], table_info.pk_is_handle, self.pri_data@) is None);
                    assert(!all_columns_decode(l, cols@, table_info.pk_is_handle, self.pri_data@));
                    return Err(e);
                },
            }
            k += 1;
        }
        assert(all_columns_decode(l, cols@, table_info.pk_is_handle, self.pri_data@));
        Ok(out)
    }
}

/// Decodes one column of a row whose layout is `l`.
fn decode_column<'b>(
    v: &[u8],
    values_at: usize,
    ids: &Vec<u64>,
    nulls: &Vec<u64>,
    offsets: &Vec<u64>,
    col: &'b ColumnInfo,
    pk_is_handle: bool,
    pri: &[u8],
    Ghost(l): Ghost<RowLayout>,
) -> (r: Result<DatumRef<'b>, Error>)
    requires
        ids@.map_values(|x: u64| x as nat) == l.non_null_ids,
        nulls@.map_values(|x: u64| x as nat) == l.null_ids,
        offsets@.len() == ids@.len(),
        l.offsets.len() == ids@.len(),
        forall|i: int| 0 <= i < ids@.len() ==> offsets@[i] as nat == #[trigger] l.offsets[i],
        values_at <= v@.len(),
        l.values == v@.subrange(values_at as int, v@.len() as int),
        strictly_ascending(l.non_null_ids),
        strictly_ascending(l.null_ids),
    ensures
        match column_datum(l, *col, pk_is_handle, pri@) {
            Some(m) => r is Ok && datum_matches(r->Ok_0, m, *col),
            None => r is Err && error_bytes(r->Err_0) == Some(v@),
        },
{
    match binary_search(ids, col.id) {
        Some(i) => {
            let start: u64 = if i == 0 { 0 } else { offsets[i - 1] };
            let end: u64 = offsets[i];
            if start > end || end > (v.len() - values_at) as u64 {
                return Err(Error::CorruptedDataBytes(
                    "get col offset error in the get_datum_refs method.".to_owned(),
                    copy_bytes(v),
                ));
            }
            let mut data: Vec<u8> = Vec::new();
            push_range(&mut data, v, values_at + start as usize, values_at + end as usize);
            assert(data@ =~= l.values.subrange(start as int, end as int));
            Ok(DatumRef { tp: field_type_tp_from_u8(col.field_type.Tp), col, data })
        },
        None => {
            if binary_search(nulls, col.id).is_some() {
                Ok(DatumRef { tp: TP_NULL, col, data: Vec::new() })
            } else if pk_is_handle && col.field_type.has_prikey_flag() {
                Ok(DatumRef { tp: field_type_tp_from_u8(col.field_type.Tp), col, data: copy_bytes(pri) })
            } else {
                Ok(DatumRef { tp: TP_NULL, col, data: Vec::new() })
            }
        },
    }
}

/// Whether a datum carries the given type code and bytes, for the given column.
pub open spec fn datum_matches(d: DatumRef, m: (u8, Seq<u8>), col: ColumnInfo) -> bool {
    d.tp == m.0 && d.data@ == m.1 && *d.col == col
}

/// Whether a list of datums carries the decoded columns, one for each column.
pub open spec fn datums_match(ds: Seq<DatumRef>, ms: Seq<(u8, Seq<u8>)>, cols: Seq<ColumnInfo>) -> bool {
    &&& ds.len() == ms.len()
    &&& ms.len() == cols.len()
    &&& forall|k: int| 0 <= k < ds.len() ==> datum_matches(#[trigger] ds[k], ms[k], cols[k])
}

/// Unsigned value of a row-v2 integer payload of 1, 2, 4 or 8 little-endian bytes.
pub open spec fn v2_unsigned(data: Seq<u8>) -> Option<nat> {
    let n = data.len();
    if n == 1 || n == 2 || n == 4 || n == 8 {
        Some(le_uint(data, 0, n as int))
    } else {
        None
    }
}

/// Signed value of a row-v2 integer payload: the unsigned value, less 2^(8n) when its
/// top bit is set.
pub open spec fn v2_signed(data: Seq<u8>) -> Option<int> {
    match v2_unsigned(data) {
        None => None,
        Some(v) => {
            let full: int = if data.len() == 1 {
                0x100
            } else if data.len() == 2 {
                0x1_0000
            } else if data.len() == 4 {
                0x1_0000_0000
            } else {
                0x1_0000_0000_0000_0000
            };
            if v >= full / 2 {
                Some(v - full)
            } else {
                Some(v as int)
            }
        },
    }
}

/// Reads a row-v2 unsigned integer payload.
pub fn decode_v2_u64(data: &[u8]) -> (r: Result<u64, Error>)
    ensures
        match v2_unsigned(data@) {
            Some(v) => r is Ok && r->Ok_0 as nat == v,
            None => r is Err && error_bytes(r->Err_0) == Some(data@),
        },
{
    let n = data.len();
    if n == 1 || n == 2 || n == 4 {
        Ok(read_le(data, 0, n))
    } else if n == 8 {
        let lo = read_le(data, 0, 4);
        let hi = read_le(data, 4, 4);
        Ok(lo + 0x1_0000_0000 * hi)
    } else {
        Err(Error::CorruptedDataBytes("integer payload has a bad width".to_owned(), copy_bytes(data)))
    }
}

/// Reads a row-v2 signed integer payload.
pub fn decode_v2_i64(data: &[u8]) -> (r: Result<i64, Error>)
    ensures
        match v2_signed(data@) {
            Some(v) => r is Ok && r->Ok_0 as int == v,
            None => r is Err && error_bytes(r->Err_0) == Some(data@),
        },
{
    let u = match decode_v2_u64(data) {
        Ok(u) => u,
        Err(e) => {
            return Err(e);
        },
    };
    let n = data.len();
    let full: u128 = if n == 1 {
        0x100
    } else if n == 2 {
        0x1_0000
    } else if n == 4 {
        0x1_0000_0000
    } else {
        0x1_0000_0000_0000_0000
    };
    if u as u128 >= full / 2 {
        Ok((u as i128 - full as i128) as i64)
    } else {
        Ok(u as i64)
    }
}

/// Whether a type code is one of the integer types.
pub open spec fn tp_is_integer(tp: u8) -> bool {
    tp == TP_TINY || tp == TP_SHORT || tp == TP_INT24 || tp == TP_LONG || tp == TP_LONG_LONG
}

/// Whether a type code is one of the string and blob types.
pub open spec fn tp_is_string(tp: u8) -> bool {
    tp == TP_VAR_CHAR || tp == TP_VAR_STRING || tp == TP_STRING || tp == TP_GEOMETRY || tp == TP_TINY_BLOB
        || tp == TP_MEDIUM_BLOB || tp == TP_LONG_BLOB || tp == TP_BLOB
}

/// Whether a type code is written to CSV without quotes: null and the numeric types.
pub open spec fn tp_is_unquoted(tp: u8) -> bool {
    tp == TP_NULL || tp == TP_FLOAT || tp == TP_NEW_DECIMAL || tp == TP_DOUBLE || tp_is_integer(tp)
}

/// Whether values of a type code are rendered outside the library: floating-point
/// numbers, decimals and JSON documents.
pub open spec fn tp_is_rendered_outside(tp: u8) -> bool {
    tp == TP_FLOAT || tp == TP_DOUBLE || tp == TP_NEW_DECIMAL || tp == TP_JSON
}

/// Fields of a packed date-time value.
pub struct TimeParts {
    pub year: nat,
    pub month: nat,
    pub day: nat,
    pub hour: nat,
    pub minute: nat,
    pub second: nat,
    pub micro: nat,
}

/// Unpacks a date-time: microseconds in the low 24 bits; above them seconds (6 bits),
/// minutes (6 bits), hours, in 17 bits; above those day (5 bits) and
/// `year * 13 + month`.
pub open spec fn unpack_time(p: u64) -> TimeParts {
    let ymdhms = p as nat / 0x100_0000;
    let ymd = ymdhms / 0x2_0000;
    let hms = ymdhms % 0x2_0000;
    let ym = ymd / 32;
    TimeParts {
        year: ym / 13,
        month: ym % 13,
        day: ymd % 32,
        hour: hms / 4096,
        minute: (hms / 64) % 64,
        second: hms % 64,
        micro: p as nat % 0x100_0000,
    }
}

/// Fractional seconds shown with `fsp` digits, truncated; nothing when `fsp` is 0.
pub open spec fn frac_text(micro: nat, fsp: nat) -> Seq<u8> {
    if fsp == 0 {
        Seq::empty()
    } else {
        seq![0x2eu8] + padded(micro / pow10((6 - fsp) as nat), fsp)
    }
}

/// `YYYY-MM-DD`, followed for a date-time by ` HH:MM:SS` and the fraction.
pub open spec fn time_text(t: TimeParts, with_clock: bool, fsp: nat) -> Seq<u8> {
    let date = padded(t.year, 4) + seq![0x2du8] + padded(t.month, 2) + seq![0x2du8] + padded(t.day, 2);
    if with_clock {
        date + seq![0x20u8] + padded(t.hour, 2) + seq![0x3au8] + padded(t.minute, 2) + seq![0x3au8]
            + padded(t.second, 2) + frac_text(t.micro, fsp)
    } else {
        date
    }
}

/// `[-]HH:MM:SS` and the fraction, for a duration in nanoseconds.
pub open spec fn duration_text(nanos: int, fsp: nat) -> Seq<u8> {
    let a: nat = if nanos < 0 { (-nanos) as nat } else { nanos as nat };
    let secs = a / 1_000_000_000;
    let micro = (a % 1_000_000_000) / 1000;
    let sign: Seq<u8> = if nanos < 0 { seq![0x2du8] } else { Seq::empty() };
    sign + padded(secs / 3600, 2) + seq![0x3au8] + padded((secs / 60) % 60, 2) + seq![0x3au8] + padded(secs % 60, 2)
        + frac_text(micro, fsp)
}

/// Digits of fractional seconds that a column declares: none when unspecified
/// (negative); `None` above six.
pub open spec fn fsp_of(decimal: i32) -> Option<nat> {
    if decimal < 0 {
        Some(0)
    } else if decimal > 6 {
        None
    } else {
        Some(decimal as nat)
    }
}

/// A date, date-time or timestamp value.
#[derive(Debug, Clone, Copy)]
pub struct Time {
    pub year: u64,
    pub month: u64,
    pub day: u64,
    pub hour: u64,
    pub minute: u64,
    pub second: u64,
    pub micro: u64,
    pub fsp: u8,
    /// False for a date, which has no time of day.
    pub with_clock: bool,
}

impl Time {
    pub open spec fn parts(&self) -> TimeParts {
        TimeParts {
            year: self.year as nat,
            month: self.month as nat,
            day: self.day as nat,
            hour: self.hour as nat,
            minute: self.minute as nat,
            second: self.second as nat,
            micro: self.micro as nat,
        }
    }

    /// Unpacks a packed date-time value.
    pub fn from_packed_u64(p: u64, with_clock: bool, fsp: u8) -> (r: Time)
        ensures
            r.parts() == unpack_time(p),
            r.fsp == fsp,
            r.with_clock == with_clock,
    {
        let ymdhms = p / 0x100_0000;
        let ymd = ymdhms / 0x2_0000;
        let hms = ymdhms % 0x2_0000;
        let ym = ymd / 32;
        Time {
            year: ym / 13,
            month: ym % 13,
            day: ymd % 32,
            hour: hms / 4096,
            minute: (hms / 64) % 64,
            second: hms % 64,
            micro: p % 0x100_0000,
            fsp,
            with_clock,
        }
    }

    /// The value as text.
    pub fn text(&self) -> (r: Vec<u8>)
        requires
            self.fsp <= 6,
        ensures
            r@ == time_text(self.parts(), self.with_clock, self.fsp as nat),
    {
        let mut out: Vec<u8> = Vec::new();
        push_padded(&mut out, self.year, 4);
        out.push(0x2d);
        push_padded(&mut out, self.month, 2);
        out.push(0x2d);
        push_padded(&mut out, self.day, 2);
        if self.with_clock {
            out.push(0x20);
            push_padded(&mut out, self.hour, 2);
            out.push(0x3a);
            push_padded(&mut out, self.minute, 2);
            out.push(0x3a);
            push_padded(&mut out, self.second, 2);
            push_frac(&mut out, self.micro, self.fsp);
        }
        assert(out@ =~= time_text(self.parts(), self.with_clock, self.fsp as nat));
        out
    }
}

/// Appends the fractional seconds of `micro` with `fsp` digits.
fn push_frac(out: &mut Vec<u8>, micro: u64, fsp: u8)
    requires
        fsp <= 6,
    ensures
        final(out)@ == old(out)@ + frac_text(micro as nat, fsp as nat),
{
    if fsp > 0 {
        out.push(0x2e);
        let div = pow10_u64((6 - fsp) as u32);
        push_padded(out, micro / div, fsp as usize);
        assert(out@ =~= old(out)@ + frac_text(micro as nat, fsp as nat));
    } else {
        assert(out@ =~= old(out)@ + frac_text(micro as nat, fsp as nat));
    }
}

/// A duration: signed nanoseconds shown with `fsp` fractional digits.
#[derive(Debug, Clone, Copy)]
pub struct Duration {
    pub nanos: i64,
    pub fsp: u8,
}

impl Duration {
    /// The duration as text.
    pub fn text(&self) -> (r: Vec<u8>)
        requires
            self.fsp <= 6,
        ensures
            r@ == duration_text(self.nanos as int, self.fsp as nat),
    {
        let a: u64 = if self.nanos < 0 { (0 - (self.nanos as i128)) as u64 } else { self.nanos as u64 };
        let secs = a / 1_000_000_000;
        let micro = (a % 1_000_000_000) / 1000;
        let mut out: Vec<u8> = Vec::new();
        if self.nanos < 0 {
            out.push(0x2d);
        }
        push_padded(&mut out, secs / 3600, 2);
        out.push(0x3a);
        push_padded(&mut out, (secs / 60) % 60, 2);
        out.push(0x3a);
        push_padded(&mut out, secs % 60, 2);
        push_frac(&mut out, micro, self.fsp);
        assert(out@ =~= duration_text(self.nanos as int, self.fsp as nat));
        out
    }
}

/// Reads the fractional digits a column declares.
fn column_fsp(col: &ColumnInfo) -> (r: Result<u8, Error>)
    ensures
        r is Err ==> is_corrupted_data(r->Err_0),
        match fsp_of(col.field_type.Decimal) {
            Some(f) => r is Ok && r->Ok_0 as nat == f,
            None => r is Err,
        },
{
    let d = col.field_type.Decimal;
    if d < 0 {
        Ok(0)
    } else if d > 6 {
        Err(Error::CorruptedData("fractional second precision above six".to_owned()))
    } else {
        Ok(d as u8)
    }
}

/// Bytes of an element name of an enum or set.
pub open spec fn elem_bytes(e: String) -> Seq<u8> {
    encode_utf8(e@)
}

/// Element `n - 1` of an enum's list; `None` for 0 or past the list.
pub open spec fn enum_text(elems: Seq<String>, n: nat) -> Option<Seq<u8>> {
    if n == 0 || n > elems.len() {
        None
    } else {
        Some(elem_bytes(elems[n - 1]))
    }
}

/// Whether bit `i` of a set's bitmap is set.
pub open spec fn bit_set(bits: u64, i: nat) -> bool {
    i < 64 && (bits >> (i as u64)) & 1 == 1
}

/// The elements among the first `n` of the list whose bits are set, in order.
pub open spec fn set_items(elems: Seq<String>, bits: u64, n: nat) -> Seq<Seq<u8>>
    decreases n,
{
    if n == 0 {
        Seq::empty()
    } else {
        let prev = set_items(elems, bits, (n - 1) as nat);
        if bit_set(bits, (n - 1) as nat) {
            prev.push(elem_bytes(elems[n - 1]))
        } else {
            prev
        }
    }
}

/// Items joined with commas.
pub open spec fn join_commas(items: Seq<Seq<u8>>) -> Seq<u8>
    decreases items.len(),
{
    if items.len() == 0 {
        Seq::empty()
    } else if items.len() == 1 {
        items[0]
    } else {
        join_commas(items.drop_last()) + seq![0x2cu8] + items.last()
    }
}

/// `[`, the selected elements joined with commas, `]`.
pub open spec fn set_text(elems: Seq<String>, bits: u64) -> Seq<u8> {
    seq![0x5bu8] + join_commas(set_items(elems, bits, elems.len())) + seq![0x5du8]
}

/// Text of a datum of type `tp` with payload `data` in column `col`; `None` where
/// the payload is malformed (for a string, where it is not UTF-8) or the type is
/// rendered outside the library.
pub open spec fn datum_text(tp: u8, data: Seq<u8>, col: ColumnInfo) -> Option<Seq<u8>> {
    if tp_is_integer(tp) {
        if col.field_type.spec_is_unsigned() {
            match v2_unsigned(data) {
                Some(v) => Some(decimal(v)),
                None => None,
            }
        } else {
            match v2_signed(data) {
                Some(v) => Some(int_text(v)),
                None => None,
            }
        }
    } else if tp_is_string(tp) {
        if valid_utf8(data) {
            Some(data)
        } else {
            None
        }
    } else if tp == TP_DURATION {
        match (v2_signed(data), fsp_of(col.field_type.Decimal)) {
            (Some(v), Some(f)) => Some(duration_text(v, f)),
            _ => None,
        }
    } else if tp == TP_ENUM {
        match v2_unsigned(data) {
            Some(v) => enum_text(col.field_type.Elems@, v),
            None => None,
        }
    } else if tp == TP_SET {
        match v2_unsigned(data) {
            Some(v) => Some(set_text(col.field_type.Elems@, v as u64)),
            None => None,
        }
    } else if tp == TP_TIMESTAMP || tp == TP_DATE || tp == TP_DATETIME {
        match (v2_unsigned(data), fsp_of(col.field_type.Decimal)) {
            (Some(v), Some(f)) => Some(time_text(unpack_time(v as u64), tp != TP_DATE, f)),
            _ => None,
        }
    } else if tp == TP_BIT || tp == TP_YEAR {
        match v2_unsigned(data) {
            Some(v) => Some(decimal(v)),
            None => None,
        }
    } else if tp_is_rendered_outside(tp) {
        None
    } else {
        Some(seq![0x4eu8, 0x55u8, 0x4cu8, 0x4cu8])
    }
}

impl<'b> DatumRef<'b> {
    /// A datum for a column, on the given bytes.
    pub fn parse_from(orgin_val: &[u8], column_info: &'b ColumnInfo) -> (r: DatumRef<'b>)
        ensures
            r.tp == tp_of(column_info.field_type.Tp),
            r.col == column_info,
            r.data@ == orgin_val@,
    {
        DatumRef { tp: field_type_tp_from_u8(column_info.field_type.Tp), col: column_info, data: copy_bytes(orgin_val) }
    }

    /// The null datum of a column.
    pub fn get_null(column_info: &'b ColumnInfo) -> (r: DatumRef<'b>)
        ensures
            r.tp == TP_NULL,
            r.col == column_info,
            r.data@.len() == 0,
    {
        DatumRef { tp: TP_NULL, col: column_info, data: Vec::new() }
    }

    pub fn get_column(&self) -> (r: &'b ColumnInfo)
        ensures
            r == self.col,
    {
        self.col
    }

    pub fn get_field_tp(&self) -> (r: u8)
        ensures
            r == self.tp,
    {
        self.tp
    }

    pub fn is_integer(&self) -> (r: bool)
        ensures
            r == tp_is_integer(self.tp),
    {
        self.tp == TP_TINY || self.tp == TP_SHORT || self.tp == TP_INT24 || self.tp == TP_LONG || self.tp == TP_LONG_LONG
    }

    pub fn is_decimal(&self) -> (r: bool)
        ensures
            r == (self.tp == TP_NEW_DECIMAL),
    {
        self.tp == TP_NEW_DECIMAL
    }

    pub fn is_float(&self) -> (r: bool)
        ensures
            r == (self.tp == TP_FLOAT),
    {
        self.tp == TP_FLOAT
    }

    pub fn is_double(&self) -> (r: bool)
        ensures
            r == (self.tp == TP_DOUBLE),
    {
        self.tp == TP_DOUBLE
    }

    pub fn is_year(&self) -> (r: bool)
        ensures
            r == (self.tp == TP_YEAR),
    {
        self.tp == TP_YEAR
    }

    pub fn is_string(&self) -> (r: bool)
        ensures
            r == tp_is_string(self.tp),
    {
        self.tp == TP_VAR_CHAR || self.tp == TP_VAR_STRING || self.tp == TP_STRING || self.tp == TP_GEOMETRY
            || self.tp == TP_TINY_BLOB || self.tp == TP_MEDIUM_BLOB || self.tp == TP_LONG_BLOB || self.tp == TP_BLOB
    }

    pub fn is_datatime(&self) -> (r: bool)
        ensures
            r == (self.tp == TP_DATE || self.tp == TP_DATETIME),
    {
        self.tp == TP_DATE || self.tp == TP_DATETIME
    }

    pub fn is_timestamp(&self) -> (r: bool)
        ensures
            r == (self.tp == TP_TIMESTAMP),
    {
        self.tp == TP_TIMESTAMP
    }

    pub fn is_duration(&self) -> (r: bool)
        ensures
            r == (self.tp == TP_DURATION),
    {
        self.tp == TP_DURATION
    }

    pub fn is_json(&self) -> (r: bool)
        ensures
            r == (self.tp == TP_JSON),
    {
        self.tp == TP_JSON
    }

    pub fn is_enum(&self) -> (r: bool)
        ensures
            r == (self.tp == TP_ENUM),
    {
        self.tp == TP_ENUM
    }

    pub fn is_set(&self) -> (r: bool)
        ensures
            r == (self.tp == TP_SET),
    {
        self.tp == TP_SET
    }

    pub fn is_null(&self) -> (r: bool)
        ensures
            r == (self.tp == TP_NULL),
    {
        self.tp == TP_NULL
    }

    pub fn is_bit(&self) -> (r: bool)
        ensures
            r == (self.tp == TP_BIT),
    {
        self.tp == TP_BIT
    }

    /// The value of an unsigned integer column.
    pub fn as_u64(&self) -> (r: Result<u64, Error>)
        ensures
            tp_is_integer(self.tp) && self.col.field_type.spec_is_unsigned() && v2_unsigned(self.data@) is Some
                <==> r is Ok,
            r is Ok ==> r->Ok_0 as nat == v2_unsigned(self.data@)->0,
            !(tp_is_integer(self.tp) && self.col.field_type.spec_is_unsigned()) ==> r matches Err(Error::CorruptedData(_)),
            tp_is_integer(self.tp) && self.col.field_type.spec_is_unsigned() && r is Err ==> error_bytes(r->Err_0)
                == Some(self.data@),
    {
        if !self.is_integer() || !self.col.field_type.is_unsigned() {
            return Err(Error::CorruptedData("invalid u64 data".to_owned()));
        }
        decode_v2_u64(self.data.as_slice())
    }

    /// The value of a signed integer column.
    pub fn as_i64(&self) -> (r: Result<i64, Error>)
        ensures
            tp_is_integer(self.tp) && !self.col.field_type.spec_is_unsigned() && v2_signed(self.data@) is Some
                <==> r is Ok,
            r is Ok ==> r->Ok_0 as int == v2_signed(self.data@)->0,
            !(tp_is_integer(self.tp) && !self.col.field_type.spec_is_unsigned()) ==> r matches Err(Error::CorruptedData(_)),
            tp_is_integer(self.tp) && !self.col.field_type.spec_is_unsigned() && r is Err ==> error_bytes(r->Err_0)
                == Some(self.data@),
    {
        if !self.is_integer() || self.col.field_type.is_unsigned() {
            return Err(Error::CorruptedData("invalid i64 data".to_owned()));
        }
        decode_v2_i64(self.data.as_slice())
    }

    /// The bytes of a string or blob column.
    pub fn as_bytes(&self) -> (r: Result<Vec<u8>, Error>)
        ensures
            r is Err ==> is_corrupted_data(r->Err_0),
            tp_is_string(self.tp) <==> r is Ok,
            r is Ok ==> r->Ok_0@ == self.data@,
    {
        if !self.is_string() {
            return Err(Error::CorruptedData("invalid bytes data".to_owned()));
        }
        Ok(copy_bytes(self.data.as_slice()))
    }

    /// The value of a date or date-time column.
    pub fn as_datetime(&self) -> (r: Result<Time, Error>)
        ensures
            r is Err ==> is_corrupted_data(r->Err_0),
            (self.tp == TP_DATE || self.tp == TP_DATETIME) && v2_unsigned(self.data@) is Some
                && fsp_of(self.col.field_type.Decimal) is Some <==> r is Ok,
            r matches Ok(t) ==> t.parts() == unpack_time(v2_unsigned(self.data@)->0 as u64) && t.with_clock == (self.tp
                == TP_DATETIME) && t.fsp as nat == fsp_of(self.col.field_type.Decimal)->0,
    {
        if !self.is_datatime() {
            return Err(Error::CorruptedData("invalid datetime data".to_owned()));
        }
        let p = decode_v2_u64(self.data.as_slice())?;
        let fsp = column_fsp(self.col)?;
        Ok(Time::from_packed_u64(p, self.tp == TP_DATETIME, fsp))
    }

    /// The value of a timestamp column, in UTC.
    pub fn as_timestamp(&self) -> (r: Result<Time, Error>)
        ensures
            r is Err ==> is_corrupted_data(r->Err_0),
            self.tp == TP_TIMESTAMP && v2_unsigned(self.data@) is Some && fsp_of(self.col.field_type.Decimal) is Some
                <==> r is Ok,
            r matches Ok(t) ==> t.parts() == unpack_time(v2_unsigned(self.data@)->0 as u64) && t.with_clock
                && t.fsp as nat == fsp_of(self.col.field_type.Decimal)->0,
    {
        if !self.is_timestamp() {
            return Err(Error::CorruptedData("invalid timestamp data".to_owned()));
        }
        let p = decode_v2_u64(self.data.as_slice())?;
        let fsp = column_fsp(self.col)?;
        Ok(Time::from_packed_u64(p, true, fsp))
    }

    /// The value of a duration column.
    pub fn as_duration(&self) -> (r: Result<Duration, Error>)
        ensures
            r is Err ==> is_corrupted_data(r->Err_0),
            self.tp == TP_DURATION && v2_signed(self.data@) is Some && fsp_of(self.col.field_type.Decimal) is Some
                <==> r is Ok,
            r matches Ok(d) ==> d.nanos as int == v2_signed(self.data@)->0 && d.fsp as nat == fsp_of(
                self.col.field_type.Decimal,
            )->0,
    {
        if !self.is_duration() {
            return Err(Error::CorruptedData("invalid duration data".to_owned()));
        }
        let nanos = decode_v2_i64(self.data.as_slice())?;
        let fsp = column_fsp(self.col)?;
        Ok(Duration { nanos, fsp })
    }

    /// The element name of an enum column.
    pub fn as_enum_val(&self) -> (r: Result<Vec<u8>, Error>)
        ensures
            self.tp == TP_ENUM && v2_unsigned(self.data@) is Some && enum_text(
                self.col.field_type.Elems@,
                v2_unsigned(self.data@)->0,
            ) is Some <==> r is Ok,
            r is Ok ==> r->Ok_0@ == enum_text(self.col.field_type.Elems@, v2_unsigned(self.data@)->0)->0,
            self.tp != TP_ENUM ==> r matches Err(Error::CorruptedData(_)),
            self.tp == TP_ENUM && v2_unsigned(self.data@) is None ==> error_bytes(r->Err_0) == Some(self.data@),
            self.tp == TP_ENUM && v2_unsigned(self.data@) is Some && enum_text(
                self.col.field_type.Elems@,
                v2_unsigned(self.data@)->0,
            ) is None ==> r matches Err(Error::CorruptedData(_)),
    {
        if !self.is_enum() {
            return Err(Error::CorruptedData("invalid enum data".to_owned()));
        }
        let num = decode_v2_u64(self.data.as_slice())?;
        let elems = &self.col.field_type.Elems;
        if num == 0 || num > elems.len() as u64 {
            return Err(Error::CorruptedData("enum data number overflow enum boundary".to_owned()));
        }
        let idx = (num - 1) as usize;
        let mut out: Vec<u8> = Vec::new();
        push_all(&mut out, elems[idx].as_str().as_bytes());
        Ok(out)
    }

    /// The text of a set column: `[`, the names of its elements joined with commas, `]`.
    pub fn as_set_vals(&self) -> (r: Result<Vec<u8>, Error>)
        ensures
            self.tp == TP_SET && v2_unsigned(self.data@) is Some <==> r is Ok,
            r is Ok ==> r->Ok_0@ == set_text(self.col.field_type.Elems@, v2_unsigned(self.data@)->0 as u64),
            self.tp != TP_SET ==> r matches Err(Error::CorruptedData(_)),
            self.tp == TP_SET && v2_unsigned(self.data@) is None ==> error_bytes(r->Err_0) == Some(self.data@),
    {
        if !self.is_set() {
            return Err(Error::CorruptedData("invalid set data".to_owned()));
        }
        let bits = decode_v2_u64(self.data.as_slice())?;
        let elems = &self.col.field_type.Elems;
        let mut out: Vec<u8> = Vec::new();
        out.push(0x5b);
        let mut count: usize = 0;
        let mut i: usize = 0;
        while i < elems.len()
            invariant
                i <= elems@.len(),
                count == set_items(elems@, bits, i as nat).len(),
                count <= i,
                out@ == seq![0x5bu8] + join_commas(set_items(elems@, bits, i as nat)),
            decreases elems@.len() - i,
        {
            let ghost prev = set_items(elems@, bits, i as nat);
            if i < 64 && (bits >> (i as u64)) & 1 == 1 {
                if count > 0 {
                    out.push(0x2c);
                }
                push_all(&mut out, elems[i].as_str().as_bytes());
                count += 1;
                let ghost items = set_items(elems@, bits, (i + 1) as nat);
                assert(items.drop_last() == prev);
                assert(out@ =~= seq![0x5bu8] + join_commas(items));
            }
            i += 1;
        }
        out.push(0x5d);
        assert(out@ =~= set_text(elems@, bits));
        Ok(out)
    }

    /// The value as text; fails on a malformed payload and on floating-point,
    /// decimal and JSON values, which are rendered outside the library.
    pub fn try_to_string(&self) -> (r: Result<Vec<u8>, Error>)
        ensures
            match datum_text(self.tp, self.data@, *self.col) {
                Some(t) => r is Ok && r->Ok_0@ == t,
                None => r is Err && is_corrupted_data(r->Err_0),
            },
            tp_is_string(self.tp) && !valid_utf8(self.data@) ==> error_bytes(r->Err_0) == Some(self.data@),
    {
        if self.is_integer() {
            if self.col.field_type.is_unsigned() {
                let v = self.as_u64()?;
                let mut out: Vec<u8> = Vec::new();
                push_decimal(&mut out, v);
                assert(out@ =~= decimal(v as nat));
                Ok(out)
            } else {
                let v = self.as_i64()?;
                let mut out: Vec<u8> = Vec::new();
                push_i64_text(&mut out, v);
                assert(out@ =~= int_text(v as int));
                Ok(out)
            }
        } else if self.is_string() {
            if !is_valid_utf8(self.data.as_slice()) {
                return Err(Error::CorruptedDataBytes("try to string error.".to_owned(), copy_bytes(self.data.as_slice())));
            }
            self.as_bytes()
        } else if self.is_duration() {
            let d = self.as_duration()?;
            Ok(d.text())
        } else if self.is_enum() {
            self.as_enum_val()
        } else if self.is_set() {
            self.as_set_vals()
        } else if self.is_timestamp() {
            let t = self.as_timestamp()?;
            Ok(t.text())
        } else if self.is_datatime() {
            let t = self.as_datetime()?;
            Ok(t.text())
        } else if self.is_bit() || self.is_year() {
            let v = decode_v2_u64(self.data.as_slice())?;
            let mut out: Vec<u8> = Vec::new();
            push_decimal(&mut out, v);
            assert(out@ =~= decimal(v as nat));
            Ok(out)
        } else if self.is_float() || self.is_double() || self.is_decimal() || self.is_json() {
            Err(Error::CorruptedData("this type is rendered outside the library".to_owned()))
        } else {
            let out: Vec<u8> = vec![0x4e, 0x55, 0x4c, 0x4c];
            assert(out@ =~= seq![0x4eu8, 0x55u8, 0x4cu8, 0x4cu8]);
            Ok(out)
        }
    }
}

/// Two little-endian bytes of a value below 2^16.
pub open spec fn u16_le(x: nat) -> Seq<u8> {
    seq![(x % 256) as u8, (x / 256) as u8]
}

/// Total length of the first `k` values.
pub open spec fn ends(vals: Seq<Seq<u8>>, k: nat) -> nat
    decreases k,
{
    if k == 0 || k > vals.len() {
        0
    } else {
        ends(vals, (k - 1) as nat) + vals[k - 1].len()
    }
}

/// The first `k` values one after the other.
pub open spec fn concat_values(vals: Seq<Seq<u8>>, k: nat) -> Seq<u8>
    decreases k,
{
    if k == 0 || k > vals.len() {
        Seq::empty()
    } else {
        concat_values(vals, (k - 1) as nat) + vals[k - 1]
    }
}

/// End offsets of the first `k` values, two little-endian bytes each.
pub open spec fn offset_bytes(vals: Seq<Seq<u8>>, k: nat) -> Seq<u8>
    decreases k,
{
    if k == 0 || k > vals.len() {
        Seq::empty()
    } else {
        offset_bytes(vals, (k - 1) as nat) + u16_le(ends(vals, k))
    }
}

/// Row-v2 encoding, small form, of a row whose columns all hold a value: `ids[k]`
/// holds `vals[k]`.
pub open spec fn encode_small_row(ids: Seq<u8>, vals: Seq<Seq<u8>>) -> Seq<u8> {
    seq![CODEC_VERSION, 0u8] + u16_le(ids.len()) + u16_le(0) + ids + offset_bytes(vals, vals.len()) + concat_values(
        vals,
        vals.len(),
    )
}

proof fn lemma_u16_le(x: nat)
    requires
        x < 0x1_0000,
    ensures
        le_uint(u16_le(x), 0, 2) == x,
{
    assert((x % 256) + 256 * (x / 256) == x) by (nonlinear_arith);
    assert(x / 256 < 256) by (nonlinear_arith)
        requires x < 0x1_0000;
}

proof fn lemma_ends_grow(vals: Seq<Seq<u8>>, a: nat, b: nat)
    requires
        a <= b <= vals.len(),
    ensures
        ends(vals, a) <= ends(vals, b),
    decreases b - a,
{
    if a < b {
        lemma_ends_grow(vals, a, (b - 1) as nat);
    }
}

proof fn lemma_concat_values(vals: Seq<Seq<u8>>, m: nat)
    requires
        m <= vals.len(),
    ensures
        concat_values(vals, m).len() == ends(vals, m),
        forall|k: int| 0 <= k < m ==> #[trigger] concat_values(vals, m).subrange(ends(vals, k as nat) as int, ends(vals, (k + 1) as nat) as int) == vals[k],
    decreases m,
{
    if m > 0 {
        let p = (m - 1) as nat;
        lemma_concat_values(vals, p);
        let c = concat_values(vals, m);
        assert forall|k: int| 0 <= k < m implies #[trigger] concat_values(vals, m).subrange(ends(vals, k as nat) as int, ends(vals, (k + 1) as nat) as int) == vals[k] by {
            if k < p {
                lemma_ends_grow(vals, (k + 1) as nat, p);
                assert(c.subrange(ends(vals, k as nat) as int, ends(vals, (k + 1) as nat) as int) =~= concat_values(vals, p).subrange(ends(vals, k as nat) as int, ends(vals, (k + 1) as nat) as int));
            } else {
                assert(c.subrange(ends(vals, k as nat) as int, ends(vals, (k + 1) as nat) as int) =~= vals[k]);
            }
        }
    }
}

proof fn lemma_offset_bytes(vals: Seq<Seq<u8>>, m: nat)
    requires
        m <= vals.len(),
        ends(vals, vals.len()) < 0x1_0000,
    ensures
        offset_bytes(vals, m).len() == 2 * m,
        forall|k: int| 0 <= k < m ==> #[trigger] le_uint(offset_bytes(vals, m), 2 * k, 2) == ends(vals, (k + 1) as nat),
    decreases m,
{
    if m > 0 {
        let p = (m - 1) as nat;
        lemma_offset_bytes(vals, p);
        lemma_ends_grow(vals, m, vals.len());
        lemma_u16_le(ends(vals, m));
        let o = offset_bytes(vals, m);
        assert forall|k: int| 0 <= k < m implies #[trigger] le_uint(offset_bytes(vals, m), 2 * k, 2) == ends(vals, (k + 1) as nat) by {
            if k < p {
                assert(o[2 * k] == offset_bytes(vals, p)[2 * k]);
                assert(o[2 * k + 1] == offset_bytes(vals, p)[2 * k + 1]);
                assert(le_uint(offset_bytes(vals, p), 2 * k, 2) == ends(vals, (k + 1) as nat));
            } else {
                assert(o[2 * k] == u16_le(ends(vals, m))[0]);
                assert(o[2 * k + 1] == u16_le(ends(vals, m))[1]);
                assert(le_uint(u16_le(ends(vals, m)), 0, 2) == ends(vals, m));
            }
        }
    }
}

/// Decoding the row-v2 encoding of a row whose columns all hold a value gives back,
/// column by column, the column's type and the value's bytes.
pub proof fn lemma_row_v2_round_trip(ids: Seq<u8>, vals: Seq<Seq<u8>>, cols: Seq<ColumnInfo>, pk_is_handle: bool, pri: Seq<u8>)
    requires
        ids.len() == vals.len(),
        cols.len() == ids.len(),
        ids.len() < 0x1_0000,
        forall|k: int| 0 <= k < cols.len() ==> (#[trigger] cols[k]).id == ids[k] as int,
        forall|a: int, b: int| 0 <= a < b < ids.len() ==> #[trigger] ids[a] < #[trigger] ids[b],
        ends(vals, vals.len()) < 0x1_0000,
    ensures
        decode_row(encode_small_row(ids, vals), cols, pk_is_handle, pri) == Some(
            Seq::new(cols.len(), |k: int| (tp_of(cols[k].field_type.Tp), vals[k])),
        ),
{
    let n = ids.len();
    let v = encode_small_row(ids, vals);
    let ob = offset_bytes(vals, n);
    let cv = concat_values(vals, n);
    lemma_offset_bytes(vals, n);
    lemma_concat_values(vals, n);
    lemma_u16_le(n);
    lemma_u16_le(0);
    let head = seq![CODEC_VERSION, 0u8] + u16_le(n) + u16_le(0);
    assert(v == head + ids + ob + cv);
    assert(v[0] == CODEC_VERSION && v[1] == 0u8);
    assert(le_uint(v, 2, 2) == le_uint(u16_le(n), 0, 2));
    assert(le_uint(v, 4, 2) == le_uint(u16_le(0), 0, 2));
    let l = parse_row_layout(v)->0;
    let ids_nat = le_array(v, 6, 1, n);
    assert forall|k: int| 0 <= k < n implies #[trigger] ids_nat[k] == ids[k] as nat by {
        assert(v[6 + k] == ids[k]);
    }
    let offs = le_array(v, 6 + n as int, 2, n);
    assert forall|k: int| 0 <= k < n implies #[trigger] offs[k] == ends(vals, (k + 1) as nat) by {
        assert(v[6 + n + 2 * k] == ob[2 * k]);
        assert(v[6 + n + 2 * k + 1] == ob[2 * k + 1]);
        assert(le_uint(ob, 2 * k, 2) == ends(vals, (k + 1) as nat));
        assert(offs[k] == le_uint(v, 6 + n + 2 * k, 2));
    }
    assert(v.subrange(6 + 3 * n as int, v.len() as int) =~= cv);
    assert(strictly_ascending(ids_nat));
    assert(strictly_ascending(le_array(v, 6 + n as int, 1, 0)));
    assert(parse_row_layout(v) is Some);
    assert(l.non_null_ids == ids_nat);
    assert(l.offsets == offs);
    assert(l.values == cv);
    assert(l.null_ids.len() == 0);
    assert forall|k: int| 0 <= k < cols.len() implies #[trigger] column_datum(l, cols[k], pk_is_handle, pri) == Some((tp_of(cols[k].field_type.Tp), vals[k])) by {
        assert(ids_nat[k] == cols[k].id);
        assert forall|i: int| 0 <= i < n && ids_nat[i] == cols[k].id implies i == k by {
            if i < k {
                assert(ids[i] < ids[k]);
            } else if i > k {
                assert(ids[k] < ids[i]);
            }
        }
        assert(position(l.non_null_ids, cols[k].id as int) == Some(k));
        lemma_ends_grow(vals, (k + 1) as nat, n);
        if k == 0 {
            assert(ends(vals, 0) == 0);
        } else {
            assert(offs[k - 1] == ends(vals, k as nat));
        }
        assert(cv.subrange(ends(vals, k as nat) as int, ends(vals, (k + 1) as nat) as int) == vals[k]);
    }
    assert(all_columns_decode(l, cols, pk_is_handle, pri));
    assert(Seq::new(cols.len(), |k: int| column_datum(l, cols[k], pk_is_handle, pri)->0) =~= Seq::new(
        cols.len(),
        |k: int| (tp_of(cols[k].field_type.Tp), vals[k]),
    ));
}

/// Length of the well-formed UTF-8 scalar at `s[at]`, if one starts there.
fn first_scalar_len(s: &[u8], at: usize) -> (r: Option<usize>)
    requires
        at < s@.len(),
    ensures
        valid_first_scalar(s@.subrange(at as int, s@.len() as int)) <==> r is Some,
        r matches Some(n) ==> n as int == length_of_first_scalar(s@.subrange(at as int, s@.len() as int)),
{
    let ghost t = s@.subrange(at as int, s@.len() as int);
    let rem = s.len() - at;
    let b1 = s[at];
    assert(t[0] == b1);
    if b1 <= 0x7f {
        return Some(1);
    }
    if 0xc0 <= b1 && b1 <= 0xdf {
        if rem < 2 {
            return None;
        }
        let b2 = s[at + 1];
        assert(t[1] == b2);
        if !(0x80 <= b2 && b2 <= 0xbf) {
            return None;
        }
        let c: u32 = (((b1 & 0x1f) as u32) << 6) | ((b2 & 0x3f) as u32);
        assert(c == decode_first_codepoint(t));
        assert((((b1 & 0x1f) as u32) << 6) | ((b2 & 0x3f) as u32) <= 0x7ff) by (bit_vector);
        if c < 0x80 {
            return None;
        }
        return Some(2);
    }
    if 0xe0 <= b1 && b1 <= 0xef {
        if rem < 3 {
            return None;
        }
        let b2 = s[at + 1];
        let b3 = s[at + 2];
        assert(t[1] == b2 && t[2] == b3);
        if !(0x80 <= b2 && b2 <= 0xbf) || !(0x80 <= b3 && b3 <= 0xbf) {
            return None;
        }
        let c: u32 = (((b1 & 0x0f) as u32) << 12) | (((b2 & 0x3f) as u32) << 6) | ((b3 & 0x3f) as u32);
        assert(c == decode_first_codepoint(t));
        if c < 0x800 || (0xd800 <= c && c <= 0xdfff) {
            return None;
        }
        return Some(3);
    }
    if 0xf0 <= b1 && b1 <= 0xf7 {
        if rem < 4 {
            return None;
        }
        let b2 = s[at + 1];
        let b3 = s[at + 2];
        let b4 = s[at + 3];
        assert(t[1] == b2 && t[2] == b3 && t[3] == b4);
        if !(0x80 <= b2 && b2 <= 0xbf) || !(0x80 <= b3 && b3 <= 0xbf) || !(0x80 <= b4 && b4 <= 0xbf) {
            return None;
        }
        let c: u32 = (((b1 & 0x07) as u32) << 18) | (((b2 & 0x3f) as u32) << 12) | (((b3 & 0x3f) as u32) << 6) | ((
        b4 & 0x3f) as u32);
        assert(c == decode_first_codepoint(t));
        if c < 0x10000 || c > 0x10ffff || (0xd800 <= c && c <= 0xdfff) {
            return None;
        }
        return Some(4);
    }
    None
}

/// Whether a byte string is well-formed UTF-8.
pub fn is_valid_utf8(s: &[u8]) -> (r: bool)
    ensures
        r == valid_utf8(s@),
{
    let mut pos: usize = 0;
    assert(s@.subrange(0, s@.len() as int) =~= s@);
    while pos < s.len()
        invariant
            pos <= s@.len(),
            valid_utf8(s@) == valid_utf8(s@.subrange(pos as int, s@.len() as int)),
        decreases s@.len() - pos,
    {
        let ghost t = s@.subrange(pos as int, s@.len() as int);
        match first_scalar_len(s, pos) {
            None => {
                return false;
            },
            Some(n) => {
                assert(t.subrange(n as int, t.len() as int) =~= s@.subrange(pos + n, s@.len() as int));
                pos = pos + n;
            },
        }
    }
    assert(s@.subrange(pos as int, s@.len() as int) =~= Seq::<u8>::empty());
    true
}

} // verus!
