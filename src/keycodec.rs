use vstd::prelude::*;
use crate::errors::{Error, error_bytes};
use crate::bytes::{push_range, push_u64_be, read_u64_be, u64_be, be_u64};

verus! {

/// Prefix byte of every user key persisted in the store.
pub const DATA_PREFIX: u8 = 0x7a;

/// Marker byte that closes a full eight-byte group of the memcomparable encoding.
pub const ENC_MARKER: u8 = 0xff;

/// Marker of the last group when it holds no data byte; each data byte adds one.
pub const ENC_LAST_MARKER_BASE: u8 = 0xf7;

/// Bit that flips the order of signed integers into the order of their unsigned images.
pub const SIGN_MASK: u64 = 0x8000_0000_0000_0000;

/// Memcomparable encoding: groups of eight data bytes, each closed by a marker byte
/// (`0xff` for a full group; `0xf7` plus the number of data bytes for the last,
/// zero-padded, group).
pub open spec fn memcomparable(s: Seq<u8>) -> Seq<u8>
    decreases s.len(),
{
    if s.len() >= 8 {
        s.subrange(0, 8) + seq![ENC_MARKER] + memcomparable(s.subrange(8, s.len() as int))
    } else {
        s + Seq::new((8 - s.len()) as nat, |i: int| 0u8) + seq![(ENC_LAST_MARKER_BASE + s.len()) as u8]
    }
}

/// Decodes the memcomparable prefix of `s`: the plain bytes and the number of
/// encoded bytes read, or `None` where `s` does not start with a valid encoding.
pub open spec fn memcomparable_decode(s: Seq<u8>) -> Option<(Seq<u8>, nat)>
    decreases s.len(),
{
    if s.len() < 9 {
        None
    } else if s[8] == ENC_MARKER {
        match memcomparable_decode(s.subrange(9, s.len() as int)) {
            Some((d, n)) => Some((s.subrange(0, 8) + d, n + 9)),
            None => None,
        }
    } else if s[8] < ENC_LAST_MARKER_BASE {
        None
    } else {
        let k = (s[8] - ENC_LAST_MARKER_BASE) as int;
        if forall|j: int| k <= j < 8 ==> s[j] == 0u8 {
            Some((s.subrange(0, k), 9))
        } else {
            None
        }
    }
}

/// Prepends a known prefix to a decoding result.
pub open spec fn with_prefix(p: Seq<u8>, k: nat, o: Option<(Seq<u8>, nat)>) -> Option<(Seq<u8>, nat)> {
    match o {
        Some((d, n)) => Some((p + d, n + k)),
        None => None,
    }
}

/// Memcomparable decoding undoes the encoding, whatever follows the encoded bytes.
pub proof fn lemma_memcomparable_round_trip(s: Seq<u8>, rest: Seq<u8>)
    ensures
        memcomparable_decode(memcomparable(s) + rest) == Some((s, memcomparable(s).len())),
    decreases s.len(),
{
    let e = memcomparable(s) + rest;
    if s.len() >= 8 {
        let tail = s.subrange(8, s.len() as int);
        lemma_memcomparable_round_trip(tail, rest);
        assert(e.subrange(9, e.len() as int) == memcomparable(tail) + rest);
        assert(e.subrange(0, 8) == s.subrange(0, 8));
        assert(s.subrange(0, 8) + tail == s);
    } else {
        assert(e[8] == (ENC_LAST_MARKER_BASE + s.len()) as u8);
        assert(e.subrange(0, s.len() as int) == s);
    }
}

/// Appends the memcomparable encoding of `s` to `out`.
pub fn encode_bytes_into(out: &mut Vec<u8>, s: &[u8])
    ensures
        final(out)@ == old(out)@ + memcomparable(s@),
{
    let len = s.len();
    let mut i: usize = 0;
    assert(s@.subrange(0, len as int) == s@);
    while len - i >= 8
        invariant
            i <= len,
            len == s@.len(),
            out@ + memcomparable(s@.subrange(i as int, len as int)) == old(out)@ + memcomparable(s@),
        decreases len - i,
    {
        let ghost rest = s@.subrange(i as int, len as int);
        let ghost before = out@;
        assert(rest.subrange(0, 8) == s@.subrange(i as int, i + 8));
        assert(rest.subrange(8, rest.len() as int) == s@.subrange(i + 8, len as int));
        push_range(out, s, i, i + 8);
        out.push(ENC_MARKER);
        i += 8;
        assert(before + memcomparable(rest) == out@ + memcomparable(s@.subrange(i as int, len as int)));
    }
    let ghost before = out@;
    let ghost rest = s@.subrange(i as int, len as int);
    let rem = len - i;
    push_range(out, s, i, len);
    let mut k: usize = rem;
    while k < 8
        invariant
            rem <= k <= 8,
            out@ == before + rest + Seq::new((k - rem) as nat, |j: int| 0u8),
        decreases 8 - k,
    {
        out.push(0u8);
        k += 1;
        assert(out@ =~= before + rest + Seq::new((k - rem) as nat, |j: int| 0u8));
    }
    out.push(ENC_LAST_MARKER_BASE + rem as u8);
    assert(out@ =~= before + memcomparable(rest));
}

/// The memcomparable encoding of `s`.
pub fn encode_bytes(s: &[u8]) -> (r: Vec<u8>)
    ensures
        r@ == memcomparable(s@),
{
    let mut r: Vec<u8> = Vec::new();
    encode_bytes_into(&mut r, s);
    assert(r@ =~= memcomparable(s@));
    r
}

/// Whether `s[from..to]` holds zeros only.
fn all_zero(s: &[u8], from: usize, to: usize) -> (r: bool)
    requires
        from <= to <= s@.len(),
    ensures
        r == (forall|t: int| from <= t < to ==> s@[t] == 0u8),
{
    let mut j: usize = from;
    while j < to
        invariant
            from <= j <= to,
            to <= s@.len(),
            forall|t: int| from <= t < j ==> s@[t] == 0u8,
        decreases to - j,
    {
        if s[j] != 0 {
            return false;
        }
        j += 1;
    }
    true
}

/// Decodes the memcomparable encoding that starts at `s[start]`: the plain bytes
/// and the position just past the encoding.
pub fn decode_bytes(s: &[u8], start: usize) -> (r: Result<(Vec<u8>, usize), Error>)
    requires
        start <= s@.len(),
    ensures
        match memcomparable_decode(s@.subrange(start as int, s@.len() as int)) {
            Some((d, n)) => r is Ok && r->Ok_0.0@ == d && r->Ok_0.1 == start + n,
            None => r is Err,
        },
{
    let mut acc: Vec<u8> = Vec::new();
    let mut pos: usize = start;
    loop
        invariant
            start <= pos <= s@.len(),
            memcomparable_decode(s@.subrange(start as int, s@.len() as int)) == with_prefix(
                acc@,
                (pos - start) as nat,
                memcomparable_decode(s@.subrange(pos as int, s@.len() as int)),
            ),
        decreases s@.len() - pos,
    {
        let ghost rest = s@.subrange(pos as int, s@.len() as int);
        if s.len() - pos < 9 {
            return Err(Error::CorruptedData("memcomparable key ends inside a group".to_owned()));
        }
        let marker = s[pos + 8];
        if marker == ENC_MARKER {
            assert(rest.subrange(9, rest.len() as int) == s@.subrange(pos + 9, s@.len() as int));
            assert(rest.subrange(0, 8) == s@.subrange(pos as int, pos + 8));
            let ghost acc0 = acc@;
            push_range(&mut acc, s, pos, pos + 8);
            pos += 9;
            assert forall|o: Option<(Seq<u8>, nat)>|
                with_prefix(acc0, (pos - 9 - start) as nat, with_prefix(rest.subrange(0, 8), 9, o))
                    == with_prefix(acc@, (pos - start) as nat, o) by {
                match o {
                    Some((d, n)) => {
                        assert(acc0 + (rest.subrange(0, 8) + d) == acc@ + d);
                    },
                    None => {},
                }
            }
            assert(memcomparable_decode(rest) == with_prefix(rest.subrange(0, 8), 9,
                memcomparable_decode(s@.subrange(pos as int, s@.len() as int))));
        } else if marker < ENC_LAST_MARKER_BASE {
            return Err(Error::CorruptedData("memcomparable group has a bad marker".to_owned()));
        } else {
            let k: usize = (marker - ENC_LAST_MARKER_BASE) as usize;
            if !all_zero(s, pos + k, pos + 8) {
                assert(!(forall|j: int| k <= j < 8 ==> rest[j] == 0u8)) by {
                    let t = choose|t: int| pos + k <= t < pos + 8 && s@[t] != 0u8;
                    assert(rest[t - pos] == s@[t]);
                }
                return Err(Error::CorruptedData("memcomparable padding is not zero".to_owned()));
            }
            assert(forall|j: int| k <= j < 8 ==> rest[j] == 0u8) by {
                assert forall|j: int| k <= j < 8 implies rest[j] == 0u8 by {
                    assert(s@[pos + j] == 0u8);
                }
            }
            let ghost acc0 = acc@;
            push_range(&mut acc, s, pos, pos + k);
            assert(rest.subrange(0, k as int) == s@.subrange(pos as int, pos + k));
            assert(acc@ == acc0 + rest.subrange(0, k as int));
            return Ok((acc, pos + 9));
        }
    }
}

/// Order-preserving image of a signed integer: its two's complement bits with the
/// sign bit flipped.
pub open spec fn comparable_i64(v: i64) -> u64 {
    (v as u64) ^ SIGN_MASK
}

/// The signed integer whose order-preserving image is `u`.
pub open spec fn i64_of_comparable(u: u64) -> i64 {
    (u ^ SIGN_MASK) as i64
}

/// Flipping the sign bit back recovers the integer.
pub proof fn lemma_comparable_i64_round_trip(v: i64)
    ensures
        i64_of_comparable(comparable_i64(v)) == v,
{
    assert((((v as u64) ^ 0x8000_0000_0000_0000u64) ^ 0x8000_0000_0000_0000u64) as i64 == v)
        by (bit_vector);
}

/// User key of a row: `t`, the table id, `_r`, the handle; both integers as eight
/// big-endian bytes of their order-preserving image.
pub open spec fn row_key(table_id: i64, handle: i64) -> Seq<u8> {
    seq![0x74u8] + u64_be(comparable_i64(table_id)) + seq![0x5fu8, 0x72u8] + u64_be(
        comparable_i64(handle),
    )
}

/// The handle carried by a user key of row shape; `None` for a key of another shape.
pub open spec fn row_key_handle(k: Seq<u8>) -> Option<i64> {
    if k.len() >= 19 && k[0] == 0x74u8 && k[9] == 0x5fu8 && k[10] == 0x72u8 {
        Some(i64_of_comparable(be_u64(k.subrange(11, 19))))
    } else {
        None
    }
}

/// The handle of a row key is the handle it was built with.
pub proof fn lemma_row_key_handle(table_id: i64, handle: i64)
    ensures
        row_key_handle(row_key(table_id, handle)) == Some(handle),
{
    let k = row_key(table_id, handle);
    assert(k.subrange(11, 19) == u64_be(comparable_i64(handle)));
    crate::bytes::lemma_be_u64_of_bytes(comparable_i64(handle));
    lemma_comparable_i64_round_trip(handle);
}

/// Builds the user key of a row.
pub fn encode_row_key(table_id: i64, handle: i64) -> (r: Vec<u8>)
    ensures
        r@ == row_key(table_id, handle),
{
    let mut r: Vec<u8> = Vec::new();
    r.push(0x74);
    push_u64_be(&mut r, (table_id as u64) ^ SIGN_MASK);
    r.push(0x5f);
    r.push(0x72);
    push_u64_be(&mut r, (handle as u64) ^ SIGN_MASK);
    assert(r@ =~= row_key(table_id, handle));
    r
}

/// Extracts the signed handle from a row key; fails on a key of another shape.
pub fn decode_int_handle(key: &[u8]) -> (r: Result<i64, Error>)
    ensures
        match row_key_handle(key@) {
            Some(h) => r == Ok::<i64, Error>(h),
            None => r is Err && error_bytes(r->Err_0) == Some(key@),
        },
{
    if key.len() < 19 || key[0] != 0x74 || key[9] != 0x5f || key[10] != 0x72 {
        return Err(Error::CorruptedDataBytes("key is not a row key".to_owned(), copy_bytes(key)));
    }
    let u = read_u64_be(key, 11);
    Ok((u ^ SIGN_MASK) as i64)
}

/// A fresh vector holding the bytes of a slice.
pub fn copy_bytes(s: &[u8]) -> (r: Vec<u8>)
    ensures
        r@ == s@,
{
    let mut r: Vec<u8> = Vec::new();
    crate::bytes::push_all(&mut r, s);
    assert(r@ =~= s@);
    r
}

/// Eight-byte suffix that carries a commit timestamp: the big-endian bytes of its
/// bitwise complement, so that newer versions sort first.
pub open spec fn ts_suffix(ts: u64) -> Seq<u8> {
    u64_be(!ts)
}

/// The timestamp carried by the last eight bytes of a key.
pub open spec fn suffix_ts(k: Seq<u8>) -> u64 {
    !be_u64(k.subrange(k.len() - 8, k.len() as int))
}

/// The suffix of a timestamp carries that timestamp.
pub proof fn lemma_suffix_ts(k: Seq<u8>, ts: u64)
    ensures
        suffix_ts(k + ts_suffix(ts)) == ts,
{
    let e = k + ts_suffix(ts);
    assert(e.subrange(e.len() - 8, e.len() as int) == u64_be(!ts));
    crate::bytes::lemma_be_u64_of_bytes(!ts);
    assert(!(!ts) == ts) by (bit_vector);
}

/// Appends the suffix of a commit timestamp to a key.
pub fn append_ts(key: &[u8], ts: u64) -> (r: Vec<u8>)
    ensures
        r@ == key@ + ts_suffix(ts),
{
    let mut r = copy_bytes(key);
    push_u64_be(&mut r, !ts);
    r
}

/// Removes the trailing eight-byte timestamp of a key; fails on a key shorter than that.
pub fn strip_mvcc_suffix(key: &[u8]) -> (r: Result<Vec<u8>, Error>)
    ensures
        key@.len() >= 8 ==> r is Ok && r->Ok_0@ == key@.subrange(0, key@.len() - 8),
        key@.len() < 8 ==> r is Err,
{
    if key.len() < 8 {
        return Err(Error::CorruptedDataBytes("key is too short for a timestamp".to_owned(), copy_bytes(key)));
    }
    let mut r: Vec<u8> = Vec::new();
    push_range(&mut r, key, 0, key.len() - 8);
    assert(r@ =~= key@.subrange(0, key@.len() - 8));
    Ok(r)
}

/// Reads the timestamp of the trailing eight bytes of a key; fails on a key shorter than that.
pub fn decode_ts(key: &[u8]) -> (r: Result<u64, Error>)
    ensures
        key@.len() >= 8 ==> r == Ok::<u64, Error>(suffix_ts(key@)),
        key@.len() < 8 ==> r is Err,
{
    if key.len() < 8 {
        return Err(Error::CorruptedDataBytes("key is too short for a timestamp".to_owned(), copy_bytes(key)));
    }
    Ok(!read_u64_be(key, key.len() - 8))
}

/// Key as the store holds it: the data prefix, the memcomparable user key, the
/// timestamp suffix.
pub open spec fn store_key(user_key: Seq<u8>, ts: u64) -> Seq<u8> {
    seq![DATA_PREFIX] + memcomparable(user_key) + ts_suffix(ts)
}

/// The user key and commit timestamp of a stored key; `None` where the key has
/// no data prefix, no valid memcomparable user key, or not exactly eight bytes after it.
pub open spec fn parse_store_key(raw: Seq<u8>) -> Option<(Seq<u8>, u64)> {
    if raw.len() < 1 || raw[0] != DATA_PREFIX {
        None
    } else {
        match memcomparable_decode(raw.subrange(1, raw.len() as int)) {
            Some((u, n)) => if raw.len() == 1 + n + 8 {
                Some((u, suffix_ts(raw)))
            } else {
                None
            },
            None => None,
        }
    }
}

/// A stored key parses back into the user key and timestamp it was built from.
pub proof fn lemma_store_key_round_trip(user_key: Seq<u8>, ts: u64)
    ensures
        parse_store_key(store_key(user_key, ts)) == Some((user_key, ts)),
{
    let raw = store_key(user_key, ts);
    assert(raw.subrange(1, raw.len() as int) == memcomparable(user_key) + ts_suffix(ts));
    lemma_memcomparable_round_trip(user_key, ts_suffix(ts));
    assert(raw == (seq![DATA_PREFIX] + memcomparable(user_key)) + ts_suffix(ts));
    lemma_suffix_ts(seq![DATA_PREFIX] + memcomparable(user_key), ts);
}

/// Splits a stored key into its user key and commit timestamp.
pub fn decode_store_key(raw: &[u8]) -> (r: Result<(Vec<u8>, u64), Error>)
    ensures
        match parse_store_key(raw@) {
            Some((u, ts)) => r is Ok && r->Ok_0.0@ == u && r->Ok_0.1 == ts,
            None => r is Err && error_bytes(r->Err_0) == Some(raw@),
        },
{
    if raw.len() < 1 || raw[0] != DATA_PREFIX {
        return Err(Error::CorruptedDataBytes("key has no data prefix".to_owned(), copy_bytes(raw)));
    }
    match decode_bytes(raw, 1) {
        Ok((user_key, end)) => {
            if end > raw.len() || raw.len() - end != 8 {
                return Err(Error::CorruptedDataBytes("key has no timestamp suffix".to_owned(), copy_bytes(raw)));
            }
            let ts = !read_u64_be(raw, end);
            Ok((user_key, ts))
        },
        Err(_) => Err(Error::CorruptedDataBytes("key data decode error.".to_owned(), copy_bytes(raw))),
    }
}

/// Lower and upper bound (inclusive, exclusive) of the stored row keys of one table:
/// handles from 0 up to, not including, the largest `i64`.
pub open spec fn table_row_range(table_id: i64) -> (Seq<u8>, Seq<u8>) {
    (
        seq![DATA_PREFIX] + memcomparable(row_key(table_id, 0)),
        seq![DATA_PREFIX] + memcomparable(row_key(table_id, i64::MAX)),
    )
}

/// Builds the key range of the rows of one table.
pub fn encode_table_row_range(table_id: i64) -> (r: (Vec<u8>, Vec<u8>))
    ensures
        (r.0@, r.1@) == table_row_range(table_id),
{
    let lower_key = encode_row_key(table_id, 0);
    let upper_key = encode_row_key(table_id, i64::MAX);
    let mut lower: Vec<u8> = Vec::new();
    lower.push(DATA_PREFIX);
    encode_bytes_into(&mut lower, lower_key.as_slice());
    let mut upper: Vec<u8> = Vec::new();
    upper.push(DATA_PREFIX);
    encode_bytes_into(&mut upper, upper_key.as_slice());
    (lower, upper)
}

/// User key of the meta record of a database: `mDB:` and its decimal id.
pub open spec fn meta_db_key(db_id: int) -> Seq<u8> {
    seq![0x6du8, 0x44u8, 0x42u8, 0x3au8] + crate::bytes::int_text(db_id)
}

/// Lower and upper bound of the stored meta keys of one database: from `mDB:{id}`
/// up to `mDB:{id + 1}`.
pub open spec fn meta_db_range(db_id: i64) -> (Seq<u8>, Seq<u8>) {
    (
        seq![DATA_PREFIX] + memcomparable(meta_db_key(db_id as int)),
        seq![DATA_PREFIX] + memcomparable(meta_db_key(db_id + 1)),
    )
}

fn encode_meta_db_key(db_id: i64) -> (r: Vec<u8>)
    ensures
        r@ == meta_db_key(db_id as int),
{
    let mut k: Vec<u8> = Vec::new();
    k.push(0x6d);
    k.push(0x44);
    k.push(0x42);
    k.push(0x3a);
    crate::bytes::push_i64_text(&mut k, db_id);
    assert(k@ =~= meta_db_key(db_id as int));
    k
}

/// Builds the key range of the meta records of one database.
pub fn encode_meta_db_range(db_id: i64) -> (r: (Vec<u8>, Vec<u8>))
    requires
        db_id < i64::MAX,
    ensures
        (r.0@, r.1@) == meta_db_range(db_id),
{
    let lower_key = encode_meta_db_key(db_id);
    let upper_key = encode_meta_db_key(db_id + 1);
    let mut lower: Vec<u8> = Vec::new();
    lower.push(DATA_PREFIX);
    encode_bytes_into(&mut lower, lower_key.as_slice());
    let mut upper: Vec<u8> = Vec::new();
    upper.push(DATA_PREFIX);
    encode_bytes_into(&mut upper, upper_key.as_slice());
    (lower, upper)
}

/// Lower and upper bound of the stored keys of the database list: `mDBs` followed by
/// anything below `0xff`.
pub open spec fn meta_db_list_range() -> (Seq<u8>, Seq<u8>) {
    (seq![DATA_PREFIX, 0x6du8, 0x44u8, 0x42u8, 0x73u8], seq![DATA_PREFIX, 0x6du8, 0x44u8, 0x42u8, 0x73u8, 0xffu8])
}

/// Builds the key range of the database list.
pub fn encode_meta_db_list_range() -> (r: (Vec<u8>, Vec<u8>))
    ensures
        (r.0@, r.1@) == meta_db_list_range(),
{
    let lower: Vec<u8> = vec![DATA_PREFIX, 0x6d, 0x44, 0x42, 0x73];
    let upper: Vec<u8> = vec![DATA_PREFIX, 0x6d, 0x44, 0x42, 0x73, 0xff];
    assert(lower@ =~= meta_db_list_range().0);
    assert(upper@ =~= meta_db_list_range().1);
    (lower, upper)
}

} // verus!
