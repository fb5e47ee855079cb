use vstd::prelude::*;
use crate::errors::{Error, error_bytes, is_corrupted_data};
use crate::bytes::push_all;
use crate::datum::{DatumRef, RowData, datum_text, decode_row, join_commas, tp_is_unquoted};
use crate::tidbtypes::{ColumnInfo, TableInfo, TP_NULL};

verus! {

/// CSV escape of one byte: backslash, newline, carriage return and double quote
/// become a backslash and `\`, `n`, `r`, `"`; other bytes stay.
pub open spec fn escape_byte(b: u8) -> Seq<u8> {
    if b == 0x5c {
        seq![0x5cu8, 0x5cu8]
    } else if b == 0x0a {
        seq![0x5cu8, 0x6eu8]
    } else if b == 0x0d {
        seq![0x5cu8, 0x72u8]
    } else if b == 0x22 {
        seq![0x5cu8, 0x22u8]
    } else {
        seq![b]
    }
}

/// CSV escape of a text, byte by byte.
pub open spec fn escape_text(t: Seq<u8>) -> Seq<u8>
    decreases t.len(),
{
    if t.len() == 0 {
        Seq::empty()
    } else {
        escape_text(t.drop_last()) + escape_byte(t.last())
    }
}

/// A CSV field for a value of type `tp` with text `t`: `\N` for null, the text as
/// it is for numeric types, else the escaped text in double quotes.
pub open spec fn csv_field_text(tp: u8, t: Seq<u8>) -> Seq<u8> {
    if tp == TP_NULL {
        seq![0x5cu8, 0x4eu8]
    } else if tp_is_unquoted(tp) {
        t
    } else {
        seq![0x22u8] + escape_text(t) + seq![0x22u8]
    }
}

/// A CSV record: the fields joined with commas, then a newline; a record with no
/// byte at all is written as two double quotes.
pub open spec fn csv_record_text(fields: Seq<Seq<u8>>) -> Seq<u8> {
    let body = join_commas(fields);
    if body.len() == 0 {
        seq![0x22u8, 0x22u8, 0x0au8]
    } else {
        body + seq![0x0au8]
    }
}

/// Views of a list of byte vectors.
pub open spec fn views(v: Seq<Vec<u8>>) -> Seq<Seq<u8>> {
    v.map_values(|f: Vec<u8>| f@)
}

/// Relies on csv::Writer::write_record, with quoting off and double quotes not
/// doubled: the fields verbatim, separated by commas, then the `\n` terminator; a
/// record with no byte is written as `""`. Writing into a vector does not fail.
#[verifier::external_body]
fn write_csv_record(fields: &Vec<Vec<u8>>) -> (r: Vec<u8>)
    ensures
        r@ == csv_record_text(views(fields@)),
{
    let mut w = csv::WriterBuilder::new()
        .double_quote(false)
        .quote_style(csv::QuoteStyle::Never)
        .from_writer(Vec::new());
    let _ = w.write_record(fields);
    w.into_inner().unwrap_or_default()
}

/// Builds one CSV record from its fields.
pub fn csv_line(fields: &Vec<Vec<u8>>) -> (r: Vec<u8>)
    ensures
        r@ == csv_record_text(views(fields@)),
{
    write_csv_record(fields)
}

/// Builds the CSV field of a value of type `tp` with text `t`.
pub fn csv_field(tp: u8, t: &[u8]) -> (r: Vec<u8>)
    ensures
        r@ == csv_field_text(tp, t@),
{
    let mut out: Vec<u8> = Vec::new();
    if tp == TP_NULL {
        out.push(0x5c);
        out.push(0x4e);
        assert(out@ =~= csv_field_text(tp, t@));
        return out;
    }
    if tp == 1 || tp == 2 || tp == 3 || tp == 8 || tp == 9 || tp == 4 || tp == 5 || tp == 0xf6 {
        push_all(&mut out, t);
        assert(out@ =~= csv_field_text(tp, t@));
        return out;
    }
    out.push(0x22);
    let mut i: usize = 0;
    while i < t.len()
        invariant
            i <= t@.len(),
            out@ == seq![0x22u8] + escape_text(t@.subrange(0, i as int)),
        decreases t@.len() - i,
    {
        let b = t[i];
        if b == 0x5c {
            out.push(0x5c);
            out.push(0x5c);
        } else if b == 0x0a {
            out.push(0x5c);
            out.push(0x6e);
        } else if b == 0x0d {
            out.push(0x5c);
            out.push(0x72);
        } else if b == 0x22 {
            out.push(0x5c);
            out.push(0x22);
        } else {
            out.push(b);
        }
        assert(t@.subrange(0, i + 1).drop_last() =~= t@.subrange(0, i as int));
        i += 1;
        assert(out@ =~= seq![0x22u8] + escape_text(t@.subrange(0, i as int)));
    }
    out.push(0x22);
    assert(t@.subrange(0, t@.len() as int) =~= t@);
    assert(out@ =~= csv_field_text(tp, t@));
    out
}

/// The CSV field of a datum, or `None` where its text cannot be made here.
pub open spec fn datum_field(tp: u8, data: Seq<u8>, col: ColumnInfo) -> Option<Seq<u8>> {
    if tp == TP_NULL {
        Some(csv_field_text(tp, Seq::empty()))
    } else {
        match datum_text(tp, data, col) {
            Some(t) => Some(csv_field_text(tp, t)),
            None => None,
        }
    }
}

/// Builds the CSV field of a datum.
pub fn datum_csv_field(d: &DatumRef) -> (r: Result<Vec<u8>, Error>)
    ensures
        match datum_field(d.tp, d.data@, *d.col) {
            Some(f) => r is Ok && r->Ok_0@ == f,
            None => r is Err && is_corrupted_data(r->Err_0),
        },
{
    if d.is_null() {
        return Ok(csv_field(TP_NULL, &[]));
    }
    let t = d.try_to_string()?;
    Ok(csv_field(d.tp, t.as_slice()))
}

/// The CSV record of a row: one field per column, in the table's column order;
/// `None` where the row does not decode or one of its values has no text here.
pub open spec fn row_csv(val: Seq<u8>, t: TableInfo, pri: Seq<u8>) -> Option<Seq<u8>> {
    match decode_row(val, t.cols@, t.pk_is_handle, pri) {
        None => None,
        Some(ds) => if forall|k: int| 0 <= k < ds.len() ==> (#[trigger] datum_field(ds[k].0, ds[k].1, t.cols@[k])) is Some {
            Some(csv_record_text(Seq::new(ds.len(), |k: int| datum_field(ds[k].0, ds[k].1, t.cols@[k])->0)))
        } else {
            None
        },
    }
}

/// Writes a row as one CSV record. A row that does not decode gives the decoder's
/// error, which holds the row's value; a value without text here gives the error
/// of its text.
pub fn row_to_csv(row: &RowData, table_info: &TableInfo) -> (r: Result<Vec<u8>, Error>)
    ensures
        match row_csv(row.val_data@, *table_info, row.pri_data@) {
            Some(line) => r is Ok && r->Ok_0@ == line,
            None => r is Err && is_corrupted_data(r->Err_0),
        },
        decode_row(row.val_data@, table_info.cols@, table_info.pk_is_handle, row.pri_data@) is None ==> error_bytes(
            r->Err_0,
        ) == Some(row.val_data@),
{
    let datums = row.get_datum_refs(table_info)?;
    let ghost ds = decode_row(row.val_data@, table_info.cols@, table_info.pk_is_handle, row.pri_data@)->0;
    assert(decode_row(row.val_data@, table_info.cols@, table_info.pk_is_handle, row.pri_data@) is Some);
    let mut fields: Vec<Vec<u8>> = Vec::new();
    let mut k: usize = 0;
    while k < datums.len()
        invariant
            decode_row(row.val_data@, table_info.cols@, table_info.pk_is_handle, row.pri_data@) == Some(ds),
            crate::datum::datums_match(datums@, ds, table_info.cols@),
            k <= datums@.len(),
            fields@.len() == k,
            forall|j: int| 0 <= j < k ==> (#[trigger] datum_field(ds[j].0, ds[j].1, table_info.cols@[j])) is Some
                && fields@[j]@ == datum_field(ds[j].0, ds[j].1, table_info.cols@[j])->0,
        decreases datums@.len() - k,
    {
        assert(crate::datum::datum_matches(datums@[k as int], ds[k as int], table_info.cols@[k as int]));
        match datum_csv_field(&datums[k]) {
            Ok(f) => {
                fields.push(f);
            },
            Err(e) => {
                assert(datum_field(ds[k as int].0, ds[k as int].1, table_info.cols@[k as int]) is None);
                assert(!(forall|j: int| 0 <= j < ds.len() ==> (#[trigger] datum_field(ds[j].0, ds[j].1, table_info.cols@[j])) is Some));
                assert(row_csv(row.val_data@, *table_info, row.pri_data@) is None);
                return Err(e);
            },
        }
        k += 1;
    }
    assert(views(fields@) =~= Seq::new(ds.len(), |k: int| datum_field(ds[k].0, ds[k].1, table_info.cols@[k])->0));
    Ok(csv_line(&fields))
}

/// Whether a text holds no newline byte.
pub open spec fn no_newline(s: Seq<u8>) -> bool {
    forall|i: int| 0 <= i < s.len() ==> #[trigger] s[i] != 0x0au8
}

/// Number of newline bytes in a text.
pub open spec fn newlines(s: Seq<u8>) -> nat
    decreases s.len(),
{
    if s.len() == 0 {
        0
    } else {
        newlines(s.drop_last()) + if s.last() == 0x0au8 { 1nat } else { 0nat }
    }
}

/// Decimal digits hold no newline.
proof fn lemma_decimal_no_newline(n: nat)
    ensures
        no_newline(crate::bytes::decimal(n)),
        forall|i: int| 0 <= i < crate::bytes::decimal(n).len() ==> 0x30 <= #[trigger] crate::bytes::decimal(n)[i] <= 0x39,
    decreases n,
{
    if n >= 10 {
        lemma_decimal_no_newline(n / 10);
    }
}

/// Escaped text holds no newline.
proof fn lemma_escape_no_newline(t: Seq<u8>)
    ensures
        no_newline(escape_text(t)),
    decreases t.len(),
{
    if t.len() > 0 {
        lemma_escape_no_newline(t.drop_last());
        let a = escape_text(t.drop_last());
        let b = escape_byte(t.last());
        assert forall|i: int| 0 <= i < (a + b).len() implies #[trigger] (a + b)[i] != 0x0au8 by {
            if i >= a.len() {
                assert((a + b)[i] == b[i - a.len()]);
            } else {
                assert((a + b)[i] == a[i]);
            }
        }
    }
}

/// Fields joined with commas hold no newline when the fields hold none.
proof fn lemma_join_no_newline(items: Seq<Seq<u8>>)
    requires
        forall|k: int| 0 <= k < items.len() ==> no_newline(#[trigger] items[k]),
    ensures
        no_newline(join_commas(items)),
    decreases items.len(),
{
    if items.len() > 1 {
        let p = items.drop_last();
        assert forall|k: int| 0 <= k < p.len() implies no_newline(#[trigger] p[k]) by {
            assert(p[k] == items[k]);
        }
        lemma_join_no_newline(p);
        let a = join_commas(p) + seq![0x2cu8];
        let b = items.last();
        assert(no_newline(items[items.len() - 1]));
        assert forall|i: int| 0 <= i < (a + b).len() implies #[trigger] (a + b)[i] != 0x0au8 by {
            if i >= a.len() {
                assert((a + b)[i] == b[i - a.len()]);
            } else if i < join_commas(p).len() {
                assert((a + b)[i] == join_commas(p)[i]);
            }
        }
    } else if items.len() == 1 {
        assert(no_newline(items[0]));
    }
}

/// The CSV field of a datum holds no newline.
proof fn lemma_field_no_newline(tp: u8, data: Seq<u8>, col: ColumnInfo)
    requires
        datum_field(tp, data, col) is Some,
    ensures
        no_newline(datum_field(tp, data, col)->0),
{
    let f = datum_field(tp, data, col)->0;
    if tp == TP_NULL {
        assert(f == seq![0x5cu8, 0x4eu8]);
    } else if tp_is_unquoted(tp) {
        let t = datum_text(tp, data, col)->0;
        assert(crate::datum::tp_is_integer(tp));
        if col.field_type.spec_is_unsigned() {
            lemma_decimal_no_newline(crate::datum::v2_unsigned(data)->0);
        } else {
            let v = crate::datum::v2_signed(data)->0;
            if v < 0 {
                lemma_decimal_no_newline((-v) as nat);
                let d = crate::bytes::decimal((-v) as nat);
                assert forall|i: int| 0 <= i < (seq![0x2du8] + d).len() implies #[trigger] (seq![0x2du8] + d)[i] != 0x0au8 by {
                    if i > 0 {
                        assert((seq![0x2du8] + d)[i] == d[i - 1]);
                    }
                }
            } else {
                lemma_decimal_no_newline(v as nat);
            }
        }
    } else {
        let t = datum_text(tp, data, col)->0;
        lemma_escape_no_newline(t);
        let e = escape_text(t);
        assert forall|i: int| 0 <= i < f.len() implies #[trigger] f[i] != 0x0au8 by {
            if 0 < i < f.len() - 1 {
                assert(f[i] == e[i - 1]);
            }
        }
    }
}

/// A row written as CSV is exactly one record: a single newline, at its end.
pub proof fn lemma_row_is_one_record(val: Seq<u8>, t: TableInfo, pri: Seq<u8>)
    requires
        row_csv(val, t, pri) is Some,
    ensures
        row_csv(val, t, pri)->0.len() > 0,
        row_csv(val, t, pri)->0.last() == 0x0au8,
        no_newline(row_csv(val, t, pri)->0.drop_last()),
        newlines(row_csv(val, t, pri)->0) == 1,
{
    let ds = decode_row(val, t.cols@, t.pk_is_handle, pri)->0;
    let fields = Seq::new(ds.len(), |k: int| datum_field(ds[k].0, ds[k].1, t.cols@[k])->0);
    assert forall|k: int| 0 <= k < fields.len() implies no_newline(#[trigger] fields[k]) by {
        assert(datum_field(ds[k].0, ds[k].1, t.cols@[k]) is Some);
        lemma_field_no_newline(ds[k].0, ds[k].1, t.cols@[k]);
    }
    lemma_join_no_newline(fields);
    let line = row_csv(val, t, pri)->0;
    let body = join_commas(fields);
    let head = if body.len() == 0 { seq![0x22u8, 0x22u8] } else { body };
    assert(line == head + seq![0x0au8]);
    assert(line.drop_last() =~= head);
    lemma_no_newline_count(head);
}

/// A text without newline counts none.
proof fn lemma_no_newline_count(s: Seq<u8>)
    requires
        no_newline(s),
    ensures
        newlines(s) == 0,
    decreases s.len(),
{
    if s.len() > 0 {
        assert(no_newline(s.drop_last()));
        lemma_no_newline_count(s.drop_last());
    }
}

/// Newlines of two texts one after the other add up.
pub proof fn lemma_newlines_concat(a: Seq<u8>, b: Seq<u8>)
    ensures
        newlines(a + b) == newlines(a) + newlines(b),
    decreases b.len(),
{
    if b.len() > 0 {
        assert((a + b).drop_last() =~= a + b.drop_last());
        lemma_newlines_concat(a, b.drop_last());
    } else {
        assert(a + b =~= a);
    }
}

/// Records one after the other.
pub open spec fn concat_records(lines: Seq<Seq<u8>>) -> Seq<u8>
    decreases lines.len(),
{
    if lines.len() == 0 {
        Seq::empty()
    } else {
        concat_records(lines.drop_last()) + lines.last()
    }
}

/// An output made of K records, each one newline-terminated record, holds exactly
/// K newlines, whatever order the records were written in.
pub proof fn lemma_output_record_count(lines: Seq<Seq<u8>>)
    requires
        forall|k: int| 0 <= k < lines.len() ==> newlines(#[trigger] lines[k]) == 1,
    ensures
        newlines(concat_records(lines)) == lines.len(),
    decreases lines.len(),
{
    if lines.len() > 0 {
        let p = lines.drop_last();
        assert forall|k: int| 0 <= k < p.len() implies newlines(#[trigger] p[k]) == 1 by {
            assert(p[k] == lines[k]);
        }
        lemma_output_record_count(p);
        lemma_newlines_concat(concat_records(p), lines.last());
        assert(newlines(lines[lines.len() - 1]) == 1);
    }
}

} // verus!
