use vstd::prelude::*;
use crate::errors::{Error, error_bytes};
use crate::keycodec::copy_bytes;
use crate::bytes::push_range;

verus! {

/// Kind of a record of the `write` column family.
#[derive(Debug, Clone, Copy, PartialEq, Eq, Structural)]
pub enum WriteType {
    Put,
    Delete,
    Lock,
    Rollback,
}

/// Decoded value of a record of the `write` column family.
#[derive(Debug)]
pub struct WriteRef {
    pub write_type: WriteType,
    pub start_ts: u64,
    /// The row body, when it was small enough to be kept in the record itself.
    pub short_value: Option<Vec<u8>>,
}

/// Mathematical form of a `write` record.
pub struct WriteModel {
    pub write_type: WriteType,
    pub start_ts: u64,
    pub short_value: Option<Seq<u8>>,
}

impl WriteRef {
    pub open spec fn model(&self) -> WriteModel {
        WriteModel {
            write_type: self.write_type,
            start_ts: self.start_ts,
            short_value: opt_view(self.short_value),
        }
    }
}

/// View of an optional byte vector.
pub open spec fn opt_view(o: Option<Vec<u8>>) -> Option<Seq<u8>> {
    match o {
        Some(v) => Some(v@),
        None => None,
    }
}

/// A variable-length integer lies within the bytes it is read from.
pub proof fn lemma_varint_within(s: Seq<u8>, i: nat)
    ensures
        varint_end(s, i) matches Some(n) ==> n <= s.len(),
    decreases 10 - i,
{
    if i < 10 && i < s.len() && s[i as int] >= 0x80 {
        lemma_varint_within(s, i + 1);
    }
}

/// Kind named by the tag byte of a `write` record.
pub open spec fn write_type_of(tag: u8) -> Option<WriteType> {
    if tag == 0x50 {
        Some(WriteType::Put)
    } else if tag == 0x44 {
        Some(WriteType::Delete)
    } else if tag == 0x4c {
        Some(WriteType::Lock)
    } else if tag == 0x52 {
        Some(WriteType::Rollback)
    } else {
        None
    }
}

/// Length of the variable-length integer at the start of `s`, counting from byte `i`:
/// it ends at the first byte below `0x80`, within ten bytes.
pub open spec fn varint_end(s: Seq<u8>, i: nat) -> Option<nat>
    decreases 10 - i,
{
    if i >= 10 || i >= s.len() {
        None
    } else if s[i as int] < 0x80 {
        Some(i + 1)
    } else {
        varint_end(s, i + 1)
    }
}

/// Value of the first `n` bytes of a variable-length integer: the low seven bits of
/// byte `i` stand at bit `7 * i`.
pub open spec fn varint_value(s: Seq<u8>, n: nat) -> u64
    decreases n,
{
    if n == 0 || n > 10 {
        0
    } else {
        varint_value(s, (n - 1) as nat) | (((s[n - 1] & 0x7f) as u64) << (7 * (n - 1)) as u64)
    }
}

/// Variable-length integer at the start of `s`: its value and length.
pub open spec fn varint(s: Seq<u8>) -> Option<(u64, nat)> {
    match varint_end(s, 0) {
        Some(n) => Some((varint_value(s, n), n)),
        None => None,
    }
}

/// Reads the variable-length integer that starts at `s[at]`: its value and the
/// position just past it.
pub fn decode_var_u64(s: &[u8], at: usize) -> (r: Result<(u64, usize), Error>)
    requires
        at <= s@.len(),
    ensures
        match varint(s@.subrange(at as int, s@.len() as int)) {
            Some((v, n)) => r == Ok::<(u64, usize), Error>((v, (at + n) as usize)),
            None => r is Err,
        },
{
    let ghost t = s@.subrange(at as int, s@.len() as int);
    let mut res: u64 = 0;
    let mut i: usize = 0;
    while i < 10 && i < s.len() - at
        invariant
            i <= 10,
            at + i <= s@.len(),
            t == s@.subrange(at as int, s@.len() as int),
            res == varint_value(t, i as nat),
            varint_end(t, 0) == varint_end(t, i as nat),
        decreases 10 - i,
    {
        let b = s[at + i];
        assert(b == t[i as int]);
        res = res | (((b & 0x7f) as u64) << (7 * i) as u64);
        if b < 0x80 {
            return Ok((res, at + i + 1));
        }
        i += 1;
    }
    Err(Error::CorruptedData("variable-length integer is cut short".to_owned()))
}

/// Flag of the inline row body inside a `write` record.
pub const SHORT_VALUE_PREFIX: u8 = 0x76;

/// Parses the optional fields that follow the start timestamp of a `write` record,
/// given the row body found so far; only the row body is kept. A flag that is not
/// known ends the fields.
pub open spec fn parse_write_fields(b: Seq<u8>, sv: Option<Seq<u8>>) -> Option<Option<Seq<u8>>>
    decreases b.len(),
{
    if b.len() == 0 {
        Some(sv)
    } else {
        let flag = b[0];
        let rest = b.subrange(1, b.len() as int);
        if flag == SHORT_VALUE_PREFIX {
            if rest.len() < 1 || rest.len() < 1 + rest[0] {
                None
            } else {
                let n = rest[0] as int;
                parse_write_fields(rest.subrange(1 + n, rest.len() as int), Some(rest.subrange(1, 1 + n)))
            }
        } else if flag == 0x66 || flag == 0x46 {
            if rest.len() < 8 {
                None
            } else {
                parse_write_fields(rest.subrange(8, rest.len() as int), sv)
            }
        } else if flag == 0x74 || flag == 0x53 {
            match varint(rest) {
                Some((_, n)) => if n <= rest.len() {
                    parse_write_fields(rest.subrange(n as int, rest.len() as int), sv)
                } else {
                    None
                },
                None => None,
            }
        } else if flag == 0x52 {
            parse_write_fields(rest, sv)
        } else {
            Some(sv)
        }
    }
}

/// Decoded `write` record: a tag byte (`P`, `D`, `L` or `R`), the start timestamp
/// as a variable-length integer, then optional fields, among them the inline row body
/// (`v`, one length byte, the bytes).
pub open spec fn parse_write(b: Seq<u8>) -> Option<WriteModel> {
    if b.len() < 1 {
        None
    } else {
        match write_type_of(b[0]) {
            None => None,
            Some(wt) => match varint(b.subrange(1, b.len() as int)) {
                None => None,
                Some((ts, n)) => match parse_write_fields(b.subrange(1 + n as int, b.len() as int), None) {
                    None => None,
                    Some(sv) => Some(WriteModel { write_type: wt, start_ts: ts, short_value: sv }),
                },
            },
        }
    }
}

impl WriteRef {
    /// Decodes the value of a `write` record.
    pub fn parse(b: &[u8]) -> (r: Result<WriteRef, Error>)
        ensures
            match parse_write(b@) {
                Some(m) => r is Ok && r->Ok_0.model() == m,
                None => r is Err && error_bytes(r->Err_0) == Some(b@),
            },
    {
        if b.len() < 1 {
            return Err(Error::CorruptedDataBytes("parse WriteRef error.".to_owned(), copy_bytes(b)));
        }
        let tag = b[0];
        let write_type = if tag == 0x50 {
            WriteType::Put
        } else if tag == 0x44 {
            WriteType::Delete
        } else if tag == 0x4c {
            WriteType::Lock
        } else if tag == 0x52 {
            WriteType::Rollback
        } else {
            return Err(Error::CorruptedDataBytes("parse WriteRef error.".to_owned(), copy_bytes(b)));
        };
        let (start_ts, mut pos) = match decode_var_u64(b, 1) {
            Ok(p) => p,
            Err(_) => {
                return Err(Error::CorruptedDataBytes("parse WriteRef error.".to_owned(), copy_bytes(b)));
            },
        };
        let mut short_value: Option<Vec<u8>> = None;
        proof {
            lemma_varint_within(b@.subrange(1, b@.len() as int), 0);
        }
        loop
            invariant
                pos <= b@.len(),
                parse_write(b@) == match parse_write_fields(b@.subrange(pos as int, b@.len() as int), opt_view(short_value)) {
                    None => None::<WriteModel>,
                    Some(sv) => Some(WriteModel { write_type, start_ts, short_value: sv }),
                },
            decreases b@.len() - pos,
        {
            let ghost f = b@.subrange(pos as int, b@.len() as int);
            if pos == b.len() {
                return Ok(WriteRef { write_type, start_ts, short_value });
            }
            let flag = b[pos];
            let ghost rest = f.subrange(1, f.len() as int);
            assert(rest == b@.subrange(pos + 1, b@.len() as int));
            if flag == SHORT_VALUE_PREFIX {
                if b.len() - pos < 2 || b.len() - pos - 2 < b[pos + 1] as usize {
                    return Err(Error::CorruptedDataBytes("parse WriteRef error.".to_owned(), copy_bytes(b)));
                }
                let n = b[pos + 1] as usize;
                let mut v: Vec<u8> = Vec::new();
                push_range(&mut v, b, pos + 2, pos + 2 + n);
                assert(v@ == rest.subrange(1, 1 + n as int));
                assert(rest.subrange(1 + n as int, rest.len() as int) == b@.subrange(pos + 2 + n, b@.len() as int));
                short_value = Some(v);
                pos = pos + 2 + n;
            } else if flag == 0x66 || flag == 0x46 {
                if b.len() - pos < 9 {
                    return Err(Error::CorruptedDataBytes("parse WriteRef error.".to_owned(), copy_bytes(b)));
                }
                assert(rest.subrange(8, rest.len() as int) == b@.subrange(pos + 9, b@.len() as int));
                pos = pos + 9;
            } else if flag == 0x74 || flag == 0x53 {
                proof {
                    lemma_varint_within(rest, 0);
                }
                match decode_var_u64(b, pos + 1) {
                    Ok((_, next)) => {
                        assert(rest.subrange((next - pos - 1) as int, rest.len() as int) == b@.subrange(next as int, b@.len() as int));
                        pos = next;
                    },
                    Err(_) => {
                        return Err(Error::CorruptedDataBytes("parse WriteRef error.".to_owned(), copy_bytes(b)));
                    },
                }
            } else if flag == 0x52 {
                pos = pos + 1;
            } else {
                return Ok(WriteRef { write_type, start_ts, short_value });
            }
        }
    }
}

} // verus!
