use vstd::prelude::*;
use vstd::string::StringSliceAdditionalSpecFns;
use vstd::utf8::encode_utf8;
use crate::bytes::push_all;

verus! {

/// Failures reported by the library.
#[derive(Debug, Clone)]
pub enum Error {
    /// The store refused an operation (missing column family, unreadable directory).
    StorageNodeError(String),
    /// A structural expectation on stored data was violated.
    CorruptedData(String),
    /// Same as `CorruptedData`, with the offending bytes kept for a debug dump.
    CorruptedDataBytes(String, Vec<u8>),
    /// Same as `CorruptedData`, with the offending text kept for a debug dump.
    CorruptedDataString(String, String),
    /// An I/O failure on the sink.
    IO(String),
    /// Anything else (an invalid path, a poisoned lock).
    Other(String),
}

/// The bytes an error captured, for an error that captured bytes.
pub open spec fn error_bytes(e: Error) -> Option<Seq<u8>> {
    match e {
        Error::CorruptedDataBytes(_, b) => Some(b@),
        _ => None,
    }
}

/// Whether an error reports corrupted data, with or without the offending bytes.
pub open spec fn is_corrupted_data(e: Error) -> bool {
    e is CorruptedData || e is CorruptedDataBytes
}

/// The ASCII character of a hexadecimal digit, lower case.
pub open spec fn hex_digit(n: u8) -> u8 {
    if n < 10 {
        (0x30 + n) as u8
    } else {
        (0x61 + n - 10) as u8
    }
}

/// Lower-case hexadecimal text of a byte string, two digits per byte.
pub open spec fn hex_text(b: Seq<u8>) -> Seq<u8>
    decreases b.len(),
{
    if b.len() == 0 {
        Seq::empty()
    } else {
        hex_text(b.drop_last()) + seq![hex_digit(b.last() / 16), hex_digit(b.last() % 16)]
    }
}

/// Relies on hex::encode: two lower-case hexadecimal digits for each byte, in order.
#[verifier::external_body]
fn hex_encode(b: &Vec<u8>) -> (r: Vec<u8>)
    ensures
        r@ == hex_text(b@),
{
    hex::encode(b).into_bytes()
}

/// Opening line of a debug dump.
pub open spec fn dump_head() -> Seq<u8> {
    encode_utf8("\n********Error Data********\n"@)
}

/// Closing line of a debug dump.
pub open spec fn dump_tail() -> Seq<u8> {
    encode_utf8("\n********Error Data End********\n"@)
}

/// The body of a debug dump for an error: the hexadecimal text of the captured
/// bytes, the captured text as it is, or nothing for an error that captured none.
pub open spec fn dump_body(err: Error) -> Option<Seq<u8>> {
    match err {
        Error::CorruptedDataBytes(_, data) => Some(hex_text(data@)),
        Error::CorruptedDataString(_, text) => Some(encode_utf8(text@)),
        _ => None,
    }
}

/// The debug dump of an error: the captured bytes or text between two banner
/// lines; empty for an error that captured nothing.
pub open spec fn dump_text(err: Error) -> Seq<u8> {
    match dump_body(err) {
        Some(body) => dump_head() + body + dump_tail(),
        None => Seq::empty(),
    }
}

/// Builds the debug dump of an error, ready to be printed.
pub fn display_corrupted_err_data(err: &Error) -> (r: Vec<u8>)
    ensures
        r@ == dump_text(*err),
{
    let mut out: Vec<u8> = Vec::new();
    match err {
        Error::CorruptedDataBytes(_, data) => {
            let body = hex_encode(data);
            push_all(&mut out, "\n********Error Data********\n".as_bytes());
            push_all(&mut out, body.as_slice());
            push_all(&mut out, "\n********Error Data End********\n".as_bytes());
        },
        Error::CorruptedDataString(_, text) => {
            push_all(&mut out, "\n********Error Data********\n".as_bytes());
            push_all(&mut out, text.as_str().as_bytes());
            push_all(&mut out, "\n********Error Data End********\n".as_bytes());
        },
        _ => {},
    }
    out
}

/// A copy of an error, with the same kind, message and captured bytes.
pub fn copy_error(e: &Error) -> (r: Error)
    ensures
        error_bytes(r) == error_bytes(*e),
        is_corrupted_data(r) == is_corrupted_data(*e),
{
    match e {
        Error::StorageNodeError(m) => Error::StorageNodeError(m.clone()),
        Error::CorruptedData(m) => Error::CorruptedData(m.clone()),
        Error::CorruptedDataBytes(m, b) => {
            let mut c: Vec<u8> = Vec::new();
            push_all(&mut c, b.as_slice());
            assert(c@ =~= b@);
            Error::CorruptedDataBytes(m.clone(), c)
        },
        Error::CorruptedDataString(m, t) => Error::CorruptedDataString(m.clone(), t.clone()),
        Error::IO(m) => Error::IO(m.clone()),
        Error::Other(m) => Error::Other(m.clone()),
    }
}

} // verus!
