//! Serial types, the tags of a record header, and the values they describe.
use crate::error::Error;
use crate::varint::{to_signed, VarInt};
use vstd::prelude::*;
use vstd::slice::{slice_subrange, slice_to_vec};
use vstd::utf8::{decode_utf8, valid_utf8};

verus! {

/// The type and width of one column of a record.
#[derive(Debug, Clone, Copy, PartialEq, Eq, Structural)]
pub enum SerialType {
    Null,
    I8,
    I16,
    I24,
    I32,
    I48,
    I64,
    F64,
    Zero,
    One,
    Reserved,
    /// A blob of the given number of bytes.
    Blob(i64),
    /// A text of the given number of bytes.
    Text(i64),
}

/// The serial type that a header code names, if any.
pub open spec fn serial_type_of(code: i64) -> Option<SerialType> {
    if code == 0 {
        Some(SerialType::Null)
    } else if code == 1 {
        Some(SerialType::I8)
    } else if code == 2 {
        Some(SerialType::I16)
    } else if code == 3 {
        Some(SerialType::I24)
    } else if code == 4 {
        Some(SerialType::I32)
    } else if code == 5 {
        Some(SerialType::I48)
    } else if code == 6 {
        Some(SerialType::I64)
    } else if code == 7 {
        Some(SerialType::F64)
    } else if code == 8 {
        Some(SerialType::Zero)
    } else if code == 9 {
        Some(SerialType::One)
    } else if code == 10 || code == 11 {
        Some(SerialType::Reserved)
    } else if code >= 12 && code % 2 == 0 {
        Some(SerialType::Blob(((code - 12) / 2) as i64))
    } else if code >= 13 && code % 2 == 1 {
        Some(SerialType::Text(((code - 13) / 2) as i64))
    } else {
        None
    }
}

/// Number of body bytes that a value of type `t` takes.
pub open spec fn content_size(t: SerialType) -> int {
    match t {
        SerialType::I8 => 1,
        SerialType::I16 => 2,
        SerialType::I24 => 3,
        SerialType::I32 => 4,
        SerialType::I48 => 6,
        SerialType::I64 => 8,
        SerialType::F64 => 8,
        SerialType::Blob(n) => n as int,
        SerialType::Text(n) => n as int,
        _ => 0,
    }
}

/// A decoded column value. A 64-bit float is held as its IEEE-754 bit pattern.
#[derive(Debug, Clone, PartialEq)]
pub enum SerialData {
    Null,
    I8(i8),
    I16(i16),
    I24(i32),
    I32(i32),
    I48(i64),
    I64(i64),
    F64(u64),
    Zero,
    One,
    Reserved,
    Blob(Vec<u8>),
    Text(String),
}

/// What a `SerialData` holds, with its bytes and characters as sequences.
pub enum SerialValue {
    Null,
    I8(i8),
    I16(i16),
    I24(i32),
    I32(i32),
    I48(i64),
    I64(i64),
    F64(u64),
    Zero,
    One,
    Reserved,
    Blob(Seq<u8>),
    Text(Seq<char>),
}

impl View for SerialData {
    type V = SerialValue;

    open spec fn view(&self) -> SerialValue {
        match self {
            SerialData::Null => SerialValue::Null,
            SerialData::I8(x) => SerialValue::I8(*x),
            SerialData::I16(x) => SerialValue::I16(*x),
            SerialData::I24(x) => SerialValue::I24(*x),
            SerialData::I32(x) => SerialValue::I32(*x),
            SerialData::I48(x) => SerialValue::I48(*x),
            SerialData::I64(x) => SerialValue::I64(*x),
            SerialData::F64(x) => SerialValue::F64(*x),
            SerialData::Zero => SerialValue::Zero,
            SerialData::One => SerialValue::One,
            SerialData::Reserved => SerialValue::Reserved,
            SerialData::Blob(b) => SerialValue::Blob(b@),
            SerialData::Text(t) => SerialValue::Text(t@),
        }
    }
}

/// Why a value could not be read from a record body.
#[derive(Debug, Clone, Copy, PartialEq, Eq, Structural)]
pub enum SerialDataError {
    /// The body ends before the value does.
    OutOfBounds,
    /// A text value is not valid UTF-8.
    InvalidText,
}

pub open spec fn pow256(n: nat) -> nat
    decreases n,
{
    if n == 0 {
        1
    } else {
        256 * pow256((n - 1) as nat)
    }
}

/// The bytes of `s` as a big-endian unsigned integer.
pub open spec fn be_unsigned(s: Seq<u8>) -> nat
    decreases s.len(),
{
    if s.len() == 0 {
        0
    } else {
        be_unsigned(s.drop_last()) * 256 + s.last() as nat
    }
}

/// The bytes of `s` as a big-endian two's complement integer.
pub open spec fn be_signed(s: Seq<u8>) -> int {
    let u = be_unsigned(s);
    if 2 * u < pow256(s.len()) {
        u as int
    } else {
        u - pow256(s.len())
    }
}

/// The value of type `t` whose encoding is exactly the bytes `b`.
pub open spec fn value_of(t: SerialType, b: Seq<u8>) -> Result<SerialValue, SerialDataError> {
    match t {
        SerialType::Null => Ok(SerialValue::Null),
        SerialType::I8 => Ok(SerialValue::I8(be_signed(b) as i8)),
        SerialType::I16 => Ok(SerialValue::I16(be_signed(b) as i16)),
        SerialType::I24 => Ok(SerialValue::I24(be_signed(b) as i32)),
        SerialType::I32 => Ok(SerialValue::I32(be_signed(b) as i32)),
        SerialType::I48 => Ok(SerialValue::I48(be_signed(b) as i64)),
        SerialType::I64 => Ok(SerialValue::I64(be_signed(b) as i64)),
        SerialType::F64 => Ok(SerialValue::F64(be_unsigned(b) as u64)),
        SerialType::Zero => Ok(SerialValue::Zero),
        SerialType::One => Ok(SerialValue::One),
        SerialType::Reserved => Ok(SerialValue::Reserved),
        SerialType::Blob(_) => Ok(SerialValue::Blob(b)),
        SerialType::Text(_) => if valid_utf8(b) {
            Ok(SerialValue::Text(decode_utf8(b)))
        } else {
            Err(SerialDataError::InvalidText)
        },
    }
}

/// Reading a value of type `t` from the front of `body`: the value and the number of
/// bytes it took.
pub open spec fn decode_value(t: SerialType, body: Seq<u8>) -> Result<
    (SerialValue, nat),
    SerialDataError,
> {
    let n = content_size(t);
    if n < 0 || n > body.len() {
        Err(SerialDataError::OutOfBounds)
    } else {
        match value_of(t, body.subrange(0, n)) {
            Ok(v) => Ok((v, n as nat)),
            Err(e) => Err(e),
        }
    }
}

/// The view of an exec result of `serial_type_to_serial_data`.
pub open spec fn value_result_view(r: Result<(SerialData, usize), SerialDataError>) -> Result<
    (SerialValue, nat),
    SerialDataError,
> {
    match r {
        Ok((d, n)) => Ok((d@, n as nat)),
        Err(e) => Err(e),
    }
}

proof fn lemma_pow256_values()
    ensures
        pow256(1) == 0x100,
        pow256(2) == 0x1_0000,
        pow256(3) == 0x100_0000,
        pow256(4) == 0x1_0000_0000,
        pow256(6) == 0x1_0000_0000_0000,
        pow256(7) == 0x100_0000_0000_0000,
        pow256(8) == 0x1_0000_0000_0000_0000,
{
    assert(pow256(0) == 1);
    assert(pow256(1) == 0x100);
    assert(pow256(2) == 0x1_0000);
    assert(pow256(3) == 0x100_0000);
    assert(pow256(4) == 0x1_0000_0000);
    assert(pow256(5) == 0x100_0000_0000);
    assert(pow256(6) == 0x1_0000_0000_0000);
    assert(pow256(7) == 0x100_0000_0000_0000);
}

proof fn lemma_pow256_mono(a: nat, b: nat)
    requires
        a <= b,
    ensures
        pow256(a) <= pow256(b),
    decreases b - a,
{
    if a < b {
        lemma_pow256_mono(a, (b - 1) as nat);
    }
}

proof fn lemma_be_unsigned_bound(s: Seq<u8>)
    ensures
        be_unsigned(s) < pow256(s.len()),
    decreases s.len(),
{
    if s.len() > 0 {
        lemma_be_unsigned_bound(s.drop_last());
    }
}

/// The first `n` bytes of `body` as a big-endian unsigned integer.
fn read_be_unsigned(body: &[u8], n: usize) -> (r: u64)
    requires
        n <= 8,
        n <= body@.len(),
    ensures
        r == be_unsigned(body@.subrange(0, n as int)),
{
    let mut value: u64 = 0;
    let mut i: usize = 0;
    while i < n
        invariant
            i <= n <= 8,
            n <= body@.len(),
            value == be_unsigned(body@.subrange(0, i as int)),
        decreases n - i,
    {
        proof {
            let s = body@.subrange(0, i as int + 1);
            assert(s.drop_last() =~= body@.subrange(0, i as int));
            lemma_be_unsigned_bound(body@.subrange(0, i as int));
            lemma_pow256_mono(i as nat, 7);
            lemma_pow256_values();
        }
        value = value * 256 + body[i] as u64;
        i = i + 1;
    }
    value
}

/// The first `n` bytes of `body` as a big-endian two's complement integer.
fn read_be_signed(body: &[u8], n: usize) -> (r: i64)
    requires
        1 <= n <= 8,
        n <= body@.len(),
    ensures
        r == be_signed(body@.subrange(0, n as int)),
{
    let u = read_be_unsigned(body, n);
    proof {
        lemma_pow256_values();
        lemma_be_unsigned_bound(body@.subrange(0, n as int));
    }
    if n == 8 {
        to_signed(u)
    } else {
        let full: u64 = if n == 1 {
            0x100
        } else if n == 2 {
            0x1_0000
        } else if n == 3 {
            0x100_0000
        } else if n == 4 {
            0x1_0000_0000
        } else if n == 5 {
            0x100_0000_0000
        } else if n == 6 {
            0x1_0000_0000_0000
        } else {
            0x100_0000_0000_0000
        };
        proof {
            assert(pow256(5) == 0x100_0000_0000);
            assert(full == pow256(n as nat));
        }
        if 2 * u < full {
            u as i64
        } else {
            (u as i64) - (full as i64)
        }
    }
}

/// Relies on `String::from_utf8`: it accepts exactly the byte strings that are valid
/// UTF-8, and the string it returns holds the characters that they encode.
#[verifier::external_body]
fn utf8_string(bytes: Vec<u8>) -> (r: Option<String>)
    ensures
        r is Some <==> valid_utf8(bytes@),
        r matches Some(s) ==> s@ == decode_utf8(bytes@),
{
    String::from_utf8(bytes).ok()
}

impl SerialType {
    /// The serial type that a header varint names.
    pub fn from_varint(varint: VarInt) -> (r: Result<SerialType, Error>)
        ensures
            r == (match serial_type_of(varint.0) {
                Some(t) => Ok::<SerialType, Error>(t),
                None => Err(Error::InvalidSerialType),
            }),
    {
        let n = varint.0;
        if n == 0 {
            Ok(SerialType::Null)
        } else if n == 1 {
            Ok(SerialType::I8)
        } else if n == 2 {
            Ok(SerialType::I16)
        } else if n == 3 {
            Ok(SerialType::I24)
        } else if n == 4 {
            Ok(SerialType::I32)
        } else if n == 5 {
            Ok(SerialType::I48)
        } else if n == 6 {
            Ok(SerialType::I64)
        } else if n == 7 {
            Ok(SerialType::F64)
        } else if n == 8 {
            Ok(SerialType::Zero)
        } else if n == 9 {
            Ok(SerialType::One)
        } else if n == 10 || n == 11 {
            Ok(SerialType::Reserved)
        } else if n >= 12 && n % 2 == 0 {
            Ok(SerialType::Blob((n - 12) / 2))
        } else if n >= 13 && n % 2 == 1 {
            Ok(SerialType::Text((n - 13) / 2))
        } else {
            Err(Error::InvalidSerialType)
        }
    }

    /// Number of body bytes that a value of this type takes, where that is not
    /// negative.
    pub fn content_size(&self) -> (r: Option<u64>)
        ensures
            r == (if content_size(*self) < 0 {
                None::<u64>
            } else {
                Some(content_size(*self) as u64)
            }),
    {
        match self {
            SerialType::I8 => Some(1),
            SerialType::I16 => Some(2),
            SerialType::I24 => Some(3),
            SerialType::I32 => Some(4),
            SerialType::I48 => Some(6),
            SerialType::I64 => Some(8),
            SerialType::F64 => Some(8),
            SerialType::Blob(n) => if *n < 0 {
                None
            } else {
                Some(*n as u64)
            },
            SerialType::Text(n) => if *n < 0 {
                None
            } else {
                Some(*n as u64)
            },
            _ => Some(0),
        }
    }

    /// Reads a value of this type from the front of `body`: the value and the number
    /// of bytes it took.
    pub fn serial_type_to_serial_data(&self, body: &[u8]) -> (r: Result<
        (SerialData, usize),
        SerialDataError,
    >)
        ensures
            value_result_view(r) == decode_value(*self, body@),
    {
        let size = match self.content_size() {
            Some(n) => n,
            None => return Err(SerialDataError::OutOfBounds),
        };
        if size > body.len() as u64 {
            return Err(SerialDataError::OutOfBounds);
        }
        let n = size as usize;
        let data = match self {
            SerialType::Null => SerialData::Null,
            SerialType::I8 => SerialData::I8(read_be_signed(body, 1) as i8),
            SerialType::I16 => SerialData::I16(read_be_signed(body, 2) as i16),
            SerialType::I24 => SerialData::I24(read_be_signed(body, 3) as i32),
            SerialType::I32 => SerialData::I32(read_be_signed(body, 4) as i32),
            SerialType::I48 => SerialData::I48(read_be_signed(body, 6)),
            SerialType::I64 => SerialData::I64(read_be_signed(body, 8)),
            SerialType::F64 => SerialData::F64(read_be_unsigned(body, 8)),
            SerialType::Zero => SerialData::Zero,
            SerialType::One => SerialData::One,
            SerialType::Reserved => SerialData::Reserved,
            SerialType::Blob(_) => SerialData::Blob(slice_to_vec(slice_subrange(body, 0, n))),
            SerialType::Text(_) => {
                match utf8_string(slice_to_vec(slice_subrange(body, 0, n))) {
                    Some(s) => SerialData::Text(s),
                    None => return Err(SerialDataError::InvalidText),
                }
            },
        };
        Ok((data, n))
    }
}


/// A value that the bytes at hand decide, as a value or as text that is not UTF-8, is
/// decided the same when more bytes follow.
pub proof fn lemma_decode_value_extend(t: SerialType, x: Seq<u8>, y: Seq<u8>)
    ensures
        decode_value(t, x) != Err::<(SerialValue, nat), SerialDataError>(
            SerialDataError::OutOfBounds,
        ) ==> decode_value(t, x + y) == decode_value(t, x),
{
    let n = content_size(t);
    if 0 <= n <= x.len() {
        assert((x + y).subrange(0, n) =~= x.subrange(0, n));
    }
}


/// A decoded value takes the bytes of its declared size, from those at hand.
pub proof fn lemma_decode_value_size(t: SerialType, x: Seq<u8>)
    ensures
        decode_value(t, x) matches Ok((v, n)) ==> n == content_size(t) && n <= x.len(),
{
}

} // verus!
