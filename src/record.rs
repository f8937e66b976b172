//! Records: a header of serial types followed by a body of values.
use crate::error::{from_varint_error, varint_error, Error};
use crate::serial::{
    content_size, decode_value, lemma_decode_value_extend, serial_type_of, SerialData,
    SerialDataError, SerialType, SerialValue,
};
use crate::varint::{
    lemma_varint_decode_extend, lemma_varint_decode_len, varint_decode, VarInt,
};
use vstd::prelude::*;
use vstd::slice::{slice_subrange, slice_to_vec};

verus! {

pub open spec fn data_error(e: SerialDataError) -> Error {
    match e {
        SerialDataError::OutOfBounds => Error::OutOfBounds,
        SerialDataError::InvalidText => Error::InvalidText,
    }
}

/// The serial types read from `s`, one varint after another from offset `off`, while
/// the offset is below `end`; with the offset where reading stopped.
pub open spec fn header_types(s: Seq<u8>, off: nat, end: int) -> Result<
    (Seq<SerialType>, nat),
    Error,
>
    decreases s.len() - off,
{
    if off >= end {
        Ok((seq![], off))
    } else if off >= s.len() {
        Err(Error::Empty)
    } else {
        match varint_decode(s.subrange(off as int, s.len() as int)) {
            Err(e) => Err(varint_error(e)),
            Ok(v) => match serial_type_of(v.0) {
                None => Err(Error::InvalidSerialType),
                Some(t) => {
                    proof {
                        lemma_varint_decode_len(s.subrange(off as int, s.len() as int));
                    }
                    match header_types(s, off + v.1 as nat, end) {
                        Ok((ts, stop)) => Ok((seq![t] + ts, stop)),
                        Err(e) => Err(e),
                    }
                },
            },
        }
    }
}

/// The values of the types `ts` from index `i` on, read one after another from
/// offset `off` of `s`; with the offset after the last one.
pub open spec fn body_values(ts: Seq<SerialType>, i: nat, s: Seq<u8>, off: nat) -> Result<
    (Seq<SerialValue>, nat),
    Error,
>
    decreases ts.len() - i,
{
    if i >= ts.len() {
        Ok((seq![], off))
    } else if off > s.len() {
        Err(Error::OutOfBounds)
    } else {
        match decode_value(ts[i as int], s.subrange(off as int, s.len() as int)) {
            Err(e) => Err(data_error(e)),
            Ok((v, n)) => match body_values(ts, i + 1, s, off + n) {
                Ok((vs, stop)) => Ok((seq![v] + vs, stop)),
                Err(e) => Err(e),
            },
        }
    }
}

/// Decoding a whole record from the front of `s`: its values and the number of bytes
/// that header and body took.
pub open spec fn parse_record(s: Seq<u8>) -> Result<(Seq<SerialValue>, nat), Error> {
    match varint_decode(s) {
        Err(e) => Err(varint_error(e)),
        Ok(h) => match header_types(s, h.1 as nat, h.0 as int) {
            Err(e) => Err(e),
            Ok((ts, stop)) => body_values(ts, 0, s, stop),
        },
    }
}

/// Header reading stops within the bytes that are there.
pub proof fn lemma_header_types_stop(s: Seq<u8>, off: nat, end: int)
    requires
        off <= s.len(),
    ensures
        header_types(s, off, end) matches Ok((ts, stop)) ==> off <= stop <= s.len() && forall|j: int|
            0 <= j < ts.len() ==> content_size(#[trigger] ts[j]) >= 0,
    decreases s.len() - off,
{
    if off < end && off < s.len() {
        let sub = s.subrange(off as int, s.len() as int);
        lemma_varint_decode_len(sub);
        if let Ok(v) = varint_decode(sub) {
            lemma_header_types_stop(s, off + v.1 as nat, end);
            if let Some(t) = serial_type_of(v.0) {
                if let Ok((rest, stop)) = header_types(s, off + v.1 as nat, end) {
                    assert(header_types(s, off, end) == Ok::<(Seq<SerialType>, nat), Error>((seq![t] + rest, stop)));
                    assert forall|j: int| 0 <= j < rest.len() + 1 implies content_size(#[trigger] (seq![t] + rest)[j]) >= 0 by {
                        if j > 0 {
                            assert((seq![t] + rest)[j] == rest[j - 1]);
                        }
                    }
                }
            }
        }
    }
}

/// Body reading stops within the bytes that are there, with one value per type.
pub proof fn lemma_body_values_stop(ts: Seq<SerialType>, i: nat, s: Seq<u8>, off: nat)
    requires
        off <= s.len(),
        i <= ts.len(),
    ensures
        body_values(ts, i, s, off) matches Ok((vs, stop)) ==> off <= stop <= s.len() && vs.len()
            == ts.len() - i,
    decreases ts.len() - i,
{
    if i < ts.len() {
        if let Ok((v, n)) = decode_value(ts[i as int], s.subrange(off as int, s.len() as int)) {
            lemma_body_values_stop(ts, i + 1, s, off + n);
        }
    }
}

pub open spec fn values_view(v: Seq<SerialData>) -> Seq<SerialValue> {
    v.map_values(|d: SerialData| d@)
}

/// A record whose bytes were all at hand.
#[derive(Debug, Clone)]
pub struct Record {
    serial_data: Vec<SerialData>,
}

impl View for Record {
    type V = Seq<SerialValue>;

    closed spec fn view(&self) -> Seq<SerialValue> {
        values_view(self.serial_data@)
    }
}

/// Reads the serial types of a header, from offset `off` of `bytes` while the offset
/// is below `end`, and appends them to `types`.
pub fn read_header_types(bytes: &[u8], off: usize, end: i64, types: &mut Vec<SerialType>) -> (r:
    Result<usize, Error>)
    requires
        off <= bytes@.len(),
    ensures
        match header_types(bytes@, off as nat, end as int) {
            Ok((ts, stop)) => r == Ok::<usize, Error>(stop as usize) && final(types)@ == old(
                types,
            )@ + ts,
            Err(e) => r == Err::<usize, Error>(e),
        },
{
    let ghost s = bytes@;
    let ghost start = types@;
    let mut pos: usize = off;
    while (pos as i128) < (end as i128)
        invariant
            off <= pos <= s.len(),
            s == bytes@,
            header_types(s, off as nat, end as int) == (match header_types(s, pos as nat, end as int) {
                Ok((ts, stop)) => Ok((types@.subrange(start.len() as int, types@.len() as int) + ts, stop)),
                Err(e) => Err(e),
            }),
            start.len() <= types@.len(),
            types@.subrange(0, start.len() as int) == start,
        decreases s.len() - pos,
    {
        if pos >= bytes.len() {
            return Err(Error::Empty);
        }
        let v = match VarInt::from_be_bytes(slice_subrange(bytes, pos, bytes.len())) {
            Ok(v) => v,
            Err(e) => return Err(from_varint_error(e)),
        };
        proof {
            lemma_varint_decode_len(s.subrange(pos as int, s.len() as int));
        }
        let t = match SerialType::from_varint(v) {
            Ok(t) => t,
            Err(e) => return Err(e),
        };
        let ghost before = types@;
        types.push(t);
        proof {
            assert(types@.subrange(start.len() as int, types@.len() as int) =~= before.subrange(
                start.len() as int,
                before.len() as int,
            ).push(t));
            assert(types@.subrange(0, start.len() as int) =~= before.subrange(0, start.len() as int));
            match header_types(s, pos as nat + v.1 as nat, end as int) {
                Ok((ts, stop)) => {
                    assert(before.subrange(start.len() as int, before.len() as int) + (seq![t] + ts)
                        =~= before.subrange(start.len() as int, before.len() as int).push(t) + ts);
                },
                Err(e) => {},
            }
        }
        pos = pos + v.1 as usize;
    }
    proof {
        assert(types@ =~= start + types@.subrange(start.len() as int, types@.len() as int));
    }
    Ok(pos)
}

impl Record {
    /// Decodes the record at the front of `bytes`: the record and the number of bytes
    /// that its header and body took.
    pub fn from_be_bytes(bytes: &[u8]) -> (r: Result<(Record, u64), Error>)
        ensures
            match r {
                Ok((rec, n)) => parse_record(bytes@) == Ok::<(Seq<SerialValue>, nat), Error>((rec@, n as nat)),
                Err(e) => parse_record(bytes@) == Err::<(Seq<SerialValue>, nat), Error>(e),
            },
    {
        assert(bytes@.len() == bytes.len());
        let h = match VarInt::from_be_bytes(bytes) {
            Ok(h) => h,
            Err(e) => return Err(from_varint_error(e)),
        };
        proof {
            lemma_varint_decode_len(bytes@);
        }
        let mut types: Vec<SerialType> = Vec::new();
        let stop = match read_header_types(bytes, h.1 as usize, h.0, &mut types) {
            Ok(stop) => stop,
            Err(e) => return Err(e),
        };
        proof {
            lemma_header_types_stop(bytes@, h.1 as nat, h.0 as int);
            match header_types(bytes@, h.1 as nat, h.0 as int) {
                Ok((ts, _)) => {
                    assert(types@ =~= ts);
                },
                Err(_) => {},
            }
        }
        let mut serial_data: Vec<SerialData> = Vec::new();
        let end = match read_body_values(&types, bytes, stop, &mut serial_data) {
            Ok((end, ())) => end,
            Err(e) => return Err(e),
        };
        proof {
            lemma_body_values_stop(types@, 0, bytes@, stop as nat);
            match body_values(types@, 0, bytes@, stop as nat) {
                Ok((vs, _)) => {
                    assert(values_view(seq![]) =~= seq![]);
                    assert(values_view(serial_data@) =~= vs);
                },
                Err(_) => {},
            }
        }
        Ok((Record { serial_data }, end as u64))
    }

    /// A copy of the record.
    pub fn copy_record(&self) -> (r: Record)
        ensures
            r@ == self@,
    {
        Record { serial_data: self.values_cloned() }
    }

    /// A copy of the record's values, in column order.
    pub fn values_cloned(&self) -> (r: Vec<SerialData>)
        ensures
            values_view(r@) == self@,
    {
        let mut r: Vec<SerialData> = Vec::new();
        let mut i: usize = 0;
        while i < self.serial_data.len()
            invariant
                i <= self.serial_data@.len(),
                values_view(r@) == values_view(self.serial_data@.subrange(0, i as int)),
            decreases self.serial_data@.len() - i,
        {
            let d = clone_data(&self.serial_data[i]);
            let ghost before = r@;
            r.push(d);
            proof {
                assert(values_view(before.push(d)) =~= values_view(before).push(d@));
                assert(values_view(self.serial_data@.subrange(0, i as int).push(self.serial_data@[i as int])) =~= values_view(self.serial_data@.subrange(0, i as int)).push(self.serial_data@[i as int]@));
                assert(self.serial_data@.subrange(0, i as int + 1) =~= self.serial_data@.subrange(0, i as int).push(self.serial_data@[i as int]));
                assert(values_view(r@) =~= values_view(self.serial_data@.subrange(0, i as int + 1)));
            }
            i = i + 1;
        }
        proof {
            assert(self.serial_data@.subrange(0, i as int) =~= self.serial_data@);
        }
        r
    }

    /// The record's values, in column order.
    pub fn values(&self) -> (r: &Vec<SerialData>)
        ensures
            values_view(r@) == self@,
    {
        &self.serial_data
    }
}

/// Reads the values of all of `types`, one after another from offset `off` of `bytes`,
/// and appends them to `out`; returns the offset after the last one.
pub fn read_body_values(
    types: &Vec<SerialType>,
    bytes: &[u8],
    off: usize,
    out: &mut Vec<SerialData>,
) -> (r: Result<(usize, ()), Error>)
    ensures
        match body_values(types@, 0, bytes@, off as nat) {
            Ok((vs, stop)) => r == Ok::<(usize, ()), Error>((stop as usize, ())) && values_view(
                final(out)@,
            ) == values_view(old(out)@) + vs,
            Err(e) => r == Err::<(usize, ()), Error>(e),
        },
{
    let ghost s = bytes@;
    let ghost start = out@;
    let mut pos: usize = off;
    let mut i: usize = 0;
    while i < types.len()
        invariant
            s == bytes@,
            i <= types@.len(),
            start.len() <= out@.len(),
            out@.subrange(0, start.len() as int) == start,
            body_values(types@, 0, s, off as nat) == (match body_values(types@, i as nat, s, pos as nat) {
                Ok((vs, stop)) => Ok((values_view(out@.subrange(start.len() as int, out@.len() as int)) + vs, stop)),
                Err(e) => Err(e),
            }),
        decreases types@.len() - i,
    {
        if pos > bytes.len() {
            return Err(Error::OutOfBounds);
        }
        let (d, n) = match types[i].serial_type_to_serial_data(slice_subrange(bytes, pos, bytes.len())) {
            Ok(x) => x,
            Err(SerialDataError::OutOfBounds) => return Err(Error::OutOfBounds),
            Err(SerialDataError::InvalidText) => return Err(Error::InvalidText),
        };
        let ghost before = out@;
        out.push(d);
        proof {
            let mid = before.subrange(start.len() as int, before.len() as int);
            assert(out@.subrange(start.len() as int, out@.len() as int) =~= mid.push(d));
            assert(out@.subrange(0, start.len() as int) =~= before.subrange(0, start.len() as int));
            assert(values_view(mid.push(d)) =~= values_view(mid).push(d@));
            match body_values(types@, i as nat + 1, s, pos as nat + n as nat) {
                Ok((vs, stop)) => {
                    assert(values_view(mid) + (seq![d@] + vs) =~= values_view(mid).push(d@) + vs);
                },
                Err(e) => {},
            }
        }
        pos = pos + n;
        i = i + 1;
    }
    proof {
        assert(out@ =~= start + out@.subrange(start.len() as int, out@.len() as int));
        assert(values_view(out@) =~= values_view(start) + values_view(out@.subrange(start.len() as int, out@.len() as int)));
    }
    Ok((pos, ()))
}


/// Total of the declared sizes of the types `ts` from index `i` on.
pub open spec fn declared_sizes(ts: Seq<SerialType>, i: nat) -> int
    decreases ts.len() - i,
{
    if i >= ts.len() {
        0
    } else {
        content_size(ts[i as int]) + declared_sizes(ts, i + 1)
    }
}

/// The value `v` is of the serial type `t`, and of its declared size.
pub open spec fn has_type(v: SerialValue, t: SerialType) -> bool {
    match (v, t) {
        (SerialValue::Null, SerialType::Null) => true,
        (SerialValue::I8(_), SerialType::I8) => true,
        (SerialValue::I16(_), SerialType::I16) => true,
        (SerialValue::I24(_), SerialType::I24) => true,
        (SerialValue::I32(_), SerialType::I32) => true,
        (SerialValue::I48(_), SerialType::I48) => true,
        (SerialValue::I64(_), SerialType::I64) => true,
        (SerialValue::F64(_), SerialType::F64) => true,
        (SerialValue::Zero, SerialType::Zero) => true,
        (SerialValue::One, SerialType::One) => true,
        (SerialValue::Reserved, SerialType::Reserved) => true,
        (SerialValue::Blob(b), SerialType::Blob(n)) => b.len() == n,
        (SerialValue::Text(_), SerialType::Text(_)) => true,
        _ => false,
    }
}

proof fn lemma_declared_sizes_nonneg(ts: Seq<SerialType>, i: nat)
    requires
        forall|j: int| 0 <= j < ts.len() ==> content_size(#[trigger] ts[j]) >= 0,
    ensures
        declared_sizes(ts, i) >= 0,
    decreases ts.len() - i,
{
    if i < ts.len() {
        lemma_declared_sizes_nonneg(ts, i + 1);
    }
}

proof fn lemma_body_layout(ts: Seq<SerialType>, i: nat, s: Seq<u8>, off: nat)
    requires
        off <= s.len(),
        i <= ts.len(),
        forall|j: int| 0 <= j < ts.len() ==> content_size(#[trigger] ts[j]) >= 0,
    ensures
        body_values(ts, i, s, off) matches Ok((vs, n)) ==> n == off + declared_sizes(ts, i)
            && vs.len() == ts.len() - i && forall|k: int|
            0 <= k < vs.len() ==> has_type(#[trigger] vs[k], ts[i + k]),
        body_values(ts, i, s, off) matches Err(e) ==> (e == Error::OutOfBounds && off
            + declared_sizes(ts, i) > s.len()) || e == Error::InvalidText,
    decreases ts.len() - i,
{
    if i < ts.len() {
        let t = ts[i as int];
        let sub = s.subrange(off as int, s.len() as int);
        lemma_declared_sizes_nonneg(ts, i + 1);
        match decode_value(t, sub) {
            Ok((v, n)) => {
                lemma_body_values_stop(ts, i + 1, s, off + n);
                lemma_body_layout(ts, i + 1, s, off + n);
                if let Ok((rest, stop)) = body_values(ts, i + 1, s, off + n) {
                    let vs = seq![v] + rest;
                    assert forall|k: int| 0 <= k < vs.len() implies has_type(#[trigger] vs[k], ts[i + k]) by {
                        if k > 0 {
                            assert(vs[k] == rest[k - 1]);
                        }
                    }
                }
            },
            Err(_) => {},
        }
    }
}

/// A record whose header varints end exactly at the header size that it states is
/// decoded into one value per serial type of the header, in order, each of its type,
/// taking exactly the header size plus the declared sizes of the values; and its
/// decoding fails only where the bytes end before that, or a text is not UTF-8.
pub proof fn lemma_record_layout(s: Seq<u8>, h: VarInt, ts: Seq<SerialType>)
    requires
        varint_decode(s) == Ok::<VarInt, crate::varint::VarIntError>(h),
        0 <= h.0,
        header_types(s, h.1 as nat, h.0 as int) == Ok::<(Seq<SerialType>, nat), Error>(
            (ts, h.0 as nat),
        ),
    ensures
        parse_record(s) matches Ok((vs, n)) ==> n == h.0 + declared_sizes(ts, 0) && vs.len()
            == ts.len() && forall|k: int| 0 <= k < vs.len() ==> has_type(#[trigger] vs[k], ts[k]),
        parse_record(s) matches Err(e) ==> (e == Error::OutOfBounds && h.0 + declared_sizes(ts, 0)
            > s.len()) || e == Error::InvalidText,
{
    lemma_varint_decode_len(s);
    lemma_header_types_stop(s, h.1 as nat, h.0 as int);
    lemma_body_layout(ts, 0, s, h.0 as nat);
}


/// The errors that more bytes can mend: the bytes at hand ran out.
pub open spec fn needs_more(e: Error) -> bool {
    e == Error::Empty || e == Error::Incomplete || e == Error::OutOfBounds
}


proof fn lemma_header_types_extend(s: Seq<u8>, t: Seq<u8>, off: nat, end: int)
    requires
        off <= s.len(),
    ensures
        (header_types(s, off, end) matches Err(e) && needs_more(e)) || header_types(s + t, off, end)
            == header_types(s, off, end),
    decreases s.len() - off,
{
    if off < end && off < s.len() {
        let sub = s.subrange(off as int, s.len() as int);
        assert((s + t).subrange(off as int, (s + t).len() as int) =~= sub + t);
        lemma_varint_decode_extend(sub, t);
        lemma_varint_decode_len(sub);
        if let Ok(v) = varint_decode(sub) {
            lemma_header_types_extend(s, t, off + v.1 as nat, end);
        }
    }
}

proof fn lemma_body_values_extend(ts: Seq<SerialType>, i: nat, s: Seq<u8>, t: Seq<u8>, off: nat)
    requires
        off <= s.len(),
    ensures
        (body_values(ts, i, s, off) matches Err(e) && needs_more(e)) || body_values(ts, i, s + t, off)
            == body_values(ts, i, s, off),
    decreases ts.len() - i,
{
    if i < ts.len() {
        let sub = s.subrange(off as int, s.len() as int);
        assert((s + t).subrange(off as int, (s + t).len() as int) =~= sub + t);
        lemma_decode_value_extend(ts[i as int], sub, t);
        if let Ok((v, n)) = decode_value(ts[i as int], sub) {
            lemma_body_values_stop(ts, i + 1, s, off + n);
            crate::serial::lemma_decode_value_size(ts[i as int], sub);
            lemma_body_values_extend(ts, i + 1, s, t, off + n);
        }
    }
}

/// Decoding a record payload whose header size varint has been read already: the
/// serial types from offset 0 while the offset is below `budget`, then the values.
pub open spec fn payload_values(s: Seq<u8>, budget: int) -> Result<(Seq<SerialValue>, nat), Error> {
    match header_types(s, 0, budget) {
        Err(e) => Err(e),
        Ok((ts, stop)) => body_values(ts, 0, s, stop),
    }
}

/// Where the bytes at hand decide a payload, as values or as an error that more bytes
/// cannot mend, more bytes after them decide it the same way.
pub proof fn lemma_payload_values_extend(s: Seq<u8>, t: Seq<u8>, budget: int)
    ensures
        (payload_values(s, budget) matches Err(e) && needs_more(e)) || payload_values(s + t, budget)
            == payload_values(s, budget),
{
    lemma_header_types_extend(s, t, 0, budget);
    lemma_header_types_stop(s, 0, budget);
    if let Ok((ts, stop)) = header_types(s, 0, budget) {
        lemma_body_values_extend(ts, 0, s, t, stop);
    }
}



/// A copy of `d`.
pub fn clone_data(d: &SerialData) -> (r: SerialData)
    ensures
        r@ == d@,
{
    match d {
        SerialData::Null => SerialData::Null,
        SerialData::I8(x) => SerialData::I8(*x),
        SerialData::I16(x) => SerialData::I16(*x),
        SerialData::I24(x) => SerialData::I24(*x),
        SerialData::I32(x) => SerialData::I32(*x),
        SerialData::I48(x) => SerialData::I48(*x),
        SerialData::I64(x) => SerialData::I64(*x),
        SerialData::F64(x) => SerialData::F64(*x),
        SerialData::Zero => SerialData::Zero,
        SerialData::One => SerialData::One,
        SerialData::Reserved => SerialData::Reserved,
        SerialData::Blob(b) => SerialData::Blob(slice_to_vec(b.as_slice())),
        SerialData::Text(t) => SerialData::Text(t.clone()),
    }
}


/// The text values among the types `ts` from index `i` on, read one after another from
/// offset `off` of `s`, are valid UTF-8.
pub open spec fn texts_valid(ts: Seq<SerialType>, i: nat, s: Seq<u8>, off: int) -> bool
    decreases ts.len() - i,
{
    if i >= ts.len() {
        true
    } else {
        let n = content_size(ts[i as int]);
        (ts[i as int] is Text ==> vstd::utf8::valid_utf8(s.subrange(off, off + n))) && texts_valid(
            ts,
            i + 1,
            s,
            off + n,
        )
    }
}

proof fn lemma_body_total(ts: Seq<SerialType>, i: nat, s: Seq<u8>, off: nat)
    requires
        i <= ts.len(),
        forall|j: int| 0 <= j < ts.len() ==> content_size(#[trigger] ts[j]) >= 0,
        off + declared_sizes(ts, i) <= s.len(),
        texts_valid(ts, i, s, off as int),
    ensures
        body_values(ts, i, s, off) is Ok,
    decreases ts.len() - i,
{
    if i < ts.len() {
        let n = content_size(ts[i as int]);
        lemma_declared_sizes_nonneg(ts, i + 1);
        let sub = s.subrange(off as int, s.len() as int);
        assert(sub.subrange(0, n) =~= s.subrange(off as int, off + n));
        lemma_body_total(ts, i + 1, s, (off + n) as nat);
    }
}

/// Decoding a record is not changed by the bytes that follow it.
pub proof fn lemma_record_ignores_trailing_bytes(s: Seq<u8>, t: Seq<u8>)
    requires
        parse_record(s) is Ok,
    ensures
        parse_record(s + t) == parse_record(s),
{
    lemma_varint_decode_extend(s, t);
    lemma_varint_decode_len(s);
    let h = varint_decode(s)->Ok_0;
    lemma_header_types_extend(s, t, h.1 as nat, h.0 as int);
    lemma_header_types_stop(s, h.1 as nat, h.0 as int);
    let (ts, stop) = header_types(s, h.1 as nat, h.0 as int)->Ok_0;
    lemma_body_values_extend(ts, 0, s, t, stop);
}

/// A record whose header varints end exactly at the header size that it states, whose
/// body holds the declared sizes of all its values and whose texts are valid UTF-8,
/// decodes, whatever bytes follow it.
pub proof fn lemma_record_total(s: Seq<u8>, h: VarInt, ts: Seq<SerialType>)
    requires
        varint_decode(s) == Ok::<VarInt, crate::varint::VarIntError>(h),
        0 <= h.0,
        header_types(s, h.1 as nat, h.0 as int) == Ok::<(Seq<SerialType>, nat), Error>(
            (ts, h.0 as nat),
        ),
        h.0 + declared_sizes(ts, 0) <= s.len(),
        texts_valid(ts, 0, s, h.0 as int),
    ensures
        parse_record(s) matches Ok((vs, n)) && n == h.0 + declared_sizes(ts, 0) && vs.len()
            == ts.len(),
{
    lemma_varint_decode_len(s);
    lemma_header_types_stop(s, h.1 as nat, h.0 as int);
    lemma_body_total(ts, 0, s, h.0 as nat);
    lemma_record_layout(s, h, ts);
}


/// The values of a decode result, without the offset where it stopped.
pub open spec fn values_of<T>(r: Result<(Seq<SerialValue>, T), Error>) -> Result<Seq<SerialValue>, Error> {
    match r {
        Ok((vs, _)) => Ok(vs),
        Err(e) => Err(e),
    }
}

proof fn lemma_header_types_shift(x: Seq<u8>, y: Seq<u8>, off: nat, end: int)
    requires
        off <= y.len(),
    ensures
        match header_types(y, off, end) {
            Ok((ts, stop)) => header_types(x + y, x.len() + off, x.len() + end) == Ok::<
                (Seq<SerialType>, nat),
                Error,
            >((ts, x.len() + stop)),
            Err(e) => header_types(x + y, x.len() + off, x.len() + end) == Err::<
                (Seq<SerialType>, nat),
                Error,
            >(e),
        },
    decreases y.len() - off,
{
    let s = x + y;
    if off < end && off < y.len() {
        let sub = y.subrange(off as int, y.len() as int);
        assert(s.subrange((x.len() + off) as int, s.len() as int) =~= sub);
        lemma_varint_decode_len(sub);
        if let Ok(v) = varint_decode(sub) {
            lemma_header_types_shift(x, y, off + v.1 as nat, end);
            assert(x.len() + off + v.1 as nat == x.len() + (off + v.1 as nat));
        }
    }
}

proof fn lemma_body_values_shift(ts: Seq<SerialType>, i: nat, x: Seq<u8>, y: Seq<u8>, off: nat)
    ensures
        match body_values(ts, i, y, off) {
            Ok((vs, stop)) => body_values(ts, i, x + y, x.len() + off) == Ok::<(Seq<SerialValue>, nat), Error>(
                (vs, x.len() + stop),
            ),
            Err(e) => body_values(ts, i, x + y, x.len() + off) == Err::<(Seq<SerialValue>, nat), Error>(e),
        },
    decreases ts.len() - i,
{
    let s = x + y;
    if i < ts.len() && off <= y.len() {
        let sub = y.subrange(off as int, y.len() as int);
        assert(s.subrange((x.len() + off) as int, s.len() as int) =~= sub);
        if let Ok((v, n)) = decode_value(ts[i as int], sub) {
            lemma_body_values_shift(ts, i + 1, x, y, off + n);
            assert(x.len() + off + n == x.len() + (off + n));
        }
    }
}

/// Decoding the bytes of a record after its header size varint, with the header bytes
/// that remain as the budget, gives the values of decoding the whole record.
pub proof fn lemma_payload_is_record(r: Seq<u8>)
    requires
        varint_decode(r) is Ok,
    ensures
        values_of(
            payload_values(
                r.subrange(varint_decode(r)->Ok_0.1 as int, r.len() as int),
                if varint_decode(r)->Ok_0.0 < varint_decode(r)->Ok_0.1 {
                    0
                } else {
                    varint_decode(r)->Ok_0.0 - varint_decode(r)->Ok_0.1
                },
            ),
        ) == values_of(parse_record(r)),
{
    let h = varint_decode(r)->Ok_0;
    lemma_varint_decode_len(r);
    let x = r.subrange(0, h.1 as int);
    let y = r.subrange(h.1 as int, r.len() as int);
    assert(x + y =~= r);
    let b: int = if h.0 < h.1 {
        0
    } else {
        h.0 - h.1
    };
    lemma_header_types_shift(x, y, 0, b);
    if h.0 < h.1 {
        assert(header_types(r, h.1 as nat, h.0 as int) == Ok::<(Seq<SerialType>, nat), Error>((seq![], h.1 as nat)));
    }
    if let Ok((ts, stop)) = header_types(y, 0, b) {
        lemma_body_values_shift(ts, 0, x, y, stop);
    }
}

} // verus!
