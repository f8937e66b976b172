//! The four cell layouts, and how much of a payload stays on the b-tree page.
use crate::error::{from_varint_error, varint_error, Error};
use crate::overflow::{overflow_record_spec, OverflowRecord, ReadableRecord, RecordView};
use crate::page::{be_u32_at, read_u32};
use crate::record::{parse_record, Record};
use crate::varint::{lemma_varint_decode_len, varint_decode, VarInt};
use vstd::prelude::*;
use vstd::slice::slice_subrange;

verus! {

/// The least usable page size that the file format allows.
pub const MIN_USABLE_SIZE: u32 = 480;

/// The largest page size.
pub const MAX_PAGE_SIZE: u32 = 65536;

/// A page size and a count of reserved bytes per page that the format allows.
pub open spec fn valid_geometry(page_size: u32, reserved: u8) -> bool {
    page_size <= MAX_PAGE_SIZE && page_size - reserved >= MIN_USABLE_SIZE
}

/// The usable size U of a page.
pub open spec fn usable_size(page_size: u32, reserved: u8) -> int {
    page_size - reserved
}

/// X for a table leaf cell: the most payload that stays on the page.
pub open spec fn table_leaf_max_local(u: int) -> int {
    u - 35
}

/// X for an index cell.
pub open spec fn index_max_local(u: int) -> int {
    u - 23
}

/// M: the least payload that stays on the page once a payload spills.
pub open spec fn min_local(u: int) -> int {
    (u - 12) * 32 / 255 - 23
}

/// The number of payload bytes of a payload of `p` bytes that stay on the page, for
/// usable size `u` and maximum `x`: all of them up to `x`; else K = M + ((P - M) mod
/// (U - 4)) where that is at most `x`, and M where not.
pub open spec fn local_size(p: int, u: int, x: int) -> int {
    let m = min_local(u);
    let k = m + (p - m) % (u - 4);
    if p <= x {
        p
    } else if k <= x {
        k
    } else {
        m
    }
}

/// Computes `local_size(p, u, x)`.
pub fn local_payload_size(p: i64, u: u32, x: u32) -> (r: i64)
    requires
        MIN_USABLE_SIZE <= u <= MAX_PAGE_SIZE,
        x < u,
        min_local(u as int) < x,
    ensures
        r == local_size(p as int, u as int, x as int),
{
    let m: i64 = ((u as i64 - 12) * 32 / 255) - 23;
    if p <= x as i64 {
        p
    } else {
        let k: i64 = m + ((p - m) as u64 % (u as u64 - 4)) as i64;
        if k <= x as i64 {
            k
        } else {
            m
        }
    }
}

/// What the payload part of a cell gives: a whole record when the payload is at most
/// `x` bytes, else the on-page part of an overflowing record; with the bytes that the
/// payload takes on the page. The payload is `p` bytes long and starts at the front of
/// `rest`.
pub open spec fn payload_spec(rest: Seq<u8>, p: i64, page_size: u32, u: int, x: int) -> Result<
    (RecordView, nat),
    Error,
> {
    if p <= x {
        if p < 0 || p > rest.len() {
            Err(Error::OutOfBounds)
        } else {
            match parse_record(rest.subrange(0, p as int)) {
                Ok((vs, _)) => Ok((RecordView::Fit(vs), p as nat)),
                Err(e) => Err(e),
            }
        }
    } else {
        let local = local_size(p as int, u, x);
        match overflow_record_spec(rest, local) {
            Ok((h, resident, first)) => Ok(
                (RecordView::Lazy(h.0, h.1, resident, first, page_size), (local + 4) as nat),
            ),
            Err(e) => Err(e),
        }
    }
}

pub open spec fn payload_ok(
    rest: Seq<u8>,
    p: i64,
    page_size: u32,
    u: int,
    x: int,
    r: Result<(ReadableRecord, usize), Error>,
) -> bool {
    match r {
        Ok((rec, n)) => payload_spec(rest, p, page_size, u, x) == Ok::<(RecordView, nat), Error>(
            (rec@, n as nat),
        ),
        Err(e) => payload_spec(rest, p, page_size, u, x) == Err::<(RecordView, nat), Error>(e),
    }
}

/// Reads the payload of `p` bytes at the front of `rest`; see `payload_ok`.
fn read_payload(rest: &[u8], p: i64, page_size: u32, u: u32, x: u32) -> (r: Result<
    (ReadableRecord, usize),
    Error,
>)
    requires
        MIN_USABLE_SIZE <= u <= MAX_PAGE_SIZE,
        x < u,
        min_local(u as int) < x,
    ensures
        payload_ok(rest@, p, page_size, u as int, x as int, r),
{
    if p <= x as i64 {
        if p < 0 || p as u64 > rest.len() as u64 {
            return Err(Error::OutOfBounds);
        }
        match Record::from_be_bytes(slice_subrange(rest, 0, p as usize)) {
            Ok((rec, _)) => Ok((ReadableRecord::Fit(rec), p as usize)),
            Err(e) => Err(e),
        }
    } else {
        let local = local_payload_size(p, u, x);
        proof {
            assert(min_local(u as int) >= 35) by (nonlinear_arith)
                requires
                    u >= 480,
            ;
        }
        match OverflowRecord::from_be_bytes(local, rest, page_size) {
            Ok((o, _)) => Ok((ReadableRecord::Lazy(o), local as usize + 4)),
            Err(e) => Err(e),
        }
    }
}

proof fn lemma_thresholds(page_size: u32, reserved: u8)
    requires
        valid_geometry(page_size, reserved),
    ensures
        min_local(usable_size(page_size, reserved)) < table_leaf_max_local(
            usable_size(page_size, reserved),
        ),
        35 <= min_local(usable_size(page_size, reserved)),
{
    let u = usable_size(page_size, reserved);
    assert(35 <= (u - 12) * 32 / 255 - 23 < u - 35) by (nonlinear_arith)
        requires
            480 <= u <= 65536,
    ;
}

/// Checks a page size and reserved-byte count, and gives the usable size.
fn checked_usable_size(page_size: u32, reserved_bytes_per_page: u8) -> (r: Result<u32, Error>)
    ensures
        valid_geometry(page_size, reserved_bytes_per_page) ==> r == Ok::<u32, Error>(
            (page_size - reserved_bytes_per_page) as u32,
        ),
        !valid_geometry(page_size, reserved_bytes_per_page) ==> r == Err::<u32, Error>(
            Error::InvalidPageSize,
        ),
{
    if page_size > MAX_PAGE_SIZE || (page_size as i64) - (reserved_bytes_per_page as i64)
        < MIN_USABLE_SIZE as i64 {
        Err(Error::InvalidPageSize)
    } else {
        Ok(page_size - reserved_bytes_per_page as u32)
    }
}

/// A cell of a table b-tree leaf page: a row.
#[derive(Debug, Clone)]
pub struct TableLeafCell {
    pub total_bytes_of_payload: VarInt,
    pub integer_key: VarInt,
    pub payload: ReadableRecord,
}

/// What the table leaf cell at the front of `content` holds: payload size, row key and
/// payload, with the bytes that the cell takes.
pub open spec fn table_leaf_spec(content: Seq<u8>, page_size: u32, reserved: u8) -> Result<
    (VarInt, VarInt, RecordView, nat),
    Error,
> {
    if !valid_geometry(page_size, reserved) {
        Err(Error::InvalidPageSize)
    } else {
        match varint_decode(content) {
            Err(e) => Err(varint_error(e)),
            Ok(p) => {
                let rest = content.subrange(p.1 as int, content.len() as int);
                match varint_decode(rest) {
                    Err(e) => Err(varint_error(e)),
                    Ok(key) => {
                        let body = rest.subrange(key.1 as int, rest.len() as int);
                        let u = usable_size(page_size, reserved);
                        match payload_spec(body, p.0, page_size, u, table_leaf_max_local(u)) {
                            Ok((rec, m)) => Ok((p, key, rec, (p.1 + key.1 + m) as nat)),
                            Err(e) => Err(e),
                        }
                    },
                }
            },
        }
    }
}

pub open spec fn table_leaf_view(r: Result<(TableLeafCell, u64), Error>) -> Result<
    (VarInt, VarInt, RecordView, nat),
    Error,
> {
    match r {
        Ok((c, n)) => Ok((c.total_bytes_of_payload, c.integer_key, c.payload@, n as nat)),
        Err(e) => Err(e),
    }
}

impl TableLeafCell {
    /// Reads the table leaf cell at the front of `cell_content`: the cell and the
    /// number of bytes it takes on the page.
    pub fn from_be_bytes(cell_content: &[u8], page_size: u32, reserved_bytes_per_page: u8) -> (r:
        Result<(TableLeafCell, u64), Error>)
        ensures
            table_leaf_view(r) == table_leaf_spec(cell_content@, page_size, reserved_bytes_per_page),
    {
        let u = match checked_usable_size(page_size, reserved_bytes_per_page) {
            Ok(u) => u,
            Err(e) => return Err(e),
        };
        let total_bytes_of_payload = match VarInt::from_be_bytes(cell_content) {
            Ok(v) => v,
            Err(e) => return Err(from_varint_error(e)),
        };
        proof {
            lemma_varint_decode_len(cell_content@);
            lemma_thresholds(page_size, reserved_bytes_per_page);
        }
        let rest = slice_subrange(cell_content, total_bytes_of_payload.1 as usize, cell_content.len());
        let integer_key = match VarInt::from_be_bytes(rest) {
            Ok(v) => v,
            Err(e) => return Err(from_varint_error(e)),
        };
        proof {
            lemma_varint_decode_len(rest@);
        }
        let body = slice_subrange(rest, integer_key.1 as usize, rest.len());
        let (payload, m) = match read_payload(body, total_bytes_of_payload.0, page_size, u, u - 35) {
            Ok(x) => x,
            Err(e) => return Err(e),
        };
        proof {
            lemma_payload_size(body@, total_bytes_of_payload.0, page_size, u as int, table_leaf_max_local(u as int));
        }
        let n = total_bytes_of_payload.1 as u64 + integer_key.1 as u64 + m as u64;
        Ok((TableLeafCell { total_bytes_of_payload, integer_key, payload }, n))
    }
}

/// A cell of a table b-tree interior page: a child pointer and the key that bounds it.
#[derive(Debug, Clone, Copy)]
pub struct TableInteriorCell {
    pub left_child_page_number: u32,
    pub integer_key: VarInt,
}

/// What the table interior cell at the front of `content` holds: child pointer and row
/// key, with the bytes that the cell takes.
pub open spec fn table_interior_spec(content: Seq<u8>) -> Result<(u32, VarInt, nat), Error> {
    if content.len() < 4 {
        Err(Error::OutOfBounds)
    } else {
        match varint_decode(content.subrange(4, content.len() as int)) {
            Ok(key) => Ok((be_u32_at(content, 0), key, (4 + key.1) as nat)),
            Err(e) => Err(varint_error(e)),
        }
    }
}

pub open spec fn table_interior_view(r: Result<(TableInteriorCell, u64), Error>) -> Result<
    (u32, VarInt, nat),
    Error,
> {
    match r {
        Ok((c, n)) => Ok((c.left_child_page_number, c.integer_key, n as nat)),
        Err(e) => Err(e),
    }
}

impl TableInteriorCell {
    /// Reads the table interior cell at the front of `cell_content`: the cell and the
    /// number of bytes it takes.
    pub fn from_be_bytes(cell_content: &[u8]) -> (r: Result<(TableInteriorCell, u64), Error>)
        ensures
            table_interior_view(r) == table_interior_spec(cell_content@),
    {
        if cell_content.len() < 4 {
            return Err(Error::OutOfBounds);
        }
        let left_child_page_number = read_u32(cell_content, 0);
        let integer_key = match VarInt::from_be_bytes(slice_subrange(cell_content, 4, cell_content.len())) {
            Ok(v) => v,
            Err(e) => return Err(from_varint_error(e)),
        };
        Ok((TableInteriorCell { left_child_page_number, integer_key }, 4 + integer_key.1 as u64))
    }
}

/// A cell of an index b-tree leaf page: a key record.
#[derive(Debug, Clone)]
pub struct IndexLeafCell {
    pub total_bytes_of_payload: VarInt,
    pub payload: ReadableRecord,
}

/// What the payload size varint and the payload at the front of `content` give in an
/// index cell, with the bytes that they take.
pub open spec fn index_payload_spec(content: Seq<u8>, page_size: u32, reserved: u8) -> Result<
    (VarInt, RecordView, nat),
    Error,
> {
    if !valid_geometry(page_size, reserved) {
        Err(Error::InvalidPageSize)
    } else {
        match varint_decode(content) {
            Err(e) => Err(varint_error(e)),
            Ok(p) => {
                let body = content.subrange(p.1 as int, content.len() as int);
                let u = usable_size(page_size, reserved);
                match payload_spec(body, p.0, page_size, u, index_max_local(u)) {
                    Ok((rec, m)) => Ok((p, rec, (p.1 + m) as nat)),
                    Err(e) => Err(e),
                }
            },
        }
    }
}

pub open spec fn index_payload_view(r: Result<(VarInt, ReadableRecord, u64), Error>) -> Result<
    (VarInt, RecordView, nat),
    Error,
> {
    match r {
        Ok((v, rec, n)) => Ok((v, rec@, n as nat)),
        Err(e) => Err(e),
    }
}

/// Reads the payload size varint and the payload of an index cell.
fn read_index_payload(content: &[u8], page_size: u32, reserved: u8) -> (r: Result<
    (VarInt, ReadableRecord, u64),
    Error,
>)
    ensures
        index_payload_view(r) == index_payload_spec(content@, page_size, reserved),
{
    let u = match checked_usable_size(page_size, reserved) {
        Ok(u) => u,
        Err(e) => return Err(e),
    };
    let p = match VarInt::from_be_bytes(content) {
        Ok(v) => v,
        Err(e) => return Err(from_varint_error(e)),
    };
    proof {
        lemma_varint_decode_len(content@);
        lemma_thresholds(page_size, reserved);
    }
    let body = slice_subrange(content, p.1 as usize, content.len());
    let (rec, m) = match read_payload(body, p.0, page_size, u, u - 23) {
        Ok(x) => x,
        Err(e) => return Err(e),
    };
    proof {
        lemma_payload_size(body@, p.0, page_size, u as int, index_max_local(u as int));
    }
    Ok((p, rec, p.1 as u64 + m as u64))
}

pub open spec fn index_leaf_view(r: Result<(IndexLeafCell, u64), Error>) -> Result<
    (VarInt, RecordView, nat),
    Error,
> {
    match r {
        Ok((c, n)) => Ok((c.total_bytes_of_payload, c.payload@, n as nat)),
        Err(e) => Err(e),
    }
}

impl IndexLeafCell {
    /// Reads the index leaf cell at the front of `cell_content`: the cell and the number
    /// of bytes it takes on the page.
    pub fn from_be_bytes(cell_content: &[u8], page_size: u32, reserved_bytes_per_page: u8) -> (r:
        Result<(IndexLeafCell, u64), Error>)
        ensures
            index_leaf_view(r) == index_payload_spec(cell_content@, page_size, reserved_bytes_per_page),
    {
        match read_index_payload(cell_content, page_size, reserved_bytes_per_page) {
            Ok((total_bytes_of_payload, payload, n)) => Ok((IndexLeafCell { total_bytes_of_payload, payload }, n)),
            Err(e) => Err(e),
        }
    }
}

/// A cell of an index b-tree interior page: a child pointer and a key record.
#[derive(Debug, Clone)]
pub struct IndexInteriorCell {
    pub left_child_page_number: u32,
    pub total_bytes_of_payload: VarInt,
    pub payload: ReadableRecord,
}

/// What the index interior cell at the front of `content` holds: child pointer, payload
/// size and payload, with the bytes that the cell takes.
pub open spec fn index_interior_spec(content: Seq<u8>, page_size: u32, reserved: u8) -> Result<
    (u32, VarInt, RecordView, nat),
    Error,
> {
    if content.len() < 4 {
        Err(Error::OutOfBounds)
    } else {
        match index_payload_spec(content.subrange(4, content.len() as int), page_size, reserved) {
            Ok((p, rec, n)) => Ok((be_u32_at(content, 0), p, rec, n + 4)),
            Err(e) => Err(e),
        }
    }
}

pub open spec fn index_interior_view(r: Result<(IndexInteriorCell, u64), Error>) -> Result<
    (u32, VarInt, RecordView, nat),
    Error,
> {
    match r {
        Ok((c, n)) => Ok((c.left_child_page_number, c.total_bytes_of_payload, c.payload@, n as nat)),
        Err(e) => Err(e),
    }
}

impl IndexInteriorCell {
    /// Reads the index interior cell at the front of `cell_content`: the cell and the
    /// number of bytes it takes on the page.
    pub fn from_be_bytes(cell_content: &[u8], page_size: u32, reserved_bytes_per_page: u8) -> (r:
        Result<(IndexInteriorCell, u64), Error>)
        ensures
            index_interior_view(r) == index_interior_spec(cell_content@, page_size, reserved_bytes_per_page),
    {
        if cell_content.len() < 4 {
            return Err(Error::OutOfBounds);
        }
        let left_child_page_number = read_u32(cell_content, 0);
        let rest = slice_subrange(cell_content, 4, cell_content.len());
        match read_index_payload(rest, page_size, reserved_bytes_per_page) {
            Ok((total_bytes_of_payload, payload, n)) => {
                proof {
                    lemma_index_payload_size(rest@, page_size, reserved_bytes_per_page);
                }
                Ok((IndexInteriorCell { left_child_page_number, total_bytes_of_payload, payload }, n + 4))
            },
            Err(e) => Err(e),
        }
    }
}

/// The bytes that a payload takes are among those at hand.
proof fn lemma_payload_size(rest: Seq<u8>, p: i64, page_size: u32, u: int, x: int)
    ensures
        payload_spec(rest, p, page_size, u, x) matches Ok((_, n)) ==> n <= rest.len(),
{
}

proof fn lemma_index_payload_size(content: Seq<u8>, page_size: u32, reserved: u8)
    ensures
        index_payload_spec(content, page_size, reserved) matches Ok((_, _, n)) ==> n <= content.len(),
{
    lemma_varint_decode_len(content);
    if let Ok(p) = varint_decode(content) {
        let u = usable_size(page_size, reserved);
        lemma_payload_size(content.subrange(p.1 as int, content.len() as int), p.0, page_size, u, index_max_local(u));
    }
}

/// A cell of a leaf page.
#[derive(Debug, Clone)]
pub enum LeafCell {
    Table(TableLeafCell),
    Index(IndexLeafCell),
}

impl LeafCell {
    /// A copy of the cell's record.
    pub fn get_readable_record(&self) -> (r: ReadableRecord)
        ensures
            r@ == (match self {
                LeafCell::Table(c) => c.payload@,
                LeafCell::Index(c) => c.payload@,
            }),
    {
        match self {
            LeafCell::Table(cell) => cell.payload.copy_record(),
            LeafCell::Index(cell) => cell.payload.copy_record(),
        }
    }
}

/// A cell of an interior page.
#[derive(Debug, Clone)]
pub enum InteriorCell {
    Table(TableInteriorCell),
    Index(IndexInteriorCell),
}

impl InteriorCell {
    /// The page that the cell points to.
    pub fn get_left_child_page_number(&self) -> (r: u32)
        ensures
            r == (match self {
                InteriorCell::Table(c) => c.left_child_page_number,
                InteriorCell::Index(c) => c.left_child_page_number,
            }),
    {
        match self {
            InteriorCell::Table(cell) => cell.left_child_page_number,
            InteriorCell::Index(cell) => cell.left_child_page_number,
        }
    }
}

/// A table leaf payload of exactly X bytes stays whole on the page; one of X + 1
/// bytes spills and keeps exactly M bytes on the page; and every payload that spills
/// keeps at least M and at most X of its bytes on the page, fewer than it has.
pub proof fn lemma_table_leaf_spill_threshold(page_size: u32, reserved: u8, p: int)
    requires
        valid_geometry(page_size, reserved),
    ensures
        local_size(
            table_leaf_max_local(usable_size(page_size, reserved)),
            usable_size(page_size, reserved),
            table_leaf_max_local(usable_size(page_size, reserved)),
        ) == table_leaf_max_local(usable_size(page_size, reserved)),
        local_size(
            table_leaf_max_local(usable_size(page_size, reserved)) + 1,
            usable_size(page_size, reserved),
            table_leaf_max_local(usable_size(page_size, reserved)),
        ) == min_local(usable_size(page_size, reserved)),
        p > table_leaf_max_local(usable_size(page_size, reserved)) ==> min_local(
            usable_size(page_size, reserved),
        ) <= local_size(
            p,
            usable_size(page_size, reserved),
            table_leaf_max_local(usable_size(page_size, reserved)),
        ) <= table_leaf_max_local(usable_size(page_size, reserved)) < p,
{
    let u = usable_size(page_size, reserved);
    let x = table_leaf_max_local(u);
    let m = min_local(u);
    lemma_thresholds(page_size, reserved);
    vstd::arithmetic::div_mod::lemma_small_mod((x + 1 - m) as nat, (u - 4) as nat);
    if p > x {
        vstd::arithmetic::div_mod::lemma_mod_bound(p - m, u - 4);
    }
}


/// A table leaf cell laid out as the varint of its payload size `p`, the varint of its
/// row key and then `body` reads as those two varints and the payload that `body`
/// starts with: the whole record when `p` is at most X (so a payload of exactly X
/// bytes stays resident), and otherwise the on-page part of a spilled record, which for
/// X + 1 bytes keeps exactly M bytes on the page.
pub proof fn lemma_table_leaf_layout(p: i64, key: i64, body: Seq<u8>, page_size: u32, reserved: u8)
    requires
        valid_geometry(page_size, reserved),
    ensures
        table_leaf_spec(
            crate::varint::varint_encoding(p) + crate::varint::varint_encoding(key) + body,
            page_size,
            reserved,
        ) == (match payload_spec(
            body,
            p,
            page_size,
            usable_size(page_size, reserved),
            table_leaf_max_local(usable_size(page_size, reserved)),
        ) {
            Ok((rec, m)) => Ok::<(VarInt, VarInt, RecordView, nat), Error>(
                (
                    VarInt(p, crate::varint::varint_encoding(p).len() as u8),
                    VarInt(key, crate::varint::varint_encoding(key).len() as u8),
                    rec,
                    (crate::varint::varint_encoding(p).len() + crate::varint::varint_encoding(key).len()
                        + m) as nat,
                ),
            ),
            Err(e) => Err(e),
        }),
        local_size(
            table_leaf_max_local(usable_size(page_size, reserved)) + 1,
            usable_size(page_size, reserved),
            table_leaf_max_local(usable_size(page_size, reserved)),
        ) == min_local(usable_size(page_size, reserved)),
{
    let ep = crate::varint::varint_encoding(p);
    let ek = crate::varint::varint_encoding(key);
    let content = ep + ek + body;
    crate::varint::lemma_varint_round_trip(p);
    crate::varint::lemma_varint_round_trip(key);
    assert(content =~= ep + (ek + body));
    crate::varint::lemma_varint_decode_extend(ep, ek + body);
    let rest = content.subrange(ep.len() as int, content.len() as int);
    assert(rest =~= ek + body);
    crate::varint::lemma_varint_decode_extend(ek, body);
    assert(rest.subrange(ek.len() as int, rest.len() as int) =~= body);
    lemma_table_leaf_spill_threshold(page_size, reserved, 0);
}

} // verus!
