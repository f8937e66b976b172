//! Records whose payload spills from the b-tree page into a chain of overflow pages.
use crate::error::{from_varint_error, varint_error, Error};
use crate::page::{be_u32_at, read_u32};
use crate::record::{
    lemma_payload_is_record, parse_record, body_values, data_error, header_types, lemma_payload_values_extend, needs_more, payload_values,
    values_view, Record,
};
use crate::serial::{
    decode_value, lemma_decode_value_extend, serial_type_of, SerialData, SerialDataError, SerialType,
    SerialValue,
};
use crate::varint::{
    lemma_varint_decode_extend, lemma_varint_decode_len, varint_decode, VarInt, VarIntError,
};
use vstd::prelude::*;
use vstd::slice::{slice_subrange, slice_to_vec};

verus! {

/// A record of which only a prefix is on the b-tree page. The header size is known;
/// the rest of the payload is read from the overflow chain on demand.
#[derive(Debug, Clone)]
pub struct OverflowRecord {
    /// The record's header size, as its first varint states it.
    pub record_header_size: i64,
    /// The number of bytes of that first varint.
    pub header_size_len: u8,
    /// The payload bytes on the b-tree page after the first varint.
    pub raw_record_payload: Vec<u8>,
    /// The first overflow page; 0 for none.
    pub overflow_page: u32,
    /// The size of every page of the file.
    pub page_size: u32,
}

/// What `OverflowRecord::from_be_bytes` reads from `bytes` of which `local` are on the
/// page: the header size varint, the resident bytes after it, and the first overflow
/// page number.
pub open spec fn overflow_record_spec(bytes: Seq<u8>, local: int) -> Result<
    (VarInt, Seq<u8>, u32),
    Error,
> {
    match varint_decode(bytes) {
        Err(e) => Err(varint_error(e)),
        Ok(h) => if local < h.1 || local + 4 > bytes.len() {
            Err(Error::OutOfBounds)
        } else {
            Ok((h, bytes.subrange(h.1 as int, local), be_u32_at(bytes, local)))
        },
    }
}

impl OverflowRecord {
    /// Reads an overflowing record's on-page part from `bytes`: the record takes the
    /// first `bytes_stored_on_leaf` of them, and the four bytes after those give the
    /// first overflow page. Returns the record and `bytes_stored_on_leaf`.
    pub fn from_be_bytes(bytes_stored_on_leaf: i64, bytes: &[u8], page_size: u32) -> (r: Result<
        (OverflowRecord, u64),
        Error,
    >)
        ensures
            match overflow_record_spec(bytes@, bytes_stored_on_leaf as int) {
                Ok((h, resident, first)) => r matches Ok((o, n)) && o.record_header_size == h.0
                    && o.header_size_len == h.1 && o.raw_record_payload@ == resident
                    && o.overflow_page == first && o.page_size == page_size && n
                    == bytes_stored_on_leaf,
                Err(e) => r matches Err(e2) && e2 == e,
            },
    {
        let h = match VarInt::from_be_bytes(bytes) {
            Ok(h) => h,
            Err(e) => return Err(from_varint_error(e)),
        };
        let len = bytes.len();
        if bytes_stored_on_leaf < h.1 as i64 || bytes_stored_on_leaf as i128 + 4 > len as i128 {
            return Err(Error::OutOfBounds);
        }
        let local = bytes_stored_on_leaf as usize;
        let resident = slice_to_vec(slice_subrange(bytes, h.1 as usize, local));
        let first = read_u32(bytes, local);
        Ok((
            OverflowRecord {
                record_header_size: h.0,
                header_size_len: h.1,
                raw_record_payload: resident,
                overflow_page: first,
                page_size,
            },
            bytes_stored_on_leaf as u64,
        ))
    }
}

/// A record, whole or still to be read from its overflow chain.
#[derive(Debug, Clone)]
pub enum ReadableRecord {
    Fit(Record),
    Lazy(OverflowRecord),
}

/// What a `ReadableRecord` holds.
pub enum RecordView {
    /// The values of a record whose bytes were all on the page.
    Fit(Seq<SerialValue>),
    /// A spilled record: header size and the length of its varint, the resident bytes
    /// after that varint, the first overflow page and the page size.
    Lazy(i64, u8, Seq<u8>, u32, u32),
}

impl View for ReadableRecord {
    type V = RecordView;

    open spec fn view(&self) -> RecordView {
        match self {
            ReadableRecord::Fit(r) => RecordView::Fit(r@),
            ReadableRecord::Lazy(o) => RecordView::Lazy(
                o.record_header_size,
                o.header_size_len,
                o.raw_record_payload@,
                o.overflow_page,
                o.page_size,
            ),
        }
    }
}


/// Byte offset of page `p` (numbered from 1) in the file.
pub open spec fn page_offset(p: u32, page_size: u32) -> int {
    (p - 1) * page_size
}

/// Reading overflow page `p`: the payload bytes after its 4-byte next pointer, and that
/// pointer; `ShortRead` where the page is not wholly in the file.
pub open spec fn fetch_overflow(file: Seq<u8>, page_size: u32, p: u32) -> Result<
    (Seq<u8>, u32),
    Error,
> {
    let start = page_offset(p, page_size);
    if page_size < 4 || start + page_size > file.len() {
        Err(Error::ShortRead)
    } else {
        Ok((file.subrange(start + 4, start + page_size), be_u32_at(file, start)))
    }
}

/// The payload bytes at hand after following `k` links of the chain that starts at
/// page `first`, starting from the `resident` bytes; with the next page number.
pub open spec fn chain(file: Seq<u8>, page_size: u32, resident: Seq<u8>, first: u32, k: nat) -> Result<
    (Seq<u8>, u32),
    Error,
>
    decreases k,
{
    if k == 0 {
        Ok((resident, first))
    } else {
        match chain(file, page_size, resident, first, (k - 1) as nat) {
            Err(e) => Err(e),
            Ok((s, next)) => if next == 0 {
                Err(Error::MissingOverflowPage)
            } else {
                match fetch_overflow(file, page_size, next) {
                    Err(e) => Err(e),
                    Ok((chunk, after)) => Ok((s + chunk, after)),
                }
            },
        }
    }
}

/// The most pages that a chain can have without visiting a page twice.
pub open spec fn max_chain(file: Seq<u8>, page_size: u32) -> nat {
    if page_size == 0 {
        0
    } else {
        file.len() / (page_size as nat)
    }
}

/// The bytes at hand after fewer links are a prefix of those after more.
pub proof fn lemma_chain_prefix(
    file: Seq<u8>,
    page_size: u32,
    resident: Seq<u8>,
    first: u32,
    j: nat,
    k: nat,
)
    requires
        j <= k,
        chain(file, page_size, resident, first, k) is Ok,
    ensures
        chain(file, page_size, resident, first, j) matches Ok((sj, _)) && sj
            == chain(file, page_size, resident, first, k)->Ok_0.0.subrange(0, sj.len() as int),
        chain(file, page_size, resident, first, j)->Ok_0.0.len() <= chain(
            file,
            page_size,
            resident,
            first,
            k,
        )->Ok_0.0.len(),
    decreases k - j,
{
    if j < k {
        lemma_chain_prefix(file, page_size, resident, first, j, (k - 1) as nat);
        let sk1 = chain(file, page_size, resident, first, (k - 1) as nat)->Ok_0.0;
        let sk = chain(file, page_size, resident, first, k)->Ok_0.0;
        let sj = chain(file, page_size, resident, first, j)->Ok_0.0;
        assert(sk.subrange(0, sk1.len() as int) =~= sk1);
        assert(sk.subrange(0, sj.len() as int) =~= sk1.subrange(0, sj.len() as int));
    }
}

/// A spilled record whose chain holds its whole payload after `k` links decodes to
/// the same values after any number `j` of links at which the bytes at hand decide
/// it: the values of the whole payload read at once. Before that point the bytes at
/// hand only run out.
pub proof fn lemma_overflow_reconstruction(
    file: Seq<u8>,
    page_size: u32,
    resident: Seq<u8>,
    first: u32,
    budget: int,
    j: nat,
    k: nat,
)
    requires
        chain(file, page_size, resident, first, k) is Ok,
        payload_values(chain(file, page_size, resident, first, k)->Ok_0.0, budget) is Ok,
        chain(file, page_size, resident, first, j) is Ok,
    ensures
        payload_values(chain(file, page_size, resident, first, j)->Ok_0.0, budget) is Ok
            ==> payload_values(chain(file, page_size, resident, first, j)->Ok_0.0, budget)->Ok_0.0
            == payload_values(chain(file, page_size, resident, first, k)->Ok_0.0, budget)->Ok_0.0,
        payload_values(chain(file, page_size, resident, first, j)->Ok_0.0, budget) matches Err(e)
            ==> needs_more(e) && j < k,
{
    let sj = chain(file, page_size, resident, first, j)->Ok_0.0;
    let sk = chain(file, page_size, resident, first, k)->Ok_0.0;
    if j <= k {
        lemma_chain_prefix(file, page_size, resident, first, j, k);
        let t = sk.subrange(sj.len() as int, sk.len() as int);
        assert(sj + t =~= sk);
        lemma_payload_values_extend(sj, t, budget);
    } else {
        lemma_chain_prefix(file, page_size, resident, first, k, j);
        let t = sj.subrange(sk.len() as int, sj.len() as int);
        assert(sk + t =~= sj);
        lemma_payload_values_extend(sk, t, budget);
    }
}

/// Reads overflow page `p`; see `fetch_overflow`.
fn fetch_overflow_page(file: &[u8], page_size: u32, p: u32) -> (r: Result<(Vec<u8>, u32), Error>)
    requires
        p >= 1,
    ensures
        match fetch_overflow(file@, page_size, p) {
            Ok((chunk, next)) => r matches Ok((c, n)) && c@ == chunk && n == next,
            Err(e) => r matches Err(e2) && e2 == e,
        },
{
    proof {
        assert((p - 1) as u64 * page_size as u64 + page_size as u64 <= 0xffff_ffff * 0xffff_ffff + 0xffff_ffff) by (nonlinear_arith)
            requires
                p >= 1,
        ;
    }
    let start: u64 = (p - 1) as u64 * page_size as u64;
    if page_size < 4 || start + page_size as u64 > file.len() as u64 {
        return Err(Error::ShortRead);
    }
    let start = start as usize;
    let chunk = slice_to_vec(slice_subrange(file, start + 4, start + page_size as usize));
    let next = read_u32(file, start);
    Ok((chunk, next))
}

impl OverflowRecord {
    /// The number of header bytes after the header size varint.
    pub open spec fn budget(&self) -> int {
        if self.record_header_size < self.header_size_len {
            0
        } else {
            self.record_header_size - self.header_size_len
        }
    }

    /// The payload bytes at hand after `k` links of this record's chain in `file`.
    pub open spec fn stream(&self, file: Seq<u8>, k: nat) -> Result<(Seq<u8>, u32), Error> {
        chain(file, self.page_size, self.raw_record_payload@, self.overflow_page, k)
    }

    /// Whether `r` is what reading the record from `file` owes: the values where some
    /// number of links decides them, and an error only where the bytes at hand decide
    /// one, or ran out where the chain ends, cannot be read, or is longer than the file
    /// has pages. Where the chain holds the whole payload within that many links, the
    /// result is the values of the whole payload.
    pub open spec fn read_ok(&self, file: Seq<u8>, r: Result<Vec<SerialData>, Error>) -> bool {
        &&& r matches Ok(d) ==> exists|k: nat|
            #![trigger self.stream(file, k)]
            k <= max_chain(file, self.page_size) && self.stream(file, k) is Ok && (payload_values(self.stream(file, k)->Ok_0.0, self.budget())
                matches Ok((vs, _)) && values_view(d@) == vs)
        &&& r matches Err(e) ==> exists|k: nat|
            #![trigger self.stream(file, k)]
            self.stream(file, k) is Ok && match payload_values(
                self.stream(file, k)->Ok_0.0,
                self.budget(),
            ) {
                Err(e2) => (e2 == e && !needs_more(e)) || (needs_more(e2) && (self.stream(file, k + 1)
                    == Err::<(Seq<u8>, u32), Error>(e) || (e == Error::OverflowChainLoop && k
                    >= max_chain(file, self.page_size) && self.stream(file, k)->Ok_0.1 != 0))),
                Ok(_) => false,
            }
        &&& forall|k: nat|
            #![trigger self.stream(file, k)]
            self.stream(file, k) is Ok && k <= max_chain(file, self.page_size) && payload_values(
                self.stream(file, k)->Ok_0.0,
                self.budget(),
            ) is Ok ==> (r matches Ok(d) && values_view(d@) == payload_values(
                self.stream(file, k)->Ok_0.0,
                self.budget(),
            )->Ok_0.0)
    }

    /// Where the record's resident bytes and its chain, which ends (next page 0) after `k`
    /// links, hold the whole record `rec` after its header size varint, followed by any
    /// bytes, a read gives exactly the values of decoding `rec` in one piece, however the
    /// page boundaries fall in it: inside a serial type varint or inside a value.
    pub proof fn lemma_read_gives_contiguous_values(
        &self,
        file: Seq<u8>,
        rec: Seq<u8>,
        k: nat,
        extra: Seq<u8>,
        r: Result<Vec<SerialData>, Error>,
    )
        requires
            varint_decode(rec) matches Ok(h) && h.0 == self.record_header_size && h.1
                == self.header_size_len,
            parse_record(rec) is Ok,
            self.stream(file, k) is Ok,
            self.stream(file, k)->Ok_0.1 == 0,
            self.stream(file, k)->Ok_0.0 == rec.subrange(self.header_size_len as int, rec.len() as int)
                + extra,
            self.read_ok(file, r),
        ensures
            r matches Ok(d) && values_view(d@) == parse_record(rec)->Ok_0.0,
    {
        let y = rec.subrange(self.header_size_len as int, rec.len() as int);
        lemma_ended_chain_fits(file, self.page_size, self.raw_record_payload@, self.overflow_page, k);
        lemma_payload_is_record(rec);
        lemma_payload_values_extend(y, extra, self.budget());
    }

    /// Where the chain ends (next page 0) after `k` links while the bytes at hand still
    /// run out, a read fails with `MissingOverflowPage`.
    pub proof fn lemma_read_missing_page(&self, file: Seq<u8>, k: nat, r: Result<Vec<SerialData>, Error>)
        requires
            self.stream(file, k) is Ok,
            self.stream(file, k)->Ok_0.1 == 0,
            payload_values(self.stream(file, k)->Ok_0.0, self.budget()) matches Err(e) && needs_more(e),
            self.read_ok(file, r),
        ensures
            r == Err::<Vec<SerialData>, Error>(Error::MissingOverflowPage),
    {
        let res = self.raw_record_payload@;
        let ps = self.page_size;
        let first = self.overflow_page;
        lemma_ended_chain_fits(file, ps, res, first, k);
        assert(self.stream(file, k + 1) == Err::<(Seq<u8>, u32), Error>(Error::MissingOverflowPage));
        if r is Ok {
            let k2 = choose|k2: nat|
                #![trigger self.stream(file, k2)]
                k2 <= max_chain(file, ps) && self.stream(file, k2) is Ok && (payload_values(
                    self.stream(file, k2)->Ok_0.0,
                    self.budget(),
                ) matches Ok((vs, _)) && values_view(r->Ok_0@) == vs);
            lemma_overflow_reconstruction(file, ps, res, first, self.budget(), k, k2);
            if k2 > k {
                lemma_chain_prefix(file, ps, res, first, k + 1, k2);
            }
        } else {
            let e = r->Err_0;
            let k2 = choose|k2: nat|
                #![trigger self.stream(file, k2)]
                self.stream(file, k2) is Ok && match payload_values(self.stream(file, k2)->Ok_0.0, self.budget()) {
                    Err(e2) => (e2 == e && !needs_more(e)) || (needs_more(e2) && (self.stream(file, k2 + 1)
                        == Err::<(Seq<u8>, u32), Error>(e) || (e == Error::OverflowChainLoop && k2
                        >= max_chain(file, ps) && self.stream(file, k2)->Ok_0.1 != 0))),
                    Ok(_) => false,
                };
            if k2 > k {
                lemma_chain_prefix(file, ps, res, first, k + 1, k2);
            } else if k2 < k {
                lemma_chain_prefix(file, ps, res, first, k2 + 1, k);
                lemma_chain_prefix(file, ps, res, first, k2, k);
                let sj = self.stream(file, k2)->Ok_0.0;
                let sk = self.stream(file, k)->Ok_0.0;
                assert(sj + sk.subrange(sj.len() as int, sk.len() as int) =~= sk);
                lemma_payload_values_extend(sj, sk.subrange(sj.len() as int, sk.len() as int), self.budget());
            }
        }
    }

    /// Reads the whole record, following its overflow chain through `file`, the
    /// database file's bytes. The serial types and then the values are decoded one after
    /// another from a buffer that starts as the resident bytes. Where a varint or a value
    /// runs past the end of the buffer, the next overflow page is read: the buffer
    /// becomes the bytes not yet consumed followed by that page's payload, and the same
    /// read is tried again.
    pub fn read_record(&self, file: &[u8]) -> (r: Result<Vec<SerialData>, Error>)
        ensures
            self.read_ok(file@, r),
    {
        let budget: i64 = if self.record_header_size < self.header_size_len as i64 {
            0
        } else {
            self.record_header_size - self.header_size_len as i64
        };
        let max_pages: usize = if self.page_size == 0 {
            0
        } else {
            file.len() / self.page_size as usize
        };
        let ghost f = file@;
        let ghost b = budget as int;
        let mut buffer = slice_to_vec(self.raw_record_payload.as_slice());
        let mut local: usize = 0;
        let mut next = self.overflow_page;
        let mut k: usize = 0;
        let ghost mut s: Seq<u8> = buffer@;
        let ghost mut base: nat = 0;
        let mut types: Vec<SerialType> = Vec::new();
        proof {
            lemma_header_start(s, b);
        }
        let mut remaining: i128 = budget as i128;
        while remaining > 0
            invariant
                remaining == b - (base + local),
                f == file@,
                budget == self.budget(),
                b == budget,
                max_pages == max_chain(f, self.page_size),
                k <= max_pages,
                self.stream(f, k as nat) == Ok::<(Seq<u8>, u32), Error>((s, next)),
                base <= s.len(),
                buffer@ == s.subrange(base as int, s.len() as int),
                local <= buffer@.len(),
                header_progress(s, (base + local) as nat, b, types@),
            decreases max_pages - k, if remaining > 0 {
                remaining as int
            } else {
                0
            },
        {
            let ghost pos = (base + local) as nat;
            assert(buffer@.subrange(local as int, buffer@.len() as int) =~= s.subrange(pos as int, s.len() as int));
            match VarInt::from_be_bytes(slice_subrange(buffer.as_slice(), local, buffer.len())) {
                Ok(v) => {
                    proof {
                        lemma_varint_decode_len(s.subrange(pos as int, s.len() as int));
                    }
                    let ty = match SerialType::from_varint(v) {
                        Ok(ty) => ty,
                        Err(e) => {
                            proof {
                                lemma_header_stuck(s, pos, b, types@);
                                self.lemma_exit_error(f, k as nat, Err(e));
                            }
                            return Err(e);
                        },
                    };
                    proof {
                        lemma_header_step(s, pos, b, v, ty, types@);
                        assert(v.1 >= 1);
                    }
                    types.push(ty);
                    local = local + v.1 as usize;
                    remaining = remaining - v.1 as i128;
                },
                Err(e) => {
                    proof {
                        lemma_header_stuck(s, pos, b, types@);
                    }
                    if e == VarIntError::TooLong {
                        proof {
                            self.lemma_exit_error(f, k as nat, Err(Error::TooLong));
                        }
                        return Err(Error::TooLong);
                    }
                    let ghost old_s = s;
                    let (nb, after) = match self.refill(file, slice_subrange(buffer.as_slice(), local, buffer.len()), next, k, max_pages) {
                        Ok(x) => x,
                        Err(e2) => {
                            proof {
                                self.lemma_exit_ran_out(f, k as nat, e2);
                            }
                            return Err(e2);
                        },
                    };
                    proof {
                        let chunk = fetch_overflow(f, self.page_size, next)->Ok_0.0;
                        s = old_s + chunk;
                        base = pos;
                        assert(nb@ =~= s.subrange(base as int, s.len() as int));
                        lemma_header_more_bytes(old_s, chunk, pos, b, types@);
                    }
                    buffer = nb;
                    local = 0;
                    next = after;
                    k = k + 1;
                },
            }
        }
        let ghost stop = (base + local) as nat;
        let mut values: Vec<SerialData> = Vec::new();
        proof {
            lemma_body_start(s, stop, b, types@);
        }
        let mut j: usize = 0;
        while j < types.len()
            invariant
                f == file@,
                budget == self.budget(),
                b == budget,
                max_pages == max_chain(f, self.page_size),
                k <= max_pages,
                self.stream(f, k as nat) == Ok::<(Seq<u8>, u32), Error>((s, next)),
                base <= s.len(),
                buffer@ == s.subrange(base as int, s.len() as int),
                local <= buffer@.len(),
                j <= types@.len(),
                body_progress(s, (base + local) as nat, b, types@, j as nat, values@),
            decreases max_pages - k, types@.len() - j,
        {
            let ghost pos = (base + local) as nat;
            assert(buffer@.subrange(local as int, buffer@.len() as int) =~= s.subrange(pos as int, s.len() as int));
            match types[j].serial_type_to_serial_data(slice_subrange(buffer.as_slice(), local, buffer.len())) {
                Ok((d, n)) => {
                    proof {
                        lemma_body_step(s, pos, b, types@, j as nat, values@, d);
                    }
                    values.push(d);
                    local = local + n;
                    j = j + 1;
                },
                Err(SerialDataError::InvalidText) => {
                    proof {
                        lemma_body_stuck(s, pos, b, types@, j as nat, values@);
                        self.lemma_exit_error(f, k as nat, Err(Error::InvalidText));
                    }
                    return Err(Error::InvalidText);
                },
                Err(SerialDataError::OutOfBounds) => {
                    proof {
                        lemma_body_stuck(s, pos, b, types@, j as nat, values@);
                    }
                    let ghost old_s = s;
                    let (nb, after) = match self.refill(file, slice_subrange(buffer.as_slice(), local, buffer.len()), next, k, max_pages) {
                        Ok(x) => x,
                        Err(e2) => {
                            proof {
                                self.lemma_exit_ran_out(f, k as nat, e2);
                            }
                            return Err(e2);
                        },
                    };
                    proof {
                        let chunk = fetch_overflow(f, self.page_size, next)->Ok_0.0;
                        s = old_s + chunk;
                        base = pos;
                        assert(nb@ =~= s.subrange(base as int, s.len() as int));
                        lemma_body_more_bytes(old_s, chunk, pos, b, types@, j as nat, values@);
                    }
                    buffer = nb;
                    local = 0;
                    next = after;
                    k = k + 1;
                },
            }
        }
        proof {
            lemma_body_done(s, (base + local) as nat, b, types@, values@);
            self.lemma_exit_values(f, k as nat, Ok(values));
        }
        Ok(values)
    }

    /// Reads the next overflow page `next`: the bytes `tail` followed by its payload,
    /// and the page after it.
    fn refill(&self, file: &[u8], tail: &[u8], next: u32, k: usize, max_pages: usize) -> (r: Result<
        (Vec<u8>, u32),
        Error,
    >)
        requires
            max_pages == max_chain(file@, self.page_size),
            k <= max_pages,
            self.stream(file@, k as nat) matches Ok((_, n)) && n == next,
        ensures
            match r {
                Ok((nb, after)) => k < max_pages && next != 0 && (fetch_overflow(file@, self.page_size, next)
                    matches Ok((chunk, a)) && nb@ == tail@ + chunk && after == a && self.stream(
                    file@,
                    (k + 1) as nat,
                ) == Ok::<(Seq<u8>, u32), Error>((self.stream(file@, k as nat)->Ok_0.0 + chunk, a))),
                Err(e) => self.stream(file@, (k + 1) as nat) == Err::<(Seq<u8>, u32), Error>(e) || (e
                    == Error::OverflowChainLoop && k >= max_pages && next != 0),
            },
    {
        if next == 0 {
            return Err(Error::MissingOverflowPage);
        }
        if k >= max_pages {
            return Err(Error::OverflowChainLoop);
        }
        let (mut chunk, after) = match fetch_overflow_page(file, self.page_size, next) {
            Ok(x) => x,
            Err(e) => return Err(e),
        };
        let mut nb = slice_to_vec(tail);
        nb.append(&mut chunk);
        Ok((nb, after))
    }

    proof fn lemma_no_whole_payload(&self, f: Seq<u8>, k: nat)
        requires
            self.stream(f, k) is Ok,
            payload_values(self.stream(f, k)->Ok_0.0, self.budget()) matches Err(e) && (!needs_more(e)
                || self.stream(f, k + 1) is Err || k >= max_chain(f, self.page_size)),
        ensures
            forall|j: nat|
                #![trigger self.stream(f, j)]
                !(self.stream(f, j) is Ok && j <= max_chain(f, self.page_size) && payload_values(
                    self.stream(f, j)->Ok_0.0,
                    self.budget(),
                ) is Ok),
    {
        assert forall|j: nat|
            #![trigger self.stream(f, j)]
            !(self.stream(f, j) is Ok && j <= max_chain(f, self.page_size) && payload_values(
                self.stream(f, j)->Ok_0.0,
                self.budget(),
            ) is Ok) by {
            if self.stream(f, j) is Ok && j <= max_chain(f, self.page_size) && payload_values(
                self.stream(f, j)->Ok_0.0,
                self.budget(),
            ) is Ok {
                lemma_overflow_reconstruction(
                    f,
                    self.page_size,
                    self.raw_record_payload@,
                    self.overflow_page,
                    self.budget(),
                    k,
                    j,
                );
                lemma_chain_prefix(
                    f,
                    self.page_size,
                    self.raw_record_payload@,
                    self.overflow_page,
                    k + 1,
                    j,
                );
            }
        }
    }

    proof fn lemma_exit_values(&self, f: Seq<u8>, k: nat, r: Result<Vec<SerialData>, Error>)
        requires
            k <= max_chain(f, self.page_size),
            self.stream(f, k) is Ok,
            r matches Ok(d) && payload_values(self.stream(f, k)->Ok_0.0, self.budget()) matches Ok(
                (vs, _),
            ) && values_view(d@) == vs,
        ensures
            self.read_ok(f, r),
    {
        let d = r->Ok_0;
        assert forall|j: nat|
            #![trigger self.stream(f, j)]
            self.stream(f, j) is Ok && j <= max_chain(f, self.page_size) && payload_values(
                self.stream(f, j)->Ok_0.0,
                self.budget(),
            ) is Ok implies values_view(d@) == payload_values(
                self.stream(f, j)->Ok_0.0,
                self.budget(),
            )->Ok_0.0 by {
            lemma_overflow_reconstruction(
                f,
                self.page_size,
                self.raw_record_payload@,
                self.overflow_page,
                self.budget(),
                k,
                j,
            );
        }
    }

    proof fn lemma_exit_error(&self, f: Seq<u8>, k: nat, r: Result<Vec<SerialData>, Error>)
        requires
            self.stream(f, k) is Ok,
            r matches Err(e) && payload_values(self.stream(f, k)->Ok_0.0, self.budget()) == Err::<
                (Seq<SerialValue>, nat),
                Error,
            >(e) && !needs_more(e),
        ensures
            self.read_ok(f, r),
    {
        self.lemma_no_whole_payload(f, k);
    }

    proof fn lemma_exit_ran_out(&self, f: Seq<u8>, k: nat, e: Error)
        requires
            self.stream(f, k) is Ok,
            payload_values(self.stream(f, k)->Ok_0.0, self.budget()) matches Err(e2) && needs_more(e2),
            self.stream(f, k + 1) == Err::<(Seq<u8>, u32), Error>(e) || (e == Error::OverflowChainLoop
                && k >= max_chain(f, self.page_size) && self.stream(f, k)->Ok_0.1 != 0),
        ensures
            self.read_ok(f, Err(e)),
    {
        self.lemma_no_whole_payload(f, k);
    }
}

impl ReadableRecord {
    /// A copy of the record.
    pub fn copy_record(&self) -> (r: ReadableRecord)
        ensures
            r@ == self@,
    {
        match self {
            ReadableRecord::Fit(rec) => ReadableRecord::Fit(rec.copy_record()),
            ReadableRecord::Lazy(o) => ReadableRecord::Lazy(
                OverflowRecord {
                    record_header_size: o.record_header_size,
                    header_size_len: o.header_size_len,
                    raw_record_payload: slice_to_vec(o.raw_record_payload.as_slice()),
                    overflow_page: o.overflow_page,
                    page_size: o.page_size,
                },
            ),
        }
    }

    /// Whether `r` is what reading this record from `file` owes.
    #[verifier::opaque]
    pub open spec fn read_ok(&self, file: Seq<u8>, r: Result<Vec<SerialData>, Error>) -> bool {
        match self {
            ReadableRecord::Fit(rec) => r matches Ok(d) && values_view(d@) == rec@,
            ReadableRecord::Lazy(o) => o.read_ok(file, r),
        }
    }

    /// Two reads of records that hold the same thing, from the same file bytes, agree:
    /// where one gives values, the other gives the same values.
    pub proof fn lemma_read_deterministic(
        a: ReadableRecord,
        b: ReadableRecord,
        file: Seq<u8>,
        ra: Result<Vec<SerialData>, Error>,
        rb: Result<Vec<SerialData>, Error>,
    )
        requires
            a@ == b@,
            a.read_ok(file, ra),
            b.read_ok(file, rb),
        ensures
            ra is Ok ==> rb is Ok && values_view(ra->Ok_0@) == values_view(rb->Ok_0@),
            rb is Ok ==> ra is Ok,
    {
        reveal(ReadableRecord::read_ok);
        match (a, b) {
            (ReadableRecord::Lazy(x), ReadableRecord::Lazy(y)) => {
                assert(x.raw_record_payload@ == y.raw_record_payload@);
                assert forall|k: nat| #[trigger] x.stream(file, k) == y.stream(file, k) by {}
                if ra is Ok {
                    let k = choose|k: nat|
                        #![trigger x.stream(file, k)]
                        k <= max_chain(file, x.page_size) && x.stream(file, k) is Ok && (payload_values(
                            x.stream(file, k)->Ok_0.0,
                            x.budget(),
                        ) matches Ok((vs, _)) && values_view(ra->Ok_0@) == vs);
                    assert(y.stream(file, k) is Ok);
                }
                if rb is Ok {
                    let k = choose|k: nat|
                        #![trigger y.stream(file, k)]
                        k <= max_chain(file, y.page_size) && y.stream(file, k) is Ok && (payload_values(
                            y.stream(file, k)->Ok_0.0,
                            y.budget(),
                        ) matches Ok((vs, _)) && values_view(rb->Ok_0@) == vs);
                    assert(x.stream(file, k) is Ok);
                }
            },
            _ => {},
        }
    }

    /// The record's values; a spilled record is read through `file`, the database
    /// file's bytes.
    pub fn read_record(&self, file: &[u8]) -> (r: Result<Vec<SerialData>, Error>)
        ensures
            self.read_ok(file@, r),
    {
        reveal(ReadableRecord::read_ok);
        match self {
            ReadableRecord::Fit(rec) => Ok(rec.values_cloned()),
            ReadableRecord::Lazy(o) => o.read_record(file),
        }
    }
}


pub open spec fn prepend_types(p: Seq<SerialType>, r: Result<(Seq<SerialType>, nat), Error>) -> Result<
    (Seq<SerialType>, nat),
    Error,
> {
    match r {
        Ok((ts, stop)) => Ok((p + ts, stop)),
        Err(e) => Err(e),
    }
}

pub open spec fn prepend_values(p: Seq<SerialValue>, r: Result<(Seq<SerialValue>, nat), Error>) -> Result<
    (Seq<SerialValue>, nat),
    Error,
> {
    match r {
        Ok((vs, stop)) => Ok((p + vs, stop)),
        Err(e) => Err(e),
    }
}

/// Decoding any extension of `s` reads the serial types `types` up to offset `pos`, and
/// goes on from there.
#[verifier::opaque]
pub open spec fn header_progress(s: Seq<u8>, pos: nat, b: int, types: Seq<SerialType>) -> bool {
    forall|t: Seq<u8>| #[trigger]
        header_types(s + t, 0, b) == prepend_types(types, header_types(s + t, pos, b))
}

/// Decoding any extension of `s` reads the header, then the values `values` of the first
/// `j` types up to offset `pos`, and goes on from there.
#[verifier::opaque]
pub open spec fn body_progress(
    s: Seq<u8>,
    pos: nat,
    b: int,
    types: Seq<SerialType>,
    j: nat,
    values: Seq<SerialData>,
) -> bool {
    forall|t: Seq<u8>| #[trigger]
        payload_values(s + t, b) == prepend_values(values_view(values), body_values(types, j, s + t, pos))
}

proof fn lemma_header_start(s: Seq<u8>, b: int)
    ensures
        header_progress(s, 0, b, seq![]),
{
    reveal(header_progress);
    assert forall|t: Seq<u8>| #[trigger]
        header_types(s + t, 0, b) == prepend_types(seq![], header_types(s + t, 0, b)) by {
        if let Ok((ts, stop)) = header_types(s + t, 0, b) {
            assert(Seq::<SerialType>::empty() + ts =~= ts);
        }
    }
}

proof fn lemma_body_start(s: Seq<u8>, stop: nat, b: int, types: Seq<SerialType>)
    requires
        header_progress(s, stop, b, types),
        stop >= b,
    ensures
        body_progress(s, stop, b, types, 0, seq![]),
{
    reveal(header_progress);
    reveal(body_progress);
    assert forall|t: Seq<u8>| #[trigger]
        payload_values(s + t, b) == prepend_values(values_view(seq![]), body_values(types, 0, s + t, stop)) by {
        assert(header_types(s + t, 0, b) == prepend_types(types, header_types(s + t, stop, b)));
        assert(types + seq![] =~= types);
        assert(values_view(Seq::<SerialData>::empty()) =~= seq![]);
        if let Ok((vs, st)) = body_values(types, 0, s + t, stop) {
            assert(Seq::<SerialValue>::empty() + vs =~= vs);
        }
    }
}

proof fn lemma_body_done(s: Seq<u8>, pos: nat, b: int, types: Seq<SerialType>, values: Seq<SerialData>)
    requires
        body_progress(s, pos, b, types, types.len(), values),
    ensures
        payload_values(s, b) == Ok::<(Seq<SerialValue>, nat), Error>((values_view(values), pos)),
{
    reveal(body_progress);
    assert(s + seq![] =~= s);
    assert(payload_values(s + seq![], b) == prepend_values(values_view(values), body_values(types, types.len(), s + seq![], pos)));
    assert(values_view(values) + seq![] =~= values_view(values));
}

/// What holds of the bytes at hand whatever follows them holds after more bytes too.
proof fn lemma_header_more_bytes(s: Seq<u8>, chunk: Seq<u8>, pos: nat, b: int, types: Seq<SerialType>)
    requires
        header_progress(s, pos, b, types),
    ensures
        header_progress(s + chunk, pos, b, types),
{
    reveal(header_progress);
    assert forall|t: Seq<u8>| #[trigger]
        header_types((s + chunk) + t, 0, b) == prepend_types(types, header_types((s + chunk) + t, pos, b)) by {
        assert((s + chunk) + t =~= s + (chunk + t));
        assert(header_types(s + (chunk + t), 0, b) == prepend_types(types, header_types(s + (chunk + t), pos, b)));
    }
}

proof fn lemma_body_more_bytes(
    s: Seq<u8>,
    chunk: Seq<u8>,
    pos: nat,
    b: int,
    types: Seq<SerialType>,
    j: nat,
    values: Seq<SerialData>,
)
    requires
        body_progress(s, pos, b, types, j, values),
    ensures
        body_progress(s + chunk, pos, b, types, j, values),
{
    reveal(body_progress);
    assert forall|t: Seq<u8>| #[trigger]
        payload_values((s + chunk) + t, b) == prepend_values(values_view(values), body_values(types, j, (s + chunk) + t, pos)) by {
        assert((s + chunk) + t =~= s + (chunk + t));
        assert(payload_values(s + (chunk + t), b) == prepend_values(values_view(values), body_values(types, j, s + (chunk + t), pos)));
    }
}

/// Reading one more serial type, whose varint the bytes at hand hold, reads it the same
/// way whatever bytes follow.
proof fn lemma_header_step(s: Seq<u8>, pos: nat, b: int, v: VarInt, ty: SerialType, types: Seq<SerialType>)
    requires
        pos < b,
        pos <= s.len(),
        varint_decode(s.subrange(pos as int, s.len() as int)) == Ok::<VarInt, VarIntError>(v),
        serial_type_of(v.0) == Some(ty),
        header_progress(s, pos, b, types),
    ensures
        header_progress(s, pos + v.1 as nat, b, types.push(ty)),
{
    reveal(header_progress);
    let x = s.subrange(pos as int, s.len() as int);
    lemma_varint_decode_len(x);
    assert forall|t: Seq<u8>| #[trigger]
        header_types(s + t, 0, b) == prepend_types(types.push(ty), header_types(s + t, pos + v.1 as nat, b)) by {
        assert((s + t).subrange(pos as int, (s + t).len() as int) =~= x + t);
        lemma_varint_decode_extend(x, t);
        assert(header_types(s + t, 0, b) == prepend_types(types, header_types(s + t, pos, b)));
        if let Ok((ts, stop)) = header_types(s + t, pos + v.1 as nat, b) {
            assert(types + (seq![ty] + ts) =~= types.push(ty) + ts);
        }
    }
}

/// Where the next serial type cannot be read from the bytes at hand, decoding them
/// fails the same way.
proof fn lemma_header_stuck(s: Seq<u8>, pos: nat, b: int, types: Seq<SerialType>)
    requires
        pos < b,
        pos <= s.len(),
        header_progress(s, pos, b, types),
    ensures
        varint_decode(s.subrange(pos as int, s.len() as int)) matches Err(e) ==> payload_values(s, b)
            == Err::<(Seq<SerialValue>, nat), Error>(varint_error(e)),
        varint_decode(s.subrange(pos as int, s.len() as int)) matches Ok(v) ==> (serial_type_of(v.0) is None
            ==> payload_values(s, b) == Err::<(Seq<SerialValue>, nat), Error>(Error::InvalidSerialType)),
{
    reveal(header_progress);
    assert(s + seq![] =~= s);
    assert(header_types(s + seq![], 0, b) == prepend_types(types, header_types(s + seq![], pos, b)));
    if pos >= s.len() {
        assert(s.subrange(pos as int, s.len() as int) =~= Seq::<u8>::empty());
    }
}

/// Reading one more value, whose bytes are at hand, reads it the same way whatever
/// bytes follow.
proof fn lemma_body_step(s: Seq<u8>, pos: nat, b: int, types: Seq<SerialType>, j: nat, values: Seq<SerialData>, d: SerialData)
    requires
        j < types.len(),
        pos <= s.len(),
        decode_value(types[j as int], s.subrange(pos as int, s.len() as int)) matches Ok((v, n)) && v == d@,
        body_progress(s, pos, b, types, j, values),
    ensures
        body_progress(
            s,
            pos + decode_value(types[j as int], s.subrange(pos as int, s.len() as int))->Ok_0.1,
            b,
            types,
            j + 1,
            values.push(d),
        ),
{
    reveal(body_progress);
    let x = s.subrange(pos as int, s.len() as int);
    let n = decode_value(types[j as int], x)->Ok_0.1;
    assert(values_view(values.push(d)) =~= values_view(values).push(d@));
    assert forall|t: Seq<u8>| #[trigger]
        payload_values(s + t, b) == prepend_values(values_view(values.push(d)), body_values(types, j + 1, s + t, pos + n)) by {
        assert((s + t).subrange(pos as int, (s + t).len() as int) =~= x + t);
        lemma_decode_value_extend(types[j as int], x, t);
        assert(payload_values(s + t, b) == prepend_values(values_view(values), body_values(types, j, s + t, pos)));
        if let Ok((vs, stop)) = body_values(types, j + 1, s + t, pos + n) {
            assert(values_view(values) + (seq![d@] + vs) =~= values_view(values).push(d@) + vs);
        }
    }
}

/// Where the next value cannot be read from the bytes at hand, decoding them fails the
/// same way.
proof fn lemma_body_stuck(s: Seq<u8>, pos: nat, b: int, types: Seq<SerialType>, j: nat, values: Seq<SerialData>)
    requires
        j < types.len(),
        pos <= s.len(),
        body_progress(s, pos, b, types, j, values),
    ensures
        decode_value(types[j as int], s.subrange(pos as int, s.len() as int)) matches Err(e)
            ==> payload_values(s, b) == Err::<(Seq<SerialValue>, nat), Error>(data_error(e)),
{
    reveal(body_progress);
    assert(s + seq![] =~= s);
    assert(payload_values(s + seq![], b) == prepend_values(values_view(values), body_values(types, j, s + seq![], pos)));
}


proof fn lemma_chain_step(file: Seq<u8>, page_size: u32, resident: Seq<u8>, first: u32, j: nat)
    requires
        chain(file, page_size, resident, first, j + 1) is Ok,
    ensures
        chain(file, page_size, resident, first, j) is Ok,
        chain(file, page_size, resident, first, j)->Ok_0.1 != 0,
        page_size >= 4,
        page_offset(chain(file, page_size, resident, first, j)->Ok_0.1, page_size) + page_size <= file.len(),
        chain(file, page_size, resident, first, j + 1)->Ok_0.1 == be_u32_at(
            file,
            page_offset(chain(file, page_size, resident, first, j)->Ok_0.1, page_size),
        ),
{
}

proof fn lemma_chain_shift(
    file: Seq<u8>,
    page_size: u32,
    resident: Seq<u8>,
    first: u32,
    a: nat,
    b: nat,
    m: nat,
    k: nat,
)
    requires
        a < b,
        b + m <= k,
        chain(file, page_size, resident, first, k) is Ok,
        chain(file, page_size, resident, first, a)->Ok_0.1 == chain(file, page_size, resident, first, b)->Ok_0.1,
    ensures
        chain(file, page_size, resident, first, a + m)->Ok_0.1 == chain(file, page_size, resident, first, b + m)->Ok_0.1,
    decreases m,
{
    if m > 0 {
        lemma_chain_shift(file, page_size, resident, first, a, b, (m - 1) as nat, k);
        lemma_chain_prefix(file, page_size, resident, first, a + m, k);
        lemma_chain_prefix(file, page_size, resident, first, b + m, k);
        lemma_chain_step(file, page_size, resident, first, (a + m - 1) as nat);
        lemma_chain_step(file, page_size, resident, first, (b + m - 1) as nat);
    }
}

/// A chain that ends, with next page 0, after `k` links visits no page twice, so it
/// has no more links than the file has pages.
pub proof fn lemma_ended_chain_fits(file: Seq<u8>, page_size: u32, resident: Seq<u8>, first: u32, k: nat)
    requires
        chain(file, page_size, resident, first, k) is Ok,
        chain(file, page_size, resident, first, k)->Ok_0.1 == 0,
    ensures
        k <= max_chain(file, page_size),
{
    if k > 0 {
        let pages = Seq::new(k, |j: int| chain(file, page_size, resident, first, j as nat)->Ok_0.1 as int);
        lemma_chain_step(file, page_size, resident, first, (k - 1) as nat);
        let n: int = (file.len() as int) / (page_size as int);
        assert forall|j: int| 0 <= j < k implies 1 <= #[trigger] pages[j] <= n by {
            lemma_chain_prefix(file, page_size, resident, first, (j + 1) as nat, k);
            lemma_chain_step(file, page_size, resident, first, j as nat);
            let p = chain(file, page_size, resident, first, j as nat)->Ok_0.1;
            assert(p <= (file.len() as int) / (page_size as int)) by (nonlinear_arith)
                requires
                    (p - 1) * page_size + page_size <= file.len(),
                    page_size > 0,
            ;
        }
        assert forall|a: int, b: int| 0 <= a < k && 0 <= b < k && a != b implies pages[a] != pages[b] by {
            let (x, y) = if a < b {
                (a, b)
            } else {
                (b, a)
            };
            if pages[x] == pages[y] {
                let m = (k - y) as nat;
                lemma_chain_shift(file, page_size, resident, first, x as nat, y as nat, m, k);
                lemma_chain_prefix(file, page_size, resident, first, (x + m + 1) as nat, k);
                lemma_chain_step(file, page_size, resident, first, (x + m) as nat);
            }
        }
        assert(pages.no_duplicates());
        pages.unique_seq_to_set();
        vstd::set_lib::lemma_int_range(1, n + 1);
        assert(pages.to_set().subset_of(vstd::set_lib::set_int_range(1, n + 1))) by {
            assert forall|p: int| pages.to_set().contains(p) implies vstd::set_lib::set_int_range(1, n + 1).contains(p) by {
                let j = choose|j: int| 0 <= j < pages.len() && pages[j] == p;
            }
        }
        vstd::set_lib::lemma_len_subset(pages.to_set(), vstd::set_lib::set_int_range(1, n + 1));
    }
}

} // verus!
