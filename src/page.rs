//! B-tree pages: the page header and the cell pointer array.
use crate::error::Error;
use vstd::prelude::*;

verus! {

/// The four kinds of b-tree page.
#[derive(Debug, Clone, Copy, PartialEq, Eq, Structural)]
pub enum PageType {
    InteriorIndex,
    InteriorTable,
    LeafIndex,
    LeafTable,
}

pub open spec fn page_type_of(val: u8) -> Option<PageType> {
    if val == 2 {
        Some(PageType::InteriorIndex)
    } else if val == 5 {
        Some(PageType::InteriorTable)
    } else if val == 10 {
        Some(PageType::LeafIndex)
    } else if val == 13 {
        Some(PageType::LeafTable)
    } else {
        None
    }
}

impl PageType {
    /// The page type that a header's first byte names.
    pub fn from_u8(val: u8) -> (r: Option<PageType>)
        ensures
            r == page_type_of(val),
    {
        match val {
            2 => Some(PageType::InteriorIndex),
            5 => Some(PageType::InteriorTable),
            10 => Some(PageType::LeafIndex),
            13 => Some(PageType::LeafTable),
            _ => None,
        }
    }

    pub open spec fn spec_is_interior(self) -> bool {
        self == PageType::InteriorIndex || self == PageType::InteriorTable
    }

    /// Whether pages of this type point to child pages.
    #[verifier::when_used_as_spec(spec_is_interior)]
    pub fn is_interior(self) -> (r: bool)
        ensures
            r == self.spec_is_interior(),
    {
        match self {
            PageType::InteriorIndex | PageType::InteriorTable => true,
            _ => false,
        }
    }
}

/// Length of the page header: twelve bytes on interior pages, eight on leaves.
pub open spec fn header_len(t: PageType) -> nat {
    if t.spec_is_interior() {
        12
    } else {
        8
    }
}

/// The big-endian 16-bit integer at offset `i` of `s`.
pub open spec fn be_u16_at(s: Seq<u8>, i: int) -> u16 {
    (s[i] as nat * 256 + s[i + 1] as nat) as u16
}

/// The big-endian 32-bit integer at offset `i` of `s`.
pub open spec fn be_u32_at(s: Seq<u8>, i: int) -> u32 {
    (s[i] as nat * 0x100_0000 + s[i + 1] as nat * 0x1_0000 + s[i + 2] as nat * 0x100
        + s[i + 3] as nat) as u32
}

/// Reads the big-endian 16-bit integer at offset `i` of `s`.
pub fn read_u16(s: &[u8], i: usize) -> (r: u16)
    requires
        i + 2 <= s@.len(),
    ensures
        r == be_u16_at(s@, i as int),
{
    s[i] as u16 * 256 + s[i + 1] as u16
}

/// Reads the big-endian 32-bit integer at offset `i` of `s`.
pub fn read_u32(s: &[u8], i: usize) -> (r: u32)
    requires
        i + 4 <= s@.len(),
    ensures
        r == be_u32_at(s@, i as int),
{
    s[i] as u32 * 0x100_0000 + s[i + 1] as u32 * 0x1_0000 + s[i + 2] as u32 * 0x100
        + s[i + 3] as u32
}

/// The fields that leaf and interior headers share.
#[derive(Debug, Clone, Copy, PartialEq, Eq, Structural)]
pub struct CommonPageHeader {
    pub start_of_first_free_block: u16,
    pub num_cells: u16,
    pub start_of_cell_content_area: u16,
    pub num_fragmented_free_bytes: u8,
}

#[derive(Debug, Clone, Copy, PartialEq, Eq, Structural)]
pub struct LeafPageHeader {
    pub common_header: CommonPageHeader,
}

#[derive(Debug, Clone, Copy, PartialEq, Eq, Structural)]
pub struct InteriorPageHeader {
    pub common_header: CommonPageHeader,
    pub right_most_pointer: u32,
}

#[derive(Debug, Clone, Copy, PartialEq, Eq, Structural)]
pub enum PageHeader {
    Leaf(LeafPageHeader),
    Interior(InteriorPageHeader),
}

/// The common header fields of the page header at offset `off` of `s`.
pub open spec fn common_header_at(s: Seq<u8>, off: int) -> CommonPageHeader {
    CommonPageHeader {
        start_of_first_free_block: be_u16_at(s, off + 1),
        num_cells: be_u16_at(s, off + 3),
        start_of_cell_content_area: be_u16_at(s, off + 5),
        num_fragmented_free_bytes: s[off + 7],
    }
}

/// The header of type `t` at offset `off` of `s`.
pub open spec fn page_header_at(s: Seq<u8>, off: int, t: PageType) -> PageHeader {
    if t.spec_is_interior() {
        PageHeader::Interior(
            InteriorPageHeader {
                common_header: common_header_at(s, off),
                right_most_pointer: be_u32_at(s, off + 8),
            },
        )
    } else {
        PageHeader::Leaf(LeafPageHeader { common_header: common_header_at(s, off) })
    }
}

impl CommonPageHeader {
    fn from_buffer(page_buffer: &Vec<u8>, offset: usize) -> (r: CommonPageHeader)
        requires
            offset + 8 <= page_buffer@.len(),
        ensures
            r == common_header_at(page_buffer@, offset as int),
    {
        let s = page_buffer.as_slice();
        assert(s@.len() == s.len());
        CommonPageHeader {
            start_of_first_free_block: read_u16(s, offset + 1),
            num_cells: read_u16(s, offset + 3),
            start_of_cell_content_area: read_u16(s, offset + 5),
            num_fragmented_free_bytes: page_buffer[offset + 7],
        }
    }
}

impl PageHeader {
    pub open spec fn spec_common(self) -> CommonPageHeader {
        match self {
            PageHeader::Leaf(h) => h.common_header,
            PageHeader::Interior(h) => h.common_header,
        }
    }

    /// The fields that leaf and interior headers share.
    #[verifier::when_used_as_spec(spec_common)]
    pub fn common(self) -> (r: CommonPageHeader)
        ensures
            r == self.spec_common(),
    {
        match self {
            PageHeader::Leaf(h) => h.common_header,
            PageHeader::Interior(h) => h.common_header,
        }
    }
}

/// A b-tree page: its parsed header and its raw bytes.
#[derive(Debug, Clone)]
pub struct BtreePage {
    pub page_type: PageType,
    pub page_header: PageHeader,
    pub raw_byte_buffer: Vec<u8>,
    pub header_offset: usize,
    pub reserved_bytes_per_page: u8,
}

/// What parsing a page buffer with its header at `offset` gives: the type, or why not.
pub open spec fn parse_page_type(buf: Seq<u8>, offset: int) -> Result<PageType, Error> {
    if offset >= buf.len() {
        Err(Error::OutOfBounds)
    } else {
        match page_type_of(buf[offset]) {
            None => Err(Error::InvalidPageType),
            Some(t) => if offset + header_len(t) > buf.len() {
                Err(Error::OutOfBounds)
            } else {
                Ok(t)
            },
        }
    }
}

impl BtreePage {
    /// The page's bytes, as they were read.
    pub open spec fn raw(&self) -> Seq<u8> {
        self.raw_byte_buffer@
    }

    /// Where in the page its header starts: 100 on the first page of the file, else 0.
    pub open spec fn spec_header_offset(&self) -> nat {
        self.header_offset as nat
    }

    /// The page is what `new` makes of its bytes.
    pub open spec fn wf(&self) -> bool {
        &&& parse_page_type(self.raw(), self.spec_header_offset() as int) == Ok::<PageType, Error>(
            self.page_type,
        )
        &&& self.page_header == page_header_at(
            self.raw(),
            self.spec_header_offset() as int,
            self.page_type,
        )
    }

    /// Parses the page in `page_byte_buffer`, whose header starts at `offset`.
    pub fn new(page_byte_buffer: Vec<u8>, offset: usize, reserved_bytes_per_page: u8) -> (r:
        Result<BtreePage, Error>)
        ensures
            match parse_page_type(page_byte_buffer@, offset as int) {
                Ok(t) => r matches Ok(p) && p.wf() && p.page_type == t && p.raw()
                    == page_byte_buffer@ && p.spec_header_offset() == offset
                    && p.reserved_bytes_per_page == reserved_bytes_per_page,
                Err(e) => r == Err::<BtreePage, Error>(e),
            },
    {
        if offset >= page_byte_buffer.len() {
            return Err(Error::OutOfBounds);
        }
        let page_type = match PageType::from_u8(page_byte_buffer[offset]) {
            Some(t) => t,
            None => return Err(Error::InvalidPageType),
        };
        let hlen: usize = if page_type.is_interior() {
            12
        } else {
            8
        };
        if hlen > page_byte_buffer.len() - offset {
            return Err(Error::OutOfBounds);
        }
        let common_header = CommonPageHeader::from_buffer(&page_byte_buffer, offset);
        let page_header = if page_type.is_interior() {
            PageHeader::Interior(
                InteriorPageHeader {
                    common_header,
                    right_most_pointer: read_u32(page_byte_buffer.as_slice(), offset + 8),
                },
            )
        } else {
            PageHeader::Leaf(LeafPageHeader { common_header })
        };
        Ok(BtreePage {
            page_type,
            page_header,
            raw_byte_buffer: page_byte_buffer,
            header_offset: offset,
            reserved_bytes_per_page,
        })
    }

    /// The page's bytes.
    pub fn get_raw_bytes_buffer(&self) -> (r: &Vec<u8>)
        ensures
            r@ == self.raw(),
    {
        &self.raw_byte_buffer
    }

    /// Where in the page its header starts.
    pub fn header_offset(&self) -> (r: usize)
        ensures
            r == self.spec_header_offset(),
    {
        self.header_offset
    }

    /// The number of cells on the page.
    pub fn num_cells(&self) -> (r: u16)
        ensures
            r == self.page_header.spec_common().num_cells,
    {
        self.page_header.common().num_cells
    }
}

/// Offset in the page of the `i`-th entry of the cell pointer array of a page of type
/// `t` whose header starts at `off`.
pub open spec fn cell_pointer_pos(off: int, t: PageType, i: int) -> int {
    off + header_len(t) + 2 * i
}

/// The offset of the `i`-th cell of the page, as its cell pointer array gives it.
pub open spec fn cell_pointer_spec(p: &BtreePage, i: int) -> Result<u16, Error> {
    let pos = cell_pointer_pos(p.spec_header_offset() as int, p.page_type, i);
    if pos + 2 > p.raw().len() {
        Err(Error::OutOfBounds)
    } else {
        Ok(be_u16_at(p.raw(), pos))
    }
}

impl BtreePage {
    /// Reads the `i`-th entry of the cell pointer array.
    pub fn cell_pointer(&self, i: u16) -> (r: Result<u16, Error>)
        ensures
            r == cell_pointer_spec(self, i as int),
    {
        let hlen: usize = if self.page_type.is_interior() {
            12
        } else {
            8
        };
        let len = self.raw_byte_buffer.len();
        if self.header_offset > len || hlen > len - self.header_offset || 2 * (i as usize) + 2
            > len - self.header_offset - hlen {
            return Err(Error::OutOfBounds);
        }
        Ok(read_u16(self.raw_byte_buffer.as_slice(), self.header_offset + hlen + 2 * (i as usize)))
    }
}

} // verus!
