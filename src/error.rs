//! The errors of the decoder.
use crate::varint::VarIntError;
use vstd::prelude::*;

verus! {

/// Why a decode failed.
#[derive(Debug, Clone, Copy, PartialEq, Eq, Structural)]
pub enum Error {
    /// A varint was asked of no bytes.
    Empty,
    /// The bytes ended inside a varint.
    Incomplete,
    /// A varint would need a tenth byte. The ninth byte of a varint always ends it, so
    /// decoding never gives this.
    TooLong,
    /// A record header holds a serial type code that names no type.
    InvalidSerialType,
    /// A value or a fixed field runs past the bytes that are there.
    OutOfBounds,
    /// A text value is not valid UTF-8.
    InvalidText,
    /// A page's first header byte is none of 2, 5, 10 and 13.
    InvalidPageType,
    /// An overflow chain ended while the record still needed bytes.
    MissingOverflowPage,
    /// A page lies, wholly or in part, past the end of the file.
    ShortRead,
    /// The page size and the reserved bytes leave no room for a cell.
    InvalidPageSize,
    /// An overflow chain has more links than the file has pages: it loops.
    OverflowChainLoop,
    /// A b-tree is deeper than the file has pages: its child pointers loop.
    TreeTooDeep,
    /// A row of the schema table does not have the shape of one.
    InvalidSchemaRecord,
    /// The file is shorter than its header, or the header names an unknown version,
    /// schema format or text encoding.
    InvalidFileHeader,
    /// The schema table has no object of the name asked for.
    ObjectNotFound,
}

pub open spec fn varint_error(e: VarIntError) -> Error {
    match e {
        VarIntError::Empty => Error::Empty,
        VarIntError::Incomplete => Error::Incomplete,
        VarIntError::TooLong => Error::TooLong,
    }
}

pub fn from_varint_error(e: VarIntError) -> (r: Error)
    ensures
        r == varint_error(e),
{
    match e {
        VarIntError::Empty => Error::Empty,
        VarIntError::Incomplete => Error::Incomplete,
        VarIntError::TooLong => Error::TooLong,
    }
}

} // verus!
