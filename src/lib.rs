//! Read-only decoder for the page format of an embedded relational database file:
//! varints, records, b-tree pages, cells, overflow chains and b-tree traversal.

pub mod btree;
pub mod cell;
pub mod database;
pub mod error;
pub mod overflow;
pub mod page;
pub mod record;
pub mod serial;
pub mod varint;
