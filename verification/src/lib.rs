//! Storage and access core of a small single-table embedded database.
//!
//! One implicit table of fixed-shape rows is kept in a single leaf node of a
//! B-tree, one node per fixed-size page, persisted to a byte image that the
//! surrounding program reads from and writes back to one file.  The crate
//! holds the row codec, the on-page node format, the page cache, the cursor
//! machinery and the statement layer; reading lines, printing results and
//! touching the file system stay outside.

use vstd::prelude::*;

pub mod codec;
pub mod node;
pub mod pager;
pub mod row;
pub mod statement;
pub mod table;

verus! {

/// Size in bytes of one page, the unit of allocation and of file I/O.
pub const PAGE_SIZE: usize = 4096;

/// Greatest number of bytes a username column may hold.
pub const MAX_UNAME_LENGTH: usize = 32;

/// Greatest number of bytes an email column may hold.
pub const MAX_EMAIL_LENGTH: usize = 255;

/// Serialized size of one row: 4-byte id, 1-byte username length, 32 bytes
/// of username, 1-byte email length, 255 bytes of email.
pub const ROW_SIZE: usize = 293;

/// Serialized size of one cell: a 4-byte key followed by one row.
pub const CELL_SIZE: usize = 297;

/// Bytes of the header every node shares: 1-byte `is_root`, 4-byte parent pointer.
pub const COMMON_NODE_HEADER_SIZE: usize = 5;

/// Bytes of a leaf node's header: the common header plus the 4-byte cell count.
pub const LEAF_NODE_HEADER_SIZE: usize = 9;

/// Bytes of a page left for cells once the leaf header is written.
pub const LEAF_NODE_SPACE_FOR_CELLS: usize = 4087;

/// Greatest number of cells one leaf node can hold.
pub const LEAF_NODE_MAX_CELLS: usize = 13;

/// Capacity of the page cache; page numbers at or past it are out of bounds.
pub const TABLE_MAX_PAGES: usize = 100;

} // verus!
