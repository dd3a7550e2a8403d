use vstd::prelude::*;

verus! {

/// Longest table name, in bytes.
pub const MAX_TABLE_NAME_LEN: usize = 64;

/// Longest stored list of a table's columns, in bytes.
pub const MAX_COLUMNS_STR_LEN: usize = 1024;

/// Widest text column.
pub const MAX_VARCHAR_LEN: usize = 65535;

/// Most user columns in a table.
pub const MAX_COLUMNS: usize = 64;

/// Width of the bitmap of null columns.
pub const NULL_BITMAP_SIZE: usize = 8;

} // verus!
