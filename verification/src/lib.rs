//! Shufti: a byte-set membership scanner built on a pair of nibble-indexed
//! lookup tables.
pub mod bits;
pub mod arch;
pub mod table;
pub mod packing;
pub mod builder;
pub mod scan;
pub mod binding;

pub use crate::scan::ShuftiMatcher;
pub use crate::table::ShuftiTable;
