//! The matcher: a type with a needle set of its own and the tables built for
//! it, and the two searches that every such type offers.
use vstd::prelude::*;
use crate::table::ShuftiTable;
use crate::table::TableModel;

verus! {

/// A type that stands for one needle set. It names the set, the number of
/// bytes in it and the tables built for it; the searches come with the trait.
pub trait ShuftiMatcher {
    /// The needle set as it was written.
    const SET: &'static str;

    /// The number of bytes in the set.
    const NEEDLE_COUNT: usize;

    /// The tables built for the set.
    fn table() -> ShuftiTable;

    /// Tests a chunk of sixteen bytes against the matcher's tables: the result
    /// is the lane mask of the chunk under the tables that `table` gave.
    fn match_16b(chunk: &[u8; 16]) -> (mask: u16)
        ensures
            exists|t: TableModel| #[trigger] t.is_lane_mask(chunk@, mask),
    {
        let table = Self::table();
        let mask = table.bitmask_16b(chunk);
        assert(table@.is_lane_mask(chunk@, mask));
        mask
    }

    /// Searches `haystack` for the first byte that the matcher's tables
    /// report: the result is the answer of the scan under the tables that
    /// `table` gave.
    fn find_first(haystack: &[u8]) -> (r: Option<usize>)
        ensures
            exists|t: TableModel| #[trigger] t.is_first_match(haystack@, r),
            haystack@.len() == 0 ==> r is None,
    {
        let table = Self::table();
        let r = table.find_first(haystack);
        assert(table@.is_first_match(haystack@, r));
        r
    }
}

} // verus!
