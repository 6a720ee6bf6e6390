//! The lookup tables, what they report of a byte, and the scan over a haystack.
use vstd::prelude::*;
use vstd::std_specs::bits::u16_trailing_zeros;
use vstd::std_specs::bits::axiom_u16_trailing_zeros;
use crate::bits::has_bit;
use crate::bits::lane_bit;
use crate::bits::low_nibble;
use crate::bits::high_nibble;
use crate::bits::join_nibbles;
use crate::bits::lemma_split_byte;
use crate::bits::lemma_join_nibbles;
use crate::bits::lemma_shared_bit;
use crate::bits::lemma_test_lane;
use crate::arch::bitmask_16b;

verus! {

/// The pair of nibble-indexed lookup tables and the mask of columns in use.
#[derive(Debug, Clone, Copy)]
pub struct ShuftiTable {
    pub low_tab: [u8; 16],
    pub high_tab: [u8; 16],
    pub bit_mask: u8,
}

/// The mathematical value of a table: its two rows as sequences of sixteen
/// column sets, and the set of columns in use.
pub struct TableModel {
    pub low: Seq<u8>,
    pub high: Seq<u8>,
    pub mask: u8,
}

/// The model of the table made of the three given parts.
pub open spec fn model(low_tab: [u8; 16], high_tab: [u8; 16], bit_mask: u8) -> TableModel {
    TableModel { low: low_tab@, high: high_tab@, mask: bit_mask }
}

/// Whether bit `k` is set in the high entry `hi` and in the low entry `lo`.
pub open spec fn rows_share(low: Seq<u8>, high: Seq<u8>, k: u8, hi: u8, lo: u8) -> bool {
    has_bit(high[hi as int], k) && has_bit(low[lo as int], k)
}

impl View for ShuftiTable {
    type V = TableModel;

    open spec fn view(&self) -> TableModel {
        model(self.low_tab, self.high_tab, self.bit_mask)
    }
}

impl TableModel {
    /// Both rows have their sixteen entries.
    pub open spec fn well_formed(self) -> bool {
        self.low.len() == 16 && self.high.len() == 16
    }

    /// Whether column `k` holds the byte with the nibbles `hi` and `lo`.
    pub open spec fn column_holds(self, k: u8, hi: u8, lo: u8) -> bool {
        rows_share(self.low, self.high, k, hi, lo) && has_bit(self.mask, k)
    }

    /// Whether no column in use reports a byte outside `needles`.
    pub open spec fn ghost_free(self, needles: Seq<u8>) -> bool {
        forall|k: u8, hi: u8, lo: u8|
            k < 8 && hi < 16 && lo < 16 && #[trigger] self.column_holds(k, hi, lo)
                ==> needles.contains(join_nibbles(hi, lo))
    }

    /// Whether each byte of `needles` is held by some column in use.
    pub open spec fn covers(self, needles: Seq<u8>) -> bool {
        forall|i: int| 0 <= i < needles.len() ==> #[trigger] self.holds_byte(needles[i])
    }

    /// Whether some column in use holds the byte `c`.
    pub open spec fn holds_byte(self, c: u8) -> bool {
        exists|k: u8| k < 8 && #[trigger] self.column_holds(k, high_nibble(c), low_nibble(c))
    }

    /// Whether every pair of nibbles whose entries share a column in use is a
    /// byte of `needles`.
    pub open spec fn no_ghosts(self, needles: Seq<u8>) -> bool {
        forall|hi: u8, lo: u8|
            hi < 16 && lo < 16 && #[trigger] self.cell(hi, lo) != 0 ==> needles.contains(
                join_nibbles(hi, lo),
            )
    }

    /// The columns that the low entry `lo`, the high entry `hi` and the mask share.
    pub open spec fn cell(self, hi: u8, lo: u8) -> u8 {
        self.low[lo as int] & self.high[hi as int] & self.mask
    }

    /// Whether the tables report the byte `c` as a member.
    pub open spec fn matches(self, c: u8) -> bool {
        self.cell(high_nibble(c), low_nibble(c)) != 0
    }

    /// Whether the tables report exactly the bytes of `needles` as members.
    pub open spec fn represents(self, needles: Seq<u8>) -> bool {
        forall|c: u8| #[trigger] self.matches(c) <==> needles.contains(c)
    }

    /// Whether `mask` is the lane mask of the sixteen bytes `chunk`: lane `i`
    /// is set exactly when the tables report byte `i` as a member.
    pub open spec fn is_lane_mask(self, chunk: Seq<u8>, mask: u16) -> bool {
        forall|i: u16| i < 16 ==> (#[trigger] lane_bit(mask, i) <==> self.matches(chunk[i as int]))
    }

    /// Whether `r` is the answer of a scan of `haystack` for its first member:
    /// the least index of a byte that the tables report, or nothing where they
    /// report none.
    pub open spec fn is_first_match(self, haystack: Seq<u8>, r: Option<usize>) -> bool {
        match r {
            Some(i) => {
                &&& i < haystack.len()
                &&& self.matches(haystack[i as int])
                &&& forall|j: int| 0 <= j < i ==> !self.matches(#[trigger] haystack[j])
            },
            None => forall|j: int| 0 <= j < haystack.len() ==> !self.matches(#[trigger] haystack[j]),
        }
    }
}

impl ShuftiTable {
    /// Tests a chunk of sixteen bytes: lane `i` of the result is set exactly
    /// when byte `i` of the chunk is a member.
    pub fn bitmask_16b(&self, data: &[u8; 16]) -> (mask: u16)
        ensures
            self@.is_lane_mask(data@, mask),
    {
        bitmask_16b(&self.low_tab, &self.high_tab, self.bit_mask, data)
    }

    /// Finds the first byte of `haystack` that is a member.
    pub fn find_first(&self, haystack: &[u8]) -> (r: Option<usize>)
        ensures
            self@.is_first_match(haystack@, r),
    {
        let len = haystack.len();
        let mut offset: usize = 0;
        while len - offset >= 16
            invariant
                offset <= len,
                len == haystack@.len(),
                forall|j: int| 0 <= j < offset ==> !self@.matches(#[trigger] haystack@[j]),
            decreases len - offset,
        {
            let mut chunk = [0u8; 16];
            let mut k: usize = 0;
            while k < 16
                invariant
                    k <= 16,
                    offset + 16 <= len,
                    len == haystack@.len(),
                    forall|j: int| 0 <= j < k ==> chunk@[j] == haystack@[offset + j],
                decreases 16 - k,
            {
                chunk[k] = haystack[offset + k];
                k += 1;
            }
            let mask = self.bitmask_16b(&chunk);
            if mask != 0 {
                let pos = mask.trailing_zeros() as usize;
                proof {
                    lemma_first_lane(self@, chunk@, mask);
                    assert forall|j: int| 0 <= j < offset + pos implies !self@.matches(
                        #[trigger] haystack@[j],
                    ) by {
                        if j >= offset {
                            assert(chunk@[j - offset] == haystack@[offset + (j - offset)]);
                        }
                    }
                    assert(chunk@[pos as int] == haystack@[offset + pos]);
                }
                return Some(offset + pos);
            }
            proof {
                lemma_no_lane(self@, chunk@, mask);
                assert forall|j: int| 0 <= j < offset + 16 implies !self@.matches(
                    #[trigger] haystack@[j],
                ) by {
                    if j >= offset {
                        assert(chunk@[j - offset] == haystack@[offset + (j - offset)]);
                    }
                }
            }
            offset += 16;
        }
        let remainder = len - offset;
        if remainder > 0 {
            let mut buf = [0u8; 16];
            let mut k: usize = 0;
            while k < remainder
                invariant
                    k <= remainder,
                    remainder < 16,
                    offset + remainder == len,
                    len == haystack@.len(),
                    forall|j: int| 0 <= j < k ==> buf@[j] == haystack@[offset + j],
                decreases remainder - k,
            {
                buf[k] = haystack[offset + k];
                k += 1;
            }
            let mask = self.bitmask_16b(&buf);
            proof {
                assert forall|j: int| 0 <= j < remainder implies (lane_bit(mask, j as u16)
                    <==> self@.matches(#[trigger] haystack@[offset + j])) by {
                    assert(buf@[j] == haystack@[offset + j]);
                    assert(lane_bit(mask, j as u16) <==> self@.matches(buf@[(j as u16) as int]));
                }
            }
            if mask != 0 {
                let pos = mask.trailing_zeros() as usize;
                proof {
                    lemma_first_lane(self@, buf@, mask);
                }
                if pos < remainder {
                    proof {
                        assert(self@.matches(haystack@[offset + pos]));
                        assert forall|j: int| 0 <= j < offset + pos implies !self@.matches(
                            #[trigger] haystack@[j],
                        ) by {
                            if j >= offset {
                                assert(buf@[j - offset] == haystack@[offset + (j - offset)]);
                            }
                        }
                    }
                    return Some(offset + pos);
                }
                let mut i: usize = 0;
                while i < remainder
                    invariant
                        i <= remainder,
                        remainder < 16,
                        offset + remainder == len,
                        len == haystack@.len(),
                        forall|j: int|
                            0 <= j < remainder ==> (lane_bit(mask, j as u16) <==> self@.matches(
                                #[trigger] haystack@[offset + j],
                            )),
                        forall|j: int| 0 <= j < offset + i ==> !self@.matches(#[trigger] haystack@[j]),
                    decreases remainder - i,
                {
                    proof {
                        lemma_test_lane(mask, i as u16);
                        assert(lane_bit(mask, i as u16) <==> self@.matches(
                            haystack@[offset + i as int],
                        ));
                    }
                    if mask & (1u16 << i) != 0 {
                        return Some(offset + i);
                    }
                    i += 1;
                }
            } else {
                proof {
                    lemma_no_lane(self@, buf@, mask);
                    assert forall|j: int| 0 <= j < len implies !self@.matches(
                        #[trigger] haystack@[j],
                    ) by {
                        if j >= offset {
                            assert(buf@[j - offset] == haystack@[offset + (j - offset)]);
                            assert(!lane_bit(mask, (j - offset) as u16));
                        }
                    }
                }
            }
        }
        None
    }
}

/// The number of trailing zeros of a non-empty lane mask is the first lane
/// whose byte is a member.
pub proof fn lemma_first_lane(t: TableModel, chunk: Seq<u8>, mask: u16)
    requires
        t.is_lane_mask(chunk, mask),
        mask != 0,
    ensures
        u16_trailing_zeros(mask) < 16,
        t.matches(chunk[u16_trailing_zeros(mask) as int]),
        forall|j: int| 0 <= j < u16_trailing_zeros(mask) ==> !t.matches(#[trigger] chunk[j]),
{
    axiom_u16_trailing_zeros(mask);
    let p = u16_trailing_zeros(mask);
    assert(lane_bit(mask, p as u16));
    assert forall|j: int| 0 <= j < p implies !t.matches(#[trigger] chunk[j]) by {
        let jj = j as u16;
        assert((mask >> jj) & 1u16 == 0u16);
        assert(!lane_bit(mask, jj));
        assert(chunk[jj as int] == chunk[j]);
    }
}

/// An empty lane mask means that no byte of the chunk is a member.
pub proof fn lemma_no_lane(t: TableModel, chunk: Seq<u8>, mask: u16)
    requires
        t.is_lane_mask(chunk, mask),
        mask == 0,
    ensures
        forall|j: int| 0 <= j < 16 ==> !t.matches(#[trigger] chunk[j]),
{
    assert forall|j: int| 0 <= j < 16 implies !t.matches(#[trigger] chunk[j]) by {
        let jj = j as u16;
        crate::bits::lemma_empty_mask(jj);
        assert(!lane_bit(mask, jj));
        assert(chunk[jj as int] == chunk[j]);
    }
}

/// A byte is reported exactly when some column in use holds its two nibbles.
pub proof fn lemma_matches_by_column(t: TableModel, c: u8)
    ensures
        t.matches(c) <==> t.holds_byte(c),
{
    let hi = high_nibble(c);
    let lo = low_nibble(c);
    lemma_shared_bit(t.low[lo as int], t.high[hi as int], t.mask);
    if t.matches(c) {
        let k = choose|k: u8|
            k < 8 && has_bit(t.low[lo as int], k) && has_bit(t.high[hi as int], k) && has_bit(
                t.mask,
                k,
            );
        assert(t.column_holds(k, hi, lo));
    }
    if exists|k: u8| k < 8 && #[trigger] t.column_holds(k, hi, lo) {
        let k = choose|k: u8| k < 8 && #[trigger] t.column_holds(k, hi, lo);
        assert(k < 8 && has_bit(t.low[lo as int], k) && has_bit(t.high[hi as int], k) && has_bit(
            t.mask,
            k,
        ));
    }
}

/// Tables whose columns hold every needle and nothing else report exactly
/// the needles.
pub proof fn lemma_represents(t: TableModel, needles: Seq<u8>)
    requires
        t.ghost_free(needles),
        t.covers(needles),
    ensures
        t.represents(needles),
{
    assert forall|c: u8| #[trigger] t.matches(c) <==> needles.contains(c) by {
        lemma_matches_by_column(t, c);
        lemma_split_byte(c);
        if t.matches(c) {
            let k = choose|k: u8|
                k < 8 && #[trigger] t.column_holds(k, high_nibble(c), low_nibble(c));
            assert(needles.contains(join_nibbles(high_nibble(c), low_nibble(c))));
        }
        if needles.contains(c) {
            let i = choose|i: int| 0 <= i < needles.len() && needles[i] == c;
            assert(t.holds_byte(needles[i]));
        }
    }
}

/// Tables that report exactly the needles have no ghost byte: whenever the
/// entries of two nibbles share a column in use, the byte made of those
/// nibbles is a needle.
pub proof fn lemma_no_ghosts(t: TableModel, needles: Seq<u8>)
    requires
        t.represents(needles),
    ensures
        t.no_ghosts(needles),
{
    assert forall|hi: u8, lo: u8|
        hi < 16 && lo < 16 && #[trigger] t.cell(hi, lo) != 0 implies needles.contains(
        join_nibbles(hi, lo),
    ) by {
        lemma_join_nibbles(hi, lo);
        assert(t.matches(join_nibbles(hi, lo)));
    }
}

/// A lane of the lane mask of a chunk is set exactly when the byte in that
/// lane is one of the needles that the tables represent.
pub proof fn lemma_lane_membership(
    t: TableModel,
    needles: Seq<u8>,
    chunk: Seq<u8>,
    mask: u16,
    i: u16,
)
    requires
        t.represents(needles),
        t.is_lane_mask(chunk, mask),
        i < 16,
    ensures
        lane_bit(mask, i) <==> needles.contains(chunk[i as int]),
{
}

/// The answer of a scan is unique.
pub proof fn lemma_first_match_unique(
    t: TableModel,
    haystack: Seq<u8>,
    r1: Option<usize>,
    r2: Option<usize>,
)
    requires
        t.is_first_match(haystack, r1),
        t.is_first_match(haystack, r2),
    ensures
        r1 == r2,
{
}

/// Bytes appended to a haystack that are not members leave the answer of a
/// scan as it was.
pub proof fn lemma_padding_keeps_first_match(
    t: TableModel,
    haystack: Seq<u8>,
    padding: Seq<u8>,
    r: Option<usize>,
)
    requires
        forall|j: int| 0 <= j < padding.len() ==> !t.matches(#[trigger] padding[j]),
    ensures
        t.is_first_match(haystack, r) <==> t.is_first_match(haystack + padding, r),
{
    let padded = haystack + padding;
    assert forall|j: int| 0 <= j < haystack.len() implies #[trigger] padded[j] == haystack[j] by {}
    assert forall|j: int| haystack.len() <= j < padded.len() implies !t.matches(
        #[trigger] padded[j],
    ) by {
        assert(padded[j] == padding[j - haystack.len()]);
    }
    if t.is_first_match(haystack, r) {
        match r {
            Some(i) => {
                assert(padded[i as int] == haystack[i as int]);
            },
            None => {},
        }
        assert(t.is_first_match(padded, r));
    }
    if t.is_first_match(padded, r) {
        match r {
            Some(i) => {
                assert(i < haystack.len());
                assert(padded[i as int] == haystack[i as int]);
                assert forall|j: int| 0 <= j < i implies !t.matches(#[trigger] haystack[j]) by {
                    assert(padded[j] == haystack[j]);
                }
            },
            None => {
                assert forall|j: int| 0 <= j < haystack.len() implies !t.matches(
                    #[trigger] haystack[j],
                ) by {
                    assert(padded[j] == haystack[j]);
                }
            },
        }
        assert(t.is_first_match(haystack, r));
    }
}

/// A scan of the empty haystack finds nothing.
pub proof fn lemma_empty_haystack(t: TableModel, r: Option<usize>)
    ensures
        t.is_first_match(Seq::<u8>::empty(), r) <==> r is None,
{
}

/// Under tables that report exactly the needles, the answer of a scan is the
/// least index of a needle in the haystack, or nothing where it holds none.
pub proof fn lemma_first_match_of_needles(
    t: TableModel,
    needles: Seq<u8>,
    haystack: Seq<u8>,
    r: Option<usize>,
)
    requires
        t.represents(needles),
        t.is_first_match(haystack, r),
    ensures
        match r {
            Some(i) => {
                &&& i < haystack.len()
                &&& needles.contains(haystack[i as int])
                &&& forall|j: int| 0 <= j < i ==> !needles.contains(#[trigger] haystack[j])
            },
            None => forall|j: int|
                0 <= j < haystack.len() ==> !needles.contains(#[trigger] haystack[j]),
        },
{
    assert forall|j: int| 0 <= j < haystack.len() implies (t.matches(#[trigger] haystack[j])
        <==> needles.contains(haystack[j])) by {}
}

} // verus!
