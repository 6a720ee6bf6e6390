//! Construction of the lookup tables from a needle set: one column per needle
//! for small sets, and columns shared where no ghost byte can arise for
//! larger ones.
use vstd::prelude::*;
use crate::bits::has_bit;
use crate::bits::low_nibble;
use crate::bits::high_nibble;
use crate::bits::join_nibbles;
use crate::bits::lemma_split_byte;
use crate::bits::lemma_set_bit;
use crate::bits::lemma_zero_byte;
use crate::bits::lemma_low_columns;
use crate::table::TableModel;
use crate::table::model;
use crate::table::rows_share;
use crate::table::ShuftiTable;
use crate::table::lemma_represents;
use crate::table::lemma_no_ghosts;
use crate::packing::Packing;
use crate::packing::column_safe;
use crate::packing::first_safe_column;
use crate::packing::empty_packing;
use crate::packing::pack_step;
use crate::packing::pack_prefix;
use crate::packing::pack;
use crate::packing::packing_inv;
use crate::packing::lemma_empty_packing;
use crate::packing::lemma_pack_step;
use crate::packing::lemma_pack_none;
use crate::packing::lemma_pack_represents;

verus! {

/// The mask of the `n` lowest columns.
pub open spec fn low_columns(n: nat) -> u8 {
    ((1u32 << (n as u32)) - 1) as u8
}

/// Whether `t` is the table in which needle `i` alone has column `i`: bit `k`
/// of an entry is set exactly when needle `k` has that nibble, and the mask
/// holds the columns below the number of needles.
pub open spec fn is_fast_table(t: TableModel, needles: Seq<u8>) -> bool {
    &&& t.well_formed()
    &&& t.mask == low_columns(needles.len())
    &&& forall|k: u8| k < 8 ==> (#[trigger] has_bit(t.mask, k) <==> k < needles.len())
    &&& forall|k: u8, e: u8|
        k < 8 && e < 16 ==> (#[trigger] has_bit(t.low[e as int], k) <==> k < needles.len()
            && low_nibble(needles[k as int]) == e)
    &&& forall|k: u8, e: u8|
        k < 8 && e < 16 ==> (#[trigger] has_bit(t.high[e as int], k) <==> k < needles.len()
            && high_nibble(needles[k as int]) == e)
}

/// The table with one column per needle reports exactly the needles.
pub proof fn lemma_fast_table_represents(t: TableModel, needles: Seq<u8>)
    requires
        needles.len() <= 8,
        is_fast_table(t, needles),
    ensures
        t.represents(needles),
        t.no_ghosts(needles),
{
    assert forall|k: u8, hi: u8, lo: u8|
        k < 8 && hi < 16 && lo < 16 && #[trigger] t.column_holds(
            k,
            hi,
            lo,
        ) implies needles.contains(join_nibbles(hi, lo)) by {
        lemma_split_byte(needles[k as int]);
    }
    assert forall|i: int| 0 <= i < needles.len() implies #[trigger] t.holds_byte(needles[i]) by {
        lemma_split_byte(needles[i]);
        let k = i as u8;
        assert(needles[k as int] == needles[i]);
        assert(t.column_holds(k, high_nibble(needles[i]), low_nibble(needles[i])));
    }
    lemma_represents(t, needles);
    lemma_no_ghosts(t, needles);
}

/// In the table with one column per needle, the mask holds the columns below
/// the number of needles, and bit `i` is set in the low entry of needle `i`'s
/// low nibble and in the high entry of its high nibble.
pub proof fn lemma_fast_table_identity(t: TableModel, needles: Seq<u8>, i: int)
    requires
        needles.len() <= 8,
        is_fast_table(t, needles),
        0 <= i < needles.len(),
    ensures
        t.mask == low_columns(needles.len()),
        has_bit(t.low[low_nibble(needles[i]) as int], i as u8),
        has_bit(t.high[high_nibble(needles[i]) as int], i as u8),
{
    lemma_split_byte(needles[i]);
    let k = i as u8;
    assert(needles[k as int] == needles[i]);
}

/// Builds the tables of at most eight needles: needle `i` gets column `i`.
pub fn build_shufti_tables(needles: &[u8]) -> (r: ([u8; 16], [u8; 16], u8))
    requires
        needles@.len() <= 8,
    ensures
        is_fast_table(model(r.0, r.1, r.2), needles@),
        model(r.0, r.1, r.2).represents(needles@),
        model(r.0, r.1, r.2).no_ghosts(needles@),
{
    let mut low_tab = [0u8; 16];
    let mut high_tab = [0u8; 16];
    let mut i: usize = 0;
    proof {
        assert forall|k: u8| k < 8 implies !has_bit(0u8, k) by {
            lemma_zero_byte(k);
        }
    }
    while i < needles.len()
        invariant
            i <= needles@.len() <= 8,
            forall|k: u8, e: u8|
                k < 8 && e < 16 ==> (#[trigger] has_bit(low_tab@[e as int], k) <==> k < i
                    && low_nibble(needles@[k as int]) == e),
            forall|k: u8, e: u8|
                k < 8 && e < 16 ==> (#[trigger] has_bit(high_tab@[e as int], k) <==> k < i
                    && high_nibble(needles@[k as int]) == e),
        decreases needles@.len() - i,
    {
        let byte = needles[i];
        proof {
            lemma_split_byte(byte);
        }
        let bit: u8 = 1u8 << i;
        let lo = (byte & 0x0f) as usize;
        let hi = (byte >> 4) as usize;
        let ghost low_before = low_tab@;
        let ghost high_before = high_tab@;
        low_tab[lo] = low_tab[lo] | bit;
        high_tab[hi] = high_tab[hi] | bit;
        proof {
            assert forall|k: u8, e: u8| k < 8 && e < 16 implies (#[trigger] has_bit(
                low_tab@[e as int],
                k,
            ) <==> k < i + 1 && low_nibble(needles@[k as int]) == e) by {
                lemma_set_bit(low_before[e as int], i as u8, k);
                assert(has_bit(low_before[e as int], k) <==> k < i && low_nibble(
                    needles@[k as int],
                ) == e);
            }
            assert forall|k: u8, e: u8| k < 8 && e < 16 implies (#[trigger] has_bit(
                high_tab@[e as int],
                k,
            ) <==> k < i + 1 && high_nibble(needles@[k as int]) == e) by {
                lemma_set_bit(high_before[e as int], i as u8, k);
                assert(has_bit(high_before[e as int], k) <==> k < i && high_nibble(
                    needles@[k as int],
                ) == e);
            }
        }
        i += 1;
    }
    let count = needles.len() as u32;
    proof {
        lemma_low_columns(count, 0);
    }
    let bit_mask = ((1u32 << count) - 1) as u8;
    proof {
        assert forall|k: u8| k < 8 implies (#[trigger] has_bit(bit_mask, k) <==> k
            < needles@.len()) by {
            lemma_low_columns(count, k);
        }
        lemma_fast_table_represents(model(low_tab, high_tab, bit_mask), needles@);
    }
    (low_tab, high_tab, bit_mask)
}

/// Whether `byte` occurs in `bytes`.
pub fn contains_byte(bytes: &[u8], byte: u8) -> (r: bool)
    ensures
        r == bytes@.contains(byte),
{
    let mut i: usize = 0;
    while i < bytes.len()
        invariant
            i <= bytes@.len(),
            forall|j: int| 0 <= j < i ==> bytes@[j] != byte,
        decreases bytes@.len() - i,
    {
        if bytes[i] == byte {
            return true;
        }
        i += 1;
    }
    false
}

/// Decides whether `candidate` may share column `bit_index` of the current
/// rows.
pub fn is_safe(
    bit_index: u8,
    candidate: u8,
    targets: &[u8],
    current_low: &[u8; 16],
    current_high: &[u8; 16],
) -> (r: bool)
    requires
        bit_index < 8,
    ensures
        r == column_safe(current_low@, current_high@, bit_index, candidate, targets@),
{
    proof {
        lemma_split_byte(candidate);
    }
    let c_hi: u8 = candidate >> 4;
    let c_lo: u8 = candidate & 0x0f;
    let bit: u8 = 1u8 << bit_index;
    let ghost low = current_low@;
    let ghost high = current_high@;
    let mut other_hi: u8 = 0;
    while other_hi < 16
        invariant
            other_hi <= 16,
            bit_index < 8,
            bit == 1u8 << bit_index,
            c_hi == high_nibble(candidate),
            c_lo == low_nibble(candidate),
            low == current_low@,
            high == current_high@,
            forall|hi: u8, lo: u8|
                hi < other_hi && lo < 16 && #[trigger] rows_share(low, high, bit_index, hi, lo)
                    ==> targets@.contains(join_nibbles(c_hi, lo)) && targets@.contains(
                    join_nibbles(hi, c_lo),
                ),
        decreases 16 - other_hi,
    {
        let mut other_lo: u8 = 0;
        while other_lo < 16
            invariant
                other_lo <= 16,
                other_hi < 16,
                bit_index < 8,
                bit == 1u8 << bit_index,
                c_hi == high_nibble(candidate),
                c_lo == low_nibble(candidate),
                low == current_low@,
                high == current_high@,
                forall|hi: u8, lo: u8|
                    hi < other_hi && lo < 16 && #[trigger] rows_share(low, high, bit_index, hi, lo)
                        ==> targets@.contains(join_nibbles(c_hi, lo)) && targets@.contains(
                        join_nibbles(hi, c_lo),
                    ),
                forall|lo: u8|
                    lo < other_lo && #[trigger] rows_share(low, high, bit_index, other_hi, lo)
                        ==> targets@.contains(join_nibbles(c_hi, lo)) && targets@.contains(
                        join_nibbles(other_hi, c_lo),
                    ),
            decreases 16 - other_lo,
        {
            if (current_high[other_hi as usize] & bit != 0) && (current_low[other_lo as usize] & bit
                != 0) {
                assert(rows_share(low, high, bit_index, other_hi, other_lo));
                let ghost1: u8 = (c_hi << 4) | other_lo;
                let ghost2: u8 = (other_hi << 4) | c_lo;
                if !contains_byte(targets, ghost1) || !contains_byte(targets, ghost2) {
                    return false;
                }
            }
            other_lo += 1;
        }
        other_hi += 1;
    }
    true
}

/// Finds the first of the `columns` allocated columns that `c` may share,
/// or gives `columns` where there is none.
fn first_safe(c: u8, targets: &[u8], low_tab: &[u8; 16], high_tab: &[u8; 16], columns: u8) -> (b:
    u8)
    requires
        columns <= 8,
    ensures
        b == first_safe_column(low_tab@, high_tab@, c, targets@, 0, columns),
        b <= columns,
{
    let mut b: u8 = 0;
    while b < columns
        invariant
            b <= columns <= 8,
            first_safe_column(low_tab@, high_tab@, c, targets@, 0, columns) == first_safe_column(
                low_tab@,
                high_tab@,
                c,
                targets@,
                b,
                columns,
            ),
        decreases columns - b,
    {
        if is_safe(b, c, targets, low_tab, high_tab) {
            return b;
        }
        b += 1;
    }
    columns
}

/// Builds the tables of a target set of any size by packing: each target, in
/// order, joins the first column that it may share without a ghost byte, or
/// gets a fresh one. Fails where a ninth column would be needed.
pub fn build_shufti_table_slow(targets: &[u8]) -> (r: Option<([u8; 16], [u8; 16], u8)>)
    ensures
        match r {
            Some(parts) => pack(targets@) == Some(model(parts.0, parts.1, parts.2)) && model(
                parts.0,
                parts.1,
                parts.2,
            ).represents(targets@) && model(parts.0, parts.1, parts.2).no_ghosts(targets@),
            None => pack(targets@) is None,
        },
        targets@.len() <= 8 ==> r is Some,
{
    let mut low_tab = [0u8; 16];
    let mut high_tab = [0u8; 16];
    let mut current_bit: u8 = 0;
    let mut assigned_mask: u8 = 0;
    let mut idx: usize = 0;
    proof {
        lemma_empty_packing(targets@);
        assert(model(low_tab, high_tab, assigned_mask).low =~= empty_packing().table.low);
        assert(model(low_tab, high_tab, assigned_mask).high =~= empty_packing().table.high);
    }
    while idx < targets.len()
        invariant
            idx <= targets@.len(),
            pack_prefix(targets@, idx as nat) == Some(
                Packing { table: model(low_tab, high_tab, assigned_mask), columns: current_bit },
            ),
            packing_inv(
                Packing { table: model(low_tab, high_tab, assigned_mask), columns: current_bit },
                targets@,
                idx as int,
            ),
        decreases targets@.len() - idx,
    {
        let c = targets[idx];
        let ghost s = Packing {
            table: model(low_tab, high_tab, assigned_mask),
            columns: current_bit,
        };
        proof {
            lemma_split_byte(c);
            assert(pack_prefix(targets@, (idx + 1) as nat) == pack_step(s, c, targets@));
        }
        let hi = (c >> 4) as usize;
        let lo = (c & 0x0f) as usize;
        let b = first_safe(c, targets, &low_tab, &high_tab, current_bit);
        if b >= current_bit {
            if current_bit >= 8 {
                proof {
                    lemma_pack_none(targets@, (idx + 1) as nat);
                }
                return None;
            }
            assigned_mask = assigned_mask | (1u8 << current_bit);
            current_bit += 1;
        }
        low_tab[lo] = low_tab[lo] | (1u8 << b);
        high_tab[hi] = high_tab[hi] | (1u8 << b);
        proof {
            let s2 = Packing {
                table: model(low_tab, high_tab, assigned_mask),
                columns: current_bit,
            };
            assert(s2.table.low =~= pack_step(s, c, targets@).unwrap().table.low);
            assert(s2.table.high =~= pack_step(s, c, targets@).unwrap().table.high);
            assert(s2 == pack_step(s, c, targets@).unwrap());
            lemma_pack_step(s, targets@, idx as int);
        }
        idx += 1;
    }
    proof {
        lemma_pack_represents(targets@);
    }
    Some((low_tab, high_tab, assigned_mask))
}

/// Why no table can be built for a needle set.
#[derive(Debug, Clone, Copy, PartialEq, Eq)]
pub enum BuildError {
    /// The set holds no byte.
    EmptySet,
    /// The set holds this byte more than once.
    DuplicateByte(u8),
    /// The packing of the set would need a ninth column.
    PackingExhausted,
}

/// Whether the byte at `i` occurs again later in `s`.
pub open spec fn repeats_at(s: Seq<u8>, i: int) -> bool {
    exists|j: int| i < j < s.len() && s[j] == s[i]
}

/// Whether `i` is the first place of `s` whose byte occurs again later.
pub open spec fn is_first_repeat(s: Seq<u8>, i: int) -> bool {
    &&& 0 <= i < s.len()
    &&& repeats_at(s, i)
    &&& forall|k: int| 0 <= k < i ==> !#[trigger] repeats_at(s, k)
}

/// Looks for the first byte of `needles` that occurs again later.
pub fn find_duplicate(needles: &[u8]) -> (r: Option<u8>)
    ensures
        match r {
            Some(b) => exists|i: int| #[trigger] is_first_repeat(needles@, i) && needles@[i] == b,
            None => needles@.no_duplicates(),
        },
{
    let mut i: usize = 0;
    while i < needles.len()
        invariant
            i <= needles@.len(),
            forall|k: int| 0 <= k < i ==> !#[trigger] repeats_at(needles@, k),
        decreases needles@.len() - i,
    {
        let mut j: usize = i + 1;
        while j < needles.len()
            invariant
                i < j <= needles@.len(),
                forall|k: int| 0 <= k < i ==> !#[trigger] repeats_at(needles@, k),
                forall|m: int| i < m < j ==> needles@[m] != needles@[i as int],
            decreases needles@.len() - j,
        {
            if needles[i] == needles[j] {
                assert(repeats_at(needles@, i as int));
                assert(is_first_repeat(needles@, i as int));
                return Some(needles[i]);
            }
            j += 1;
        }
        i += 1;
    }
    proof {
        assert forall|a: int, b: int|
            0 <= a < needles@.len() && 0 <= b < needles@.len() && a != b implies needles@[a]
            != needles@[b] by {
            if a < b {
                assert(!repeats_at(needles@, a));
            } else {
                assert(!repeats_at(needles@, b));
            }
        }
    }
    None
}

/// Builds the table of a declared needle set. An empty set and a set with a
/// repeated byte are refused; a set of at most eight needles gets one column
/// per needle; a larger one is packed, and refused where the packing fails.
pub fn build_table(needles: &[u8]) -> (r: Result<ShuftiTable, BuildError>)
    ensures
        match r {
            Ok(t) => {
                &&& needles@.len() > 0
                &&& needles@.no_duplicates()
                &&& t@.represents(needles@)
                &&& t@.no_ghosts(needles@)
                &&& needles@.len() <= 8 ==> is_fast_table(t@, needles@)
                &&& needles@.len() > 8 ==> pack(needles@) == Some(t@)
            },
            Err(BuildError::EmptySet) => needles@.len() == 0,
            Err(BuildError::DuplicateByte(b)) => exists|i: int| #[trigger]
                is_first_repeat(needles@, i) && needles@[i] == b,
            Err(BuildError::PackingExhausted) => {
                &&& needles@.len() > 8
                &&& needles@.no_duplicates()
                &&& pack(needles@) is None
            },
        },
{
    if needles.len() == 0 {
        return Err(BuildError::EmptySet);
    }
    if let Some(b) = find_duplicate(needles) {
        return Err(BuildError::DuplicateByte(b));
    }
    if needles.len() <= 8 {
        let (low_tab, high_tab, bit_mask) = build_shufti_tables(needles);
        Ok(ShuftiTable { low_tab, high_tab, bit_mask })
    } else {
        match build_shufti_table_slow(needles) {
            Some((low_tab, high_tab, bit_mask)) => Ok(ShuftiTable { low_tab, high_tab, bit_mask }),
            None => Err(BuildError::PackingExhausted),
        }
    }
}

} // verus!
