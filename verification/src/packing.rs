//! The packing of a target set into at most eight columns, as a sequence of
//! steps, and why its tables report exactly the targets.
use vstd::prelude::*;
use crate::bits::has_bit;
use crate::bits::low_nibble;
use crate::bits::high_nibble;
use crate::bits::join_nibbles;
use crate::bits::lemma_split_byte;
use crate::bits::lemma_set_bit;
use crate::bits::lemma_zero_byte;
use crate::table::TableModel;
use crate::table::rows_share;
use crate::table::lemma_represents;
use crate::table::lemma_no_ghosts;

verus! {

/// Whether `c` could join column `b` of the rows without a ghost byte: for
/// every pair of nibbles that the column already holds, the byte of `c`'s high
/// nibble with that low nibble and the byte of that high nibble with `c`'s low
/// nibble are both targets.
pub open spec fn column_safe(low: Seq<u8>, high: Seq<u8>, b: u8, c: u8, targets: Seq<u8>) -> bool {
    forall|hi: u8, lo: u8|
        hi < 16 && lo < 16 && #[trigger] rows_share(low, high, b, hi, lo) ==> targets.contains(
            join_nibbles(high_nibble(c), lo),
        ) && targets.contains(join_nibbles(hi, low_nibble(c)))
}

/// The state of the packing: the tables so far and the number of columns
/// allocated.
pub struct Packing {
    pub table: TableModel,
    pub columns: u8,
}

/// The first column from `from` on, below `columns`, that `c` may share, or
/// `columns` where there is none.
pub open spec fn first_safe_column(
    low: Seq<u8>,
    high: Seq<u8>,
    c: u8,
    targets: Seq<u8>,
    from: u8,
    columns: u8,
) -> u8
    decreases columns - from,
{
    if from >= columns {
        columns
    } else if column_safe(low, high, from, c, targets) {
        from
    } else {
        first_safe_column(low, high, c, targets, (from + 1) as u8, columns)
    }
}

/// The tables with `c` added to column `b` of both rows.
pub open spec fn place(t: TableModel, b: u8, c: u8) -> TableModel {
    TableModel {
        low: t.low.update(low_nibble(c) as int, t.low[low_nibble(c) as int] | (1u8 << b)),
        high: t.high.update(high_nibble(c) as int, t.high[high_nibble(c) as int] | (1u8 << b)),
        mask: t.mask,
    }
}

/// The tables with column `b` marked as in use.
pub open spec fn allocate(t: TableModel, b: u8) -> TableModel {
    TableModel { low: t.low, high: t.high, mask: t.mask | (1u8 << b) }
}

/// The empty tables, with no column allocated.
pub open spec fn empty_packing() -> Packing {
    Packing {
        table: TableModel { low: Seq::new(16, |i: int| 0u8), high: Seq::new(16, |i: int| 0u8), mask: 0 },
        columns: 0,
    }
}

/// One step of the packing: `c` joins the first column that it may share;
/// where there is none it gets a fresh column, and the packing fails where all
/// eight are taken.
pub open spec fn pack_step(s: Packing, c: u8, targets: Seq<u8>) -> Option<Packing> {
    let b = first_safe_column(s.table.low, s.table.high, c, targets, 0, s.columns);
    if b < s.columns {
        Some(Packing { table: place(s.table, b, c), columns: s.columns })
    } else if s.columns >= 8 {
        None
    } else {
        Some(
            Packing {
                table: allocate(place(s.table, s.columns, c), s.columns),
                columns: (s.columns + 1) as u8,
            },
        )
    }
}

/// The packing after the first `n` targets, taken in order.
pub open spec fn pack_prefix(targets: Seq<u8>, n: nat) -> Option<Packing>
    decreases n,
{
    if n == 0 {
        Some(empty_packing())
    } else {
        match pack_prefix(targets, (n - 1) as nat) {
            None => None,
            Some(s) => pack_step(s, targets[n - 1], targets),
        }
    }
}

/// The tables that packing all of `targets` gives, if it succeeds.
pub open spec fn pack(targets: Seq<u8>) -> Option<TableModel> {
    match pack_prefix(targets, targets.len()) {
        None => None,
        Some(s) => Some(s.table),
    }
}

/// What holds of the packing after the first `n` targets: the columns
/// allocated are exactly those of the mask, each holds a byte, none holds a
/// byte that is no target, and each of the first `n` targets is held.
pub open spec fn packing_inv(s: Packing, targets: Seq<u8>, n: int) -> bool {
    &&& s.table.well_formed()
    &&& s.columns <= 8
    &&& s.columns <= n
    &&& forall|k: u8| k < 8 ==> (#[trigger] has_bit(s.table.mask, k) <==> k < s.columns)
    &&& forall|k: u8, hi: u8, lo: u8|
        k < 8 && hi < 16 && lo < 16 && #[trigger] rows_share(s.table.low, s.table.high, k, hi, lo)
            ==> k < s.columns && targets.contains(join_nibbles(hi, lo))
    &&& forall|k: u8, e: u8|
        k < 8 && e < 16 && #[trigger] has_bit(s.table.low[e as int], k) ==> column_occupied(
            s.table,
            k,
        )
    &&& forall|k: u8, e: u8|
        k < 8 && e < 16 && #[trigger] has_bit(s.table.high[e as int], k) ==> column_occupied(
            s.table,
            k,
        )
    &&& s.table.covers(targets.take(n))
}

/// Whether column `k` of both rows holds some pair of nibbles.
pub open spec fn column_occupied(t: TableModel, k: u8) -> bool {
    exists|hi: u8, lo: u8| hi < 16 && lo < 16 && #[trigger] rows_share(t.low, t.high, k, hi, lo)
}

/// The first safe column is at most `columns`, no column before it from
/// `from` on is safe, and it is safe itself where it is below `columns`.
pub proof fn lemma_first_safe_column(
    low: Seq<u8>,
    high: Seq<u8>,
    c: u8,
    targets: Seq<u8>,
    from: u8,
    columns: u8,
)
    requires
        from <= columns,
    ensures
        from <= first_safe_column(low, high, c, targets, from, columns) <= columns,
        first_safe_column(low, high, c, targets, from, columns) < columns ==> column_safe(
            low,
            high,
            first_safe_column(low, high, c, targets, from, columns),
            c,
            targets,
        ),
        forall|b: u8|
            from <= b < first_safe_column(low, high, c, targets, from, columns) ==> !column_safe(
                low,
                high,
                b,
                c,
                targets,
            ),
    decreases columns - from,
{
    if from < columns && !column_safe(low, high, from, c, targets) {
        lemma_first_safe_column(low, high, c, targets, (from + 1) as u8, columns);
    }
}

/// Placing `c` in column `b` adds bit `b` to the entries of `c`'s two nibbles
/// and changes no other bit.
pub proof fn lemma_place(t: TableModel, b: u8, c: u8)
    requires
        t.well_formed(),
        b < 8,
    ensures
        place(t, b, c).well_formed(),
        forall|k: u8, e: u8|
            k < 8 && e < 16 ==> (#[trigger] has_bit(place(t, b, c).low[e as int], k) <==> has_bit(
                t.low[e as int],
                k,
            ) || (e == low_nibble(c) && k == b)),
        forall|k: u8, e: u8|
            k < 8 && e < 16 ==> (#[trigger] has_bit(place(t, b, c).high[e as int], k) <==> has_bit(
                t.high[e as int],
                k,
            ) || (e == high_nibble(c) && k == b)),
{
    lemma_split_byte(c);
    let p = place(t, b, c);
    assert forall|k: u8, e: u8| k < 8 && e < 16 implies (#[trigger] has_bit(p.low[e as int], k)
        <==> has_bit(t.low[e as int], k) || (e == low_nibble(c) && k == b)) by {
        lemma_set_bit(t.low[e as int], b, k);
    }
    assert forall|k: u8, e: u8| k < 8 && e < 16 implies (#[trigger] has_bit(p.high[e as int], k)
        <==> has_bit(t.high[e as int], k) || (e == high_nibble(c) && k == b)) by {
        lemma_set_bit(t.high[e as int], b, k);
    }
}

/// The empty packing meets the invariant of the packing before any target.
pub proof fn lemma_empty_packing(targets: Seq<u8>)
    ensures
        packing_inv(empty_packing(), targets, 0),
{
    let s = empty_packing();
    assert forall|k: u8| k < 8 implies !has_bit(0u8, k) by {
        lemma_zero_byte(k);
    }
    assert forall|k: u8, hi: u8, lo: u8| k < 8 && hi < 16 && lo < 16 implies !#[trigger] rows_share(
        s.table.low,
        s.table.high,
        k,
        hi,
        lo,
    ) by {
        assert(s.table.high[hi as int] == 0u8);
    }
    assert forall|k: u8, e: u8| k < 8 && e < 16 implies !has_bit(s.table.low[e as int], k)
        && !has_bit(s.table.high[e as int], k) by {
        assert(s.table.low[e as int] == 0u8);
        assert(s.table.high[e as int] == 0u8);
    }
    assert(targets.take(0).len() == 0);
}

/// A step of the packing that succeeds keeps the invariant of the packing.
pub proof fn lemma_pack_step(s: Packing, targets: Seq<u8>, n: int)
    requires
        0 <= n < targets.len(),
        packing_inv(s, targets, n),
        pack_step(s, targets[n], targets) is Some,
    ensures
        packing_inv(pack_step(s, targets[n], targets).unwrap(), targets, n + 1),
{
    let c = targets[n];
    let t = s.table;
    let b = first_safe_column(t.low, t.high, c, targets, 0, s.columns);
    lemma_first_safe_column(t.low, t.high, c, targets, 0, s.columns);
    let s2 = pack_step(s, c, targets).unwrap();
    let t2 = s2.table;
    let hc = high_nibble(c);
    let lc = low_nibble(c);
    lemma_split_byte(c);
    lemma_place(t, b, c);
    assert(t2.low == place(t, b, c).low);
    assert(t2.high == place(t, b, c).high);
    assert(targets.contains(c));
    assert(rows_share(t2.low, t2.high, b, hc, lc));

    assert forall|k: u8| k < 8 implies (#[trigger] has_bit(t2.mask, k) <==> k < s2.columns) by {
        if b >= s.columns {
            lemma_set_bit(t.mask, b, k);
        }
    }
    assert forall|k: u8, hi: u8, lo: u8|
        k < 8 && hi < 16 && lo < 16 && #[trigger] rows_share(t2.low, t2.high, k, hi, lo) implies k
        < s2.columns && targets.contains(join_nibbles(hi, lo)) by {
        if rows_share(t.low, t.high, k, hi, lo) {
        } else {
            assert(k == b);
            if has_bit(t.high[hi as int], k) {
                assert(lo == lc);
                assert(column_occupied(t, k));
                let (hi0, lo0) = choose|hi0: u8, lo0: u8|
                    hi0 < 16 && lo0 < 16 && #[trigger] rows_share(t.low, t.high, k, hi0, lo0);
                assert(rows_share(t.low, t.high, k, hi0, lo0));
                assert(rows_share(t.low, t.high, k, hi, lo0));
                assert(b < s.columns);
            } else if has_bit(t.low[lo as int], k) {
                assert(hi == hc);
                assert(column_occupied(t, k));
                let (hi0, lo0) = choose|hi0: u8, lo0: u8|
                    hi0 < 16 && lo0 < 16 && #[trigger] rows_share(t.low, t.high, k, hi0, lo0);
                assert(rows_share(t.low, t.high, k, hi0, lo0));
                assert(rows_share(t.low, t.high, k, hi0, lo));
                assert(b < s.columns);
            } else {
                assert(hi == hc && lo == lc);
            }
        }
    }
    assert forall|k: u8, e: u8|
        k < 8 && e < 16 && #[trigger] has_bit(t2.low[e as int], k) implies column_occupied(
        t2,
        k,
    ) by {
        if has_bit(t.low[e as int], k) {
            assert(column_occupied(t, k));
            let (hi0, lo0) = choose|hi0: u8, lo0: u8|
                hi0 < 16 && lo0 < 16 && #[trigger] rows_share(t.low, t.high, k, hi0, lo0);
            assert(rows_share(t2.low, t2.high, k, hi0, lo0));
        }
    }
    assert forall|k: u8, e: u8|
        k < 8 && e < 16 && #[trigger] has_bit(t2.high[e as int], k) implies column_occupied(
        t2,
        k,
    ) by {
        if has_bit(t.high[e as int], k) {
            assert(column_occupied(t, k));
            let (hi0, lo0) = choose|hi0: u8, lo0: u8|
                hi0 < 16 && lo0 < 16 && #[trigger] rows_share(t.low, t.high, k, hi0, lo0);
            assert(rows_share(t2.low, t2.high, k, hi0, lo0));
        }
    }
    assert forall|i: int| 0 <= i < targets.take(n + 1).len() implies #[trigger] t2.holds_byte(
        targets.take(n + 1)[i],
    ) by {
        let d = targets[i];
        if i < n {
            assert(targets.take(n)[i] == d);
            assert(t.holds_byte(d));
            let k = choose|k: u8|
                k < 8 && #[trigger] t.column_holds(k, high_nibble(d), low_nibble(d));
            lemma_split_byte(d);
            assert(rows_share(t2.low, t2.high, k, high_nibble(d), low_nibble(d)));
            assert(has_bit(t2.mask, k));
            assert(t2.column_holds(k, high_nibble(d), low_nibble(d)));
        } else {
            assert(has_bit(t2.mask, b));
            assert(t2.column_holds(b, hc, lc));
        }
    }
}

/// A packing that meets the invariant after all targets represents them.
pub proof fn lemma_packing_represents(s: Packing, targets: Seq<u8>)
    requires
        packing_inv(s, targets, targets.len() as int),
    ensures
        s.table.represents(targets),
{
    assert(targets.take(targets.len() as int) =~= targets);
    lemma_represents(s.table, targets);
}

/// A packing that succeeds meets the invariant of the packing at each prefix.
pub proof fn lemma_pack_prefix(targets: Seq<u8>, n: nat)
    requires
        n <= targets.len(),
        pack_prefix(targets, n) is Some,
    ensures
        packing_inv(pack_prefix(targets, n).unwrap(), targets, n as int),
    decreases n,
{
    if n == 0 {
        lemma_empty_packing(targets);
    } else {
        lemma_pack_prefix(targets, (n - 1) as nat);
        lemma_pack_step(pack_prefix(targets, (n - 1) as nat).unwrap(), targets, n - 1);
    }
}

/// The tables of a packing that succeeds report exactly the targets.
pub proof fn lemma_pack_represents(targets: Seq<u8>)
    requires
        pack(targets) is Some,
    ensures
        pack(targets).unwrap().represents(targets),
        pack(targets).unwrap().no_ghosts(targets),
{
    lemma_pack_prefix(targets, targets.len());
    lemma_packing_represents(pack_prefix(targets, targets.len()).unwrap(), targets);
    lemma_no_ghosts(pack(targets).unwrap(), targets);
}

/// Once the packing has failed at a prefix, it fails at every longer one.
pub proof fn lemma_pack_none(targets: Seq<u8>, n: nat)
    requires
        n <= targets.len(),
        pack_prefix(targets, n) is None,
    ensures
        pack(targets) is None,
    decreases targets.len() - n,
{
    if n < targets.len() {
        assert(pack_prefix(targets, n + 1) is None);
        lemma_pack_none(targets, n + 1);
    }
}

} // verus!
