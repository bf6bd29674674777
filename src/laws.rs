//! Laws that hold of every column built by the operations of this crate.
//!
//! Every constructor establishes `RLE::wf` and every append preserves it, so
//! each law below holds after any sequence of appends.
use vstd::prelude::*;
use crate::bitmap::lemma_u32_set_finite;
use crate::order::str_le;
use crate::rle::{expand, lemma_expand_ids_bounded, rows_of, RLE};
use crate::row_ids::Operator;

verus! {

/// The total length of the runs.
pub open spec fn run_total(runs: Seq<(u32, u32)>) -> nat
    decreases runs.len(),
{
    if runs.len() == 0 {
        0
    } else {
        run_total(runs.drop_last()) + runs.last().1 as nat
    }
}

/// The total size of the sets.
pub open spec fn set_total(sets: Seq<Set<u32>>) -> nat
    decreases sets.len(),
{
    if sets.len() == 0 {
        0
    } else {
        set_total(sets.drop_last()) + sets.last().len()
    }
}

/// The rows whose id is below `k`.
pub open spec fn rows_below(ids: Seq<u32>, k: int) -> Set<u32> {
    Set::new(|r: u32| (r as int) < ids.len() && (ids[r as int] as int) < k)
}

proof fn lemma_expand_len(runs: Seq<(u32, u32)>)
    ensures
        expand(runs).len() == run_total(runs),
    decreases runs.len(),
{
    if runs.len() > 0 {
        lemma_expand_len(runs.drop_last());
    }
}

proof fn lemma_rows_below(ids: Seq<u32>, index: Seq<Set<u32>>, k: int)
    requires
        0 <= k <= index.len(),
        index.len() <= u32::MAX,
        forall|j: int| 0 <= j < index.len() ==> #[trigger] index[j] == rows_of(ids, j as u32),
    ensures
        set_total(index.take(k)) == rows_below(ids, k).len(),
    decreases k,
{
    if k == 0 {
        assert(rows_below(ids, 0) =~= Set::<u32>::empty());
    } else {
        lemma_rows_below(ids, index, k - 1);
        assert(index.take(k).drop_last() =~= index.take(k - 1));
        let a = rows_below(ids, k - 1);
        let b = rows_of(ids, (k - 1) as u32);
        assert(index.take(k).last() == b);
        assert(rows_below(ids, k) =~= a.union(b));
        lemma_u32_set_finite(a);
        lemma_u32_set_finite(b);
        assert(a.disjoint(b));
        vstd::set_lib::lemma_set_disjoint_lens(a, b);
    }
}

/// The number of rows equals the total length of the runs, and equals the
/// total size of the bitmaps of all ids, NULL's included.
pub proof fn lemma_row_count_agrees(c: &RLE)
    requires
        c.wf(),
    ensures
        c.row_count() == run_total(c.runs()),
        c.row_count() == set_total(c.index()),
{
    broadcast use vstd::set_lib::range_set_properties;

    lemma_expand_len(c.runs());
    lemma_expand_ids_bounded(c.runs(), c.dict().len());
    let n = c.index().len();
    lemma_rows_below(c.ids(), c.index(), n as int);
    assert(c.index().take(n as int) =~= c.index());
    let all = Set::<u32>::range(0, c.row_count() as u32);
    assert(rows_below(c.ids(), n as int) =~= all);
    assert(all.len() == c.row_count());
}

/// Every row in the bitmap of a non-null id exists and holds that id's
/// dictionary entry.
pub proof fn lemma_bitmap_rows_decode(c: &RLE, k: u32, r: u32)
    requires
        c.wf(),
        1 <= k <= c.dict().len(),
        c.index()[k as int].contains(r),
    ensures
        (r as int) < c.row_count(),
        c.value_at(r) == Some(c.dict()[k - 1]),
{
    assert(c.index()[k as int] == rows_of(c.ids(), k));
}

/// The rows equal to `v`, the rows not equal to `v` and the NULL rows
/// partition all rows.
pub proof fn lemma_equality_partition(c: &RLE, v: Seq<char>)
    requires
        c.wf(),
    ensures
        c.matching(v, Operator::Equal).union(c.matching(v, Operator::NotEqual)).union(c.null_rows())
            == Set::<u32>::range(0, c.row_count() as u32),
        c.matching(v, Operator::Equal).disjoint(c.matching(v, Operator::NotEqual)),
        c.matching(v, Operator::Equal).disjoint(c.null_rows()),
        c.matching(v, Operator::NotEqual).disjoint(c.null_rows()),
{
    assert(c.matching(v, Operator::Equal).union(c.matching(v, Operator::NotEqual)).union(
        c.null_rows(),
    ) =~= Set::<u32>::range(0, c.row_count() as u32));
}

/// Among any given rows, those counted as non-null and those that are NULL
/// or past the last row together make up all of them.
pub proof fn lemma_count_complement(c: &RLE, rows: Seq<u32>)
    requires
        c.wf(),
    ensures
        c.non_null_among(rows).len() + c.null_among(rows).len() == rows.len(),
    decreases rows.len(),
{
    reveal(Seq::filter);
    let some = |r: u32| c.value_at(r) is Some;
    let none = |r: u32| c.value_at(r) is None;
    assert(c.non_null_among(rows) == rows.filter(some));
    assert(c.null_among(rows) == rows.filter(none));
    if rows.len() > 0 {
        lemma_count_complement(c, rows.drop_last());
        assert(c.non_null_among(rows.drop_last()) == rows.drop_last().filter(some));
        assert(c.null_among(rows.drop_last()) == rows.drop_last().filter(none));
        assert(rows.filter(some) == if some(rows.last()) {
            rows.drop_last().filter(some).push(rows.last())
        } else {
            rows.drop_last().filter(some)
        });
        assert(rows.filter(none) == if none(rows.last()) {
            rows.drop_last().filter(none).push(rows.last())
        } else {
            rows.drop_last().filter(none)
        });
    } else {
        assert(rows.filter(some) =~= rows);
        assert(rows.filter(none) =~= rows);
    }
}

/// The least value of a selection does not sort after its greatest.
pub proof fn lemma_least_le_greatest(c: &RLE, rows: Seq<u32>, lo: Seq<char>, hi: Seq<char>)
    requires
        c.wf(),
        c.is_least(rows, lo),
        c.is_greatest(rows, hi),
    ensures
        str_le(lo, hi),
{
    let i = choose|i: int| 0 <= i < rows.len() && #[trigger] c.value_at(rows[i]) == Some(lo);
    assert(match c.value_at(rows[i]) {
        Some(x) => str_le(x, hi),
        None => true,
    });
}

proof fn lemma_gather_prefix(c: &RLE, k: nat)
    requires
        c.wf(),
        k <= c.row_count(),
    ensures
        c.gather_ids(Seq::new(k, |i: int| i as u32)) == c.ids().take(k as int),
    decreases k,
{
    let rows = Seq::new(k, |i: int| i as u32);
    if k == 0 {
        assert(c.ids().take(0) =~= Seq::<u32>::empty());
    } else {
        lemma_gather_prefix(c, (k - 1) as nat);
        assert(rows.drop_last() =~= Seq::new((k - 1) as nat, |i: int| i as u32));
        assert(c.ids().take(k as int) =~= c.ids().take(k - 1).push(c.ids()[k - 1]));
        assert(c.gather_ids(rows) =~= c.gather_ids(rows.drop_last()) + seq![c.ids()[k - 1]]);
    }
}

/// Gathering the ids of all rows, in order, gives the id of every row.
pub proof fn lemma_gather_all_ids(c: &RLE)
    requires
        c.wf(),
    ensures
        c.gather_ids(Seq::new(c.row_count(), |i: int| i as u32)) == c.ids(),
        c.ids().len() == c.row_count(),
{
    lemma_gather_prefix(c, c.row_count());
    assert(c.ids().take(c.row_count() as int) =~= c.ids());
}

} // verus!
