//! The run-length encoded dictionary column.
//!
//! Rows are stored as runs of `(id, length)`; id `0` stands for NULL and id
//! `k > 0` for the `k`-th entry of a dictionary kept sorted at all times. For
//! every id the column keeps a bitmap of the rows holding it.
use vstd::prelude::*;
use crate::bitmap::{add_span, members, portable_size, serialized_size};
use vstd::string::StringSliceAdditionalSpecFns;
use vstd::utf8::encode_utf8;
use crate::row_ids::{satisfies, Operator, RowIDs};
use crate::order::{
    compare_str, lemma_str_asymmetric, lemma_str_irreflexive, lemma_str_total,
    lemma_str_transitive, str_le, str_lt,
};

verus! {

/// The encoded id of a NULL value.
pub const NULL_ID: u32 = 0;

/// The id of every row, expanded from the runs.
pub open spec fn expand(runs: Seq<(u32, u32)>) -> Seq<u32>
    decreases runs.len(),
{
    if runs.len() == 0 {
        Seq::empty()
    } else {
        expand(runs.drop_last()) + Seq::new(runs.last().1 as nat, |i: int| runs.last().0)
    }
}

/// The rows whose id is `k`.
pub open spec fn rows_of(ids: Seq<u32>, k: u32) -> Set<u32> {
    Set::new(|r: u32| (r as int) < ids.len() && ids[r as int] == k)
}

/// The value that an id stands for.
pub open spec fn decode(dict: Seq<Seq<char>>, id: u32) -> Option<Seq<char>> {
    if id == 0 {
        None
    } else {
        Some(dict[id - 1])
    }
}

/// The strings of `dict` ascend strictly.
pub open spec fn sorted_strictly(dict: Seq<Seq<char>>) -> bool {
    forall|i: int, j: int| 0 <= i < j < dict.len() ==> str_lt(#[trigger] dict[i], #[trigger] dict[j])
}

/// Every run has a known id and a positive length, and no two adjacent runs
/// share an id.
pub open spec fn runs_ok(runs: Seq<(u32, u32)>, n_ids: nat) -> bool {
    &&& forall|i: int| 0 <= i < runs.len() ==> (#[trigger] runs[i]).0 <= n_ids && runs[i].1 > 0
    &&& forall|i: int| 0 < i < runs.len() ==> (#[trigger] runs[i]).0 != runs[i - 1].0
}

/// The last id in `ids` that is not NULL's, or `0`.
pub open spec fn last_non_null_id(ids: Seq<u32>) -> u32
    decreases ids.len(),
{
    if ids.len() == 0 {
        0
    } else if ids.last() != 0 {
        ids.last()
    } else {
        last_non_null_id(ids.drop_last())
    }
}

/// The view of an optional string.
pub open spec fn opt_view(v: Option<String>) -> Option<Seq<char>> {
    match v {
        Some(s) => Some(s@),
        None => None,
    }
}

/// The view of an optional string reference.
pub open spec fn opt_ref_view(v: Option<&String>) -> Option<Seq<char>> {
    match v {
        Some(s) => Some(s@),
        None => None,
    }
}

/// The views of optional string references.
pub open spec fn opt_refs_view(s: Seq<Option<&String>>) -> Seq<Option<Seq<char>>> {
    s.map_values(|v: Option<&String>| opt_ref_view(v))
}

/// The view of an optional string slice.
pub open spec fn opt_str_view(v: Option<&str>) -> Option<Seq<char>> {
    match v {
        Some(s) => Some(s@),
        None => None,
    }
}

/// Ids `k > p` move up by one, to make room for a new entry at id `p + 1`.
pub open spec fn shift(k: u32, p: u32) -> u32 {
    if k > p {
        (k + 1) as u32
    } else {
        k
    }
}

pub open spec fn shift_run(r: (u32, u32), p: u32) -> (u32, u32) {
    (shift(r.0, p), r.1)
}

/// Why an append was refused.
#[derive(Debug, PartialEq, Eq, Structural)]
pub enum Error {
    /// A value was pushed after a non-null value that sorts after it.
    OrderViolation,
}

/// `a` sorts strictly before `b`, with NULL before every value.
pub open spec fn opt_lt(a: Option<Seq<char>>, b: Option<Seq<char>>) -> bool {
    match (a, b) {
        (None, Some(_)) => true,
        (Some(x), Some(y)) => str_lt(x, y),
        _ => false,
    }
}

/// The UTF-8 bytes of the given strings, all together.
pub open spec fn key_bytes(entries: Seq<String>) -> nat
    decreases entries.len(),
{
    if entries.len() == 0 {
        0
    } else {
        key_bytes(entries.drop_last()) + encode_utf8(entries.last()@).len()
    }
}

/// The serialized bytes of the given bitmaps, all together.
pub open spec fn bitmap_bytes(bitmaps: Seq<croaring::Bitmap>) -> nat
    decreases bitmaps.len(),
{
    if bitmaps.len() == 0 {
        0
    } else {
        bitmap_bytes(bitmaps.drop_last()) + portable_size(bitmaps.last())
    }
}

/// The bytes taken by a vector's header.
pub const VEC_BYTES: u64 = 24;

/// The bytes taken by a string's header.
pub const STRING_BYTES: u64 = 24;

/// The bytes taken by one run.
pub const RUN_BYTES: u64 = 8;

/// The bytes taken by the null flag and the row count.
pub const SCALAR_BYTES: u64 = 5;

/// The most rows a column holds.
pub const MAX_ROWS: u32 = 4294967294;

/// A dictionary-encoded string column stored as runs of ids.
pub struct RLE {
    index_entries: Vec<String>,
    index_row_ids: Vec<croaring::Bitmap>,
    run_lengths: Vec<(u32, u32)>,
    contains_null: bool,
    num_rows: u32,
}

impl RLE {
    /// The dictionary: id `k > 0` stands for entry `k - 1`.
    pub closed spec fn dict(&self) -> Seq<Seq<char>> {
        self.index_entries@.map_values(|s: String| s@)
    }

    /// The runs `(id, length)` in append order.
    pub closed spec fn runs(&self) -> Seq<(u32, u32)> {
        self.run_lengths@
    }

    /// For each id, the set of rows of its bitmap.
    pub closed spec fn index(&self) -> Seq<Set<u32>> {
        self.index_row_ids@.map_values(|b: croaring::Bitmap| members(b))
    }

    /// The flag that records whether a NULL was ever appended.
    pub closed spec fn null_flag(&self) -> bool {
        self.contains_null
    }

    /// The stored row count.
    pub closed spec fn stored_rows(&self) -> nat {
        self.num_rows as nat
    }

    /// The id of each row.
    pub open spec fn ids(&self) -> Seq<u32> {
        expand(self.runs())
    }

    /// The number of rows.
    pub open spec fn row_count(&self) -> nat {
        self.ids().len()
    }

    /// The value of each row; `None` is NULL.
    pub open spec fn column(&self) -> Seq<Option<Seq<char>>> {
        self.ids().map_values(|k: u32| decode(self.dict(), k))
    }

    /// The value at a row id; `None` for NULL and for a row id past the end.
    pub open spec fn value_at(&self, r: u32) -> Option<Seq<char>> {
        if (r as int) < self.row_count() {
            self.column()[r as int]
        } else {
            None
        }
    }

    /// The last non-null value appended, if any.
    pub open spec fn last_value(&self) -> Option<Seq<char>> {
        decode(self.dict(), last_non_null_id(self.ids()))
    }

    /// The column's invariant.
    pub open spec fn wf(&self) -> bool {
        &&& sorted_strictly(self.dict())
        &&& self.dict().len() < u32::MAX
        &&& runs_ok(self.runs(), self.dict().len())
        &&& self.row_count() <= u32::MAX
        &&& self.stored_rows() == self.row_count()
        &&& self.index().len() == self.dict().len() + 1
        &&& forall|k: int|
            0 <= k < self.index().len() ==> #[trigger] self.index()[k] == rows_of(
                self.ids(),
                k as u32,
            )
        &&& self.null_flag() == exists|r: int| 0 <= r < self.row_count() && self.ids()[r] == 0
    }
}

pub proof fn lemma_expand_push(runs: Seq<(u32, u32)>, run: (u32, u32))
    ensures
        expand(runs.push(run)) == expand(runs) + Seq::new(run.1 as nat, |i: int| run.0),
{
    assert(runs.push(run).drop_last() =~= runs);
}

pub proof fn lemma_expand_extend_last(runs: Seq<(u32, u32)>, n: u32)
    requires
        runs.len() > 0,
        runs.last().1 + n <= u32::MAX,
    ensures
        expand(runs.update(runs.len() - 1, (runs.last().0, (runs.last().1 + n) as u32))) == expand(
            runs,
        ) + Seq::new(n as nat, |i: int| runs.last().0),
{
    let last = runs.last();
    let upd = runs.update(runs.len() - 1, (last.0, (last.1 + n) as u32));
    assert(upd.drop_last() =~= runs.drop_last());
    assert(Seq::new((last.1 + n) as u32 as nat, |i: int| last.0) =~= Seq::new(
        last.1 as nat,
        |i: int| last.0,
    ) + Seq::new(n as nat, |i: int| last.0));
    assert(expand(upd) =~= expand(runs) + Seq::new(n as nat, |i: int| last.0));
}

/// Every expanded id is the id of some run.
pub proof fn lemma_expand_ids_bounded(runs: Seq<(u32, u32)>, m: nat)
    requires
        forall|i: int| 0 <= i < runs.len() ==> (#[trigger] runs[i]).0 <= m,
    ensures
        forall|r: int| 0 <= r < expand(runs).len() ==> #[trigger] expand(runs)[r] <= m,
    decreases runs.len(),
{
    if runs.len() > 0 {
        let front = runs.drop_last();
        assert forall|i: int| 0 <= i < front.len() implies (#[trigger] front[i]).0 <= m by {
            assert(front[i] == runs[i]);
        }
        lemma_expand_ids_bounded(front, m);
        assert(runs.last() == runs[runs.len() - 1]);
        let e = expand(runs);
        let ef = expand(front);
        assert forall|r: int| 0 <= r < e.len() implies #[trigger] e[r] <= m by {
            if r < ef.len() {
                assert(e[r] == ef[r]);
            } else {
                assert(e[r] == runs.last().0);
            }
        }
    }
}

pub proof fn lemma_expand_shift(runs: Seq<(u32, u32)>, p: u32)
    requires
        forall|i: int| 0 <= i < runs.len() ==> (#[trigger] runs[i]).0 < u32::MAX,
    ensures
        expand(runs.map_values(|r: (u32, u32)| shift_run(r, p))) == expand(runs).map_values(
            |k: u32| shift(k, p),
        ),
    decreases runs.len(),
{
    let f = |r: (u32, u32)| shift_run(r, p);
    let g = |k: u32| shift(k, p);
    let m = runs.map_values(f);
    if runs.len() > 0 {
        let front = runs.drop_last();
        assert forall|i: int| 0 <= i < front.len() implies (#[trigger] front[i]).0 < u32::MAX by {
            assert(front[i] == runs[i]);
        }
        lemma_expand_shift(front, p);
        assert(m.drop_last() =~= front.map_values(f));
        assert(m.last() == f(runs.last()));
        let last = runs.last();
        assert(Seq::new(last.1 as nat, |i: int| shift(last.0, p)) =~= Seq::new(
            last.1 as nat,
            |i: int| last.0,
        ).map_values(g));
        assert(expand(m) =~= expand(runs).map_values(g));
    } else {
        assert(expand(m) =~= expand(runs).map_values(g));
    }
}

/// Expanding a prefix of the runs gives a prefix of the rows.
pub proof fn lemma_expand_take(runs: Seq<(u32, u32)>, i: int)
    requires
        0 <= i <= runs.len(),
    ensures
        expand(runs.take(i)).len() <= expand(runs).len(),
        forall|r: int|
            0 <= r < expand(runs.take(i)).len() ==> #[trigger] expand(runs.take(i))[r] == expand(
                runs,
            )[r],
        i < runs.len() ==> expand(runs.take(i + 1)) == expand(runs.take(i)) + Seq::new(
            runs[i].1 as nat,
            |j: int| runs[i].0,
        ),
    decreases runs.len() - i,
{
    if i < runs.len() {
        assert(runs.take(i + 1) =~= runs.take(i).push(runs[i]));
        lemma_expand_push(runs.take(i), runs[i]);
        lemma_expand_take(runs, i + 1);
        let a = expand(runs.take(i));
        let b = expand(runs.take(i + 1));
        assert forall|r: int| 0 <= r < a.len() implies #[trigger] a[r] == expand(runs)[r] by {
            assert(a[r] == b[r]);
        }
    } else {
        assert(runs.take(i) =~= runs);
    }
}

pub proof fn lemma_last_non_null_append(ids: Seq<u32>, id: u32, n: nat)
    ensures
        last_non_null_id(ids + Seq::new(n, |i: int| id)) == if n > 0 && id != 0 {
            id
        } else {
            last_non_null_id(ids)
        },
    decreases n,
{
    let s = ids + Seq::new(n, |i: int| id);
    if n == 0 {
        assert(s =~= ids);
    } else {
        assert(s.drop_last() =~= ids + Seq::new((n - 1) as nat, |i: int| id));
        lemma_last_non_null_append(ids, id, (n - 1) as nat);
    }
}

/// The last non-null id of the expanded runs is found in the last two runs.
pub proof fn lemma_last_non_null_runs(runs: Seq<(u32, u32)>, n_ids: nat)
    requires
        runs_ok(runs, n_ids),
        runs.len() > 0,
    ensures
        last_non_null_id(expand(runs)) == if runs.last().0 != 0 {
            runs.last().0
        } else if runs.len() >= 2 {
            runs[runs.len() - 2].0
        } else {
            0
        },
{
    let front = runs.drop_last();
    let last = runs.last();
    assert(runs[runs.len() - 1] == last);
    lemma_last_non_null_append(expand(front), last.0, last.1 as nat);
    if last.0 == 0 {
        if runs.len() >= 2 {
            let prev = front.last();
            assert(prev == runs[runs.len() - 2]);
            lemma_last_non_null_append(expand(front.drop_last()), prev.0, prev.1 as nat);
        } else {
            assert(front.len() == 0);
            assert(expand(front) =~= Seq::<u32>::empty());
        }
    }
}

/// The runs with every id above `p` moved up by one.
fn shifted_runs(runs: &Vec<(u32, u32)>, p: u32) -> (r: Vec<(u32, u32)>)
    requires
        forall|i: int| 0 <= i < runs@.len() ==> (#[trigger] runs@[i]).0 < u32::MAX,
    ensures
        r@ == runs@.map_values(|x: (u32, u32)| shift_run(x, p)),
{
    let mut out: Vec<(u32, u32)> = Vec::new();
    let mut i: usize = 0;
    while i < runs.len()
        invariant
            i <= runs@.len(),
            forall|j: int| 0 <= j < runs@.len() ==> (#[trigger] runs@[j]).0 < u32::MAX,
            out@ == runs@.take(i as int).map_values(|x: (u32, u32)| shift_run(x, p)),
        decreases runs@.len() - i,
    {
        let (id, len) = runs[i];
        let nid = if id > p {
            id + 1
        } else {
            id
        };
        out.push((nid, len));
        proof {
            assert(runs@.take(i + 1) =~= runs@.take(i as int).push(runs@[i as int]));
        }
        i = i + 1;
        proof {
            assert(out@ =~= runs@.take(i as int).map_values(|x: (u32, u32)| shift_run(x, p)));
        }
    }
    proof {
        assert(runs@.take(i as int) =~= runs@);
    }
    out
}

impl RLE {
    /// An empty column with an empty dictionary.
    pub fn new() -> (r: RLE)
        ensures
            r.wf(),
            r.dict() == Seq::<Seq<char>>::empty(),
            r.column() == Seq::<Option<Seq<char>>>::empty(),
            r.row_count() == 0,
    {
        let mut index_row_ids: Vec<croaring::Bitmap> = Vec::new();
        index_row_ids.push(croaring::Bitmap::new());
        let r = RLE {
            index_entries: Vec::new(),
            index_row_ids,
            run_lengths: Vec::new(),
            contains_null: false,
            num_rows: 0,
        };
        proof {
            assert(r.dict() =~= Seq::<Seq<char>>::empty());
            assert(r.column() =~= Seq::<Option<Seq<char>>>::empty());
            assert(r.index()[0] =~= rows_of(r.ids(), 0));
        }
        r
    }

    /// Where `v` stands or would stand in the dictionary: the number of
    /// entries that sort before it, and whether it is an entry.
    fn find(&self, v: &str) -> (r: (usize, bool))
        requires
            self.wf(),
        ensures
            r.0 <= self.dict().len(),
            forall|i: int| 0 <= i < r.0 ==> str_lt(#[trigger] self.dict()[i], v@),
            forall|i: int| r.0 <= i < self.dict().len() ==> !str_lt(#[trigger] self.dict()[i], v@),
            r.1 == (r.0 < self.dict().len() && self.dict()[r.0 as int] == v@),
    {
        let ghost d = self.dict();
        let mut lo: usize = 0;
        let mut hi: usize = self.index_entries.len();
        while lo < hi
            invariant
                self.wf(),
                d == self.dict(),
                lo <= hi <= d.len(),
                d.len() == self.index_entries@.len(),
                forall|i: int| 0 <= i < lo ==> str_lt(#[trigger] d[i], v@),
                forall|i: int| hi <= i < d.len() ==> !str_lt(#[trigger] d[i], v@),
            decreases hi - lo,
        {
            let mid = lo + (hi - lo) / 2;
            let c = compare_str(self.index_entries[mid].as_str(), v);
            proof {
                assert(d[mid as int] == self.index_entries@[mid as int]@);
            }
            if let core::cmp::Ordering::Less = c {
                proof {
                    assert forall|i: int| 0 <= i < mid + 1 implies str_lt(#[trigger] d[i], v@) by {
                        if i < mid {
                            lemma_str_transitive(d[i], d[mid as int], v@);
                        }
                    }
                }
                lo = mid + 1;
            } else {
                proof {
                    assert forall|i: int| mid <= i < d.len() implies !str_lt(#[trigger] d[i], v@) by {
                        if i > mid && str_lt(d[i], v@) {
                            lemma_str_transitive(d[mid as int], d[i], v@);
                            lemma_str_asymmetric(d[mid as int], v@);
                            lemma_str_irreflexive(v@);
                        }
                    }
                }
                hi = mid;
            }
        }
        if lo < self.index_entries.len() {
            let c = compare_str(self.index_entries[lo].as_str(), v);
            proof {
                assert(d[lo as int] == self.index_entries@[lo as int]@);
            }
            (lo, matches!(c, core::cmp::Ordering::Equal))
        } else {
            (lo, false)
        }
    }

    /// The id of `v`, adding it to the dictionary where it sorts if it is
    /// not there yet. Rows keep their values.
    fn intern(&mut self, v: &str) -> (id: u32)
        requires
            old(self).wf(),
            old(self).dict().len() + 1 < u32::MAX,
        ensures
            final(self).wf(),
            final(self).column() == old(self).column(),
            final(self).dict().to_set() == old(self).dict().to_set().insert(v@),
            1 <= id <= final(self).dict().len(),
            final(self).dict()[id - 1] == v@,
            final(self).dict().len() <= old(self).dict().len() + 1,
    {
        let (p, found) = self.find(v);
        if found {
            proof {
                assert(self.dict().to_set() =~= self.dict().to_set().insert(v@));
            }
            return (p + 1) as u32;
        }
        let ghost od = self.dict();
        let ghost oids = self.ids();
        let ghost oindex = self.index();
        let ghost oruns = self.runs();
        let pp = p as u32;
        proof {
            assert forall|i: int| 0 <= i < oruns.len() implies (#[trigger] oruns[i]).0 < u32::MAX by {}
            lemma_expand_shift(oruns, pp);
            lemma_expand_ids_bounded(oruns, od.len());
        }
        let runs = shifted_runs(&self.run_lengths, pp);
        self.run_lengths = runs;
        self.index_entries.insert(p, v.to_owned());
        self.index_row_ids.insert(p + 1, croaring::Bitmap::new());
        proof {
            let nd = self.dict();
            let nids = self.ids();
            let g = |k: u32| shift(k, pp);
            assert(nd =~= od.insert(p as int, v@));
            assert(self.index() =~= oindex.insert(p + 1, Set::<u32>::empty()));
            assert(nids == oids.map_values(g));
            // v sorts strictly between its neighbours.
            assert forall|i: int| p <= i < od.len() implies str_lt(v@, #[trigger] od[i]) by {
                lemma_str_total(od[p as int], v@);
                if i > p {
                    lemma_str_transitive(v@, od[p as int], od[i]);
                }
            }
            assert forall|i: int, j: int| 0 <= i < j < nd.len() implies str_lt(
                #[trigger] nd[i],
                #[trigger] nd[j],
            ) by {
                if i < p && j > p {
                    lemma_str_transitive(nd[i], v@, nd[j]);
                } else if i > p {
                    assert(nd[i] == od[i - 1] && nd[j] == od[j - 1]);
                }
            }
            let nruns = self.runs();
            assert forall|i: int| 0 <= i < nruns.len() implies (#[trigger] nruns[i]).0 <= nd.len()
                && nruns[i].1 > 0 by {
                assert(nruns[i] == shift_run(oruns[i], pp));
            }
            assert forall|i: int| 0 < i < nruns.len() implies (#[trigger] nruns[i]).0 != nruns[i
                - 1].0 by {
                assert(nruns[i] == shift_run(oruns[i], pp));
                assert(nruns[i - 1] == shift_run(oruns[i - 1], pp));
            }
            assert forall|k: int| 0 <= k < self.index().len() implies #[trigger] self.index()[k]
                == rows_of(nids, k as u32) by {
                if k < p + 1 {
                    assert(self.index()[k] == oindex[k]);
                    assert(rows_of(nids, k as u32) =~= rows_of(oids, k as u32));
                } else if k == p + 1 {
                    assert(rows_of(nids, k as u32) =~= Set::<u32>::empty());
                } else {
                    assert(self.index()[k] == oindex[k - 1]);
                    assert(rows_of(nids, k as u32) =~= rows_of(oids, (k - 1) as u32));
                }
            }
            assert forall|r: int| 0 <= r < nids.len() implies (nids[r] == 0) == (oids[r]
                == 0) by {}
            assert(self.column() =~= old(self).column()) by {
                assert forall|r: int| 0 <= r < nids.len() implies decode(nd, #[trigger] nids[r])
                    == decode(od, oids[r]) by {
                    assert(oids[r] <= od.len());
                }
            }
            assert forall|x: Seq<char>| #[trigger] nd.contains(x) == od.to_set().insert(
                v@,
            ).contains(x) by {
                if nd.contains(x) {
                    let i = choose|i: int| 0 <= i < nd.len() && nd[i] == x;
                    if i < p {
                        assert(od[i] == x);
                    } else if i > p {
                        assert(od[i - 1] == x);
                    }
                }
                if od.contains(x) {
                    let i = choose|i: int| 0 <= i < od.len() && od[i] == x;
                    if i < p {
                        assert(nd[i] == x);
                    } else {
                        assert(nd[i + 1] == x);
                    }
                }
                if x == v@ {
                    assert(nd[p as int] == x);
                }
            }
            assert(nd.to_set() =~= od.to_set().insert(v@));
        }
        pp + 1
    }

    /// Appends `n` rows of the id `id`, extending the last run where it has
    /// that id.
    fn append_run(&mut self, id: u32, n: u32)
        requires
            old(self).wf(),
            id <= old(self).dict().len(),
            old(self).row_count() + n <= u32::MAX,
        ensures
            final(self).wf(),
            final(self).dict() == old(self).dict(),
            final(self).ids() == old(self).ids() + Seq::new(n as nat, |i: int| id),
    {
        let ghost oids = self.ids();
        let ghost oindex = self.index();
        let ghost oruns = self.runs();
        let ghost add = Seq::new(n as nat, |i: int| id);
        if n == 0 {
            proof {
                assert(oids + add =~= oids);
            }
            return ;
        }
        let start = self.num_rows;
        let len = self.run_lengths.len();
        if len > 0 && self.run_lengths[len - 1].0 == id {
            let last_len = self.run_lengths[len - 1].1;
            proof {
                assert(oruns.last() == oruns[len - 1]);
                lemma_expand_extend_last(oruns, n);
                assert(oids.len() >= last_len) by {
                    let front = oruns.drop_last();
                    assert(oids == expand(front) + Seq::new(last_len as nat, |i: int| id));
                }
            }
            self.run_lengths.set(len - 1, (id, last_len + n));
        } else {
            proof {
                lemma_expand_push(oruns, (id, n));
            }
            self.run_lengths.push((id, n));
        }
        add_span(&mut self.index_row_ids[id as usize], start, start + n);
        if id == NULL_ID {
            self.contains_null = true;
        }
        self.num_rows = start + n;
        proof {
            let nids = self.ids();
            assert(nids =~= oids + add);
            let nruns = self.runs();
            assert forall|i: int| 0 < i < nruns.len() implies (#[trigger] nruns[i]).0 != nruns[i
                - 1].0 by {
                if i < oruns.len() {
                    assert(nruns[i - 1] == oruns[i - 1]);
                    if i < oruns.len() - 1 || nruns.len() == oruns.len() + 1 {
                        assert(nruns[i] == oruns[i]);
                    }
                }
            }
            assert forall|i: int| 0 <= i < nruns.len() implies (#[trigger] nruns[i]).0
                <= self.dict().len() && nruns[i].1 > 0 by {
                if i < oruns.len() && !(i == oruns.len() - 1 && nruns.len() == oruns.len()) {
                    assert(nruns[i] == oruns[i]);
                }
            }
            assert forall|k: int| 0 <= k < self.index().len() implies #[trigger] self.index()[k]
                == rows_of(nids, k as u32) by {
                if k == id {
                    assert(self.index()[k] == oindex[k].union(Set::<u32>::range(start, (start + n) as u32)));
                    assert forall|r: u32| #[trigger] rows_of(nids, id).contains(r) == (rows_of(
                        oids,
                        id,
                    ).contains(r) || Set::<u32>::range(start, (start + n) as u32).contains(r)) by {
                        if (r as int) < oids.len() {
                            assert(nids[r as int] == oids[r as int]);
                        }
                    }
                    assert(self.index()[k] =~= rows_of(nids, k as u32));
                } else {
                    assert(self.index()[k] == oindex[k]);
                    assert(rows_of(nids, k as u32) =~= rows_of(oids, k as u32));
                }
            }
            assert forall|r: int| 0 <= r < oids.len() implies #[trigger] nids[r] == oids[r] by {}
            if id == 0 {
                assert(self.null_flag());
                assert(nids[oids.len() as int] == 0);
            } else {
                assert(self.null_flag() == old(self).null_flag());
                if old(self).null_flag() {
                    let r = choose|r: int| 0 <= r < oids.len() && oids[r] == 0;
                    assert(nids[r] == 0);
                } else {
                    assert forall|r: int| 0 <= r < nids.len() implies nids[r] != 0 by {
                        if r < oids.len() {
                            assert(nids[r] == oids[r]);
                        }
                    }
                }
            }
            assert(self.dict() =~= old(self).dict());
            assert(self.row_count() == self.stored_rows());
            assert(self.index().len() == self.dict().len() + 1);
            assert(runs_ok(self.runs(), self.dict().len()));
            assert(self.null_flag() == exists|r: int|
                0 <= r < self.row_count() && self.ids()[r] == 0);
        }
    }

    /// Appends `additional` rows holding `v` (NULL where `v` is `None`),
    /// adding a new value to the dictionary where it sorts.
    pub fn push_additional(&mut self, v: Option<String>, additional: u32)
        requires
            old(self).wf(),
            old(self).row_count() + additional <= u32::MAX,
            old(self).dict().len() + 1 < u32::MAX,
        ensures
            final(self).wf(),
            final(self).column() == old(self).column() + Seq::new(
                additional as nat,
                |i: int| opt_view(v),
            ),
            final(self).dict().to_set() == match v {
                Some(s) => old(self).dict().to_set().insert(s@),
                None => old(self).dict().to_set(),
            },
            final(self).dict().len() <= old(self).dict().len() + 1,
            final(self).row_count() == old(self).row_count() + additional,
    {
        let ghost ovals = self.column();
        let ghost add = Seq::new(additional as nat, |i: int| opt_view(v));
        match v {
            Some(s) => {
                let id = self.intern(s.as_str());
                self.append_run(id, additional);
                proof {
                    assert(self.column() =~= ovals + add);
                }
            },
            None => {
                self.append_run(NULL_ID, additional);
                proof {
                    assert(self.column() =~= ovals + add);
                    assert(self.dict().to_set() =~= old(self).dict().to_set());
                }
            },
        }
    }

    /// Appends one NULL row.
    pub fn push_none(&mut self)
        requires
            old(self).wf(),
            old(self).row_count() < u32::MAX,
        ensures
            final(self).wf(),
            final(self).column() == old(self).column().push(None),
            final(self).dict() == old(self).dict(),
            final(self).row_count() == old(self).row_count() + 1,
    {
        let ghost ovals = self.column();
        self.append_run(NULL_ID, 1);
        proof {
            assert(self.column() =~= ovals.push(None));
        }
    }

    /// Appends one row holding `v`. The value must not sort before the last
    /// non-null value appended; if it does, nothing changes.
    pub fn push(&mut self, v: String) -> (r: Result<(), Error>)
        requires
            old(self).wf(),
            old(self).row_count() < u32::MAX,
            old(self).dict().len() + 1 < u32::MAX,
        ensures
            final(self).wf(),
            r is Err <==> (old(self).last_value() matches Some(w) && str_lt(v@, w)),
            r is Err ==> *final(self) == *old(self),
            r is Ok ==> final(self).column() == old(self).column().push(Some(v@)),
            r is Ok ==> final(self).dict().to_set() == old(self).dict().to_set().insert(v@),
            r is Ok ==> final(self).row_count() == old(self).row_count() + 1,
    {
        let len = self.run_lengths.len();
        let mut last_id: u32 = NULL_ID;
        if len > 0 {
            proof {
                lemma_last_non_null_runs(self.runs(), self.dict().len());
            }
            if self.run_lengths[len - 1].0 != NULL_ID {
                last_id = self.run_lengths[len - 1].0;
            } else if len >= 2 {
                last_id = self.run_lengths[len - 2].0;
            }
        } else {
            proof {
                assert(self.ids() =~= Seq::<u32>::empty());
            }
        }
        proof {
            assert(last_id == last_non_null_id(self.ids()));
        }
        if last_id != NULL_ID {
            let c = compare_str(v.as_str(), self.index_entries[(last_id - 1) as usize].as_str());
            if let core::cmp::Ordering::Less = c {
                return Err(Error::OrderViolation);
            }
        }
        self.push_additional(Some(v), 1);
        proof {
            assert(Seq::new(1, |i: int| opt_view(Some(v))) =~= seq![Some(v@)]);
        }
        Ok(())
    }

    /// Walks the runs from run `i`, which starts at row `start`, to the run
    /// that holds `row`. Returns the id at `row` (`None` past the last row)
    /// and the run reached with its first row, from which a walk to a later
    /// row can go on.
    fn locate(&self, row: u32, i: usize, start: u64) -> (r: (Option<u32>, usize, u64))
        requires
            self.wf(),
            i <= self.runs().len(),
            start == expand(self.runs().take(i as int)).len(),
            row >= start,
        ensures
            (row as int) < self.row_count() ==> r.0 == Some(self.ids()[row as int]),
            (row as int) >= self.row_count() ==> r.0 is None,
            r.1 <= self.runs().len(),
            r.2 == expand(self.runs().take(r.1 as int)).len(),
            r.2 <= row,
    {
        let ghost runs = self.runs();
        let mut i = i;
        let mut start = start;
        while i < self.run_lengths.len()
            invariant
                self.wf(),
                runs == self.runs(),
                i <= runs.len(),
                start == expand(runs.take(i as int)).len(),
                row >= start,
            decreases runs.len() - i,
        {
            let (id, len) = self.run_lengths[i];
            proof {
                lemma_expand_take(runs, i as int);
                lemma_expand_take(runs, i + 1);
            }
            if (row as u64) < start + len as u64 {
                proof {
                    assert(expand(runs.take(i + 1))[row as int] == id);
                }
                return (Some(id), i, start);
            }
            start = start + len as u64;
            i = i + 1;
        }
        proof {
            assert(runs.take(i as int) =~= runs);
        }
        (None, i, start)
    }

    /// The id at row `row`, or `None` past the last row.
    fn id_at(&self, row: u32) -> (r: Option<u32>)
        requires
            self.wf(),
        ensures
            (row as int) < self.row_count() ==> r == Some(self.ids()[row as int]),
            (row as int) >= self.row_count() ==> r is None,
    {
        proof {
            assert(self.runs().take(0) =~= Seq::<(u32, u32)>::empty());
            assert(expand(self.runs().take(0)) =~= Seq::<u32>::empty());
        }
        self.locate(row, 0, 0).0
    }

    /// The value at `row_id`; `None` both for a NULL row and for a row id past
    /// the last row.
    pub fn value(&self, row_id: u32) -> (r: Option<&String>)
        requires
            self.wf(),
        ensures
            opt_ref_view(r) == self.value_at(row_id),
    {
        match self.id_at(row_id) {
            Some(id) => {
                if id == NULL_ID {
                    None
                } else {
                    proof {
                        lemma_expand_ids_bounded(self.runs(), self.dict().len());
                    }
                    Some(&self.index_entries[(id - 1) as usize])
                }
            },
            None => None,
        }
    }

    /// The value an id stands for: `None` for NULL's id.
    pub fn decode_id(&self, encoded_id: u32) -> (r: Option<String>)
        requires
            self.wf(),
            encoded_id <= self.dict().len(),
        ensures
            opt_view(r) == decode(self.dict(), encoded_id),
    {
        if encoded_id == NULL_ID {
            None
        } else {
            Some(self.index_entries[(encoded_id - 1) as usize].clone())
        }
    }

    /// The dictionary, in ascending order.
    pub fn dictionary(&self) -> (r: &[String])
        requires
            self.wf(),
        ensures
            r@.map_values(|s: String| s@) == self.dict(),
    {
        self.index_entries.as_slice()
    }

    /// Whether any row is NULL.
    pub fn contains_null(&self) -> (r: bool)
        requires
            self.wf(),
        ensures
            r == exists|i: int| 0 <= i < self.row_count() && self.ids()[i] == NULL_ID,
    {
        self.contains_null
    }

    /// The values at the given rows, in the order given; row ids past the
    /// last row are dropped. The contents of `dst` are replaced.
    pub fn values<'a>(&'a self, row_ids: &[u32], dst: Vec<Option<&'a str>>) -> (r: Vec<
        Option<&'a str>,
    >)
        requires
            self.wf(),
        ensures
            r@.map_values(|x: Option<&str>| opt_str_view(x)) == self.gather(row_ids@),
    {
        let mut dst = dst;
        dst.clear();
        let mut i: usize = 0;
        let mut cursor: usize = 0;
        let mut cursor_start: u64 = 0;
        proof {
            assert(self.runs().take(0) =~= Seq::<(u32, u32)>::empty());
            assert(expand(self.runs().take(0)) =~= Seq::<u32>::empty());
        }
        while i < row_ids.len()
            invariant
                self.wf(),
                i <= row_ids@.len(),
                cursor <= self.runs().len(),
                cursor_start == expand(self.runs().take(cursor as int)).len(),
                dst@.map_values(|x: Option<&str>| opt_str_view(x)) == self.gather(
                    row_ids@.take(i as int),
                ),
            decreases row_ids@.len() - i,
        {
            let row = row_ids[i];
            proof {
                row_ids@.lemma_filter_map_take_succ(self.gather_fn(), i as int);
            }
            if (row as u64) < cursor_start {
                cursor = 0;
                cursor_start = 0;
                proof {
                    assert(self.runs().take(0) =~= Seq::<(u32, u32)>::empty());
                    assert(expand(self.runs().take(0)) =~= Seq::<u32>::empty());
                }
            }
            let (found, next, next_start) = self.locate(row, cursor, cursor_start);
            cursor = next;
            cursor_start = next_start;
            if let Some(id) = found {
                if id == NULL_ID {
                    dst.push(None);
                } else {
                    proof {
                        lemma_expand_ids_bounded(self.runs(), self.dict().len());
                    }
                    dst.push(Some(self.index_entries[(id - 1) as usize].as_str()));
                }
            }
            i = i + 1;
            proof {
                assert(dst@.map_values(|x: Option<&str>| opt_str_view(x)) =~= self.gather(
                    row_ids@.take(i as int),
                ));
            }
        }
        proof {
            assert(row_ids@.take(i as int) =~= row_ids@);
        }
        dst
    }

    /// Picks the value of a row that exists.
    pub open spec fn gather_fn(&self) -> spec_fn(u32) -> Option<Option<Seq<char>>> {
        |r: u32|
            if (r as int) < self.row_count() {
                Some(self.column()[r as int])
            } else {
                None
            }
    }

    /// The values at the given rows that exist, in the order given.
    pub open spec fn gather(&self, rows: Seq<u32>) -> Seq<Option<Seq<char>>> {
        rows.filter_map(self.gather_fn())
    }

    /// Picks the id of a row that exists.
    pub open spec fn gather_id_fn(&self) -> spec_fn(u32) -> Option<u32> {
        |r: u32|
            if (r as int) < self.row_count() {
                Some(self.ids()[r as int])
            } else {
                None
            }
    }

    /// The ids at the given rows that exist, in the order given.
    pub open spec fn gather_ids(&self, rows: Seq<u32>) -> Seq<u32> {
        rows.filter_map(self.gather_id_fn())
    }

    /// The ids at the given rows, NULL's id included, in the order given; row
    /// ids past the last row are dropped. The contents of `dst` are replaced.
    pub fn encoded_values(&self, row_ids: &[u32], dst: Vec<u32>) -> (r: Vec<u32>)
        requires
            self.wf(),
        ensures
            r@ == self.gather_ids(row_ids@),
    {
        let mut dst = dst;
        dst.clear();
        let mut i: usize = 0;
        let mut cursor: usize = 0;
        let mut cursor_start: u64 = 0;
        proof {
            assert(self.runs().take(0) =~= Seq::<(u32, u32)>::empty());
            assert(expand(self.runs().take(0)) =~= Seq::<u32>::empty());
        }
        while i < row_ids.len()
            invariant
                self.wf(),
                i <= row_ids@.len(),
                cursor <= self.runs().len(),
                cursor_start == expand(self.runs().take(cursor as int)).len(),
                dst@ == self.gather_ids(row_ids@.take(i as int)),
            decreases row_ids@.len() - i,
        {
            let row = row_ids[i];
            proof {
                row_ids@.lemma_filter_map_take_succ(self.gather_id_fn(), i as int);
            }
            if (row as u64) < cursor_start {
                cursor = 0;
                cursor_start = 0;
                proof {
                    assert(self.runs().take(0) =~= Seq::<(u32, u32)>::empty());
                    assert(expand(self.runs().take(0)) =~= Seq::<u32>::empty());
                }
            }
            let (found, next, next_start) = self.locate(row, cursor, cursor_start);
            cursor = next;
            cursor_start = next_start;
            if let Some(id) = found {
                dst.push(id);
            }
            i = i + 1;
        }
        proof {
            assert(row_ids@.take(i as int) =~= row_ids@);
        }
        dst
    }

    /// The id of every row, NULL's id included. The contents of `dst` are
    /// replaced.
    pub fn all_encoded_values(&self, dst: Vec<u32>) -> (r: Vec<u32>)
        requires
            self.wf(),
        ensures
            r@ == self.ids(),
    {
        let ghost runs = self.runs();
        let mut dst = dst;
        dst.clear();
        let mut i: usize = 0;
        proof {
            assert(runs.take(0) =~= Seq::<(u32, u32)>::empty());
            assert(dst@ =~= expand(runs.take(0)));
        }
        while i < self.run_lengths.len()
            invariant
                self.wf(),
                runs == self.runs(),
                i <= runs.len(),
                dst@ == expand(runs.take(i as int)),
            decreases runs.len() - i,
        {
            let (id, len) = self.run_lengths[i];
            proof {
                lemma_expand_take(runs, i as int);
            }
            let ghost before = dst@;
            let mut j: u32 = 0;
            while j < len
                invariant
                    j <= len,
                    dst@ == before + Seq::new(j as nat, |k: int| id),
                decreases len - j,
            {
                dst.push(id);
                j = j + 1;
                proof {
                    assert(dst@ =~= before + Seq::new(j as nat, |k: int| id));
                }
            }
            i = i + 1;
        }
        proof {
            assert(runs.take(i as int) =~= runs);
        }
        dst
    }

    /// The value of every row; NULL is `None`. The contents of `dst` are
    /// replaced.
    pub fn all_values<'a>(&'a self, dst: Vec<Option<&'a String>>) -> (r: Vec<Option<&'a String>>)
        requires
            self.wf(),
        ensures
            opt_refs_view(r@) == self.column(),
    {
        let ghost runs = self.runs();
        let ghost view = |x: Option<&String>| opt_ref_view(x);
        let ghost dec = |k: u32| decode(self.dict(), k);
        let mut dst = dst;
        dst.clear();
        let mut i: usize = 0;
        proof {
            assert(runs.take(0) =~= Seq::<(u32, u32)>::empty());
            assert(dst@.map_values(view) =~= expand(runs.take(0)).map_values(dec));
            lemma_expand_ids_bounded(runs, self.dict().len());
        }
        while i < self.run_lengths.len()
            invariant
                self.wf(),
                runs == self.runs(),
                i <= runs.len(),
                view == (|x: Option<&String>| opt_ref_view(x)),
                dec == (|k: u32| decode(self.dict(), k)),
                dst@.map_values(view) == expand(runs.take(i as int)).map_values(dec),
            decreases runs.len() - i,
        {
            let (id, len) = self.run_lengths[i];
            proof {
                lemma_expand_take(runs, i as int);
                assert(runs[i as int].0 <= self.dict().len());
            }
            let item: Option<&String> = if id == NULL_ID {
                None
            } else {
                Some(&self.index_entries[(id - 1) as usize])
            };
            let ghost before = dst@;
            let mut j: u32 = 0;
            while j < len
                invariant
                    j <= len,
                    view == (|x: Option<&String>| opt_ref_view(x)),
                    dst@ == before + Seq::new(j as nat, |k: int| item),
                decreases len - j,
            {
                dst.push(item);
                j = j + 1;
                proof {
                    assert(dst@ =~= before + Seq::new(j as nat, |k: int| item));
                }
            }
            proof {
                assert(view(item) == dec(id));
                let rep = Seq::new(len as nat, |k: int| id);
                assert(expand(runs.take(i + 1)) == expand(runs.take(i as int)) + rep);
                assert(dst@.map_values(view) =~= before.map_values(view) + Seq::new(
                    len as nat,
                    |k: int| view(item),
                ));
                assert(expand(runs.take(i + 1)).map_values(dec) =~= expand(
                    runs.take(i as int),
                ).map_values(dec) + rep.map_values(dec));
                assert(rep.map_values(dec) =~= Seq::new(len as nat, |k: int| view(item)));
            }
            i = i + 1;
        }
        proof {
            assert(runs.take(i as int) =~= runs);
            assert(opt_refs_view(dst@) =~= dst@.map_values(view));
        }
        dst
    }

    /// The rows that hold a value satisfying `x op value`; NULL rows never
    /// do.
    pub open spec fn matching(&self, value: Seq<char>, op: Operator) -> Set<u32> {
        Set::new(
            |r: u32|
                (r as int) < self.row_count() && match self.column()[r as int] {
                    Some(x) => satisfies(x, op, value),
                    None => false,
                },
        )
    }

    /// The rows that are NULL.
    pub open spec fn null_rows(&self) -> Set<u32> {
        Set::new(|r: u32| (r as int) < self.row_count() && self.column()[r as int] is None)
    }

    /// The rows that are not NULL.
    pub open spec fn non_null_rows(&self) -> Set<u32> {
        Set::new(|r: u32| (r as int) < self.row_count() && self.column()[r as int] is Some)
    }

    /// The rows whose id lies in `lo..hi` and is not `skip`.
    pub open spec fn rows_in(&self, lo: u32, hi: u32, skip: u32) -> Set<u32> {
        Set::new(
            |r: u32|
                (r as int) < self.row_count() && lo <= self.ids()[r as int] < hi && self.ids()[r as int]
                    != skip,
        )
    }

    /// The union of the bitmaps of the ids in `lo..hi` other than `skip`.
    fn union_ids(&self, lo: u32, hi: u32, skip: u32) -> (r: croaring::Bitmap)
        requires
            self.wf(),
            1 <= lo,
            hi <= self.dict().len() + 1,
        ensures
            members(r) == self.rows_in(lo, hi, skip),
    {
        let mut acc = croaring::Bitmap::new();
        let mut k: u32 = lo;
        if k > hi {
            k = hi;
        }
        proof {
            assert(members(acc) =~= self.rows_in(lo, k, skip));
        }
        while k < hi
            invariant
                self.wf(),
                hi <= self.dict().len() + 1,
                k <= hi,
                members(acc) == self.rows_in(lo, if k < lo { lo } else { k }, skip),
                lo <= k || k == hi,
            decreases hi - k,
        {
            if k != skip {
                proof {
                    assert(self.index()[k as int] == members(self.index_row_ids@[k as int]));
                }
                acc.or_inplace(&self.index_row_ids[k as usize]);
                proof {
                    assert(members(acc) =~= self.rows_in(lo, (k + 1) as u32, skip));
                }
            } else {
                proof {
                    assert(self.rows_in(lo, k, skip) =~= self.rows_in(lo, (k + 1) as u32, skip));
                }
            }
            k = k + 1;
        }
        proof {
            if lo > hi {
                assert(self.rows_in(lo, hi, skip) =~= self.rows_in(lo, lo, skip));
            }
        }
        acc
    }

    /// The id range `lo..hi`, less `skip`, of the entries `x` with
    /// `x op value`.
    fn id_range(&self, value: &str, op: &Operator) -> (r: (u32, u32, u32))
        requires
            self.wf(),
        ensures
            1 <= r.0,
            r.1 <= self.dict().len() + 1,
            forall|k: u32|
                1 <= k <= self.dict().len() ==> ((r.0 <= k < r.1 && k != r.2) == satisfies(
                    #[trigger] self.dict()[k - 1],
                    *op,
                    value@,
                )),
    {
        let (p, found) = self.find(value);
        let ghost d = self.dict();
        proof {
            assert forall|i: int| p < i < d.len() implies #[trigger] d[i] != value@ && str_lt(
                value@,
                d[i],
            ) by {
                lemma_str_total(d[p as int], value@);
                if d[p as int] == value@ {
                } else {
                    lemma_str_transitive(value@, d[p as int], d[i]);
                }
                lemma_str_irreflexive(value@);
            }
            assert forall|i: int| 0 <= i < p implies #[trigger] d[i] != value@ && !str_lt(
                value@,
                d[i],
            ) by {
                lemma_str_irreflexive(value@);
                lemma_str_asymmetric(d[i], value@);
            }
            if p < d.len() {
                lemma_str_total(d[p as int], value@);
                lemma_str_irreflexive(value@);
            }
        }
        let n = self.index_entries.len() as u32;
        let pp = p as u32;
        let f: u32 = if found {
            1
        } else {
            0
        };
        match op {
            Operator::Equal => {
                if found {
                    (pp + 1, pp + 2, 0)
                } else {
                    (1, 1, 0)
                }
            },
            Operator::NotEqual => {
                if found {
                    (1, n + 1, pp + 1)
                } else {
                    (1, n + 1, 0)
                }
            },
            Operator::LT => (1, pp + 1, 0),
            Operator::LTE => (1, pp + 1 + f, 0),
            Operator::GT => (pp + 1 + f, n + 1, 0),
            Operator::GTE => (pp + 1, n + 1, 0),
        }
    }

    /// The rows whose value `x` satisfies `x op value`, NULL rows excluded,
    /// put into `dst` in place of what it held.
    pub fn row_ids_filter(&self, value: &str, op: &Operator, dst: RowIDs) -> (r: RowIDs)
        requires
            self.wf(),
        ensures
            r.wf(),
            r.same_kind(&dst),
            r.set() == self.matching(value@, *op),
    {
        let (lo, hi, skip) = self.id_range(value, op);
        let acc = self.union_ids(lo, hi, skip);
        proof {
            lemma_expand_ids_bounded(self.runs(), self.dict().len());
            assert forall|r: u32| #[trigger] self.rows_in(lo, hi, skip).contains(r) == self.matching(
                value@,
                *op,
            ).contains(r) by {
                if (r as int) < self.row_count() {
                    let k = self.ids()[r as int];
                    if k != 0 {
                        assert(self.column()[r as int] == Some(self.dict()[k - 1]));
                    }
                }
            }
            assert(self.rows_in(lo, hi, skip) =~= self.matching(value@, *op));
        }
        dst.replace_with(&acc)
    }

    /// The NULL rows, put into `dst` in place of what it held.
    pub fn row_ids_null(&self, dst: RowIDs) -> (r: RowIDs)
        requires
            self.wf(),
        ensures
            r.wf(),
            r.same_kind(&dst),
            r.set() == self.null_rows(),
    {
        proof {
            assert(self.index()[0] == members(self.index_row_ids@[0]));
            assert(rows_of(self.ids(), 0) =~= self.null_rows());
        }
        dst.replace_with(&self.index_row_ids[0])
    }

    /// The rows that are not NULL, put into `dst` in place of what it held.
    pub fn row_ids_not_null(&self, dst: RowIDs) -> (r: RowIDs)
        requires
            self.wf(),
        ensures
            r.wf(),
            r.same_kind(&dst),
            r.set() == self.non_null_rows(),
    {
        let hi = self.index_entries.len() as u32 + 1;
        let acc = self.union_ids(1, hi, 0);
        proof {
            lemma_expand_ids_bounded(self.runs(), self.dict().len());
            assert(self.rows_in(1, hi, 0) =~= self.non_null_rows());
        }
        dst.replace_with(&acc)
    }

    /// The NULL rows if `is_null`, else the rows that are not NULL.
    pub fn row_ids_is_null(&self, is_null: bool, dst: RowIDs) -> (r: RowIDs)
        requires
            self.wf(),
        ensures
            r.wf(),
            r.same_kind(&dst),
            r.set() == if is_null {
                self.null_rows()
            } else {
                self.non_null_rows()
            },
    {
        if is_null {
            self.row_ids_null(dst)
        } else {
            self.row_ids_not_null(dst)
        }
    }

    /// The bitmap of rows of every id, NULL's id `0` first.
    pub fn group_row_ids(&self) -> (r: &[croaring::Bitmap])
        requires
            self.wf(),
        ensures
            r@.len() == self.dict().len() + 1,
            forall|k: int| 0 <= k < r@.len() ==> members(#[trigger] r@[k]) == rows_of(self.ids(), k as u32),
    {
        proof {
            assert forall|k: int| 0 <= k < self.index_row_ids@.len() implies members(
                #[trigger] self.index_row_ids@[k],
            ) == rows_of(self.ids(), k as u32) by {
                assert(self.index()[k] == members(self.index_row_ids@[k]));
            }
        }
        self.index_row_ids.as_slice()
    }

    /// Some given row exists and holds the id `k`.
    pub open spec fn id_selected(&self, rows: Seq<u32>, k: u32) -> bool {
        exists|i: int|
            0 <= i < rows.len() && (rows[i] as int) < self.row_count() && #[trigger] self.ids()[rows[i] as int]
                == k
    }

    /// Some given row holds the non-null value `x`.
    pub open spec fn value_selected(&self, rows: Seq<u32>, x: Seq<char>) -> bool {
        exists|i: int| 0 <= i < rows.len() && #[trigger] self.value_at(rows[i]) == Some(x)
    }

    /// `s` is held by a given row and no given row holds a smaller value.
    pub open spec fn is_least(&self, rows: Seq<u32>, s: Seq<char>) -> bool {
        &&& self.value_selected(rows, s)
        &&& forall|i: int|
            0 <= i < rows.len() ==> match #[trigger] self.value_at(rows[i]) {
                Some(x) => str_le(s, x),
                None => true,
            }
    }

    /// `s` is held by a given row and no given row holds a larger value.
    pub open spec fn is_greatest(&self, rows: Seq<u32>, s: Seq<char>) -> bool {
        &&& self.value_selected(rows, s)
        &&& forall|i: int|
            0 <= i < rows.len() ==> match #[trigger] self.value_at(rows[i]) {
                Some(x) => str_le(x, s),
                None => true,
            }
    }

    /// Whether `b` holds one of the given rows.
    fn hits(b: &croaring::Bitmap, selection: &croaring::Bitmap, rows: Ghost<Seq<u32>>) -> (r: bool)
        requires
            members(*selection) == rows@.to_set(),
        ensures
            r == exists|i: int| 0 <= i < rows@.len() && #[trigger] members(*b).contains(rows@[i]),
    {
        let r = b.intersect(selection);
        proof {
            if r {
                let both = members(*b).intersect(members(*selection));
                assert(!(both =~= Set::<u32>::empty()));
                let x = choose|x: u32| #[trigger] both.contains(x);
                assert(both.contains(x));
                let i = choose|i: int| 0 <= i < rows@.len() && rows@[i] == x;
                assert(members(*b).contains(rows@[i]));
            } else {
                assert forall|i: int| 0 <= i < rows@.len() implies !#[trigger] members(
                    *b,
                ).contains(rows@[i]) by {
                    assert(rows@.to_set().contains(rows@[i]));
                    if members(*b).contains(rows@[i]) {
                        assert(members(*b).intersect(members(*selection)).contains(rows@[i]));
                    }
                }
            }
        }
        r
    }

    /// Relates a selected row's value to its id.
    proof fn lemma_selected(&self, rows: Seq<u32>, i: int)
        requires
            self.wf(),
            0 <= i < rows.len(),
            (rows[i] as int) < self.row_count(),
        ensures
            self.ids()[rows[i] as int] <= self.dict().len(),
            self.value_at(rows[i]) == decode(self.dict(), self.ids()[rows[i] as int]),
    {
        lemma_expand_ids_bounded(self.runs(), self.dict().len());
    }

    /// The smallest non-null value among the given rows; `None` if every
    /// given row is NULL or past the last row.
    pub fn min<'a>(&'a self, row_ids: &[u32]) -> (r: Option<&'a String>)
        requires
            self.wf(),
        ensures
            r is None <==> forall|i: int| 0 <= i < row_ids@.len() ==> #[trigger] self.value_at(row_ids@[i]) is None,
            r matches Some(s) ==> self.is_least(row_ids@, s@),
    {
        let selection = croaring::Bitmap::of(row_ids);
        let n = self.index_entries.len() as u32;
        let mut k: u32 = 1;
        while k <= n
            invariant
                self.wf(),
                n == self.dict().len(),
                1 <= k <= n + 1,
                members(selection) == row_ids@.to_set(),
                forall|j: u32| 1 <= j < k ==> !self.id_selected(row_ids@, j),
            decreases n + 1 - k,
        {
            proof {
                assert(self.index()[k as int] == members(self.index_row_ids@[k as int]));
            }
            if Self::hits(&self.index_row_ids[k as usize], &selection, Ghost(row_ids@)) {
                let s = &self.index_entries[(k - 1) as usize];
                proof {
                    let i = choose|i: int|
                        0 <= i < row_ids@.len() && #[trigger] members(
                            self.index_row_ids@[k as int],
                        ).contains(row_ids@[i]);
                    self.lemma_selected(row_ids@, i);
                    assert(self.value_at(row_ids@[i]) == Some(s@));
                    assert forall|i: int| 0 <= i < row_ids@.len() implies match #[trigger] self.value_at(
                        row_ids@[i],
                    ) {
                        Some(x) => str_le(s@, x),
                        None => true,
                    } by {
                        if (row_ids@[i] as int) < self.row_count() {
                            self.lemma_selected(row_ids@, i);
                            let j = self.ids()[row_ids@[i] as int];
                            if j != 0 {
                                assert(self.id_selected(row_ids@, j));
                                if j > k {
                                    assert(str_lt(self.dict()[k - 1], self.dict()[j - 1]));
                                }
                            }
                        }
                    }
                }
                return Some(s);
            }
            proof {
                if self.id_selected(row_ids@, k) {
                    let i = choose|i: int|
                        0 <= i < row_ids@.len() && (row_ids@[i] as int) < self.row_count()
                            && #[trigger] self.ids()[row_ids@[i] as int] == k;
                    assert(rows_of(self.ids(), k).contains(row_ids@[i]));
                }
            }
            k = k + 1;
        }
        proof {
            assert forall|i: int| 0 <= i < row_ids@.len() implies #[trigger] self.value_at(
                row_ids@[i],
            ) is None by {
                if (row_ids@[i] as int) < self.row_count() {
                    self.lemma_selected(row_ids@, i);
                    let j = self.ids()[row_ids@[i] as int];
                    if j != 0 {
                        assert(self.id_selected(row_ids@, j));
                    }
                }
            }
        }
        None
    }

    /// The largest non-null value among the given rows; `None` if every
    /// given row is NULL or past the last row.
    pub fn max<'a>(&'a self, row_ids: &[u32]) -> (r: Option<&'a String>)
        requires
            self.wf(),
        ensures
            r is None <==> forall|i: int| 0 <= i < row_ids@.len() ==> #[trigger] self.value_at(row_ids@[i]) is None,
            r matches Some(s) ==> self.is_greatest(row_ids@, s@),
    {
        let selection = croaring::Bitmap::of(row_ids);
        let n = self.index_entries.len() as u32;
        let mut k: u32 = n;
        while k >= 1
            invariant
                self.wf(),
                n == self.dict().len(),
                k <= n,
                members(selection) == row_ids@.to_set(),
                forall|j: u32| k < j <= n ==> !self.id_selected(row_ids@, j),
            decreases k,
        {
            proof {
                assert(self.index()[k as int] == members(self.index_row_ids@[k as int]));
            }
            if Self::hits(&self.index_row_ids[k as usize], &selection, Ghost(row_ids@)) {
                let s = &self.index_entries[(k - 1) as usize];
                proof {
                    let i = choose|i: int|
                        0 <= i < row_ids@.len() && #[trigger] members(
                            self.index_row_ids@[k as int],
                        ).contains(row_ids@[i]);
                    self.lemma_selected(row_ids@, i);
                    assert(self.value_at(row_ids@[i]) == Some(s@));
                    assert forall|i: int| 0 <= i < row_ids@.len() implies match #[trigger] self.value_at(
                        row_ids@[i],
                    ) {
                        Some(x) => str_le(x, s@),
                        None => true,
                    } by {
                        if (row_ids@[i] as int) < self.row_count() {
                            self.lemma_selected(row_ids@, i);
                            let j = self.ids()[row_ids@[i] as int];
                            if j != 0 {
                                assert(self.id_selected(row_ids@, j));
                                if j < k {
                                    assert(str_lt(self.dict()[j - 1], self.dict()[k - 1]));
                                }
                            }
                        }
                    }
                }
                return Some(s);
            }
            proof {
                if self.id_selected(row_ids@, k) {
                    let i = choose|i: int|
                        0 <= i < row_ids@.len() && (row_ids@[i] as int) < self.row_count()
                            && #[trigger] self.ids()[row_ids@[i] as int] == k;
                    assert(rows_of(self.ids(), k).contains(row_ids@[i]));
                }
            }
            k = k - 1;
        }
        proof {
            assert forall|i: int| 0 <= i < row_ids@.len() implies #[trigger] self.value_at(
                row_ids@[i],
            ) is None by {
                if (row_ids@[i] as int) < self.row_count() {
                    self.lemma_selected(row_ids@, i);
                    let j = self.ids()[row_ids@[i] as int];
                    if j != 0 {
                        assert(self.id_selected(row_ids@, j));
                    }
                }
            }
        }
        None
    }

    /// The given rows that hold a non-null value.
    pub open spec fn non_null_among(&self, rows: Seq<u32>) -> Seq<u32> {
        rows.filter(|r: u32| self.value_at(r) is Some)
    }

    /// The given rows that are NULL or past the last row.
    pub open spec fn null_among(&self, rows: Seq<u32>) -> Seq<u32> {
        rows.filter(|r: u32| self.value_at(r) is None)
    }

    /// The number of given rows that hold a non-null value.
    pub fn count(&self, row_ids: &[u32]) -> (r: u32)
        requires
            self.wf(),
            row_ids@.len() <= u32::MAX,
        ensures
            r == self.non_null_among(row_ids@).len(),
    {
        let ghost pred = |r: u32| self.value_at(r) is Some;
        let mut c: u32 = 0;
        let mut i: usize = 0;
        proof {
            assert(row_ids@.take(0) =~= Seq::<u32>::empty());
        }
        while i < row_ids.len()
            invariant
                self.wf(),
                i <= row_ids@.len() <= u32::MAX,
                pred == (|r: u32| self.value_at(r) is Some),
                c == row_ids@.take(i as int).filter(pred).len(),
                c <= i,
            decreases row_ids@.len() - i,
        {
            let row = row_ids[i];
            proof {
                assert(row_ids@.take(i + 1) =~= row_ids@.take(i as int).push(row));
                row_ids@.take(i as int).lemma_filter_push(row, pred);
                assert(self.index()[0] == members(self.index_row_ids@[0]));
                if (row as int) < self.row_count() {
                    assert(self.ids()[row as int] <= self.dict().len()) by {
                        lemma_expand_ids_bounded(self.runs(), self.dict().len());
                    }
                    assert(rows_of(self.ids(), 0).contains(row) == (self.ids()[row as int] == 0));
                }
            }
            if row < self.num_rows && !self.index_row_ids[0].contains(row) {
                c = c + 1;
            }
            i = i + 1;
        }
        proof {
            assert(row_ids@.take(i as int) =~= row_ids@);
        }
        c
    }

    /// Whether any given row holds a non-null value.
    pub fn has_non_null_value(&self, row_ids: &[u32]) -> (r: bool)
        requires
            self.wf(),
        ensures
            r == exists|i: int| 0 <= i < row_ids@.len() && #[trigger] self.value_at(row_ids@[i]) is Some,
    {
        let mut i: usize = 0;
        while i < row_ids.len()
            invariant
                self.wf(),
                i <= row_ids@.len(),
                forall|j: int| 0 <= j < i ==> #[trigger] self.value_at(row_ids@[j]) is None,
            decreases row_ids@.len() - i,
        {
            let row = row_ids[i];
            proof {
                assert(self.index()[0] == members(self.index_row_ids@[0]));
                if (row as int) < self.row_count() {
                    assert(self.ids()[row as int] <= self.dict().len()) by {
                        lemma_expand_ids_bounded(self.runs(), self.dict().len());
                    }
                    assert(rows_of(self.ids(), 0).contains(row) == (self.ids()[row as int] == 0));
                }
            }
            if row < self.num_rows && !self.index_row_ids[0].contains(row) {
                proof {
                    assert(self.value_at(row_ids@[i as int]) is Some);
                }
                return true;
            }
            i = i + 1;
        }
        false
    }

    /// Some given row exists and holds `x` (`None`: NULL).
    pub open spec fn present(&self, rows: Seq<u32>, x: Option<Seq<char>>) -> bool {
        exists|i: int|
            0 <= i < rows.len() && (rows[i] as int) < self.row_count() && #[trigger] self.column()[rows[i] as int]
                == x
    }

    /// The distinct values among the given rows, NULL first and then in
    /// ascending order; row ids past the last row are ignored. The contents
    /// of `dst` are replaced.
    pub fn distinct_values<'a>(&'a self, row_ids: &[u32], dst: Vec<Option<&'a String>>) -> (r: Vec<
        Option<&'a String>,
    >)
        requires
            self.wf(),
        ensures
            forall|x: Option<Seq<char>>| #[trigger]
                opt_refs_view(r@).contains(x) == self.present(row_ids@, x),
            forall|i: int, j: int|
                0 <= i < j < r@.len() ==> opt_lt(
                    #[trigger] opt_ref_view(r@[i]),
                    #[trigger] opt_ref_view(r@[j]),
                ),
    {
        let ghost view = |v: Option<&String>| opt_ref_view(v);
        let ghost dec = |k: u32| decode(self.dict(), k);
        let selection = croaring::Bitmap::of(row_ids);
        let n = self.index_entries.len() as u32;
        let mut dst = dst;
        dst.clear();
        let ghost mut ks: Seq<u32> = Seq::empty();
        let mut k: u32 = 0;
        proof {
            assert(dst@.map_values(view) =~= ks.map_values(dec));
        }
        while k <= n
            invariant
                self.wf(),
                n == self.dict().len(),
                k <= n + 1,
                members(selection) == row_ids@.to_set(),
                view == (|v: Option<&String>| opt_ref_view(v)),
                dec == (|k: u32| decode(self.dict(), k)),
                dst@.map_values(view) == ks.map_values(dec),
                forall|j: int| 0 <= j < ks.len() ==> #[trigger] ks[j] < k && self.id_selected(row_ids@, ks[j]),
                forall|a: int, b: int| 0 <= a < b < ks.len() ==> ks[a] < ks[b],
                forall|j: u32| j < k && #[trigger] self.id_selected(row_ids@, j) ==> ks.contains(j),
            decreases n + 1 - k,
        {
            proof {
                assert(self.index()[k as int] == members(self.index_row_ids@[k as int]));
            }
            if Self::hits(&self.index_row_ids[k as usize], &selection, Ghost(row_ids@)) {
                let item: Option<&String> = if k == NULL_ID {
                    None
                } else {
                    Some(&self.index_entries[(k - 1) as usize])
                };
                let ghost before = dst@;
                dst.push(item);
                proof {
                    assert(dst@ == before.push(item));
                    assert(dst@.map_values(view) =~= before.map_values(view).push(view(item)));
                    let i = choose|i: int|
                        0 <= i < row_ids@.len() && #[trigger] members(
                            self.index_row_ids@[k as int],
                        ).contains(row_ids@[i]);
                    assert(self.ids()[row_ids@[i] as int] == k);
                    assert(self.id_selected(row_ids@, k));
                    let oks = ks;
                    ks = ks.push(k);
                    assert(view(item) == dec(k));
                    assert(ks.map_values(dec) =~= oks.map_values(dec).push(dec(k)));
                    assert(dst@.map_values(view) =~= ks.map_values(dec));
                    assert forall|j: u32| j < k + 1 && #[trigger] self.id_selected(row_ids@, j)
                        implies ks.contains(j) by {
                        if j < k {
                            let m = choose|m: int| 0 <= m < oks.len() && oks[m] == j;
                            assert(ks[m] == j);
                        } else {
                            assert(ks[oks.len() as int] == j);
                        }
                    }
                }
            } else {
                proof {
                    if self.id_selected(row_ids@, k) {
                        let i = choose|i: int|
                            0 <= i < row_ids@.len() && (row_ids@[i] as int) < self.row_count()
                                && #[trigger] self.ids()[row_ids@[i] as int] == k;
                        assert(rows_of(self.ids(), k).contains(row_ids@[i]));
                    }
                }
            }
            k = k + 1;
        }
        proof {
            let vs = dst@.map_values(view);
            assert(vs =~= opt_refs_view(dst@));
            lemma_expand_ids_bounded(self.runs(), self.dict().len());
            assert forall|x: Option<Seq<char>>| #[trigger] opt_refs_view(dst@).contains(x) == self.present(
                row_ids@,
                x,
            ) by {
                if vs.contains(x) {
                    let m = choose|m: int| 0 <= m < vs.len() && vs[m] == x;
                    assert(vs[m] == dec(ks[m]));
                    assert(self.id_selected(row_ids@, ks[m]));
                    let i = choose|i: int|
                        0 <= i < row_ids@.len() && (row_ids@[i] as int) < self.row_count()
                            && #[trigger] self.ids()[row_ids@[i] as int] == ks[m];
                    assert(self.column()[row_ids@[i] as int] == x);
                }
                if self.present(row_ids@, x) {
                    let i = choose|i: int|
                        0 <= i < row_ids@.len() && (row_ids@[i] as int) < self.row_count()
                            && #[trigger] self.column()[row_ids@[i] as int] == x;
                    let j = self.ids()[row_ids@[i] as int];
                    assert(self.id_selected(row_ids@, j));
                    assert(ks.contains(j));
                    let m = choose|m: int| 0 <= m < ks.len() && ks[m] == j;
                    assert(vs[m] == x);
                }
            }
            assert forall|i: int, j: int| 0 <= i < j < dst@.len() implies opt_lt(
                #[trigger] opt_ref_view(dst@[i]),
                #[trigger] opt_ref_view(dst@[j]),
            ) by {
                assert(opt_ref_view(dst@[i]) == vs[i]);
                assert(opt_ref_view(dst@[j]) == vs[j]);
                assert(vs[i] == dec(ks[i]));
                assert(vs[j] == dec(ks[j]));
                assert(ks[i] < ks[j]);
            }
        }
        dst
    }

    /// Whether `values` lists `x`.
    pub open spec fn listed(values: Seq<Option<&String>>, x: Seq<char>) -> bool {
        exists|j: int| 0 <= j < values.len() && #[trigger] opt_ref_view(values[j]) == Some(x)
    }

    /// Whether some row holds a non-null value that `values` does not list.
    pub fn contains_other_values(&self, values: &[Option<&String>]) -> (r: bool)
        requires
            self.wf(),
        ensures
            r == exists|row: int|
                0 <= row < self.row_count() && match #[trigger] self.column()[row] {
                    Some(x) => !Self::listed(values@, x),
                    None => false,
                },
    {
        let n = self.index_entries.len() as u32;
        let mut k: u32 = 1;
        proof {
            lemma_expand_ids_bounded(self.runs(), self.dict().len());
        }
        while k <= n
            invariant
                self.wf(),
                n == self.dict().len(),
                1 <= k <= n + 1,
                forall|j: u32|
                    1 <= j < k && #[trigger] rows_of(self.ids(), j) != Set::<u32>::empty()
                        ==> Self::listed(values@, self.dict()[j - 1]),
            decreases n + 1 - k,
        {
            proof {
                assert(self.index()[k as int] == members(self.index_row_ids@[k as int]));
            }
            if !self.index_row_ids[k as usize].is_empty() {
                let entry = &self.index_entries[(k - 1) as usize];
                let mut found = false;
                let mut j: usize = 0;
                while j < values.len() && !found
                    invariant
                        j <= values@.len(),
                        found ==> Self::listed(values@, entry@),
                        !found ==> forall|m: int| 0 <= m < j ==> #[trigger] opt_ref_view(values@[m]) != Some(entry@),
                    decreases values@.len() - j + if found { 0int } else { 1 },
                {
                    if let Some(s) = values[j] {
                        if let core::cmp::Ordering::Equal = compare_str(s.as_str(), entry.as_str()) {
                            found = true;
                            proof {
                                assert(opt_ref_view(values@[j as int]) == Some(entry@));
                            }
                        }
                    }
                    if !found {
                        j = j + 1;
                    }
                }
                if !found {
                    proof {
                        let rows = rows_of(self.ids(), k);
                        assert(!(rows =~= Set::<u32>::empty()));
                        let row = choose|row: u32| #[trigger] rows.contains(row);
                        assert(self.column()[row as int] == Some(entry@));
                    }
                    return true;
                }
            }
            k = k + 1;
        }
        proof {
            assert forall|row: int| 0 <= row < self.row_count() implies !match #[trigger] self.column()[row] {
                Some(x) => !Self::listed(values@, x),
                None => false,
            } by {
                let j = self.ids()[row];
                if j != 0 {
                    assert(rows_of(self.ids(), j).contains(row as u32));
                }
            }
        }
        false
    }

    /// A column with an empty dictionary seeded with the given values, in
    /// any order, and no rows.
    pub fn with_dictionary(dictionary: Vec<String>) -> (r: RLE)
        requires
            dictionary@.len() + 1 < u32::MAX,
        ensures
            r.wf(),
            r.column() == Seq::<Option<Seq<char>>>::empty(),
            r.row_count() == 0,
            r.dict().to_set() == dictionary@.map_values(|s: String| s@).to_set(),
    {
        let ghost view = |s: String| s@;
        let mut r = RLE::new();
        let mut i: usize = 0;
        proof {
            assert(dictionary@.take(0).map_values(view).to_set() =~= Set::<Seq<char>>::empty());
            assert(r.dict().to_set() =~= Set::<Seq<char>>::empty());
        }
        while i < dictionary.len()
            invariant
                r.wf(),
                i <= dictionary@.len(),
                dictionary@.len() + 1 < u32::MAX,
                view == (|s: String| s@),
                r.dict().len() <= i,
                r.column() == Seq::<Option<Seq<char>>>::empty(),
                r.dict().to_set() == dictionary@.take(i as int).map_values(view).to_set(),
            decreases dictionary@.len() - i,
        {
            r.intern(dictionary[i].as_str());
            proof {
                assert(dictionary@.take(i + 1).map_values(view) =~= dictionary@.take(
                    i as int,
                ).map_values(view).push(dictionary@[i as int]@));
                dictionary@.take(i as int).map_values(view).lemma_push_to_set_commute(
                    dictionary@[i as int]@,
                );
            }
            i = i + 1;
        }
        proof {
            assert(dictionary@.take(i as int) =~= dictionary@);
        }
        r
    }

    /// A column whose rows hold the given values in order. At most
    /// `MAX_ROWS` values are taken; any beyond are not appended.
    pub fn from_values(values: &[&str]) -> (r: RLE)
        ensures
            r.wf(),
            values@.len() <= MAX_ROWS ==> r.column() == values@.map_values(
                |s: &str| Some(s@),
            ),
    {
        let ghost view = |s: &str| Some(s@);
        let mut r = RLE::new();
        let mut i: usize = 0;
        proof {
            assert(r.column() =~= values@.take(0).map_values(view));
        }
        while i < values.len() && i < MAX_ROWS as usize
            invariant
                r.wf(),
                i <= values@.len(),
                i <= MAX_ROWS,
                view == (|s: &str| Some(s@)),
                r.dict().len() <= i,
                r.row_count() == i,
                r.column() == values@.take(i as int).map_values(view),
            decreases values@.len() - i,
        {
            r.push_additional(Some(values[i].to_owned()), 1);
            proof {
                assert(r.column() =~= values@.take(i + 1).map_values(view));
            }
            i = i + 1;
        }
        proof {
            if values@.len() <= MAX_ROWS {
                assert(values@.take(i as int) =~= values@);
            }
        }
        r
    }

    /// The footprint that `size` reports: dictionary bytes and string
    /// headers, the bitmaps' serialized bytes, the runs, and the headers of
    /// the three vectors and the scalar fields.
    pub closed spec fn footprint(&self) -> nat {
        ((VEC_BYTES + STRING_BYTES * self.index_entries@.len() + key_bytes(self.index_entries@))
            + (VEC_BYTES + bitmap_bytes(self.index_row_ids@)) + (VEC_BYTES + RUN_BYTES
            * self.run_lengths@.len()) + SCALAR_BYTES) as nat
    }

    /// The number of bytes the column takes in memory, saturated at
    /// `u64::MAX`.
    pub fn size(&self) -> (r: u64)
        requires
            self.wf(),
        ensures
            r == if self.footprint() <= u64::MAX {
                self.footprint()
            } else {
                u64::MAX as nat
            },
    {
        let mut keys: u128 = 0;
        let mut i: usize = 0;
        while i < self.index_entries.len()
            invariant
                i <= self.index_entries@.len(),
                self.index_entries@.len() < u32::MAX,
                keys == key_bytes(self.index_entries@.take(i as int)),
                keys <= i * 0x1_0000_0000_0000_0000,
            decreases self.index_entries@.len() - i,
        {
            let entry = self.index_entries[i].as_str();
            let len = entry.as_bytes().len();
            proof {
                assert(entry.spec_bytes() == encode_utf8(entry@));
                assert(self.index_entries@.take(i + 1).last() == self.index_entries@[i as int]);
                assert(entry@ == self.index_entries@[i as int]@);
                assert(len == encode_utf8(self.index_entries@[i as int]@).len());
                assert(key_bytes(self.index_entries@.take(i + 1)) == key_bytes(
                    self.index_entries@.take(i + 1).drop_last(),
                ) + encode_utf8(self.index_entries@.take(i + 1).last()@).len());
                assert(self.index_entries@.take(i + 1).drop_last() =~= self.index_entries@.take(
                    i as int,
                ));
            }
            keys = keys + len as u128;
            i = i + 1;
        }
        let mut bitmaps: u128 = 0;
        let mut j: usize = 0;
        while j < self.index_row_ids.len()
            invariant
                j <= self.index_row_ids@.len(),
                self.index_row_ids@.len() <= u32::MAX,
                bitmaps == bitmap_bytes(self.index_row_ids@.take(j as int)),
                bitmaps <= j * 0x1_0000_0000_0000_0000,
            decreases self.index_row_ids@.len() - j,
        {
            let len = serialized_size(&self.index_row_ids[j]);
            proof {
                assert(self.index_row_ids@.take(j + 1).drop_last() =~= self.index_row_ids@.take(
                    j as int,
                ));
            }
            bitmaps = bitmaps + len as u128;
            j = j + 1;
        }
        proof {
            assert(self.index_entries@.take(i as int) =~= self.index_entries@);
            assert(self.index_row_ids@.take(j as int) =~= self.index_row_ids@);
        }
        let entries = self.index_entries.len() as u128;
        let runs = self.run_lengths.len() as u128;
        let total: u128 = (VEC_BYTES as u128 + STRING_BYTES as u128 * entries + keys) + (
        VEC_BYTES as u128 + bitmaps) + (VEC_BYTES as u128 + RUN_BYTES as u128 * runs)
            + SCALAR_BYTES as u128;
        if total <= u64::MAX as u128 {
            total as u64
        } else {
            u64::MAX
        }
    }
}

impl Default for RLE {
    /// An empty column with an empty dictionary.
    fn default() -> (r: RLE)
        ensures
            r.wf(),
            r.dict() == Seq::<Seq<char>>::empty(),
            r.column() == Seq::<Option<Seq<char>>>::empty(),
            r.row_count() == 0,
    {
        RLE::new()
    }
}

impl From<Vec<&str>> for RLE {
    /// A column whose rows hold the given values in order; see
    /// [`RLE::from_values`].
    fn from(values: Vec<&str>) -> RLE {
        RLE::from_values(values.as_slice())
    }
}

impl vstd::std_specs::convert::FromSpecImpl<Vec<&str>> for RLE {
    open spec fn obeys_from_spec() -> bool {
        false
    }

    open spec fn from_spec(v: Vec<&str>) -> RLE {
        arbitrary()
    }
}

} // verus!
