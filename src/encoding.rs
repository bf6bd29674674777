//! The encodings a string column may use, behind one interface.
use vstd::prelude::*;
use crate::bitmap::members;
use crate::order::str_lt;
use crate::rle::{decode, opt_lt, opt_ref_view, opt_refs_view, opt_str_view, opt_view, rows_of, Error, RLE};
use crate::row_ids::{Operator, RowIDs};

verus! {

/// A string column in one of the available encodings.
pub enum Encoding {
    RLE(RLE),
}

impl Encoding {
    /// The column behind the encoding.
    pub open spec fn rle(&self) -> RLE {
        match self {
            Encoding::RLE(enc) => *enc,
        }
    }

    /// The encoding's invariant.
    pub open spec fn wf(&self) -> bool {
        self.rle().wf()
    }

    /// The number of bytes the column takes in memory.
    pub fn size(&self) -> (r: u64)
        requires
            self.wf(),
        ensures
            r == if self.rle().footprint() <= u64::MAX {
                self.rle().footprint()
            } else {
                u64::MAX as nat
            },
    {
        match self {
            Encoding::RLE(enc) => enc.size(),
        }
    }

    /// Appends one row holding `v`, unless `v` sorts before the last non-null
    /// value appended.
    pub fn push(&mut self, v: String) -> (r: Result<(), Error>)
        requires
            old(self).wf(),
            old(self).rle().row_count() < u32::MAX,
            old(self).rle().dict().len() + 1 < u32::MAX,
        ensures
            final(self).wf(),
            r is Err <==> (old(self).rle().last_value() matches Some(w) && str_lt(v@, w)),
            r is Err ==> final(self).rle() == old(self).rle(),
            r is Ok ==> final(self).rle().column() == old(self).rle().column().push(Some(v@)),
            r is Ok ==> final(self).rle().dict().to_set() == old(self).rle().dict().to_set().insert(
                v@,
            ),
            r is Ok ==> final(self).rle().row_count() == old(self).rle().row_count() + 1,
    {
        match self {
            Encoding::RLE(enc) => enc.push(v),
        }
    }

    /// Appends one NULL row.
    pub fn push_none(&mut self)
        requires
            old(self).wf(),
            old(self).rle().row_count() < u32::MAX,
        ensures
            final(self).wf(),
            final(self).rle().column() == old(self).rle().column().push(None),
            final(self).rle().dict() == old(self).rle().dict(),
            final(self).rle().row_count() == old(self).rle().row_count() + 1,
    {
        match self {
            Encoding::RLE(enc) => enc.push_none(),
        }
    }

    /// Appends `additional` rows holding `v` (NULL where `v` is `None`).
    pub fn push_additional(&mut self, v: Option<String>, additional: u32)
        requires
            old(self).wf(),
            old(self).rle().row_count() + additional <= u32::MAX,
            old(self).rle().dict().len() + 1 < u32::MAX,
        ensures
            final(self).wf(),
            final(self).rle().column() == old(self).rle().column() + Seq::new(
                additional as nat,
                |i: int| opt_view(v),
            ),
            final(self).rle().dict().to_set() == match v {
                Some(s) => old(self).rle().dict().to_set().insert(s@),
                None => old(self).rle().dict().to_set(),
            },
            final(self).rle().row_count() == old(self).rle().row_count() + additional,
    {
        match self {
            Encoding::RLE(enc) => enc.push_additional(v, additional),
        }
    }

    /// Whether any row is NULL.
    pub fn contains_null(&self) -> (r: bool)
        requires
            self.wf(),
        ensures
            r == exists|i: int| 0 <= i < self.rle().row_count() && self.rle().ids()[i] == 0,
    {
        match self {
            Encoding::RLE(enc) => enc.contains_null(),
        }
    }

    /// The rows whose value `x` satisfies `x op value`, NULL rows excluded.
    pub fn row_ids_filter(&self, value: &str, op: &Operator, dst: RowIDs) -> (r: RowIDs)
        requires
            self.wf(),
        ensures
            r.wf(),
            r.same_kind(&dst),
            r.set() == self.rle().matching(value@, *op),
    {
        match self {
            Encoding::RLE(enc) => enc.row_ids_filter(value, op, dst),
        }
    }

    /// The NULL rows.
    pub fn row_ids_null(&self, dst: RowIDs) -> (r: RowIDs)
        requires
            self.wf(),
        ensures
            r.wf(),
            r.same_kind(&dst),
            r.set() == self.rle().null_rows(),
    {
        match self {
            Encoding::RLE(enc) => enc.row_ids_null(dst),
        }
    }

    /// The rows that are not NULL.
    pub fn row_ids_not_null(&self, dst: RowIDs) -> (r: RowIDs)
        requires
            self.wf(),
        ensures
            r.wf(),
            r.same_kind(&dst),
            r.set() == self.rle().non_null_rows(),
    {
        match self {
            Encoding::RLE(enc) => enc.row_ids_not_null(dst),
        }
    }

    /// The NULL rows if `is_null`, else the rows that are not NULL.
    pub fn row_ids_is_null(&self, is_null: bool, dst: RowIDs) -> (r: RowIDs)
        requires
            self.wf(),
        ensures
            r.wf(),
            r.same_kind(&dst),
            r.set() == if is_null {
                self.rle().null_rows()
            } else {
                self.rle().non_null_rows()
            },
    {
        match self {
            Encoding::RLE(enc) => enc.row_ids_is_null(is_null, dst),
        }
    }

    /// The bitmap of rows of every id, NULL's id `0` first.
    pub fn group_row_ids(&self) -> (r: &[croaring::Bitmap])
        requires
            self.wf(),
        ensures
            r@.len() == self.rle().dict().len() + 1,
            forall|k: int|
                0 <= k < r@.len() ==> members(#[trigger] r@[k]) == rows_of(
                    self.rle().ids(),
                    k as u32,
                ),
    {
        match self {
            Encoding::RLE(enc) => enc.group_row_ids(),
        }
    }

    /// The dictionary, in ascending order.
    pub fn dictionary(&self) -> (r: &[String])
        requires
            self.wf(),
        ensures
            r@.map_values(|s: String| s@) == self.rle().dict(),
    {
        match self {
            Encoding::RLE(enc) => enc.dictionary(),
        }
    }

    /// The value at `row_id`; `None` both for NULL and past the last row.
    pub fn value(&self, row_id: u32) -> (r: Option<&String>)
        requires
            self.wf(),
        ensures
            opt_ref_view(r) == self.rle().value_at(row_id),
    {
        match self {
            Encoding::RLE(enc) => enc.value(row_id),
        }
    }

    /// The value an id stands for: `None` for NULL's id.
    pub fn decode_id(&self, encoded_id: u32) -> (r: Option<String>)
        requires
            self.wf(),
            encoded_id <= self.rle().dict().len(),
        ensures
            opt_view(r) == decode(self.rle().dict(), encoded_id),
    {
        match self {
            Encoding::RLE(enc) => enc.decode_id(encoded_id),
        }
    }

    /// The values at the given rows; row ids past the last row are dropped.
    pub fn values<'a>(&'a self, row_ids: &[u32], dst: Vec<Option<&'a str>>) -> (r: Vec<
        Option<&'a str>,
    >)
        requires
            self.wf(),
        ensures
            r@.map_values(|x: Option<&str>| opt_str_view(x)) == self.rle().gather(row_ids@),
    {
        match self {
            Encoding::RLE(enc) => enc.values(row_ids, dst),
        }
    }

    /// The smallest non-null value among the given rows.
    pub fn min<'a>(&'a self, row_ids: &[u32]) -> (r: Option<&'a String>)
        requires
            self.wf(),
        ensures
            r is None <==> forall|i: int|
                0 <= i < row_ids@.len() ==> #[trigger] self.rle().value_at(row_ids@[i]) is None,
            r matches Some(s) ==> self.rle().is_least(row_ids@, s@),
    {
        match self {
            Encoding::RLE(enc) => enc.min(row_ids),
        }
    }

    /// The largest non-null value among the given rows.
    pub fn max<'a>(&'a self, row_ids: &[u32]) -> (r: Option<&'a String>)
        requires
            self.wf(),
        ensures
            r is None <==> forall|i: int|
                0 <= i < row_ids@.len() ==> #[trigger] self.rle().value_at(row_ids@[i]) is None,
            r matches Some(s) ==> self.rle().is_greatest(row_ids@, s@),
    {
        match self {
            Encoding::RLE(enc) => enc.max(row_ids),
        }
    }

    /// The number of given rows that hold a non-null value.
    pub fn count(&self, row_ids: &[u32]) -> (r: u32)
        requires
            self.wf(),
            row_ids@.len() <= u32::MAX,
        ensures
            r == self.rle().non_null_among(row_ids@).len(),
    {
        match self {
            Encoding::RLE(enc) => enc.count(row_ids),
        }
    }

    /// The value of every row; NULL is `None`.
    pub fn all_values<'a>(&'a self, dst: Vec<Option<&'a String>>) -> (r: Vec<Option<&'a String>>)
        requires
            self.wf(),
        ensures
            opt_refs_view(r@) == self.rle().column(),
    {
        match self {
            Encoding::RLE(enc) => enc.all_values(dst),
        }
    }

    /// The distinct values among the given rows, NULL first and then in
    /// ascending order.
    pub fn distinct_values<'a>(&'a self, row_ids: &[u32], dst: Vec<Option<&'a String>>) -> (r: Vec<
        Option<&'a String>,
    >)
        requires
            self.wf(),
        ensures
            forall|x: Option<Seq<char>>| #[trigger]
                opt_refs_view(r@).contains(x) == self.rle().present(row_ids@, x),
            forall|i: int, j: int|
                0 <= i < j < r@.len() ==> opt_lt(
                    #[trigger] opt_ref_view(r@[i]),
                    #[trigger] opt_ref_view(r@[j]),
                ),
    {
        match self {
            Encoding::RLE(enc) => enc.distinct_values(row_ids, dst),
        }
    }

    /// The ids at the given rows, NULL's id included; row ids past the last
    /// row are dropped.
    pub fn encoded_values(&self, row_ids: &[u32], dst: Vec<u32>) -> (r: Vec<u32>)
        requires
            self.wf(),
        ensures
            r@ == self.rle().gather_ids(row_ids@),
    {
        match self {
            Encoding::RLE(enc) => enc.encoded_values(row_ids, dst),
        }
    }

    /// The id of every row, NULL's id included.
    pub fn all_encoded_values(&self, dst: Vec<u32>) -> (r: Vec<u32>)
        requires
            self.wf(),
        ensures
            r@ == self.rle().ids(),
    {
        match self {
            Encoding::RLE(enc) => enc.all_encoded_values(dst),
        }
    }

    /// Whether some row holds a non-null value that `values` does not list.
    pub fn contains_other_values(&self, values: &[Option<&String>]) -> (r: bool)
        requires
            self.wf(),
        ensures
            r == exists|row: int|
                0 <= row < self.rle().row_count() && match #[trigger] self.rle().column()[row] {
                    Some(x) => !RLE::listed(values@, x),
                    None => false,
                },
    {
        match self {
            Encoding::RLE(enc) => enc.contains_other_values(values),
        }
    }

    /// Whether any given row holds a non-null value.
    pub fn has_non_null_value(&self, row_ids: &[u32]) -> (r: bool)
        requires
            self.wf(),
        ensures
            r == exists|i: int|
                0 <= i < row_ids@.len() && #[trigger] self.rle().value_at(row_ids@[i]) is Some,
    {
        match self {
            Encoding::RLE(enc) => enc.has_non_null_value(row_ids),
        }
    }
}

} // verus!
