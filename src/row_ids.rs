//! Predicate operators and the containers that row-id results go into.
use vstd::prelude::*;
use crate::bitmap::members;
use crate::order::{str_le, str_lt};

verus! {

/// A comparison between a column value and a given value.
#[derive(Debug, Clone, Copy, PartialEq, Eq, Structural)]
pub enum Operator {
    Equal,
    NotEqual,
    LT,
    LTE,
    GT,
    GTE,
}

/// Whether `x op v` holds.
pub open spec fn satisfies(x: Seq<char>, op: Operator, v: Seq<char>) -> bool {
    match op {
        Operator::Equal => x == v,
        Operator::NotEqual => x != v,
        Operator::LT => str_lt(x, v),
        Operator::LTE => str_le(x, v),
        Operator::GT => str_lt(v, x),
        Operator::GTE => str_le(v, x),
    }
}

/// The integers of `s` ascend strictly.
pub open spec fn ascending(s: Seq<u32>) -> bool {
    forall|i: int, j: int| 0 <= i < j < s.len() ==> s[i] < s[j]
}

/// A set of row ids, held either as an ascending vector or as a bitmap.
#[derive(Debug, PartialEq)]
pub enum RowIDs {
    Bitmap(croaring::Bitmap),
    Vector(Vec<u32>),
}

impl RowIDs {
    /// The row ids held.
    pub open spec fn set(&self) -> Set<u32> {
        match self {
            RowIDs::Bitmap(b) => members(*b),
            RowIDs::Vector(v) => v@.to_set(),
        }
    }

    /// A vector holds its row ids in strictly ascending order.
    pub open spec fn wf(&self) -> bool {
        match self {
            RowIDs::Bitmap(_) => true,
            RowIDs::Vector(v) => ascending(v@),
        }
    }

    /// Both are vectors or both are bitmaps.
    pub open spec fn same_kind(&self, other: &RowIDs) -> bool {
        (self is Vector) == (other is Vector)
    }

    /// Whether no row id is held.
    pub fn is_empty(&self) -> (r: bool)
        ensures
            r == (self.set() == Set::<u32>::empty()),
    {
        match self {
            RowIDs::Bitmap(b) => b.is_empty(),
            RowIDs::Vector(v) => {
                proof {
                    if v@.len() > 0 {
                        assert(v@.to_set().contains(v@[0]));
                    } else {
                        assert(v@.to_set() =~= Set::<u32>::empty());
                    }
                }
                v.len() == 0
            },
        }
    }

    /// The row ids held, in ascending order.
    pub fn to_vec(&self) -> (r: Vec<u32>)
        requires
            self.wf(),
        ensures
            r@.to_set() == self.set(),
            ascending(r@),
    {
        match self {
            RowIDs::Bitmap(b) => b.to_vec(),
            RowIDs::Vector(v) => v.clone(),
        }
    }

    /// Replaces the contents with the row ids of `b`, keeping the kind of
    /// container.
    pub fn replace_with(self, b: &croaring::Bitmap) -> (r: RowIDs)
        ensures
            r.wf(),
            r.same_kind(&self),
            r.set() == members(*b),
    {
        match self {
            RowIDs::Bitmap(mut d) => {
                d.clear();
                d.or_inplace(b);
                proof {
                    assert(members(d) =~= members(*b));
                }
                RowIDs::Bitmap(d)
            },
            RowIDs::Vector(mut v) => {
                v.clear();
                let mut items = b.to_vec();
                v.append(&mut items);
                RowIDs::Vector(v)
            },
        }
    }
}

} // verus!
