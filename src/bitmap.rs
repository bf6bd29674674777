//! The compressed bitmaps of the inverted index, as provided by `croaring`.
//!
//! A bitmap is seen through the set of row ids it holds; each operation the
//! column uses is stated over that set.
use vstd::prelude::*;

verus! {

#[verifier::external_type_specification]
#[verifier::external_body]
pub struct ExBitmap(croaring::Bitmap);

/// The set of integers held by a bitmap.
pub uninterp spec fn members(b: croaring::Bitmap) -> Set<u32>;

/// The number of bytes of a bitmap in the portable serialized format.
pub uninterp spec fn portable_size(b: croaring::Bitmap) -> nat;

/// Every set of `u32` is finite.
pub proof fn lemma_u32_set_finite(s: Set<u32>)
    ensures
        s.finite(),
{
    broadcast use vstd::set_lib::full_set_properties;

    assert(Set::<u32>::full().finite());
    vstd::set_lib::lemma_set_subset_finite(Set::<u32>::full(), s);
}

/// Relies on `croaring::Bitmap::new`: a new bitmap is empty.
pub assume_specification[ croaring::Bitmap::new ]() -> (r: croaring::Bitmap)
    ensures
        members(r) == Set::<u32>::empty(),
;

/// Relies on `croaring::Bitmap::contains`: membership of one integer.
pub assume_specification[ croaring::Bitmap::contains ](b: &croaring::Bitmap, element: u32) -> (r:
    bool)
    ensures
        r == members(*b).contains(element),
;

/// Relies on `croaring::Bitmap::is_empty`: whether no integer is held.
pub assume_specification[ croaring::Bitmap::is_empty ](b: &croaring::Bitmap) -> (r: bool)
    ensures
        r == (members(*b) == Set::<u32>::empty()),
;

/// Relies on `croaring::Bitmap::or_inplace`: the bitmap becomes the union.
pub assume_specification[ croaring::Bitmap::or_inplace ](
    b: &mut croaring::Bitmap,
    other: &croaring::Bitmap,
)
    ensures
        members(*final(b)) == members(*old(b)).union(members(*other)),
;

/// Relies on `croaring::Bitmap::intersect`: whether an integer is held by both.
pub assume_specification[ croaring::Bitmap::intersect ](
    b: &croaring::Bitmap,
    other: &croaring::Bitmap,
) -> (r: bool)
    ensures
        r == (members(*b).intersect(members(*other)) != Set::<u32>::empty()),
;

/// Relies on `croaring::Bitmap::of`: a bitmap of the given integers.
pub assume_specification[ croaring::Bitmap::of ](elements: &[u32]) -> (r: croaring::Bitmap)
    ensures
        members(r) == elements@.to_set(),
;

/// Relies on `croaring::Bitmap::to_vec`: the integers held, in ascending order.
pub assume_specification[ croaring::Bitmap::to_vec ](b: &croaring::Bitmap) -> (r: Vec<u32>)
    ensures
        r@.to_set() == members(*b),
        forall|i: int, j: int| 0 <= i < j < r@.len() ==> r@[i] < r@[j],
;

/// Relies on `croaring::Bitmap::clear`: the bitmap becomes empty.
pub assume_specification[ croaring::Bitmap::clear ](b: &mut croaring::Bitmap)
    ensures
        members(*final(b)) == Set::<u32>::empty(),
;

/// Relies on `croaring::Bitmap::add_range` over the half-open range `lo..hi`.
#[verifier::external_body]
pub(crate) fn add_span(b: &mut croaring::Bitmap, lo: u32, hi: u32)
    requires
        lo <= hi,
    ensures
        members(*final(b)) == members(*old(b)).union(Set::<u32>::range(lo, hi)),
{
    b.add_range(lo..hi)
}

/// Relies on `croaring::Bitmap::get_serialized_size_in_bytes` for the
/// portable format.
#[verifier::external_body]
pub(crate) fn serialized_size(b: &croaring::Bitmap) -> (r: usize)
    ensures
        r == portable_size(*b),
{
    b.get_serialized_size_in_bytes::<croaring::Portable>()
}

} // verus!
