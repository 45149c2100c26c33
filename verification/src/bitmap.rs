//! Compressed sets of token positions, held in `roaring` bitmaps.

use roaring::bitmap::Iter;
use roaring::RoaringBitmap;
use vstd::prelude::*;

verus! {

/// `roaring::RoaringBitmap`: a compressed set of `u32` values.
#[verifier::external_type_specification]
#[verifier::external_body]
pub struct ExRoaringBitmap(RoaringBitmap);

/// `roaring::bitmap::Iter`: a walk over the values of a bitmap.
#[verifier::external_type_specification]
#[verifier::external_body]
pub struct ExBitmapIter<'a>(Iter<'a>);

/// The values that a bitmap holds.
pub uninterp spec fn bitmap_set(bitmap: RoaringBitmap) -> Set<u32>;

/// The values that a bitmap iterator has yet to yield, in the order in which it yields them.
pub uninterp spec fn bitmap_rest(iter: Iter) -> Seq<u32>;

/// Every value is smaller than the ones behind it.
pub open spec fn strictly_increasing(s: Seq<u32>) -> bool {
    forall|i: int, j: int| 0 <= i < j < s.len() ==> s[i] < s[j]
}

/// `RoaringBitmap::new` gives a bitmap without any value.
pub assume_specification[ RoaringBitmap::new ]() -> (bitmap: RoaringBitmap)
    ensures
        bitmap_set(bitmap) == Set::<u32>::empty(),
;

/// `RoaringBitmap::insert` adds one value and tells whether it was absent.
pub assume_specification[ RoaringBitmap::insert ](bitmap: &mut RoaringBitmap, value: u32) -> (absent:
    bool)
    ensures
        bitmap_set(*final(bitmap)) == bitmap_set(*old(bitmap)).insert(value),
        absent == !bitmap_set(*old(bitmap)).contains(value),
;

/// `RoaringBitmap::remove` takes one value out and tells whether it was present.
pub assume_specification[ RoaringBitmap::remove ](bitmap: &mut RoaringBitmap, value: u32) -> (present:
    bool)
    ensures
        bitmap_set(*final(bitmap)) == bitmap_set(*old(bitmap)).remove(value),
        present == bitmap_set(*old(bitmap)).contains(value),
;

/// `RoaringBitmap::len` counts the values.
pub assume_specification[ RoaringBitmap::len ](bitmap: &RoaringBitmap) -> (count: u64)
    ensures
        count == bitmap_set(*bitmap).len(),
;

/// `RoaringBitmap::iter` walks over every value once, in ascending order.
pub assume_specification<'a>[ RoaringBitmap::iter ](bitmap: &'a RoaringBitmap) -> (iter: Iter<'a>)
    ensures
        strictly_increasing(bitmap_rest(iter)),
        bitmap_rest(iter).to_set() == bitmap_set(*bitmap),
;

/// `Iterator::next` on a bitmap iterator yields the first value that is left, if there is one.
#[verifier::external_body]
pub(crate) fn next_position(iter: &mut Iter) -> (value: Option<u32>)
    ensures
        bitmap_rest(*old(iter)).len() == 0 ==> value is None && bitmap_rest(*final(iter))
            == bitmap_rest(*old(iter)),
        bitmap_rest(*old(iter)).len() > 0 ==> value == Some(bitmap_rest(*old(iter))[0])
            && bitmap_rest(*final(iter)) == bitmap_rest(*old(iter)).drop_first(),
{
    iter.next()
}

/// `|=` on a bitmap adds the values of another one.
#[verifier::external_body]
pub(crate) fn add_all(bitmap: &mut RoaringBitmap, other: &RoaringBitmap)
    ensures
        bitmap_set(*final(bitmap)) == bitmap_set(*old(bitmap)).union(bitmap_set(*other)),
{
    *bitmap |= other;
}

/// `&` on two bitmaps keeps the values that both hold.
#[verifier::external_body]
pub(crate) fn common(left: RoaringBitmap, right: RoaringBitmap) -> (both: RoaringBitmap)
    ensures
        bitmap_set(both) == bitmap_set(left).intersect(bitmap_set(right)),
{
    left & right
}

} // verus!
