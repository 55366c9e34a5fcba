//! Ordinal bitmaps from the `roaring` crate.

use roaring::RoaringTreemap;
use vstd::prelude::*;

verus! {

#[verifier::external_type_specification]
#[verifier::external_body]
pub struct ExRoaringTreemap(RoaringTreemap);

/// The set of 64-bit ordinals a treemap holds.
pub uninterp spec fn treemap_members(bitmap: RoaringTreemap) -> Set<u64>;

/// `RoaringTreemap::contains`: whether `value` is a member.
#[verifier::external_body]
pub fn treemap_contains(bitmap: &RoaringTreemap, value: u64) -> (r: bool)
    ensures
        r == treemap_members(*bitmap).contains(value),
{
    bitmap.contains(value)
}

/// `RoaringTreemap::new`: an empty treemap.
#[verifier::external_body]
pub fn treemap_new() -> (r: RoaringTreemap)
    ensures
        treemap_members(r) =~= Set::empty(),
{
    RoaringTreemap::new()
}

/// `RoaringTreemap::insert`: adds `value`; true when it was absent.
#[verifier::external_body]
pub fn treemap_insert(bitmap: &mut RoaringTreemap, value: u64) -> (r: bool)
    ensures
        r == !treemap_members(*old(bitmap)).contains(value),
        treemap_members(*final(bitmap)) == treemap_members(*old(bitmap)).insert(value),
{
    bitmap.insert(value)
}

/// `RoaringTreemap::remove`: drops `value`; true when it was present.
#[verifier::external_body]
pub fn treemap_remove(bitmap: &mut RoaringTreemap, value: u64) -> (r: bool)
    ensures
        r == treemap_members(*old(bitmap)).contains(value),
        treemap_members(*final(bitmap)) == treemap_members(*old(bitmap)).remove(value),
{
    bitmap.remove(value)
}

/// `RoaringTreemap::len`: the number of members.
#[verifier::external_body]
pub fn treemap_len(bitmap: &RoaringTreemap) -> (r: u64)
    ensures
        r == treemap_members(*bitmap).len(),
{
    bitmap.len()
}

/// `RoaringTreemap::iter`: the members in increasing order.
#[verifier::external_body]
pub fn treemap_values(bitmap: &RoaringTreemap) -> (r: Vec<u64>)
    ensures
        forall|i: int, j: int| 0 <= i < j < r@.len() ==> r@[i] < r@[j],
        forall|i: int| 0 <= i < r@.len() ==> treemap_members(*bitmap).contains(#[trigger] r@[i]),
        forall|v: u64| treemap_members(*bitmap).contains(v) ==> r@.contains(v),
{
    bitmap.iter().collect()
}

/// `RoaringTreemap::is_empty`: whether there are no members.
#[verifier::external_body]
pub fn treemap_is_empty(bitmap: &RoaringTreemap) -> (r: bool)
    ensures
        r == (treemap_members(*bitmap) == Set::<u64>::empty()),
{
    bitmap.is_empty()
}

/// `|=` (`BitOrAssign<&RoaringTreemap>`): adds the members of `other`.
#[verifier::external_body]
pub fn treemap_union_with(bitmap: &mut RoaringTreemap, other: &RoaringTreemap)
    ensures
        treemap_members(*final(bitmap)) == treemap_members(*old(bitmap)).union(treemap_members(*other)),
{
    *bitmap |= other;
}

/// `&` (`BitAnd<&RoaringTreemap>` for `&RoaringTreemap`): the members of
/// both.
#[verifier::external_body]
pub fn treemap_intersection(left: &RoaringTreemap, right: &RoaringTreemap) -> (r: RoaringTreemap)
    ensures
        treemap_members(r) == treemap_members(*left).intersect(treemap_members(*right)),
{
    left & right
}

/// `-=` (`SubAssign<&RoaringTreemap>`): drops the members of `other`.
#[verifier::external_body]
pub fn treemap_subtract(bitmap: &mut RoaringTreemap, other: &RoaringTreemap)
    ensures
        treemap_members(*final(bitmap)) == treemap_members(*old(bitmap)).difference(treemap_members(*other)),
{
    *bitmap -= other;
}

/// The length of the portable encoding of `bitmap`. It depends on how
/// `roaring` stores the members (array, bitmap or run containers), so it is
/// a function of the treemap value rather than of its member set alone.
pub uninterp spec fn treemap_encoded_len(bitmap: RoaringTreemap) -> nat;

/// `RoaringTreemap::serialized_size`: the bytes of the portable encoding
/// of `bitmap`, at least the eight-byte count of inner bitmaps.
#[verifier::external_body]
pub fn treemap_serialized_size(bitmap: &RoaringTreemap) -> (r: usize)
    ensures
        r == treemap_encoded_len(*bitmap),
        r >= 8,
{
    bitmap.serialized_size()
}

/// `RoaringTreemap::intersection_len`: the number of members the two share.
#[verifier::external_body]
pub fn treemap_intersection_len(left: &RoaringTreemap, right: &RoaringTreemap) -> (r: u64)
    ensures
        r == treemap_members(*left).intersect(treemap_members(*right)).len(),
{
    left.intersection_len(right)
}

/// `RoaringTreemap::clone`: a treemap with the same members.
#[verifier::external_body]
pub fn treemap_clone(bitmap: &RoaringTreemap) -> (r: RoaringTreemap)
    ensures
        treemap_members(r) == treemap_members(*bitmap),
{
    bitmap.clone()
}

} // verus!
