//! The fixed-capacity vectors of `heapless` that hold the IO elements and records.
//!
//! `heapless::Vec<T, N>` keeps at most `N` items; `push` appends while there is room and
//! hands the item back otherwise; `as_slice` shows the items in order.

use crate::codec8::{AvlDataRecord, AvlN1Element, AvlN2Element, AvlN4Element, AvlN8Element};
use vstd::prelude::*;

verus! {

/// `heapless::Vec`, opaque: its items are known only through the names and wrappers below.
#[verifier::external_type_specification]
#[verifier::external_body]
#[verifier::reject_recursive_types(T)]
pub struct ExStackVec<T, const N: usize>(heapless::Vec<T, N>);

/// `Clone` of `heapless::Vec` (called by the derived `Clone` of the types that hold one);
/// nothing is stated of the copy.
pub assume_specification<T, const N: usize>[<heapless::Vec<T, N> as Clone>::clone](
    v: &heapless::Vec<T, N>,
) -> heapless::Vec<T, N>
    where
        T: Clone,
;

/// The items that a `heapless::Vec<AvlN1Element, 16>` holds, in order.
pub uninterp spec fn n1_items(v: heapless::Vec<AvlN1Element, 16>) -> Seq<AvlN1Element>;

/// `heapless::Vec::new`: a vector of one-byte IO elements with no items.
#[verifier::external_body]
pub(crate) fn n1_items_new() -> (v: heapless::Vec<AvlN1Element, 16>)
    ensures
        n1_items(v) == Seq::<AvlN1Element>::empty(),
{
    heapless::Vec::new()
}

/// `heapless::Vec::push`: appends `item` when fewer than 16 items are held, and hands it
/// back unchanged (here as `Some`) otherwise.
#[verifier::external_body]
pub(crate) fn n1_items_push(v: &mut heapless::Vec<AvlN1Element, 16>, item: AvlN1Element) -> (r: Option<AvlN1Element>)
    ensures
        r is None <==> n1_items(*old(v)).len() < 16,
        r is None ==> n1_items(*final(v)) == n1_items(*old(v)).push(item),
        r is Some ==> r == Some(item) && n1_items(*final(v)) == n1_items(*old(v)),
{
    match v.push(item) {
        Ok(()) => None,
        Err(back) => Some(back),
    }
}

/// `heapless::Vec::as_slice`: the items held, in order; never more than 16.
#[verifier::external_body]
pub(crate) fn n1_items_slice(v: &heapless::Vec<AvlN1Element, 16>) -> (s: &[AvlN1Element])
    ensures
        s@ == n1_items(*v),
        s@.len() <= 16,
{
    v.as_slice()
}

/// The items that a `heapless::Vec<AvlN2Element, 16>` holds, in order.
pub uninterp spec fn n2_items(v: heapless::Vec<AvlN2Element, 16>) -> Seq<AvlN2Element>;

/// `heapless::Vec::new`: a vector of two-byte IO elements with no items.
#[verifier::external_body]
pub(crate) fn n2_items_new() -> (v: heapless::Vec<AvlN2Element, 16>)
    ensures
        n2_items(v) == Seq::<AvlN2Element>::empty(),
{
    heapless::Vec::new()
}

/// `heapless::Vec::push`: appends `item` when fewer than 16 items are held, and hands it
/// back unchanged (here as `Some`) otherwise.
#[verifier::external_body]
pub(crate) fn n2_items_push(v: &mut heapless::Vec<AvlN2Element, 16>, item: AvlN2Element) -> (r: Option<AvlN2Element>)
    ensures
        r is None <==> n2_items(*old(v)).len() < 16,
        r is None ==> n2_items(*final(v)) == n2_items(*old(v)).push(item),
        r is Some ==> r == Some(item) && n2_items(*final(v)) == n2_items(*old(v)),
{
    match v.push(item) {
        Ok(()) => None,
        Err(back) => Some(back),
    }
}

/// `heapless::Vec::as_slice`: the items held, in order; never more than 16.
#[verifier::external_body]
pub(crate) fn n2_items_slice(v: &heapless::Vec<AvlN2Element, 16>) -> (s: &[AvlN2Element])
    ensures
        s@ == n2_items(*v),
        s@.len() <= 16,
{
    v.as_slice()
}

/// The items that a `heapless::Vec<AvlN4Element, 16>` holds, in order.
pub uninterp spec fn n4_items(v: heapless::Vec<AvlN4Element, 16>) -> Seq<AvlN4Element>;

/// `heapless::Vec::new`: a vector of four-byte IO elements with no items.
#[verifier::external_body]
pub(crate) fn n4_items_new() -> (v: heapless::Vec<AvlN4Element, 16>)
    ensures
        n4_items(v) == Seq::<AvlN4Element>::empty(),
{
    heapless::Vec::new()
}

/// `heapless::Vec::push`: appends `item` when fewer than 16 items are held, and hands it
/// back unchanged (here as `Some`) otherwise.
#[verifier::external_body]
pub(crate) fn n4_items_push(v: &mut heapless::Vec<AvlN4Element, 16>, item: AvlN4Element) -> (r: Option<AvlN4Element>)
    ensures
        r is None <==> n4_items(*old(v)).len() < 16,
        r is None ==> n4_items(*final(v)) == n4_items(*old(v)).push(item),
        r is Some ==> r == Some(item) && n4_items(*final(v)) == n4_items(*old(v)),
{
    match v.push(item) {
        Ok(()) => None,
        Err(back) => Some(back),
    }
}

/// `heapless::Vec::as_slice`: the items held, in order; never more than 16.
#[verifier::external_body]
pub(crate) fn n4_items_slice(v: &heapless::Vec<AvlN4Element, 16>) -> (s: &[AvlN4Element])
    ensures
        s@ == n4_items(*v),
        s@.len() <= 16,
{
    v.as_slice()
}

/// The items that a `heapless::Vec<AvlN8Element, 16>` holds, in order.
pub uninterp spec fn n8_items(v: heapless::Vec<AvlN8Element, 16>) -> Seq<AvlN8Element>;

/// `heapless::Vec::new`: a vector of eight-byte IO elements with no items.
#[verifier::external_body]
pub(crate) fn n8_items_new() -> (v: heapless::Vec<AvlN8Element, 16>)
    ensures
        n8_items(v) == Seq::<AvlN8Element>::empty(),
{
    heapless::Vec::new()
}

/// `heapless::Vec::push`: appends `item` when fewer than 16 items are held, and hands it
/// back unchanged (here as `Some`) otherwise.
#[verifier::external_body]
pub(crate) fn n8_items_push(v: &mut heapless::Vec<AvlN8Element, 16>, item: AvlN8Element) -> (r: Option<AvlN8Element>)
    ensures
        r is None <==> n8_items(*old(v)).len() < 16,
        r is None ==> n8_items(*final(v)) == n8_items(*old(v)).push(item),
        r is Some ==> r == Some(item) && n8_items(*final(v)) == n8_items(*old(v)),
{
    match v.push(item) {
        Ok(()) => None,
        Err(back) => Some(back),
    }
}

/// `heapless::Vec::as_slice`: the items held, in order; never more than 16.
#[verifier::external_body]
pub(crate) fn n8_items_slice(v: &heapless::Vec<AvlN8Element, 16>) -> (s: &[AvlN8Element])
    ensures
        s@ == n8_items(*v),
        s@.len() <= 16,
{
    v.as_slice()
}

/// The items that a `heapless::Vec<AvlDataRecord, 4>` holds, in order.
pub uninterp spec fn record_items(v: heapless::Vec<AvlDataRecord, 4>) -> Seq<AvlDataRecord>;

/// `heapless::Vec::new`: a vector of AVL data records with no items.
#[verifier::external_body]
pub(crate) fn record_items_new() -> (v: heapless::Vec<AvlDataRecord, 4>)
    ensures
        record_items(v) == Seq::<AvlDataRecord>::empty(),
{
    heapless::Vec::new()
}

/// `heapless::Vec::push`: appends `item` when fewer than 4 items are held, and hands it
/// back unchanged (here as `Some`) otherwise.
#[verifier::external_body]
pub(crate) fn record_items_push(v: &mut heapless::Vec<AvlDataRecord, 4>, item: AvlDataRecord) -> (r: Option<AvlDataRecord>)
    ensures
        r is None <==> record_items(*old(v)).len() < 4,
        r is None ==> record_items(*final(v)) == record_items(*old(v)).push(item),
        r is Some ==> r == Some(item) && record_items(*final(v)) == record_items(*old(v)),
{
    match v.push(item) {
        Ok(()) => None,
        Err(back) => Some(back),
    }
}

/// `heapless::Vec::as_slice`: the items held, in order; never more than 4.
#[verifier::external_body]
pub(crate) fn record_items_slice(v: &heapless::Vec<AvlDataRecord, 4>) -> (s: &[AvlDataRecord])
    ensures
        s@ == record_items(*v),
        s@.len() <= 4,
{
    v.as_slice()
}

} // verus!
