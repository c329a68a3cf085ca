//! Trusted interface to the insertion-order-preserving map of the
//! cross-boundary propagator.
//!
//! The map is `indexmap`'s `IndexMap`, keyed by span id (`u64`); the value
//! holds the rest of a span's context, its trace id and trace flags
//! (`(u128, u8)`). What the map holds is named by [`ordered_entries`]; each
//! wrapper states, over that name, what `indexmap`'s source shows of the
//! method it calls.

use vstd::prelude::*;

use indexmap::IndexMap;

verus! {

#[verifier::external_type_specification]
#[verifier::external_body]
#[verifier::reject_recursive_types(K)]
#[verifier::reject_recursive_types(V)]
#[verifier::reject_recursive_types(S)]
pub struct ExIndexMap<K, V, S>(IndexMap<K, V, S>);

/// What a context map holds: its key/value pairs, in insertion order.
pub uninterp spec fn ordered_entries(m: IndexMap<u64, (u128, u8)>) -> Seq<(u64, (u128, u8))>;

/// Relies on indexmap's IndexMap::new: makes an empty map.
#[verifier::external_body]
pub(crate) fn cb_map_new() -> (m: IndexMap<u64, (u128, u8)>)
    ensures
        ordered_entries(m) == Seq::<(u64, (u128, u8))>::empty(),
{
    IndexMap::new()
}

/// Relies on indexmap's IndexMap::insert: a new key is appended last in
/// order and `None` returned; an existing key keeps its place in the order,
/// its value is updated, and the old value returned.
#[verifier::external_body]
pub(crate) fn cb_map_insert(
    m: &mut IndexMap<u64, (u128, u8)>,
    key: u64,
    value: (u128, u8),
) -> (prev: Option<(u128, u8)>)
    ensures
        (forall|i: int|
            0 <= i < ordered_entries(*old(m)).len()
                ==> (#[trigger] ordered_entries(*old(m))[i]).0 != key) ==> {
            &&& ordered_entries(*final(m)) == ordered_entries(*old(m)).push((key, value))
            &&& prev is None
        },
        (exists|i: int|
            0 <= i < ordered_entries(*old(m)).len()
                && (#[trigger] ordered_entries(*old(m))[i]).0 == key) ==> (exists|i: int|
            {
                &&& 0 <= i < ordered_entries(*old(m)).len()
                &&& (#[trigger] ordered_entries(*old(m))[i]).0 == key
                &&& ordered_entries(*final(m)) == ordered_entries(*old(m)).update(
                    i,
                    (key, value),
                )
                &&& prev == Some(ordered_entries(*old(m))[i].1)
            }),
{
    m.insert(key, value)
}

/// Relies on indexmap's IndexMap::shift_remove: the entry with the key is
/// removed and its value returned, the entries after it shifting down with
/// their relative order preserved; an absent key returns `None` and leaves
/// the map unchanged.
#[verifier::external_body]
pub(crate) fn cb_map_shift_remove(m: &mut IndexMap<u64, (u128, u8)>, key: u64) -> (removed:
    Option<(u128, u8)>)
    ensures
        (forall|i: int|
            0 <= i < ordered_entries(*old(m)).len()
                ==> (#[trigger] ordered_entries(*old(m))[i]).0 != key) ==> {
            &&& ordered_entries(*final(m)) == ordered_entries(*old(m))
            &&& removed is None
        },
        (exists|i: int|
            0 <= i < ordered_entries(*old(m)).len()
                && (#[trigger] ordered_entries(*old(m))[i]).0 == key) ==> (exists|i: int|
            {
                &&& 0 <= i < ordered_entries(*old(m)).len()
                &&& (#[trigger] ordered_entries(*old(m))[i]).0 == key
                &&& ordered_entries(*final(m)) == ordered_entries(*old(m)).remove(i)
                &&& removed == Some(ordered_entries(*old(m))[i].1)
            }),
{
    m.shift_remove(&key)
}

/// Relies on indexmap's IndexMap::len: the number of entries the map holds.
#[verifier::external_body]
pub(crate) fn cb_map_len(m: &IndexMap<u64, (u128, u8)>) -> (n: usize)
    ensures
        n == ordered_entries(*m).len(),
{
    m.len()
}

/// Relies on indexmap's IndexMap::last: the last entry in order, or nothing
/// when the map is empty.
#[verifier::external_body]
pub(crate) fn cb_map_last(m: &IndexMap<u64, (u128, u8)>) -> (r: Option<(u64, (u128, u8))>)
    ensures
        ordered_entries(*m).len() == 0 ==> r is None,
        ordered_entries(*m).len() > 0 ==> r == Some(ordered_entries(*m).last()),
{
    m.last().map(|(k, v)| (*k, *v))
}

} // verus!
