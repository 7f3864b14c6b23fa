//! Storage for score vectors: enum maps of the `enum_map` crate, keyed by a
//! facet's ordinal.
//!
//! Nothing in this module is proved. Each function states what the crate's
//! source shows of the call it makes; the rest of the library is verified
//! against these statements.
//!
//! The maps are keyed by `u8`, for which the crate itself implements its key
//! trait, and each is kept in a field that the verifier does not look into:
//! the key trait has a generic associated type, which the verifier takes
//! neither in a declaration of the map type nor in an implementation for a
//! facet.

use vstd::prelude::*;

verus! {

/// An `enum_map::EnumMap<u8, i8>`: one small score for every `u8` key.
#[verifier::external_body]
pub struct ScoreSlots {
    held: enum_map::EnumMap<u8, i8>,
}

/// An `enum_map::EnumMap<u8, i64>`: one wide total for every `u8` key.
#[verifier::external_body]
pub struct TotalSlots {
    held: enum_map::EnumMap<u8, i64>,
}

/// The value that a `ScoreSlots` holds under each key. Every key has one.
pub uninterp spec fn score_slots(m: ScoreSlots) -> Map<u8, i8>;

/// The value that a `TotalSlots` holds under each key. Every key has one.
pub uninterp spec fn total_slots(m: TotalSlots) -> Map<u8, i64>;

/// `EnumMap::default()`: every key holds `i8::default()`, which is zero.
#[verifier::external_body]
pub(crate) fn score_slots_zeroed() -> (m: ScoreSlots)
    ensures
        forall|k: u8| #[trigger] score_slots(m)[k] == 0,
{
    ScoreSlots { held: enum_map::EnumMap::default() }
}

/// `Index::index` of `EnumMap`: the value stored under `k`. A `u8` key is its
/// own position in the 256 places of the map, so no key is out of range.
#[verifier::external_body]
pub(crate) fn score_slot(m: &ScoreSlots, k: u8) -> (v: i8)
    ensures
        v == score_slots(*m)[k],
{
    m.held[k]
}

/// `IndexMut::index_mut` of `EnumMap`: the place of `k`. What is written
/// through it is what the map holds under `k` afterwards; no other key
/// changes.
#[verifier::external_body]
pub(crate) fn score_slot_mut(m: &mut ScoreSlots, k: u8) -> (v: &mut i8)
    ensures
        *v == score_slots(*old(m))[k],
        score_slots(*final(m)) == score_slots(*old(m)).insert(k, *final(v)),
{
    &mut m.held[k]
}

/// `Clone::clone` of `EnumMap`, which clones the array of values.
#[verifier::external_body]
pub(crate) fn score_slots_copy(m: &ScoreSlots) -> (c: ScoreSlots)
    ensures
        score_slots(c) == score_slots(*m),
{
    ScoreSlots { held: m.held.clone() }
}

/// `EnumMap::default()`: every key holds `i64::default()`, which is zero.
#[verifier::external_body]
pub(crate) fn total_slots_zeroed() -> (m: TotalSlots)
    ensures
        forall|k: u8| #[trigger] total_slots(m)[k] == 0,
{
    TotalSlots { held: enum_map::EnumMap::default() }
}

/// `Index::index` of `EnumMap`: the value stored under `k`.
#[verifier::external_body]
pub(crate) fn total_slot(m: &TotalSlots, k: u8) -> (v: i64)
    ensures
        v == total_slots(*m)[k],
{
    m.held[k]
}

/// `IndexMut::index_mut` of `EnumMap`: the place of `k`. What is written
/// through it is what the map holds under `k` afterwards; no other key
/// changes.
#[verifier::external_body]
pub(crate) fn total_slot_mut(m: &mut TotalSlots, k: u8) -> (v: &mut i64)
    ensures
        *v == total_slots(*old(m))[k],
        total_slots(*final(m)) == total_slots(*old(m)).insert(k, *final(v)),
{
    &mut m.held[k]
}

/// `Clone::clone` of `EnumMap`, which clones the array of values.
#[verifier::external_body]
pub(crate) fn total_slots_copy(m: &TotalSlots) -> (c: TotalSlots)
    ensures
        total_slots(c) == total_slots(*m),
{
    TotalSlots { held: m.held.clone() }
}

} // verus!
