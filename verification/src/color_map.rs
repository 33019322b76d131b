//! Tables with one entry for each colour, kept in an FNV hash map.
use vstd::prelude::*;
use fnv::FnvHashMap;
use crate::pieces::Color;

verus! {

/// The hasher of the `fnv` crate, carried through as an opaque value.
#[verifier::external_type_specification]
#[verifier::external_body]
pub struct ExFnvHasher(fnv::FnvHasher);

/// The hasher factory that `FnvHashMap` is built on, carried through as an
/// opaque value.
#[verifier::external_type_specification]
#[verifier::external_body]
#[verifier::reject_recursive_types(H)]
pub struct ExBuildHasherDefault<H>(core::hash::BuildHasherDefault<H>);

/// The key under which a colour's entry is kept: 0 for White, 1 for Black.
pub open spec fn key_of(color: Color) -> u8 {
    match color {
        Color::White => 0,
        Color::Black => 1,
    }
}

pub fn color_key(color: Color) -> (k: u8)
    ensures
        k == key_of(color),
{
    match color {
        Color::White => 0,
        Color::Black => 1,
    }
}

/// Whether a table has an entry for each colour.
pub open spec fn has_both<V>(table: Map<u8, V>) -> bool {
    table.contains_key(0u8) && table.contains_key(1u8)
}

/// The table without entries.
pub open spec fn no_entries<V>() -> Map<u8, V> {
    Map::empty()
}

/// `HashMap::with_capacity_and_hasher` with the FNV hasher: a map without entries.
#[verifier::external_body]
pub(crate) fn table_with_capacity<V>(capacity: usize) -> (table: FnvHashMap<u8, V>)
    ensures
        table@ == no_entries::<V>(),
{
    FnvHashMap::with_capacity_and_hasher(capacity, Default::default())
}

/// `HashMap::insert` on an FNV map: afterwards `key` maps to `value` and every
/// other key is as before.
#[verifier::external_body]
pub(crate) fn table_insert<V>(table: &mut FnvHashMap<u8, V>, key: u8, value: V)
    ensures
        final(table)@ == old(table)@.insert(key, value),
{
    table.insert(key, value);
}

/// `HashMap::get` on an FNV map: the value that `key` maps to, if it has one.
#[verifier::external_body]
pub(crate) fn table_get<V: Copy>(table: &FnvHashMap<u8, V>, key: u8) -> (value: Option<V>)
    ensures
        value == (if table@.contains_key(key) {
            Some(table@[key])
        } else {
            None
        }),
{
    table.get(&key).copied()
}

} // verus!
