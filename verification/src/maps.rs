//! The concurrent maps that the loader keeps its state in.
//!
//! The maps change through shared references. Every function here that changes one takes it by a
//! mutable reference, so that what a map holds is fixed between two such calls. A guard on an entry
//! borrows the map, so no guard is held when a map changes, and no call waits for another one.

use vstd::prelude::*;
use dashmap::mapref::one::Ref;
use dashmap::DashMap;
use std::sync::Arc;
use crate::indirect::IndirectLoad;
use crate::load::AssetLoad;

verus! {

/// Declares `dashmap::DashMap`, the map itself.
#[verifier::external_type_specification]
#[verifier::external_body]
#[verifier::reject_recursive_types(K)]
#[verifier::reject_recursive_types(V)]
#[verifier::reject_recursive_types(S)]
pub struct ExDashMap<K, V, S>(dashmap::DashMap<K, V, S>);

/// Declares `dashmap::mapref::one::Ref`, a read guard on one entry of a map.
#[verifier::external_type_specification]
#[verifier::external_body]
#[verifier::reject_recursive_types(K)]
#[verifier::reject_recursive_types(V)]
pub struct ExRef<'a, K, V>(dashmap::mapref::one::Ref<'a, K, V>);

/// The loads that a map holds, by the numbers of their handles.
pub uninterp spec fn load_entries(map: DashMap<u64, AssetLoad>) -> Map<u64, AssetLoad>;

/// The load that a read guard is on.
pub uninterp spec fn guarded_load(guard: Ref<'_, u64, AssetLoad>) -> AssetLoad;

/// Calls `DashMap::new`, which makes a map without entries.
#[verifier::external_body]
pub(crate) fn new_loads() -> (r: DashMap<u64, AssetLoad>)
    ensures
        forall|key: u64| !load_entries(r).contains_key(key),
{
    DashMap::new()
}

/// Calls `DashMap::get`, which returns a guard on the entry of a key, if the key has one.
#[verifier::external_body]
pub(crate) fn get_load(map: &DashMap<u64, AssetLoad>, key: u64) -> (r: Option<
    Ref<'_, u64, AssetLoad>,
>)
    ensures
        r is Some <==> load_entries(*map).contains_key(key),
        r matches Some(guard) ==> guarded_load(guard) == load_entries(*map)[key],
{
    map.get(&key)
}

/// Calls `Ref::value`, which returns the value of the entry that the guard is on.
#[verifier::external_body]
pub(crate) fn guard_value<'a>(guard: &'a Ref<'_, u64, AssetLoad>) -> (r: &'a AssetLoad)
    ensures
        *r == guarded_load(*guard),
{
    guard.value()
}

/// Calls `DashMap::insert`, which sets the value of a key, in place of its old value if it has one.
#[verifier::external_body]
pub(crate) fn insert_load(map: &mut DashMap<u64, AssetLoad>, key: u64, value: AssetLoad)
    ensures
        load_entries(*final(map)) == load_entries(*old(map)).insert(key, value),
{
    map.insert(key, value);
}

/// Calls `DashMap::remove`, which removes the entry of a key and returns its value, if the key has
/// one.
#[verifier::external_body]
pub(crate) fn remove_load(map: &mut DashMap<u64, AssetLoad>, key: u64) -> (r: Option<AssetLoad>)
    ensures
        load_entries(*final(map)) == load_entries(*old(map)).remove(key),
        r is Some <==> load_entries(*old(map)).contains_key(key),
        r matches Some(value) ==> value == load_entries(*old(map))[key],
{
    map.remove(&key).map(|entry| entry.1)
}

/// Calls `DashMap::iter`, which visits every entry once, and takes the keys. The order of the
/// entries depends on the hasher of the map and is left open.
#[verifier::external_body]
pub(crate) fn load_keys(map: &DashMap<u64, AssetLoad>) -> (r: Vec<u64>)
    ensures
        r@.no_duplicates(),
        r@.to_set() == load_entries(*map).dom(),
{
    map.iter().map(|entry| *entry.key()).collect()
}

/// The indirect references that a map holds, by the numbers of their handles.
pub uninterp spec fn indirect_entries(map: DashMap<u64, IndirectLoad>) -> Map<u64, IndirectLoad>;

/// Calls `DashMap::new`, which makes a map without entries.
#[verifier::external_body]
pub(crate) fn new_indirects() -> (r: DashMap<u64, IndirectLoad>)
    ensures
        forall|key: u64| !indirect_entries(r).contains_key(key),
{
    DashMap::new()
}

/// Calls `DashMap::insert`, which sets the value of a key, in place of its old value if it has one.
#[verifier::external_body]
pub(crate) fn insert_indirect(map: &mut DashMap<u64, IndirectLoad>, key: u64, value: IndirectLoad)
    ensures
        indirect_entries(*final(map)) == indirect_entries(*old(map)).insert(key, value),
{
    map.insert(key, value);
}

/// Calls `DashMap::remove`, which removes the entry of a key and returns its value, if the key has
/// one.
#[verifier::external_body]
pub(crate) fn remove_indirect(map: &mut DashMap<u64, IndirectLoad>, key: u64) -> (r: Option<
    IndirectLoad,
>)
    ensures
        indirect_entries(*final(map)) == indirect_entries(*old(map)).remove(key),
        r is Some <==> indirect_entries(*old(map)).contains_key(key),
        r matches Some(value) ==> value == indirect_entries(*old(map))[key],
{
    map.remove(&key).map(|entry| entry.1)
}

/// Calls `DashMap::iter`, which visits every entry once, and takes the keys. The order of the
/// entries depends on the hasher of the map and is left open.
#[verifier::external_body]
pub(crate) fn indirect_keys(map: &DashMap<u64, IndirectLoad>) -> (r: Vec<u64>)
    ensures
        r@.no_duplicates(),
        r@.to_set() == indirect_entries(*map).dom(),
{
    map.iter().map(|entry| *entry.key()).collect()
}

/// The handle numbers that a map holds, by the numbers of the assets.
pub uninterp spec fn uuid_entries(map: DashMap<u128, u64>) -> Map<u128, u64>;

/// Calls `DashMap::new`, which makes a map without entries.
#[verifier::external_body]
pub(crate) fn new_uuids() -> (r: DashMap<u128, u64>)
    ensures
        forall|key: u128| !uuid_entries(r).contains_key(key),
{
    DashMap::new()
}

/// Calls `DashMap::get`, which finds the value of a key, if the key has one.
#[verifier::external_body]
pub(crate) fn get_uuid(map: &DashMap<u128, u64>, key: u128) -> (r: Option<u64>)
    ensures
        r is Some <==> uuid_entries(*map).contains_key(key),
        r matches Some(value) ==> value == uuid_entries(*map)[key],
{
    map.get(&key).map(|entry| *entry)
}

/// Calls `DashMap::insert`, which sets the value of a key, in place of its old value if it has one.
#[verifier::external_body]
pub(crate) fn insert_uuid(map: &mut DashMap<u128, u64>, key: u128, value: u64)
    ensures
        uuid_entries(*final(map)) == uuid_entries(*old(map)).insert(key, value),
{
    map.insert(key, value);
}

/// The handle numbers that a map holds, by the paths and types of the identifiers.
pub uninterp spec fn identifier_entries(map: DashMap<(String, Option<u128>), u64>) -> Map<
    (Seq<char>, Option<u128>),
    u64,
>;

/// Calls `DashMap::new`, which makes a map without entries.
#[verifier::external_body]
pub(crate) fn new_identifiers() -> (r: DashMap<(String, Option<u128>), u64>)
    ensures
        forall|key: (Seq<char>, Option<u128>)| !identifier_entries(r).contains_key(key),
{
    DashMap::new()
}

/// Calls `DashMap::get`, which finds the value of a key, if the key has one.
#[verifier::external_body]
pub(crate) fn get_identifier(
    map: &DashMap<(String, Option<u128>), u64>,
    key: &(String, Option<u128>),
) -> (r: Option<u64>)
    ensures
        r is Some <==> identifier_entries(*map).contains_key((key.0@, key.1)),
        r matches Some(value) ==> value == identifier_entries(*map)[(key.0@, key.1)],
{
    map.get(key).map(|entry| *entry)
}

/// Calls `DashMap::insert`, which sets the value of a key, in place of its old value if it has one.
#[verifier::external_body]
pub(crate) fn insert_identifier(
    map: &mut DashMap<(String, Option<u128>), u64>,
    key: (String, Option<u128>),
    value: u64,
)
    ensures
        identifier_entries(*final(map)) == identifier_entries(*old(map)).insert(
            (key.0@, key.1),
            value,
        ),
{
    map.insert(key, value);
}

/// The table of a loader, a `dashmap::DashMap` that others read through references of their own. It
/// is written through this value alone, which cannot be cloned; the references are only for
/// reading.
#[verifier::external_body]
pub struct TableWriter {
    table: Arc<DashMap<u64, u64>>,
}

/// The handle numbers that a table holds, by the numbers of the indirect handles.
pub uninterp spec fn table_entries(table: TableWriter) -> Map<u64, u64>;

/// A reference is one to a table.
pub uninterp spec fn read_by(table: TableWriter, reader: Arc<DashMap<u64, u64>>) -> bool;

/// Calls `DashMap::new`, which makes a map without entries.
#[verifier::external_body]
pub(crate) fn new_table() -> (r: TableWriter)
    ensures
        forall|key: u64| !table_entries(r).contains_key(key),
{
    TableWriter { table: Arc::new(DashMap::new()) }
}

/// Calls `DashMap::get`, which finds the value of a key, if the key has one.
#[verifier::external_body]
pub(crate) fn get_table(table: &TableWriter, key: u64) -> (r: Option<u64>)
    ensures
        r is Some <==> table_entries(*table).contains_key(key),
        r matches Some(value) ==> value == table_entries(*table)[key],
{
    table.table.get(&key).map(|entry| *entry)
}

/// Calls `DashMap::insert`, which sets the value of a key, in place of its old value if it has one.
/// References to the table stay references to it.
#[verifier::external_body]
pub(crate) fn insert_table(table: &mut TableWriter, key: u64, value: u64)
    ensures
        table_entries(*final(table)) == table_entries(*old(table)).insert(key, value),
        forall|reader| read_by(*final(table), reader) == read_by(*old(table), reader),
{
    table.table.insert(key, value);
}

/// Calls `DashMap::remove`, which removes the entry of a key, if the key has one. References to the
/// table stay references to it.
#[verifier::external_body]
pub(crate) fn remove_table(table: &mut TableWriter, key: u64)
    ensures
        table_entries(*final(table)) == table_entries(*old(table)).remove(key),
        forall|reader| read_by(*final(table), reader) == read_by(*old(table), reader),
{
    table.table.remove(&key);
}

/// Calls `Arc::clone`, which makes a reference to the table.
#[verifier::external_body]
pub(crate) fn share_table(table: &TableWriter) -> (r: Arc<DashMap<u64, u64>>)
    ensures
        read_by(*table, r),
{
    Arc::clone(&table.table)
}

/// Calls `Arc::clone`, which makes another reference to the table that a reference is to.
#[verifier::external_body]
pub(crate) fn share_reader(reader: &Arc<DashMap<u64, u64>>) -> (r: Arc<DashMap<u64, u64>>)
    ensures
        forall|table| read_by(table, *reader) ==> read_by(table, r),
{
    Arc::clone(reader)
}

/// Calls `DashMap::get` through a reference for reading. What it finds depends on what was written
/// by then, so nothing is claimed of the result.
#[verifier::external_body]
pub(crate) fn read_shared_table(reader: &Arc<DashMap<u64, u64>>, key: u64) -> Option<u64> {
    reader.get(&key).map(|entry| *entry)
}

/// Calls `DashMap::get` through a reference for reading while the table itself is borrowed, so that
/// nothing is written meanwhile. It finds the value of a key, if the key has one.
#[verifier::external_body]
pub(crate) fn read_current(
    reader: &Arc<DashMap<u64, u64>>,
    table: &TableWriter,
    key: u64,
) -> (r: Option<u64>)
    requires
        read_by(*table, *reader),
    ensures
        r is Some <==> table_entries(*table).contains_key(key),
        r matches Some(value) ==> value == table_entries(*table)[key],
{
    let _ = table;
    reader.get(&key).map(|entry| *entry)
}

} // verus!
