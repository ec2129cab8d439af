//! What holds the loaded assets, and what else a loader works with.

use vstd::prelude::*;
use crossbeam_channel::Sender;
use dashmap::DashMap;
use std::sync::atomic::AtomicU64;
use std::sync::Arc;
use crate::ids::{AssetRef, AssetTypeId, AssetUuid, IndirectIdentifier, LoadHandle};
use crate::maps::{read_current, read_shared_table, share_reader, TableWriter};
use crate::maps::{read_by, table_entries};
use crate::messages::{AssetLoadOp, HandleOp};
use crate::metadata::AssetMetadata;
use crate::metadata::candidate_views;

verus! {

/// Says which load belongs to which asset.
pub trait LoaderInfoProvider {
    /// Returns the load of an asset that is given by its UUID.
    fn get_load_handle(&self, id: &AssetRef) -> Option<LoadHandle>
        requires
            id is Uuid,
    ;

    /// Returns the asset of a load.
    fn get_asset_id(&self, load: LoadHandle) -> Option<AssetUuid>;

    /// What load operations report through `tx` comes to the loader.
    open spec fn hears_op(&self, tx: Sender<HandleOp>) -> bool {
        true
    }
}

/// A call that a loader made to an [`AssetStorage`].
pub enum StorageCall {
    /// The data of a version was handed over; the storage took it or refused it.
    Update {
        asset_type: AssetTypeId,
        data: Seq<u8>,
        handle: LoadHandle,
        version: u32,
        /// Why the storage refused the data, if it did.
        refusal: Option<Seq<char>>,
    },
    /// A version came into use.
    Commit { asset_type: AssetTypeId, handle: LoadHandle, version: u32 },
    /// A version is no longer needed.
    Free { asset_type: AssetTypeId, handle: LoadHandle, version: u32 },
}

/// Why a storage refused data, if it did.
pub open spec fn refusal(r: Result<(), String>) -> Option<Seq<char>> {
    match r {
        Ok(_) => None,
        Err(text) => Some(text@),
    }
}

/// Holds the assets of all types. The contracts only keep count of the calls that are made.
pub trait AssetStorage {
    /// The calls made so far, in their order.
    open spec fn calls(&self) -> Seq<StorageCall> {
        arbitrary()
    }

    /// Loads the data of a version. `load_op` reports the outcome, now or later; the version is
    /// not in use before it is committed. The operation reports to the loader that
    /// `loader_info` speaks for.
    fn update_asset(
        &mut self,
        loader_info: &dyn LoaderInfoProvider,
        asset_type: &AssetTypeId,
        data: Vec<u8>,
        handle: LoadHandle,
        load_op: AssetLoadOp,
        version: u32,
    ) -> (r: Result<(), String>)
        requires
            load_op.spec_handle() == handle,
            load_op.spec_version() == version,
            load_op.spec_sender() matches Some(tx) && loader_info.hears_op(tx),
        ensures
            final(self).calls() == old(self).calls().push(
                StorageCall::Update {
                    asset_type: *asset_type,
                    data: data@,
                    handle,
                    version,
                    refusal: refusal(r),
                },
            ),
    ;

    /// Brings a version into use.
    fn commit_asset_version(&mut self, asset_type: &AssetTypeId, handle: LoadHandle, version: u32)
        ensures
            final(self).calls() == old(self).calls().push(
                StorageCall::Commit { asset_type: *asset_type, handle, version },
            ),
    ;

    /// Gives up a version.
    fn free(&mut self, asset_type: &AssetTypeId, handle: LoadHandle, version: u32)
        ensures
            final(self).calls() == old(self).calls().push(
                StorageCall::Free { asset_type: *asset_type, handle, version },
            ),
    ;
}

/// Gives out the handles of new loads.
pub trait HandleAllocator {
    /// Whether the allocator may give out a handle.
    open spec fn may_give(&self, handle: LoadHandle) -> bool {
        true
    }

    /// Gives out a handle.
    fn allocate(&self) -> (r: LoadHandle)
        ensures
            self.may_give(r),
    ;
}

/// Gives out handles in the order of their numbers, from 1 on. Loaders may share one.
#[derive(Debug)]
pub struct AtomicHandleAllocator(AtomicU64);

impl AtomicHandleAllocator {
    /// The counter was made with a given number.
    pub closed spec fn starts_at(&self, number: u64) -> bool {
        call_ensures(AtomicU64::new, (number,), self.0)
    }
}

impl Default for AtomicHandleAllocator {
    /// An allocator that has given out no handle yet.
    fn default() -> (r: Self)
        ensures
            r.starts_at(1),
    {
        AtomicHandleAllocator(AtomicU64::new(1))
    }
}

impl HandleAllocator for AtomicHandleAllocator {
    /// The number of the handle is what the counter held when it was raised by one.
    closed spec fn may_give(&self, handle: LoadHandle) -> bool {
        call_ensures(
            AtomicU64::fetch_add,
            (&self.0, 1u64, std::sync::atomic::Ordering::Relaxed),
            handle.0,
        )
    }

    fn allocate(&self) -> LoadHandle {
        let raw: u64 = self.0.fetch_add(1, std::sync::atomic::Ordering::Relaxed);
        LoadHandle(raw)
    }
}

impl HandleAllocator for Arc<AtomicHandleAllocator> {
    /// The handle is one of the shared allocator.
    closed spec fn may_give(&self, handle: LoadHandle) -> bool {
        (**self).may_give(handle)
    }

    fn allocate(&self) -> LoadHandle {
        let shared: &AtomicHandleAllocator = &**self;
        shared.allocate()
    }
}

/// Binds identifiers to assets.
pub trait IndirectionResolver {
    /// Whether the resolver may bind an identifier to an asset, or to none, given its candidates.
    open spec fn may_resolve(
        &self,
        id: (Seq<char>, Option<u128>),
        candidates: Seq<(Seq<char>, Seq<AssetMetadata>)>,
        choice: Option<AssetUuid>,
    ) -> bool {
        true
    }

    /// Binds an identifier to one of its candidates, or to none.
    fn resolve(&self, id: &IndirectIdentifier, candidates: Vec<(String, Vec<AssetMetadata>)>) -> (r:
        Option<AssetUuid>)
        ensures
            self.may_resolve(id@, candidate_views(candidates@), r),
    ;
}

/// Maps indirect handles to the loads that they stand for. The loader keeps the table up to date,
/// so it can be fetched once and kept.
pub struct IndirectionTable(Arc<DashMap<u64, u64>>);

impl IndirectionTable {
    /// The reference through which the table is read.
    pub closed spec fn reference(&self) -> Arc<DashMap<u64, u64>> {
        self.0
    }

    /// Reading the table under the number of a handle may give the number of a load, or none.
    pub closed spec fn may_hold(&self, load: LoadHandle, target: Option<u64>) -> bool {
        call_ensures(read_shared_table, (&self.0, load.0), target)
    }

    /// A table that is read through `table`.
    pub(crate) fn new(table: Arc<DashMap<u64, u64>>) -> (r: Self)
        ensures
            r.reference() == table,
    {
        IndirectionTable(table)
    }

    /// Returns the load that an indirect handle stands for, at a moment at which nothing is written
    /// to the table.
    pub(crate) fn resolve_now(&self, table: &TableWriter, load: LoadHandle) -> (r: Option<LoadHandle>)
        requires
            read_by(*table, self.reference()),
        ensures
            r is Some <==> table_entries(*table).contains_key(load.0),
            r matches Some(target) ==> target.0 == table_entries(*table)[load.0],
    {
        match read_current(&self.0, table, load.0) {
            Some(raw) => Some(LoadHandle(raw)),
            None => None,
        }
    }

    /// Returns the load that an indirect handle stands for at the moment.
    pub fn resolve(&self, load: LoadHandle) -> (r: Option<LoadHandle>)
        ensures
            r matches Some(target) ==> self.may_hold(load, Some(target.0)),
            r is None ==> self.may_hold(load, None),
    {
        match read_shared_table(&self.0, load.0) {
            Some(raw) => Some(LoadHandle(raw)),
            None => None,
        }
    }
}

impl Clone for IndirectionTable {
    /// Makes another reference to the same table.
    fn clone(&self) -> (r: Self)
        ensures
            forall|table: TableWriter| #[trigger]
                read_by(table, self.reference()) ==> read_by(table, r.reference()),
    {
        IndirectionTable(share_reader(&self.0))
    }
}

/// How far a load has come.
#[derive(Copy, Clone, PartialEq, Eq, Structural, Debug)]
pub enum LoadStatus {
    /// Nothing refers to the asset.
    NotRequested,
    /// The handle is indirect and does not stand for an asset yet.
    Unresolved,
    /// The asset is being loaded.
    Loading,
    /// The asset is loaded.
    Loaded,
    /// The asset is being unloaded.
    Unloading,
}

/// What is known of a load.
#[derive(Copy, Clone, PartialEq, Eq, Structural, Debug)]
pub struct LoadInfo {
    /// The asset.
    pub asset_id: AssetUuid,
    /// How often it is referenced.
    pub refs: u32,
}

} // verus!
