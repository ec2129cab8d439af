//! The loader: what its users call.

use vstd::prelude::*;
use crate::error::{Failure, LoaderError};
use crate::error::failure_views;
use crate::ids::{AssetTypeId, AssetUuid, IndirectIdentifier, LoadHandle};
use crate::io::{IoCall, LoaderIO};
use crate::load::{AssetLoad, LoadState, LoadView, VersionView};
use crate::maps::guard_value;
use crate::links::{Links, Taken};
use crate::links::given_by;
use crate::model::LoaderView;
use crate::model::error_of;
use crate::pass::{PassState, Stage};
use crate::pass::pass_stages;
use crate::state::LoaderState;
use crate::storage::{
    AssetStorage, AtomicHandleAllocator, HandleAllocator, IndirectionResolver, IndirectionTable,
    LoadInfo, LoadStatus, StorageCall,
};

verus! {

/// The version of a list with the highest number, the last one if there are several.
pub open spec fn newest_version(versions: Seq<VersionView>) -> Option<VersionView>
    decreases versions.len(),
{
    if versions.len() == 0 {
        None
    } else {
        match newest_version(versions.drop_last()) {
            Some(v) if v.version > versions.last().version => Some(v),
            _ => Some(versions.last()),
        }
    }
}

impl LoadView {
    /// How far the load has come: what its newest version is about.
    pub open spec fn status(self) -> LoadStatus {
        match newest_version(self.versions) {
            None => LoadStatus::NotRequested,
            Some(v) => match v.state {
                LoadState::Idle => if self.refs > 0 {
                    LoadStatus::Loading
                } else {
                    LoadStatus::NotRequested
                },
                LoadState::Loaded => LoadStatus::Loaded,
                LoadState::UnloadRequested => LoadStatus::Unloading,
                LoadState::Unloading => LoadStatus::Unloading,
                _ => LoadStatus::Loading,
            },
        }
    }
}

impl LoaderView {
    /// The state when a pass begins: the failures of the last one are forgotten, and assets may
    /// have been invalidated.
    pub open spec fn begun(self, assets: Seq<u128>) -> LoaderView {
        (LoaderView { failures: Seq::empty(), ..self }).invalidate(assets)
    }

    /// The asset behind a handle and the number of references to it, cut off to 32 bits.
    pub open spec fn load_info(self, load: LoadHandle) -> Option<LoadInfo> {
        match self.load_of(load) {
            Some(l) => Some(LoadInfo { asset_id: l.asset_id, refs: l.refs as u32 }),
            None => None,
        }
    }

    /// How far the load behind a handle has come.
    pub open spec fn status(self, load: LoadHandle) -> LoadStatus {
        match self.resolve(load) {
            None => LoadStatus::Unresolved,
            Some(key) => if self.loads.contains_key(key) {
                self.loads[key].status()
            } else {
                LoadStatus::NotRequested
            },
        }
    }
}

impl AssetLoad {
    /// Returns how far the load has come.
    fn status(&self) -> (r: LoadStatus)
        ensures
            r == self@.status(),
    {
        let mut best: Option<usize> = None;
        let mut i: usize = 0;
        assert(self@.versions.take(0) =~= Seq::empty());
        while i < self.versions.len()
            invariant
                i <= self.versions.len(),
                match best {
                    None => newest_version(self@.versions.take(i as int)) is None,
                    Some(b) => b < i && newest_version(self@.versions.take(i as int)) == Some(
                        self@.versions[b as int],
                    ),
                },
            decreases self.versions.len() - i,
        {
            assert(self@.versions.take(i + 1).drop_last() =~= self@.versions.take(i as int));
            assert(self@.versions.take(i + 1).last() == self.versions@[i as int]@);
            best = match best {
                Some(b) => {
                    assert(self@.versions[b as int] == self.versions@[b as int]@);
                    if self.versions[b].version > self.versions[i].version {
                        Some(b)
                    } else {
                        Some(i)
                    }
                },
                None => Some(i),
            };
            i = i + 1;
        }
        assert(self@.versions.take(self.versions.len() as int) =~= self@.versions);
        match best {
            None => LoadStatus::NotRequested,
            Some(b) => {
                assert(self@.versions[b as int] == self.versions@[b as int]@);
                match self.versions[b].state {
                    LoadState::Idle => {
                        if self.refs > 0 {
                            LoadStatus::Loading
                        } else {
                            LoadStatus::NotRequested
                        }
                    },
                    LoadState::Loaded => LoadStatus::Loaded,
                    LoadState::UnloadRequested | LoadState::Unloading => LoadStatus::Unloading,
                    _ => LoadStatus::Loading,
                }
            },
        }
    }
}

/// Loads and tracks the lifetimes of assets.
///
/// What changes the loader takes it by a mutable reference: between two such calls, what it knows
/// is fixed. Threads that share a loader have to take turns.
pub struct Loader<
    I: LoaderIO<A> + ?Sized = dyn LoaderIO,
    A: HandleAllocator + ?Sized = AtomicHandleAllocator,
> {
    io: Box<I>,
    data: LoaderState<A>,
}

impl<I: LoaderIO<A> + ?Sized, A: HandleAllocator + ?Sized> Loader<I, A> {
    /// What the loader knows of the assets.
    pub closed spec fn view(&self) -> LoaderView {
        self.data@
    }
}

impl<I: LoaderIO + ?Sized> Loader<I> {
    /// A loader that fetches assets from `io`, with an allocator of its own.
    pub fn new(io: Box<I>) -> (r: Self)
        ensures
            r.wf(),
            r@ == LoaderView::empty(),
            r.taken() == Taken::nothing(),
            r.io_calls() == io.calls(),
            exists|allocator: AtomicHandleAllocator| #[trigger]
                allocator.starts_at(1) && r.links().allocator == given_by(&allocator),
    {
        let allocator = AtomicHandleAllocator::default();
        let ghost given = allocator;
        let r = Self::new_with_handle_allocator(io, Box::new(allocator));
        assert(r.links().allocator =~= given_by(&given)) by {
            assert forall|handle: LoadHandle|
                r.links().allocator.contains(handle) == given.may_give(handle) by {
                assert(r.gives(handle) == given.may_give(handle));
            }
        }
        r
    }
}

impl<I: LoaderIO<A> + ?Sized, A: HandleAllocator + ?Sized> Loader<I, A> {
    /// The parts of the loader fit together.
    pub closed spec fn wf(&self) -> bool {
        self.data.wf()
    }

    /// The calls made to the source of the assets so far, in their order.
    pub closed spec fn io_calls(&self) -> Seq<IoCall> {
        self.io.calls()
    }

    /// What the loader is tied to.
    pub closed spec fn links(&self) -> Links {
        self.data.links()
    }

    /// What the loader has taken out of its channels so far.
    pub closed spec fn taken(&self) -> Taken {
        self.data.taken()
    }

    /// Whether the loader's allocator may give out a handle.
    pub open spec fn gives(&self, handle: LoadHandle) -> bool {
        self.links().gives(handle)
    }

    /// A table is read through another reference to the table of this loader.
    pub open spec fn shares(&self, table: IndirectionTable) -> bool {
        self.links().shares(table)
    }

    /// Nothing was asked of the source of the assets, no message was taken, and the loader is tied
    /// to what it was tied to before.
    pub open spec fn kept(&self, before: Self) -> bool {
        &&& self.links() == before.links()
        &&& self.taken() == before.taken()
        &&& self.io_calls() == before.io_calls()
    }

    /// A loader that fetches assets from `io`, and gets the handles of new loads from
    /// `handle_allocator`.
    pub fn new_with_handle_allocator(io: Box<I>, handle_allocator: Box<A>) -> (r: Self)
        ensures
            r.wf(),
            r@ == LoaderView::empty(),
            r.taken() == Taken::nothing(),
            r.io_calls() == io.calls(),
            forall|handle: LoadHandle| #[trigger]
                r.gives(handle) == handle_allocator.may_give(handle),
    {
        let ghost given = handle_allocator;
        let data = LoaderState::new(handle_allocator);
        let r = Loader { io, data };
        assert forall|handle: LoadHandle| #[trigger]
            r.gives(handle) == given.may_give(handle) by {
            assert(data.gives(handle) == given.may_give(handle));
        }
        r
    }

    /// Returns the source of the assets.
    pub fn io(&self) -> (r: &I)
        ensures
            r.calls() == self.io_calls(),
    {
        &*self.io
    }

    /// Returns what the loader knows of the assets.
    pub fn state(&self) -> (r: &LoaderState<A>)
        ensures
            r@ == self@,
            r.links() == self.links(),
            r.taken() == self.taken(),
            self.wf() ==> r.wf(),
    {
        &self.data
    }

    /// Returns the load of an asset. There is one only if the asset has been referenced, by
    /// [`Loader::add_ref`], by an asset that depends on it or by an identifier that is bound to it,
    /// or if its description has come along with that of another asset.
    pub fn get_load(&self, id: AssetUuid) -> (r: Option<LoadHandle>)
        ensures
            r == (if self@.by_uuid.contains_key(id.0) {
                Some(LoadHandle(self@.by_uuid[id.0]))
            } else {
                None
            }),
    {
        match self.data.find_uuid(id.0) {
            Some(key) => Some(LoadHandle(key)),
            None => None,
        }
    }

    /// Returns the asset of a load and the number of references to it, as of now. The number is cut
    /// off to 32 bits.
    pub fn get_load_info(&self, load: LoadHandle) -> (r: Option<LoadInfo>)
        ensures
            r == self@.load_info(load),
    {
        match self.data.resolve_handle(load) {
            Some(key) => match self.data.peek_load(key) {
                Some(guard) => {
                    let load = guard_value(&guard);
                    Some(
                        LoadInfo {
                            asset_id: load.asset_id,
                            refs: #[verifier::truncate]
                            (load.refs as u32),
                        },
                    )
                },
                None => None,
            },
            None => None,
        }
    }

    /// Returns how far a load has come.
    pub fn get_load_status(&self, load: LoadHandle) -> (r: LoadStatus)
        ensures
            r == self@.status(load),
    {
        match self.data.resolve_handle(load) {
            Some(key) => match self.data.peek_load(key) {
                Some(guard) => guard_value(&guard).status(),
                None => LoadStatus::NotRequested,
            },
            None => LoadStatus::Unresolved,
        }
    }

    /// Adds a reference to an asset and returns its load. If the asset has no load yet, a new one
    /// is made.
    pub fn add_ref(&mut self, id: AssetUuid) -> (r: LoadHandle)
        requires
            old(self).wf(),
        ensures
            final(self).wf(),
            final(self)@ == old(self)@.add_refs(id.0, 1, final(self)@.by_uuid),
            final(self)@.by_uuid.contains_key(id.0),
            r.0 == final(self)@.by_uuid[id.0],
            old(self)@.by_uuid.contains_key(id.0) ==> r.0 == old(self)@.by_uuid[id.0],
            !old(self)@.by_uuid.contains_key(id.0) ==> exists|given: LoadHandle| #[trigger]
                old(self).gives(given) && r == given,
            final(self).kept(*old(self)),
    {
        let r = self.data.add_refs(id, 1);
        assert(old(self).data.gives(r) == old(self).gives(r));
        r
    }

    /// Adds a reference to an identifier and returns its handle, which is indirect.
    pub fn add_ref_indirect(&mut self, id: IndirectIdentifier) -> (r: LoadHandle)
        requires
            old(self).wf(),
        ensures
            final(self).wf(),
            r.indirect(),
            old(self)@.by_identifier.contains_key(id@) ==> {
                &&& r.0 == old(self)@.by_identifier[id@]
                &&& final(self)@ == old(self)@.add_ref_indirect(r.0)
            },
            !old(self)@.by_identifier.contains_key(id@) ==> exists|given: LoadHandle| #[trigger]
                old(self).gives(given) && r == given.as_indirect() && final(self)@ == old(
                    self,
                )@.with_new_indirect(id@, given).add_ref_indirect(r.0),
            final(self).kept(*old(self)),
    {
        let ghost before = self.data;
        let ghost known = self@.by_identifier.contains_key(id@);
        let handle = self.data.add_ref_indirect(id);
        proof {
            if !known {
                let given = choose|given: LoadHandle| #[trigger]
                    before.gives(given) && handle == given.as_indirect() && self.data@
                        == before@.with_new_indirect(id@, given).add_ref_indirect(handle.0);
                assert(old(self).gives(given));
            }
        }
        handle
    }

    /// Returns the type of the version of an asset that is in use.
    pub fn get_asset_type(&self, load: LoadHandle) -> (r: Option<AssetTypeId>)
        ensures
            r == (match self@.load_of(load) {
                Some(l) => l.asset_type(),
                None => None,
            }),
    {
        self.data.get_asset(load)
    }

    /// Removes a reference.
    pub fn remove_ref(&mut self, load: LoadHandle)
        requires
            old(self).wf(),
        ensures
            final(self).wf(),
            final(self)@ == old(self)@.remove_refs(load, 1),
            final(self).kept(*old(self)),
    {
        self.data.remove_refs(load, 1);
    }

    /// The loader, with the calls made so far to a storage.
    pub open spec fn at(&self, storage: Seq<StorageCall>) -> PassState {
        PassState {
            loader: self@,
            links: self.links(),
            taken: self.taken(),
            storage,
            io: self.io_calls(),
        }
    }

    /// Makes a pass: looks for changed assets, takes in what has come from the storage and from the
    /// source of the assets, takes every load and every indirect reference one step further, and
    /// asks for the metadata, the candidates and the data that are needed.
    pub fn process<S: AssetStorage + ?Sized, R: IndirectionResolver + ?Sized>(
        &mut self,
        asset_storage: &mut S,
        resolver: &R,
    ) -> (r: Result<(), LoaderError>)
        requires
            old(self).wf(),
        ensures
            final(self).wf(),
            final(self).links() == old(self).links(),
            final(self)@.extends(old(self)@),
            exists|assets: Seq<u128>|
                (PassState {
                    loader: #[trigger] old(self)@.begun(assets),
                    links: old(self).links(),
                    taken: old(self).taken(),
                    storage: old(asset_storage).calls(),
                    io: old(self).io_calls().push(IoCall::Tick),
                }).may_run_all(
                    pass_stages(),
                    resolver,
                    final(self).at(final(asset_storage).calls()),
                    error_of(r),
                ),
    {
        let ghost stages = pass_stages();
        self.data.clear_failures();
        self.io.tick(&mut self.data);
        let ghost s0 = self.at(asset_storage.calls());
        proof {
            let cleared = LoaderView { failures: Seq::empty(), ..old(self)@ };
            let assets = choose|assets: Seq<u128>| s0.loader == cleared.invalidate(assets);
            assert(s0.loader == old(self)@.begun(assets));
            assert(stages.take(0) =~= Seq::empty());
        }
        let changed = self.data.process_asset_changes(asset_storage);
        let ghost s1 = self.at(asset_storage.calls());
        proof {
            assert(stages.take(1) =~= stages.take(0).push(Stage::AssetChanges));
            s0.lemma_run_one_more(
                stages.take(0),
                Stage::AssetChanges,
                resolver,
                s0,
                s1,
                error_of(changed),
            );
        }
        if let Err(error) = changed {
            proof {
                s0.lemma_run_error(stages, 1, resolver, s1, Some(error@));
            }
            return Err(error);
        }
        let reported = self.data.process_load_ops(asset_storage);
        let ghost s2 = self.at(asset_storage.calls());
        proof {
            assert(stages.take(2) =~= stages.take(1).push(Stage::LoadOps));
            s0.lemma_run_one_more(
                stages.take(1),
                Stage::LoadOps,
                resolver,
                s1,
                s2,
                error_of(reported),
            );
        }
        if let Err(error) = reported {
            proof {
                s0.lemma_run_error(stages, 2, resolver, s2, Some(error@));
            }
            return Err(error);
        }
        let stepped = self.data.process_load_states(asset_storage);
        let ghost s3 = self.at(asset_storage.calls());
        proof {
            assert(stages.take(3) =~= stages.take(2).push(Stage::LoadStates));
            s0.lemma_run_one_more(
                stages.take(2),
                Stage::LoadStates,
                resolver,
                s2,
                s3,
                error_of(stepped),
            );
        }
        if let Err(error) = stepped {
            proof {
                s0.lemma_run_error(stages, 3, resolver, s3, Some(error@));
            }
            return Err(error);
        }
        self.data.process_indirect_states();
        let ghost s4 = self.at(asset_storage.calls());
        proof {
            assert(stages.take(4) =~= stages.take(3).push(Stage::IndirectStates));
            s0.lemma_run_one_more(
                stages.take(3),
                Stage::IndirectStates,
                resolver,
                s3,
                s4,
                None,
            );
        }
        let described = self.data.process_metadata_requests(&mut *self.io);
        let ghost s5 = self.at(asset_storage.calls());
        proof {
            assert(stages.take(5) =~= stages.take(4).push(Stage::MetadataRequests));
            s0.lemma_run_one_more(
                stages.take(4),
                Stage::MetadataRequests,
                resolver,
                s4,
                s5,
                error_of(described),
            );
        }
        if let Err(error) = described {
            proof {
                s0.lemma_run_error(stages, 5, resolver, s5, Some(error@));
            }
            return Err(error);
        }
        let resolved = self.data.process_resolve_requests(&mut *self.io, resolver);
        let ghost s6 = self.at(asset_storage.calls());
        proof {
            assert(stages.take(6) =~= stages.take(5).push(Stage::ResolveRequests));
            s0.lemma_run_one_more(
                stages.take(5),
                Stage::ResolveRequests,
                resolver,
                s5,
                s6,
                error_of(resolved),
            );
        }
        if let Err(error) = resolved {
            proof {
                s0.lemma_run_error(stages, 6, resolver, s6, Some(error@));
            }
            return Err(error);
        }
        let loaded = self.data.process_data_requests(asset_storage, &mut *self.io);
        let ghost s7 = self.at(asset_storage.calls());
        proof {
            assert(stages =~= stages.take(6).push(Stage::DataRequests));
            s0.lemma_run_one_more(
                stages.take(6),
                Stage::DataRequests,
                resolver,
                s6,
                s7,
                error_of(loaded),
            );
        }
        loaded
    }

    /// Returns what has failed in the last pass, in its order. The loader tries it again.
    pub fn failures(&self) -> (r: &Vec<Failure>)
        ensures
            failure_views(r@) == self@.failures,
    {
        self.data.failures()
    }

    /// Returns another reference to the table of resolved indirect handles. A storage can fetch it
    /// once and keep it, to look up indirect handles in it.
    pub fn indirection_table(&self) -> (r: IndirectionTable)
        ensures
            self.shares(r),
    {
        self.data.shared_table()
    }

    /// Returns the load that an indirect handle stands for, as a table that was fetched from this
    /// loader shows it. A handle that is indirect is unresolved exactly if the table has no load
    /// for it, and has the status of the load otherwise.
    pub fn resolve_in(&self, table: &IndirectionTable, load: LoadHandle) -> (r: Option<LoadHandle>)
        requires
            self.shares(*table),
        ensures
            r == (if self@.table.contains_key(load.0) {
                Some(LoadHandle(self@.table[load.0]))
            } else {
                None
            }),
            load.indirect() ==> (self@.status(load) == LoadStatus::Unresolved <==> r is None),
            load.indirect() && r is Some && !(r->0).indirect() ==> self@.status(load)
                == self@.status(r->0),
    {
        self.data.read_table(table, load)
    }

    /// Has assets reloaded, their metadata and their data.
    pub fn invalidate_assets(&mut self, assets: &[AssetUuid])
        requires
            old(self).wf(),
        ensures
            final(self).wf(),
            final(self)@ == old(self)@.invalidate(assets@.map_values(|a: AssetUuid| a.0)),
            final(self).kept(*old(self)),
    {
        self.data.invalidate_assets(assets);
    }
}

} // verus!
