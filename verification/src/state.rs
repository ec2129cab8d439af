//! The state of a loader, and the references to what it loads.

use vstd::prelude::*;
use crossbeam_channel::Sender;
use dashmap::mapref::one::Ref;
use dashmap::DashMap;
use std::sync::Arc;
use crate::channels::{new_queue, pop_queue, push_queue, Channel, Queue};
use crate::channels::{joined, queued};
use crate::error::Failure;
use crate::error::failure_views;
use crate::ids::{AssetRef, AssetTypeId, AssetUuid, IndirectIdentifier, LoadHandle, RefView};
use crate::indirect::IndirectLoad;
use crate::links::{Links, Taken};
use crate::links::given_by;
use crate::load::AssetLoad;
use crate::maps::{
    get_identifier, get_load, get_table, get_uuid, guard_value, indirect_keys, insert_identifier,
    insert_indirect, insert_load, insert_table, insert_uuid, load_keys, new_identifiers,
    new_indirects, new_loads, new_table, new_uuids, remove_indirect, remove_load, remove_table,
    share_table, TableWriter,
};
use crate::maps::{
    guarded_load, identifier_entries, indirect_entries, load_entries, read_by, table_entries,
    uuid_entries,
};
use crate::messages::{
    AssetLoadOp, DataResponse, HandleOp, MetadataResponse, ResolveResponse,
};
use crate::model::{LoaderView, PendingReload};
use crate::model::{
    distinct_handles, lemma_handles_new_indirect, lemma_handles_new_load, lemma_part_distinct,
};
use crate::storage::{
    AtomicHandleAllocator, HandleAllocator, IndirectionTable, LoaderInfoProvider,
};

verus! {

/// The channels on which the answers to requests come in.
struct IORequestChannels {
    data: Channel<DataResponse>,
    metadata: Channel<MetadataResponse>,
    resolve: Channel<ResolveResponse>,
}

/// What a loader knows of the assets and of the references to them.
///
/// What changes the state takes it by a mutable reference: between two such calls, what the maps
/// hold is fixed. Threads that share a loader have to take turns.
pub struct LoaderState<A: HandleAllocator + ?Sized = AtomicHandleAllocator> {
    handle_allocator: Box<A>,
    given: Ghost<Seq<LoadHandle>>,
    load_states: DashMap<u64, AssetLoad>,
    uuid_to_load: DashMap<u128, u64>,
    ops: Channel<HandleOp>,
    invalidations: Queue,
    pending_reloads: Vec<PendingReload>,
    indirect_states: DashMap<u64, IndirectLoad>,
    indirect_to_load: DashMap<(String, Option<u128>), u64>,
    indirect_table: TableWriter,
    responses: IORequestChannels,
    failures: Vec<Failure>,
}

impl<A: HandleAllocator + ?Sized> LoaderState<A> {
    /// What the loader knows of the assets.
    pub closed spec fn view(&self) -> LoaderView {
        LoaderView {
            loads: load_entries(self.load_states).map_values(|l: AssetLoad| l@),
            by_uuid: uuid_entries(self.uuid_to_load),
            indirects: indirect_entries(self.indirect_states).map_values(|i: IndirectLoad| i@),
            by_identifier: identifier_entries(self.indirect_to_load),
            table: table_entries(self.indirect_table),
            pending_reloads: self.pending_reloads@,
            invalidated: queued(self.invalidations),
            given: self.given@,
            failures: failure_views(self.failures@),
        }
    }
}

impl<A: HandleAllocator + ?Sized> LoaderState<A> {
    /// The two ends of each of the loader's channels belong together.
    pub closed spec fn owned(&self) -> bool {
        &&& joined(self.ops.ends())
        &&& joined(self.responses.data.ends())
        &&& joined(self.responses.metadata.ends())
        &&& joined(self.responses.resolve.ends())
    }

    /// What the loader is tied to.
    pub closed spec fn links(&self) -> Links {
        Links {
            allocator: given_by(&*self.handle_allocator),
            ops: self.ops.ends(),
            metadata: self.responses.metadata.ends(),
            data: self.responses.data.ends(),
            resolve: self.responses.resolve.ends(),
            table: Set::new(|t: Arc<DashMap<u64, u64>>| read_by(self.indirect_table, t)),
        }
    }

    /// What the loader has taken out of its channels so far.
    pub closed spec fn taken(&self) -> Taken {
        Taken {
            ops: self.ops.taken().map_values(|op: HandleOp| op@),
            metadata: self.responses.metadata.taken().map_values(|m: MetadataResponse| m@),
            data: self.responses.data.taken().map_values(|m: DataResponse| m@),
            resolve: self.responses.resolve.taken().map_values(|m: ResolveResponse| m@),
        }
    }

    /// Whether the loader's allocator may give out a handle.
    pub open spec fn gives(&self, handle: LoadHandle) -> bool {
        self.links().gives(handle)
    }

    /// The loader is tied to what it was tied to before, and has taken no message since.
    pub open spec fn kept(&self, before: Self) -> bool {
        self.links() == before.links() && self.taken() == before.taken()
    }

    /// The parts of the state fit together, and every handle that was given out came from the
    /// allocator.
    pub open spec fn wf(&self) -> bool {
        &&& self.owned()
        &&& self@.wf()
        &&& forall|i: int| 0 <= i < self@.given.len() ==> self.gives(#[trigger] self@.given[i])
    }

    /// The state of a loader to which nothing has happened yet.
    pub fn new(handle_allocator: Box<A>) -> (r: Self)
        ensures
            r.wf(),
            r@ == LoaderView::empty(),
            r.taken() == Taken::nothing(),
            forall|handle: LoadHandle| #[trigger]
                r.gives(handle) == handle_allocator.may_give(handle),
    {
        let r = LoaderState {
            handle_allocator,
            given: Ghost(Seq::empty()),
            load_states: new_loads(),
            uuid_to_load: new_uuids(),
            ops: Channel::new(),
            invalidations: new_queue(),
            pending_reloads: Vec::new(),
            indirect_states: new_indirects(),
            indirect_to_load: new_identifiers(),
            indirect_table: new_table(),
            responses: IORequestChannels {
                data: Channel::new(),
                metadata: Channel::new(),
                resolve: Channel::new(),
            },
            failures: Vec::new(),
        };
        assert(r@ =~= LoaderView::empty());
        r
    }

    /// Gets a new handle.
    fn allocate(&mut self) -> (r: LoadHandle)
        requires
            old(self).owned(),
        ensures
            final(self).owned(),
            final(self).kept(*old(self)),
            old(self).gives(r),
            final(self)@ == (LoaderView { given: old(self)@.given.push(r), ..old(self)@ }),
    {
        let r = self.handle_allocator.allocate();
        proof {
            self.given@ = self.given@.push(r);
        }
        r
    }

    /// Takes a load out.
    pub(crate) fn take_load(&mut self, key: u64) -> (r: Option<AssetLoad>)
        requires
            old(self).owned(),
        ensures
            final(self).owned(),
            final(self).kept(*old(self)),
            final(self)@ == (LoaderView { loads: old(self)@.loads.remove(key), ..old(self)@ }),
            r is Some <==> old(self)@.loads.contains_key(key),
            r matches Some(load) ==> load@ == old(self)@.loads[key],
    {
        let r = remove_load(&mut self.load_states, key);
        assert(self@ =~= (LoaderView { loads: old(self)@.loads.remove(key), ..old(self)@ }));
        r
    }

    /// Puts a load in.
    pub(crate) fn put_load(&mut self, key: u64, load: AssetLoad)
        requires
            old(self).owned(),
        ensures
            final(self).owned(),
            final(self).kept(*old(self)),
            final(self)@ == old(self)@.with_load(key, load@),
    {
        insert_load(&mut self.load_states, key, load);
        assert(self@ =~= old(self)@.with_load(key, load@));
    }

    /// Looks at a load.
    pub(crate) fn peek_load(&self, key: u64) -> (r: Option<Ref<'_, u64, AssetLoad>>)
        ensures
            r is Some <==> self@.loads.contains_key(key),
            r matches Some(guard) ==> guarded_load(guard)@ == self@.loads[key],
    {
        get_load(&self.load_states, key)
    }

    /// Lists the loads, each once.
    pub(crate) fn list_loads(&self) -> (r: Vec<u64>)
        ensures
            r@.no_duplicates(),
            r@.to_set() == self@.loads.dom(),
    {
        let r = load_keys(&self.load_states);
        assert(load_entries(self.load_states).dom() =~= self@.loads.dom());
        r
    }

    /// Looks up the load of an asset.
    pub(crate) fn find_uuid(&self, uuid: u128) -> (r: Option<u64>)
        ensures
            r is Some <==> self@.by_uuid.contains_key(uuid),
            r matches Some(key) ==> key == self@.by_uuid[uuid],
    {
        get_uuid(&self.uuid_to_load, uuid)
    }

    /// Takes an indirect reference out.
    pub(crate) fn take_indirect(&mut self, key: u64) -> (r: Option<IndirectLoad>)
        requires
            old(self).owned(),
        ensures
            final(self).owned(),
            final(self).kept(*old(self)),
            final(self)@ == (LoaderView {
                indirects: old(self)@.indirects.remove(key),
                ..old(self)@
            }),
            r is Some <==> old(self)@.indirects.contains_key(key),
            r matches Some(indirect) ==> indirect@ == old(self)@.indirects[key],
    {
        let r = remove_indirect(&mut self.indirect_states, key);
        assert(self@ =~= (LoaderView {
            indirects: old(self)@.indirects.remove(key),
            ..old(self)@
        }));
        r
    }

    /// Puts an indirect reference in.
    pub(crate) fn put_indirect(&mut self, key: u64, indirect: IndirectLoad)
        requires
            old(self).owned(),
        ensures
            final(self).owned(),
            final(self).kept(*old(self)),
            final(self)@ == old(self)@.with_indirect(key, indirect@),
    {
        insert_indirect(&mut self.indirect_states, key, indirect);
        assert(self@ =~= old(self)@.with_indirect(key, indirect@));
    }

    /// Lists the indirect references, each once.
    pub(crate) fn list_indirects(&self) -> (r: Vec<u64>)
        ensures
            r@.no_duplicates(),
            r@.to_set() == self@.indirects.dom(),
    {
        let r = indirect_keys(&self.indirect_states);
        assert(indirect_entries(self.indirect_states).dom() =~= self@.indirects.dom());
        r
    }

    /// Looks up the load that an indirect reference stands for.
    pub(crate) fn find_table(&self, key: u64) -> (r: Option<u64>)
        ensures
            r is Some <==> self@.table.contains_key(key),
            r matches Some(target) ==> target == self@.table[key],
    {
        get_table(&self.indirect_table, key)
    }

    /// Sets the load that an indirect reference stands for.
    pub(crate) fn set_table(&mut self, key: u64, target: Option<u64>)
        requires
            old(self).owned(),
        ensures
            final(self).owned(),
            final(self).kept(*old(self)),
            final(self)@ == (LoaderView {
                table: match target {
                    Some(t) => old(self)@.table.insert(key, t),
                    None => old(self)@.table.remove(key),
                },
                ..old(self)@
            }),
    {
        match target {
            Some(t) => insert_table(&mut self.indirect_table, key, t),
            None => remove_table(&mut self.indirect_table, key),
        }
        assert(self.links().table =~= old(self).links().table);
    }

    /// Takes the invalidated asset that has waited longest.
    pub(crate) fn pop_invalidated(&mut self) -> (r: Option<u128>)
        requires
            old(self).owned(),
        ensures
            final(self).owned(),
            final(self).kept(*old(self)),
            r is Some <==> old(self)@.invalidated.len() > 0,
            r matches Some(uuid) ==> uuid == old(self)@.invalidated[0] && final(self)@ == (
            LoaderView { invalidated: old(self)@.invalidated.drop_first(), ..old(self)@ }),
            r is None ==> final(self)@ == old(self)@,
    {
        pop_queue(&mut self.invalidations)
    }

    /// Notes that an asset was invalidated.
    pub(crate) fn push_invalidated(&mut self, uuid: u128)
        requires
            old(self).owned(),
        ensures
            final(self).owned(),
            final(self).kept(*old(self)),
            final(self)@ == old(self)@.invalidate(seq![uuid]),
    {
        push_queue(&mut self.invalidations, uuid);
        assert(self@ =~= old(self)@.invalidate(seq![uuid]));
    }

    /// Returns the reloads that have not come into use.
    pub(crate) fn list_reloads(&self) -> (r: &Vec<PendingReload>)
        ensures
            r@ == self@.pending_reloads,
    {
        &self.pending_reloads
    }

    /// Sets the reloads that have not come into use.
    pub(crate) fn set_reloads(&mut self, reloads: Vec<PendingReload>)
        requires
            old(self).owned(),
        ensures
            final(self).owned(),
            final(self).kept(*old(self)),
            final(self)@ == (LoaderView { pending_reloads: reloads@, ..old(self)@ }),
    {
        self.pending_reloads = reloads;
    }

    /// Returns the outcome of a load operation, if one has come.
    pub(crate) fn next_op(&mut self) -> (r: Option<HandleOp>)
        requires
            old(self).owned(),
        ensures
            final(self).owned(),
            final(self)@ == old(self)@,
            final(self).links() == old(self).links(),
            old(self).links().may_deliver_op(r),
            final(self).taken() == (match r {
                Some(message) => old(self).taken().with_ops(seq![message@]),
                None => old(self).taken(),
            }),
    {
        let r = self.ops.receive();
        assert(self.taken() =~= (match r {
            Some(message) => old(self).taken().with_ops(seq![message@]),
            None => old(self).taken(),
        }));
        r
    }

    /// Returns an answer about metadata, if one has come.
    pub(crate) fn next_metadata(&mut self) -> (r: Option<MetadataResponse>)
        requires
            old(self).owned(),
        ensures
            final(self).owned(),
            final(self)@ == old(self)@,
            final(self).links() == old(self).links(),
            old(self).links().may_deliver_metadata(r),
            final(self).taken() == (match r {
                Some(message) => old(self).taken().with_metadata(seq![message@]),
                None => old(self).taken(),
            }),
    {
        let r = self.responses.metadata.receive();
        assert(self.taken() =~= (match r {
            Some(message) => old(self).taken().with_metadata(seq![message@]),
            None => old(self).taken(),
        }));
        r
    }

    /// Returns an answer with data, if one has come.
    pub(crate) fn next_data(&mut self) -> (r: Option<DataResponse>)
        requires
            old(self).owned(),
        ensures
            final(self).owned(),
            final(self)@ == old(self)@,
            final(self).links() == old(self).links(),
            old(self).links().may_deliver_data(r),
            final(self).taken() == (match r {
                Some(message) => old(self).taken().with_data(seq![message@]),
                None => old(self).taken(),
            }),
    {
        let r = self.responses.data.receive();
        assert(self.taken() =~= (match r {
            Some(message) => old(self).taken().with_data(seq![message@]),
            None => old(self).taken(),
        }));
        r
    }

    /// Returns an answer about an identifier, if one has come.
    pub(crate) fn next_resolve(&mut self) -> (r: Option<ResolveResponse>)
        requires
            old(self).owned(),
        ensures
            final(self).owned(),
            final(self)@ == old(self)@,
            final(self).links() == old(self).links(),
            old(self).links().may_deliver_resolve(r),
            final(self).taken() == (match r {
                Some(message) => old(self).taken().with_resolve(seq![message@]),
                None => old(self).taken(),
            }),
    {
        let r = self.responses.resolve.receive();
        assert(self.taken() =~= (match r {
            Some(message) => old(self).taken().with_resolve(seq![message@]),
            None => old(self).taken(),
        }));
        r
    }

    /// Returns a load operation that reports to this loader.
    pub(crate) fn new_load_op(&self, handle: LoadHandle, version: u32) -> (r: AssetLoadOp)
        requires
            self.owned(),
        ensures
            r.spec_handle() == handle,
            r.spec_version() == version,
            r.spec_sender() matches Some(tx) && self.links().hears_op(tx),
    {
        let tx = self.ops.sender();
        assert(self.links().hears_op(tx));
        AssetLoadOp::new(tx, handle, version)
    }

    /// Returns the channel for answers about metadata.
    pub(crate) fn metadata_sender(&self) -> (r: Sender<MetadataResponse>)
        requires
            self.owned(),
        ensures
            self.links().hears_metadata(r),
    {
        self.responses.metadata.sender()
    }

    /// Returns the channel for answers with data.
    pub(crate) fn data_sender(&self) -> (r: Sender<DataResponse>)
        requires
            self.owned(),
        ensures
            self.links().hears_data(r),
    {
        self.responses.data.sender()
    }

    /// Returns the channel for answers about identifiers.
    pub(crate) fn resolve_sender(&self) -> (r: Sender<ResolveResponse>)
        requires
            self.owned(),
        ensures
            self.links().hears_resolve(r),
    {
        self.responses.resolve.sender()
    }

    /// Notes a failure.
    pub(crate) fn note_failure(&mut self, failure: Failure)
        requires
            old(self).owned(),
        ensures
            final(self).owned(),
            final(self).kept(*old(self)),
            final(self)@ == old(self)@.failed(failure@),
    {
        self.failures.push(failure);
        assert(self@ =~= old(self)@.failed(failure@));
    }

    /// Forgets the failures.
    pub(crate) fn clear_failures(&mut self)
        requires
            old(self).wf(),
        ensures
            final(self).wf(),
            final(self).kept(*old(self)),
            final(self)@ == (LoaderView { failures: Seq::empty(), ..old(self)@ }),
    {
        self.failures = Vec::new();
        assert(self@ =~= (LoaderView { failures: Seq::empty(), ..old(self)@ }));
    }

    /// Returns what has failed in the last pass, in its order. The loader tries it again.
    pub fn failures(&self) -> (r: &Vec<Failure>)
        ensures
            failure_views(r@) == self@.failures,
    {
        &self.failures
    }

    /// Returns the load of an asset, and makes one if it has none.
    pub fn get_or_insert(&mut self, id: AssetUuid) -> (r: LoadHandle)
        requires
            old(self).wf(),
        ensures
            final(self).wf(),
            final(self).kept(*old(self)),
            final(self)@ == old(self)@.get_or_insert(id.0, final(self)@.by_uuid),
            final(self)@.by_uuid.contains_key(id.0),
            r.0 == final(self)@.by_uuid[id.0],
            !old(self)@.by_uuid.contains_key(id.0) ==> exists|given: LoadHandle| #[trigger]
                old(self).gives(given) && r == given,
            final(self)@.extends(old(self)@),
    {
        match self.find_uuid(id.0) {
            Some(key) => LoadHandle(key),
            None => {
                let handle = self.allocate();
                insert_load(&mut self.load_states, handle.0, AssetLoad::new(id));
                insert_uuid(&mut self.uuid_to_load, id.0, handle.0);
                proof {
                    lemma_handles_new_load(
                        old(self)@.given,
                        old(self)@.by_uuid,
                        old(self)@.by_identifier,
                        id.0,
                        handle,
                    );
                    assert(self@ =~= old(self)@.with_new_load(id.0, handle.0));
                    if distinct_handles(self@.by_uuid) {
                        lemma_part_distinct(old(self)@.by_uuid, self@.by_uuid);
                    }
                }
                handle
            },
        }
    }

    /// Returns the handle of an identifier, and makes an indirect reference if it has none.
    pub fn get_or_insert_indirect(&mut self, id: IndirectIdentifier) -> (r: LoadHandle)
        requires
            old(self).wf(),
        ensures
            final(self).wf(),
            final(self).kept(*old(self)),
            r.indirect(),
            old(self)@.by_identifier.contains_key(id@) ==> {
                &&& final(self)@ == old(self)@
                &&& r.0 == old(self)@.by_identifier[id@]
            },
            !old(self)@.by_identifier.contains_key(id@) ==> exists|given: LoadHandle| #[trigger]
                old(self).gives(given) && r == given.as_indirect() && final(self)@ == old(
                    self,
                )@.with_new_indirect(id@, given),
    {
        let key = id.to_key();
        match get_identifier(&self.indirect_to_load, &key) {
            Some(raw) => {
                assert(self@.by_identifier.contains_key(id@));
                LoadHandle(raw)
            },
            None => {
                let given = self.allocate();
                let handle = given.set_indirect();
                insert_indirect(&mut self.indirect_states, handle.0, IndirectLoad::new(id));
                insert_identifier(&mut self.indirect_to_load, key, handle.0);
                proof {
                    lemma_handles_new_indirect(
                        old(self)@.given,
                        old(self)@.by_uuid,
                        old(self)@.by_identifier,
                        id@,
                        given,
                    );
                    assert(self@ =~= old(self)@.with_new_indirect(id@, given));
                }
                handle
            },
        }
    }

    /// Adds references to an asset, and returns its load.
    pub fn add_refs(&mut self, id: AssetUuid, num_refs: usize) -> (r: LoadHandle)
        requires
            old(self).wf(),
        ensures
            final(self).wf(),
            final(self).kept(*old(self)),
            final(self)@ == old(self)@.add_refs(id.0, num_refs, final(self)@.by_uuid),
            final(self)@.by_uuid.contains_key(id.0),
            r.0 == final(self)@.by_uuid[id.0],
            !old(self)@.by_uuid.contains_key(id.0) ==> exists|given: LoadHandle| #[trigger]
                old(self).gives(given) && r == given,
            final(self)@.extends(old(self)@),
    {
        let handle = self.get_or_insert(id);
        let ghost mid = self@;
        if let Some(mut load) = self.take_load(handle.0) {
            load.add_refs(num_refs);
            self.put_load(handle.0, load);
            assert(self@ =~= mid.with_load(handle.0, mid.loads[handle.0].refs_added(num_refs)));
        }
        handle
    }

    /// Removes references from a load that is not indirect, if there is such a load.
    pub(crate) fn remove_direct_refs(&mut self, key: u64, num_refs: usize)
        requires
            old(self).wf(),
        ensures
            final(self).wf(),
            final(self).kept(*old(self)),
            final(self)@ == old(self)@.remove_direct_refs(key, num_refs),
    {
        match self.take_load(key) {
            Some(mut load) => {
                load.remove_refs(num_refs);
                self.put_load(key, load);
                assert(self@ =~= old(self)@.remove_direct_refs(key, num_refs));
            },
            None => {
                assert(self@ =~= old(self)@);
            },
        }
    }

    /// Removes references from a load or from an indirect reference. An indirect reference that is
    /// resolved also gives up one reference to its asset.
    pub fn remove_refs(&mut self, load: LoadHandle, num_refs: usize)
        requires
            old(self).wf(),
        ensures
            final(self).wf(),
            final(self).kept(*old(self)),
            final(self)@ == old(self)@.remove_refs(load, num_refs),
    {
        if !load.is_indirect() {
            self.remove_direct_refs(load.0, num_refs);
            return;
        }
        let behind = match self.take_indirect(load.0) {
            Some(indirect) => {
                let resolved = indirect.resolved_uuid;
                self.put_indirect(load.0, indirect);
                match resolved {
                    Some(uuid) => self.find_uuid(uuid.0),
                    None => None,
                }
            },
            None => None,
        };
        assert(self@ =~= old(self)@);
        let chained: bool = match behind {
            Some(key) => LoadHandle(key).is_indirect(),
            None => false,
        };
        if chained {
            let keys = self.list_indirects();
            proof {
                keys@.unique_seq_to_set();
            }
            self.remove_chain(load, num_refs, keys.len() as u128 + 1);
        } else {
            proof {
                self@.lemma_chain_ends(load, num_refs, self@.indirects.dom().len() + 1);
            }
            self.remove_chain(load, num_refs, 1);
        }
    }

    /// Removes references, through at most `depth` handles behind the first one.
    fn remove_chain(&mut self, load: LoadHandle, num_refs: usize, depth: u128)
        requires
            old(self).wf(),
        ensures
            final(self).wf(),
            final(self).kept(*old(self)),
            final(self)@ == old(self)@.remove_chain(load, num_refs, depth as nat),
        decreases depth,
    {
        if load.is_indirect() {
            let resolved = match self.take_indirect(load.0) {
                Some(indirect) => {
                    let resolved = indirect.resolved_uuid;
                    self.put_indirect(load.0, indirect);
                    resolved
                },
                None => None,
            };
            assert(self@ =~= old(self)@);
            if let Some(uuid) = resolved {
                if depth > 0 {
                    let uuid_handle = self.get_or_insert(uuid);
                    self.remove_chain(uuid_handle, 1, depth - 1);
                }
            }
            let ghost mid = self@;
            if let Some(mut indirect) = self.take_indirect(load.0) {
                indirect.refs = indirect.refs.wrapping_sub(num_refs);
                self.put_indirect(load.0, indirect);
                assert(self@ =~= mid.with_indirect(
                    load.0,
                    mid.indirects[load.0].refs_removed(num_refs),
                ));
            }
            proof {
                if old(self)@.indirects.contains_key(load.0) && resolved is Some && depth > 0 {
                    old(self)@.lemma_remove_chain_keeps(
                        LoadHandle(old(self)@.by_uuid[(resolved->0).0]),
                        1,
                        (depth - 1) as nat,
                    );
                }
                assert(self@ =~= old(self)@.remove_chain(load, num_refs, depth as nat));
            }
        } else {
            self.remove_direct_refs(load.0, num_refs);
        }
    }

    /// Adds a reference to an identifier, and returns its handle, which is indirect. If the
    /// identifier is resolved, its asset is referenced once more too.
    pub fn add_ref_indirect(&mut self, id: IndirectIdentifier) -> (r: LoadHandle)
        requires
            old(self).wf(),
        ensures
            final(self).wf(),
            final(self).kept(*old(self)),
            r.indirect(),
            old(self)@.by_identifier.contains_key(id@) ==> {
                &&& r.0 == old(self)@.by_identifier[id@]
                &&& final(self)@ == old(self)@.add_ref_indirect(r.0)
            },
            !old(self)@.by_identifier.contains_key(id@) ==> exists|given: LoadHandle| #[trigger]
                old(self).gives(given) && r == given.as_indirect() && final(self)@ == old(
                    self,
                )@.with_new_indirect(id@, given).add_ref_indirect(r.0),
    {
        let handle = self.get_or_insert_indirect(id);
        let ghost mid = self@;
        assert(mid.indirects.contains_key(handle.0));
        if let Some(mut indirect) = self.take_indirect(handle.0) {
            let resolved = indirect.resolved_uuid;
            indirect.refs = indirect.refs.wrapping_add(1);
            self.put_indirect(handle.0, indirect);
            if let Some(uuid) = resolved {
                self.add_refs(uuid, 1);
            }
            assert(self@ =~= mid.add_ref_indirect(handle.0));
        }
        handle
    }

    /// Returns the load that a handle stands for.
    pub(crate) fn resolve_handle(&self, load: LoadHandle) -> (r: Option<u64>)
        ensures
            r == self@.resolve(load),
    {
        if load.is_indirect() {
            self.find_table(load.0)
        } else {
            Some(load.0)
        }
    }

    /// Returns the type of the version of a load that is in use.
    pub fn get_asset(&self, load: LoadHandle) -> (r: Option<AssetTypeId>)
        ensures
            r == (match self@.load_of(load) {
                Some(l) => l.asset_type(),
                None => None,
            }),
    {
        match self.resolve_handle(load) {
            Some(key) => match self.peek_load(key) {
                Some(guard) => guard_value(&guard).get_asset_type(),
                None => None,
            },
            None => None,
        }
    }

    /// Asks for assets to be reloaded.
    pub fn invalidate_assets(&mut self, assets: &[AssetUuid])
        requires
            old(self).wf(),
        ensures
            final(self).wf(),
            final(self).kept(*old(self)),
            final(self)@ == old(self)@.invalidate(assets@.map_values(|a: AssetUuid| a.0)),
    {
        let ghost ids = assets@.map_values(|a: AssetUuid| a.0);
        let mut i: usize = 0;
        assert(self@ =~= old(self)@.invalidate(ids.take(0)));
        while i < assets.len()
            invariant
                i <= assets.len(),
                ids == assets@.map_values(|a: AssetUuid| a.0),
                self.owned(),
                self.kept(*old(self)),
                self@ == old(self)@.invalidate(ids.take(i as int)),
            decreases assets.len() - i,
        {
            push_queue(&mut self.invalidations, assets[i].0);
            assert(ids.take(i + 1) =~= ids.take(i as int).push(assets@[i as int].0));
            assert(self@ =~= old(self)@.invalidate(ids.take(i + 1)));
            i = i + 1;
        }
        assert(ids.take(assets.len() as int) =~= ids);
    }

    /// Another reference to the table of resolved indirect references.
    pub(crate) fn shared_table(&self) -> (r: IndirectionTable)
        ensures
            self.links().shares(r),
    {
        IndirectionTable::new(share_table(&self.indirect_table))
    }

    /// Returns the load that an indirect handle stands for, as a reference to the table of this
    /// loader shows it.
    pub(crate) fn read_table(&self, table: &IndirectionTable, load: LoadHandle) -> (r: Option<
        LoadHandle,
    >)
        requires
            self.links().shares(*table),
        ensures
            r == (if self@.table.contains_key(load.0) {
                Some(LoadHandle(self@.table[load.0]))
            } else {
                None
            }),
    {
        table.resolve_now(&self.indirect_table, load)
    }
}

impl<A: HandleAllocator + ?Sized> LoaderInfoProvider for LoaderState<A> {
    open spec fn hears_op(&self, tx: Sender<HandleOp>) -> bool {
        self.links().hears_op(tx)
    }

    fn get_load_handle(&self, id: &AssetRef) -> (r: Option<LoadHandle>)
        ensures
            id@ matches RefView::Uuid(uuid) ==> r == (if self@.by_uuid.contains_key(
                uuid.0,
            ) {
                Some(LoadHandle(self@.by_uuid[uuid.0]))
            } else {
                None
            }),
    {
        match id {
            AssetRef::Uuid(uuid) => match self.find_uuid(uuid.0) {
                Some(key) => Some(LoadHandle(key)),
                None => None,
            },
            AssetRef::Path(_) => None,
        }
    }

    fn get_asset_id(&self, load: LoadHandle) -> (r: Option<AssetUuid>)
        ensures
            r == (if self@.loads.contains_key(load.0) {
                Some(self@.loads[load.0].asset_id)
            } else {
                None
            }),
    {
        match self.peek_load(load.0) {
            Some(guard) => Some(guard_value(&guard).asset_id),
            None => None,
        }
    }
}

} // verus!
