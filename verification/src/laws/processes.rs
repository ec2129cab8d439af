//! What calls of `Loader::process` come to, from the first stage of a pass to its last.

use vstd::prelude::*;
use crossbeam_channel::Sender;
use crate::data_requests::DataMessage;
use crate::error::ErrorView;
use crate::ids::{AssetUuid, LoadHandle};
use crate::io::IoCall;
use crate::links::Taken;
use crate::load::{LoadState, LoadView, VersionQuery, VersionView};
use crate::load_ops::OpMessage;
use crate::messages::MetadataResponse;
use crate::metadata::MetadataView;
use crate::metadata_requests::MetadataMessage;
use crate::model::{LoaderView, PendingReload};
use crate::pass::{PassState, Stage};
use crate::resolve_requests::ResolveMessage;
use crate::storage::{IndirectionResolver, LoadStatus, StorageCall};
use crate::data_requests::data_messages;
use crate::load::{is_first, lemma_position_some};
use crate::load_states::deps_of;
use crate::loader::newest_version;
use crate::metadata_requests::last_waiting;
use crate::model::{came_to, direct_handles, distinct_handles, lemma_part_distinct, part_of};
use crate::pass::pass_stages;
use crate::resolve_requests::resolve_messages;
use crate::laws::calls::{calls_for, lemma_calls_add_up, lemma_calls_of_one, lemma_pass_calls};
use crate::laws::counts::{
    law_pass_counts_references_of_one, law_untouched_references_stay, refs_taken, shifted,
    times_among,
};
use crate::laws::lifetimes::lemma_status_single;
use crate::laws::passes::{
    law_pass_moves_single_version, law_reload_is_asked_for_in_same_pass, lemma_pass_at,
};
use crate::laws::reloads::{
    law_invalidated_assets_are_reloaded, law_pending_reload_starts, lemma_commit_reloads,
};

verus! {

/// The states that a pass without an error goes through: when it begins, and after each stage.
pub struct Trace {
    pub begun: PassState,
    pub changed: PassState,
    pub reported: PassState,
    pub stepped: PassState,
    pub indirect: PassState,
    pub described: PassState,
    pub resolved: PassState,
    pub done: PassState,
}

impl Trace {
    /// Each stage comes to what it may come to.
    pub open spec fn runs<R: IndirectionResolver + ?Sized>(self, resolver: &R) -> bool {
        &&& self.begun.may_run(Stage::AssetChanges, resolver, self.changed, None)
        &&& self.changed.may_run(Stage::LoadOps, resolver, self.reported, None)
        &&& self.reported.may_run(Stage::LoadStates, resolver, self.stepped, None)
        &&& self.stepped.may_run(Stage::IndirectStates, resolver, self.indirect, None)
        &&& self.indirect.may_run(Stage::MetadataRequests, resolver, self.described, None)
        &&& self.described.may_run(Stage::ResolveRequests, resolver, self.resolved, None)
        &&& self.resolved.may_run(Stage::DataRequests, resolver, self.done, None)
    }

    /// The calls to the storage that the pass makes for a load, in their order.
    pub open spec fn calls_for(self, handle: LoadHandle) -> Seq<StorageCall> {
        calls_for(self.done.storage.skip(self.begun.storage.len() as int), handle)
    }

    /// The pass takes no message that is about a load or its asset.
    pub open spec fn hears_nothing_of(self, key: u64, uuid: u128) -> bool {
        self.done.taken.silent_since(self.begun.taken, key, uuid)
    }

    /// The pass runs, no two assets share a handle, and the load at `key` is that of an asset of
    /// which it hears nothing.
    pub open spec fn quiet_about<R: IndirectionResolver + ?Sized>(
        self,
        resolver: &R,
        key: u64,
        uuid: u128,
    ) -> bool {
        &&& self.runs(resolver)
        &&& self.begun.loader.wf()
        &&& distinct_handles(self.done.loader.by_uuid)
        &&& self.begun.loader.by_uuid.contains_key(uuid)
        &&& self.begun.loader.by_uuid[uuid] == key
        &&& self.hears_nothing_of(key, uuid)
    }
}

impl OpMessage {
    /// The load that an outcome is of.
    pub open spec fn handle(self) -> LoadHandle {
        match self {
            OpMessage::Error(handle, _, _) => handle,
            OpMessage::Complete(handle, _) => handle,
            OpMessage::Drop(handle, _) => handle,
        }
    }
}

impl MetadataMessage {
    /// The answer is about a load or its asset: it describes the asset, or the load asked.
    pub open spec fn is_about(self, key: u64, uuid: u128) -> bool {
        ||| self.describes(uuid)
        ||| exists|other: u128| #[trigger]
            self.requests.contains_key(other) && self.requests[other].0.0 == key
    }
}

impl Taken {
    /// None of the messages taken since then is about a load or its asset. Answers about
    /// identifiers are not.
    pub open spec fn silent_since(self, before: Taken, key: u64, uuid: u128) -> bool {
        &&& forall|i: int|
            before.ops.len() <= i < self.ops.len() ==> (#[trigger] self.ops[i]).handle().0 != key
        &&& forall|i: int|
            before.metadata.len() <= i < self.metadata.len() ==> !(
            #[trigger] self.metadata[i]).is_about(key, uuid)
        &&& forall|i: int|
            before.data.len() <= i < self.data.len() ==> (#[trigger] self.data[i]).handle.0 != key
    }
}

impl LoaderView {
    /// No reload of an asset is pending, and none was asked for.
    pub open spec fn no_reload_of(self, uuid: u128) -> bool {
        &&& !self.invalidated.contains(uuid)
        &&& forall|i: int|
            0 <= i < self.pending_reloads.len() ==> (
            #[trigger] self.pending_reloads[i]).asset_id.0 != uuid
    }

    /// A pass over the loads that comes to a state finds the load at `key` referenced, or finds it
    /// not referenced, whatever the order of the loads.
    pub open spec fn found_always(self, key: u64, after: LoaderView, referenced: bool) -> bool {
        forall|keys: Seq<u64>, calls: Seq<StorageCall>, k: int|
            {
                &&& #[trigger] self.passed(keys, after, calls)
                &&& 0 <= k < keys.len()
                &&& keys[k] == key
            } ==> ((#[trigger] self.found(keys, k, after.by_uuid)).loads[key].refs > 0)
                == referenced
    }
}

/// If no version of another load takes or releases references to an asset, then a pass finds the
/// load of the asset as it was: referenced if it was referenced, and otherwise not.
pub proof fn law_untouched_load_is_found_as_it_was(
    s: LoaderView,
    after: LoaderView,
    key: u64,
    uuid: u128,
)
    requires
        direct_handles(after.by_uuid),
        s.by_uuid.contains_key(uuid),
        s.by_uuid[uuid] == key,
        s.touched_by_one(key, uuid),
    ensures
        s.found_always(key, after, s.loads[key].refs > 0),
{
    assert forall|keys: Seq<u64>, calls: Seq<StorageCall>, k: int|
        {
            &&& #[trigger] s.passed(keys, after, calls)
            &&& 0 <= k < keys.len()
            &&& keys[k] == key
        } implies ((#[trigger] s.found(keys, k, after.by_uuid)).loads[key].refs > 0) == (
    s.loads[key].refs > 0) by {
        law_untouched_references_stay(s, keys, after, calls, k, uuid);
    }
}

/// A call of `Loader::process` that returns without an error goes through states of which each
/// stage comes to the next one.
pub proof fn law_process_has_trace<R: IndirectionResolver + ?Sized>(
    begun: PassState,
    resolver: &R,
    done: PassState,
) -> (t: Trace)
    requires
        begun.may_run_all(pass_stages(), resolver, done, None),
    ensures
        t.runs(resolver),
        t.begun == begun,
        t.done == done,
{
    let stages = pass_stages();
    let resolved = lemma_last_stage(begun, stages, resolver, done);
    let s6 = stages.drop_last();
    let described = lemma_last_stage(begun, s6, resolver, resolved);
    let s5 = s6.drop_last();
    let indirect = lemma_last_stage(begun, s5, resolver, described);
    let s4 = s5.drop_last();
    let stepped = lemma_last_stage(begun, s4, resolver, indirect);
    let s3 = s4.drop_last();
    let reported = lemma_last_stage(begun, s3, resolver, stepped);
    let s2 = s3.drop_last();
    let changed = lemma_last_stage(begun, s2, resolver, reported);
    let s1 = s2.drop_last();
    let first = lemma_last_stage(begun, s1, resolver, changed);
    assert(s1.drop_last().len() == 0);
    assert(first == begun);
    Trace { begun, changed, reported, stepped, indirect, described, resolved, done }
}

/// The state before the last of several stages.
proof fn lemma_last_stage<R: IndirectionResolver + ?Sized>(
    begun: PassState,
    stages: Seq<Stage>,
    resolver: &R,
    done: PassState,
) -> (mid: PassState)
    requires
        stages.len() > 0,
        begun.may_run_all(stages, resolver, done, None),
    ensures
        begun.may_run_all(stages.drop_last(), resolver, mid, None),
        mid.may_run(stages.last(), resolver, done, None),
{
    choose|mid: PassState|
        {
            &&& begun.may_run_all(stages.drop_last(), resolver, mid, None)
            &&& #[trigger] mid.may_run(stages.last(), resolver, done, None)
        }
}

/// Three calls of `Loader::process` unload an asset that nothing refers to. Its only version is in
/// use; no reload of it is pending, the calls hear nothing of it, nothing refers to it whenever
/// they come to it or when they end, and what happens between them leaves its load alone. Then its
/// status is `Unloading`, `Unloading` and `NotRequested` after the three calls. The storage gives
/// the version up in the second one, and is not called for the load otherwise. In the second call
/// the asset releases each of its dependencies once for each time that it depends on it. It keeps
/// its handle.
pub proof fn law_process_unloads_unreferenced_asset<R: IndirectionResolver + ?Sized>(
    t: Seq<Trace>,
    resolver: &R,
    key: u64,
    uuid: u128,
    v: VersionView,
)
    requires
        t.len() == 3,
        forall|n: int|
            0 <= n < 3 ==> {
                &&& (#[trigger] t[n]).quiet_about(resolver, key, uuid)
                &&& t[n].begun.loader.no_reload_of(uuid)
                &&& t[n].reported.loader.found_always(key, t[n].stepped.loader, false)
                &&& t[n].done.loader.loads[key].refs == 0
            },
        !LoadHandle(key).indirect(),
        t[0].begun.loader.loads[key].versions == seq![v],
        v.state is Loaded,
        t[1].begun.loader.loads[key] == t[0].done.loader.loads[key],
        t[2].begun.loader.loads[key] == t[1].done.loader.loads[key],
    ensures
        t[0].done.loader.status(LoadHandle(key)) == LoadStatus::Unloading,
        t[1].done.loader.status(LoadHandle(key)) == LoadStatus::Unloading,
        t[2].done.loader.status(LoadHandle(key)) == LoadStatus::NotRequested,
        v.asset_type is Some,
        t[0].calls_for(LoadHandle(key)) == Seq::<StorageCall>::empty(),
        t[1].calls_for(LoadHandle(key)) == seq![
            StorageCall::Free {
                asset_type: v.asset_type->0,
                handle: LoadHandle(key),
                version: v.version,
            },
        ],
        t[2].calls_for(LoadHandle(key)) == Seq::<StorageCall>::empty(),
        forall|dep: u128|
            direct_handles(t[1].stepped.loader.by_uuid) && t[1].reported.loader.touched_by_one(
                key,
                dep,
            ) ==> (#[trigger] t[1].stepped.loader.refs_of(dep)) == shifted(
                t[1].reported.loader.refs_of(dep),
                -times_among(deps_of(v.metadata), dep),
            ),
        forall|n: int|
            0 <= n < 3 ==> (#[trigger] t[n]).done.loader.by_uuid.contains_key(uuid)
                && t[n].done.loader.by_uuid[uuid] == key,
{
    let handle = LoadHandle(key);
    let a = VersionView { state: LoadState::UnloadRequested, ..v };
    let b = VersionView { state: LoadState::Unloading, asset_type: None, ..v };
    let c = VersionView { state: LoadState::Idle, asset_type: None, ..v };
    let before = t[0].begun.loader;
    assert(t[0].quiet_about(resolver, key, uuid));
    assert(before.loads.contains_key(key));
    assert(before.loads[key].wf() && before.loads[key].versions[0] == v);
    lemma_quiet_single(t[0], resolver, key, uuid, v);
    assert(t[1].quiet_about(resolver, key, uuid));
    lemma_quiet_single(t[1], resolver, key, uuid, a);
    assert(t[2].quiet_about(resolver, key, uuid));
    lemma_quiet_single(t[2], resolver, key, uuid, b);
    lemma_status_single(t[0].done.loader.loads[key], a);
    lemma_status_single(t[1].done.loader.loads[key], b);
    lemma_status_single(t[2].done.loader.loads[key], c);
    assert forall|n: int| 0 <= n < 3 implies (#[trigger] t[n]).done.loader.by_uuid.contains_key(
        uuid,
    ) && t[n].done.loader.by_uuid[uuid] == key by {
        assert(t[n].quiet_about(resolver, key, uuid));
        lemma_handles_stay(t[n], resolver, key, uuid);
    }
    assert forall|dep: u128|
        direct_handles(t[1].stepped.loader.by_uuid) && t[1].reported.loader.touched_by_one(
            key,
            dep,
        ) implies (#[trigger] t[1].stepped.loader.refs_of(dep)) == shifted(
        t[1].reported.loader.refs_of(dep),
        -times_among(deps_of(v.metadata), dep),
    ) by {
        lemma_quiet_release(t[1], resolver, key, uuid, a, dep);
    }
}

/// A call of `Loader::process` asks for an asset that was invalidated while no reload is pending.
/// Its only version is in use, it is referenced when the call comes to it, and the call hears
/// nothing of it. Then there is a request for metadata that is also for this asset, under a new
/// number, and the answer comes to the loader. The status of the asset is `Loading`, its type is
/// that of the version that is in use, and the storage is not called for it.
pub proof fn law_process_asks_for_invalidated_asset<R: IndirectionResolver + ?Sized>(
    t: Trace,
    resolver: &R,
    key: u64,
    uuid: u128,
    v: VersionView,
) -> (r: (Map<u128, (LoadHandle, u32)>, Sender<MetadataResponse>))
    requires
        t.quiet_about(resolver, key, uuid),
        t.begun.loader.pending_reloads.len() == 0,
        t.begun.loader.invalidated.contains(uuid),
        t.reported.loader.found_always(key, t.stepped.loader, true),
        !LoadHandle(key).indirect(),
        t.begun.loader.loads[key].versions == seq![v],
        v.state is Loaded,
    ensures
        t.begun.io.len() <= t.done.io.len(),
        t.done.io.skip(t.begun.io.len() as int).contains(IoCall::Metadata(r.0, r.1)),
        t.begun.links.hears_metadata(r.1),
        r.0.contains_key(uuid),
        r.0[uuid].0 == LoadHandle(key),
        r.0[uuid].1 > v.version,
        t.done.loader.status(LoadHandle(key)) == LoadStatus::Loading,
        v.asset_type is Some,
        t.done.loader.load_of(LoadHandle(key)) matches Some(load) && load.asset_type()
            == v.asset_type,
        t.calls_for(LoadHandle(key)) == Seq::<StorageCall>::empty(),
{
    let number = lemma_reload_begins(t, resolver, key, uuid, v);
    let w = VersionView {
        state: LoadState::WaitingForMetadata,
        ..VersionView::fresh(number, false, None)
    };
    let r = lemma_reload_asked(t, resolver, key, uuid, v, number);
    lemma_end_leaves(t, resolver, key, uuid);
    let x = VersionView { state: LoadState::RequestingMetadata, ..w };
    let done = t.done.loader.loads[key];
    assert(done.versions =~= seq![v, x]);
    lemma_status_while_reloading(done, v, x);
    r
}

/// In such a pass, a new version comes to wait for metadata, and no call is made for the load.
proof fn lemma_reload_begins<R: IndirectionResolver + ?Sized>(
    t: Trace,
    resolver: &R,
    key: u64,
    uuid: u128,
    v: VersionView,
) -> (number: u32)
    requires
        t.quiet_about(resolver, key, uuid),
        t.begun.loader.pending_reloads.len() == 0,
        t.begun.loader.invalidated.contains(uuid),
        t.reported.loader.found_always(key, t.stepped.loader, true),
        t.begun.loader.loads[key].versions == seq![v],
        v.state is Loaded,
    ensures
        number > v.version,
        v.asset_type is Some,
        t.stepped.loader.loads.contains_key(key),
        t.stepped.loader.loads[key].versions == seq![
            v,
            (VersionView {
                state: LoadState::WaitingForMetadata,
                ..VersionView::fresh(number, false, None)
            }),
        ],
        t.calls_for(LoadHandle(key)) == Seq::<StorageCall>::empty(),
{
    let before = t.begun.loader;
    assert(before.loads.contains_key(key));
    assert(before.loads[key].wf() && before.loads[key].versions[0] == v);
    lemma_handles_stay(t, resolver, key, uuid);
    lemma_changes_mark(t, resolver, key, uuid);
    lemma_ops_leave(t, resolver, key, uuid);
    let keys = lemma_order_of_pass(t, resolver);
    let (k, calls) = lemma_place_in_pass(t, resolver, keys, key);
    let s2 = t.reported.loader;
    let s3 = t.stepped.loader;
    lemma_pass_at(s2, keys, s3.by_uuid, k);
    let found = s2.found(keys, k, s3.by_uuid);
    assert(found.loads[key].refs > 0);
    assert(found.loads[key].versions[0] == v);
    assert(found.loads[key].starts_reload());
    law_reload_is_asked_for_in_same_pass(s2, keys, s3, calls, k);
    let load = s2.loads[key];
    let number = (load.version_counter + 1) as u32;
    assert(load.version_counter < u32::MAX) by {
        assert(found.step_load(key, s3.by_uuid) is Ok);
    }
    assert(load.numbered());
    assert(load.versions[0].version <= load.version_counter);
    lemma_pass_calls(s2, keys, s3.by_uuid, k);
    law_pending_reload_starts(found, key, s3.by_uuid);
    lemma_calls_of_trace(t, resolver, key, uuid, calls);
    number
}

/// The metadata of a version that waits for it is asked for.
proof fn lemma_reload_asked<R: IndirectionResolver + ?Sized>(
    t: Trace,
    resolver: &R,
    key: u64,
    uuid: u128,
    v: VersionView,
    number: u32,
) -> (r: (Map<u128, (LoadHandle, u32)>, Sender<MetadataResponse>))
    requires
        t.quiet_about(resolver, key, uuid),
        t.stepped.loader.loads.contains_key(key),
        t.stepped.loader.loads[key].versions == seq![
            v,
            (VersionView {
                state: LoadState::WaitingForMetadata,
                ..VersionView::fresh(number, false, None)
            }),
        ],
    ensures
        t.begun.io.len() <= t.done.io.len(),
        t.done.io.skip(t.begun.io.len() as int).contains(IoCall::Metadata(r.0, r.1)),
        t.begun.links.hears_metadata(r.1),
        r.0.contains_key(uuid),
        r.0[uuid] == (LoadHandle(key), number),
{
    lemma_handles_stay(t, resolver, key, uuid);
    let (received, wanted, tx) = lemma_metadata_asked(t, resolver, key, uuid);
    let versions = received.loads[key].versions;
    assert(versions.last().state is WaitingForMetadata);
    assert(last_waiting(versions) == Some(number));
    assert(received.wants_metadata(uuid));
    assert(wanted.contains_key(uuid));
    lemma_io_grows(t, resolver);
    let start = t.begun.io.len() as int;
    assert(t.done.io[start] == IoCall::Metadata(wanted, tx));
    assert(t.done.io.skip(start)[0] == IoCall::Metadata(wanted, tx));
    (wanted, tx)
}

/// The status and the type of a load whose newer version is asked for.
proof fn lemma_status_while_reloading(load: LoadView, v: VersionView, x: VersionView)
    requires
        load.versions == seq![v, x],
        v.state is Loaded,
        x.state is RequestingMetadata,
        x.version > v.version,
    ensures
        load.status() == LoadStatus::Loading,
        load.asset_type() == v.asset_type,
{
    let versions = load.versions;
    assert(versions.drop_last() =~= seq![v]);
    assert(seq![v].drop_last() =~= Seq::empty());
    assert(newest_version(seq![v].drop_last()) is None);
    assert(newest_version(seq![v]) == Some(v));
    assert(newest_version(versions) == Some(x));
    let loaded = VersionQuery::InState(LoadState::Loaded);
    assert(is_first(versions, loaded, 0));
    lemma_position_some(versions, loaded, 0);
}

/// What a pass does to a load of which it hears nothing, and which has one version that neither
/// waits for metadata nor for data after it.
proof fn lemma_quiet_single<R: IndirectionResolver + ?Sized>(
    t: Trace,
    resolver: &R,
    key: u64,
    uuid: u128,
    v: VersionView,
)
    requires
        t.quiet_about(resolver, key, uuid),
        t.begun.loader.no_reload_of(uuid),
        t.reported.loader.found_always(key, t.stepped.loader, false),
        t.begun.loader.loads[key].versions == seq![v],
        v.state is Loaded || v.state is UnloadRequested || v.state is Unloading,
    ensures
        t.done.loader.loads.contains_key(key),
        t.done.loader.loads[key].versions == seq![t.reported.loader.next_version(false, v)],
        t.calls_for(LoadHandle(key)) == (if v.state is UnloadRequested {
            crate::load_states::free_calls(LoadHandle(key), v)
        } else {
            Seq::empty()
        }),
{
    let before = t.begun.loader;
    assert(before.loads.contains_key(key));
    lemma_handles_stay(t, resolver, key, uuid);
    lemma_changes_leave(t, resolver, key, uuid);
    lemma_taken_apart(t, resolver, key, uuid);
    lemma_ops_leave(t, resolver, key, uuid);
    let keys = lemma_order_of_pass(t, resolver);
    let (k, calls) = lemma_place_in_pass(t, resolver, keys, key);
    let s2 = t.reported.loader;
    let s3 = t.stepped.loader;
    lemma_pass_at(s2, keys, s3.by_uuid, k);
    let found = s2.found(keys, k, s3.by_uuid);
    assert(found.loads[key].refs == 0);
    law_pass_moves_single_version(s2, keys, s3, calls, k, v);
    assert(s3.loads[key].versions == seq![s2.next_version(false, v)]);
    lemma_calls_of_trace(t, resolver, key, uuid, calls);
    lemma_end_leaves(t, resolver, key, uuid);
    assert(t.done.loader.loads[key].versions =~= seq![s2.next_version(false, v)]);
}

/// In such a pass, a version that is given up releases its dependencies.
proof fn lemma_quiet_release<R: IndirectionResolver + ?Sized>(
    t: Trace,
    resolver: &R,
    key: u64,
    uuid: u128,
    v: VersionView,
    dep: u128,
)
    requires
        t.quiet_about(resolver, key, uuid),
        t.begun.loader.no_reload_of(uuid),
        t.begun.loader.loads[key].versions == seq![v],
        v.state is UnloadRequested,
        direct_handles(t.stepped.loader.by_uuid),
        t.reported.loader.touched_by_one(key, dep),
    ensures
        t.stepped.loader.refs_of(dep) == shifted(
            t.reported.loader.refs_of(dep),
            -times_among(deps_of(v.metadata), dep),
        ),
{
    let before = t.begun.loader;
    assert(before.loads.contains_key(key));
    lemma_handles_stay(t, resolver, key, uuid);
    lemma_changes_leave(t, resolver, key, uuid);
    lemma_taken_apart(t, resolver, key, uuid);
    lemma_ops_leave(t, resolver, key, uuid);
    let keys = lemma_order_of_pass(t, resolver);
    let (k, calls) = lemma_place_in_pass(t, resolver, keys, key);
    law_pass_counts_references_of_one(
        t.reported.loader,
        keys,
        t.stepped.loader,
        calls,
        k,
        dep,
    );
    assert(seq![v].drop_last() =~= Seq::empty());
    assert(seq![v].last() == v);
    assert(refs_taken(seq![v].drop_last(), dep) == 0);
    assert(refs_taken(seq![v], dep) == v.refs_taken(dep));
}

/// An asset keeps its handle in every stage, and no two assets share a handle in any.
pub proof fn lemma_handles_stay<R: IndirectionResolver + ?Sized>(
    t: Trace,
    resolver: &R,
    key: u64,
    uuid: u128,
)
    requires
        t.quiet_about(resolver, key, uuid),
    ensures
        part_of(t.begun.loader.by_uuid, t.changed.loader.by_uuid),
        part_of(t.changed.loader.by_uuid, t.reported.loader.by_uuid),
        part_of(t.reported.loader.by_uuid, t.done.loader.by_uuid),
        part_of(t.stepped.loader.by_uuid, t.done.loader.by_uuid),
        part_of(t.indirect.loader.by_uuid, t.done.loader.by_uuid),
        part_of(t.described.loader.by_uuid, t.done.loader.by_uuid),
        part_of(t.resolved.loader.by_uuid, t.done.loader.by_uuid),
        distinct_handles(t.begun.loader.by_uuid),
        distinct_handles(t.stepped.loader.by_uuid),
        t.changed.loader.by_uuid.contains_key(uuid) && t.changed.loader.by_uuid[uuid] == key,
        t.reported.loader.by_uuid.contains_key(uuid) && t.reported.loader.by_uuid[uuid] == key,
        t.stepped.loader.by_uuid.contains_key(uuid) && t.stepped.loader.by_uuid[uuid] == key,
        t.indirect.loader.by_uuid.contains_key(uuid) && t.indirect.loader.by_uuid[uuid] == key,
        t.described.loader.by_uuid.contains_key(uuid) && t.described.loader.by_uuid[uuid] == key,
        t.resolved.loader.by_uuid.contains_key(uuid) && t.resolved.loader.by_uuid[uuid] == key,
        t.done.loader.by_uuid.contains_key(uuid) && t.done.loader.by_uuid[uuid] == key,
{
    let done = t.done.loader.by_uuid;
    assert(part_of(t.resolved.loader.by_uuid, done));
    assert(part_of(t.described.loader.by_uuid, done));
    assert(part_of(t.indirect.loader.by_uuid, done));
    assert(part_of(t.stepped.loader.by_uuid, done));
    assert(part_of(t.reported.loader.by_uuid, done));
    assert(part_of(t.changed.loader.by_uuid, done));
    assert(part_of(t.begun.loader.by_uuid, done));
    lemma_part_distinct(t.begun.loader.by_uuid, done);
    lemma_part_distinct(t.stepped.loader.by_uuid, done);
}

/// Looking for changed assets leaves an asset alone of which no reload is pending or asked for.
pub proof fn lemma_changes_leave<R: IndirectionResolver + ?Sized>(
    t: Trace,
    resolver: &R,
    key: u64,
    uuid: u128,
)
    requires
        t.quiet_about(resolver, key, uuid),
        t.begun.loader.no_reload_of(uuid),
    ensures
        t.changed.loader.loads.contains_key(key),
        t.changed.loader.loads[key] == t.begun.loader.loads[key],
        exists|calls: Seq<StorageCall>|
            t.changed.storage == t.begun.storage + calls && #[trigger] calls_for(
                calls,
                LoadHandle(key),
            ) == Seq::<StorageCall>::empty(),
{
    let s = t.begun.loader;
    let after = t.changed.loader;
    let none = Seq::<StorageCall>::empty();
    lemma_handles_stay(t, resolver, key, uuid);
    assert(s.loads.contains_key(key));
    assert(t.begun.storage + none =~= t.begun.storage);
    assert(calls_for(none, LoadHandle(key)) == none);
    if s.pending_reloads.len() == 0 {
        let order = choose|order: Seq<u128>|
            {
                &&& order.no_duplicates()
                &&& order.to_set() == s.invalidated.to_set()
                &&& Ok::<LoaderView, ErrorView>(after) == Ok::<LoaderView, ErrorView>(
                    #[trigger] s.drained().mark_all_changed(order),
                )
            };
        assert(!order.contains(uuid)) by {
            if order.contains(uuid) {
                assert(order.to_set().contains(uuid));
                assert(s.invalidated.to_set().contains(uuid));
            }
        }
        lemma_marking_leaves(s.drained(), order, key, uuid);
    } else if s.reloads_finished() {
        let (mid, calls) = s.commit_reloads(s.pending_reloads)->Ok_0;
        lemma_commit_reloads(s, s.pending_reloads);
        lemma_commits_call_for_others(s, s.pending_reloads, key, uuid);
        assert(calls_for(calls, LoadHandle(key)) == none);
    }
}

/// Marking other assets as changed leaves a load alone.
proof fn lemma_marking_leaves(s: LoaderView, order: Seq<u128>, key: u64, uuid: u128)
    requires
        distinct_handles(s.by_uuid),
        s.by_uuid.contains_key(uuid),
        s.by_uuid[uuid] == key,
        s.loads.contains_key(key),
        !order.contains(uuid),
    ensures
        s.mark_all_changed(order).by_uuid == s.by_uuid,
        s.mark_all_changed(order).loads.contains_key(key),
        s.mark_all_changed(order).loads[key] == s.loads[key],
    decreases order.len(),
{
    if order.len() > 0 {
        let init = order.drop_last();
        assert(order[order.len() - 1] == order.last());
        assert(!init.contains(uuid)) by {
            if init.contains(uuid) {
                let j = choose|j: int| 0 <= j < init.len() && init[j] == uuid;
                assert(order[j] == uuid);
            }
        }
        lemma_marking_leaves(s, init, key, uuid);
        if s.by_uuid.contains_key(order.last()) {
            assert(s.by_uuid[order.last()] != key);
        }
    }
}

/// Committing reloads of other assets makes no calls for a load.
pub proof fn lemma_commits_call_for_others(
    s: LoaderView,
    reloads: Seq<PendingReload>,
    key: u64,
    uuid: u128,
)
    requires
        distinct_handles(s.by_uuid),
        s.by_uuid.contains_key(uuid),
        s.by_uuid[uuid] == key,
        forall|i: int| 0 <= i < reloads.len() ==> (#[trigger] reloads[i]).asset_id.0 != uuid,
        s.commit_reloads(reloads) is Ok,
    ensures
        (s.commit_reloads(reloads)->Ok_0).0.by_uuid == s.by_uuid,
        calls_for((s.commit_reloads(reloads)->Ok_0).1, LoadHandle(key)) == Seq::<
            StorageCall,
        >::empty(),
    decreases reloads.len(),
{
    if reloads.len() > 0 {
        let init = reloads.drop_last();
        let reload = reloads.last();
        assert(reloads[reloads.len() - 1] == reload);
        assert forall|i: int| 0 <= i < init.len() implies (#[trigger] init[i]).asset_id.0 != uuid by {
            assert(init[i] == reloads[i]);
        }
        lemma_commits_call_for_others(s, init, key, uuid);
        let (mid, some) = s.commit_reloads(init)->Ok_0;
        let more = (mid.commit_reload(reload)->Ok_0).1;
        if s.by_uuid.contains_key(reload.asset_id.0) {
            assert(s.by_uuid[reload.asset_id.0] != key);
        }
        lemma_calls_of_one(more, LoadHandle(mid.by_uuid[reload.asset_id.0]), LoadHandle(key));
        if more.len() == 0 {
            assert(more =~= Seq::empty());
        }
        lemma_calls_add_up(some, more, LoadHandle(key));
        assert(Seq::<StorageCall>::empty() + Seq::<StorageCall>::empty()
            =~= Seq::<StorageCall>::empty());
    }
}

/// When no reload is pending, an asset that is invalidated and has a version gets its mark, and
/// nothing else in its load changes.
proof fn lemma_changes_mark<R: IndirectionResolver + ?Sized>(
    t: Trace,
    resolver: &R,
    key: u64,
    uuid: u128,
)
    requires
        t.quiet_about(resolver, key, uuid),
        t.begun.loader.pending_reloads.len() == 0,
        t.begun.loader.invalidated.contains(uuid),
        t.begun.loader.loads[key].versions.len() > 0,
    ensures
        t.changed.loader.loads.contains_key(key),
        t.changed.loader.loads[key] == (LoadView {
            pending_reload: true,
            ..t.begun.loader.loads[key]
        }),
        exists|calls: Seq<StorageCall>|
            t.changed.storage == t.begun.storage + calls && #[trigger] calls_for(
                calls,
                LoadHandle(key),
            ) == Seq::<StorageCall>::empty(),
{
    let s = t.begun.loader;
    let none = Seq::<StorageCall>::empty();
    assert(s.loads.contains_key(key));
    law_invalidated_assets_are_reloaded(
        s,
        t.begun.storage,
        t.changed.loader,
        t.changed.storage,
    );
    assert(s.change_noted(t.changed.loader, uuid));
    assert(t.begun.storage + none =~= t.begun.storage);
    assert(calls_for(none, LoadHandle(key)) == none);
}

/// The messages that each stage takes.
proof fn lemma_taken_apart<R: IndirectionResolver + ?Sized>(
    t: Trace,
    resolver: &R,
    key: u64,
    uuid: u128,
)
    requires
        t.quiet_about(resolver, key, uuid),
    ensures
        exists|ops: Seq<OpMessage>| #[trigger]
            t.takes_ops(ops) && forall|i: int|
                0 <= i < ops.len() ==> (#[trigger] ops[i]).handle().0 != key,
        exists|messages: Seq<MetadataMessage>, mid: LoaderView| #[trigger]
            t.takes_metadata(messages, mid) && forall|i: int|
                0 <= i < messages.len() ==> !(#[trigger] messages[i]).is_about(key, uuid),
        exists|messages: Seq<(DataMessage, Option<Seq<char>>)>| #[trigger]
            t.takes_data(messages) && forall|i: int|
                0 <= i < messages.len() ==> (#[trigger] messages[i]).0.handle.0 != key,
{
    let taken = t.begun.taken;
    let done = t.done.taken;
    lemma_stage_takes_ops(t, resolver);
    let ops = choose|ops: Seq<OpMessage>| #[trigger] t.takes_ops(ops);
    lemma_stage_takes_metadata(t, resolver);
    let (messages, mid) = choose|messages: Seq<MetadataMessage>, mid: LoaderView| #[trigger]
        t.takes_metadata(messages, mid);
    lemma_stage_takes_data(t, resolver);
    let data = choose|messages: Seq<(DataMessage, Option<Seq<char>>)>| #[trigger]
        t.takes_data(messages);
    lemma_stage_takes_resolve(t, resolver);
    assert(done.ops =~= taken.ops + ops);
    assert(done.metadata =~= taken.metadata + messages);
    assert(done.data =~= taken.data + data_messages(data));
    assert forall|i: int| 0 <= i < ops.len() implies (#[trigger] ops[i]).handle().0 != key by {
        assert(done.ops[taken.ops.len() + i] == ops[i]);
    }
    assert forall|i: int| 0 <= i < messages.len() implies !(#[trigger] messages[i]).is_about(
        key,
        uuid,
    ) by {
        assert(done.metadata[taken.metadata.len() + i] == messages[i]);
    }
    assert forall|i: int| 0 <= i < data.len() implies (#[trigger] data[i]).0.handle.0 != key by {
        assert(done.data[taken.data.len() + i] == data_messages(data)[i]);
    }
}

impl Trace {
    /// The stage that takes in the outcomes of load operations takes these.
    pub open spec fn takes_ops(self, ops: Seq<OpMessage>) -> bool {
        &&& came_to(
            self.changed.loader.receive_all_ops(ops),
            self.changed.storage,
            self.reported.storage,
            Ok(self.reported.loader),
        )
        &&& self.reported.taken == self.changed.taken.with_ops(ops)
    }

    /// The stage that takes in metadata takes these answers, which lead to this state, and then
    /// asks for what is needed.
    pub open spec fn takes_metadata(
        self,
        messages: Seq<MetadataMessage>,
        mid: LoaderView,
    ) -> bool {
        &&& self.indirect.loader.may_receive_all_metadata(messages, Ok(mid))
        &&& self.described.taken == self.indirect.taken.with_metadata(messages)
        &&& self.described.loader == mid.metadata_requested()
        &&& self.indirect.links.asked_metadata(
            self.indirect.io,
            mid.metadata_wanted(),
            self.described.io,
        )
    }

    /// The stage that takes in candidates takes these answers, which lead to this state, and then
    /// asks for what is needed.
    pub open spec fn takes_resolve<R: IndirectionResolver + ?Sized>(
        self,
        resolver: &R,
        messages: Seq<(ResolveMessage, Option<AssetUuid>)>,
        mid: LoaderView,
    ) -> bool {
        &&& self.described.loader.may_receive_all_candidates(resolver, messages, Ok(mid))
        &&& self.resolved.taken == self.described.taken.with_resolve(resolve_messages(messages))
        &&& mid.may_ask_candidates(
            self.described.links,
            self.described.io,
            self.resolved.io,
            self.resolved.loader,
        )
    }

    /// The stage that takes in data takes these answers.
    pub open spec fn takes_data(self, messages: Seq<(DataMessage, Option<Seq<char>>)>) -> bool {
        &&& self.done.taken == self.resolved.taken.with_data(data_messages(messages))
        &&& self.resolved.loader.receive_all_data(messages) matches Ok((mid, calls))
            && self.done.storage == self.resolved.storage + calls && mid.may_ask_data(
            self.resolved.links,
            self.resolved.io,
            self.done.io,
            self.done.loader,
        )
    }
}

proof fn lemma_stage_takes_ops<R: IndirectionResolver + ?Sized>(t: Trace, resolver: &R)
    requires
        t.runs(resolver),
    ensures
        exists|ops: Seq<OpMessage>| #[trigger] t.takes_ops(ops),
{
    let ops = choose|ops: Seq<OpMessage>|
        {
            &&& came_to(
                #[trigger] t.changed.loader.receive_all_ops(ops),
                t.changed.storage,
                t.reported.storage,
                Ok(t.reported.loader),
            )
            &&& t.reported.taken == t.changed.taken.with_ops(ops)
        };
    assert(t.takes_ops(ops));
}

proof fn lemma_stage_takes_metadata<R: IndirectionResolver + ?Sized>(t: Trace, resolver: &R)
    requires
        t.runs(resolver),
    ensures
        exists|messages: Seq<MetadataMessage>, mid: LoaderView| #[trigger]
            t.takes_metadata(messages, mid),
{
    let s = t.indirect.loader;
    let (messages, received) = choose|
        messages: Seq<MetadataMessage>,
        received: Result<LoaderView, ErrorView>,
    |
        {
            &&& #[trigger] s.may_receive_all_metadata(messages, received)
            &&& t.described.taken == t.indirect.taken.with_metadata(messages)
            &&& received matches Ok(mid) && t.described.loader == mid.metadata_requested()
                && t.indirect.links.asked_metadata(
                t.indirect.io,
                mid.metadata_wanted(),
                t.described.io,
            )
        };
    assert(t.takes_metadata(messages, received->Ok_0));
}

proof fn lemma_stage_takes_resolve<R: IndirectionResolver + ?Sized>(t: Trace, resolver: &R)
    requires
        t.runs(resolver),
    ensures
        exists|messages: Seq<(ResolveMessage, Option<AssetUuid>)>, mid: LoaderView| #[trigger]
            t.takes_resolve(resolver, messages, mid),
{
    let s = t.described.loader;
    let (messages, received) = choose|
        messages: Seq<(ResolveMessage, Option<AssetUuid>)>,
        received: Result<LoaderView, ErrorView>,
    |
        {
            &&& #[trigger] s.may_receive_all_candidates(resolver, messages, received)
            &&& t.resolved.taken == t.described.taken.with_resolve(resolve_messages(messages))
            &&& received matches Ok(mid) && mid.may_ask_candidates(
                t.described.links,
                t.described.io,
                t.resolved.io,
                t.resolved.loader,
            )
        };
    assert(t.takes_resolve(resolver, messages, received->Ok_0));
}

proof fn lemma_stage_takes_data<R: IndirectionResolver + ?Sized>(t: Trace, resolver: &R)
    requires
        t.runs(resolver),
    ensures
        exists|messages: Seq<(DataMessage, Option<Seq<char>>)>| #[trigger] t.takes_data(messages),
{
    let s = t.resolved.loader;
    let messages = choose|messages: Seq<(DataMessage, Option<Seq<char>>)>|
        {
            &&& t.done.taken == t.resolved.taken.with_data(data_messages(messages))
            &&& #[trigger] s.receive_all_data(messages) matches Ok((mid, calls)) && t.done.storage
                == t.resolved.storage + calls && mid.may_ask_data(
                t.resolved.links,
                t.resolved.io,
                t.done.io,
                t.done.loader,
            )
        };
    assert(t.takes_data(messages));
}

/// The outcomes of load operations of other loads leave a load alone.
pub proof fn lemma_ops_leave<R: IndirectionResolver + ?Sized>(
    t: Trace,
    resolver: &R,
    key: u64,
    uuid: u128,
)
    requires
        t.quiet_about(resolver, key, uuid),
        t.changed.loader.loads.contains_key(key),
    ensures
        t.reported.loader.loads.contains_key(key),
        t.reported.loader.loads[key] == t.changed.loader.loads[key],
        exists|calls: Seq<StorageCall>|
            t.reported.storage == t.changed.storage + calls && #[trigger] calls_for(
                calls,
                LoadHandle(key),
            ) == Seq::<StorageCall>::empty(),
{
    lemma_taken_apart(t, resolver, key, uuid);
    let ops = choose|ops: Seq<OpMessage>| #[trigger]
        t.takes_ops(ops) && forall|i: int|
            0 <= i < ops.len() ==> (#[trigger] ops[i]).handle().0 != key;
    lemma_ops_of_others(t.changed.loader, ops, key);
    let calls = (t.changed.loader.receive_all_ops(ops)->Ok_0).1;
    assert(calls_for(calls, LoadHandle(key)) == Seq::<StorageCall>::empty());
}

pub proof fn lemma_ops_of_others(s: LoaderView, ops: Seq<OpMessage>, key: u64)
    requires
        forall|i: int| 0 <= i < ops.len() ==> (#[trigger] ops[i]).handle().0 != key,
        s.loads.contains_key(key),
        s.receive_all_ops(ops) is Ok,
    ensures
        s.receive_all_ops(ops) matches Ok((after, calls)) && {
            &&& after.loads.contains_key(key)
            &&& after.loads[key] == s.loads[key]
            &&& calls_for(calls, LoadHandle(key)) == Seq::<StorageCall>::empty()
        },
    decreases ops.len(),
{
    if ops.len() > 0 {
        let init = ops.drop_last();
        assert(ops[ops.len() - 1] == ops.last());
        assert forall|i: int| 0 <= i < init.len() implies (#[trigger] init[i]).handle().0 != key by {
            assert(init[i] == ops[i]);
        }
        lemma_ops_of_others(s, init, key);
        let (mid, some) = s.receive_all_ops(init)->Ok_0;
        let (after, more) = mid.receive_op(ops.last())->Ok_0;
        lemma_calls_of_one(more, ops.last().handle(), LoadHandle(key));
        lemma_calls_add_up(some, more, LoadHandle(key));
        assert(Seq::<StorageCall>::empty() + Seq::<StorageCall>::empty()
            =~= Seq::<StorageCall>::empty());
    }
}

/// The order in which the pass comes to the loads.
pub proof fn lemma_order_of_pass<R: IndirectionResolver + ?Sized>(
    t: Trace,
    resolver: &R,
) -> (keys: Seq<u64>)
    requires
        t.runs(resolver),
    ensures
        keys.no_duplicates(),
        keys.to_set() == t.reported.loader.loads.dom(),
        came_to(
            t.reported.loader.step_loads(keys, t.stepped.loader.by_uuid),
            t.reported.storage,
            t.stepped.storage,
            Ok(t.stepped.loader),
        ),
{
    let s = t.reported.loader;
    let (keys, fresh) = choose|keys: Seq<u64>, fresh: Map<u128, u64>|
        {
            &&& keys.no_duplicates()
            &&& keys.to_set() == s.loads.dom()
            &&& came_to(
                #[trigger] s.step_loads(keys, fresh),
                t.reported.storage,
                t.stepped.storage,
                Ok(t.stepped.loader),
            )
            &&& fresh == t.stepped.loader.by_uuid
        };
    keys
}

/// The place of a load in that order, and the calls of the pass over the loads.
pub proof fn lemma_place_in_pass<R: IndirectionResolver + ?Sized>(
    t: Trace,
    resolver: &R,
    keys: Seq<u64>,
    key: u64,
) -> (r: (int, Seq<StorageCall>))
    requires
        t.runs(resolver),
        distinct_handles(t.stepped.loader.by_uuid),
        keys.no_duplicates(),
        keys.to_set() == t.reported.loader.loads.dom(),
        came_to(
            t.reported.loader.step_loads(keys, t.stepped.loader.by_uuid),
            t.reported.storage,
            t.stepped.storage,
            Ok(t.stepped.loader),
        ),
        t.reported.loader.loads.contains_key(key),
    ensures
        0 <= r.0 < keys.len(),
        keys[r.0] == key,
        t.reported.loader.passed(keys, t.stepped.loader, r.1),
        t.stepped.storage == t.reported.storage + r.1,
        t.reported.loader.step_loads(keys.take(r.0), t.stepped.loader.by_uuid) is Ok,
        forall|u: u64| keys.contains(u) ==> #[trigger] t.reported.loader.loads.contains_key(u),
{
    let s = t.reported.loader;
    let calls = (s.step_loads(keys, t.stepped.loader.by_uuid)->Ok_0).1;
    assert(keys.to_set().contains(key));
    let k = choose|k: int| 0 <= k < keys.len() && keys[k] == key;
    assert forall|u: u64| keys.contains(u) implies #[trigger] s.loads.contains_key(u) by {
        assert(keys.to_set().contains(u));
    }
    lemma_pass_at(s, keys, t.stepped.loader.by_uuid, k);
    (k, calls)
}

/// The calls of a pass for a load of which it hears nothing are those of the pass over the loads.
proof fn lemma_calls_of_trace<R: IndirectionResolver + ?Sized>(
    t: Trace,
    resolver: &R,
    key: u64,
    uuid: u128,
    calls: Seq<StorageCall>,
)
    requires
        t.quiet_about(resolver, key, uuid),
        t.stepped.storage == t.reported.storage + calls,
        exists|some: Seq<StorageCall>|
            t.changed.storage == t.begun.storage + some && #[trigger] calls_for(
                some,
                LoadHandle(key),
            ) == Seq::<StorageCall>::empty(),
        t.changed.loader.loads.contains_key(key),
    ensures
        t.calls_for(LoadHandle(key)) == calls_for(calls, LoadHandle(key)),
{
    let handle = LoadHandle(key);
    let none = Seq::<StorageCall>::empty();
    let first = choose|some: Seq<StorageCall>|
        t.changed.storage == t.begun.storage + some && #[trigger] calls_for(some, handle) == none;
    lemma_ops_leave(t, resolver, key, uuid);
    let second = choose|some: Seq<StorageCall>|
        t.reported.storage == t.changed.storage + some && #[trigger] calls_for(some, handle)
            == none;
    lemma_taken_apart(t, resolver, key, uuid);
    let messages = choose|messages: Seq<(DataMessage, Option<Seq<char>>)>| #[trigger]
        t.takes_data(messages) && forall|i: int|
            0 <= i < messages.len() ==> (#[trigger] messages[i]).0.handle.0 != key;
    let last = (t.resolved.loader.receive_all_data(messages)->Ok_0).1;
    lemma_data_calls_for_others(t.resolved.loader, messages, key);
    let all = first + second + calls + last;
    assert(t.done.storage =~= t.begun.storage + all);
    assert(t.done.storage.skip(t.begun.storage.len() as int) =~= all);
    lemma_calls_add_up(first + second + calls, last, handle);
    lemma_calls_add_up(first + second, calls, handle);
    lemma_calls_add_up(first, second, handle);
    assert(calls_for(all, handle) =~= calls_for(calls, handle));
}

pub proof fn lemma_data_calls_for_others(
    s: LoaderView,
    messages: Seq<(DataMessage, Option<Seq<char>>)>,
    key: u64,
)
    requires
        forall|i: int| 0 <= i < messages.len() ==> (#[trigger] messages[i]).0.handle.0 != key,
        s.receive_all_data(messages) is Ok,
    ensures
        s.receive_all_data(messages) matches Ok((after, calls)) && {
            &&& s.loads.contains_key(key) ==> after.loads.contains_key(key) && after.loads[key]
                == s.loads[key]
            &&& calls_for(calls, LoadHandle(key)) == Seq::<StorageCall>::empty()
        },
    decreases messages.len(),
{
    if messages.len() > 0 {
        let init = messages.drop_last();
        assert(messages[messages.len() - 1] == messages.last());
        assert forall|i: int| 0 <= i < init.len() implies (#[trigger] init[i]).0.handle.0 != key by {
            assert(init[i] == messages[i]);
        }
        lemma_data_calls_for_others(s, init, key);
        let (mid, some) = s.receive_all_data(init)->Ok_0;
        let (after, more) = mid.receive_data(messages.last().0, messages.last().1)->Ok_0;
        lemma_calls_of_one(more, messages.last().0.handle, LoadHandle(key));
        lemma_calls_add_up(some, more, LoadHandle(key));
        assert(Seq::<StorageCall>::empty() + Seq::<StorageCall>::empty()
            =~= Seq::<StorageCall>::empty());
    }
}

/// The answers about metadata that a pass takes leave a load alone of which it hears nothing; and
/// if metadata is needed then, it is asked for.
proof fn lemma_metadata_asked<R: IndirectionResolver + ?Sized>(
    t: Trace,
    resolver: &R,
    key: u64,
    uuid: u128,
) -> (r: (LoaderView, Map<u128, (LoadHandle, u32)>, Sender<MetadataResponse>))
    requires
        t.quiet_about(resolver, key, uuid),
        t.stepped.loader.loads.contains_key(key),
    ensures
        r.0.loads.contains_key(key),
        r.0.loads[key] == t.stepped.loader.loads[key],
        r.0.by_uuid.contains_key(uuid) && r.0.by_uuid[uuid] == key,
        t.described.loader == r.0.metadata_requested(),
        r.1 == r.0.metadata_wanted(),
        r.1.contains_key(uuid) ==> t.indirect.links.hears_metadata(r.2) && t.described.io
            == t.indirect.io.push(IoCall::Metadata(r.1, r.2)),
        t.described.io == t.indirect.io || exists|call: IoCall|
            t.described.io == #[trigger] t.indirect.io.push(call),
{
    lemma_handles_stay(t, resolver, key, uuid);
    lemma_taken_apart(t, resolver, key, uuid);
    let (messages, mid) = choose|messages: Seq<MetadataMessage>, mid: LoaderView| #[trigger]
        t.takes_metadata(messages, mid) && forall|i: int|
            0 <= i < messages.len() ==> !(#[trigger] messages[i]).is_about(key, uuid);
    let s = t.indirect.loader;
    assert(mid.by_uuid == t.described.loader.by_uuid);
    lemma_part_distinct(mid.by_uuid, t.done.loader.by_uuid);
    lemma_metadata_of_others(s, messages, mid, key, uuid);
    let wanted = mid.metadata_wanted();
    let tx = choose|tx: Sender<MetadataResponse>| #[trigger]
        t.indirect.links.hears_metadata(tx) && t.described.io == t.indirect.io.push(
            IoCall::Metadata(wanted, tx),
        );
    if wanted.contains_key(uuid) {
        assert(wanted != Map::<u128, (LoadHandle, u32)>::empty());
    }
    (mid, wanted, tx)
}

/// Answers about the metadata of others leave a load alone.
pub proof fn lemma_metadata_of_others(
    s: LoaderView,
    messages: Seq<MetadataMessage>,
    after: LoaderView,
    key: u64,
    uuid: u128,
)
    requires
        s.may_receive_all_metadata(messages, Ok(after)),
        forall|i: int| 0 <= i < messages.len() ==> !(#[trigger] messages[i]).is_about(key, uuid),
        distinct_handles(after.by_uuid),
        s.by_uuid.contains_key(uuid),
        s.by_uuid[uuid] == key,
        s.loads.contains_key(key),
    ensures
        part_of(s.by_uuid, after.by_uuid),
        after.loads.contains_key(key),
        after.loads[key] == s.loads[key],
    decreases messages.len(),
{
    if messages.len() > 0 {
        let init = messages.drop_last();
        let message = messages.last();
        assert(messages[messages.len() - 1] == message);
        let (mid, fresh) = choose|mid: LoaderView, fresh: Map<u128, u64>|
            {
                &&& s.may_receive_all_metadata(init, Ok(mid))
                &&& #[trigger] mid.may_receive_metadata(
                    message,
                    fresh,
                    Ok::<LoaderView, ErrorView>(after),
                )
                &&& fresh == after.by_uuid && after.extends(mid)
            };
        assert forall|i: int| 0 <= i < init.len() implies !(#[trigger] init[i]).is_about(
            key,
            uuid,
        ) by {
            assert(init[i] == messages[i]);
        }
        lemma_part_distinct(mid.by_uuid, after.by_uuid);
        lemma_metadata_of_others(s, init, mid, key, uuid);
        let (u, rest) = mid.take_descriptions(message, fresh)->Ok_0;
        let order = choose|order: Seq<u128>|
            {
                &&& order.no_duplicates()
                &&& order.to_set() == rest.dom()
                &&& Ok::<LoaderView, ErrorView>(after) == #[trigger] u.requeue_all(rest, order)
            };
        assert forall|other: u128| #[trigger]
            message.requests.contains_key(other) implies message.requests[other].0.0 != key by {}
        if let Ok(list) = message.found {
            assert forall|i: int| 0 <= i < list.len() implies (#[trigger] list[i]).asset_id.0
                != uuid by {}
            lemma_requeues_keep_handles(u, rest, order);
            lemma_descriptions_of_others(mid, list, message.requests, fresh, key, uuid);
        }
        assert forall|i: int| 0 <= i < order.len() implies rest[#[trigger] order[i]].0.0 != key by {
            assert(order.to_set().contains(order[i]));
            assert(rest.contains_key(order[i]));
        }
        lemma_requeues_of_others(u, rest, order, key);
    }
}

/// Descriptions of other assets leave a load alone.
proof fn lemma_descriptions_of_others(
    s: LoaderView,
    list: Seq<MetadataView>,
    requests: Map<u128, (LoadHandle, u32)>,
    fresh: Map<u128, u64>,
    key: u64,
    uuid: u128,
)
    requires
        s.describe_all(list, requests, fresh) is Ok,
        forall|i: int| 0 <= i < list.len() ==> (#[trigger] list[i]).asset_id.0 != uuid,
        forall|other: u128| #[trigger]
            requests.contains_key(other) ==> requests[other].0.0 != key,
        distinct_handles(fresh),
        fresh.contains_key(uuid),
        fresh[uuid] == key,
        part_of((s.describe_all(list, requests, fresh)->Ok_0).0.by_uuid, fresh),
        s.loads.contains_key(key),
    ensures
        s.describe_all(list, requests, fresh) matches Ok((after, rest)) && {
            &&& after.loads.contains_key(key)
            &&& after.loads[key] == s.loads[key]
            &&& forall|other: u128| #[trigger]
                rest.contains_key(other) ==> requests.contains_key(other) && rest[other]
                    == requests[other]
        },
    decreases list.len(),
{
    if list.len() > 0 {
        let init = list.drop_last();
        let m = list.last();
        assert(list[list.len() - 1] == m);
        let (mid, rest) = s.describe_all(init, requests, fresh)->Ok_0;
        let request = rest.get(m.asset_id.0);
        mid.lemma_describe_extends(m, request, fresh);
        let after = mid.describe(m, request, fresh)->Ok_0;
        assert(part_of(mid.by_uuid, fresh));
        assert forall|i: int| 0 <= i < init.len() implies (#[trigger] init[i]).asset_id.0 != uuid by {
            assert(init[i] == list[i]);
        }
        lemma_descriptions_of_others(s, init, requests, fresh, key, uuid);
        if request is None {
            assert(after.by_uuid.contains_key(m.asset_id.0));
            assert(fresh.contains_key(m.asset_id.0));
            assert(fresh[m.asset_id.0] != key);
        } else {
            assert(rest.contains_key(m.asset_id.0));
            assert(requests.contains_key(m.asset_id.0));
        }
    }
}

/// Making the requests of others again leaves a load alone.
pub proof fn lemma_requeues_of_others(
    s: LoaderView,
    requests: Map<u128, (LoadHandle, u32)>,
    order: Seq<u128>,
    key: u64,
)
    requires
        s.requeue_all(requests, order) is Ok,
        forall|i: int| 0 <= i < order.len() ==> requests[#[trigger] order[i]].0.0 != key,
        s.loads.contains_key(key),
    ensures
        s.requeue_all(requests, order) matches Ok(after) && after.loads.contains_key(key)
            && after.loads[key] == s.loads[key],
    decreases order.len(),
{
    if order.len() > 0 {
        let init = order.drop_last();
        assert(order[order.len() - 1] == order.last());
        assert forall|i: int| 0 <= i < init.len() implies requests[#[trigger] init[i]].0.0
            != key by {
            assert(init[i] == order[i]);
        }
        lemma_requeues_of_others(s, requests, init, key);
    }
}

/// Making requests again keeps the handles of all assets.
pub proof fn lemma_requeues_keep_handles(
    s: LoaderView,
    requests: Map<u128, (LoadHandle, u32)>,
    order: Seq<u128>,
)
    requires
        s.requeue_all(requests, order) is Ok,
    ensures
        (s.requeue_all(requests, order)->Ok_0).by_uuid == s.by_uuid,
    decreases order.len(),
{
    if order.len() > 0 {
        lemma_requeues_keep_handles(s, requests, order.drop_last());
    }
}

/// Answers about identifiers change nothing in a load but the number of references.
proof fn lemma_candidates_leave<R: IndirectionResolver + ?Sized>(
    s: LoaderView,
    resolver: &R,
    messages: Seq<(ResolveMessage, Option<AssetUuid>)>,
    after: LoaderView,
    key: u64,
    uuid: u128,
)
    requires
        s.may_receive_all_candidates(resolver, messages, Ok(after)),
        distinct_handles(after.by_uuid),
        s.by_uuid.contains_key(uuid),
        s.by_uuid[uuid] == key,
        s.loads.contains_key(key),
    ensures
        part_of(s.by_uuid, after.by_uuid),
        after.loads.contains_key(key),
        after.loads[key] == (LoadView { refs: after.loads[key].refs, ..s.loads[key] }),
    decreases messages.len(),
{
    if messages.len() > 0 {
        let init = messages.drop_last();
        let (message, choice) = messages.last();
        let (mid, fresh) = choose|mid: LoaderView, fresh: Map<u128, u64>|
            {
                &&& s.may_receive_all_candidates(resolver, init, Ok(mid))
                &&& Ok::<LoaderView, ErrorView>(after) == #[trigger] mid.receive_candidates(
                    message,
                    choice,
                    fresh,
                )
                &&& fresh == after.by_uuid && after.extends(mid)
            };
        lemma_part_distinct(mid.by_uuid, after.by_uuid);
        lemma_candidates_leave(s, resolver, init, mid, key, uuid);
        let indirect = mid.indirects[message.handle.0];
        if let Some(bound) = indirect.resolved_uuid {
            mid.lemma_remove_chain_keeps(
                LoadHandle(mid.by_uuid[bound.0]),
                indirect.refs,
                mid.indirects.dom().len() + 1,
            );
        }
        if let Some(chosen) = choice {
            if message.candidates is Ok && chosen.0 != uuid {
                assert(after.by_uuid.contains_key(chosen.0));
                assert(after.by_uuid[chosen.0] != after.by_uuid[uuid]);
            }
        }
    }
}

/// From the pass over the loads on, nothing changes in a load of which the pass hears nothing, but
/// for what is asked for and the number of references.
pub proof fn lemma_end_leaves<R: IndirectionResolver + ?Sized>(
    t: Trace,
    resolver: &R,
    key: u64,
    uuid: u128,
)
    requires
        t.quiet_about(resolver, key, uuid),
        t.stepped.loader.loads.contains_key(key),
    ensures
        t.done.loader.loads.contains_key(key),
        t.done.loader.loads[key] == (LoadView {
            refs: t.done.loader.loads[key].refs,
            ..t.stepped.loader.loads[key].metadata_requested().data_requested()
        }),
{
    lemma_handles_stay(t, resolver, key, uuid);
    let (described, wanted, tx) = lemma_metadata_asked(t, resolver, key, uuid);
    lemma_stage_takes_resolve(t, resolver);
    let (answers, bound) = choose|
        messages: Seq<(ResolveMessage, Option<AssetUuid>)>,
        mid: LoaderView,
    | #[trigger] t.takes_resolve(resolver, messages, mid);
    assert(bound.by_uuid == t.resolved.loader.by_uuid);
    lemma_part_distinct(bound.by_uuid, t.done.loader.by_uuid);
    lemma_candidates_leave(t.described.loader, resolver, answers, bound, key, uuid);
    lemma_taken_apart(t, resolver, key, uuid);
    let messages = choose|messages: Seq<(DataMessage, Option<Seq<char>>)>| #[trigger]
        t.takes_data(messages) && forall|i: int|
            0 <= i < messages.len() ==> (#[trigger] messages[i]).0.handle.0 != key;
    lemma_data_calls_for_others(t.resolved.loader, messages, key);
    let filled = (t.resolved.loader.receive_all_data(messages)->Ok_0).0;
    let load = t.stepped.loader.loads[key].metadata_requested();
    assert(t.described.loader.loads[key] == load);
    assert(filled.loads[key] == (LoadView { refs: filled.loads[key].refs, ..load }));
    assert(t.done.loader.loads[key] == filled.loads[key].data_requested());
}

/// The calls to the source of the assets are only ever appended to.
proof fn lemma_io_grows<R: IndirectionResolver + ?Sized>(t: Trace, resolver: &R)
    requires
        t.runs(resolver),
    ensures
        t.begun.io == t.indirect.io,
        t.described.io.len() <= t.done.io.len(),
        forall|i: int|
            0 <= i < t.described.io.len() ==> #[trigger] t.done.io[i] == t.described.io[i],
{
    lemma_stage_takes_resolve(t, resolver);
    let (answers, bound) = choose|
        messages: Seq<(ResolveMessage, Option<AssetUuid>)>,
        mid: LoaderView,
    | #[trigger] t.takes_resolve(resolver, messages, mid);
    lemma_stage_takes_data(t, resolver);
    let messages = choose|messages: Seq<(DataMessage, Option<Seq<char>>)>| #[trigger]
        t.takes_data(messages);
}

} // verus!
