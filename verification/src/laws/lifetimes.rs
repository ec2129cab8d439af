//! How an asset that is referenced gets loaded, and one that is not gets unloaded.

use vstd::prelude::*;
use crate::data_requests::DataMessage;
use crate::error::{ErrorView, FailureView};
use crate::ids::LoadHandle;
use crate::load::{LoadState, LoadView, VersionQuery, VersionView};
use crate::load_ops::OpMessage;
use crate::messages::ArtifactRequest;
use crate::metadata::MetadataView;
use crate::metadata_requests::MetadataMessage;
use crate::model::{LoaderView, Stop};
use crate::storage::{LoadStatus, StorageCall};
use crate::load::{
    blocks_commit, first_blocking, is_first, is_first_blocking, lemma_position_none,
    lemma_position_some, newest, position,
};
use crate::load_states::deps_of;
use crate::loader::newest_version;
use crate::metadata_requests::last_waiting;
use crate::model::{direct_handles, distinct_handles};
use crate::laws::dependencies::{lemma_release, lemma_request_existing};
use crate::laws::versions::lemma_retained_all;

verus! {

impl LoaderView {
    /// The load at `key`, taken from nothing to being in use: its description is asked for and
    /// arrives, its data is asked for and arrives, and the storage takes the data and reports that
    /// it is loaded. Returned with the state after that are the calls made to the storage.
    pub open spec fn load_through(
        self,
        key: u64,
        m: MetadataView,
        data: Seq<u8>,
        fresh: Map<u128, u64>,
    ) -> Result<(LoaderView, Seq<StorageCall>), Stop> {
        match self.step_load(key, fresh) {
            Err(e) => Err(e),
            Ok((waiting, _)) => match waiting.metadata_requested().describe(
                m,
                waiting.metadata_wanted().get(m.asset_id.0),
                fresh,
            ) {
                Err(e) => Err(Stop::at_once(e)),
                Ok(described) => match described.step_load(key, fresh) {
                    Err(e) => Err(e),
                    Ok((depending, _)) => match depending.step_load(key, fresh) {
                        Err(e) => Err(e),
                        Ok((ready, _)) => {
                            let request = ready.loads[key].data_wanted(LoadHandle(key))->0;
                            let answer = DataMessage {
                                data: Ok(data),
                                handle: request.handle,
                                version: request.version,
                            };
                            match ready.data_requested().receive_data(answer, None) {
                                Err(e) => Err(e),
                                Ok((loading, updated)) => match loading.receive_op(
                                    OpMessage::Complete(request.handle, request.version),
                                ) {
                                    Err(e) => Err(e),
                                    Ok((loaded, committed)) => Ok((loaded, updated + committed)),
                                },
                            }
                        },
                    },
                },
            },
        }
    }
}

/// An asset that is referenced, and whose dependencies the storage has loaded, gets loaded: what it
/// asks for is what is needed, the storage gets the data once and commits it once, and then the
/// asset is in use.
pub proof fn law_referenced_asset_gets_loaded(
    s: LoaderView,
    key: u64,
    version: u32,
    m: MetadataView,
    data: Seq<u8>,
    fresh: Map<u128, u64>,
)
    requires
        s.wf(),
        s.loads.contains_key(key),
        s.loads[key].asset_id == m.asset_id,
        s.loads[key].refs > 0,
        !s.loads[key].pending_reload,
        s.loads[key].versions == seq![VersionView::fresh(version, true, None)],
        forall|i: int| 0 <= i < m.load_deps.len() ==> s.dep_ready(#[trigger] m.load_deps[i]),
    ensures
        s.load_through(key, m, data, fresh) matches Ok((loaded, calls)) && {
            &&& loaded.loads[key].status() == LoadStatus::Loaded
            &&& loaded.loads[key].asset_type() == Some(m.type_id)
            &&& calls == seq![
                StorageCall::Update {
                    asset_type: m.type_id,
                    data,
                    handle: LoadHandle(key),
                    version,
                    refusal: None,
                },
                StorageCall::Commit { asset_type: m.type_id, handle: LoadHandle(key), version },
            ]
        },
{
    let handle = LoadHandle(key);
    let deps = m.load_deps;
    let number = VersionQuery::Number(version);
    let v0 = VersionView::fresh(version, true, None);
    let v1 = VersionView { state: LoadState::WaitingForMetadata, ..v0 };
    let v2 = VersionView { state: LoadState::RequestingMetadata, ..v0 };
    let v3 = VersionView { state: LoadState::RequestDependencies, metadata: Some(m), ..v0 };
    let v4 = VersionView { state: LoadState::WaitingForDependencies, ..v3 };
    let v5 = VersionView { state: LoadState::WaitingForData, ..v3 };
    let v6 = VersionView { state: LoadState::RequestingData, ..v3 };
    let v7 = VersionView {
        state: LoadState::LoadingAsset,
        asset_type: Some(m.type_id),
        ..v3
    };
    let v8 = VersionView { state: LoadState::Loaded, ..v7 };
    assert forall|i: int| 0 <= i < deps.len() implies s.by_uuid[(
    #[trigger] deps[i])->Uuid_0.0] != key by {
        assert(s.dep_ready(deps[i]));
        assert(!s.loads[key].versions[0].state.in_storage());
    }
    // The description is asked for.
    lemma_step_single(s, key, v0, fresh);
    let a = (s.step_load(key, fresh)->Ok_0).0;
    assert(a.loads[key].versions == seq![v1]);
    assert(last_waiting(seq![v1]) == Some(version));
    let uuid = m.asset_id.0;
    assert(a.by_uuid[uuid] == key) by {
        assert(s.loads.contains_key(key));
    }
    assert(a.wants_metadata(uuid));
    assert(a.metadata_wanted().get(uuid) == Some((handle, version)));
    // It arrives.
    let b = a.metadata_requested();
    assert(b.loads[key].versions =~= seq![v2]);
    lemma_position_single(v2, number);
    let c = b.describe(m, Some((handle, version)), fresh)->Ok_0;
    assert(c.loads[key].versions =~= seq![v3]);
    assert(c.covered());
    assert forall|i: int| 0 <= i < deps.len() implies c.dep_ready(#[trigger] deps[i]) by {
        assert(s.dep_ready(deps[i]));
        let dep = s.by_uuid[deps[i]->Uuid_0.0];
        assert(dep != key);
        assert forall|j: int| 0 <= j < c.loads[dep].versions.len() implies (
        #[trigger] c.loads[dep].versions[j]).state.in_storage() by {
            assert(s.loads[dep].versions[j].state.in_storage());
        }
    }
    // The dependencies are referenced, and found to be loaded.
    lemma_step_single(c, key, v3, fresh);
    lemma_request_existing(c, deps, fresh, key);
    let d = (c.step_load(key, fresh)->Ok_0).0;
    assert(d.loads[key].versions == seq![v4]);
    assert forall|i: int| 0 <= i < deps.len() implies d.dep_ready(#[trigger] deps[i]) by {
        assert(c.dep_ready(deps[i]));
        let dep = c.by_uuid[deps[i]->Uuid_0.0];
        assert(d.loads[dep].versions == c.loads[dep].versions);
    }
    lemma_step_single(d, key, v4, fresh);
    assert(d.deps_ready(deps, handle, version) == Ok::<bool, ErrorView>(true)) by {
        if exists|i: int| d.is_first_unready(deps, i) {
            let i = choose|i: int| d.is_first_unready(deps, i);
            assert(d.dep_ready(deps[i]));
        }
    }
    let e = (d.step_load(key, fresh)->Ok_0).0;
    assert(e.loads[key].versions == seq![v5]);
    // The data is asked for, and arrives.
    lemma_position_single(v5, VersionQuery::InState(LoadState::WaitingForData));
    let f = e.data_requested();
    assert(f.loads[key].versions =~= seq![v6]);
    lemma_position_single(v6, number);
    let answer = DataMessage { data: Ok(data), handle, version };
    let (g, updated) = f.receive_data(answer, None)->Ok_0;
    assert(g.loads[key].versions =~= seq![v7]);
    // The storage has loaded it.
    lemma_position_single(v7, number);
    assert(first_blocking(g.loads[key].versions, version) is None) by {
        if exists|k: int| is_first_blocking(g.loads[key].versions, version, k) {
            let k = choose|k: int| is_first_blocking(g.loads[key].versions, version, k);
            assert(blocks_commit(g.loads[key].versions[k], version));
        }
    }
    let (h, committed) = g.receive_op(OpMessage::Complete(handle, version))->Ok_0;
    assert(h.loads[key].versions =~= seq![v8]);
    lemma_status_single(h.loads[key], v8);
    lemma_position_single(v8, VersionQuery::InState(LoadState::Loaded));
    assert(updated + committed =~= seq![
        StorageCall::Update {
            asset_type: m.type_id,
            data,
            handle,
            version,
            refusal: None,
        },
        StorageCall::Commit { asset_type: m.type_id, handle, version },
    ]);
}

/// An asset that nothing refers to is unloaded in three passes: the storage gives up its version,
/// once, and then the asset is not requested any more. It is taken that the asset has one version,
/// which is in use, that all its dependencies have loads, and that it does not depend on itself.
pub proof fn law_unreferenced_asset_is_unloaded(
    s: LoaderView,
    key: u64,
    v: VersionView,
    first: Map<u128, u64>,
    second: Map<u128, u64>,
    third: Map<u128, u64>,
)
    requires
        s.wf(),
        s.loads.contains_key(key),
        s.loads[key].refs == 0,
        s.loads[key].versions == seq![v],
        v.state is Loaded,
        direct_handles(s.by_uuid),
        s.has_deps(deps_of(v.metadata)),
        forall|i: int|
            0 <= i < deps_of(v.metadata).len() ==> s.by_uuid[(
            #[trigger] deps_of(v.metadata)[i])->Uuid_0.0] != key,
    ensures
        s.step_load(key, first) matches Ok((a, none)) && {
            &&& none.len() == 0
            &&& a.loads[key].status() == LoadStatus::Unloading
            &&& a.step_load(key, second) matches Ok((b, freed)) && {
                &&& freed == seq![
                    StorageCall::Free {
                        asset_type: v.asset_type->0,
                        handle: LoadHandle(key),
                        version: v.version,
                    },
                ]
                &&& b.loads[key].status() == LoadStatus::Unloading
                &&& b.step_load(key, third) matches Ok((c, nothing)) && {
                    &&& nothing.len() == 0
                    &&& c.loads[key].status() == LoadStatus::NotRequested
                    &&& c.loads[key].asset_type() is None
                }
            }
        },
{
    let deps = deps_of(v.metadata);
    let load = s.loads[key];
    assert(load.versions[0] == v && load.wf());
    lemma_step_single(s, key, v, first);
    let v1 = VersionView { state: LoadState::UnloadRequested, ..v };
    let a = (s.step_load(key, first)->Ok_0).0;
    assert(a.loads[key].versions == seq![v1]);
    assert(a.covered());
    assert(a.has_deps(deps));
    lemma_step_single(a, key, v1, second);
    lemma_release(a, deps, LoadHandle(key), v.version, key);
    let b = (a.step_load(key, second)->Ok_0).0;
    let v2 = VersionView { state: LoadState::Unloading, asset_type: None, ..v };
    assert(b.loads[key].versions == seq![v2]);
    lemma_step_single(b, key, v2, third);
    let c = (b.step_load(key, third)->Ok_0).0;
    let v3 = VersionView { state: LoadState::Idle, asset_type: None, ..v };
    assert(c.loads[key].versions == seq![v3]);
    lemma_status_single(a.loads[key], v1);
    lemma_status_single(b.loads[key], v2);
    lemma_status_single(c.loads[key], v3);
    lemma_position_none(c.loads[key].versions, VersionQuery::InState(LoadState::Loaded));
}

/// Every load that needs a description asks for one, under its own handle; and after that no
/// version needs one that was not asked for.
pub proof fn law_needed_metadata_is_asked_for(s: LoaderView, key: u64, i: int)
    requires
        s.wf(),
        s.loads.contains_key(key),
        0 <= i < s.loads[key].versions.len(),
    ensures
        s.loads[key].versions[i].state is WaitingForMetadata ==> {
            &&& s.metadata_wanted().contains_key(s.loads[key].asset_id.0)
            &&& s.metadata_wanted()[s.loads[key].asset_id.0].0 == LoadHandle(key)
            &&& s.metadata_requested().loads[key].versions[i].state is RequestingMetadata
        },
        !(s.metadata_requested().loads[key].versions[i].state is WaitingForMetadata),
{
    lemma_last_waiting(s.loads[key].versions);
    let uuid = s.loads[key].asset_id.0;
    assert(s.by_uuid[uuid] == key);
    if s.loads[key].versions[i].state is WaitingForMetadata {
        assert(s.wants_metadata(uuid));
    }
}

impl LoaderView {
    /// The state of a version of a load.
    pub open spec fn version_state(self, request: (LoadHandle, u32)) -> Option<LoadState> {
        match self.find_version(request.0, request.1) {
            Ok(i) => Some(self.loads[request.0.0].versions[i].state),
            Err(_) => None,
        }
    }

    /// A version that asked for its description needs it.
    pub open spec fn needs_metadata_again(self, request: (LoadHandle, u32)) -> bool {
        self.version_state(request) == Some(LoadState::WaitingForMetadata)
    }

    /// A version that asked for its description waits for it, or needs it.
    pub open spec fn awaits_metadata(self, request: (LoadHandle, u32)) -> bool {
        self.version_state(request) == Some(LoadState::RequestingMetadata)
            || self.needs_metadata_again(request)
    }
}

/// When a request for metadata fails, everything that was asked for is needed again, so that it
/// will be asked for again.
pub proof fn law_failed_metadata_request_is_made_again(
    s: LoaderView,
    text: Seq<char>,
    fresh: Map<u128, u64>,
    outcome: Result<LoaderView, ErrorView>,
    uuid: u128,
)
    requires
        s.wf(),
        distinct_handles(s.by_uuid),
        s.metadata_requested().may_receive_metadata(
            MetadataMessage { found: Err(text), requests: s.metadata_wanted() },
            fresh,
            outcome,
        ),
        s.metadata_wanted().contains_key(uuid),
    ensures
        outcome matches Ok(t) && t.needs_metadata_again(s.metadata_wanted()[uuid]),
{
    let asked = s.metadata_requested().failed(FailureView::Metadata(text));
    let requests = s.metadata_wanted();
    assert forall|other: u128| #[trigger] requests.contains_key(other) implies asked.awaits_metadata(
        requests[other],
    ) by {
        let key = s.by_uuid[other];
        let load = s.loads[key];
        let version = requests[other].1;
        lemma_last_waiting(load.versions);
        let i = choose|i: int|
            0 <= i < load.versions.len() && (#[trigger] load.versions[i]).state is WaitingForMetadata
                && load.versions[i].version == version;
        let after = asked.loads[key];
        assert(after.versions[i] == load.versions[i].metadata_requested());
        assert forall|j: int| 0 <= j < i implies (#[trigger] after.versions[j]).version
            != version by {
            assert(after.versions[j].version == load.versions[j].version);
            assert(load.versions[j].version < load.versions[i].version);
        }
        assert(is_first(after.versions, VersionQuery::Number(version), i));
        lemma_position_some(after.versions, VersionQuery::Number(version), i);
    }
    let order = choose|order: Seq<u128>|
        {
            &&& order.no_duplicates()
            &&& order.to_set() == requests.dom()
            &&& outcome == #[trigger] asked.requeue_all(requests, order)
        };
    assert forall|i: int| 0 <= i < order.len() implies requests.contains_key(
        #[trigger] order[i],
    ) by {
        assert(order.to_set().contains(order[i]));
    }
    lemma_requeue_all(asked, requests, order);
    assert(order.to_set().contains(uuid));
    let k = choose|k: int| 0 <= k < order.len() && order[k] == uuid;
    assert((outcome->Ok_0).needs_metadata_again(requests[order[k]]));
}

/// The step of a load that has one version.
proof fn lemma_step_single(s: LoaderView, key: u64, v: VersionView, fresh: Map<u128, u64>)
    requires
        s.loads.contains_key(key),
        s.loads[key].versions == seq![v],
        !s.loads[key].starts_reload(),
    ensures
        s.step_load(key, fresh) == (match s.step_version(
            key,
            s.loads[key].refs > 0,
            v.version,
            v,
            fresh,
        ) {
            Ok(q) => Ok(
                (
                    q.loader.with_load(
                        key,
                        LoadView { versions: seq![q.version], ..q.loader.loads[key] },
                    ),
                    q.calls,
                ),
            ),
            Err(stop) => Err(stop),
        }),
{
    let load = s.loads[key];
    let begun = s.with_load(key, load);
    assert(begun =~= s);
    assert(load.versions.drop_last() =~= Seq::empty());
    assert(load.versions.last() == v);
    assert(newest(load.versions) == v.version) by {
        assert(newest(load.versions.drop_last()) == 0);
    }
    let has_refs = load.refs > 0;
    let init = s.step_versions(key, has_refs, v.version, load.versions.drop_last(), fresh);
    assert(init is Ok);
    if let Ok(q) = s.step_version(key, has_refs, v.version, v, fresh) {
        let p = s.step_versions(key, has_refs, v.version, load.versions, fresh)->Ok_0;
        assert(!q.stale);
        assert(p.versions =~= seq![q.version]);
        assert(p.calls =~= q.calls);
        assert(p.stale =~= Seq::empty());
        lemma_retained_all(p.versions);
    }
}

/// The newest version of a load that has one version.
pub proof fn lemma_status_single(load: LoadView, v: VersionView)
    requires
        load.versions == seq![v],
    ensures
        newest_version(load.versions) == Some(v),
{
    assert(load.versions.drop_last() =~= Seq::empty());
    assert(newest_version(load.versions.drop_last()) is None);
}

/// The place of the one version of a list.
pub proof fn lemma_position_single(v: VersionView, query: VersionQuery)
    requires
        query.accepts(v),
    ensures
        position(seq![v], query) == Some(0int),
{
    assert(is_first(seq![v], query, 0));
    lemma_position_some(seq![v], query, 0);
}

/// If a version of a list needs its description, the last one that does is found.
proof fn lemma_last_waiting(versions: Seq<VersionView>)
    ensures
        last_waiting(versions) is Some <==> exists|i: int|
            0 <= i < versions.len() && (#[trigger] versions[i]).state is WaitingForMetadata,
        last_waiting(versions) matches Some(version) ==> exists|i: int|
            0 <= i < versions.len() && (#[trigger] versions[i]).state is WaitingForMetadata
                && versions[i].version == version,
    decreases versions.len(),
{
    if versions.len() > 0 {
        let init = versions.drop_last();
        lemma_last_waiting(init);
        assert(versions[versions.len() - 1] == versions.last());
        assert forall|i: int| 0 <= i < init.len() implies #[trigger] init[i] == versions[i] by {}
        if exists|i: int| 0 <= i < init.len() && (#[trigger] init[i]).state is WaitingForMetadata {
            let k = choose|k: int|
                0 <= k < init.len() && (#[trigger] init[k]).state is WaitingForMetadata;
            assert(versions[k].state is WaitingForMetadata);
        }
        if exists|i: int|
            0 <= i < versions.len() && (#[trigger] versions[i]).state is WaitingForMetadata {
            let k = choose|k: int|
                0 <= k < versions.len() && (#[trigger] versions[k]).state is WaitingForMetadata;
            if k < init.len() {
                assert(init[k].state is WaitingForMetadata);
            }
        }
    }
}

/// A request that is left open makes its version need the description again, and no other version
/// stops needing one.
proof fn lemma_requeue(s: LoaderView, request: (LoadHandle, u32), other: (LoadHandle, u32))
    requires
        s.awaits_metadata(request),
    ensures
        s.requeue(request) matches Ok(t) && {
            &&& t.needs_metadata_again(request)
            &&& s.awaits_metadata(other) ==> t.awaits_metadata(other)
            &&& s.needs_metadata_again(other) ==> t.needs_metadata_again(other)
        },
{
    let (handle, version) = request;
    let load = s.loads[handle.0];
    let i = s.find_version(handle, version)->Ok_0;
    let t = s.requeue(request)->Ok_0;
    lemma_position_none(load.versions, VersionQuery::Number(version));
    lemma_position_none(load.versions, VersionQuery::Number(other.1));
    let after = t.loads[handle.0];
    assert(after.versions.len() == load.versions.len());
    assert forall|j: int| 0 <= j < load.versions.len() implies (
    #[trigger] after.versions[j]).version == load.versions[j].version by {}
    assert(is_first(after.versions, VersionQuery::Number(version), i));
    lemma_position_some(after.versions, VersionQuery::Number(version), i);
    if other.0.0 == handle.0 {
        if let Some(k) = position(load.versions, VersionQuery::Number(other.1)) {
            assert(is_first(after.versions, VersionQuery::Number(other.1), k));
            lemma_position_some(after.versions, VersionQuery::Number(other.1), k);
        }
    }
}

proof fn lemma_requeue_all(
    s: LoaderView,
    requests: Map<u128, (LoadHandle, u32)>,
    order: Seq<u128>,
)
    requires
        forall|i: int| 0 <= i < order.len() ==> requests.contains_key(#[trigger] order[i]),
        forall|uuid: u128| #[trigger]
            requests.contains_key(uuid) ==> s.awaits_metadata(requests[uuid]),
    ensures
        s.requeue_all(requests, order) matches Ok(t) && {
            &&& forall|uuid: u128| #[trigger]
                requests.contains_key(uuid) ==> t.awaits_metadata(requests[uuid])
            &&& forall|i: int|
                0 <= i < order.len() ==> t.needs_metadata_again(requests[#[trigger] order[i]])
        },
    decreases order.len(),
{
    if order.len() > 0 {
        let init = order.drop_last();
        assert forall|i: int| 0 <= i < init.len() implies requests.contains_key(
            #[trigger] init[i],
        ) by {
            assert(init[i] == order[i]);
        }
        lemma_requeue_all(s, requests, init);
        let mid = s.requeue_all(requests, init)->Ok_0;
        assert(order[order.len() - 1] == order.last());
        let request = requests[order.last()];
        assert(mid.awaits_metadata(request));
        lemma_requeue(mid, request, request);
        let t = mid.requeue(request)->Ok_0;
        assert forall|uuid: u128| #[trigger]
            requests.contains_key(uuid) implies t.awaits_metadata(requests[uuid]) by {
            lemma_requeue(mid, request, requests[uuid]);
        }
        assert forall|i: int| 0 <= i < order.len() implies t.needs_metadata_again(
            requests[#[trigger] order[i]],
        ) by {
            if i < init.len() {
                assert(init[i] == order[i]);
                lemma_requeue(mid, request, requests[order[i]]);
            }
        }
    }
}

/// A request that is wanted of one load is among those of all.
pub proof fn lemma_data_wanted(s: LoaderView, keys: Seq<u64>, key: u64)
    requires
        keys.contains(key),
        s.loads[key].data_wanted(LoadHandle(key)) is Some,
    ensures
        s.data_wanted(keys).contains(s.loads[key].data_wanted(LoadHandle(key))->0),
    decreases keys.len(),
{
    let init = keys.drop_last();
    let request = s.loads[key].data_wanted(LoadHandle(key))->0;
    let k = choose|k: int| 0 <= k < keys.len() && keys[k] == key;
    if k < init.len() {
        assert(init[k] == key);
        lemma_data_wanted(s, init, key);
        let j = choose|j: int|
            0 <= j < s.data_wanted(init).len() && s.data_wanted(init)[j] == request;
        assert(s.data_wanted(keys)[j] == request);
    } else {
        assert(s.data_wanted(keys)[s.data_wanted(keys).len() - 1] == request);
    }
}

/// Of every load that has a version waiting for its data, the first such version asks for it,
/// whatever the order in which the loads are seen to; and then that version does not wait any more.
pub proof fn law_needed_data_is_asked_for(s: LoaderView, keys: Seq<u64>, key: u64, i: int)
    requires
        s.wf(),
        s.loads.contains_key(key),
        keys.to_set() == s.loads.dom(),
        is_first(s.loads[key].versions, VersionQuery::InState(LoadState::WaitingForData), i),
    ensures
        s.data_wanted(keys).contains(
            ArtifactRequest {
                asset_id: s.loads[key].asset_id,
                artifact_id: s.loads[key].versions[i].metadata->0.id,
                handle: LoadHandle(key),
                version: s.loads[key].versions[i].version,
            },
        ),
        s.loads[key].versions[i].metadata is Some,
        s.data_requested().loads[key].versions[i].state is RequestingData,
{
    lemma_position_some(
        s.loads[key].versions,
        VersionQuery::InState(LoadState::WaitingForData),
        i,
    );
    assert(s.loads[key].versions[i].wf());
    assert(keys.to_set().contains(key));
    lemma_data_wanted(s, keys, key);
}

/// When the storage refuses data, the version waits for it as before it was asked for, the refusal
/// is noted, and the storage is told nothing else.
pub proof fn law_refused_data_is_needed_again(
    s: LoaderView,
    handle: LoadHandle,
    version: u32,
    data: Seq<u8>,
    text: Seq<char>,
    i: int,
)
    requires
        s.wf(),
        s.find_version(handle, version) == Ok::<int, ErrorView>(i),
        s.loads[handle.0].versions[i].metadata is Some,
    ensures
        s.receive_data(DataMessage { data: Ok(data), handle, version }, Some(text)) matches Ok(
            (after, calls),
        ) && {
            &&& after == s.failed(FailureView::Update(handle, version, text)).with_load(
                handle.0,
                s.loads[handle.0].with_state(i, LoadState::WaitingForData),
            )
            &&& calls == seq![
                StorageCall::Update {
                    asset_type: s.loads[handle.0].versions[i].metadata->0.type_id,
                    data,
                    handle,
                    version,
                    refusal: Some(text),
                },
            ]
        },
{
}

} // verus!
