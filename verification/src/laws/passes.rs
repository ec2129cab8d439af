//! What a whole pass over the loads does to each of them.

use vstd::prelude::*;
use crate::ids::{AssetUuid, LoadHandle, RefView};
use crate::load::{LoadState, LoadView, VersionQuery, VersionView};
use crate::messages::ArtifactRequest;
use crate::metadata::MetadataView;
use crate::model::{LoaderView, Stop};
use crate::storage::StorageCall;
use crate::load::{all_loaded, newest};
use crate::load_states::{
    deps_of, free_calls, lemma_newest, lemma_retained, lemma_retained_numbered, retained,
};
use crate::model::{direct_handles, distinct_handles, lemma_part_distinct, part_of};
use crate::laws::calls::{calls_for, lemma_pass_calls};
use crate::laws::counts::{law_pass_counts_references_of_one, refs_taken, shifted, times_among};
use crate::laws::dependencies::{law_dependencies_are_loaded_first, lemma_dep_refs_make_loads};
use crate::laws::lifetimes::{lemma_data_wanted, lemma_position_single};
use crate::laws::reloads::{law_invalidated_assets_are_reloaded, law_pending_reload_starts};
use crate::laws::versions::{
    law_newest_version_is_kept, lemma_idle_is_superseded, lemma_retained_all,
    lemma_retained_excludes,
};

verus! {

impl VersionView {
    /// The version is idle, and there is a newer one.
    pub open spec fn superseded(self, newest: u32) -> bool {
        self.state is Idle && newest > self.version
    }
}

impl LoaderView {
    /// All dependencies are ready.
    pub open spec fn all_ready(self, deps: Seq<RefView>) -> bool {
        forall|i: int| 0 <= i < deps.len() ==> self.dep_ready(#[trigger] deps[i])
    }

    /// The state that a version is in after a pass. `has_refs` says whether the asset is
    /// referenced.
    pub open spec fn next_state(self, has_refs: bool, v: VersionView) -> LoadState {
        match v.state {
            LoadState::Idle => if !has_refs {
                LoadState::Idle
            } else if v.metadata is Some {
                LoadState::RequestDependencies
            } else {
                LoadState::WaitingForMetadata
            },
            LoadState::WaitingForMetadata => if v.metadata is Some {
                LoadState::RequestDependencies
            } else {
                LoadState::WaitingForMetadata
            },
            LoadState::RequestDependencies => LoadState::WaitingForDependencies,
            LoadState::WaitingForDependencies => if self.all_ready(deps_of(v.metadata)) {
                LoadState::WaitingForData
            } else {
                LoadState::WaitingForDependencies
            },
            LoadState::Loaded => if has_refs {
                LoadState::Loaded
            } else {
                LoadState::UnloadRequested
            },
            LoadState::UnloadRequested => LoadState::Unloading,
            LoadState::Unloading => LoadState::Idle,
            other => other,
        }
    }

    /// The version after a pass: in its next state, and without a type once it is given up.
    pub open spec fn next_version(self, has_refs: bool, v: VersionView) -> VersionView {
        VersionView {
            state: self.next_state(has_refs, v),
            asset_type: if v.state is UnloadRequested {
                None
            } else {
                v.asset_type
            },
            ..v
        }
    }

    /// The state in which a pass finds the load at a place of its order.
    pub open spec fn found(self, keys: Seq<u64>, k: int, fresh: Map<u128, u64>) -> LoaderView {
        (self.step_loads(keys.take(k), fresh)->Ok_0).0
    }

    /// The same state, with a new version of that load, if one is due.
    pub open spec fn found_started(
        self,
        keys: Seq<u64>,
        k: int,
        fresh: Map<u128, u64>,
    ) -> LoaderView {
        let found = self.found(keys, k, fresh);
        found.with_load(keys[k], found.started(keys[k]))
    }

    /// A pass over the loads in the order of `keys` comes to this state, with these calls to the
    /// storage, and no two assets share a handle.
    pub open spec fn passed(
        self,
        keys: Seq<u64>,
        after: LoaderView,
        calls: Seq<StorageCall>,
    ) -> bool {
        &&& self.wf()
        &&& keys.no_duplicates()
        &&& keys.to_set() == self.loads.dom()
        &&& distinct_handles(after.by_uuid)
        &&& self.step_loads(keys, after.by_uuid) == Ok::<(LoaderView, Seq<StorageCall>), Stop>(
            (after, calls),
        )
    }
}

/// A pass takes every version of every load from state to state by the same table: each version
/// that a load has when the pass comes to it is in its next state after the pass, except for those
/// that are superseded, which are gone; and there are no others. Until the pass comes to the load,
/// and after that, nothing in it changes but the number of references.
pub proof fn law_pass_moves_every_version(
    s: LoaderView,
    keys: Seq<u64>,
    after: LoaderView,
    calls: Seq<StorageCall>,
    k: int,
)
    requires
        s.passed(keys, after, calls),
        0 <= k < keys.len(),
    ensures
        ({
            let key = keys[k];
            let found = s.found(keys, k, after.by_uuid);
            let begun = s.found_started(keys, k, after.by_uuid);
            let started = begun.loads[key];
            let has_refs = found.loads[key].refs > 0;
            &&& s.loads.contains_key(key)
            &&& found.loads[key] == (LoadView { refs: found.loads[key].refs, ..s.loads[key] })
            &&& after.loads.contains_key(key)
            &&& after.loads[key] == (LoadView {
                refs: after.loads[key].refs,
                versions: after.loads[key].versions,
                ..started
            })
            &&& forall|i: int|
                0 <= i < started.versions.len() ==> if (
                #[trigger] started.versions[i]).superseded(newest(started.versions)) {
                    forall|j: int|
                        0 <= j < after.loads[key].versions.len() ==> (
                        #[trigger] after.loads[key].versions[j]).version
                            != started.versions[i].version
                } else {
                    after.loads[key].versions.contains(
                        begun.next_version(has_refs, started.versions[i]),
                    )
                }
            &&& forall|j: int|
                0 <= j < after.loads[key].versions.len() ==> exists|i: int|
                    0 <= i < started.versions.len() && #[trigger] after.loads[key].versions[j]
                        == begun.next_version(has_refs, #[trigger] started.versions[i])
        }),
{
    let fresh = after.by_uuid;
    let key = keys[k];
    lemma_pass_at(s, keys, fresh, k);
    let found = s.found(keys, k, fresh);
    let begun = s.found_started(keys, k, fresh);
    let started = begun.loads[key];
    let versions = started.versions;
    let has_refs = found.loads[key].refs > 0;
    let n = newest(versions);
    let stepped = (found.step_load(key, fresh)->Ok_0).0;
    let p = begun.step_versions(key, has_refs, n, versions, fresh)->Ok_0;
    lemma_steps_by_table(begun, key, has_refs, n, versions, fresh);
    lemma_retained(p.versions, p.stale);
    lemma_retained_excludes(p.versions, p.stale);
    let rest = retained(p.versions, p.stale);
    assert(after.loads[key].versions == rest);
    assert(started.numbered()) by {
        lemma_started_numbered(found, key);
    }
    assert forall|i: int| 0 <= i < versions.len() implies if (#[trigger] versions[i]).superseded(n) {
        forall|j: int|
            0 <= j < rest.len() ==> (#[trigger] rest[j]).version != versions[i].version
    } else {
        rest.contains(begun.next_version(has_refs, versions[i]))
    } by {
        if versions[i].superseded(n) {
            lemma_idle_is_superseded(begun, key, has_refs, n, versions, fresh, i);
        } else {
            assert(p.versions[i] == begun.next_version(has_refs, versions[i]));
            if p.stale.contains(versions[i].version) {
                let l = choose|l: int|
                    0 <= l < versions.len() && (#[trigger] versions[l]).superseded(n)
                        && versions[l].version == versions[i].version;
                assert(l == i);
            }
            assert(rest.contains(p.versions[i]));
        }
    }
    assert forall|j: int| 0 <= j < rest.len() implies exists|i: int|
        0 <= i < versions.len() && #[trigger] rest[j] == begun.next_version(
            has_refs,
            #[trigger] versions[i],
        ) by {
        assert(p.versions.contains(rest[j]));
        let i = choose|i: int| 0 <= i < p.versions.len() && p.versions[i] == rest[j];
        if versions[i].superseded(n) {
            lemma_idle_is_superseded(begun, key, has_refs, n, versions, fresh, i);
            assert(p.versions[i].version == versions[i].version);
            assert(!p.stale.contains(rest[j].version));
        }
        assert(rest[j] == begun.next_version(has_refs, versions[i]));
    }
}

/// After a pass, as before it, every load has a version, its versions are in the order of their
/// numbers, and every number comes from the counter; and neither the highest number nor the counter
/// has gone down.
pub proof fn law_pass_keeps_numbers(
    s: LoaderView,
    keys: Seq<u64>,
    after: LoaderView,
    calls: Seq<StorageCall>,
    key: u64,
)
    requires
        s.passed(keys, after, calls),
        s.loads.contains_key(key),
    ensures
        s.loads[key].versions.len() > 0,
        s.loads[key].numbered(),
        after.loads.contains_key(key),
        after.loads[key].asset_id == s.loads[key].asset_id,
        after.loads[key].versions.len() > 0,
        after.loads[key].numbered(),
        newest(after.loads[key].versions) >= newest(s.loads[key].versions),
        after.loads[key].version_counter >= s.loads[key].version_counter,
{
    let fresh = after.by_uuid;
    assert(keys.to_set().contains(key));
    let k = choose|k: int| 0 <= k < keys.len() && keys[k] == key;
    lemma_pass_at(s, keys, fresh, k);
    law_pass_moves_every_version(s, keys, after, calls, k);
    let found = s.found(keys, k, fresh);
    let begun = s.found_started(keys, k, fresh);
    let started = begun.loads[key];
    let stepped = (found.step_load(key, fresh)->Ok_0).0;
    let more = (found.step_load(key, fresh)->Ok_0).1;
    law_newest_version_is_kept(found, key, fresh, stepped, more);
    lemma_started_numbered(found, key);
    let has_refs = found.loads[key].refs > 0;
    let n = newest(started.versions);
    let p = begun.step_versions(key, has_refs, n, started.versions, fresh)->Ok_0;
    begun.lemma_step_versions_numbers(key, has_refs, n, started.versions, fresh);
    lemma_retained_numbered(p.versions, p.stale, started.version_counter);
    lemma_newest(s.loads[key].versions);
    lemma_newest(started.versions);
    let i = choose|i: int|
        0 <= i < s.loads[key].versions.len() && (#[trigger] s.loads[key].versions[i]).version
            == newest(s.loads[key].versions);
    assert(started.versions[i] == s.loads[key].versions[i]);
}

/// In a pass, only assets on which a version depends that requests its dependencies get loads, and
/// every one of those has a load after the pass.
pub proof fn law_pass_makes_loads_for_dependencies(
    s: LoaderView,
    keys: Seq<u64>,
    after: LoaderView,
    calls: Seq<StorageCall>,
    uuid: u128,
)
    requires
        s.passed(keys, after, calls),
    ensures
        s.by_uuid.contains_key(uuid) ==> after.by_uuid.contains_key(uuid) && after.by_uuid[uuid]
            == s.by_uuid[uuid],
        !s.by_uuid.contains_key(uuid) ==> (after.by_uuid.contains_key(uuid) <==> s.requested_by_some(
            uuid,
        )),
{
    let fresh = after.by_uuid;
    lemma_pass_frame(s, keys, fresh);
    if !s.by_uuid.contains_key(uuid) {
        if after.by_uuid.contains_key(uuid) {
            lemma_new_load_is_requested(s, keys, fresh, uuid);
            let k = choose|k: int| 0 <= k < keys.len() && #[trigger] s.requested_by(keys[k], uuid);
            assert(keys.to_set().contains(keys[k]));
        }
        if s.requested_by_some(uuid) {
            let key = choose|key: u64|
                s.loads.contains_key(key) && #[trigger] s.requested_by(key, uuid);
            assert(keys.to_set().contains(key));
            let k = choose|k: int| 0 <= k < keys.len() && keys[k] == key;
            lemma_pass_at(s, keys, fresh, k);
            let found = s.found(keys, k, fresh);
            let begun = s.found_started(keys, k, fresh);
            let versions = begun.loads[key].versions;
            let i = choose|i: int|
                0 <= i < s.loads[key].versions.len() && (
                #[trigger] s.loads[key].versions[i]).requests(uuid);
            assert(versions[i] == s.loads[key].versions[i]);
            lemma_requested_dep_gets_load(
                begun,
                key,
                found.loads[key].refs > 0,
                newest(versions),
                versions,
                fresh,
                i,
                uuid,
            );
        }
    }
}

impl VersionView {
    /// The version requests its dependencies, and an asset is one of them.
    pub open spec fn requests(self, uuid: u128) -> bool {
        self.state is RequestDependencies && deps_of(self.metadata).contains(
            RefView::Uuid(AssetUuid(uuid)),
        )
    }
}

impl LoaderView {
    /// A version of the load at `key` requests its dependencies, and an asset is one of them.
    pub open spec fn requested_by(self, key: u64, uuid: u128) -> bool {
        exists|i: int|
            0 <= i < self.loads[key].versions.len() && (
            #[trigger] self.loads[key].versions[i]).requests(uuid)
    }

    /// A version of some load requests its dependencies, and an asset is one of them.
    pub open spec fn requested_by_some(self, uuid: u128) -> bool {
        exists|key: u64| self.loads.contains_key(key) && #[trigger] self.requested_by(key, uuid)
    }
}

/// An asset that nothing refers to is unloaded in three passes. It has one version, which is in
/// use; nothing refers to it whenever a pass comes to it, and what happens between the passes
/// leaves its version alone. In the second pass the storage gives the version up, which is the only
/// call for the load in the three passes, and the version releases its dependencies; and in the end
/// it is idle.
pub proof fn law_unreferenced_asset_is_unloaded_in_three_passes(
    s: Seq<LoaderView>,
    keys: Seq<Seq<u64>>,
    after: Seq<LoaderView>,
    calls: Seq<Seq<StorageCall>>,
    k: Seq<int>,
    key: u64,
    v: VersionView,
)
    requires
        s.len() == 3 && keys.len() == 3 && after.len() == 3 && calls.len() == 3 && k.len() == 3,
        forall|n: int|
            0 <= n < 3 ==> (#[trigger] s[n]).passed(keys[n], after[n], calls[n]) && 0 <= k[n]
                < keys[n].len() && keys[n][k[n]] == key && s[n].found(
                keys[n],
                k[n],
                after[n].by_uuid,
            ).loads[key].refs == 0,
        s[0].loads[key].versions == seq![v],
        v.state is Loaded,
        s[1].loads[key].versions == after[0].loads[key].versions,
        s[2].loads[key].versions == after[1].loads[key].versions,
    ensures
        after[0].loads[key].versions == seq![VersionView { state: LoadState::UnloadRequested, ..v }],
        after[1].loads[key].versions == seq![
            VersionView { state: LoadState::Unloading, asset_type: None, ..v },
        ],
        after[2].loads[key].versions == seq![
            VersionView { state: LoadState::Idle, asset_type: None, ..v },
        ],
        v.asset_type is Some,
        calls_for(calls[0], LoadHandle(key)) == Seq::<StorageCall>::empty(),
        calls_for(calls[1], LoadHandle(key)) == seq![
            StorageCall::Free {
                asset_type: v.asset_type->0,
                handle: LoadHandle(key),
                version: v.version,
            },
        ],
        calls_for(calls[2], LoadHandle(key)) == Seq::<StorageCall>::empty(),
        forall|uuid: u128|
            direct_handles(after[1].by_uuid) && s[1].touched_by_one(key, uuid) ==> (
            #[trigger] after[1].refs_of(uuid)) == shifted(
                s[1].refs_of(uuid),
                -times_among(deps_of(v.metadata), uuid),
            ),
{
    let a = VersionView { state: LoadState::UnloadRequested, ..v };
    let b = VersionView { state: LoadState::Unloading, asset_type: None, ..v };
    assert(s[0].loads.contains_key(key)) by {
        assert(keys[0].to_set().contains(keys[0][k[0]]));
        assert(s[0].passed(keys[0], after[0], calls[0]));
    }
    assert(s[0].loads[key].wf());
    assert(s[0].loads[key].versions[0] == v);
    assert(v.wf());
    law_pass_moves_single_version(s[0], keys[0], after[0], calls[0], k[0], v);
    law_pass_moves_single_version(s[1], keys[1], after[1], calls[1], k[1], a);
    law_pass_moves_single_version(s[2], keys[2], after[2], calls[2], k[2], b);
    assert forall|uuid: u128|
        direct_handles(after[1].by_uuid) && s[1].touched_by_one(key, uuid) implies (
    #[trigger] after[1].refs_of(uuid)) == shifted(
        s[1].refs_of(uuid),
        -times_among(deps_of(v.metadata), uuid),
    ) by {
        assert(s[1].passed(keys[1], after[1], calls[1]));
        law_pass_counts_references_of_one(s[1], keys[1], after[1], calls[1], k[1], uuid);
        assert(seq![a].drop_last() =~= Seq::empty());
        assert(seq![a].last() == a);
        assert(refs_taken(seq![a].drop_last(), uuid) == 0);
        assert(refs_taken(seq![a], uuid) == a.refs_taken(uuid));
    }
}

/// An asset that is to be reloaded is asked for in the same pass, while its old version stays: the
/// asset is referenced when the pass comes to it, and all its versions are in use.
pub proof fn law_reload_is_asked_for_in_same_pass(
    s: LoaderView,
    keys: Seq<u64>,
    after: LoaderView,
    calls: Seq<StorageCall>,
    k: int,
)
    requires
        s.passed(keys, after, calls),
        0 <= k < keys.len(),
        s.found(keys, k, after.by_uuid).loads[keys[k]].starts_reload(),
    ensures
        ({
            let key = keys[k];
            let load = s.loads[key];
            let number = (load.version_counter + 1) as u32;
            &&& after.loads[key].versions == load.versions.push(
                VersionView {
                    state: LoadState::WaitingForMetadata,
                    ..VersionView::fresh(number, false, None)
                },
            )
            &&& !after.loads[key].pending_reload
            &&& after.metadata_wanted().contains_key(load.asset_id.0)
            &&& after.metadata_wanted()[load.asset_id.0] == (LoadHandle(key), number)
            &&& forall|i: int|
                0 <= i < load.versions.len() ==> (
                #[trigger] after.metadata_requested().loads[key].versions[i]).state is Loaded
        }),
{
    let fresh = after.by_uuid;
    let key = keys[k];
    let load = s.loads[key];
    let number = (load.version_counter + 1) as u32;
    lemma_pass_at(s, keys, fresh, k);
    lemma_pass_frame(s, keys, fresh);
    let found = s.found(keys, k, fresh);
    assert(found.loads[key].versions == load.versions);
    assert(found.loads[key].numbered());
    assert(load.version_counter < u32::MAX) by {
        assert(found.step_load(key, fresh) is Ok);
    }
    law_pending_reload_starts(found, key, fresh);
    let w = VersionView {
        state: LoadState::WaitingForMetadata,
        ..VersionView::fresh(number, false, None)
    };
    assert(after.loads[key].versions == load.versions.push(w));
    assert(load.versions.push(w).last() == w);
    assert(after.covered());
    assert(after.by_uuid[load.asset_id.0] == key);
    assert(after.wants_metadata(load.asset_id.0));
    assert forall|i: int| 0 <= i < load.versions.len() implies (
    #[trigger] after.metadata_requested().loads[key].versions[i]).state is Loaded by {
        assert(after.loads[key].versions[i] == load.versions[i]);
        assert(found.loads[key].versions[i].state is Loaded);
    }
}

/// An asset that is invalidated while no reload is pending is asked for in the same pass, while its
/// old version stays. `s` is the state before looking for changed assets and `marked` the one after
/// it; what happens from there to `before`, in which the pass over the loads begins, leaves the
/// load alone.
pub proof fn law_invalidated_asset_is_asked_for_in_same_pass(
    s: LoaderView,
    log: Seq<StorageCall>,
    after_log: Seq<StorageCall>,
    marked: LoaderView,
    before: LoaderView,
    keys: Seq<u64>,
    after: LoaderView,
    calls: Seq<StorageCall>,
    k: int,
    uuid: u128,
)
    requires
        s.wf(),
        s.pending_reloads.len() == 0,
        s.invalidated.contains(uuid),
        s.by_uuid.contains_key(uuid),
        s.may_change_assets(log, after_log, Ok(marked)),
        before.passed(keys, after, calls),
        0 <= k < keys.len(),
        keys[k] == s.by_uuid[uuid],
        before.loads[keys[k]] == marked.loads[keys[k]],
        s.loads[keys[k]].asset_id.0 == uuid,
        all_loaded(s.loads[keys[k]].versions),
        before.found(keys, k, after.by_uuid).loads[keys[k]].refs > 0,
    ensures
        after.metadata_wanted().contains_key(uuid),
        after.metadata_wanted()[uuid] == (
            LoadHandle(keys[k]),
            (s.loads[keys[k]].version_counter + 1) as u32,
        ),
        forall|i: int|
            0 <= i < s.loads[keys[k]].versions.len() ==> (
            #[trigger] after.metadata_requested().loads[keys[k]].versions[i]).state is Loaded,
{
    let key = keys[k];
    assert(s.loads.contains_key(key));
    law_invalidated_assets_are_reloaded(s, log, marked, after_log);
    assert(s.change_noted(marked, uuid));
    lemma_pass_at(before, keys, after.by_uuid, k);
    law_reload_is_asked_for_in_same_pass(before, keys, after, calls, k);
}

/// What a pass does to a load that has one version, which is not superseded by a new one: the
/// version is in its next state. If the storage is to give it up, the storage is told so once;
/// otherwise the pass makes no call for the load.
pub proof fn law_pass_moves_single_version(
    s: LoaderView,
    keys: Seq<u64>,
    after: LoaderView,
    calls: Seq<StorageCall>,
    k: int,
    v: VersionView,
)
    requires
        s.passed(keys, after, calls),
        0 <= k < keys.len(),
        s.loads[keys[k]].versions == seq![v],
        !s.found(keys, k, after.by_uuid).loads[keys[k]].starts_reload(),
    ensures
        after.loads[keys[k]].versions == seq![
            s.found(keys, k, after.by_uuid).next_version(
                s.found(keys, k, after.by_uuid).loads[keys[k]].refs > 0,
                v,
            ),
        ],
        calls_for(calls, LoadHandle(keys[k])) == (if v.state is UnloadRequested {
            free_calls(LoadHandle(keys[k]), v)
        } else {
            Seq::empty()
        }),
{
    let fresh = after.by_uuid;
    let key = keys[k];
    lemma_pass_at(s, keys, fresh, k);
    let found = s.found(keys, k, fresh);
    let begun = s.found_started(keys, k, fresh);
    assert(begun =~= found);
    let has_refs = found.loads[key].refs > 0;
    let versions = found.loads[key].versions;
    assert(versions == seq![v]);
    lemma_newest(versions);
    let n = newest(versions);
    assert(versions[0].version == n);
    assert(versions.drop_last() =~= Seq::empty());
    let init = found.step_versions(key, has_refs, n, versions.drop_last(), fresh);
    assert(init is Ok);
    let p = found.step_versions(key, has_refs, n, versions, fresh)->Ok_0;
    let q = found.step_version(key, has_refs, n, v, fresh)->Ok_0;
    lemma_steps_by_table(found, key, has_refs, n, versions, fresh);
    assert(p.versions =~= seq![q.version]);
    assert(p.versions[0] == found.next_version(has_refs, v));
    assert(p.calls =~= q.calls);
    assert(p.stale =~= Seq::empty());
    lemma_retained_all(p.versions);
    lemma_pass_calls(s, keys, fresh, k);
}

/// An asset that is referenced gets loaded in passes. It has one version, of which nothing is
/// known. It is referenced whenever a pass comes to it, and what happens between the passes leaves
/// its version alone, but for the description that arrives after the first one. Then the first pass
/// has the description asked for; after the second one all dependencies have loads; and the third
/// one, if it finds all dependencies loaded, has the data asked for.
pub proof fn law_referenced_asset_is_asked_for_in_passes(
    s: Seq<LoaderView>,
    keys: Seq<Seq<u64>>,
    after: Seq<LoaderView>,
    calls: Seq<Seq<StorageCall>>,
    k: Seq<int>,
    key: u64,
    version: u32,
    m: MetadataView,
    order: Seq<u64>,
)
    requires
        s.len() == 3 && keys.len() == 3 && after.len() == 3 && calls.len() == 3 && k.len() == 3,
        forall|n: int|
            0 <= n < 3 ==> (#[trigger] s[n]).passed(keys[n], after[n], calls[n]) && 0 <= k[n]
                < keys[n].len() && keys[n][k[n]] == key && s[n].found(
                keys[n],
                k[n],
                after[n].by_uuid,
            ).loads[key].refs > 0,
        s[0].loads[key].versions == seq![VersionView::fresh(version, true, None)],
        s[1].loads[key].versions == seq![
            after[0].metadata_requested().loads[key].versions[0].described(m),
        ],
        s[2].loads[key].versions == after[1].loads[key].versions,
        s[2].found(keys[2], k[2], after[2].by_uuid).all_ready(m.load_deps),
        order.to_set() == after[2].loads.dom(),
    ensures
        ({
            let uuid = s[0].loads[key].asset_id;
            &&& after[0].metadata_wanted().contains_key(uuid.0)
            &&& after[0].metadata_wanted()[uuid.0] == (LoadHandle(key), version)
        }),
        forall|i: int|
            0 <= i < m.load_deps.len() && (#[trigger] m.load_deps[i]) is Uuid
                ==> after[1].by_uuid.contains_key(m.load_deps[i]->Uuid_0.0),
        after[2].data_wanted(order).contains(
            ArtifactRequest {
                asset_id: s[2].loads[key].asset_id,
                artifact_id: m.id,
                handle: LoadHandle(key),
                version,
            },
        ),
{
    let v0 = VersionView::fresh(version, true, None);
    let v1 = VersionView { state: LoadState::WaitingForMetadata, ..v0 };
    let v2 = VersionView { state: LoadState::RequestDependencies, metadata: Some(m), ..v0 };
    let v3 = VersionView { state: LoadState::WaitingForDependencies, ..v2 };
    let v4 = VersionView { state: LoadState::WaitingForData, ..v2 };
    assert(s[0].passed(keys[0], after[0], calls[0]) && s[1].passed(keys[1], after[1], calls[1])
        && s[2].passed(keys[2], after[2], calls[2]));
    lemma_pass_at(s[0], keys[0], after[0].by_uuid, k[0]);
    lemma_pass_frame(s[0], keys[0], after[0].by_uuid);
    assert(s[0].found(keys[0], k[0], after[0].by_uuid).loads[key].versions[0] == v0);
    law_pass_moves_single_version(s[0], keys[0], after[0], calls[0], k[0], v0);
    assert(after[0].loads[key].versions == seq![v1]);
    let uuid = s[0].loads[key].asset_id.0;
    assert(after[0].loads[key].asset_id.0 == uuid);
    assert(after[0].by_uuid[uuid] == key);
    assert(seq![v1].last() == v1);
    assert(after[0].wants_metadata(uuid));
    // The description arrives.
    assert(after[0].metadata_requested().loads[key].versions =~= seq![v1.metadata_requested()]);
    assert(s[1].loads[key].versions =~= seq![v2]);
    lemma_pass_at(s[1], keys[1], after[1].by_uuid, k[1]);
    assert(s[1].found(keys[1], k[1], after[1].by_uuid).loads[key].versions[0] == v2);
    law_pass_moves_single_version(s[1], keys[1], after[1], calls[1], k[1], v2);
    assert(after[1].loads[key].versions == seq![v3]);
    assert forall|i: int|
        0 <= i < m.load_deps.len() && (
        #[trigger] m.load_deps[i]) is Uuid implies after[1].by_uuid.contains_key(
        m.load_deps[i]->Uuid_0.0,
    ) by {
        let dep = m.load_deps[i]->Uuid_0.0;
        assert(m.load_deps.contains(RefView::Uuid(AssetUuid(dep))));
        assert(v2.requests(dep));
        assert(s[1].loads[key].versions[0].requests(dep));
        assert(s[1].requested_by(key, dep));
        law_pass_makes_loads_for_dependencies(s[1], keys[1], after[1], calls[1], dep);
    }
    // The dependencies are found to be loaded.
    lemma_pass_at(s[2], keys[2], after[2].by_uuid, k[2]);
    assert(s[2].found(keys[2], k[2], after[2].by_uuid).loads[key].versions[0] == v3);
    law_pass_moves_single_version(s[2], keys[2], after[2], calls[2], k[2], v3);
    assert(after[2].loads[key].versions == seq![v4]);
    lemma_position_single(v4, VersionQuery::InState(LoadState::WaitingForData));
    assert(after[2].loads.contains_key(key));
    assert(order.to_set().contains(key));
    lemma_data_wanted(after[2], order, key);
}

/// The step of one load changes nothing but reference counts in every other load.
proof fn lemma_step_load_frame(s: LoaderView, key: u64, fresh: Map<u128, u64>)
    requires
        s.covered(),
        s.loads.contains_key(key),
        distinct_handles(fresh),
        s.step_load(key, fresh) matches Ok((t, calls)) && part_of(t.by_uuid, fresh),
    ensures
        s.step_load(key, fresh) matches Ok((t, calls)) && {
            &&& t.covered()
            &&& t.extends(s)
            &&& forall|other: u64|
                other != key && #[trigger] s.loads.contains_key(other) ==> {
                    &&& t.loads.contains_key(other)
                    &&& t.loads[other] == (LoadView {
                        refs: t.loads[other].refs,
                        ..s.loads[other]
                    })
                }
        },
{
    let load = s.loads[key];
    let started = s.started(key);
    let begun = s.with_load(key, started);
    s.lemma_step_load_extends(key, fresh);
    if !(load.refs == 0 && load.versions.len() == 0) {
        assert(begun.covered());
        begun.lemma_step_versions_keeps(
            key,
            load.refs > 0,
            newest(started.versions),
            started.versions,
            fresh,
        );
        let p = begun.step_versions(
            key,
            load.refs > 0,
            newest(started.versions),
            started.versions,
            fresh,
        )->Ok_0;
        assert(begun.loads.contains_key(key));
        assert(p.loader.covered());
        assert forall|other: u64| other != key && #[trigger] s.loads.contains_key(other) implies (
        s.step_load(key, fresh)->Ok_0).0.loads[other] == (LoadView {
            refs: (s.step_load(key, fresh)->Ok_0).0.loads[other].refs,
            ..s.loads[other]
        }) by {
            assert(begun.loads.contains_key(other));
        }
    }
}

/// The steps of loads change nothing but reference counts in every other load.
pub proof fn lemma_pass_frame(s: LoaderView, keys: Seq<u64>, fresh: Map<u128, u64>)
    requires
        s.covered(),
        distinct_handles(fresh),
        forall|i: int| 0 <= i < keys.len() ==> s.loads.contains_key(#[trigger] keys[i]),
        s.step_loads(keys, fresh) matches Ok((t, calls)) && part_of(t.by_uuid, fresh),
    ensures
        s.step_loads(keys, fresh) matches Ok((t, calls)) && {
            &&& t.covered()
            &&& t.extends(s)
            &&& forall|other: u64|
                !keys.contains(other) && #[trigger] s.loads.contains_key(other) ==> {
                    &&& t.loads.contains_key(other)
                    &&& t.loads[other] == (LoadView {
                        refs: t.loads[other].refs,
                        ..s.loads[other]
                    })
                }
        },
    decreases keys.len(),
{
    if keys.len() > 0 {
        let init = keys.drop_last();
        let mid = (s.step_loads(init, fresh)->Ok_0).0;
        let t = (s.step_loads(keys, fresh)->Ok_0).0;
        mid.lemma_step_load_extends(keys.last(), fresh);
        assert(part_of(mid.by_uuid, fresh));
        assert forall|i: int| 0 <= i < init.len() implies s.loads.contains_key(
            #[trigger] init[i],
        ) by {
            assert(init[i] == keys[i]);
        }
        lemma_pass_frame(s, init, fresh);
        assert(s.loads.contains_key(keys[keys.len() - 1]));
        assert(mid.loads.contains_key(keys.last()));
        lemma_step_load_frame(mid, keys.last(), fresh);
        assert forall|other: u64| !keys.contains(other) && #[trigger] s.loads.contains_key(
            other,
        ) implies t.loads.contains_key(other) && t.loads[other] == (LoadView {
            refs: t.loads[other].refs,
            ..s.loads[other]
        }) by {
            assert(keys[keys.len() - 1] == keys.last());
            assert(!init.contains(other)) by {
                if init.contains(other) {
                    let j = choose|j: int| 0 <= j < init.len() && init[j] == other;
                    assert(keys[j] == other);
                }
            }
            assert(mid.loads.contains_key(other));
        }
    }
}

/// How a pass comes to a load and leaves it: before and after its own step, nothing in the load
/// changes but the number of references. The calls of its step are among those of the pass.
pub proof fn lemma_pass_at(s: LoaderView, keys: Seq<u64>, fresh: Map<u128, u64>, k: int)
    requires
        s.wf(),
        distinct_handles(fresh),
        keys.no_duplicates(),
        0 <= k < keys.len(),
        forall|u: u64| keys.contains(u) ==> #[trigger] s.loads.contains_key(u),
        s.step_loads(keys, fresh) matches Ok((t, calls)) && part_of(t.by_uuid, fresh),
    ensures
        ({
            let key = keys[k];
            let found = s.found(keys, k, fresh);
            let after = (s.step_loads(keys, fresh)->Ok_0).0;
            &&& s.loads.contains_key(key)
            &&& s.step_loads(keys.take(k), fresh) is Ok
            &&& found.covered()
            &&& found.loads.contains_key(key)
            &&& found.loads[key] == (LoadView { refs: found.loads[key].refs, ..s.loads[key] })
            &&& found.loads[key].numbered()
            &&& found.loads[key].versions.len() > 0
            &&& found.step_load(key, fresh) matches Ok((stepped, more)) && {
                &&& part_of(stepped.by_uuid, fresh)
                &&& after.extends(stepped)
                &&& after.loads.contains_key(key)
                &&& after.loads[key] == (LoadView {
                    refs: after.loads[key].refs,
                    ..stepped.loads[key]
                })
                &&& stepped.loads[key] == (LoadView {
                    refs: stepped.loads[key].refs,
                    versions: stepped.loads[key].versions,
                    ..found.started(key)
                })
            }
        }),
    decreases keys.len(),
{
    let key = keys[k];
    let init = keys.drop_last();
    let mid = (s.step_loads(init, fresh)->Ok_0).0;
    assert(keys.contains(keys[k]));
    assert(keys[keys.len() - 1] == keys.last());
    mid.lemma_step_load_extends(keys.last(), fresh);
    assert(part_of(mid.by_uuid, fresh));
    assert forall|u: u64| init.contains(u) implies #[trigger] s.loads.contains_key(u) by {
        let j = choose|j: int| 0 <= j < init.len() && init[j] == u;
        assert(keys[j] == u);
    }
    assert forall|i: int| 0 <= i < init.len() implies s.loads.contains_key(#[trigger] init[i]) by {
        assert(init.contains(init[i]));
    }
    lemma_pass_frame(s, init, fresh);
    assert(part_of(s.by_uuid, fresh));
    lemma_part_distinct(s.by_uuid, fresh);
    assert(keys.contains(keys.last()));
    assert(s.loads.contains_key(keys.last()) && s.loads.contains_key(key));
    assert(mid.loads.contains_key(keys.last()));
    lemma_step_load_frame(mid, keys.last(), fresh);
    if k == keys.len() - 1 {
        assert(keys.take(k) =~= init);
        assert(!init.contains(key)) by {
            if init.contains(key) {
                let j = choose|j: int| 0 <= j < init.len() && init[j] == key;
                assert(keys[j] == keys[k]);
            }
        }
        lemma_own_step(mid, key, fresh);
    } else {
        assert(init[k] == key);
        assert(init.take(k) =~= keys.take(k));
        assert(init.no_duplicates());
        lemma_pass_at(s, init, fresh, k);
        assert(keys[k] != keys[keys.len() - 1]);
    }
}

/// In its own step, a load changes in its versions, and starts a new one if one is due.
proof fn lemma_own_step(s: LoaderView, key: u64, fresh: Map<u128, u64>)
    requires
        s.covered(),
        s.loads.contains_key(key),
        distinct_handles(fresh),
        s.step_load(key, fresh) matches Ok((t, calls)) && part_of(t.by_uuid, fresh),
        s.loads[key].versions.len() > 0,
    ensures
        s.step_load(key, fresh) matches Ok((t, calls)) && t.loads[key] == (LoadView {
            refs: t.loads[key].refs,
            versions: t.loads[key].versions,
            ..s.started(key)
        }),
{
    let load = s.loads[key];
    let started = s.started(key);
    let begun = s.with_load(key, started);
    assert(begun.covered());
    begun.lemma_step_versions_keeps(
        key,
        load.refs > 0,
        newest(started.versions),
        started.versions,
        fresh,
    );
    assert(begun.loads.contains_key(key));
}

/// A load at the beginning of a pass has its versions in the order of their numbers, if it had them
/// so before.
proof fn lemma_started_numbered(s: LoaderView, key: u64)
    requires
        s.loads[key].numbered(),
        !(s.loads[key].starts_reload() && s.loads[key].version_counter == u32::MAX),
    ensures
        s.started(key).numbered(),
        s.started(key).version_counter >= s.loads[key].version_counter,
{
}

/// Whether a dependency is ready does not change in the steps of versions.
pub proof fn lemma_ready_stays(
    s: LoaderView,
    key: u64,
    has_refs: bool,
    newest: u32,
    versions: Seq<VersionView>,
    fresh: Map<u128, u64>,
)
    requires
        s.covered(),
        distinct_handles(fresh),
        s.step_versions(key, has_refs, newest, versions, fresh) matches Ok(p) && part_of(
            p.loader.by_uuid,
            fresh,
        ),
    ensures
        s.step_versions(key, has_refs, newest, versions, fresh) matches Ok(p) && p.loader.covered()
            && forall|dep: RefView| #[trigger] p.loader.dep_ready(dep) == s.dep_ready(dep),
    decreases versions.len(),
{
    if versions.len() > 0 {
        let init = versions.drop_last();
        let v = versions.last();
        let p = s.step_versions(key, has_refs, newest, init, fresh)->Ok_0;
        let q = p.loader.step_version(key, has_refs, newest, v, fresh)->Ok_0;
        p.loader.lemma_step_version_extends(key, has_refs, newest, v, fresh);
        assert(part_of(p.loader.by_uuid, fresh));
        lemma_ready_stays(s, key, has_refs, newest, init, fresh);
        p.loader.lemma_step_version_keeps(key, has_refs, newest, v, fresh);
        if v.state is RequestDependencies {
            lemma_requesting_readies_nothing(p.loader, deps_of(v.metadata), fresh);
        } else if v.state is UnloadRequested {
            p.loader.lemma_remove_dep_refs_keeps(deps_of(v.metadata), LoadHandle(key), v.version);
            assert forall|dep: RefView| #[trigger]
                q.loader.dep_ready(dep) == p.loader.dep_ready(dep) by {
                if dep is Uuid && p.loader.by_uuid.contains_key(dep->Uuid_0.0) {
                    assert(p.loader.loads.contains_key(p.loader.by_uuid[dep->Uuid_0.0]));
                }
            }
        }
        assert forall|dep: RefView| #[trigger] q.loader.dep_ready(dep) == s.dep_ready(dep) by {
            assert(p.loader.dep_ready(dep) == s.dep_ready(dep));
        }
    }
}

/// Referencing dependencies makes none of them ready, and none not ready.
proof fn lemma_requesting_readies_nothing(s: LoaderView, deps: Seq<RefView>, fresh: Map<u128, u64>)
    requires
        s.covered(),
        distinct_handles(fresh),
        part_of(s.add_dep_refs(deps, fresh).by_uuid, fresh),
    ensures
        forall|dep: RefView| #[trigger]
            s.add_dep_refs(deps, fresh).dep_ready(dep) == s.dep_ready(dep),
    decreases deps.len(),
{
    if deps.len() > 0 {
        let init = deps.drop_last();
        let mid = s.add_dep_refs(init, fresh);
        let after = s.add_dep_refs(deps, fresh);
        if let RefView::Uuid(uuid) = deps.last() {
            assert(after.extends(mid));
            assert(part_of(mid.by_uuid, fresh));
            lemma_requesting_readies_nothing(s, init, fresh);
            s.lemma_add_dep_refs_keeps(init, fresh);
            mid.lemma_add_refs_keeps(uuid.0, 1, fresh);
            assert forall|dep: RefView| #[trigger] after.dep_ready(dep) == s.dep_ready(dep) by {
                assert(mid.dep_ready(dep) == s.dep_ready(dep));
                if dep is Uuid {
                    let d = dep->Uuid_0.0;
                    if mid.by_uuid.contains_key(d) {
                        assert(mid.loads.contains_key(mid.by_uuid[d]));
                        assert(after.loads[mid.by_uuid[d]].versions
                            == mid.loads[mid.by_uuid[d]].versions);
                    } else if after.by_uuid.contains_key(d) {
                        assert(d == uuid.0);
                        let made = after.loads[after.by_uuid[d]];
                        assert(!made.versions[0].state.in_storage());
                    }
                }
            }
        } else {
            lemma_requesting_readies_nothing(s, init, fresh);
        }
    }
}

/// The steps of versions follow the table, and exactly the superseded versions are to be removed.
proof fn lemma_steps_by_table(
    s: LoaderView,
    key: u64,
    has_refs: bool,
    newest: u32,
    versions: Seq<VersionView>,
    fresh: Map<u128, u64>,
)
    requires
        s.covered(),
        distinct_handles(fresh),
        s.step_versions(key, has_refs, newest, versions, fresh) matches Ok(p) && part_of(
            p.loader.by_uuid,
            fresh,
        ),
    ensures
        s.step_versions(key, has_refs, newest, versions, fresh) matches Ok(p) && {
            &&& p.versions.len() == versions.len()
            &&& forall|i: int|
                0 <= i < versions.len() ==> #[trigger] p.versions[i] == (if versions[i].superseded(
                    newest,
                ) {
                    versions[i]
                } else {
                    s.next_version(has_refs, versions[i])
                })
            &&& forall|n: u32| #[trigger]
                p.stale.contains(n) ==> exists|l: int|
                    0 <= l < versions.len() && (#[trigger] versions[l]).superseded(newest)
                        && versions[l].version == n
        },
    decreases versions.len(),
{
    if versions.len() > 0 {
        let init = versions.drop_last();
        let v = versions.last();
        let p = s.step_versions(key, has_refs, newest, init, fresh)->Ok_0;
        let q = p.loader.step_version(key, has_refs, newest, v, fresh)->Ok_0;
        let all = s.step_versions(key, has_refs, newest, versions, fresh)->Ok_0;
        p.loader.lemma_step_version_extends(key, has_refs, newest, v, fresh);
        assert(part_of(p.loader.by_uuid, fresh));
        lemma_steps_by_table(s, key, has_refs, newest, init, fresh);
        lemma_ready_stays(s, key, has_refs, newest, init, fresh);
        if v.state is WaitingForDependencies {
            law_dependencies_are_loaded_first(p.loader, key, has_refs, newest, v, fresh, q);
            assert(p.loader.all_ready(deps_of(v.metadata)) == s.all_ready(deps_of(v.metadata))) by {
                let deps = deps_of(v.metadata);
                if s.all_ready(deps) {
                    assert forall|i: int| 0 <= i < deps.len() implies p.loader.dep_ready(
                        #[trigger] deps[i],
                    ) by {
                        assert(s.dep_ready(deps[i]));
                    }
                }
                if p.loader.all_ready(deps) {
                    assert forall|i: int| 0 <= i < deps.len() implies s.dep_ready(
                        #[trigger] deps[i],
                    ) by {
                        assert(p.loader.dep_ready(deps[i]));
                    }
                }
            }
        }
        assert(q.version == (if v.superseded(newest) {
            v
        } else {
            s.next_version(has_refs, v)
        }));
        assert forall|i: int| 0 <= i < versions.len() implies #[trigger] all.versions[i] == (
        if versions[i].superseded(newest) {
            versions[i]
        } else {
            s.next_version(has_refs, versions[i])
        }) by {
            if i < init.len() {
                assert(init[i] == versions[i]);
                assert(all.versions[i] == p.versions[i]);
            }
        }
        assert forall|n: u32| #[trigger] all.stale.contains(n) implies exists|l: int|
            0 <= l < versions.len() && (#[trigger] versions[l]).superseded(newest)
                && versions[l].version == n by {
            if p.stale.contains(n) {
                let l = choose|l: int|
                    0 <= l < init.len() && (#[trigger] init[l]).superseded(newest)
                        && init[l].version == n;
                assert(versions[l] == init[l]);
            } else {
                let m = choose|m: int| 0 <= m < all.stale.len() && all.stale[m] == n;
                if m < p.stale.len() {
                    assert(p.stale[m] == n);
                }
                assert(versions[versions.len() - 1] == v);
                assert(versions[versions.len() - 1].superseded(newest));
            }
        }
    }
}

/// An asset that gets a load in a pass is a dependency that some version requests.
proof fn lemma_new_load_is_requested(
    s: LoaderView,
    keys: Seq<u64>,
    fresh: Map<u128, u64>,
    uuid: u128,
)
    requires
        s.wf(),
        distinct_handles(fresh),
        keys.no_duplicates(),
        forall|u: u64| keys.contains(u) ==> #[trigger] s.loads.contains_key(u),
        s.step_loads(keys, fresh) matches Ok((t, calls)) && part_of(t.by_uuid, fresh)
            && t.by_uuid.contains_key(uuid),
        !s.by_uuid.contains_key(uuid),
    ensures
        exists|k: int| 0 <= k < keys.len() && #[trigger] s.requested_by(keys[k], uuid),
    decreases keys.len(),
{
    let init = keys.drop_last();
    let key = keys.last();
    let mid = (s.step_loads(init, fresh)->Ok_0).0;
    mid.lemma_step_load_extends(key, fresh);
    assert(part_of(mid.by_uuid, fresh));
    assert forall|u: u64| init.contains(u) implies #[trigger] s.loads.contains_key(u) by {
        let j = choose|j: int| 0 <= j < init.len() && init[j] == u;
        assert(keys[j] == u);
    }
    if mid.by_uuid.contains_key(uuid) {
        lemma_new_load_is_requested(s, init, fresh, uuid);
        let k = choose|k: int| 0 <= k < init.len() && #[trigger] s.requested_by(init[k], uuid);
        assert(keys[k] == init[k]);
    } else {
        let k = keys.len() - 1;
        lemma_pass_at(s, keys, fresh, k);
        assert(keys.take(k) =~= init);
        let started = mid.started(key);
        let begun = mid.with_load(key, started);
        let has_refs = mid.loads[key].refs > 0;
        let n = newest(started.versions);
        lemma_step_requests(begun, key, has_refs, n, started.versions, fresh, uuid);
        let i = choose|i: int|
            0 <= i < started.versions.len() && (#[trigger] started.versions[i]).requests(uuid);
        assert(s.loads[key].versions[i] == started.versions[i]);
        assert(s.requested_by(keys[k], uuid));
    }
}

/// An asset that gets a load in the steps of versions is a dependency that one of them requests.
proof fn lemma_step_requests(
    s: LoaderView,
    key: u64,
    has_refs: bool,
    newest: u32,
    versions: Seq<VersionView>,
    fresh: Map<u128, u64>,
    uuid: u128,
)
    requires
        s.covered(),
        distinct_handles(fresh),
        s.step_versions(key, has_refs, newest, versions, fresh) matches Ok(p) && part_of(
            p.loader.by_uuid,
            fresh,
        ) && p.loader.by_uuid.contains_key(uuid),
        !s.by_uuid.contains_key(uuid),
    ensures
        exists|i: int| 0 <= i < versions.len() && (#[trigger] versions[i]).requests(uuid),
    decreases versions.len(),
{
    let init = versions.drop_last();
    let v = versions.last();
    let p = s.step_versions(key, has_refs, newest, init, fresh)->Ok_0;
    p.loader.lemma_step_version_extends(key, has_refs, newest, v, fresh);
    assert(part_of(p.loader.by_uuid, fresh));
    lemma_ready_stays(s, key, has_refs, newest, init, fresh);
    if p.loader.by_uuid.contains_key(uuid) {
        lemma_step_requests(s, key, has_refs, newest, init, fresh, uuid);
        let i = choose|i: int| 0 <= i < init.len() && (#[trigger] init[i]).requests(uuid);
        assert(versions[i] == init[i]);
    } else {
        lemma_dep_refs_make_loads(p.loader, deps_of(v.metadata), fresh, uuid);
        p.loader.lemma_remove_dep_refs_keeps(deps_of(v.metadata), LoadHandle(key), v.version);
        assert(versions[versions.len() - 1].requests(uuid));
    }
}

/// A dependency that a version requests has a load after the step.
proof fn lemma_requested_dep_gets_load(
    s: LoaderView,
    key: u64,
    has_refs: bool,
    newest: u32,
    versions: Seq<VersionView>,
    fresh: Map<u128, u64>,
    i: int,
    uuid: u128,
)
    requires
        s.step_versions(key, has_refs, newest, versions, fresh) is Ok,
        0 <= i < versions.len(),
        versions[i].requests(uuid),
    ensures
        s.step_versions(key, has_refs, newest, versions, fresh) matches Ok(p)
            && p.loader.by_uuid.contains_key(uuid),
    decreases versions.len(),
{
    let init = versions.drop_last();
    let v = versions.last();
    let p = s.step_versions(key, has_refs, newest, init, fresh)->Ok_0;
    p.loader.lemma_step_version_extends(key, has_refs, newest, v, fresh);
    if i < init.len() {
        assert(init[i] == versions[i]);
        lemma_requested_dep_gets_load(s, key, has_refs, newest, init, fresh, i, uuid);
    } else {
        lemma_dep_gets_load(p.loader, deps_of(v.metadata), fresh, uuid);
    }
}

/// A dependency that is referenced has a load.
proof fn lemma_dep_gets_load(
    s: LoaderView,
    deps: Seq<RefView>,
    fresh: Map<u128, u64>,
    uuid: u128,
)
    requires
        deps.contains(RefView::Uuid(AssetUuid(uuid))),
    ensures
        s.add_dep_refs(deps, fresh).by_uuid.contains_key(uuid),
    decreases deps.len(),
{
    let init = deps.drop_last();
    let wanted = RefView::Uuid(AssetUuid(uuid));
    let i = choose|i: int| 0 <= i < deps.len() && deps[i] == wanted;
    if i < init.len() {
        assert(init[i] == wanted);
        lemma_dep_gets_load(s, init, fresh, uuid);
    }
}

} // verus!
