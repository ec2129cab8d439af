//! What a pass over the loads makes of each version, state by state.

use vstd::prelude::*;
use crate::error::ErrorView;
use crate::ids::{LoadHandle, RefView};
use crate::load::{LoadState, VersionView};
use crate::model::{LoaderView, Stop};
use crate::pass::{PassState, Stage};
use crate::storage::{IndirectionResolver, StorageCall};
use crate::load::newest;
use crate::load_states::lemma_newest;
use crate::model::{came_to, distinct_handles};
use crate::laws::calls::{calls_for, lemma_pass_calls};
use crate::laws::fetches::lemma_data_requested_first;
use crate::laws::passes::{law_pass_moves_every_version, lemma_pass_at};
use crate::laws::processes::Trace;
use crate::laws::processes::{
    lemma_changes_leave, lemma_end_leaves, lemma_handles_stay, lemma_ops_leave,
    lemma_order_of_pass, lemma_place_in_pass,
};

verus! {

impl LoaderView {
    /// Every version of the load at `key` is loaded, whether it is in use or not.
    pub open spec fn versions_loaded(self, key: u64) -> bool {
        forall|w: int|
            0 <= w < self.loads[key].versions.len() ==> (
            #[trigger] self.loads[key].versions[w]).state == LoadState::Loaded
                || self.loads[key].versions[w].state == LoadState::LoadedUncommitted
    }

    /// Everything in a list of dependencies is given by its UUID and has a load, every version of
    /// which is loaded.
    pub open spec fn all_loaded_of(self, deps: Seq<RefView>) -> bool {
        forall|d: int|
            0 <= d < deps.len() ==> {
                &&& (#[trigger] deps[d]) is Uuid
                &&& self.by_uuid.contains_key(deps[d]->Uuid_0.0)
                &&& self.loads.contains_key(self.by_uuid[deps[d]->Uuid_0.0])
                &&& self.versions_loaded(self.by_uuid[deps[d]->Uuid_0.0])
            }
    }

    /// The `i`th version of the load at a place of a pass's order is the `j`th one after the pass.
    pub open spec fn becomes(
        self,
        keys: Seq<u64>,
        after: LoaderView,
        calls: Seq<StorageCall>,
        k: int,
        i: int,
        j: int,
    ) -> bool {
        &&& self.passed(keys, after, calls)
        &&& 0 <= k < keys.len()
        &&& 0 <= i < self.loads[keys[k]].versions.len()
        &&& 0 <= j < after.loads[keys[k]].versions.len()
        &&& after.loads[keys[k]].versions[j].version == self.loads[keys[k]].versions[i].version
    }
}

/// A version that waits for its dependencies goes on to wait for its data exactly if, when the pass
/// comes to it, each of them is given by its UUID and has a load with every version in `Loaded` or
/// `LoadedUncommitted`. As long as one version of one of them is in any other state, it stays.
pub proof fn law_data_waits_for_dependencies(
    s: LoaderView,
    keys: Seq<u64>,
    after: LoaderView,
    calls: Seq<StorageCall>,
    k: int,
    i: int,
    j: int,
)
    requires
        s.becomes(keys, after, calls, k, i, j),
        s.loads[keys[k]].versions[i].state == LoadState::WaitingForDependencies,
    ensures
        s.loads[keys[k]].versions[i].metadata is Some,
        after.loads[keys[k]].versions[j].state == (if s.found(
            keys,
            k,
            after.by_uuid,
        ).all_loaded_of(s.loads[keys[k]].versions[i].metadata->0.load_deps) {
            LoadState::WaitingForData
        } else {
            LoadState::WaitingForDependencies
        }),
{
    let key = keys[k];
    let v = s.loads[key].versions[i];
    lemma_moved(s, keys, after, calls, k, i, j);
    let found = s.found(keys, k, after.by_uuid);
    let begun = s.found_started(keys, k, after.by_uuid);
    assert(found.loads[key].versions[i] == v);
    assert(!found.loads[key].starts_reload());
    assert(begun.loads =~= found.loads);
    assert(v.wf());
    assert(begun == found);
    lemma_loaded_is_ready(found, v.metadata->0.load_deps);
}

/// The stage of a pass that takes the versions further comes to every load once, in some order, and
/// does nothing else. Returned are the order and the calls to the storage.
pub proof fn law_stage_comes_to_every_load<R: IndirectionResolver + ?Sized>(
    before: PassState,
    resolver: &R,
    after: PassState,
) -> (r: (Seq<u64>, Seq<StorageCall>))
    requires
        before.loader.wf(),
        before.may_run(Stage::LoadStates, resolver, after, None),
        distinct_handles(after.loader.by_uuid),
    ensures
        before.loader.passed(r.0, after.loader, r.1),
        r.0.no_duplicates(),
        forall|key: u64| r.0.contains(key) <==> #[trigger] before.loader.loads.contains_key(key),
        after.storage == before.storage + r.1,
        after.taken == before.taken,
        after.io == before.io,
{
    let s = before.loader;
    let (keys, fresh) = choose|keys: Seq<u64>, fresh: Map<u128, u64>|
        {
            &&& keys.no_duplicates()
            &&& keys.to_set() == s.loads.dom()
            &&& came_to(
                #[trigger] s.step_loads(keys, fresh),
                before.storage,
                after.storage,
                Ok(after.loader),
            )
            &&& fresh == after.loader.by_uuid
        };
    assert forall|key: u64| keys.contains(key) <==> #[trigger] s.loads.contains_key(key) by {
        assert(keys.to_set().contains(key) <==> s.loads.dom().contains(key));
    }
    (keys, (s.step_loads(keys, fresh)->Ok_0).1)
}

/// A call of `Loader::process` that hears nothing of an asset takes a version of it that waits for
/// its dependencies no further than to waiting for its data, or to asking for it; and that only if
/// everything that it depends on was loaded, every version of it, when the call came to it. So the
/// data of an asset is not asked for as long as something that it depends on is being loaded.
/// Returned are the order in which the call comes to the loads, and the place of the asset in it.
pub proof fn law_process_fetches_data_after_dependencies<R: IndirectionResolver + ?Sized>(
    t: Trace,
    resolver: &R,
    key: u64,
    uuid: u128,
    i: int,
    j: int,
) -> (r: (Seq<u64>, int))
    requires
        t.quiet_about(resolver, key, uuid),
        t.begun.loader.no_reload_of(uuid),
        0 <= i < t.begun.loader.loads[key].versions.len(),
        t.begun.loader.loads[key].versions[i].state == LoadState::WaitingForDependencies,
        0 <= j < t.done.loader.loads[key].versions.len(),
        t.done.loader.loads[key].versions[j].version
            == t.begun.loader.loads[key].versions[i].version,
    ensures
        t.reported.loader.loads[key] == t.begun.loader.loads[key],
        0 <= r.1 < r.0.len(),
        r.0[r.1] == key,
        t.begun.loader.loads[key].versions[i].metadata is Some,
        ({
            let state = t.done.loader.loads[key].versions[j].state;
            let loaded = t.reported.loader.found(
                r.0,
                r.1,
                t.stepped.loader.by_uuid,
            ).all_loaded_of(t.begun.loader.loads[key].versions[i].metadata->0.load_deps);
            &&& loaded ==> state == LoadState::WaitingForData || state
                == LoadState::RequestingData
            &&& !loaded ==> state == LoadState::WaitingForDependencies
        }),
{
    let before = t.begun.loader;
    assert(before.loads.contains_key(key));
    lemma_handles_stay(t, resolver, key, uuid);
    lemma_changes_leave(t, resolver, key, uuid);
    lemma_ops_leave(t, resolver, key, uuid);
    let keys = lemma_order_of_pass(t, resolver);
    let (k, calls) = lemma_place_in_pass(t, resolver, keys, key);
    let s = t.reported.loader;
    let stepped = t.stepped.loader.loads[key];
    lemma_pass_at(s, keys, t.stepped.loader.by_uuid, k);
    lemma_end_leaves(t, resolver, key, uuid);
    let asked = stepped.metadata_requested();
    lemma_data_requested_first(asked);
    assert(asked.versions[j].version == stepped.versions[j].version);
    assert(t.done.loader.loads[key].versions[j] == asked.data_requested().versions[j]);
    assert(stepped.versions[j].version == s.loads[key].versions[i].version);
    law_data_waits_for_dependencies(s, keys, t.stepped.loader, calls, k, i, j);
    (keys, k)
}

/// On its way into use, a version goes from state to state: with nothing going on it stays if
/// nothing refers to the asset, and otherwise needs its description, or, if it has one, requests
/// its dependencies; with its description it requests its dependencies; and then it waits for them.
/// It keeps its number, its description, its type and how it comes into use.
pub proof fn law_version_sets_out(
    s: LoaderView,
    keys: Seq<u64>,
    after: LoaderView,
    calls: Seq<StorageCall>,
    k: int,
    i: int,
    j: int,
)
    requires
        s.becomes(keys, after, calls, k, i, j),
        ({
            let state = s.loads[keys[k]].versions[i].state;
            ||| state == LoadState::Idle
            ||| state == LoadState::WaitingForMetadata
            ||| state == LoadState::RequestDependencies
        }),
    ensures
        ({
            let v = s.loads[keys[k]].versions[i];
            let refs = s.found(keys, k, after.by_uuid).loads[keys[k]].refs;
            after.loads[keys[k]].versions[j] == (VersionView {
                state: if v.state == LoadState::RequestDependencies {
                    LoadState::WaitingForDependencies
                } else if v.state == LoadState::Idle && refs == 0 {
                    LoadState::Idle
                } else if v.metadata is Some {
                    LoadState::RequestDependencies
                } else {
                    LoadState::WaitingForMetadata
                },
                ..v
            })
        }),
{
    lemma_moved(s, keys, after, calls, k, i, j);
}

/// A version that waits for an answer, or that is loaded and not in use, stays as it is in a pass:
/// only the answer, or being committed, takes it further.
pub proof fn law_version_waits_for_answer(
    s: LoaderView,
    keys: Seq<u64>,
    after: LoaderView,
    calls: Seq<StorageCall>,
    k: int,
    i: int,
    j: int,
)
    requires
        s.becomes(keys, after, calls, k, i, j),
        ({
            let state = s.loads[keys[k]].versions[i].state;
            ||| state == LoadState::RequestingMetadata
            ||| state == LoadState::WaitingForData
            ||| state == LoadState::RequestingData
            ||| state == LoadState::LoadingAsset
            ||| state == LoadState::LoadedUncommitted
        }),
    ensures
        after.loads[keys[k]].versions[j] == s.loads[keys[k]].versions[i],
{
    lemma_moved(s, keys, after, calls, k, i, j);
}

/// A version that is in use stays so as long as something refers to the asset, and is to be
/// unloaded otherwise. Then it is unloaded, and has no type any more; and then nothing goes on with
/// it.
pub proof fn law_version_is_unloaded(
    s: LoaderView,
    keys: Seq<u64>,
    after: LoaderView,
    calls: Seq<StorageCall>,
    k: int,
    i: int,
    j: int,
)
    requires
        s.becomes(keys, after, calls, k, i, j),
        ({
            let state = s.loads[keys[k]].versions[i].state;
            ||| state == LoadState::Loaded
            ||| state == LoadState::UnloadRequested
            ||| state == LoadState::Unloading
        }),
    ensures
        ({
            let v = s.loads[keys[k]].versions[i];
            let refs = s.found(keys, k, after.by_uuid).loads[keys[k]].refs;
            after.loads[keys[k]].versions[j] == (if v.state == LoadState::Loaded {
                VersionView {
                    state: if refs > 0 {
                        LoadState::Loaded
                    } else {
                        LoadState::UnloadRequested
                    },
                    ..v
                }
            } else if v.state == LoadState::UnloadRequested {
                VersionView { state: LoadState::Unloading, asset_type: None, ..v }
            } else {
                VersionView { state: LoadState::Idle, ..v }
            })
        }),
{
    lemma_moved(s, keys, after, calls, k, i, j);
}

/// A pass removes a version exactly if nothing goes on with it and the load has a version with a
/// higher number, a new one included; every other version is still there after it. No load, no
/// asset's handle and no number given so far is lost.
pub proof fn law_only_superseded_versions_go(
    s: LoaderView,
    keys: Seq<u64>,
    after: LoaderView,
    calls: Seq<StorageCall>,
    k: int,
    i: int,
)
    requires
        s.passed(keys, after, calls),
        0 <= k < keys.len(),
        0 <= i < s.loads[keys[k]].versions.len(),
    ensures
        after.loads.contains_key(keys[k]),
        after.loads[keys[k]].asset_id == s.loads[keys[k]].asset_id,
        (forall|j: int|
            0 <= j < after.loads[keys[k]].versions.len() ==> (
            #[trigger] after.loads[keys[k]].versions[j]).version
                != s.loads[keys[k]].versions[i].version) <==> {
            let load = s.loads[keys[k]];
            &&& load.versions[i].state == LoadState::Idle
            &&& exists|other: int|
                0 <= other < load.versions.len() && (#[trigger] load.versions[other]).version
                    > load.versions[i].version
        },
{
    let key = keys[k];
    let load = s.loads[key];
    let v = load.versions[i];
    law_pass_moves_every_version(s, keys, after, calls, k);
    let found = s.found(keys, k, after.by_uuid);
    let begun = s.found_started(keys, k, after.by_uuid);
    let started = begun.loads[key];
    let n = newest(started.versions);
    lemma_pass_at(s, keys, after.by_uuid, k);
    assert(started.versions[i] == v);
    lemma_newest(started.versions);
    let top = choose|t: int|
        0 <= t < started.versions.len() && (#[trigger] started.versions[t]).version == n;
    if v.superseded(n) {
        assert(!(v.state is Loaded));
        assert(!found.loads[key].starts_reload()) by {
            assert(found.loads[key].versions[i] == v);
        }
        assert(load.versions[top].version > v.version);
    } else {
        let w = begun.next_version(found.loads[key].refs > 0, v);
        assert(after.loads[key].versions.contains(w));
        let j = choose|j: int|
            0 <= j < after.loads[key].versions.len() && after.loads[key].versions[j] == w;
        assert(after.loads[key].versions[j].version == v.version);
        if v.state is Idle {
            assert forall|other: int| 0 <= other < load.versions.len() implies (
            #[trigger] load.versions[other]).version <= v.version by {
                assert(started.versions[other] == load.versions[other]);
                assert(started.versions[other].version <= n);
            }
        }
    }
}

/// A pass starts a new version exactly if the asset is referenced, a reload of it is pending, and
/// every version of it is in use. The new version has the next number, nothing is known of it, it
/// needs its description, and it does not come into use by itself. A load in which no version is
/// started gets no other version.
pub proof fn law_pass_starts_reload_when_due(
    s: LoaderView,
    keys: Seq<u64>,
    after: LoaderView,
    calls: Seq<StorageCall>,
    k: int,
    j: int,
)
    requires
        s.passed(keys, after, calls),
        0 <= k < keys.len(),
        0 <= j < after.loads[keys[k]].versions.len(),
    ensures
        ({
            let load = s.loads[keys[k]];
            let due = {
                &&& s.found(keys, k, after.by_uuid).loads[keys[k]].refs > 0
                &&& load.pending_reload
                &&& forall|i: int|
                    0 <= i < load.versions.len() ==> (#[trigger] load.versions[i]).state
                        == LoadState::Loaded
            };
            &&& (forall|i: int|
                0 <= i < load.versions.len() ==> (#[trigger] load.versions[i]).version
                    != after.loads[keys[k]].versions[j].version) ==> due
                && after.loads[keys[k]].versions[j] == (VersionView {
                state: LoadState::WaitingForMetadata,
                metadata: None,
                asset_type: None,
                auto_commit: false,
                version: (load.version_counter + 1) as u32,
            })
            &&& after.loads[keys[k]].version_counter == load.version_counter + (if due {
                1int
            } else {
                0
            })
            &&& after.loads[keys[k]].pending_reload == (load.pending_reload && !due)
        }),
{
    let key = keys[k];
    let load = s.loads[key];
    law_pass_moves_every_version(s, keys, after, calls, k);
    lemma_pass_at(s, keys, after.by_uuid, k);
    let found = s.found(keys, k, after.by_uuid);
    let begun = s.found_started(keys, k, after.by_uuid);
    let started = begun.loads[key];
    let due = {
        &&& found.loads[key].refs > 0
        &&& load.pending_reload
        &&& forall|i: int|
            0 <= i < load.versions.len() ==> (#[trigger] load.versions[i]).state
                == LoadState::Loaded
    };
    assert(found.loads[key].versions == load.versions);
    assert(due == found.loads[key].starts_reload());
    assert(found.step_load(key, after.by_uuid) is Ok);
    let w = after.loads[key].versions[j];
    let i = choose|i: int|
        0 <= i < started.versions.len() && w == begun.next_version(
            found.loads[key].refs > 0,
            #[trigger] started.versions[i],
        );
    if i < load.versions.len() {
        assert(load.versions[i] == started.versions[i]);
        assert(load.versions[i].version == w.version);
    }
}

/// The calls that a pass makes for a load are those by which the storage gives up the versions that
/// were to be unloaded and that it holds: one for each of them, in their order, and no other.
pub proof fn law_pass_frees_what_is_to_be_unloaded(
    s: LoaderView,
    keys: Seq<u64>,
    after: LoaderView,
    calls: Seq<StorageCall>,
    k: int,
)
    requires
        s.passed(keys, after, calls),
        0 <= k < keys.len(),
    ensures
        calls_for(calls, LoadHandle(keys[k])) == frees(
            LoadHandle(keys[k]),
            s.loads[keys[k]].versions,
        ),
{
    let key = keys[k];
    lemma_pass_calls(s, keys, after.by_uuid, k);
    assert forall|u: u64| keys.contains(u) implies #[trigger] s.loads.contains_key(u) by {
        assert(keys.to_set().contains(u));
    }
    lemma_pass_at(s, keys, after.by_uuid, k);
    let found = s.found(keys, k, after.by_uuid);
    let started = found.started(key);
    let begun = found.with_load(key, started);
    lemma_frees(
        begun,
        key,
        found.loads[key].refs > 0,
        newest(started.versions),
        started.versions,
        after.by_uuid,
    );
    if found.loads[key].starts_reload() {
        let load = found.loads[key];
        assert(started.versions.drop_last() =~= load.versions);
        assert(frees(LoadHandle(key), started.versions) == frees(LoadHandle(key), load.versions));
    }
}

/// The calls by which the storage gives up versions that are to be unloaded, in their order.
pub open spec fn frees(handle: LoadHandle, versions: Seq<VersionView>) -> Seq<StorageCall>
    decreases versions.len(),
{
    if versions.len() == 0 {
        Seq::empty()
    } else if versions.last().state == LoadState::UnloadRequested
        && versions.last().asset_type is Some {
        frees(handle, versions.drop_last()).push(
            StorageCall::Free {
                asset_type: versions.last().asset_type->0,
                handle,
                version: versions.last().version,
            },
        )
    } else {
        frees(handle, versions.drop_last())
    }
}

proof fn lemma_frees(
    s: LoaderView,
    key: u64,
    has_refs: bool,
    newest: u32,
    versions: Seq<VersionView>,
    fresh: Map<u128, u64>,
)
    requires
        s.step_versions(key, has_refs, newest, versions, fresh) is Ok,
    ensures
        (s.step_versions(key, has_refs, newest, versions, fresh)->Ok_0).calls == frees(
            LoadHandle(key),
            versions,
        ),
    decreases versions.len(),
{
    if versions.len() > 0 {
        lemma_frees(s, key, has_refs, newest, versions.drop_last(), fresh);
        let p = s.step_versions(key, has_refs, newest, versions.drop_last(), fresh)->Ok_0;
        let q = p.loader.step_version(key, has_refs, newest, versions.last(), fresh)->Ok_0;
        assert(p.calls + q.calls =~= frees(LoadHandle(key), versions));
    }
}

/// What becomes of a version in a pass, if it is still there.
proof fn lemma_moved(
    s: LoaderView,
    keys: Seq<u64>,
    after: LoaderView,
    calls: Seq<StorageCall>,
    k: int,
    i: int,
    j: int,
)
    requires
        s.becomes(keys, after, calls, k, i, j),
    ensures
        s.loads.contains_key(keys[k]),
        s.loads[keys[k]].versions[i].wf(),
        ({
            let found = s.found(keys, k, after.by_uuid);
            &&& found.loads.contains_key(keys[k])
            &&& found.loads[keys[k]].versions == s.loads[keys[k]].versions
            &&& after.loads[keys[k]].versions[j] == s.found_started(
                keys,
                k,
                after.by_uuid,
            ).next_version(found.loads[keys[k]].refs > 0, s.loads[keys[k]].versions[i])
        }),
{
    let key = keys[k];
    law_pass_moves_every_version(s, keys, after, calls, k);
    assert forall|u: u64| keys.contains(u) implies #[trigger] s.loads.contains_key(u) by {
        assert(keys.to_set().contains(u));
    }
    lemma_pass_at(s, keys, after.by_uuid, k);
    let found = s.found(keys, k, after.by_uuid);
    let begun = s.found_started(keys, k, after.by_uuid);
    let started = begun.loads[key];
    let w = after.loads[key].versions[j];
    let l = choose|l: int|
        0 <= l < started.versions.len() && w == begun.next_version(
            found.loads[key].refs > 0,
            #[trigger] started.versions[l],
        );
    assert(found.loads[key].numbered());
    if l < found.loads[key].versions.len() {
        assert(found.loads[key].versions[l].version == found.loads[key].versions[i].version);
        if l < i {
            assert(found.loads[key].versions[l].version < found.loads[key].versions[i].version);
        } else if i < l {
            assert(found.loads[key].versions[i].version < found.loads[key].versions[l].version);
        }
    } else {
        assert(found.loads[key].versions[i].version <= found.loads[key].version_counter);
        assert(found.loads[key].version_counter < u32::MAX) by {
            assert(found.step_load(key, after.by_uuid) is Ok);
        }
    }
}

/// A version that waits for its dependencies is an error exactly if one of them is given by its
/// path and every one before it is loaded. The error names the load and the version, and comes
/// before any call to the storage.
pub proof fn law_dependency_given_by_path_is_error(
    s: LoaderView,
    key: u64,
    has_refs: bool,
    newest: u32,
    v: VersionView,
    fresh: Map<u128, u64>,
)
    requires
        v.state == LoadState::WaitingForDependencies,
        v.metadata is Some,
    ensures
        s.step_version(key, has_refs, newest, v, fresh) is Err <==> exists|d: int|
            0 <= d < v.metadata->0.load_deps.len() && (#[trigger] v.metadata->0.load_deps[d]) is Path
                && s.all_loaded_of(v.metadata->0.load_deps.take(d)),
        s.step_version(key, has_refs, newest, v, fresh) matches Err(stop) ==> stop == (Stop {
            error: ErrorView::ExpectedUuid(LoadHandle(key), v.version),
            calls: Seq::empty(),
        }),
{
    let deps = v.metadata->0.load_deps;
    assert forall|d: int| 0 <= d <= deps.len() implies (s.all_loaded_of(#[trigger] deps.take(d))
        <==> s.all_ready(deps.take(d))) by {
        lemma_loaded_is_ready(s, deps.take(d));
    }
    if exists|i: int| s.is_first_unready(deps, i) {
        let i = choose|i: int| s.is_first_unready(deps, i);
        assert forall|j: int| 0 <= j < deps.take(i).len() implies s.dep_ready(
            #[trigger] deps.take(i)[j],
        ) by {
            assert(deps[j] == deps.take(i)[j]);
        }
        if exists|d: int|
            0 <= d < deps.len() && (#[trigger] deps[d]) is Path && s.all_loaded_of(deps.take(d)) {
            let d = choose|d: int|
                0 <= d < deps.len() && (#[trigger] deps[d]) is Path && s.all_loaded_of(
                    deps.take(d),
                );
            if d < i {
                assert(s.dep_ready(deps[d]));
            } else if i < d {
                assert(deps.take(d)[i] == deps[i]);
                assert(s.dep_ready(deps.take(d)[i]));
            }
        }
    } else if exists|d: int|
        0 <= d < deps.len() && (#[trigger] deps[d]) is Path && s.all_loaded_of(deps.take(d)) {
        let d = choose|d: int|
            0 <= d < deps.len() && (#[trigger] deps[d]) is Path && s.all_loaded_of(deps.take(d));
        assert forall|j: int| 0 <= j < d implies s.dep_ready(#[trigger] deps[j]) by {
            assert(deps.take(d)[j] == deps[j]);
            assert(s.dep_ready(deps.take(d)[j]));
        }
        assert(s.is_first_unready(deps, d));
    }
}

/// Dependencies are ready when they are loaded.
proof fn lemma_loaded_is_ready(s: LoaderView, deps: Seq<RefView>)
    ensures
        s.all_loaded_of(deps) <==> s.all_ready(deps),
{
    if s.all_loaded_of(deps) {
        assert forall|d: int| 0 <= d < deps.len() implies s.dep_ready(#[trigger] deps[d]) by {
            let dep = s.by_uuid[deps[d]->Uuid_0.0];
            assert forall|w: int| 0 <= w < s.loads[dep].versions.len() implies (
            #[trigger] s.loads[dep].versions[w]).state.in_storage() by {}
        }
    }
    if s.all_ready(deps) {
        assert forall|d: int| 0 <= d < deps.len() implies {
            &&& (#[trigger] deps[d]) is Uuid
            &&& s.by_uuid.contains_key(deps[d]->Uuid_0.0)
            &&& s.loads.contains_key(s.by_uuid[deps[d]->Uuid_0.0])
            &&& s.versions_loaded(s.by_uuid[deps[d]->Uuid_0.0])
        } by {
            assert(s.dep_ready(deps[d]));
            let dep = s.by_uuid[deps[d]->Uuid_0.0];
            assert forall|w: int| 0 <= w < s.loads[dep].versions.len() implies (
            #[trigger] s.loads[dep].versions[w]).state == LoadState::Loaded
                || s.loads[dep].versions[w].state == LoadState::LoadedUncommitted by {
                assert(s.loads[dep].versions[w].state.in_storage());
            }
        }
    }
}

} // verus!
