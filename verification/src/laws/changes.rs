//! Assets that have changed: what a pass notes of them, and when their new versions come into use.

use vstd::prelude::*;
use crate::error::ErrorView;
use crate::ids::LoadHandle;
use crate::load::{LoadState, LoadView, VersionQuery};
use crate::model::{LoaderView, PendingReload};
use crate::pass::{PassState, Stage};
use crate::storage::{IndirectionResolver, StorageCall};
use crate::asset_changes::{newer_in_storage, newer_on_its_way};
use crate::load::{is_first, lemma_position_none, lemma_position_some, position};
use crate::load_states::lemma_newest;
use crate::model::{distinct_handles, distinct_reloads};
use crate::laws::calls::{calls_for, lemma_calls_add_up, lemma_calls_of_one};
use crate::laws::processes::lemma_commits_call_for_others;
use crate::laws::reloads::lemma_commit_reloads;
use crate::laws::reports::law_commit_brings_version_into_use;

verus! {

impl LoaderView {
    /// A version of an asset with a number above a given one is loaded, whether it is in use or
    /// not.
    pub open spec fn newer_is_loaded(self, uuid: u128, version: u32) -> bool {
        exists|i: int|
            {
                &&& 0 <= i < self.loads[self.by_uuid[uuid]].versions.len()
                &&& (#[trigger] self.loads[self.by_uuid[uuid]].versions[i]).version > version
                &&& self.loads[self.by_uuid[uuid]].versions[i].state == LoadState::Loaded
                    || self.loads[self.by_uuid[uuid]].versions[i].state
                    == LoadState::LoadedUncommitted
            }
    }

    /// Nothing refers to an asset, and with no version of it with a number above a given one does
    /// anything go on but that it is unloaded.
    pub open spec fn nothing_newer_is_wanted(self, uuid: u128, version: u32) -> bool {
        &&& self.loads[self.by_uuid[uuid]].refs == 0
        &&& forall|i: int|
            0 <= i < self.loads[self.by_uuid[uuid]].versions.len() && (
            #[trigger] self.loads[self.by_uuid[uuid]].versions[i]).version > version ==> {
                ||| self.loads[self.by_uuid[uuid]].versions[i].state == LoadState::Idle
                ||| self.loads[self.by_uuid[uuid]].versions[i].state == LoadState::UnloadRequested
                ||| self.loads[self.by_uuid[uuid]].versions[i].state == LoadState::Unloading
            }
    }

    /// A reload need not be waited for: its asset has no load, or a newer version of it is loaded,
    /// or none is wanted.
    pub open spec fn nothing_to_wait_for(self, reload: PendingReload) -> bool {
        ||| !self.by_uuid.contains_key(reload.asset_id.0)
        ||| self.newer_is_loaded(reload.asset_id.0, reload.version_before)
        ||| self.nothing_newer_is_wanted(reload.asset_id.0, reload.version_before)
    }
}

/// While reloads are pending, looking for changed assets does nothing at all unless none of them
/// has to be waited for: if it calls the storage, ends with an error or changes anything, then of
/// every pending reload a newer version is loaded, or the asset has no load, or no newer version is
/// wanted. And if that is so of every one, then none is pending afterwards.
pub proof fn law_no_reload_comes_into_use_before_all_are_loaded<R: IndirectionResolver + ?Sized>(
    before: PassState,
    resolver: &R,
    after: PassState,
    error: Option<ErrorView>,
    i: int,
)
    requires
        before.loader.wf(),
        before.may_run(Stage::AssetChanges, resolver, after, error),
        before.loader.pending_reloads.len() > 0,
    ensures
        0 <= i < before.loader.pending_reloads.len() && !before.loader.nothing_to_wait_for(
            before.loader.pending_reloads[i],
        ) ==> after.storage == before.storage && after.loader == before.loader && error is None,
        (forall|j: int|
            0 <= j < before.loader.pending_reloads.len() ==> before.loader.nothing_to_wait_for(
                #[trigger] before.loader.pending_reloads[j],
            )) && error is None ==> after.loader.pending_reloads.len() == 0,
        after.taken == before.taken,
        after.io == before.io,
{
    let s = before.loader;
    assert forall|j: int| 0 <= j < s.pending_reloads.len() implies s.nothing_to_wait_for(
        #[trigger] s.pending_reloads[j],
    ) == s.reload_finished(s.pending_reloads[j]) by {
        lemma_waiting(s, s.pending_reloads[j]);
    }
    if s.reloads_finished() {
        assert forall|j: int| 0 <= j < s.pending_reloads.len() implies s.nothing_to_wait_for(
            #[trigger] s.pending_reloads[j],
        ) by {
            assert(s.reload_finished(s.pending_reloads[j]));
        }
    } else {
        assert(exists|j: int|
            0 <= j < s.pending_reloads.len() && !s.reload_finished(
                #[trigger] s.pending_reloads[j],
            ));
    }
}

/// A reload has to be waited for exactly if it is not finished.
proof fn lemma_waiting(s: LoaderView, reload: PendingReload)
    requires
        s.wf(),
    ensures
        s.nothing_to_wait_for(reload) == s.reload_finished(reload),
{
    let uuid = reload.asset_id.0;
    if s.by_uuid.contains_key(uuid) {
        let load = s.loads[s.by_uuid[uuid]];
        assert(s.loads.contains_key(s.by_uuid[uuid]));
        let n = reload.version_before;
        if s.newer_is_loaded(uuid, n) {
            let i = choose|i: int|
                {
                    &&& 0 <= i < s.loads[s.by_uuid[uuid]].versions.len()
                    &&& (#[trigger] s.loads[s.by_uuid[uuid]].versions[i]).version > n
                    &&& s.loads[s.by_uuid[uuid]].versions[i].state == LoadState::Loaded
                        || s.loads[s.by_uuid[uuid]].versions[i].state
                        == LoadState::LoadedUncommitted
                };
            assert(load.versions[i].state.in_storage());
        }
        if s.nothing_newer_is_wanted(uuid, n) {
            if newer_in_storage(load.versions, n) {
                let i = choose|i: int|
                    0 <= i < load.versions.len() && (#[trigger] load.versions[i]).state.in_storage()
                        && load.versions[i].version > n;
                assert(s.loads[s.by_uuid[uuid]].versions[i].version > n);
            }
            if newer_on_its_way(load.versions, n) {
                let i = choose|i: int|
                    0 <= i < load.versions.len() && (#[trigger] load.versions[i]).state.on_its_way()
                        && load.versions[i].version > n;
                assert(s.loads[s.by_uuid[uuid]].versions[i].version > n);
            }
        }
        if s.reload_finished(reload) {
            if newer_in_storage(load.versions, n) {
                let i = choose|i: int|
                    0 <= i < load.versions.len() && (#[trigger] load.versions[i]).state.in_storage()
                        && load.versions[i].version > n;
                assert(s.loads[s.by_uuid[uuid]].versions[i].version > n);
                assert(s.newer_is_loaded(uuid, n));
            } else {
                assert(load.reload_idle(n));
                assert forall|i: int|
                    0 <= i < s.loads[s.by_uuid[uuid]].versions.len() && (
                    #[trigger] s.loads[s.by_uuid[uuid]].versions[i]).version > n implies {
                    ||| s.loads[s.by_uuid[uuid]].versions[i].state == LoadState::Idle
                    ||| s.loads[s.by_uuid[uuid]].versions[i].state == LoadState::UnloadRequested
                    ||| s.loads[s.by_uuid[uuid]].versions[i].state == LoadState::Unloading
                } by {
                    assert(!load.versions[i].state.in_storage());
                    assert(!load.versions[i].state.on_its_way());
                }
                assert(s.nothing_newer_is_wanted(uuid, n));
            }
        }
    }
}

/// When the pending reloads come into use, each of them does: the first version of the asset that
/// is loaded and waits is in use after that, every other version of it is to be unloaded, and the
/// storage is told once. An asset of which no version waits is left as it is and the storage is not
/// called for it; but if no newer version of it is wanted, it counts as invalidated again, and is
/// not marked any more.
pub proof fn law_pending_reloads_come_into_use<R: IndirectionResolver + ?Sized>(
    before: PassState,
    resolver: &R,
    after: PassState,
    i: int,
    p: int,
)
    requires
        before.loader.wf(),
        distinct_handles(before.loader.by_uuid),
        before.may_run(Stage::AssetChanges, resolver, after, None),
        forall|j: int|
            0 <= j < before.loader.pending_reloads.len() ==> before.loader.nothing_to_wait_for(
                #[trigger] before.loader.pending_reloads[j],
            ),
        0 <= i < before.loader.pending_reloads.len(),
        before.loader.by_uuid.contains_key(before.loader.pending_reloads[i].asset_id.0),
    ensures
        ({
            let reload = before.loader.pending_reloads[i];
            let key = before.loader.by_uuid[reload.asset_id.0];
            let load = before.loader.loads[key];
            let made = calls_for(
                after.storage.skip(before.storage.len() as int),
                LoadHandle(key),
            );
            &&& after.loader.loads.contains_key(key)
            &&& 0 <= p < load.versions.len() && load.versions[p].state
                == LoadState::LoadedUncommitted && (forall|j: int|
                0 <= j < p ==> (#[trigger] load.versions[j]).state != LoadState::LoadedUncommitted)
                ==> {
                &&& (LoadView {
                    pending_reload: after.loader.loads[key].pending_reload,
                    ..load
                }).came_into_use(p, after.loader.loads[key])
                &&& made == seq![
                    StorageCall::Commit {
                        asset_type: load.versions[p].asset_type->0,
                        handle: LoadHandle(key),
                        version: load.versions[p].version,
                    },
                ]
            }
            &&& (forall|j: int|
                0 <= j < load.versions.len() ==> (#[trigger] load.versions[j]).state
                    != LoadState::LoadedUncommitted) ==> {
                &&& after.loader.loads[key] == (LoadView {
                    pending_reload: after.loader.loads[key].pending_reload,
                    ..load
                })
                &&& made.len() == 0
            }
            &&& if !before.loader.newer_is_loaded(reload.asset_id.0, reload.version_before) {
                &&& !after.loader.loads[key].pending_reload
                &&& after.loader.invalidated.contains(reload.asset_id.0)
            } else {
                after.loader.loads[key].pending_reload == load.pending_reload
            }
        }),
{
    let s = before.loader;
    let reload = s.pending_reloads[i];
    let uuid = reload.asset_id.0;
    let key = s.by_uuid[uuid];
    let load = s.loads[key];
    assert(s.loads.contains_key(key));
    assert forall|j: int| 0 <= j < s.pending_reloads.len() implies s.reload_finished(
        #[trigger] s.pending_reloads[j],
    ) by {
        assert(s.nothing_to_wait_for(s.pending_reloads[j]));
        lemma_waiting(s, s.pending_reloads[j]);
    }
    assert(s.reloads_finished());
    let (mid, calls) = s.commit_reloads(s.pending_reloads)->Ok_0;
    lemma_committed_alone(s, s.pending_reloads, i);
    assert(after.storage.skip(before.storage.len() as int) =~= calls);
    let waiting = VersionQuery::InState(LoadState::LoadedUncommitted);
    lemma_position_none(load.versions, waiting);
    let (alone, own) = s.commit_reload(reload)->Ok_0;
    if let Some(first) = position(load.versions, waiting) {
        assert(load.numbered());
        law_commit_brings_version_into_use(
            load,
            LoadHandle(key),
            load.versions[first].version,
            first,
        );
        if 0 <= p < load.versions.len() && load.versions[p].state == LoadState::LoadedUncommitted
            && (forall|j: int|
            0 <= j < p ==> (#[trigger] load.versions[j]).state != LoadState::LoadedUncommitted) {
            assert(is_first(load.versions, waiting, p));
            lemma_position_some(load.versions, waiting, p);
        }
        assert(load.versions[first].state == LoadState::LoadedUncommitted);
    }
    lemma_idle(s, reload);
}

/// A reload is of no use exactly if no newer version is loaded and none is wanted.
proof fn lemma_idle(s: LoaderView, reload: PendingReload)
    requires
        s.wf(),
        s.by_uuid.contains_key(reload.asset_id.0),
        s.reload_finished(reload),
    ensures
        s.loads[s.by_uuid[reload.asset_id.0]].reload_idle(reload.version_before)
            == !s.newer_is_loaded(reload.asset_id.0, reload.version_before),
{
    let uuid = reload.asset_id.0;
    let load = s.loads[s.by_uuid[uuid]];
    let n = reload.version_before;
    assert(s.loads.contains_key(s.by_uuid[uuid]));
    if s.newer_is_loaded(uuid, n) {
        let i = choose|i: int|
            {
                &&& 0 <= i < s.loads[s.by_uuid[uuid]].versions.len()
                &&& (#[trigger] s.loads[s.by_uuid[uuid]].versions[i]).version > n
                &&& s.loads[s.by_uuid[uuid]].versions[i].state == LoadState::Loaded
                    || s.loads[s.by_uuid[uuid]].versions[i].state == LoadState::LoadedUncommitted
            };
        assert(load.versions[i].state.in_storage());
    } else if newer_in_storage(load.versions, n) {
        let i = choose|i: int|
            0 <= i < load.versions.len() && (#[trigger] load.versions[i]).state.in_storage()
                && load.versions[i].version > n;
        assert(s.loads[s.by_uuid[uuid]].versions[i].version > n);
        assert(s.newer_is_loaded(uuid, n));
    }
}

/// Committing one reload among others does to its load what it does alone.
proof fn lemma_committed_alone(s: LoaderView, reloads: Seq<PendingReload>, i: int)
    requires
        s.covered(),
        distinct_handles(s.by_uuid),
        distinct_reloads(reloads),
        s.commit_reloads(reloads) is Ok,
        0 <= i < reloads.len(),
        s.by_uuid.contains_key(reloads[i].asset_id.0),
    ensures
        ({
            let key = s.by_uuid[reloads[i].asset_id.0];
            let (after, calls) = s.commit_reloads(reloads)->Ok_0;
            &&& after.by_uuid == s.by_uuid
            &&& after.loads.contains_key(key)
            &&& s.commit_reload(reloads[i]) matches Ok((alone, own)) && {
                &&& after.loads[key] == alone.loads[key]
                &&& calls_for(calls, LoadHandle(key)) == own
                &&& s.loads[key].reload_idle(reloads[i].version_before)
                    ==> after.invalidated.contains(reloads[i].asset_id.0)
            }
        }),
    decreases reloads.len(),
{
    let init = reloads.drop_last();
    let last = reloads.last();
    let uuid = reloads[i].asset_id.0;
    let key = s.by_uuid[uuid];
    let handle = LoadHandle(key);
    assert(reloads[reloads.len() - 1] == last);
    assert(s.loads.contains_key(key));
    let (mid, some) = s.commit_reloads(init)->Ok_0;
    let (after, more) = mid.commit_reload(last)->Ok_0;
    lemma_calls_add_up(some, more, handle);
    assert forall|x: int, y: int| 0 <= x < y < init.len() implies (#[trigger] init[x]).asset_id != (
    #[trigger] init[y]).asset_id by {
        assert(init[x] == reloads[x] && init[y] == reloads[y]);
    }
    if i == reloads.len() - 1 {
        assert forall|j: int| 0 <= j < init.len() implies (#[trigger] init[j]).asset_id.0
            != uuid by {
            assert(init[j] == reloads[j]);
            assert(reloads[j].asset_id != reloads[i].asset_id);
        }
        lemma_commits_call_for_others(s, init, key, uuid);
        lemma_commit_reloads(s, init);
        assert(mid.loads[key] == s.loads[key]);
        assert(mid.loads.contains_key(key));
        lemma_calls_of_one(more, handle, handle);
        if more.len() == 0 {
            assert(more =~= Seq::empty());
        }
        assert(Seq::<StorageCall>::empty() + more =~= more);
        if s.loads[key].reload_idle(last.version_before) {
            assert(after.invalidated[mid.invalidated.len() as int] == uuid);
        }
    } else {
        assert(init[i] == reloads[i]);
        lemma_committed_alone(s, init, i);
        assert(reloads[i].asset_id != reloads[reloads.len() - 1].asset_id);
        if s.by_uuid.contains_key(last.asset_id.0) {
            assert(s.by_uuid[last.asset_id.0] != key);
        }
        lemma_calls_of_one(more, LoadHandle(mid.by_uuid[last.asset_id.0]), handle);
        if more.len() == 0 {
            assert(more =~= Seq::empty());
        }
        assert(calls_for(some, handle) + Seq::<StorageCall>::empty() =~= calls_for(some, handle));
        if mid.invalidated.contains(uuid) {
            let j = choose|j: int| 0 <= j < mid.invalidated.len() && mid.invalidated[j] == uuid;
            assert(after.invalidated[j] == uuid);
        }
    }
}

/// All pending reloads are finished exactly if none of them, however many there are, has to be
/// waited for.
pub proof fn law_all_reloads_are_finished_if_none_is_waited_for(s: LoaderView)
    requires
        s.wf(),
    ensures
        s.reloads_finished() <==> forall|i: int|
            0 <= i < s.pending_reloads.len() ==> s.nothing_to_wait_for(
                #[trigger] s.pending_reloads[i],
            ),
{
    assert forall|i: int| 0 <= i < s.pending_reloads.len() implies s.nothing_to_wait_for(
        #[trigger] s.pending_reloads[i],
    ) == s.reload_finished(s.pending_reloads[i]) by {
        lemma_waiting(s, s.pending_reloads[i]);
    }
    if forall|i: int|
        0 <= i < s.pending_reloads.len() ==> s.nothing_to_wait_for(
            #[trigger] s.pending_reloads[i],
        ) {
        assert forall|i: int| 0 <= i < s.pending_reloads.len() implies s.reload_finished(
            #[trigger] s.pending_reloads[i],
        ) by {
            assert(s.nothing_to_wait_for(s.pending_reloads[i]));
        }
    }
    if s.reloads_finished() {
        assert forall|i: int| 0 <= i < s.pending_reloads.len() implies s.nothing_to_wait_for(
            #[trigger] s.pending_reloads[i],
        ) by {
            assert(s.reload_finished(s.pending_reloads[i]));
        }
    }
}

/// Looking for changed assets leaves alone an asset that was not invalidated and of which no reload
/// is pending: its load stays as it is, and the storage is not called for it.
pub proof fn law_unchanged_asset_is_left_alone<R: IndirectionResolver + ?Sized>(
    before: PassState,
    resolver: &R,
    after: PassState,
    uuid: u128,
)
    requires
        before.loader.wf(),
        distinct_handles(before.loader.by_uuid),
        before.may_run(Stage::AssetChanges, resolver, after, None),
        before.loader.by_uuid.contains_key(uuid),
        !before.loader.invalidated.contains(uuid),
        forall|i: int|
            0 <= i < before.loader.pending_reloads.len() ==> (
            #[trigger] before.loader.pending_reloads[i]).asset_id.0 != uuid,
    ensures
        after.loader.by_uuid == before.loader.by_uuid,
        ({
            let key = before.loader.by_uuid[uuid];
            &&& after.loader.loads.contains_key(key)
            &&& after.loader.loads[key] == before.loader.loads[key]
            &&& calls_for(
                after.storage.skip(before.storage.len() as int),
                LoadHandle(key),
            ).len() == 0
        }),
{
    let s = before.loader;
    let key = s.by_uuid[uuid];
    assert(s.loads.contains_key(key));
    if s.pending_reloads.len() == 0 {
        law_changes_are_noted(before, resolver, after, uuid);
        assert(after.storage.skip(before.storage.len() as int) =~= Seq::empty());
    } else if s.reloads_finished() {
        let calls = (s.commit_reloads(s.pending_reloads)->Ok_0).1;
        lemma_commit_reloads(s, s.pending_reloads);
        lemma_commits_call_for_others(s, s.pending_reloads, key, uuid);
        assert(after.storage.skip(before.storage.len() as int) =~= calls);
    } else {
        assert(after.storage.skip(before.storage.len() as int) =~= Seq::empty());
    }
}

/// When no reload is pending, a reload of each asset that was invalidated and has a load is pending
/// after looking for changed assets, with the highest number that a version of it has; its load is
/// marked, once, and nothing else about it changes. No reload of any other asset is pending, no
/// other load changes, nothing is left to look at, and the storage is not called.
pub proof fn law_changes_are_noted<R: IndirectionResolver + ?Sized>(
    before: PassState,
    resolver: &R,
    after: PassState,
    uuid: u128,
)
    requires
        before.loader.wf(),
        distinct_handles(before.loader.by_uuid),
        before.loader.pending_reloads.len() == 0,
        before.may_run(Stage::AssetChanges, resolver, after, None),
    ensures
        after.storage == before.storage,
        after.loader.invalidated.len() == 0,
        after.loader.by_uuid == before.loader.by_uuid,
        before.loader.by_uuid.contains_key(uuid) ==> {
            let key = before.loader.by_uuid[uuid];
            after.loader.loads.contains_key(key) && after.loader.loads[key] == (LoadView {
                pending_reload: before.loader.loads[key].pending_reload
                    || before.loader.invalidated.contains(uuid),
                ..before.loader.loads[key]
            })
        },
        (exists|i: int|
            0 <= i < after.loader.pending_reloads.len() && (
            #[trigger] after.loader.pending_reloads[i]).asset_id.0 == uuid)
            <==> before.loader.invalidated.contains(uuid) && before.loader.by_uuid.contains_key(
            uuid,
        ),
        forall|i: int|
            0 <= i < after.loader.pending_reloads.len() && (
            #[trigger] after.loader.pending_reloads[i]).asset_id.0 == uuid ==> {
                let versions = before.loader.loads[before.loader.by_uuid[uuid]].versions;
                let number = after.loader.pending_reloads[i].version_before;
                &&& forall|v: int|
                    0 <= v < versions.len() ==> (#[trigger] versions[v]).version <= number
                &&& exists|v: int|
                    0 <= v < versions.len() && (#[trigger] versions[v]).version == number
            },
{
    let s = before.loader;
    let begun = s.drained();
    let order = choose|order: Seq<u128>|
        {
            &&& order.no_duplicates()
            &&& order.to_set() == s.invalidated.to_set()
            &&& Ok::<LoaderView, ErrorView>(after.loader) == Ok::<LoaderView, ErrorView>(
                #[trigger] begun.mark_all_changed(order),
            )
        };
    assert(order.contains(uuid) <==> s.invalidated.contains(uuid)) by {
        assert(order.to_set().contains(uuid) <==> s.invalidated.to_set().contains(uuid));
    }
    lemma_noted(begun, order, uuid);
    if s.by_uuid.contains_key(uuid) {
        assert(s.loads.contains_key(s.by_uuid[uuid]));
    }
}

/// What marking assets as changed notes of an asset.
proof fn lemma_noted(s: LoaderView, order: Seq<u128>, uuid: u128)
    requires
        s.loads_wf(),
        distinct_handles(s.by_uuid),
        s.pending_reloads.len() == 0,
    ensures
        ({
            let after = s.mark_all_changed(order);
            &&& after.by_uuid == s.by_uuid
            &&& after.invalidated == s.invalidated
            &&& after.loads.dom() == s.loads.dom()
            &&& forall|k: u64| #[trigger]
                s.loads.contains_key(k) ==> after.loads[k].versions == s.loads[k].versions
            &&& s.by_uuid.contains_key(uuid) ==> after.loads[s.by_uuid[uuid]] == (LoadView {
                pending_reload: s.loads[s.by_uuid[uuid]].pending_reload || order.contains(uuid),
                ..s.loads[s.by_uuid[uuid]]
            })
            &&& (exists|i: int|
                0 <= i < after.pending_reloads.len() && (
                #[trigger] after.pending_reloads[i]).asset_id.0 == uuid) <==> order.contains(uuid)
                && s.by_uuid.contains_key(uuid)
            &&& forall|i: int|
                0 <= i < after.pending_reloads.len() && (
                #[trigger] after.pending_reloads[i]).asset_id.0 == uuid ==> {
                    let versions = s.loads[s.by_uuid[uuid]].versions;
                    let number = after.pending_reloads[i].version_before;
                    &&& forall|v: int|
                        0 <= v < versions.len() ==> (#[trigger] versions[v]).version <= number
                    &&& exists|v: int|
                        0 <= v < versions.len() && (#[trigger] versions[v]).version == number
                }
        }),
    decreases order.len(),
{
    let after = s.mark_all_changed(order);
    if s.by_uuid.contains_key(uuid) {
        assert(s.loads.contains_key(s.by_uuid[uuid]));
    }
    if order.len() > 0 {
        let init = order.drop_last();
        let last = order.last();
        assert(order[order.len() - 1] == last);
        lemma_noted(s, init, uuid);
        let mid = s.mark_all_changed(init);
        assert(after == mid.mark_changed(last));
        assert(order.contains(uuid) <==> init.contains(uuid) || last == uuid) by {
            if order.contains(uuid) {
                let j = choose|j: int| 0 <= j < order.len() && order[j] == uuid;
                if j < init.len() {
                    assert(init[j] == uuid);
                }
            }
            if init.contains(uuid) {
                let j = choose|j: int| 0 <= j < init.len() && init[j] == uuid;
                assert(order[j] == uuid);
            }
        }
        if s.by_uuid.contains_key(last) {
            let key = s.by_uuid[last];
            assert(s.loads.contains_key(key));
            assert(s.loads[key].wf());
            assert(mid.loads[key].versions == s.loads[key].versions);
            lemma_newest(s.loads[key].versions);
            assert(after.loads.dom() =~= s.loads.dom());
            if s.by_uuid.contains_key(uuid) && last != uuid {
                assert(s.by_uuid[uuid] != key);
            }
            let n = mid.pending_reloads.len() as int;
            assert(after.pending_reloads[n].asset_id.0 == last);
            assert forall|i: int| 0 <= i < n implies #[trigger] after.pending_reloads[i]
                == mid.pending_reloads[i] by {}
            if exists|i: int|
                0 <= i < n && (#[trigger] mid.pending_reloads[i]).asset_id.0 == uuid {
                let i = choose|i: int|
                    0 <= i < n && (#[trigger] mid.pending_reloads[i]).asset_id.0 == uuid;
                assert(after.pending_reloads[i].asset_id.0 == uuid);
            }
        }
    } else {
        assert(!order.contains(uuid));
    }
}

} // verus!
