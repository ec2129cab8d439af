//! Assets that have changed, and how their new versions come into use.

use vstd::prelude::*;
use crate::error::ErrorView;
use crate::ids::{AssetUuid, LoadHandle};
use crate::load::{LoadState, LoadView, VersionQuery, VersionView};
use crate::load_ops::OpMessage;
use crate::model::{LoaderView, PendingReload, Stop};
use crate::storage::StorageCall;
use crate::load::{is_first, lemma_position_some, newest};
use crate::load_states::lemma_newest;
use crate::model::{distinct_handles, distinct_reloads};
use crate::laws::versions::{
    law_commit_leaves_one_version_in_use, lemma_loaded_versions_stay, lemma_retained_all,
};

verus! {

impl LoaderView {
    /// In a later state it is noted that an asset has changed, if the asset has a version: a reload
    /// is pending, and the newest version before it is remembered.
    pub open spec fn change_noted(self, after: LoaderView, uuid: u128) -> bool {
        self.load_of_asset(uuid) matches Some(load) ==> load.versions.len() > 0 ==> {
            &&& after.loads[self.by_uuid[uuid]].pending_reload
            &&& after.pending_reloads.contains(
                PendingReload {
                    asset_id: AssetUuid(uuid),
                    version_before: newest(load.versions),
                },
            )
        }
    }
}

/// When no reload is pending, every asset that was invalidated and has a version is to be reloaded;
/// no load changes otherwise, and nothing is left to look at.
pub proof fn law_invalidated_assets_are_reloaded(
    s: LoaderView,
    log: Seq<StorageCall>,
    after: LoaderView,
    after_log: Seq<StorageCall>,
)
    requires
        s.wf(),
        s.pending_reloads.len() == 0,
        s.may_change_assets(log, after_log, Ok(after)),
    ensures
        after_log == log,
        after.invalidated.len() == 0,
        after.by_uuid == s.by_uuid,
        forall|uuid: u128| #[trigger]
            s.invalidated.contains(uuid) ==> s.change_noted(after, uuid),
        forall|key: u64| #[trigger]
            s.loads.contains_key(key) ==> after.loads.contains_key(key) && after.loads[key] == (
            LoadView { pending_reload: after.loads[key].pending_reload, ..s.loads[key] }),
{
    let begun = s.drained();
    let order = choose|order: Seq<u128>|
        {
            &&& order.no_duplicates()
            &&& order.to_set() == s.invalidated.to_set()
            &&& Ok::<LoaderView, ErrorView>(after) == Ok::<LoaderView, ErrorView>(
                #[trigger] begun.mark_all_changed(order),
            )
        };
    lemma_mark_all_changed(begun, order);
    assert forall|uuid: u128| #[trigger] s.invalidated.contains(uuid) implies s.change_noted(
        after,
        uuid,
    ) by {
        assert(s.invalidated.to_set().contains(uuid));
        assert(order.to_set().contains(uuid));
        let i = choose|i: int| 0 <= i < order.len() && order[i] == uuid;
        assert(begun.change_noted(after, order[i]));
    }
    assert forall|key: u64| #[trigger] s.loads.contains_key(key) implies after.loads.contains_key(
        key,
    ) && after.loads[key] == (LoadView {
        pending_reload: after.loads[key].pending_reload,
        ..s.loads[key]
    }) by {
        assert(begun.loads.contains_key(key));
    }
}

/// A reload that is pending starts, in a pass, once the asset is referenced and all its versions
/// are in use: there is a new version with the next number, which is not committed automatically,
/// and nothing else changes.
pub proof fn law_pending_reload_starts(s: LoaderView, key: u64, fresh: Map<u128, u64>)
    requires
        s.loads.contains_key(key),
        s.loads[key].starts_reload(),
        s.loads[key].numbered(),
        s.loads[key].version_counter < u32::MAX,
    ensures
        s.step_load(key, fresh) == Ok::<(LoaderView, Seq<StorageCall>), Stop>(
            (
                s.with_load(
                    key,
                    LoadView {
                        pending_reload: false,
                        version_counter: (s.loads[key].version_counter + 1) as u32,
                        versions: s.loads[key].versions.push(
                            VersionView {
                                state: LoadState::WaitingForMetadata,
                                metadata: None,
                                asset_type: None,
                                auto_commit: false,
                                version: (s.loads[key].version_counter + 1) as u32,
                            },
                        ),
                        ..s.loads[key]
                    },
                ),
                Seq::empty(),
            ),
        ),
{
    let load = s.loads[key];
    let started = s.started(key);
    let begun = s.with_load(key, started);
    let number = (load.version_counter + 1) as u32;
    let v = VersionView::fresh(number, false, None);
    let w = VersionView { state: LoadState::WaitingForMetadata, ..v };
    assert(started.versions == load.versions.push(v));
    assert(started.versions.drop_last() =~= load.versions);
    lemma_newest(load.versions);
    assert(newest(load.versions) <= load.version_counter) by {
        if load.versions.len() > 0 {
            let k = choose|k: int|
                0 <= k < load.versions.len() && (#[trigger] load.versions[k]).version == newest(
                    load.versions,
                );
            assert(load.versions[k].version <= load.version_counter);
        }
    }
    assert(newest(started.versions) == number);
    lemma_loaded_versions_stay(begun, key, number, load.versions, fresh);
    let p = begun.step_versions(key, true, number, started.versions, fresh)->Ok_0;
    assert(p.versions =~= load.versions.push(w));
    assert(p.calls =~= Seq::empty());
    assert(p.stale =~= Seq::empty());
    lemma_retained_all(p.versions);
    assert((s.step_load(key, fresh)->Ok_0).0 =~= s.with_load(
        key,
        LoadView {
            pending_reload: false,
            version_counter: number,
            versions: load.versions.push(w),
            ..load
        },
    ));
}

/// A version that is not committed automatically does not come into use when the storage has loaded
/// it: it waits, the storage is not called, and every other version stays as it is.
pub proof fn law_reload_waits_for_commit(
    s: LoaderView,
    handle: LoadHandle,
    version: u32,
    i: int,
)
    requires
        s.find_version(handle, version) == Ok::<int, ErrorView>(i),
        !s.loads[handle.0].versions[i].auto_commit,
    ensures
        s.receive_op(OpMessage::Complete(handle, version)) == Ok::<
            (LoaderView, Seq<StorageCall>),
            Stop,
        >(
            (
                s.with_load(
                    handle.0,
                    s.loads[handle.0].with_state(i, LoadState::LoadedUncommitted),
                ),
                Seq::empty(),
            ),
        ),
{
}

/// As long as one of the pending reloads is not finished, none of them comes into use, and no new
/// ones are started. When looking for changed assets calls the storage at all, all of them are
/// finished.
pub proof fn law_reloads_wait_for_each_other(
    s: LoaderView,
    log: Seq<StorageCall>,
    after_log: Seq<StorageCall>,
    out: Result<LoaderView, ErrorView>,
)
    requires
        s.may_change_assets(log, after_log, out),
    ensures
        s.pending_reloads.len() > 0 && !s.reloads_finished() ==> out == Ok::<LoaderView, ErrorView>(
            s,
        ) && after_log == log,
        after_log != log ==> s.pending_reloads.len() > 0 && s.reloads_finished(),
        out is Err ==> s.pending_reloads.len() > 0 && s.reloads_finished(),
{
}

impl LoaderView {
    /// The load of a reload's asset, and what committing the reload makes of it.
    pub open spec fn reload_committed(self, after: LoaderView, reload: PendingReload) -> bool {
        self.load_of_asset(reload.asset_id.0) matches Some(load) ==> {
            let key = self.by_uuid[reload.asset_id.0];
            load.commit_reload(LoadHandle(key)) matches Ok((committed, calls)) && {
                if load.reload_idle(reload.version_before) {
                    &&& after.loads[key] == (LoadView { pending_reload: false, ..committed })
                    &&& after.invalidated.contains(reload.asset_id.0)
                } else {
                    after.loads[key] == committed
                }
            }
        }
    }
}

/// When the pending reloads come into use, all of them do: of each asset, the version that waited
/// for being committed is in use, every other version is to be unloaded, and none is left waiting.
pub proof fn law_reloads_come_into_use_together(
    s: LoaderView,
    after: LoaderView,
    calls: Seq<StorageCall>,
    reload: PendingReload,
    load: LoadView,
    place: int,
)
    requires
        s.wf(),
        distinct_handles(s.by_uuid),
        s.commit_reloads(s.pending_reloads) == Ok::<(LoaderView, Seq<StorageCall>), Stop>(
            (after, calls),
        ),
        s.pending_reloads.contains(reload),
        s.load_of_asset(reload.asset_id.0) == Some(load),
        is_first(load.versions, VersionQuery::InState(LoadState::LoadedUncommitted), place),
    ensures
        after.load_of_asset(reload.asset_id.0) matches Some(committed) && {
            &&& committed.versions.len() == load.versions.len()
            &&& forall|i: int|
                0 <= i < load.versions.len() ==> (#[trigger] committed.versions[i]).state == (
                if i == place {
                    LoadState::Loaded
                } else {
                    LoadState::UnloadRequested
                })
        },
{
    lemma_commit_reloads(s, s.pending_reloads);
    let k = choose|k: int| 0 <= k < s.pending_reloads.len() && s.pending_reloads[k] == reload;
    assert(s.reload_committed(after, s.pending_reloads[k]));
    let key = s.by_uuid[reload.asset_id.0];
    assert(s.loads.contains_key(key));
    lemma_position_some(
        load.versions,
        VersionQuery::InState(LoadState::LoadedUncommitted),
        place,
    );
    let version = load.versions[place].version;
    law_commit_leaves_one_version_in_use(load, LoadHandle(key), version);
    let committed = (load.commit(LoadHandle(key), version)->Ok_0).0;
    assert(after.loads[key].versions == committed.versions);
    assert forall|i: int| 0 <= i < load.versions.len() implies (
    #[trigger] committed.versions[i]).state == (if i == place {
        LoadState::Loaded
    } else {
        LoadState::UnloadRequested
    }) by {
        assert(committed.versions[i].version == load.versions[i].version);
        if i < place {
            assert(load.versions[i].version < load.versions[place].version);
        } else if i > place {
            assert(load.versions[place].version < load.versions[i].version);
        }
    }
}

/// A reload that is of no use, as nothing refers to the asset and no newer version is on its way,
/// holds up no other. The change is not forgotten: the asset is no longer marked, but it counts as
/// invalidated again.
pub proof fn law_idle_reload_is_put_off(
    s: LoaderView,
    after: LoaderView,
    calls: Seq<StorageCall>,
    reload: PendingReload,
    load: LoadView,
)
    requires
        s.wf(),
        distinct_handles(s.by_uuid),
        s.commit_reloads(s.pending_reloads) == Ok::<(LoaderView, Seq<StorageCall>), Stop>(
            (after, calls),
        ),
        s.pending_reloads.contains(reload),
        s.load_of_asset(reload.asset_id.0) == Some(load),
        load.reload_idle(reload.version_before),
    ensures
        s.reload_finished(reload),
        after.invalidated.contains(reload.asset_id.0),
        after.load_of_asset(reload.asset_id.0) matches Some(l) && !l.pending_reload,
{
    lemma_commit_reloads(s, s.pending_reloads);
    let k = choose|k: int| 0 <= k < s.pending_reloads.len() && s.pending_reloads[k] == reload;
    assert(s.reload_committed(after, s.pending_reloads[k]));
    assert(s.loads.contains_key(s.by_uuid[reload.asset_id.0]));
}

/// What marking assets as changed does: nothing but the mark differs in any load, every marked
/// asset that has a version is to be reloaded, and its newest version is remembered.
proof fn lemma_mark_all_changed(s: LoaderView, order: Seq<u128>)
    requires
        s.covered(),
    ensures
        s.mark_all_changed(order).by_uuid == s.by_uuid,
        s.mark_all_changed(order).loads.dom() == s.loads.dom(),
        s.mark_all_changed(order).covered(),
        s.mark_all_changed(order).invalidated == s.invalidated,
        forall|key: u64| #[trigger]
            s.loads.contains_key(key) ==> {
                &&& s.mark_all_changed(order).loads[key] == (LoadView {
                    pending_reload: s.mark_all_changed(order).loads[key].pending_reload,
                    ..s.loads[key]
                })
                &&& s.loads[key].pending_reload
                    ==> s.mark_all_changed(order).loads[key].pending_reload
            },
        forall|i: int|
            0 <= i < s.pending_reloads.len() ==> s.mark_all_changed(
                order,
            ).pending_reloads.contains(#[trigger] s.pending_reloads[i]),
        forall|i: int|
            0 <= i < order.len() ==> s.change_noted(s.mark_all_changed(order), #[trigger] order[i]),
    decreases order.len(),
{
    let after = s.mark_all_changed(order);
    if order.len() > 0 {
        let init = order.drop_last();
        let mid = s.mark_all_changed(init);
        lemma_mark_all_changed(s, init);
        let uuid = order.last();
        assert(after == mid.mark_changed(uuid));
        assert(after.loads.dom() =~= s.loads.dom());
        assert forall|r: PendingReload|
            mid.pending_reloads.contains(r) implies after.pending_reloads.contains(r) by {
            let k = choose|k: int|
                0 <= k < mid.pending_reloads.len() && mid.pending_reloads[k] == r;
            assert(after.pending_reloads[k] == r);
        }
        assert forall|i: int| 0 <= i < order.len() implies s.change_noted(
            after,
            #[trigger] order[i],
        ) by {
            if i < init.len() {
                assert(init[i] == order[i]);
                assert(s.change_noted(mid, init[i]));
            } else if s.by_uuid.contains_key(uuid) {
                let key = s.by_uuid[uuid];
                assert(s.loads.contains_key(key));
                if s.loads[key].versions.len() > 0 {
                    assert(after.pending_reloads[after.pending_reloads.len() - 1]
                        == (PendingReload {
                        asset_id: AssetUuid(uuid),
                        version_before: newest(s.loads[key].versions),
                    }));
                }
            }
        }
    } else {
        assert forall|i: int| 0 <= i < s.pending_reloads.len() implies after.pending_reloads.contains(
            #[trigger] s.pending_reloads[i],
        ) by {
            assert(after.pending_reloads[i] == s.pending_reloads[i]);
        }
    }
}

/// Committing reloads commits each of them, and leaves the loads of other assets as they are.
pub proof fn lemma_commit_reloads(s: LoaderView, reloads: Seq<PendingReload>)
    requires
        s.covered(),
        distinct_handles(s.by_uuid),
        distinct_reloads(reloads),
        s.commit_reloads(reloads) is Ok,
    ensures
        s.commit_reloads(reloads) matches Ok((after, calls)) && {
            &&& after.by_uuid == s.by_uuid
            &&& after.loads.dom() == s.loads.dom()
            &&& forall|i: int|
                0 <= i < reloads.len() ==> s.reload_committed(after, #[trigger] reloads[i])
            &&& forall|uuid: u128| #[trigger]
                s.by_uuid.contains_key(uuid) && (forall|i: int|
                    0 <= i < reloads.len() ==> (#[trigger] reloads[i]).asset_id.0 != uuid)
                    ==> after.loads[s.by_uuid[uuid]] == s.loads[s.by_uuid[uuid]]
        },
    decreases reloads.len(),
{
    if reloads.len() > 0 {
        let init = reloads.drop_last();
        let reload = reloads.last();
        let uuid = reload.asset_id.0;
        assert forall|i: int, j: int| 0 <= i < j < init.len() implies (
        #[trigger] init[i]).asset_id != (#[trigger] init[j]).asset_id by {
            assert(init[i] == reloads[i] && init[j] == reloads[j]);
        }
        lemma_commit_reloads(s, init);
        let (mid, some) = s.commit_reloads(init)->Ok_0;
        let (after, all) = s.commit_reloads(reloads)->Ok_0;
        let more = (mid.commit_reload(reload)->Ok_0).1;
        assert(reloads[reloads.len() - 1] == reload);
        assert forall|other: u128|
            mid.invalidated.contains(other) implies after.invalidated.contains(other) by {
            let j = choose|j: int| 0 <= j < mid.invalidated.len() && mid.invalidated[j] == other;
            assert(after.invalidated[j] == other);
        }
        if after.invalidated.len() > mid.invalidated.len() {
            assert(after.invalidated[mid.invalidated.len() as int] == uuid);
        }
        assert forall|i: int| 0 <= i < init.len() implies (#[trigger] init[i]).asset_id.0 != uuid by {
            assert(init[i] == reloads[i]);
            assert(reloads[i].asset_id != reloads[reloads.len() - 1].asset_id);
        }
        if s.by_uuid.contains_key(uuid) {
            let key = s.by_uuid[uuid];
            assert(s.loads.contains_key(key));
            assert(mid.loads[key] == s.loads[key]);
        }
        assert(after.loads.dom() =~= s.loads.dom());
        assert forall|i: int| 0 <= i < reloads.len() implies s.reload_committed(
            after,
            #[trigger] reloads[i],
        ) by {
            if i < init.len() {
                assert(init[i] == reloads[i]);
                assert(s.reload_committed(mid, init[i]));
                let other = reloads[i].asset_id.0;
                assert(other != uuid);
                if s.by_uuid.contains_key(other) && s.by_uuid.contains_key(uuid) {
                    assert(s.by_uuid[other] != s.by_uuid[uuid]);
                }
            }
        }
        assert forall|other: u128|
            #[trigger] s.by_uuid.contains_key(other) && (forall|i: int|
                0 <= i < reloads.len() ==> (#[trigger] reloads[i]).asset_id.0
                    != other) implies after.loads[s.by_uuid[other]] == s.loads[s.by_uuid[other]] by {
            assert forall|i: int| 0 <= i < init.len() implies (#[trigger] init[i]).asset_id.0
                != other by {
                assert(init[i] == reloads[i]);
            }
            assert(reloads[reloads.len() - 1].asset_id.0 != other);
            if s.by_uuid.contains_key(uuid) {
                assert(s.by_uuid[other] != s.by_uuid[uuid]);
            }
        }
    }
}

} // verus!
