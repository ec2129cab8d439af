//! Reloads the assets that have changed.
//!
//! Assets that are invalidated together are reloaded together: the new versions come into use when
//! the storage has loaded all of them.

use vstd::prelude::*;
use std::collections::HashSet;
use crate::error::{ErrorView, LoaderError};
use crate::ids::{AssetUuid, LoadHandle};
use crate::load::{AssetLoad, LoadState, LoadView, VersionQuery, VersionView};
use crate::load::commit_asset;
use crate::load::{newest, position};
use crate::maps::guard_value;
use crate::model::{LoaderView, PendingReload, Stop};
use crate::model::{came_to, distinct_reloads, outcome};
use crate::state::LoaderState;
use crate::storage::{AssetStorage, HandleAllocator, StorageCall};

verus! {

/// The storage has loaded a version that is newer than a given one.
pub open spec fn newer_in_storage(versions: Seq<VersionView>, version: u32) -> bool {
    exists|i: int|
        0 <= i < versions.len() && (#[trigger] versions[i]).state.in_storage()
            && versions[i].version > version
}

/// A version that is newer than a given one is being loaded.
pub open spec fn newer_on_its_way(versions: Seq<VersionView>, version: u32) -> bool {
    exists|i: int|
        0 <= i < versions.len() && (#[trigger] versions[i]).state.on_its_way()
            && versions[i].version > version
}

impl LoadView {
    /// A reload is of no use at the moment: nothing refers to the asset, and no version that is
    /// newer than the one before the reload is loaded or being loaded.
    pub open spec fn reload_idle(self, version_before: u32) -> bool {
        &&& self.refs == 0
        &&& !newer_in_storage(self.versions, version_before)
        &&& !newer_on_its_way(self.versions, version_before)
    }

    /// What committing the first version that waits for it comes to.
    pub open spec fn commit_reload(self, handle: LoadHandle) -> Result<
        (LoadView, Seq<StorageCall>),
        Stop,
    > {
        match position(self.versions, VersionQuery::InState(LoadState::LoadedUncommitted)) {
            None => Ok((self, Seq::empty())),
            Some(i) => match self.commit(handle, self.versions[i].version) {
                Err(e) => Err(Stop::at_once(e)),
                Ok((after, call)) => Ok((after, seq![call])),
            },
        }
    }
}

impl LoaderView {
    /// The load of an asset, if it has one.
    pub open spec fn load_of_asset(self, uuid: u128) -> Option<LoadView> {
        if self.by_uuid.contains_key(uuid) && self.loads.contains_key(self.by_uuid[uuid]) {
            Some(self.loads[self.by_uuid[uuid]])
        } else {
            None
        }
    }

    /// The state after the invalidated assets were looked at.
    pub open spec fn drained(self) -> LoaderView {
        LoaderView { invalidated: Seq::empty(), ..self }
    }

    /// The state after an asset was found to have changed: if the asset has a version, a reload is
    /// pending.
    pub open spec fn mark_changed(self, uuid: u128) -> LoaderView {
        match self.load_of_asset(uuid) {
            Some(load) => if load.versions.len() > 0 {
                LoaderView {
                    pending_reloads: self.pending_reloads.push(
                        PendingReload {
                            asset_id: AssetUuid(uuid),
                            version_before: newest(load.versions),
                        },
                    ),
                    ..self.with_load(self.by_uuid[uuid], LoadView { pending_reload: true, ..load })
                }
            } else {
                self
            },
            None => self,
        }
    }

    /// The state after assets were found to have changed, one after the other.
    pub open spec fn mark_all_changed(self, uuids: Seq<u128>) -> LoaderView
        decreases uuids.len(),
    {
        if uuids.len() == 0 {
            self
        } else {
            self.mark_all_changed(uuids.drop_last()).mark_changed(uuids.last())
        }
    }

    /// A reload is finished: the storage has loaded a version that is newer than the one before the
    /// reload, or the asset is not supposed to be loaded, as nothing refers to it any more and no
    /// such version is on its way.
    pub open spec fn reload_finished(self, reload: PendingReload) -> bool {
        match self.load_of_asset(reload.asset_id.0) {
            Some(load) => newer_in_storage(load.versions, reload.version_before)
                || load.reload_idle(reload.version_before),
            None => true,
        }
    }

    /// All pending reloads are finished.
    pub open spec fn reloads_finished(self) -> bool {
        forall|i: int|
            0 <= i < self.pending_reloads.len() ==> self.reload_finished(
                #[trigger] self.pending_reloads[i],
            )
    }

    /// What committing a reload comes to, and which calls are made to the storage. If the reload is
    /// of no use at the moment, the asset counts as invalidated again, so that it is reloaded once
    /// something refers to it.
    pub open spec fn commit_reload(self, reload: PendingReload) -> Result<
        (LoaderView, Seq<StorageCall>),
        Stop,
    > {
        let key = self.by_uuid[reload.asset_id.0];
        match self.load_of_asset(reload.asset_id.0) {
            Some(load) => match load.commit_reload(LoadHandle(key)) {
                Err(e) => Err(e),
                Ok((after, calls)) => if load.reload_idle(reload.version_before) {
                    Ok(
                        (
                            self.with_load(
                                key,
                                LoadView { pending_reload: false, ..after },
                            ).invalidate(seq![reload.asset_id.0]),
                            calls,
                        ),
                    )
                } else {
                    Ok((self.with_load(key, after), calls))
                },
            },
            None => Ok((self, Seq::empty())),
        }
    }

    /// What committing reloads comes to, one after the other, and which calls are made to the
    /// storage.
    pub open spec fn commit_reloads(self, reloads: Seq<PendingReload>) -> Result<
        (LoaderView, Seq<StorageCall>),
        Stop,
    >
        decreases reloads.len(),
    {
        if reloads.len() == 0 {
            Ok((self, Seq::empty()))
        } else {
            match self.commit_reloads(reloads.drop_last()) {
                Err(e) => Err(e),
                Ok((s, calls)) => match s.commit_reload(reloads.last()) {
                    Err(stop) => Err(stop.after(calls)),
                    Ok((t, more)) => Ok((t, calls + more)),
                },
            }
        }
    }

    /// What looking for changed assets may come to: reloads are started only when none is pending,
    /// and come into use only when all of them are finished. The order in which changed assets are
    /// seen to is left open.
    pub open spec fn may_change_assets(
        self,
        log: Seq<StorageCall>,
        after_log: Seq<StorageCall>,
        out: Result<LoaderView, ErrorView>,
    ) -> bool {
        if self.pending_reloads.len() == 0 {
            &&& after_log == log
            &&& exists|order: Seq<u128>|
                {
                    &&& order.no_duplicates()
                    &&& order.to_set() == self.invalidated.to_set()
                    &&& out == Ok::<LoaderView, ErrorView>(
                        #[trigger] self.drained().mark_all_changed(order),
                    )
                }
        } else if !self.reloads_finished() {
            out == Ok::<LoaderView, ErrorView>(self) && after_log == log
        } else {
            came_to(self.finish_reloads(), log, after_log, out)
        }
    }

    /// What committing the pending reloads comes to, and which calls are made to the storage.
    pub open spec fn finish_reloads(self) -> Result<(LoaderView, Seq<StorageCall>), Stop> {
        match self.commit_reloads(self.pending_reloads) {
            Ok((s, calls)) => Ok((LoaderView { pending_reloads: Seq::empty(), ..s }, calls)),
            Err(stop) => Err(stop),
        }
    }

    /// An error among the first reloads is the error of all.
    proof fn lemma_commit_reloads_err(self, reloads: Seq<PendingReload>, n: int)
        requires
            0 <= n <= reloads.len(),
            self.commit_reloads(reloads.take(n)) is Err,
        ensures
            self.commit_reloads(reloads) == self.commit_reloads(reloads.take(n)),
        decreases reloads.len(),
    {
        if n == reloads.len() {
            assert(reloads.take(n) =~= reloads);
        } else {
            assert(reloads.drop_last().take(n) =~= reloads.take(n));
            self.lemma_commit_reloads_err(reloads.drop_last(), n);
        }
    }
}

impl AssetLoad {
    /// Returns whether the storage has loaded a version that is newer than a given one.
    fn has_newer_in_storage(&self, version: u32) -> (r: bool)
        ensures
            r == newer_in_storage(self@.versions, version),
    {
        let mut i: usize = 0;
        while i < self.versions.len()
            invariant
                i <= self.versions.len(),
                forall|j: int|
                    0 <= j < i ==> !((#[trigger] self@.versions[j]).state.in_storage()
                        && self@.versions[j].version > version),
            decreases self.versions.len() - i,
        {
            assert(self@.versions[i as int] == self.versions@[i as int]@);
            if self.versions[i].state.is_in_storage() && self.versions[i].version > version {
                return true;
            }
            i = i + 1;
        }
        false
    }

    /// Returns whether a version that is newer than a given one is being loaded.
    fn has_newer_on_its_way(&self, version: u32) -> (r: bool)
        ensures
            r == newer_on_its_way(self@.versions, version),
    {
        let mut i: usize = 0;
        while i < self.versions.len()
            invariant
                i <= self.versions.len(),
                forall|j: int|
                    0 <= j < i ==> !((#[trigger] self@.versions[j]).state.on_its_way()
                        && self@.versions[j].version > version),
            decreases self.versions.len() - i,
        {
            assert(self@.versions[i as int] == self.versions@[i as int]@);
            if self.versions[i].state.is_on_its_way() && self.versions[i].version > version {
                return true;
            }
            i = i + 1;
        }
        false
    }

    /// Returns whether a reload is of no use at the moment.
    fn is_reload_idle(&self, version_before: u32) -> (r: bool)
        ensures
            r == self@.reload_idle(version_before),
    {
        self.refs == 0 && !self.has_newer_in_storage(version_before)
            && !self.has_newer_on_its_way(version_before)
    }
}

impl<A: HandleAllocator + ?Sized> LoaderState<A> {
    /// Takes the assets that were invalidated, each once.
    fn take_invalidated(&mut self) -> (r: Vec<u128>)
        requires
            old(self).wf(),
        ensures
            final(self).wf(),
            final(self).kept(*old(self)),
            final(self)@ == old(self)@.drained(),
            r@.no_duplicates(),
            r@.to_set() == old(self)@.invalidated.to_set(),
    {
        broadcast use vstd::std_specs::hash::group_hash_axioms;

        let ghost all = self@.invalidated;
        let mut seen: HashSet<u128> = HashSet::new();
        let mut changes: Vec<u128> = Vec::new();
        assert(seen@ =~= changes@.to_set());
        loop
            invariant
                self.wf(),
                self.kept(*old(self)),
                self@ == (LoaderView { invalidated: self@.invalidated, ..old(self)@ }),
                seen@ == changes@.to_set(),
                changes@.no_duplicates(),
                forall|uuid: u128| #[trigger]
                    all.contains(uuid) <==> changes@.contains(uuid) || self@.invalidated.contains(
                        uuid,
                    ),
            ensures
                self@.invalidated.len() == 0,
            decreases self@.invalidated.len(),
        {
            let ghost waiting = self@.invalidated;
            let ghost found = changes@;
            match self.pop_invalidated() {
                Some(uuid) => {
                    proof {
                        assert forall|other: u128|
                            waiting.contains(other) <==> other == uuid || self@.invalidated.contains(
                                other,
                            ) by {
                            if waiting.contains(other) && other != uuid {
                                let k = choose|k: int|
                                    0 <= k < waiting.len() && waiting[k] == other;
                                assert(self@.invalidated[k - 1] == other);
                            }
                            if self@.invalidated.contains(other) {
                                let k = choose|k: int|
                                    0 <= k < self@.invalidated.len() && self@.invalidated[k]
                                        == other;
                                assert(waiting[k + 1] == other);
                            }
                        }
                        assert(found.to_set().contains(uuid) == found.contains(uuid));
                        assert(found.push(uuid).to_set() =~= found.to_set().insert(uuid)) by {
                            lemma_push_contains(found, uuid);
                        }
                        lemma_push_contains(found, uuid);
                    }
                    if seen.insert(uuid) {
                        changes.push(uuid);
                    } else {
                        assert(seen@ =~= found.to_set());
                    }
                },
                None => break,
            }
        }
        proof {
            assert(self@.invalidated =~= Seq::empty());
            assert(changes@.to_set() =~= all.to_set());
        }
        changes
    }

    /// Notes that an asset has changed: if the asset has a version, a reload is pending.
    fn mark_changed(&mut self, uuid: u128, reloads: &mut Vec<PendingReload>)
        requires
            old(self).wf(),
        ensures
            final(self).wf(),
            final(self).kept(*old(self)),
            final(self)@.extends(old(self)@),
            final(self)@.invalidated == old(self)@.invalidated,
            (LoaderView { pending_reloads: final(reloads)@, ..final(self)@ }) == (LoaderView {
                pending_reloads: old(reloads)@,
                ..old(self)@
            }).mark_changed(uuid),
    {
        let key = match self.find_uuid(uuid) {
            Some(key) => key,
            None => {
                return;
            },
        };
        if let Some(mut load) = self.take_load(key) {
            if load.versions.len() > 0 {
                let version_before: u32 = load.newest_version();
                load.pending_reload = true;
                reloads.push(PendingReload { asset_id: AssetUuid(uuid), version_before });
            }
            self.put_load(key, load);
            assert(self@ =~= old(self)@.with_load(key, load@));
        }
        assert((LoaderView { pending_reloads: reloads@, ..self@ }) =~= (LoaderView {
            pending_reloads: old(reloads)@,
            ..old(self)@
        }).mark_changed(uuid));
    }

    /// Has the assets that were invalidated reloaded.
    pub fn start_reloads(&mut self)
        requires
            old(self).wf(),
            old(self)@.pending_reloads.len() == 0,
        ensures
            final(self).wf(),
            final(self).kept(*old(self)),
            final(self)@.extends(old(self)@),
            exists|order: Seq<u128>|
                {
                    &&& order.no_duplicates()
                    &&& order.to_set() == old(self)@.invalidated.to_set()
                    &&& final(self)@ == #[trigger] old(self)@.drained().mark_all_changed(order)
                },
    {
        let changes = self.take_invalidated();
        let ghost begun = self@;
        let mut reloads: Vec<PendingReload> = Vec::new();
        let mut i: usize = 0;
        proof {
            assert(begun.pending_reloads =~= Seq::empty());
            assert(changes@.take(0) =~= Seq::empty());
            assert((LoaderView { pending_reloads: reloads@, ..self@ }) =~= begun);
        }
        while i < changes.len()
            invariant
                i <= changes.len(),
                self.wf(),
                self.kept(*old(self)),
                self@.extends(old(self)@),
                (LoaderView { pending_reloads: reloads@, ..self@ }) == begun.mark_all_changed(
                    changes@.take(i as int),
                ),
                changes@.no_duplicates(),
                distinct_reloads(reloads@),
                forall|j: int|
                    0 <= j < reloads@.len() ==> changes@.take(i as int).contains(
                        (#[trigger] reloads@[j]).asset_id.0,
                    ),
            decreases changes.len() - i,
        {
            let ghost before = reloads@;
            assert(changes@.take(i + 1).drop_last() =~= changes@.take(i as int));
            self.mark_changed(changes[i], &mut reloads);
            proof {
                let uuid = changes@[i as int];
                assert(reloads@ == before || (reloads@.len() == before.len() + 1
                    && reloads@.drop_last() =~= before && reloads@.last().asset_id.0 == uuid));
                lemma_push_contains(changes@.take(i as int), uuid);
                assert(changes@.take(i + 1) =~= changes@.take(i as int).push(uuid));
                assert(!changes@.take(i as int).contains(uuid)) by {
                    if changes@.take(i as int).contains(uuid) {
                        let k = choose|k: int| 0 <= k < i && changes@.take(i as int)[k] == uuid;
                        assert(changes@[k] == changes@[i as int]);
                    }
                }
                assert forall|j: int| 0 <= j < before.len() implies reloads@[j] == before[j] by {
                    assert(reloads@ == before || reloads@.drop_last()[j] == before[j]);
                }
            }
            i = i + 1;
        }
        assert(changes@.take(changes.len() as int) =~= changes@);
        self.set_reloads(reloads);
    }

    /// Returns whether a reload is finished.
    fn is_reload_finished(&self, reload: &PendingReload) -> (r: bool)
        ensures
            r == self@.reload_finished(*reload),
    {
        match self.find_uuid(reload.asset_id.0) {
            Some(key) => match self.peek_load(key) {
                Some(guard) => {
                    let load = guard_value(&guard);
                    load.has_newer_in_storage(reload.version_before) || load.is_reload_idle(
                        reload.version_before,
                    )
                },
                None => true,
            },
            None => true,
        }
    }

    /// Returns whether all pending reloads are finished.
    pub fn is_reload_all_finished(&self) -> (r: bool)
        ensures
            r == self@.reloads_finished(),
    {
        let reloads = self.list_reloads();
        let mut i: usize = 0;
        while i < reloads.len()
            invariant
                i <= reloads.len(),
                reloads@ == self@.pending_reloads,
                forall|j: int|
                    0 <= j < i ==> self@.reload_finished(#[trigger] self@.pending_reloads[j]),
            decreases reloads.len() - i,
        {
            if !self.is_reload_finished(&reloads[i]) {
                return false;
            }
            i = i + 1;
        }
        true
    }

    /// Commits a reload.
    fn commit_reload<S: AssetStorage + ?Sized>(
        &mut self,
        reload: PendingReload,
        asset_storage: &mut S,
    ) -> (r: Result<(), LoaderError>)
        requires
            old(self).wf(),
        ensures
            final(self).wf(),
            final(self).kept(*old(self)),
            final(self)@.extends(old(self)@),
            came_to(
                old(self)@.commit_reload(reload),
                old(asset_storage).calls(),
                final(asset_storage).calls(),
                outcome(r, final(self)@),
            ),
    {
        assert(asset_storage.calls() + Seq::<StorageCall>::empty() =~= asset_storage.calls());
        let key = match self.find_uuid(reload.asset_id.0) {
            Some(key) => key,
            None => {
                return Ok(());
            },
        };
        match self.take_load(key) {
            Some(mut load) => {
                let ghost before = load@;
                let idle: bool = load.is_reload_idle(reload.version_before);
                let r = match load.find(VersionQuery::InState(LoadState::LoadedUncommitted)) {
                    Some(i) => {
                        assert(load@.versions[i as int] == load.versions@[i as int]@);
                        let version: u32 = load.versions[i].version;
                        commit_asset(LoadHandle(key), &mut load, version, asset_storage)
                    },
                    None => Ok(()),
                };
                let ghost committed = load@;
                if idle && r.is_ok() {
                    load.pending_reload = false;
                }
                self.put_load(key, load);
                if idle && r.is_ok() {
                    self.push_invalidated(reload.asset_id.0);
                }
                proof {
                    if idle && r is Ok {
                        assert(self@ =~= old(self)@.with_load(
                            key,
                            LoadView { pending_reload: false, ..committed },
                        ).invalidate(seq![reload.asset_id.0]));
                    } else {
                        assert(self@ =~= old(self)@.with_load(key, load@));
                    }
                    assert forall|i: int| 0 <= i < load@.versions.len() implies (
                    #[trigger] load@.versions[i]).wf() by {
                        assert(before.versions[i].wf());
                    }
                    if let Ok((after, calls)) = before.commit_reload(LoadHandle(key)) {
                        assert(asset_storage.calls() =~= old(asset_storage).calls() + calls);
                    }
                }
                r
            },
            None => {
                assert(self@ =~= old(self)@);
                Ok(())
            },
        }
    }

    /// Commits the pending reloads.
    pub fn commit_reloads<S: AssetStorage + ?Sized>(&mut self, asset_storage: &mut S) -> (r: Result<
        (),
        LoaderError,
    >)
        requires
            old(self).wf(),
        ensures
            final(self).wf(),
            final(self).kept(*old(self)),
            final(self)@.extends(old(self)@),
            came_to(
                old(self)@.finish_reloads(),
                old(asset_storage).calls(),
                final(asset_storage).calls(),
                outcome(r, final(self)@),
            ),
    {
        let ghost reloads = self@.pending_reloads;
        let mut i: usize = 0;
        proof {
            assert(reloads.take(0) =~= Seq::empty());
            assert(asset_storage.calls() + Seq::<StorageCall>::empty() =~= asset_storage.calls());
        }
        while i < self.list_reloads().len()
            invariant
                i <= reloads.len(),
                reloads == old(self)@.pending_reloads,
                self@.pending_reloads == reloads,
                self.wf(),
                self.kept(*old(self)),
                self@.extends(old(self)@),
                old(self)@.commit_reloads(reloads.take(i as int)) matches Ok((s, calls)) && self@
                    == s && asset_storage.calls() == old(asset_storage).calls() + calls,
            decreases reloads.len() - i,
        {
            let ghost before = self@;
            let ghost calls = (old(self)@.commit_reloads(reloads.take(i as int))->Ok_0).1;
            assert(reloads.take(i + 1).drop_last() =~= reloads.take(i as int));
            let reload = self.list_reloads()[i];
            let committed = self.commit_reload(reload, asset_storage);
            if let Err(error) = committed {
                proof {
                    let stop = before.commit_reload(reload)->Err_0;
                    assert(asset_storage.calls() =~= old(asset_storage).calls() + (calls
                        + stop.calls));
                    old(self)@.lemma_commit_reloads_err(reloads, i + 1);
                }
                return Err(error);
            }
            proof {
                let more = (before.commit_reload(reload)->Ok_0).1;
                assert(asset_storage.calls() =~= old(asset_storage).calls() + (calls + more));
            }
            i = i + 1;
        }
        assert(reloads.take(reloads.len() as int) =~= reloads);
        let none: Vec<PendingReload> = Vec::new();
        assert(none@ =~= Seq::empty());
        self.set_reloads(none);
        Ok(())
    }

    /// Looks for assets that have changed. As long as reloads are pending, no new ones are started.
    /// Once all of them are finished, they come into use together.
    pub fn process_asset_changes<S: AssetStorage + ?Sized>(&mut self, asset_storage: &mut S) -> (r:
        Result<(), LoaderError>)
        requires
            old(self).wf(),
        ensures
            final(self).wf(),
            final(self).kept(*old(self)),
            final(self)@.extends(old(self)@),
            old(self)@.may_change_assets(
                old(asset_storage).calls(),
                final(asset_storage).calls(),
                outcome(r, final(self)@),
            ),
    {
        if self.list_reloads().len() == 0 {
            self.start_reloads();
            Ok(())
        } else if self.is_reload_all_finished() {
            self.commit_reloads(asset_storage)
        } else {
            Ok(())
        }
    }
}

/// A sequence with an item appended holds that item and what it held before.
proof fn lemma_push_contains(s: Seq<u128>, item: u128)
    ensures
        forall|other: u128| #[trigger]
            s.push(item).contains(other) <==> other == item || s.contains(other),
{
    assert forall|other: u128| #[trigger]
        s.push(item).contains(other) <==> other == item || s.contains(other) by {
        if s.contains(other) {
            let k = choose|k: int| 0 <= k < s.len() && s[k] == other;
            assert(s.push(item)[k] == other);
        }
        assert(s.push(item)[s.len() as int] == item);
    }
}

} // verus!
