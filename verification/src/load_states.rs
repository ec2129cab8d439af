//! Takes the versions of the assets from state to state.

use vstd::prelude::*;
use crate::error::{ErrorView, LoaderError};
use crate::ids::{AssetRef, LoadHandle, RefView};
use crate::ids::ref_views;
use crate::load::{AssetVersionLoad, LoadState, LoadView, VersionView};
use crate::load::{all_in_storage, newest, version_views};
use crate::maps::guard_value;
use crate::metadata::MetadataView;
use crate::model::{LoaderView, Stop};
use crate::model::{
    came_to, distinct_handles, lemma_part_distinct, outcome, part_of,
};
use crate::state::LoaderState;
use crate::storage::{AssetStorage, HandleAllocator, StorageCall};

verus! {

/// What becomes of one version in a pass.
pub struct VersionStep {
    /// The state after the step.
    pub loader: LoaderView,
    /// The version after the step.
    pub version: VersionView,
    /// The calls made to the storage.
    pub calls: Seq<StorageCall>,
    /// Whether the version is superseded and to be removed.
    pub stale: bool,
}

/// What becomes of several versions of a load in a pass.
pub struct VersionsStep {
    /// The state after the step.
    pub loader: LoaderView,
    /// The versions after the step.
    pub versions: Seq<VersionView>,
    /// The calls made to the storage.
    pub calls: Seq<StorageCall>,
    /// The numbers of the versions to be removed.
    pub stale: Seq<u32>,
}

/// What a version depends on.
pub open spec fn deps_of(metadata: Option<MetadataView>) -> Seq<RefView> {
    match metadata {
        Some(m) => m.load_deps,
        None => Seq::empty(),
    }
}

/// The calls by which the storage gives a version up, if it holds the version.
pub open spec fn free_calls(handle: LoadHandle, v: VersionView) -> Seq<StorageCall> {
    match v.asset_type {
        Some(asset_type) => seq![StorageCall::Free { asset_type, handle, version: v.version }],
        None => Seq::empty(),
    }
}

/// The versions that remain when those with the given numbers are removed.
pub open spec fn retained(versions: Seq<VersionView>, stale: Seq<u32>) -> Seq<VersionView> {
    versions.filter(|v: VersionView| !stale.contains(v.version))
}

impl LoaderView {
    /// The storage has loaded every version of an asset that is given by its UUID.
    pub open spec fn dep_ready(self, dep: RefView) -> bool {
        &&& dep is Uuid
        &&& self.by_uuid.contains_key(dep->Uuid_0.0)
        &&& self.loads.contains_key(self.by_uuid[dep->Uuid_0.0])
        &&& all_in_storage(self.loads[self.by_uuid[dep->Uuid_0.0]].versions)
    }

    /// `i` is the place of the first dependency that is not ready.
    pub open spec fn is_first_unready(self, deps: Seq<RefView>, i: int) -> bool {
        &&& 0 <= i < deps.len()
        &&& !self.dep_ready(deps[i])
        &&& forall|j: int| 0 <= j < i ==> self.dep_ready(#[trigger] deps[j])
    }

    /// Whether all dependencies are ready. A dependency that is given by a path is an error, unless
    /// one before it is not ready.
    pub open spec fn deps_ready(self, deps: Seq<RefView>, handle: LoadHandle, version: u32) -> Result<
        bool,
        ErrorView,
    > {
        if exists|i: int| self.is_first_unready(deps, i) {
            let i = choose|i: int| self.is_first_unready(deps, i);
            if deps[i] is Path {
                Err(ErrorView::ExpectedUuid(handle, version))
            } else {
                Ok(false)
            }
        } else {
            Ok(true)
        }
    }

    /// The state with each dependency that is given by its UUID referenced once more.
    pub open spec fn add_dep_refs(self, deps: Seq<RefView>, fresh: Map<u128, u64>) -> LoaderView
        decreases deps.len(),
    {
        if deps.len() == 0 {
            self
        } else {
            let s = self.add_dep_refs(deps.drop_last(), fresh);
            match deps.last() {
                RefView::Uuid(uuid) => s.add_refs(uuid.0, 1, fresh),
                RefView::Path(_) => s,
            }
        }
    }

    /// The state with each dependency referenced once less.
    pub open spec fn remove_dep_refs(
        self,
        deps: Seq<RefView>,
        handle: LoadHandle,
        version: u32,
    ) -> Result<LoaderView, ErrorView>
        decreases deps.len(),
    {
        if deps.len() == 0 {
            Ok(self)
        } else {
            match self.remove_dep_refs(deps.drop_last(), handle, version) {
                Err(e) => Err(e),
                Ok(s) => match deps.last() {
                    RefView::Path(_) => Err(ErrorView::ExpectedUuid(handle, version)),
                    RefView::Uuid(uuid) => if s.by_uuid.contains_key(uuid.0) {
                        Ok(s.remove_refs(LoadHandle(s.by_uuid[uuid.0]), 1))
                    } else {
                        Err(ErrorView::MissingDependency(uuid))
                    },
                },
            }
        }
    }

    /// The step of a version that only changes its state.
    pub open spec fn plain_step(self, v: VersionView, state: LoadState) -> VersionStep {
        VersionStep {
            loader: self,
            version: VersionView { state, ..v },
            calls: Seq::empty(),
            stale: false,
        }
    }

    /// What becomes of a version of the load at `key` in a pass. `has_refs` says whether the asset
    /// is referenced, and `newest` is the number of its newest version.
    pub open spec fn step_version(
        self,
        key: u64,
        has_refs: bool,
        newest: u32,
        v: VersionView,
        fresh: Map<u128, u64>,
    ) -> Result<VersionStep, Stop> {
        let handle = LoadHandle(key);
        match v.state {
            // A version is removed if there is a newer one.
            LoadState::Idle => if newest > v.version {
                Ok(VersionStep { stale: true, ..self.plain_step(v, LoadState::Idle) })
            } else if !has_refs {
                Ok(self.plain_step(v, LoadState::Idle))
            } else if v.metadata is Some {
                Ok(self.plain_step(v, LoadState::RequestDependencies))
            } else {
                Ok(self.plain_step(v, LoadState::WaitingForMetadata))
            },
            LoadState::WaitingForMetadata => if v.metadata is Some {
                Ok(self.plain_step(v, LoadState::RequestDependencies))
            } else {
                Ok(self.plain_step(v, LoadState::WaitingForMetadata))
            },
            LoadState::RequestDependencies => Ok(
                self.add_dep_refs(deps_of(v.metadata), fresh).plain_step(
                    v,
                    LoadState::WaitingForDependencies,
                ),
            ),
            LoadState::WaitingForDependencies => match self.deps_ready(
                deps_of(v.metadata),
                handle,
                v.version,
            ) {
                Err(e) => Err(Stop::at_once(e)),
                Ok(true) => Ok(self.plain_step(v, LoadState::WaitingForData)),
                Ok(false) => Ok(self.plain_step(v, LoadState::WaitingForDependencies)),
            },
            LoadState::Loaded => if has_refs {
                Ok(self.plain_step(v, LoadState::Loaded))
            } else {
                Ok(self.plain_step(v, LoadState::UnloadRequested))
            },
            // The storage gives the version up, and the dependencies are released.
            LoadState::UnloadRequested => match self.remove_dep_refs(
                deps_of(v.metadata),
                handle,
                v.version,
            ) {
                Err(e) => Err(Stop { error: e, calls: free_calls(handle, v) }),
                Ok(s) => Ok(
                    VersionStep {
                        loader: s,
                        version: VersionView {
                            state: LoadState::Unloading,
                            asset_type: None,
                            ..v
                        },
                        calls: free_calls(handle, v),
                        stale: false,
                    },
                ),
            },
            LoadState::Unloading => Ok(self.plain_step(v, LoadState::Idle)),
            _ => Ok(self.plain_step(v, v.state)),
        }
    }

    /// What becomes of versions of the load at `key` in a pass, one after the other.
    pub open spec fn step_versions(
        self,
        key: u64,
        has_refs: bool,
        newest: u32,
        versions: Seq<VersionView>,
        fresh: Map<u128, u64>,
    ) -> Result<VersionsStep, Stop>
        decreases versions.len(),
    {
        if versions.len() == 0 {
            Ok(
                VersionsStep {
                    loader: self,
                    versions: Seq::empty(),
                    calls: Seq::empty(),
                    stale: Seq::empty(),
                },
            )
        } else {
            match self.step_versions(key, has_refs, newest, versions.drop_last(), fresh) {
                Err(e) => Err(e),
                Ok(p) => match p.loader.step_version(
                    key,
                    has_refs,
                    newest,
                    versions.last(),
                    fresh,
                ) {
                    Err(stop) => Err(stop.after(p.calls)),
                    Ok(q) => Ok(
                        VersionsStep {
                            loader: q.loader,
                            versions: p.versions.push(q.version),
                            calls: p.calls + q.calls,
                            stale: if q.stale {
                                p.stale.push(q.version.version)
                            } else {
                                p.stale
                            },
                        },
                    ),
                },
            }
        }
    }

    /// The load at `key` at the beginning of a pass: with a new version, if one is due.
    pub open spec fn started(self, key: u64) -> LoadView {
        let load = self.loads[key];
        if load.starts_reload() {
            LoadView { pending_reload: false, ..load.with_new_version(false, None) }
        } else {
            load
        }
    }

    /// What becomes of the load at `key` in a pass, and which calls are made to the storage.
    pub open spec fn step_load(self, key: u64, fresh: Map<u128, u64>) -> Result<
        (LoaderView, Seq<StorageCall>),
        Stop,
    > {
        let load = self.loads[key];
        let started = self.started(key);
        if load.refs == 0 && load.versions.len() == 0 {
            Ok((self, Seq::empty()))
        } else if load.starts_reload() && load.version_counter == u32::MAX {
            Err(Stop::at_once(ErrorView::VersionsExhausted(LoadHandle(key))))
        } else {
            match self.with_load(key, started).step_versions(
                key,
                load.refs > 0,
                newest(started.versions),
                started.versions,
                fresh,
            ) {
                Err(e) => Err(e),
                Ok(p) => Ok(
                    (
                        p.loader.with_load(
                            key,
                            LoadView {
                                versions: retained(p.versions, p.stale),
                                ..p.loader.loads[key]
                            },
                        ),
                        p.calls,
                    ),
                ),
            }
        }
    }

    /// What becomes of loads in a pass, one after the other, and which calls are made to the
    /// storage.
    pub open spec fn step_loads(self, keys: Seq<u64>, fresh: Map<u128, u64>) -> Result<
        (LoaderView, Seq<StorageCall>),
        Stop,
    >
        decreases keys.len(),
    {
        if keys.len() == 0 {
            Ok((self, Seq::empty()))
        } else {
            match self.step_loads(keys.drop_last(), fresh) {
                Err(e) => Err(e),
                Ok((s, calls)) => match s.step_load(keys.last(), fresh) {
                    Err(stop) => Err(stop.after(calls)),
                    Ok((t, more)) => Ok((t, calls + more)),
                },
            }
        }
    }

    /// What a pass over the loads may come to. The order in which they are seen to, and the handles
    /// of the loads that are made, are left open.
    pub open spec fn may_step_loads(
        self,
        log: Seq<StorageCall>,
        after_log: Seq<StorageCall>,
        out: Result<LoaderView, ErrorView>,
    ) -> bool {
        exists|keys: Seq<u64>, fresh: Map<u128, u64>|
            {
                &&& keys.no_duplicates()
                &&& keys.to_set() == self.loads.dom()
                &&& came_to(#[trigger] self.step_loads(keys, fresh), log, after_log, out)
                &&& out matches Ok(after) ==> fresh == after.by_uuid
            }
    }

    proof fn lemma_first_unready(self, deps: Seq<RefView>, i: int)
        requires
            self.is_first_unready(deps, i),
        ensures
            i == (choose|k: int| self.is_first_unready(deps, k)),
    {
        let k = choose|k: int| self.is_first_unready(deps, k);
        assert(self.is_first_unready(deps, k));
        if k < i {
            assert(self.dep_ready(deps[k]));
        }
        if i < k {
            assert(self.dep_ready(deps[i]));
        }
    }

    /// Referencing dependencies removes nothing.
    pub proof fn lemma_add_dep_refs_extends(self, deps: Seq<RefView>, fresh: Map<u128, u64>)
        ensures
            self.add_dep_refs(deps, fresh).extends(self),
        decreases deps.len(),
    {
        if deps.len() > 0 {
            self.lemma_add_dep_refs_extends(deps.drop_last(), fresh);
        }
    }

    /// Only the handles of the assets that were new matter.
    pub proof fn lemma_add_dep_refs_fresh(
        self,
        deps: Seq<RefView>,
        few: Map<u128, u64>,
        more: Map<u128, u64>,
    )
        requires
            part_of(few, more),
            part_of(self.add_dep_refs(deps, few).by_uuid, few),
        ensures
            self.add_dep_refs(deps, more) == self.add_dep_refs(deps, few),
        decreases deps.len(),
    {
        if deps.len() > 0 {
            let s = self.add_dep_refs(deps.drop_last(), few);
            match deps.last() {
                RefView::Uuid(uuid) => {
                    assert(s.add_refs(uuid.0, 1, few).extends(s));
                    assert(s.add_refs(uuid.0, 1, few).by_uuid.contains_key(uuid.0));
                    assert(few.contains_key(uuid.0));
                },
                RefView::Path(_) => {},
            }
            assert(part_of(s.by_uuid, self.add_dep_refs(deps, few).by_uuid));
            self.lemma_add_dep_refs_fresh(deps.drop_last(), few, more);
        }
    }

    /// An error among the first dependencies is the error of all.
    proof fn lemma_remove_dep_refs_err(
        self,
        deps: Seq<RefView>,
        n: int,
        handle: LoadHandle,
        version: u32,
    )
        requires
            0 <= n <= deps.len(),
            self.remove_dep_refs(deps.take(n), handle, version) is Err,
        ensures
            self.remove_dep_refs(deps, handle, version) == self.remove_dep_refs(
                deps.take(n),
                handle,
                version,
            ),
        decreases deps.len(),
    {
        if n == deps.len() {
            assert(deps.take(n) =~= deps);
        } else {
            assert(deps.drop_last().take(n) =~= deps.take(n));
            self.lemma_remove_dep_refs_err(deps.drop_last(), n, handle, version);
        }
    }

    /// A step of a version removes nothing, and of the new handles only those of the assets that
    /// were new matter.
    pub proof fn lemma_step_version_fresh(
        self,
        key: u64,
        has_refs: bool,
        newest: u32,
        v: VersionView,
        few: Map<u128, u64>,
        more: Map<u128, u64>,
    )
        requires
            part_of(few, more),
            self.step_version(key, has_refs, newest, v, few) matches Ok(step) && part_of(
                step.loader.by_uuid,
                few,
            ),
        ensures
            self.step_version(key, has_refs, newest, v, more) == self.step_version(
                key,
                has_refs,
                newest,
                v,
                few,
            ),
    {
        if v.state is RequestDependencies {
            self.lemma_add_dep_refs_fresh(deps_of(v.metadata), few, more);
        }
    }

    /// Releasing the last of several dependencies changes nothing but reference counts.
    proof fn lemma_last_dep_released(self, deps: Seq<RefView>, handle: LoadHandle, version: u32)
        requires
            deps.len() > 0,
        ensures
            self.remove_dep_refs(deps, handle, version) matches Ok(t) ==> {
                let s = self.remove_dep_refs(deps.drop_last(), handle, version)->Ok_0;
                &&& self.remove_dep_refs(deps.drop_last(), handle, version) is Ok
                &&& t == (LoaderView { loads: t.loads, indirects: t.indirects, ..s })
                &&& t.loads.dom() == s.loads.dom()
                &&& t.keeps_loads(s)
            },
    {
        if let Ok(s) = self.remove_dep_refs(deps.drop_last(), handle, version) {
            if let RefView::Uuid(uuid) = deps.last() {
                s.lemma_remove_chain_keeps(
                    LoadHandle(s.by_uuid[uuid.0]),
                    1,
                    s.indirects.dom().len() + 1,
                );
            }
        }
    }

    /// Releasing dependencies removes no load and no handle.
    pub proof fn lemma_remove_dep_refs_extends(
        self,
        deps: Seq<RefView>,
        handle: LoadHandle,
        version: u32,
    )
        ensures
            self.remove_dep_refs(deps, handle, version) matches Ok(s) ==> s.extends(self),
        decreases deps.len(),
    {
        if deps.len() > 0 {
            self.lemma_remove_dep_refs_extends(deps.drop_last(), handle, version);
            self.lemma_last_dep_released(deps, handle, version);
        }
    }

    /// A step of a version removes no load and no handle.
    pub proof fn lemma_step_version_extends(
        self,
        key: u64,
        has_refs: bool,
        newest: u32,
        v: VersionView,
        fresh: Map<u128, u64>,
    )
        ensures
            self.step_version(key, has_refs, newest, v, fresh) matches Ok(step)
                ==> step.loader.extends(self),
    {
        self.lemma_add_dep_refs_extends(deps_of(v.metadata), fresh);
        self.lemma_remove_dep_refs_extends(deps_of(v.metadata), LoadHandle(key), v.version);
    }

    /// The steps of versions remove no load and no handle.
    pub proof fn lemma_step_versions_extends(
        self,
        key: u64,
        has_refs: bool,
        newest: u32,
        versions: Seq<VersionView>,
        fresh: Map<u128, u64>,
    )
        ensures
            self.step_versions(key, has_refs, newest, versions, fresh) matches Ok(p)
                ==> p.loader.extends(self) && p.versions.len() == versions.len(),
        decreases versions.len(),
    {
        if versions.len() > 0 {
            self.lemma_step_versions_extends(key, has_refs, newest, versions.drop_last(), fresh);
            if let Ok(p) = self.step_versions(key, has_refs, newest, versions.drop_last(), fresh) {
                p.loader.lemma_step_version_extends(
                    key,
                    has_refs,
                    newest,
                    versions.last(),
                    fresh,
                );
            }
        }
    }

    /// In the steps of versions, only the handles of the assets that were new matter.
    pub proof fn lemma_step_versions_fresh(
        self,
        key: u64,
        has_refs: bool,
        newest: u32,
        versions: Seq<VersionView>,
        few: Map<u128, u64>,
        more: Map<u128, u64>,
    )
        requires
            part_of(few, more),
            self.step_versions(key, has_refs, newest, versions, few) matches Ok(p) && part_of(
                p.loader.by_uuid,
                few,
            ),
        ensures
            self.step_versions(key, has_refs, newest, versions, more) == self.step_versions(
                key,
                has_refs,
                newest,
                versions,
                few,
            ),
        decreases versions.len(),
    {
        if versions.len() > 0 {
            let p = self.step_versions(key, has_refs, newest, versions.drop_last(), few)->Ok_0;
            p.loader.lemma_step_version_extends(key, has_refs, newest, versions.last(), few);
            self.lemma_step_versions_fresh(
                key,
                has_refs,
                newest,
                versions.drop_last(),
                few,
                more,
            );
            p.loader.lemma_step_version_fresh(
                key,
                has_refs,
                newest,
                versions.last(),
                few,
                more,
            );
        }
    }

    /// Referencing dependencies changes nothing else in the loads that are there, as long as no two
    /// assets share a handle.
    pub proof fn lemma_add_dep_refs_keeps(self, deps: Seq<RefView>, fresh: Map<u128, u64>)
        requires
            self.covered(),
            distinct_handles(fresh),
            part_of(self.add_dep_refs(deps, fresh).by_uuid, fresh),
        ensures
            self.add_dep_refs(deps, fresh).covered(),
            self.add_dep_refs(deps, fresh).keeps_loads(self),
        decreases deps.len(),
    {
        if deps.len() > 0 {
            let s = self.add_dep_refs(deps.drop_last(), fresh);
            match deps.last() {
                RefView::Uuid(uuid) => {
                    assert(s.add_refs(uuid.0, 1, fresh).extends(s));
                    assert(part_of(s.by_uuid, self.add_dep_refs(deps, fresh).by_uuid));
                    self.lemma_add_dep_refs_keeps(deps.drop_last(), fresh);
                    s.lemma_add_refs_keeps(uuid.0, 1, fresh);
                },
                RefView::Path(_) => {
                    self.lemma_add_dep_refs_keeps(deps.drop_last(), fresh);
                },
            }
        }
    }

    /// Releasing dependencies changes nothing else in the loads that are there.
    pub proof fn lemma_remove_dep_refs_keeps(
        self,
        deps: Seq<RefView>,
        handle: LoadHandle,
        version: u32,
    )
        requires
            self.covered(),
        ensures
            self.remove_dep_refs(deps, handle, version) matches Ok(s) ==> {
                &&& s.by_uuid == self.by_uuid
                &&& s.loads.dom() == self.loads.dom()
                &&& s.covered()
                &&& s.keeps_loads(self)
            },
        decreases deps.len(),
    {
        if deps.len() > 0 {
            self.lemma_remove_dep_refs_keeps(deps.drop_last(), handle, version);
            self.lemma_last_dep_released(deps, handle, version);
        }
    }

    /// The step of a version changes nothing but reference counts in the loads that are there, as
    /// long as no two assets share a handle. The version keeps its number.
    pub proof fn lemma_step_version_keeps(
        self,
        key: u64,
        has_refs: bool,
        newest: u32,
        v: VersionView,
        fresh: Map<u128, u64>,
    )
        requires
            self.covered(),
            distinct_handles(fresh),
        ensures
            self.step_version(key, has_refs, newest, v, fresh) matches Ok(step) ==> {
                &&& step.version.version == v.version
                &&& part_of(step.loader.by_uuid, fresh) ==> {
                    &&& step.loader.covered()
                    &&& step.loader.keeps_loads(self)
                }
            },
    {
        if v.state is RequestDependencies {
            if part_of(self.add_dep_refs(deps_of(v.metadata), fresh).by_uuid, fresh) {
                self.lemma_add_dep_refs_keeps(deps_of(v.metadata), fresh);
            }
        }
        if v.state is UnloadRequested {
            self.lemma_remove_dep_refs_keeps(deps_of(v.metadata), LoadHandle(key), v.version);
        }
    }

    /// The steps of versions change nothing but reference counts in the loads that are there, as
    /// long as no two assets share a handle. The versions keep their numbers.
    pub proof fn lemma_step_versions_keeps(
        self,
        key: u64,
        has_refs: bool,
        newest: u32,
        versions: Seq<VersionView>,
        fresh: Map<u128, u64>,
    )
        requires
            self.covered(),
            distinct_handles(fresh),
        ensures
            self.step_versions(key, has_refs, newest, versions, fresh) matches Ok(p) ==> {
                &&& p.versions.len() == versions.len()
                &&& forall|i: int|
                    0 <= i < versions.len() ==> (#[trigger] p.versions[i]).version
                        == versions[i].version
                &&& part_of(p.loader.by_uuid, fresh) ==> {
                    &&& p.loader.covered()
                    &&& p.loader.keeps_loads(self)
                }
            },
        decreases versions.len(),
    {
        if versions.len() > 0 {
            self.lemma_step_versions_keeps(key, has_refs, newest, versions.drop_last(), fresh);
            if let Ok(p) = self.step_versions(key, has_refs, newest, versions.drop_last(), fresh) {
                p.loader.lemma_step_version_extends(
                    key,
                    has_refs,
                    newest,
                    versions.last(),
                    fresh,
                );
                if let Ok(q) = p.loader.step_version(
                    key,
                    has_refs,
                    newest,
                    versions.last(),
                    fresh,
                ) {
                    if part_of(q.loader.by_uuid, fresh) {
                        assert(part_of(p.loader.by_uuid, fresh));
                        p.loader.lemma_step_version_keeps(
                            key,
                            has_refs,
                            newest,
                            versions.last(),
                            fresh,
                        );
                    }
                }
            }
        }
    }

    /// The steps of versions keep their numbers, and only versions with a lower number than the
    /// newest one are to be removed.
    pub proof fn lemma_step_versions_numbers(
        self,
        key: u64,
        has_refs: bool,
        newest: u32,
        versions: Seq<VersionView>,
        fresh: Map<u128, u64>,
    )
        ensures
            self.step_versions(key, has_refs, newest, versions, fresh) matches Ok(p) ==> {
                &&& p.versions.len() == versions.len()
                &&& forall|i: int|
                    0 <= i < versions.len() ==> (#[trigger] p.versions[i]).version
                        == versions[i].version
                &&& forall|i: int| 0 <= i < p.stale.len() ==> #[trigger] p.stale[i] < newest
            },
        decreases versions.len(),
    {
        if versions.len() > 0 {
            self.lemma_step_versions_numbers(key, has_refs, newest, versions.drop_last(), fresh);
        }
    }

    /// The newest of several versions is there after their steps.
    pub proof fn lemma_newest_remains(
        self,
        key: u64,
        has_refs: bool,
        versions: Seq<VersionView>,
        fresh: Map<u128, u64>,
    )
        requires
            versions.len() > 0,
        ensures
            self.step_versions(key, has_refs, newest(versions), versions, fresh) matches Ok(p)
                ==> exists|i: int|
                0 <= i < retained(p.versions, p.stale).len() && (#[trigger] retained(
                    p.versions,
                    p.stale,
                )[i]).version == newest(versions),
    {
        self.lemma_step_versions_numbers(key, has_refs, newest(versions), versions, fresh);
        lemma_newest(versions);
        if let Ok(p) = self.step_versions(key, has_refs, newest(versions), versions, fresh) {
            let i = choose|i: int|
                0 <= i < versions.len() && (#[trigger] versions[i]).version == newest(versions);
            assert(p.versions[i].version == newest(versions));
            lemma_retained(p.versions, p.stale);
            assert(!p.stale.contains(newest(versions)));
            let rest = retained(p.versions, p.stale);
            let j = choose|j: int| 0 <= j < rest.len() && rest[j] == p.versions[i];
            assert(rest[j].version == newest(versions));
        }
    }

    /// An error among the first versions is the error of all.
    proof fn lemma_step_versions_err(
        self,
        key: u64,
        has_refs: bool,
        newest: u32,
        versions: Seq<VersionView>,
        n: int,
        fresh: Map<u128, u64>,
    )
        requires
            0 <= n <= versions.len(),
            self.step_versions(key, has_refs, newest, versions.take(n), fresh) is Err,
        ensures
            self.step_versions(key, has_refs, newest, versions, fresh) == self.step_versions(
                key,
                has_refs,
                newest,
                versions.take(n),
                fresh,
            ),
        decreases versions.len(),
    {
        if n == versions.len() {
            assert(versions.take(n) =~= versions);
        } else {
            assert(versions.drop_last().take(n) =~= versions.take(n));
            self.lemma_step_versions_err(
                key,
                has_refs,
                newest,
                versions.drop_last(),
                n,
                fresh,
            );
        }
    }

    /// The step of a load removes no load and no handle.
    pub proof fn lemma_step_load_extends(self, key: u64, fresh: Map<u128, u64>)
        ensures
            self.step_load(key, fresh) matches Ok((s, calls)) ==> s.extends(self),
    {
        let load = self.loads[key];
        let started = self.started(key);
        let begun = self.with_load(key, started);
        begun.lemma_step_versions_extends(
            key,
            load.refs > 0,
            newest(started.versions),
            started.versions,
            fresh,
        );
        assert forall|k: u64| self.loads.contains_key(k) implies begun.loads.contains_key(k) by {}
    }

    /// In the step of a load, only the handles of the assets that were new matter.
    pub proof fn lemma_step_load_fresh(self, key: u64, few: Map<u128, u64>, more: Map<u128, u64>)
        requires
            part_of(few, more),
            self.step_load(key, few) matches Ok((s, calls)) && part_of(s.by_uuid, few),
        ensures
            self.step_load(key, more) == self.step_load(key, few),
    {
        let load = self.loads[key];
        let started = self.started(key);
        if !(load.refs == 0 && load.versions.len() == 0) {
            self.with_load(key, started).lemma_step_versions_fresh(
                key,
                load.refs > 0,
                newest(started.versions),
                started.versions,
                few,
                more,
            );
        }
    }

    /// In the steps of loads, only the handles of the assets that were new matter.
    pub proof fn lemma_step_loads_fresh(
        self,
        keys: Seq<u64>,
        few: Map<u128, u64>,
        more: Map<u128, u64>,
    )
        requires
            part_of(few, more),
            self.step_loads(keys, few) matches Ok((s, calls)) && part_of(s.by_uuid, few),
        ensures
            self.step_loads(keys, more) == self.step_loads(keys, few),
        decreases keys.len(),
    {
        if keys.len() > 0 {
            let s = (self.step_loads(keys.drop_last(), few)->Ok_0).0;
            s.lemma_step_load_extends(keys.last(), few);
            self.lemma_step_loads_fresh(keys.drop_last(), few, more);
            s.lemma_step_load_fresh(keys.last(), few, more);
        }
    }

    /// An error among the first loads is the error of all.
    proof fn lemma_step_loads_err(self, keys: Seq<u64>, n: int, fresh: Map<u128, u64>)
        requires
            0 <= n <= keys.len(),
            self.step_loads(keys.take(n), fresh) is Err,
        ensures
            self.step_loads(keys, fresh) == self.step_loads(keys.take(n), fresh),
        decreases keys.len(),
    {
        if n == keys.len() {
            assert(keys.take(n) =~= keys);
        } else {
            assert(keys.drop_last().take(n) =~= keys.take(n));
            self.lemma_step_loads_err(keys.drop_last(), n, fresh);
        }
    }
}

impl<A: HandleAllocator + ?Sized> LoaderState<A> {
    /// Returns whether all dependencies of a version are ready.
    fn check_deps(&self, deps: &Vec<AssetRef>, handle: LoadHandle, version: u32) -> (r: Result<
        bool,
        LoaderError,
    >)
        ensures
            match self@.deps_ready(ref_views(deps@), handle, version) {
                Ok(ready) => r == Ok::<bool, LoaderError>(ready),
                Err(e) => r matches Err(error) && error@ == e,
            },
    {
        let ghost views = ref_views(deps@);
        let mut i: usize = 0;
        while i < deps.len()
            invariant
                i <= deps.len(),
                views == ref_views(deps@),
                forall|j: int| 0 <= j < i ==> self@.dep_ready(#[trigger] views[j]),
            decreases deps.len() - i,
        {
            assert(views[i as int] == deps@[i as int]@);
            let ready: bool = match &deps[i] {
                AssetRef::Uuid(uuid) => match self.find_uuid(uuid.0) {
                    Some(key) => match self.peek_load(key) {
                        Some(guard) => guard_value(&guard).is_all_in_storage(),
                        None => false,
                    },
                    None => false,
                },
                AssetRef::Path(_) => {
                    proof {
                        assert(self@.is_first_unready(views, i as int));
                        self@.lemma_first_unready(views, i as int);
                    }
                    return Err(LoaderError::ExpectedUuid(handle, version));
                },
            };
            if !ready {
                proof {
                    assert(self@.is_first_unready(views, i as int));
                    self@.lemma_first_unready(views, i as int);
                }
                return Ok(false);
            }
            i = i + 1;
        }
        Ok(true)
    }

    /// Adds a reference to each dependency that is given by its UUID.
    fn add_dep_refs(&mut self, deps: &Vec<AssetRef>)
        requires
            old(self).wf(),
        ensures
            final(self).wf(),
            final(self).kept(*old(self)),
            final(self)@ == old(self)@.add_dep_refs(
                ref_views(deps@),
                final(self)@.by_uuid,
            ),
            final(self)@.extends(old(self)@),
    {
        let ghost views = ref_views(deps@);
        let mut i: usize = 0;
        assert(views.take(0) =~= Seq::empty());
        while i < deps.len()
            invariant
                i <= deps.len(),
                views == ref_views(deps@),
                self.wf(),
                self.kept(*old(self)),
                self@ == old(self)@.add_dep_refs(views.take(i as int), self@.by_uuid),
                self@.extends(old(self)@),
            decreases deps.len() - i,
        {
            let ghost before = self@;
            assert(views.take(i + 1).drop_last() =~= views.take(i as int));
            assert(views.take(i + 1).last() == deps@[i as int]@);
            if let AssetRef::Uuid(uuid) = &deps[i] {
                self.add_refs(*uuid, 1);
            }
            proof {
                old(self)@.lemma_add_dep_refs_fresh(
                    views.take(i as int),
                    before.by_uuid,
                    self@.by_uuid,
                );
            }
            i = i + 1;
        }
        assert(views.take(deps.len() as int) =~= views);
    }

    /// Removes a reference from each dependency.
    fn remove_dep_refs(&mut self, deps: &Vec<AssetRef>, handle: LoadHandle, version: u32) -> (r:
        Result<(), LoaderError>)
        requires
            old(self).wf(),
        ensures
            final(self).wf(),
            final(self).kept(*old(self)),
            match old(self)@.remove_dep_refs(ref_views(deps@), handle, version) {
                Ok(s) => r is Ok && final(self)@ == s,
                Err(e) => r matches Err(error) && error@ == e,
            },
            final(self)@.extends(old(self)@),
    {
        let ghost views = ref_views(deps@);
        let mut i: usize = 0;
        assert(views.take(0) =~= Seq::empty());
        while i < deps.len()
            invariant
                i <= deps.len(),
                views == ref_views(deps@),
                self.wf(),
                self.kept(*old(self)),
                old(self)@.remove_dep_refs(views.take(i as int), handle, version) == Ok::<
                    LoaderView,
                    ErrorView,
                >(self@),
                self@.extends(old(self)@),
            decreases deps.len() - i,
        {
            assert(views.take(i + 1).drop_last() =~= views.take(i as int));
            assert(views.take(i + 1).last() == deps@[i as int]@);
            match &deps[i] {
                AssetRef::Uuid(uuid) => match self.find_uuid(uuid.0) {
                    Some(key) => {
                        proof {
                            self@.lemma_remove_chain_keeps(
                                LoadHandle(key),
                                1,
                                self@.indirects.dom().len() + 1,
                            );
                        }
                        self.remove_refs(LoadHandle(key), 1);
                    },
                    None => {
                        proof {
                            old(self)@.lemma_remove_dep_refs_err(views, i + 1, handle, version);
                        }
                        return Err(LoaderError::MissingDependency(*uuid));
                    },
                },
                AssetRef::Path(_) => {
                    proof {
                        old(self)@.lemma_remove_dep_refs_err(views, i + 1, handle, version);
                    }
                    return Err(LoaderError::ExpectedUuid(handle, version));
                },
            }
            i = i + 1;
        }
        assert(views.take(deps.len() as int) =~= views);
        Ok(())
    }

    /// Takes a version of the load at `key` one pass further, and returns whether it is to be
    /// removed.
    fn step_version<S: AssetStorage + ?Sized>(
        &mut self,
        key: u64,
        has_refs: bool,
        newest_version: u32,
        v: &mut AssetVersionLoad,
        asset_storage: &mut S,
    ) -> (r: Result<bool, LoaderError>)
        requires
            old(self).wf(),
            old(v)@.wf(),
        ensures
            final(self).wf(),
            final(self).kept(*old(self)),
            final(self)@.extends(old(self)@),
            match old(self)@.step_version(
                key,
                has_refs,
                newest_version,
                old(v)@,
                final(self)@.by_uuid,
            ) {
                Ok(step) => {
                    &&& r == Ok::<bool, LoaderError>(step.stale)
                    &&& final(self)@ == step.loader
                    &&& final(v)@ == step.version
                    &&& final(v)@.wf()
                    &&& final(asset_storage).calls() == old(asset_storage).calls() + step.calls
                },
                Err(stop) => {
                    &&& r matches Err(error) && error@ == stop.error
                    &&& final(asset_storage).calls() == old(asset_storage).calls() + stop.calls
                },
            },
    {
        let handle = LoadHandle(key);
        match v.state {
            LoadState::Idle => {
                if newest_version > v.version {
                    return Ok(true);
                }
                if has_refs {
                    if v.metadata.is_some() {
                        v.state = LoadState::RequestDependencies;
                    } else {
                        v.state = LoadState::WaitingForMetadata;
                    }
                }
            },
            LoadState::WaitingForMetadata => {
                if v.metadata.is_some() {
                    v.state = LoadState::RequestDependencies;
                }
            },
            LoadState::RequestDependencies => {
                if let Some(metadata) = &v.metadata {
                    self.add_dep_refs(&metadata.load_deps);
                }
                v.state = LoadState::WaitingForDependencies;
            },
            LoadState::WaitingForDependencies => {
                if let Some(metadata) = &v.metadata {
                    match self.check_deps(&metadata.load_deps, handle, v.version) {
                        Ok(ready) => {
                            if ready {
                                v.state = LoadState::WaitingForData;
                            }
                        },
                        Err(error) => {
                            return Err(error);
                        },
                    }
                }
            },
            LoadState::Loaded => {
                if !has_refs {
                    v.state = LoadState::UnloadRequested;
                }
            },
            LoadState::UnloadRequested => {
                if let Some(asset_type) = v.asset_type {
                    asset_storage.free(&asset_type, handle, v.version);
                    v.asset_type = None;
                }
                if let Some(metadata) = &v.metadata {
                    match self.remove_dep_refs(&metadata.load_deps, handle, v.version) {
                        Ok(_) => {},
                        Err(error) => {
                            return Err(error);
                        },
                    }
                }
                v.state = LoadState::Unloading;
            },
            LoadState::Unloading => {
                v.state = LoadState::Idle;
            },
            _ => {},
        }
        Ok(false)
    }

    /// Takes versions of the load at `key` one pass further, and returns the numbers of those to be
    /// removed.
    fn step_versions<S: AssetStorage + ?Sized>(
        &mut self,
        key: u64,
        has_refs: bool,
        newest_version: u32,
        versions: &mut Vec<AssetVersionLoad>,
        asset_storage: &mut S,
    ) -> (r: Result<Vec<u32>, LoaderError>)
        requires
            old(self).wf(),
            forall|i: int| 0 <= i < old(versions)@.len() ==> (#[trigger] old(versions)@[i])@.wf(),
        ensures
            final(self).wf(),
            final(self).kept(*old(self)),
            final(self)@.extends(old(self)@),
            match old(self)@.step_versions(
                key,
                has_refs,
                newest_version,
                version_views(old(versions)@),
                final(self)@.by_uuid,
            ) {
                Ok(p) => {
                    &&& r matches Ok(stale) && stale@ == p.stale
                    &&& final(self)@ == p.loader
                    &&& version_views(final(versions)@) == p.versions
                    &&& forall|i: int|
                        0 <= i < final(versions)@.len() ==> (#[trigger] final(versions)@[i])@.wf()
                    &&& final(asset_storage).calls() == old(asset_storage).calls() + p.calls
                },
                Err(stop) => {
                    &&& r matches Err(error) && error@ == stop.error
                    &&& final(asset_storage).calls() == old(asset_storage).calls() + stop.calls
                },
            },
    {
        let ghost views = version_views(old(versions)@);
        let mut stale: Vec<u32> = Vec::new();
        let mut i: usize = 0;
        assert(views.take(0) =~= Seq::empty());
        assert(version_views(versions@.take(0)) =~= Seq::empty());
        assert(asset_storage.calls() + Seq::<StorageCall>::empty() =~= asset_storage.calls());
        while i < versions.len()
            invariant
                i <= versions.len(),
                versions.len() == views.len(),
                views == version_views(old(versions)@),
                self.wf(),
                self.kept(*old(self)),
                self@.extends(old(self)@),
                forall|j: int| 0 <= j < versions@.len() ==> (#[trigger] versions@[j])@.wf(),
                forall|j: int| i <= j < versions@.len() ==> (#[trigger] versions@[j])@ == views[j],
                old(self)@.step_versions(
                    key,
                    has_refs,
                    newest_version,
                    views.take(i as int),
                    self@.by_uuid,
                ) matches Ok(p) && {
                    &&& self@ == p.loader
                    &&& version_views(versions@.take(i as int)) == p.versions
                    &&& stale@ == p.stale
                    &&& asset_storage.calls() == old(asset_storage).calls() + p.calls
                },
            decreases versions.len() - i,
        {
            let ghost before = self@;
            let ghost versions_before = versions@;
            let ghost calls_before = asset_storage.calls();
            assert(views.take(i + 1).drop_last() =~= views.take(i as int));
            assert(views.take(i + 1).last() == versions@[i as int]@);
            let stepped = self.step_version(
                key,
                has_refs,
                newest_version,
                &mut versions[i],
                asset_storage,
            );
            proof {
                old(self)@.lemma_step_versions_fresh(
                    key,
                    has_refs,
                    newest_version,
                    views.take(i as int),
                    before.by_uuid,
                    self@.by_uuid,
                );
            }
            match stepped {
                Ok(is_stale) => {
                    if is_stale {
                        stale.push(versions[i].version);
                    }
                    proof {
                        let p = old(self)@.step_versions(
                            key,
                            has_refs,
                            newest_version,
                            views.take(i as int),
                            self@.by_uuid,
                        )->Ok_0;
                        let q = before.step_version(
                            key,
                            has_refs,
                            newest_version,
                            views[i as int],
                            self@.by_uuid,
                        )->Ok_0;
                        assert(version_views(versions@.take(i + 1)) =~= p.versions.push(q.version))
                            by {
                            assert(versions@.take(i as int) =~= versions_before.take(i as int));
                            assert(versions@.take(i + 1) =~= versions@.take(i as int).push(
                                versions@[i as int],
                            ));
                        }
                        assert(asset_storage.calls() =~= old(asset_storage).calls() + (p.calls
                            + q.calls));
                    }
                },
                Err(error) => {
                    proof {
                        let p = old(self)@.step_versions(
                            key,
                            has_refs,
                            newest_version,
                            views.take(i as int),
                            self@.by_uuid,
                        )->Ok_0;
                        let stop = before.step_version(
                            key,
                            has_refs,
                            newest_version,
                            views[i as int],
                            self@.by_uuid,
                        )->Err_0;
                        assert(asset_storage.calls() =~= old(asset_storage).calls() + (p.calls
                            + stop.calls));
                        old(self)@.lemma_step_versions_err(
                            key,
                            has_refs,
                            newest_version,
                            views,
                            i + 1,
                            self@.by_uuid,
                        );
                    }
                    return Err(error);
                },
            }
            i = i + 1;
        }
        assert(views.take(versions.len() as int) =~= views);
        assert(versions@.take(versions.len() as int) =~= versions@);
        Ok(stale)
    }

    /// Takes the load at `key` one pass further.
    #[verifier::rlimit(50)]
    pub fn process_load_state<S: AssetStorage + ?Sized>(&mut self, key: u64, asset_storage: &mut S) -> (r:
        Result<(), LoaderError>)
        requires
            old(self).wf(),
            old(self)@.loads.contains_key(key),
        ensures
            final(self).wf(),
            final(self).kept(*old(self)),
            final(self)@.extends(old(self)@),
            came_to(
                old(self)@.step_load(key, final(self)@.by_uuid),
                old(asset_storage).calls(),
                final(asset_storage).calls(),
                outcome(r, final(self)@),
            ),
    {
        assert(asset_storage.calls() + Seq::<StorageCall>::empty() =~= asset_storage.calls());
        let mut load = match self.take_load(key) {
            Some(load) => load,
            None => {
                return Ok(());
            },
        };
        let has_refs: bool = load.refs > 0;
        if !has_refs && load.versions.is_empty() {
            self.put_load(key, load);
            assert(self@ =~= old(self)@);
            return Ok(());
        }
        if has_refs && load.pending_reload && load.is_all_loaded() {
            if load.version_counter == u32::MAX {
                self.put_load(key, load);
                assert(self@ =~= old(self)@);
                return Err(LoaderError::VersionsExhausted(LoadHandle(key)));
            }
            // A reload is not committed automatically, so that all reloads that were asked for
            // together come into use together.
            load.push_version(false, None);
            load.pending_reload = false;
        }
        let mut versions = load.clone_versions();
        let newest_version: u32 = load.newest_version();
        let ghost started = load@;
        self.put_load(key, load);
        let ghost begun = self@;
        proof {
            assert(started == old(self)@.started(key));
            assert(begun =~= old(self)@.with_load(key, started));
            assert(begun.wf());
            assert forall|i: int| 0 <= i < versions@.len() implies (#[trigger] versions@[i])@.wf() by {
                assert(version_views(versions@)[i] == started.versions[i]);
            }
        }
        match self.step_versions(key, has_refs, newest_version, &mut versions, asset_storage) {
            Ok(stale) => {
                let ghost stepped = self@;
                proof {
                    if distinct_handles(stepped.by_uuid) {
                        lemma_part_distinct(begun.by_uuid, stepped.by_uuid);
                        begun.lemma_step_versions_keeps(
                            key,
                            has_refs,
                            newest_version,
                            started.versions,
                            stepped.by_uuid,
                        );
                        lemma_retained_numbered(
                            version_views(versions@),
                            stale@,
                            started.version_counter,
                        );
                    }
                }
                proof {
                    begun.lemma_newest_remains(
                        key,
                        has_refs,
                        started.versions,
                        stepped.by_uuid,
                    );
                }
                retain_versions(&mut versions, &stale);
                assert(begun.loads.contains_key(key));
                if let Some(mut load) = self.take_load(key) {
                    load.versions = versions;
                    self.put_load(key, load);
                    assert(self@ =~= stepped.with_load(
                        key,
                        LoadView { versions: version_views(versions@), ..stepped.loads[key] },
                    ));
                }
                assert(self@.wf());
                Ok(())
            },
            Err(error) => Err(error),
        }
    }

    /// Takes every load one pass further.
    pub fn process_load_states<S: AssetStorage + ?Sized>(&mut self, asset_storage: &mut S) -> (r:
        Result<(), LoaderError>)
        requires
            old(self).wf(),
        ensures
            final(self).wf(),
            final(self).kept(*old(self)),
            final(self)@.extends(old(self)@),
            old(self)@.may_step_loads(
                old(asset_storage).calls(),
                final(asset_storage).calls(),
                outcome(r, final(self)@),
            ),
    {
        let keys = self.list_loads();
        let mut i: usize = 0;
        assert(keys@.take(0) =~= Seq::empty());
        assert(asset_storage.calls() + Seq::<StorageCall>::empty() =~= asset_storage.calls());
        while i < keys.len()
            invariant
                i <= keys.len(),
                keys@.no_duplicates(),
                keys@.to_set() == old(self)@.loads.dom(),
                self.wf(),
                self.kept(*old(self)),
                self@.extends(old(self)@),
                old(self)@.step_loads(keys@.take(i as int), self@.by_uuid) matches Ok((s, calls))
                    && self@ == s && asset_storage.calls() == old(asset_storage).calls() + calls,
            decreases keys.len() - i,
        {
            let ghost before = self@;
            let ghost calls_before = asset_storage.calls();
            let key: u64 = keys[i];
            assert(keys@.to_set().contains(keys@[i as int]));
            assert(old(self)@.loads.contains_key(key));
            assert(keys@.take(i + 1).drop_last() =~= keys@.take(i as int));
            let stepped = self.process_load_state(key, asset_storage);
            proof {
                old(self)@.lemma_step_loads_fresh(
                    keys@.take(i as int),
                    before.by_uuid,
                    self@.by_uuid,
                );
            }
            match stepped {
                Ok(_) => {
                    proof {
                        let calls = (old(self)@.step_loads(
                            keys@.take(i as int),
                            self@.by_uuid,
                        )->Ok_0).1;
                        let more = (before.step_load(key, self@.by_uuid)->Ok_0).1;
                        assert(asset_storage.calls() =~= old(asset_storage).calls() + (calls
                            + more));
                    }
                },
                Err(error) => {
                    proof {
                        let calls = (old(self)@.step_loads(
                            keys@.take(i as int),
                            self@.by_uuid,
                        )->Ok_0).1;
                        let stop = before.step_load(key, self@.by_uuid)->Err_0;
                        assert(asset_storage.calls() =~= old(asset_storage).calls() + (calls
                            + stop.calls));
                        old(self)@.lemma_step_loads_err(keys@, i + 1, self@.by_uuid);
                    }
                    return Err(error);
                },
            }
            i = i + 1;
        }
        assert(keys@.take(keys.len() as int) =~= keys@);
        Ok(())
    }
}

/// Versions that remain are in the order of their numbers, as all were.
pub proof fn lemma_retained_numbered(versions: Seq<VersionView>, stale: Seq<u32>, counter: u32)
    requires
        forall|i: int, j: int|
            0 <= i < j < versions.len() ==> (#[trigger] versions[i]).version < (
            #[trigger] versions[j]).version,
        forall|i: int| 0 <= i < versions.len() ==> (#[trigger] versions[i]).version <= counter,
    ensures
        forall|i: int, j: int|
            0 <= i < j < retained(versions, stale).len() ==> (#[trigger] retained(
                versions,
                stale,
            )[i]).version < (#[trigger] retained(versions, stale)[j]).version,
        forall|i: int|
            0 <= i < retained(versions, stale).len() ==> (#[trigger] retained(
                versions,
                stale,
            )[i]).version <= counter && versions.contains(retained(versions, stale)[i]),
    decreases versions.len(),
{
    reveal(Seq::filter);
    if versions.len() > 0 {
        let init = versions.drop_last();
        lemma_retained_numbered(init, stale, counter);
        assert forall|i: int| 0 <= i < retained(init, stale).len() implies versions.contains(
            #[trigger] retained(init, stale)[i],
        ) && retained(init, stale)[i].version < versions.last().version by {
            let v = retained(init, stale)[i];
            let k = choose|k: int| 0 <= k < init.len() && init[k] == v;
            assert(versions[k] == v);
            assert(versions[versions.len() - 1] == versions.last());
        }
        assert(versions.contains(versions.last()));
    }
}

/// The highest number of a list is that of one of its versions, and no version has a higher one.
pub proof fn lemma_newest(versions: Seq<VersionView>)
    ensures
        forall|i: int| 0 <= i < versions.len() ==> (#[trigger] versions[i]).version <= newest(versions),
        versions.len() > 0 ==> exists|i: int|
            0 <= i < versions.len() && (#[trigger] versions[i]).version == newest(versions),
    decreases versions.len(),
{
    if versions.len() > 0 {
        let init = versions.drop_last();
        lemma_newest(init);
        assert forall|i: int| 0 <= i < versions.len() implies (#[trigger] versions[i]).version
            <= newest(versions) by {
            if i < init.len() {
                assert(init[i] == versions[i]);
            }
        }
        if init.len() > 0 {
            let k = choose|k: int|
                0 <= k < init.len() && (#[trigger] init[k]).version == newest(init);
            assert(versions[k] == init[k]);
        }
        assert(versions[versions.len() - 1] == versions.last());
    }
}

/// What remains are versions of the list, and every one whose number is not removed.
pub proof fn lemma_retained(versions: Seq<VersionView>, stale: Seq<u32>)
    ensures
        forall|i: int|
            0 <= i < retained(versions, stale).len() ==> versions.contains(
                #[trigger] retained(versions, stale)[i],
            ),
        forall|i: int|
            0 <= i < versions.len() && !stale.contains((#[trigger] versions[i]).version)
                ==> retained(versions, stale).contains(versions[i]),
    decreases versions.len(),
{
    reveal(Seq::filter);
    if versions.len() > 0 {
        let init = versions.drop_last();
        let before = retained(init, stale);
        let after = retained(versions, stale);
        lemma_retained(init, stale);
        assert forall|i: int| 0 <= i < after.len() implies versions.contains(#[trigger] after[i]) by {
            if i < before.len() {
                assert(before[i] == after[i]);
                let k = choose|k: int| 0 <= k < init.len() && init[k] == before[i];
                assert(versions[k] == after[i]);
            } else {
                assert(versions[versions.len() - 1] == after[i]);
            }
        }
        assert forall|i: int|
            0 <= i < versions.len() && !stale.contains(
                (#[trigger] versions[i]).version,
            ) implies after.contains(versions[i]) by {
            if i < init.len() {
                assert(init[i] == versions[i]);
                let k = choose|k: int| 0 <= k < before.len() && before[k] == versions[i];
                assert(after[k] == versions[i]);
            } else {
                assert(after[after.len() - 1] == versions[i]);
            }
        }
    }
}

/// Returns whether a number is in a list.
fn contains_number(numbers: &Vec<u32>, number: u32) -> (r: bool)
    ensures
        r == numbers@.contains(number),
{
    let mut i: usize = 0;
    while i < numbers.len()
        invariant
            i <= numbers.len(),
            forall|j: int| 0 <= j < i ==> #[trigger] numbers@[j] != number,
        decreases numbers.len() - i,
    {
        if numbers[i] == number {
            return true;
        }
        i = i + 1;
    }
    false
}

/// Removes the versions with the given numbers.
fn retain_versions(versions: &mut Vec<AssetVersionLoad>, stale: &Vec<u32>)
    ensures
        version_views(final(versions)@) == retained(version_views(old(versions)@), stale@),
        (forall|i: int| 0 <= i < old(versions)@.len() ==> (#[trigger] old(versions)@[i])@.wf())
            ==> (forall|i: int|
            0 <= i < final(versions)@.len() ==> (#[trigger] final(versions)@[i])@.wf()),
{
    let ghost all = version_views(old(versions)@);
    let ghost keep = |v: VersionView| !stale@.contains(v.version);
    let ghost mut k: int = 0;
    let mut i: usize = 0;
    proof {
        reveal(Seq::filter);
        assert(all.take(0) =~= Seq::empty());
        assert(version_views(versions@.take(0)) =~= Seq::empty());
    }
    while i < versions.len()
        invariant
            i <= versions.len(),
            i <= k <= all.len(),
            all == version_views(old(versions)@),
            keep == (|v: VersionView| !stale@.contains(v.version)),
            versions.len() - i == all.len() - k,
            version_views(versions@.take(i as int)) == all.take(k).filter(keep),
            forall|j: int|
                i <= j < versions.len() ==> (#[trigger] versions@[j])@ == all[j - i + k],
            (forall|j: int| 0 <= j < old(versions)@.len() ==> (#[trigger] old(versions)@[j])@.wf())
                ==> (forall|j: int| 0 <= j < versions@.len() ==> (#[trigger] versions@[j])@.wf()),
        decreases versions.len() - i,
    {
        let ghost before = versions@;
        proof {
            reveal(Seq::filter);
            assert(all.take(k + 1).drop_last() =~= all.take(k));
            assert(all.take(k + 1).last() == versions@[i as int]@);
        }
        if contains_number(stale, versions[i].version) {
            versions.remove(i);
            assert(versions@.take(i as int) =~= before.take(i as int));
            assert forall|j: int| i <= j < versions.len() implies (#[trigger] versions@[j])@ == all[j
                - i + k + 1] by {
                assert(versions@[j] == before[j + 1]);
            }
            proof {
                if forall|j: int| 0 <= j < before.len() ==> (#[trigger] before[j])@.wf() {
                    assert forall|j: int| 0 <= j < versions@.len() implies (
                    #[trigger] versions@[j])@.wf() by {
                        if j < i {
                            assert(versions@[j] == before[j]);
                        } else {
                            assert(versions@[j] == before[j + 1]);
                        }
                    }
                }
            }
        } else {
            assert(versions@.take(i + 1) =~= versions@.take(i as int).push(versions@[i as int]));
            assert(version_views(versions@.take(i + 1)) =~= version_views(
                versions@.take(i as int),
            ).push(versions@[i as int]@));
            i = i + 1;
        }
        proof {
            k = k + 1;
        }
    }
    assert(all.take(k) =~= all);
    assert(versions@.take(i as int) =~= versions@);
}

} // verus!
