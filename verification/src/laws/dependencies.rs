//! What holds of the assets that an asset depends on.

use vstd::prelude::*;
use crate::error::ErrorView;
use crate::ids::{AssetUuid, LoadHandle, RefView};
use crate::load::VersionView;
use crate::load_states::VersionStep;
use crate::model::{LoaderView, Stop};
use crate::load::newest;
use crate::load_states::deps_of;
use crate::model::{direct_handles, distinct_handles, part_of};

verus! {

impl LoaderView {
    /// The state in which each dependency that is given by its UUID has a load.
    pub open spec fn insert_deps(self, deps: Seq<RefView>, fresh: Map<u128, u64>) -> LoaderView
        decreases deps.len(),
    {
        if deps.len() == 0 {
            self
        } else {
            let s = self.insert_deps(deps.drop_last(), fresh);
            match deps.last() {
                RefView::Uuid(uuid) => s.get_or_insert(uuid.0, fresh),
                RefView::Path(_) => s,
            }
        }
    }

    /// The handles of all dependencies are known.
    pub open spec fn has_deps(self, deps: Seq<RefView>) -> bool {
        forall|i: int|
            0 <= i < deps.len() ==> (#[trigger] deps[i]) is Uuid && self.by_uuid.contains_key(
                deps[i]->Uuid_0.0,
            )
    }

    /// Adding a reference and then releasing dependencies comes to the same as the other way round.
    proof fn lemma_release_commutes(
        self,
        deps: Seq<RefView>,
        uuid: u128,
        fresh: Map<u128, u64>,
        handle: LoadHandle,
        version: u32,
    )
        requires
            self.covered(),
            direct_handles(self.by_uuid),
            self.has_deps(deps),
            !self.by_uuid.contains_key(uuid) ==> !self.loads.contains_key(fresh[uuid]),
        ensures
            self.remove_dep_refs(deps, handle, version) matches Ok(t) && {
                &&& t.by_uuid == self.by_uuid
                &&& t.loads.dom() == self.loads.dom()
                &&& t.covered()
                &&& self.add_refs(uuid, 1, fresh).remove_dep_refs(deps, handle, version) == Ok::<
                    LoaderView,
                    ErrorView,
                >(t.add_refs(uuid, 1, fresh))
            },
        decreases deps.len(),
    {
        if deps.len() > 0 {
            let init = deps.drop_last();
            assert forall|i: int| 0 <= i < init.len() implies (#[trigger] init[i]) is Uuid
                && self.by_uuid.contains_key(init[i]->Uuid_0.0) by {
                assert(init[i] == deps[i]);
            }
            self.lemma_release_commutes(init, uuid, fresh, handle, version);
            let t = self.remove_dep_refs(init, handle, version)->Ok_0;
            assert(deps[deps.len() - 1] == deps.last());
            let dep = deps.last()->Uuid_0.0;
            let key = self.by_uuid[dep];
            assert(self.by_uuid.contains_key(dep));
            assert(t.loads.contains_key(key));
            let released = t.remove_direct_refs(key, 1);
            assert(released.loads.dom() =~= t.loads.dom());
            assert(released.covered());
            let added = t.add_refs(uuid, 1, fresh);
            assert(added.by_uuid.contains_key(dep) && added.by_uuid[dep] == key);
            assert(added.loads.contains_key(key));
            t.lemma_remove_direct(LoadHandle(key), 1);
            added.lemma_remove_direct(LoadHandle(key), 1);
            assert(added.remove_direct_refs(key, 1) =~= released.add_refs(uuid, 1, fresh));
        }
    }

    /// What holds while dependencies are referenced: each has a load, and the handles of those to
    /// come are not in use.
    proof fn lemma_requested_deps(self, deps: Seq<RefView>, fresh: Map<u128, u64>, next: u128)
        requires
            self.covered(),
            distinct_handles(fresh),
            part_of(self.by_uuid, fresh),
            forall|i: int|
                0 <= i < deps.len() ==> (#[trigger] deps[i]) is Uuid && fresh.contains_key(
                    deps[i]->Uuid_0.0,
                ),
            fresh.contains_key(next),
        ensures
            self.add_dep_refs(deps, fresh).covered(),
            self.add_dep_refs(deps, fresh).has_deps(deps),
            self.add_dep_refs(deps, fresh).by_uuid == self.insert_deps(deps, fresh).by_uuid,
            part_of(self.add_dep_refs(deps, fresh).by_uuid, fresh),
            !self.add_dep_refs(deps, fresh).by_uuid.contains_key(next) ==> !self.add_dep_refs(
                deps,
                fresh,
            ).loads.contains_key(fresh[next]),
        decreases deps.len(),
    {
        let after = self.add_dep_refs(deps, fresh);
        if deps.len() > 0 {
            let init = deps.drop_last();
            assert forall|i: int| 0 <= i < init.len() implies (#[trigger] init[i]) is Uuid
                && fresh.contains_key(init[i]->Uuid_0.0) by {
                assert(init[i] == deps[i]);
            }
            assert(deps[deps.len() - 1] == deps.last());
            let uuid = deps.last()->Uuid_0.0;
            self.lemma_requested_deps(init, fresh, uuid);
            let s = self.add_dep_refs(init, fresh);
            assert(part_of(s.add_refs(uuid, 1, fresh).by_uuid, fresh));
            s.lemma_add_refs_keeps(uuid, 1, fresh);
            assert forall|i: int| 0 <= i < deps.len() implies (#[trigger] deps[i]) is Uuid
                && after.by_uuid.contains_key(deps[i]->Uuid_0.0) by {
                if i < init.len() {
                    assert(init[i] == deps[i]);
                }
            }
        }
        if !after.by_uuid.contains_key(next) && after.loads.contains_key(fresh[next]) {
            let owner = after.loads[fresh[next]].asset_id.0;
            assert(after.by_uuid.contains_key(owner));
            assert(fresh.contains_key(owner) && fresh.contains_key(next));
        }
    }
}

/// Unloading a version releases exactly the references to its dependencies that loading it took, as
/// long as the handles of assets are direct and not shared: all that remains is a load for each
/// dependency that had none.
pub proof fn law_unloading_releases_what_loading_took(
    s: LoaderView,
    deps: Seq<RefView>,
    fresh: Map<u128, u64>,
    handle: LoadHandle,
    version: u32,
)
    requires
        s.wf(),
        part_of(s.by_uuid, fresh),
        distinct_handles(fresh),
        direct_handles(fresh),
        forall|i: int|
            0 <= i < deps.len() ==> (#[trigger] deps[i]) is Uuid && fresh.contains_key(
                deps[i]->Uuid_0.0,
            ),
    ensures
        s.add_dep_refs(deps, fresh).remove_dep_refs(deps, handle, version) == Ok::<
            LoaderView,
            ErrorView,
        >(s.insert_deps(deps, fresh)),
    decreases deps.len(),
{
    if deps.len() > 0 {
        let init = deps.drop_last();
        assert forall|i: int| 0 <= i < init.len() implies (#[trigger] init[i]) is Uuid
            && fresh.contains_key(init[i]->Uuid_0.0) by {
            assert(init[i] == deps[i]);
        }
        assert(deps[deps.len() - 1] == deps.last());
        let uuid = deps.last()->Uuid_0.0;
        law_unloading_releases_what_loading_took(s, init, fresh, handle, version);
        s.lemma_requested_deps(init, fresh, uuid);
        let requested = s.add_dep_refs(init, fresh);
        assert(direct_handles(requested.by_uuid)) by {
            assert forall|u: u128| #[trigger]
                requested.by_uuid.contains_key(u) implies !LoadHandle(requested.by_uuid[u]).indirect() by {
                assert(fresh.contains_key(u));
            }
        }
        requested.lemma_release_commutes(init, uuid, fresh, handle, version);
        let inserted = s.insert_deps(init, fresh);
        let before = inserted.get_or_insert(uuid, fresh);
        let key = before.by_uuid[uuid];
        assert(before.loads.contains_key(key));
        assert(before.loads[key].refs_added(1).refs_removed(1) == before.loads[key]);
        assert(before.by_uuid[uuid] == fresh[uuid]);
        inserted.add_refs(uuid, 1, fresh).lemma_remove_direct(LoadHandle(key), 1);
        assert(inserted.add_refs(uuid, 1, fresh).remove_direct_refs(key, 1) =~= before);
    }
}

/// A version waits for its data only once the storage has loaded every version of everything that
/// it depends on; and then it does, in the next step.
pub proof fn law_dependencies_are_loaded_first(
    s: LoaderView,
    key: u64,
    has_refs: bool,
    newest: u32,
    v: VersionView,
    fresh: Map<u128, u64>,
    step: VersionStep,
)
    requires
        !(v.state is WaitingForData),
        s.step_version(key, has_refs, newest, v, fresh) == Ok::<VersionStep, Stop>(step),
    ensures
        step.version.state is WaitingForData <==> v.state is WaitingForDependencies && forall|i: int|
            0 <= i < deps_of(v.metadata).len() ==> s.dep_ready(#[trigger] deps_of(v.metadata)[i]),
{
    let deps = deps_of(v.metadata);
    if exists|i: int| s.is_first_unready(deps, i) {
        let i = choose|i: int| s.is_first_unready(deps, i);
        assert(!s.dep_ready(deps[i]));
    } else {
        assert forall|i: int| 0 <= i < deps.len() implies s.dep_ready(#[trigger] deps[i]) by {
            if !s.dep_ready(deps[i]) {
                s.lemma_unready_exists(deps, i);
            }
        }
    }
}

impl LoaderView {
    proof fn lemma_unready_exists(self, deps: Seq<RefView>, j: int)
        requires
            0 <= j < deps.len(),
            !self.dep_ready(deps[j]),
        ensures
            exists|i: int| self.is_first_unready(deps, i),
        decreases j,
    {
        if forall|k: int| 0 <= k < j ==> self.dep_ready(#[trigger] deps[k]) {
            assert(self.is_first_unready(deps, j));
        } else {
            let k = choose|k: int| 0 <= k < j && !self.dep_ready(#[trigger] deps[k]);
            self.lemma_unready_exists(deps, k);
        }
    }
}

/// In the step of a version, only assets that it depends on get loads.
pub proof fn law_step_makes_loads_for_dependencies(
    s: LoaderView,
    key: u64,
    has_refs: bool,
    newest: u32,
    v: VersionView,
    fresh: Map<u128, u64>,
    step: VersionStep,
    uuid: u128,
)
    requires
        s.wf(),
        s.step_version(key, has_refs, newest, v, fresh) == Ok::<VersionStep, Stop>(step),
        step.loader.by_uuid.contains_key(uuid),
        !s.by_uuid.contains_key(uuid),
    ensures
        v.state is RequestDependencies,
        deps_of(v.metadata).contains(RefView::Uuid(AssetUuid(uuid))),
{
    let deps = deps_of(v.metadata);
    lemma_dep_refs_make_loads(s, deps, fresh, uuid);
    s.lemma_remove_dep_refs_keeps(deps, LoadHandle(key), v.version);
}

/// Referencing dependencies makes loads for them only.
pub proof fn lemma_dep_refs_make_loads(
    s: LoaderView,
    deps: Seq<RefView>,
    fresh: Map<u128, u64>,
    uuid: u128,
)
    ensures
        s.add_dep_refs(deps, fresh).by_uuid.contains_key(uuid) ==> s.by_uuid.contains_key(uuid)
            || deps.contains(RefView::Uuid(AssetUuid(uuid))),
    decreases deps.len(),
{
    if deps.len() > 0 {
        let init = deps.drop_last();
        lemma_dep_refs_make_loads(s, init, fresh, uuid);
        let wanted = RefView::Uuid(AssetUuid(uuid));
        if init.contains(wanted) {
            let k = choose|k: int| 0 <= k < init.len() && init[k] == wanted;
            assert(deps[k] == wanted);
        }
        assert(deps[deps.len() - 1] == deps.last());
    }
}

/// Releasing dependencies that have loads succeeds, and leaves every other load as it is.
pub proof fn lemma_release(
    s: LoaderView,
    deps: Seq<RefView>,
    handle: LoadHandle,
    version: u32,
    key: u64,
)
    requires
        s.covered(),
        direct_handles(s.by_uuid),
        s.has_deps(deps),
        forall|i: int|
            0 <= i < deps.len() ==> s.by_uuid[(#[trigger] deps[i])->Uuid_0.0] != key,
    ensures
        s.remove_dep_refs(deps, handle, version) matches Ok(t) && {
            &&& t.by_uuid == s.by_uuid
            &&& t.covered()
            &&& t.loads.contains_key(key) == s.loads.contains_key(key)
            &&& t.loads[key] == s.loads[key]
        },
    decreases deps.len(),
{
    if deps.len() > 0 {
        let init = deps.drop_last();
        assert forall|i: int| 0 <= i < init.len() implies (#[trigger] init[i]) is Uuid
            && s.by_uuid.contains_key(init[i]->Uuid_0.0) && s.by_uuid[init[i]->Uuid_0.0] != key by {
            assert(init[i] == deps[i]);
        }
        lemma_release(s, init, handle, version, key);
        assert(deps[deps.len() - 1] == deps.last());
        assert(s.by_uuid.contains_key(deps.last()->Uuid_0.0));
        let t = s.remove_dep_refs(init, handle, version)->Ok_0;
        t.lemma_remove_direct(LoadHandle(t.by_uuid[deps.last()->Uuid_0.0]), 1);
    }
}

/// Referencing dependencies that have loads leaves every other load as it is, and all versions.
pub proof fn lemma_request_existing(s: LoaderView, deps: Seq<RefView>, fresh: Map<u128, u64>, key: u64)
    requires
        s.covered(),
        s.has_deps(deps),
        forall|i: int|
            0 <= i < deps.len() ==> s.by_uuid[(#[trigger] deps[i])->Uuid_0.0] != key,
    ensures
        s.add_dep_refs(deps, fresh).by_uuid == s.by_uuid,
        s.add_dep_refs(deps, fresh).loads.dom() == s.loads.dom(),
        s.add_dep_refs(deps, fresh).covered(),
        s.add_dep_refs(deps, fresh).keeps_loads(s),
        s.add_dep_refs(deps, fresh).loads[key] == s.loads[key],
    decreases deps.len(),
{
    if deps.len() > 0 {
        let init = deps.drop_last();
        assert forall|i: int| 0 <= i < init.len() implies (#[trigger] init[i]) is Uuid
            && s.by_uuid.contains_key(init[i]->Uuid_0.0) && s.by_uuid[init[i]->Uuid_0.0] != key by {
            assert(init[i] == deps[i]);
        }
        lemma_request_existing(s, init, fresh, key);
        assert(deps[deps.len() - 1] == deps.last());
        let uuid = deps.last()->Uuid_0.0;
        assert(s.by_uuid.contains_key(uuid));
        assert(s.add_dep_refs(deps, fresh).loads.dom() =~= s.loads.dom());
    }
}

} // verus!
