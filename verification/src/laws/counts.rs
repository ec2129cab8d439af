//! How a pass changes the number of references to each asset.

use vstd::arithmetic::div_mod::{
    lemma_add_mod_noop_right, lemma_mod_add_multiples_vanish, lemma_mod_self_0, lemma_small_mod,
};
use vstd::prelude::*;
use crate::ids::{AssetUuid, LoadHandle, RefView};
use crate::load::VersionView;
use crate::model::LoaderView;
use crate::storage::StorageCall;
use crate::load::newest;
use crate::load_states::deps_of;
use crate::model::{direct_handles, distinct_handles, lemma_part_distinct, part_of};
use crate::laws::passes::{lemma_pass_at, lemma_pass_frame, lemma_ready_stays};

verus! {

/// How often an asset is among dependencies.
pub open spec fn times_among(deps: Seq<RefView>, uuid: u128) -> int
    decreases deps.len(),
{
    if deps.len() == 0 {
        0
    } else {
        times_among(deps.drop_last(), uuid) + if deps.last() == RefView::Uuid(AssetUuid(uuid)) {
            1int
        } else {
            0
        }
    }
}

impl VersionView {
    /// How many references to an asset the version takes in a pass, less those that it releases:
    /// one for each time that the asset is among its dependencies.
    pub open spec fn refs_taken(self, uuid: u128) -> int {
        if self.state is RequestDependencies {
            times_among(deps_of(self.metadata), uuid)
        } else if self.state is UnloadRequested {
            -times_among(deps_of(self.metadata), uuid)
        } else {
            0
        }
    }
}

/// How many references to an asset versions take in a pass, less those that they release.
pub open spec fn refs_taken(versions: Seq<VersionView>, uuid: u128) -> int
    decreases versions.len(),
{
    if versions.len() == 0 {
        0
    } else {
        refs_taken(versions.drop_last(), uuid) + versions.last().refs_taken(uuid)
    }
}

/// A number of references, changed by a number. It wraps around.
pub open spec fn shifted(refs: int, by: int) -> int {
    (refs + by) % (usize::MAX + 1)
}

impl LoaderView {
    /// How many references to an asset the versions of loads take in a pass, less those that they
    /// release.
    pub open spec fn refs_taken(self, keys: Seq<u64>, uuid: u128) -> int
        decreases keys.len(),
    {
        if keys.len() == 0 {
            0
        } else {
            self.refs_taken(keys.drop_last(), uuid) + refs_taken(
                self.loads[keys.last()].versions,
                uuid,
            )
        }
    }

    /// How often an asset is referenced.
    pub open spec fn refs_of(self, uuid: u128) -> int {
        if self.by_uuid.contains_key(uuid) {
            self.loads[self.by_uuid[uuid]].refs as int
        } else {
            0
        }
    }
}

/// In a pass, each version that requests its dependencies takes one reference to each of them, and
/// each version that is given up releases one of each; and no number of references changes
/// otherwise. The handles of assets are direct and not shared.
pub proof fn law_pass_counts_references(
    s: LoaderView,
    keys: Seq<u64>,
    after: LoaderView,
    calls: Seq<StorageCall>,
    uuid: u128,
)
    requires
        s.passed(keys, after, calls),
        direct_handles(after.by_uuid),
    ensures
        after.refs_of(uuid) == shifted(s.refs_of(uuid), s.refs_taken(keys, uuid)),
{
    assert forall|i: int| 0 <= i < keys.len() implies s.loads.contains_key(#[trigger] keys[i]) by {
        assert(keys.to_set().contains(keys[i]));
    }
    assert forall|u: u64| keys.contains(u) implies #[trigger] s.loads.contains_key(u) by {
        assert(keys.to_set().contains(u));
    }
    lemma_pass_counts(s, keys, after.by_uuid, uuid);
}

impl LoaderView {
    /// In a pass, no load but the one at `key` has a version that takes or releases references to
    /// an asset.
    pub open spec fn touched_by_one(self, key: u64, uuid: u128) -> bool {
        forall|other: u64|
            #![trigger self.loads[other]]
            self.loads.contains_key(other) && other != key ==> refs_taken(
                self.loads[other].versions,
                uuid,
            ) == 0
    }
}

/// If only one load has versions that take or release references to an asset, then a pass changes
/// the number of references to the asset by what these versions take and release.
pub proof fn law_pass_counts_references_of_one(
    s: LoaderView,
    keys: Seq<u64>,
    after: LoaderView,
    calls: Seq<StorageCall>,
    k: int,
    uuid: u128,
)
    requires
        s.passed(keys, after, calls),
        direct_handles(after.by_uuid),
        0 <= k < keys.len(),
        s.touched_by_one(keys[k], uuid),
    ensures
        after.refs_of(uuid) == shifted(
            s.refs_of(uuid),
            refs_taken(s.loads[keys[k]].versions, uuid),
        ),
{
    law_pass_counts_references(s, keys, after, calls, uuid);
    assert forall|i: int| 0 <= i < keys.len() implies s.loads.contains_key(#[trigger] keys[i]) by {
        assert(keys.to_set().contains(keys[i]));
    }
    lemma_one_takes_all(s, keys, k, uuid);
}

/// What one load takes is what all take, if no other one takes anything.
proof fn lemma_one_takes_all(s: LoaderView, keys: Seq<u64>, k: int, uuid: u128)
    requires
        keys.no_duplicates(),
        0 <= k < keys.len(),
        forall|i: int| 0 <= i < keys.len() ==> s.loads.contains_key(#[trigger] keys[i]),
        s.touched_by_one(keys[k], uuid),
    ensures
        s.refs_taken(keys, uuid) == refs_taken(s.loads[keys[k]].versions, uuid),
    decreases keys.len(),
{
    let init = keys.drop_last();
    assert forall|i: int| 0 <= i < init.len() implies s.loads.contains_key(#[trigger] init[i]) by {
        assert(init[i] == keys[i]);
    }
    assert(keys[keys.len() - 1] == keys.last());
    if k == keys.len() - 1 {
        assert forall|i: int| 0 <= i < init.len() implies #[trigger] init[i] != keys[k] by {
            assert(init[i] == keys[i]);
        }
        lemma_none_takes(s, init, keys[k], uuid);
    } else {
        assert(init[k] == keys[k]);
        assert(init.no_duplicates());
        lemma_one_takes_all(s, init, k, uuid);
        assert(keys[k] != keys[keys.len() - 1]);
        assert(refs_taken(s.loads[keys.last()].versions, uuid) == 0);
    }
}

/// Loads that take nothing take nothing together.
proof fn lemma_none_takes(s: LoaderView, keys: Seq<u64>, key: u64, uuid: u128)
    requires
        forall|i: int|
            0 <= i < keys.len() ==> s.loads.contains_key(#[trigger] keys[i]) && keys[i] != key,
        s.touched_by_one(key, uuid),
    ensures
        s.refs_taken(keys, uuid) == 0,
    decreases keys.len(),
{
    if keys.len() > 0 {
        let init = keys.drop_last();
        assert forall|i: int| 0 <= i < init.len() implies s.loads.contains_key(
            #[trigger] init[i],
        ) && init[i] != key by {
            assert(init[i] == keys[i]);
        }
        assert(keys[keys.len() - 1] == keys.last());
        lemma_none_takes(s, init, key, uuid);
        assert(refs_taken(s.loads[keys.last()].versions, uuid) == 0);
    }
}

/// If no version takes or releases references to an asset, then the number of references to it is
/// the same whenever a pass comes to its load.
pub proof fn law_untouched_references_stay(
    s: LoaderView,
    keys: Seq<u64>,
    after: LoaderView,
    calls: Seq<StorageCall>,
    k: int,
    uuid: u128,
)
    requires
        s.passed(keys, after, calls),
        direct_handles(after.by_uuid),
        0 <= k < keys.len(),
        s.by_uuid.contains_key(uuid),
        keys[k] == s.by_uuid[uuid],
        s.touched_by_one(keys[k], uuid),
    ensures
        s.found(keys, k, after.by_uuid).loads[keys[k]].refs == s.loads[keys[k]].refs,
{
    let fresh = after.by_uuid;
    let some = keys.take(k);
    assert forall|i: int| 0 <= i < keys.len() implies s.loads.contains_key(#[trigger] keys[i]) by {
        assert(keys.to_set().contains(keys[i]));
    }
    assert forall|u: u64| keys.contains(u) implies #[trigger] s.loads.contains_key(u) by {
        assert(keys.to_set().contains(u));
    }
    lemma_pass_at(s, keys, fresh, k);
    let found = s.found(keys, k, fresh);
    found.lemma_step_load_extends(keys[k], fresh);
    assert(part_of(found.by_uuid, fresh));
    assert forall|i: int| 0 <= i < some.len() implies s.loads.contains_key(#[trigger] some[i])
        && some[i] != keys[k] by {
        assert(some[i] == keys[i]);
    }
    assert forall|u: u64| some.contains(u) implies #[trigger] s.loads.contains_key(u) by {
        let j = choose|j: int| 0 <= j < some.len() && some[j] == u;
        assert(s.loads.contains_key(some[j]));
    }
    assert(some.no_duplicates());
    lemma_pass_counts(s, some, fresh, uuid);
    lemma_none_takes(s, some, keys[k], uuid);
    lemma_refs_in_range(s, uuid);
    lemma_pass_frame(s, some, fresh);
}

/// The number of references that an asset has is a number of references.
proof fn lemma_refs_in_range(s: LoaderView, uuid: u128)
    ensures
        shifted(s.refs_of(uuid), 0) == s.refs_of(uuid),
{
    lemma_small_mod(s.refs_of(uuid) as nat, (usize::MAX + 1) as nat);
}

/// Changes of a number of references add up.
proof fn lemma_shifts_add_up(refs: int, first: int, second: int)
    ensures
        shifted(shifted(refs, first), second) == shifted(refs, first + second),
{
    lemma_add_mod_noop_right(second, refs + first, usize::MAX + 1);
}

/// Adding and removing one reference.
proof fn lemma_shift_by_one(refs: usize)
    ensures
        refs.wrapping_add(1) as int == shifted(refs as int, 1),
        refs.wrapping_sub(1) as int == shifted(refs as int, -1),
{
    let m = usize::MAX + 1;
    if refs < usize::MAX {
        lemma_small_mod((refs + 1) as nat, m as nat);
    } else {
        lemma_mod_self_0(m);
    }
    if refs > 0 {
        lemma_small_mod((refs - 1) as nat, m as nat);
    } else {
        lemma_mod_add_multiples_vanish(-1, m);
        lemma_small_mod((m - 1) as nat, m as nat);
    }
}

/// Referencing dependencies counts.
proof fn lemma_requests_count(s: LoaderView, deps: Seq<RefView>, fresh: Map<u128, u64>, uuid: u128)
    requires
        s.covered(),
        distinct_handles(fresh),
        part_of(s.add_dep_refs(deps, fresh).by_uuid, fresh),
    ensures
        s.add_dep_refs(deps, fresh).refs_of(uuid) == shifted(
            s.refs_of(uuid),
            times_among(deps, uuid),
        ),
    decreases deps.len(),
{
    if deps.len() == 0 {
        lemma_refs_in_range(s, uuid);
    } else {
        let init = deps.drop_last();
        let mid = s.add_dep_refs(init, fresh);
        let after = s.add_dep_refs(deps, fresh);
        match deps.last() {
            RefView::Path(_) => {
                lemma_requests_count(s, init, fresh, uuid);
            },
            RefView::Uuid(dep) => {
                assert(after.extends(mid));
                assert(part_of(mid.by_uuid, fresh));
                lemma_requests_count(s, init, fresh, uuid);
                s.lemma_add_dep_refs_keeps(init, fresh);
                mid.lemma_add_refs_keeps(dep.0, 1, fresh);
                let some = times_among(init, uuid);
                lemma_shifts_add_up(s.refs_of(uuid), some, 1);
                if dep.0 == uuid {
                    lemma_shift_by_one(mid.refs_of(uuid) as usize);
                } else if mid.by_uuid.contains_key(uuid) {
                    assert(after.by_uuid.contains_key(dep.0));
                    assert(fresh.contains_key(uuid) && fresh.contains_key(dep.0));
                    assert(after.by_uuid[uuid] != after.by_uuid[dep.0]);
                    assert(mid.loads.contains_key(mid.by_uuid[uuid]));
                }
            },
        }
    }
}

/// Releasing dependencies counts.
proof fn lemma_releases_count(
    s: LoaderView,
    deps: Seq<RefView>,
    handle: LoadHandle,
    version: u32,
    uuid: u128,
)
    requires
        s.covered(),
        distinct_handles(s.by_uuid),
        direct_handles(s.by_uuid),
        s.remove_dep_refs(deps, handle, version) is Ok,
    ensures
        (s.remove_dep_refs(deps, handle, version)->Ok_0).refs_of(uuid) == shifted(
            s.refs_of(uuid),
            -times_among(deps, uuid),
        ),
    decreases deps.len(),
{
    if deps.len() == 0 {
        lemma_refs_in_range(s, uuid);
    } else {
        let init = deps.drop_last();
        let mid = s.remove_dep_refs(init, handle, version)->Ok_0;
        lemma_releases_count(s, init, handle, version, uuid);
        s.lemma_remove_dep_refs_keeps(init, handle, version);
        let dep = deps.last()->Uuid_0;
        let key = mid.by_uuid[dep.0];
        assert(mid.by_uuid.contains_key(dep.0));
        mid.lemma_remove_direct(LoadHandle(key), 1);
        let some = times_among(init, uuid);
        lemma_shifts_add_up(s.refs_of(uuid), -some, -1);
        if dep.0 == uuid {
            assert(mid.loads.contains_key(key));
            lemma_shift_by_one(mid.refs_of(uuid) as usize);
        } else if mid.by_uuid.contains_key(uuid) {
            assert(mid.by_uuid[uuid] != key);
        }
    }
}

/// A part of handles that are direct is direct.
proof fn lemma_part_direct(part: Map<u128, u64>, whole: Map<u128, u64>)
    requires
        part_of(part, whole),
        direct_handles(whole),
    ensures
        direct_handles(part),
{
    assert forall|u: u128| #[trigger] part.contains_key(u) implies !LoadHandle(
        part[u],
    ).indirect() by {
        assert(whole.contains_key(u));
    }
}

/// The steps of versions count.
proof fn lemma_steps_count(
    s: LoaderView,
    key: u64,
    has_refs: bool,
    newest: u32,
    versions: Seq<VersionView>,
    fresh: Map<u128, u64>,
    uuid: u128,
)
    requires
        s.covered(),
        distinct_handles(fresh),
        direct_handles(fresh),
        s.step_versions(key, has_refs, newest, versions, fresh) matches Ok(p) && part_of(
            p.loader.by_uuid,
            fresh,
        ),
    ensures
        s.step_versions(key, has_refs, newest, versions, fresh) matches Ok(p) && p.loader.refs_of(
            uuid,
        ) == shifted(s.refs_of(uuid), refs_taken(versions, uuid)),
    decreases versions.len(),
{
    if versions.len() == 0 {
        lemma_refs_in_range(s, uuid);
    } else {
        let init = versions.drop_last();
        let v = versions.last();
        let p = s.step_versions(key, has_refs, newest, init, fresh)->Ok_0;
        p.loader.lemma_step_version_extends(key, has_refs, newest, v, fresh);
        assert(part_of(p.loader.by_uuid, fresh));
        lemma_steps_count(s, key, has_refs, newest, init, fresh, uuid);
        lemma_ready_stays(s, key, has_refs, newest, init, fresh);
        lemma_shifts_add_up(s.refs_of(uuid), refs_taken(init, uuid), v.refs_taken(uuid));
        lemma_refs_in_range(p.loader, uuid);
        let deps = deps_of(v.metadata);
        if v.state is RequestDependencies {
            lemma_requests_count(p.loader, deps, fresh, uuid);
        } else if v.state is UnloadRequested {
            lemma_part_distinct(p.loader.by_uuid, fresh);
            lemma_part_direct(p.loader.by_uuid, fresh);
            lemma_releases_count(p.loader, deps, LoadHandle(key), v.version, uuid);
        }
    }
}

/// The step of a load counts.
proof fn lemma_step_counts(s: LoaderView, key: u64, fresh: Map<u128, u64>, uuid: u128)
    requires
        s.covered(),
        s.loads.contains_key(key),
        s.loads[key].versions.len() > 0,
        distinct_handles(fresh),
        direct_handles(fresh),
        s.step_load(key, fresh) matches Ok((t, calls)) && part_of(t.by_uuid, fresh),
    ensures
        s.step_load(key, fresh) matches Ok((t, calls)) && t.refs_of(uuid) == shifted(
            s.refs_of(uuid),
            refs_taken(s.loads[key].versions, uuid),
        ),
{
    let load = s.loads[key];
    let started = s.started(key);
    let begun = s.with_load(key, started);
    let n = newest(started.versions);
    assert(begun.covered());
    lemma_steps_count(begun, key, load.refs > 0, n, started.versions, fresh, uuid);
    assert(begun.refs_of(uuid) == s.refs_of(uuid));
    if load.starts_reload() {
        assert(started.versions.drop_last() =~= load.versions);
        assert(refs_taken(started.versions, uuid) == refs_taken(load.versions, uuid));
    }
}

/// The steps of loads count.
proof fn lemma_pass_counts(s: LoaderView, keys: Seq<u64>, fresh: Map<u128, u64>, uuid: u128)
    requires
        s.wf(),
        distinct_handles(fresh),
        direct_handles(fresh),
        keys.no_duplicates(),
        forall|i: int| 0 <= i < keys.len() ==> s.loads.contains_key(#[trigger] keys[i]),
        forall|u: u64| keys.contains(u) ==> #[trigger] s.loads.contains_key(u),
        s.step_loads(keys, fresh) matches Ok((t, calls)) && part_of(t.by_uuid, fresh),
    ensures
        s.step_loads(keys, fresh) matches Ok((t, calls)) && t.refs_of(uuid) == shifted(
            s.refs_of(uuid),
            s.refs_taken(keys, uuid),
        ),
    decreases keys.len(),
{
    if keys.len() == 0 {
        lemma_refs_in_range(s, uuid);
    } else {
        let init = keys.drop_last();
        let key = keys.last();
        let k = keys.len() - 1;
        let mid = (s.step_loads(init, fresh)->Ok_0).0;
        mid.lemma_step_load_extends(key, fresh);
        assert(part_of(mid.by_uuid, fresh));
        assert forall|i: int| 0 <= i < init.len() implies s.loads.contains_key(
            #[trigger] init[i],
        ) by {
            assert(init[i] == keys[i]);
        }
        assert forall|u: u64| init.contains(u) implies #[trigger] s.loads.contains_key(u) by {
            let j = choose|j: int| 0 <= j < init.len() && init[j] == u;
            assert(keys[j] == u);
        }
        lemma_pass_counts(s, init, fresh, uuid);
        lemma_pass_at(s, keys, fresh, k);
        assert(keys.take(k) =~= init);
        assert(mid.loads[key].versions == s.loads[key].versions);
        lemma_step_counts(mid, key, fresh, uuid);
        lemma_shifts_add_up(
            s.refs_of(uuid),
            s.refs_taken(init, uuid),
            refs_taken(s.loads[key].versions, uuid),
        );
    }
}

} // verus!
