//! The versions of an asset: which are there, which one is in use, and their numbers.

use vstd::prelude::*;
use crate::ids::LoadHandle;
use crate::load::{LoadState, LoadView, VersionQuery, VersionView};
use crate::load_states::VersionStep;
use crate::metadata::MetadataView;
use crate::model::{LoaderView, Stop};
use crate::storage::{LoadStatus, StorageCall};
use crate::load::{all_loaded, is_first, lemma_position_none, lemma_position_some, newest, position};
use crate::load_states::{lemma_newest, lemma_retained, retained};
use crate::loader::newest_version;
use crate::model::{distinct_handles, lemma_part_distinct};

verus! {

/// An asset has a type exactly if one of its versions is in use. So an asset that is loaded has
/// one.
pub proof fn law_loaded_asset_has_type(load: LoadView)
    requires
        load.wf(),
    ensures
        load.asset_type() is Some <==> exists|i: int|
            0 <= i < load.versions.len() && (#[trigger] load.versions[i]).state is Loaded,
        load.status() == LoadStatus::Loaded ==> load.asset_type() is Some,
{
    lemma_position_none(load.versions, VersionQuery::InState(LoadState::Loaded));
    lemma_newest_version(load.versions);
}

/// The newest version is one of the versions.
proof fn lemma_newest_version(versions: Seq<VersionView>)
    ensures
        newest_version(versions) is None <==> versions.len() == 0,
        newest_version(versions) matches Some(v) ==> exists|i: int|
            0 <= i < versions.len() && #[trigger] versions[i] == v,
    decreases versions.len(),
{
    if versions.len() > 0 {
        lemma_newest_version(versions.drop_last());
        if let Some(v) = newest_version(versions.drop_last()) {
            let k = choose|k: int|
                0 <= k < versions.drop_last().len() && #[trigger] versions.drop_last()[k] == v;
            assert(versions[k] == v);
        }
        assert(versions[versions.len() - 1] == versions.last());
    }
}

/// Committing a version leaves exactly that version in use: every other one is to be unloaded, and
/// the storage is told once.
pub proof fn law_commit_leaves_one_version_in_use(load: LoadView, handle: LoadHandle, version: u32)
    requires
        load.numbered(),
        load.commit(handle, version) is Ok,
    ensures
        load.commit(handle, version) matches Ok((after, call)) && {
            &&& after.versions.len() == load.versions.len()
            &&& forall|i: int|
                0 <= i < after.versions.len() ==> {
                    &&& (#[trigger] after.versions[i]).version == load.versions[i].version
                    &&& after.versions[i].state == (if after.versions[i].version == version {
                        LoadState::Loaded
                    } else {
                        LoadState::UnloadRequested
                    })
                }
            &&& exists|i: int|
                0 <= i < after.versions.len() && (#[trigger] after.versions[i]).version == version
            &&& after.asset_type() matches Some(asset_type) && call == (StorageCall::Commit {
                asset_type,
                handle,
                version,
            })
        },
{
    lemma_position_none(load.versions, VersionQuery::Number(version));
    let i = position(load.versions, VersionQuery::Number(version))->0;
    let after = (load.commit(handle, version)->Ok_0).0;
    assert(after.versions[i].version == version);
    assert forall|j: int| 0 <= j < load.versions.len() && j != i implies (
    #[trigger] load.versions[j]).version != version by {
        if j < i {
            assert(load.versions[j].version < load.versions[i].version);
        } else {
            assert(load.versions[i].version < load.versions[j].version);
        }
    }
    assert forall|j: int| 0 <= j < after.versions.len() implies (
    #[trigger] after.versions[j]).version == load.versions[j].version by {}
    let loaded = VersionQuery::InState(LoadState::Loaded);
    assert(is_first(after.versions, loaded, i));
    lemma_position_some(after.versions, loaded, i);
}

/// A new version gets a number that no version of the load has had.
pub proof fn law_new_version_has_new_number(
    load: LoadView,
    auto_commit: bool,
    metadata: Option<MetadataView>,
)
    requires
        load.numbered(),
        load.version_counter < u32::MAX,
    ensures
        load.with_new_version(auto_commit, metadata).numbered(),
        newest(load.with_new_version(auto_commit, metadata).versions) == load.version_counter + 1,
        forall|i: int|
            0 <= i < load.versions.len() ==> (#[trigger] load.versions[i]).version
                < load.version_counter + 1,
{
    let after = load.with_new_version(auto_commit, metadata);
    assert(after.versions.drop_last() =~= load.versions);
    lemma_newest(load.versions);
    if load.versions.len() > 0 {
        let k = choose|k: int|
            0 <= k < load.versions.len() && (#[trigger] load.versions[k]).version == newest(
                load.versions,
            );
        assert(load.versions[k].version <= load.version_counter);
    }
}

/// As long as no two assets share a handle, the versions of every load are in the order of their
/// numbers, and a pass over a load takes back no number that was given, in any load.
pub proof fn law_version_numbers_are_not_given_twice(
    s: LoaderView,
    key: u64,
    after: LoaderView,
    calls: Seq<StorageCall>,
    other: u64,
)
    requires
        s.wf(),
        s.loads.contains_key(key),
        s.loads.contains_key(other),
        distinct_handles(after.by_uuid),
        s.step_load(key, after.by_uuid) == Ok::<(LoaderView, Seq<StorageCall>), Stop>(
            (after, calls),
        ),
    ensures
        s.loads[other].numbered(),
        after.loads.contains_key(other),
        after.loads[other].asset_id == s.loads[other].asset_id,
        after.loads[other].version_counter >= s.loads[other].version_counter,
        other != key ==> after.loads[other].versions == s.loads[other].versions,
{
    let started = s.started(key);
    let begun = s.with_load(key, started);
    s.lemma_step_load_extends(key, after.by_uuid);
    lemma_part_distinct(s.by_uuid, after.by_uuid);
    if !(s.loads[key].refs == 0 && s.loads[key].versions.len() == 0) {
        assert(begun.covered());
        begun.lemma_step_versions_keeps(
            key,
            s.loads[key].refs > 0,
            newest(started.versions),
            started.versions,
            after.by_uuid,
        );
        let p = begun.step_versions(
            key,
            s.loads[key].refs > 0,
            newest(started.versions),
            started.versions,
            after.by_uuid,
        )->Ok_0;
        assert(p.loader.by_uuid == after.by_uuid);
        assert(begun.loads.contains_key(key) && begun.loads.contains_key(other));
    }
}

/// A pass never removes the newest version of an asset: an asset that has versions keeps one, and
/// the highest number stays the same unless the pass starts a new version.
pub proof fn law_newest_version_is_kept(
    s: LoaderView,
    key: u64,
    fresh: Map<u128, u64>,
    after: LoaderView,
    calls: Seq<StorageCall>,
)
    requires
        s.loads.contains_key(key),
        s.loads[key].versions.len() > 0,
        s.step_load(key, fresh) == Ok::<(LoaderView, Seq<StorageCall>), Stop>((after, calls)),
    ensures
        after.loads[key].versions.len() > 0,
        newest(after.loads[key].versions) == newest(s.started(key).versions),
{
    let versions = s.started(key).versions;
    let n = newest(versions);
    let begun = s.with_load(key, s.started(key));
    begun.lemma_step_versions_numbers(key, s.loads[key].refs > 0, n, versions, fresh);
    let p = begun.step_versions(key, s.loads[key].refs > 0, n, versions, fresh)->Ok_0;
    lemma_newest(versions);
    lemma_retained(p.versions, p.stale);
    let rest = retained(p.versions, p.stale);
    let i = choose|i: int| 0 <= i < versions.len() && (#[trigger] versions[i]).version == n;
    assert(p.versions[i].version == n);
    assert(!p.stale.contains(n)) by {
        if p.stale.contains(n) {
            let k = choose|k: int| 0 <= k < p.stale.len() && p.stale[k] == n;
            assert(p.stale[k] < n);
        }
    }
    assert(rest.contains(p.versions[i]));
    let j = choose|j: int| 0 <= j < rest.len() && rest[j] == p.versions[i];
    lemma_newest(rest);
    assert(rest[j].version <= newest(rest));
    let k = choose|k: int| 0 <= k < rest.len() && (#[trigger] rest[k]).version == newest(rest);
    assert(p.versions.contains(rest[k]));
    let l = choose|l: int| 0 <= l < p.versions.len() && p.versions[l] == rest[k];
    assert(versions[l].version <= n);
}

/// A version that is superseded and not in use any more is removed in the next pass, whether or not
/// the asset is referenced.
pub proof fn law_superseded_version_is_removed(
    s: LoaderView,
    key: u64,
    fresh: Map<u128, u64>,
    after: LoaderView,
    calls: Seq<StorageCall>,
    i: int,
)
    requires
        s.loads.contains_key(key),
        0 <= i < s.loads[key].versions.len(),
        s.loads[key].versions[i].state is Idle,
        s.loads[key].versions[i].version < newest(s.started(key).versions),
        s.step_load(key, fresh) == Ok::<(LoaderView, Seq<StorageCall>), Stop>((after, calls)),
    ensures
        forall|j: int|
            0 <= j < after.loads[key].versions.len() ==> (
            #[trigger] after.loads[key].versions[j]).version != s.loads[key].versions[i].version,
{
    let versions = s.started(key).versions;
    let begun = s.with_load(key, s.started(key));
    assert(versions[i] == s.loads[key].versions[i]);
    let n = newest(versions);
    let has_refs = s.loads[key].refs > 0;
    lemma_idle_is_superseded(begun, key, has_refs, n, versions, fresh, i);
    let p = begun.step_versions(key, has_refs, n, versions, fresh)->Ok_0;
    lemma_retained_excludes(p.versions, p.stale);
}

/// A step of a version calls the storage only to give the version up, and then the version has no
/// type any more, so that it is not given up twice.
pub proof fn law_version_is_given_up_once(
    s: LoaderView,
    key: u64,
    has_refs: bool,
    newest: u32,
    v: VersionView,
    fresh: Map<u128, u64>,
    step: VersionStep,
)
    requires
        s.step_version(key, has_refs, newest, v, fresh) == Ok::<VersionStep, Stop>(step),
        step.calls.len() > 0,
    ensures
        v.state is UnloadRequested,
        v.asset_type matches Some(asset_type) && step.calls == seq![
            StorageCall::Free { asset_type, handle: LoadHandle(key), version: v.version },
        ],
        step.version.asset_type is None,
        step.version.state is Unloading,
{
}

/// An asset that is referenced and whose versions are all in use stays as it is, as long as no
/// reload is pending: a pass over its load changes nothing and makes no call.
pub proof fn law_loaded_asset_stays(s: LoaderView, key: u64, fresh: Map<u128, u64>)
    requires
        s.loads.contains_key(key),
        s.loads[key].refs > 0,
        !s.loads[key].pending_reload,
        all_loaded(s.loads[key].versions),
    ensures
        s.step_load(key, fresh) == Ok::<(LoaderView, Seq<StorageCall>), Stop>(
            (s, Seq::empty()),
        ),
{
    let load = s.loads[key];
    let begun = s.with_load(key, load);
    assert(begun =~= s);
    let n = newest(load.versions);
    lemma_loaded_versions_stay(s, key, n, load.versions, fresh);
    let p = s.step_versions(key, true, n, load.versions, fresh)->Ok_0;
    assert(retained(load.versions, Seq::empty()) =~= load.versions) by {
        lemma_retained_all(load.versions);
    }
    assert(s.with_load(key, LoadView { versions: load.versions, ..load }) =~= s);
}

/// A version that is idle and superseded is noted for removal.
pub proof fn lemma_idle_is_superseded(
    s: LoaderView,
    key: u64,
    has_refs: bool,
    newest: u32,
    versions: Seq<VersionView>,
    fresh: Map<u128, u64>,
    i: int,
)
    requires
        0 <= i < versions.len(),
        versions[i].state is Idle,
        versions[i].version < newest,
    ensures
        s.step_versions(key, has_refs, newest, versions, fresh) matches Ok(p) ==> p.stale.contains(
            versions[i].version,
        ),
    decreases versions.len(),
{
    let init = versions.drop_last();
    if let Ok(q) = s.step_versions(key, has_refs, newest, versions, fresh) {
        let p = s.step_versions(key, has_refs, newest, init, fresh)->Ok_0;
        if i < init.len() {
            assert(init[i] == versions[i]);
            lemma_idle_is_superseded(s, key, has_refs, newest, init, fresh, i);
            let k = choose|k: int| 0 <= k < p.stale.len() && p.stale[k] == versions[i].version;
            assert(q.stale[k] == versions[i].version);
        } else {
            assert(q.stale[q.stale.len() - 1] == versions[i].version);
        }
    }
}

/// Nothing is removed when nothing is superseded.
pub proof fn lemma_retained_all(versions: Seq<VersionView>)
    ensures
        retained(versions, Seq::empty()) == versions,
    decreases versions.len(),
{
    reveal(Seq::filter);
    if versions.len() > 0 {
        lemma_retained_all(versions.drop_last());
        assert(versions =~= versions.drop_last().push(versions.last()));
    }
}

/// What remains has none of the numbers that are removed.
pub proof fn lemma_retained_excludes(versions: Seq<VersionView>, stale: Seq<u32>)
    ensures
        forall|i: int|
            0 <= i < retained(versions, stale).len() ==> !stale.contains(
                (#[trigger] retained(versions, stale)[i]).version,
            ),
    decreases versions.len(),
{
    reveal(Seq::filter);
    if versions.len() > 0 {
        lemma_retained_excludes(versions.drop_last(), stale);
    }
}

pub proof fn lemma_loaded_versions_stay(
    s: LoaderView,
    key: u64,
    newest: u32,
    versions: Seq<VersionView>,
    fresh: Map<u128, u64>,
)
    requires
        all_loaded(versions),
    ensures
        s.step_versions(key, true, newest, versions, fresh) matches Ok(p) && {
            &&& p.loader == s
            &&& p.versions == versions
            &&& p.calls == Seq::<StorageCall>::empty()
            &&& p.stale == Seq::<u32>::empty()
        },
    decreases versions.len(),
{
    if versions.len() > 0 {
        let init = versions.drop_last();
        assert forall|i: int| 0 <= i < init.len() implies (#[trigger] init[i]).state is Loaded by {
            assert(init[i] == versions[i]);
        }
        lemma_loaded_versions_stay(s, key, newest, init, fresh);
        assert(versions[versions.len() - 1].state is Loaded);
        assert(versions =~= init.push(versions.last()));
        assert(Seq::<StorageCall>::empty() + Seq::<StorageCall>::empty()
            =~= Seq::<StorageCall>::empty());
    }
}

} // verus!
