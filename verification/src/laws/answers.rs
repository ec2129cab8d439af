//! What a loader answers when it is asked about a handle.

use vstd::prelude::*;
use crate::ids::{AssetTypeId, LoadHandle};
use crate::load::{LoadState, LoadView, VersionQuery, VersionView};
use crate::model::LoaderView;
use crate::storage::LoadStatus;
use crate::load::{is_first, lemma_position_none, lemma_position_some};
use crate::loader::newest_version;

verus! {

impl LoaderView {
    /// A handle leads to the load at `key`: it is the handle of that load, or it carries the mark
    /// and the table has the load for it.
    pub open spec fn leads_to(self, handle: LoadHandle, key: u64) -> bool {
        &&& self.loads.contains_key(key)
        &&& if handle.0 < 0x8000_0000_0000_0000u64 {
            key == handle.0
        } else {
            self.table.contains_key(handle.0) && self.table[handle.0] == key
        }
    }
}

/// A handle without the mark is the handle of a load, whether or not there is one; a handle with
/// the mark leads to the load that the table has for it, and to none if the table has none.
pub proof fn law_handle_leads_to_load(s: LoaderView, handle: LoadHandle, key: u64)
    requires
        s.wf(),
    ensures
        s.leads_to(handle, key) ==> s.load_of(handle) == Some(s.loads[key]),
        s.load_of(handle) is Some ==> exists|k: u64| s.leads_to(handle, k),
        s.status(handle) == LoadStatus::Unresolved <==> handle.0 >= 0x8000_0000_0000_0000u64
            && !s.table.contains_key(handle.0),
        s.status(handle) != LoadStatus::NotRequested && s.status(handle) != LoadStatus::Unresolved
            ==> exists|k: u64| s.leads_to(handle, k),
{
    if s.load_of(handle) is Some {
        assert(s.leads_to(handle, s.resolve(handle)->0));
    }
    if s.resolve(handle) is Some {
        let k = s.resolve(handle)->0;
        if s.loads.contains_key(k) {
            assert(s.leads_to(handle, k));
        }
    }
}

/// The status of a load that is referenced is never `NotRequested`.
pub proof fn law_referenced_load_is_requested(s: LoaderView, handle: LoadHandle, key: u64)
    requires
        s.wf(),
        s.leads_to(handle, key),
        s.loads[key].refs > 0,
    ensures
        s.status(handle) != LoadStatus::NotRequested,
        s.status(handle) != LoadStatus::Unresolved,
{
    lemma_newest_among(s.loads[key].versions);
}

/// The status of a load is that of its newest version: `Loaded` exactly if that version is in use,
/// `Unloading` exactly if it is to be unloaded or is being unloaded, `NotRequested` exactly if
/// nothing goes on and nothing refers to the asset, and `Loading` on all the way between.
pub proof fn law_status_is_that_of_newest_version(
    s: LoaderView,
    handle: LoadHandle,
    key: u64,
    i: int,
)
    requires
        s.leads_to(handle, key),
        0 <= i < s.loads[key].versions.len(),
        forall|j: int|
            0 <= j < s.loads[key].versions.len() && j != i ==> (
            #[trigger] s.loads[key].versions[j]).version < s.loads[key].versions[i].version,
    ensures
        s.status(handle) == LoadStatus::Loaded <==> s.loads[key].versions[i].state
            == LoadState::Loaded,
        s.status(handle) == LoadStatus::Unloading <==> s.loads[key].versions[i].state
            == LoadState::UnloadRequested || s.loads[key].versions[i].state
            == LoadState::Unloading,
        s.status(handle) == LoadStatus::NotRequested <==> s.loads[key].versions[i].state
            == LoadState::Idle && s.loads[key].refs == 0,
        s.status(handle) == LoadStatus::Loading <==> {
            ||| s.loads[key].versions[i].state == LoadState::Idle && s.loads[key].refs > 0
            ||| s.loads[key].versions[i].state == LoadState::WaitingForMetadata
            ||| s.loads[key].versions[i].state == LoadState::RequestingMetadata
            ||| s.loads[key].versions[i].state == LoadState::RequestDependencies
            ||| s.loads[key].versions[i].state == LoadState::WaitingForDependencies
            ||| s.loads[key].versions[i].state == LoadState::WaitingForData
            ||| s.loads[key].versions[i].state == LoadState::RequestingData
            ||| s.loads[key].versions[i].state == LoadState::LoadingAsset
            ||| s.loads[key].versions[i].state == LoadState::LoadedUncommitted
        },
{
    lemma_newest_among(s.loads[key].versions);
    let v = newest_version(s.loads[key].versions)->0;
    let j = choose|j: int|
        0 <= j < s.loads[key].versions.len() && #[trigger] s.loads[key].versions[j] == v;
    assert(s.loads[key].versions[i].version <= v.version);
    assert(j == i);
}

/// The newest version is one of the versions, and none has a higher number.
proof fn lemma_newest_among(versions: Seq<VersionView>)
    ensures
        newest_version(versions) is None <==> versions.len() == 0,
        newest_version(versions) matches Some(v) ==> {
            &&& exists|i: int| 0 <= i < versions.len() && #[trigger] versions[i] == v
            &&& forall|i: int|
                0 <= i < versions.len() ==> (#[trigger] versions[i]).version <= v.version
        },
    decreases versions.len(),
{
    if versions.len() > 0 {
        let init = versions.drop_last();
        lemma_newest_among(init);
        assert(versions[versions.len() - 1] == versions.last());
        if let Some(v) = newest_version(init) {
            let k = choose|k: int| 0 <= k < init.len() && #[trigger] init[k] == v;
            assert(versions[k] == v);
        }
        assert forall|i: int| 0 <= i < versions.len() implies (#[trigger] versions[i]).version
            <= newest_version(versions)->0.version by {
            if i < init.len() {
                assert(init[i] == versions[i]);
            }
        }
    }
}

/// What is told of a load is its asset and the lower 32 bits of the number of references; of a
/// handle that leads to no load, nothing is told.
pub proof fn law_load_info_tells_asset_and_references(s: LoaderView, handle: LoadHandle, key: u64)
    requires
        s.wf(),
    ensures
        s.leads_to(handle, key) ==> (s.load_info(handle) matches Some(info) && {
            &&& info.asset_id == s.loads[key].asset_id
            &&& s.by_uuid[info.asset_id.0] == key
            &&& info.refs as int == s.loads[key].refs as int % 0x1_0000_0000
        }),
        s.load_info(handle) is Some ==> exists|k: u64| s.leads_to(handle, k),
{
    law_handle_leads_to_load(s, handle, key);
    if s.leads_to(handle, key) {
        let refs: u64 = s.loads[key].refs as u64;
        assert(refs as u32 as u64 == refs % 0x1_0000_0000u64) by (bit_vector);
        assert(s.loads[key].refs as u32 == refs as u32);
    }
}

/// The type of an asset is that of the first version that is in use. If none is, there is none,
/// even if versions are loaded that are not in use.
pub proof fn law_type_is_that_of_version_in_use(load: LoadView, i: int, t: AssetTypeId)
    ensures
        0 <= i < load.versions.len() && load.versions[i].state == LoadState::Loaded && (forall|
            j: int,
        |
            0 <= j < i ==> (#[trigger] load.versions[j]).state != LoadState::Loaded)
            ==> load.asset_type() == load.versions[i].asset_type,
        load.asset_type() == Some(t) ==> exists|j: int|
            0 <= j < load.versions.len() && (#[trigger] load.versions[j]).state == LoadState::Loaded
                && load.versions[j].asset_type == Some(t),
{
    let loaded = VersionQuery::InState(LoadState::Loaded);
    lemma_position_none(load.versions, loaded);
    if 0 <= i < load.versions.len() && load.versions[i].state == LoadState::Loaded && (forall|
        j: int,
    |
        0 <= j < i ==> (#[trigger] load.versions[j]).state != LoadState::Loaded) {
        assert(is_first(load.versions, loaded, i));
        lemma_position_some(load.versions, loaded, i);
    }
}

} // verus!
