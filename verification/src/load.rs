//! The load of one asset: its versions and the states they go through.

use vstd::prelude::*;
use crate::error::{ErrorView, LoaderError};
use crate::ids::{AssetTypeId, AssetUuid, LoadHandle};
use crate::metadata::{ArtifactMetadata, MetadataView};
use crate::storage::{AssetStorage, StorageCall};

verus! {

/// The state of one version of an asset.
#[derive(Copy, Clone, PartialEq, Eq, Structural, Debug)]
pub enum LoadState {
    /// Nothing goes on: a load may start, or the version may be removed.
    Idle,
    /// The load needs metadata to go on.
    WaitingForMetadata,
    /// Metadata is being fetched.
    RequestingMetadata,
    /// The dependencies are to be referenced.
    RequestDependencies,
    /// The dependencies are being loaded.
    WaitingForDependencies,
    /// The load needs the asset's data to go on.
    WaitingForData,
    /// The asset's data is being fetched.
    RequestingData,
    /// The storage is loading the asset.
    LoadingAsset,
    /// The storage has loaded the asset, but the version is not yet in use. Only versions that
    /// are not committed automatically reach this state.
    LoadedUncommitted,
    /// The version is loaded and in use.
    Loaded,
    /// The version is to be unloaded.
    UnloadRequested,
    /// The storage is unloading the version.
    Unloading,
}

impl LoadState {
    /// Whether a version in this state has its metadata.
    pub open spec fn needs_metadata(self) -> bool {
        self is RequestDependencies || self is WaitingForDependencies || self is WaitingForData
            || self is RequestingData
    }

    /// Whether a version in this state has its asset type.
    pub open spec fn needs_type(self) -> bool {
        self is LoadingAsset || self is Loaded
    }

    /// Whether the storage has loaded a version in this state.
    pub open spec fn in_storage(self) -> bool {
        self is Loaded || self is LoadedUncommitted
    }

    /// Returns whether the storage has loaded a version in this state.
    pub fn is_in_storage(&self) -> (r: bool)
        ensures
            r == self.in_storage(),
    {
        matches!(*self, LoadState::Loaded | LoadState::LoadedUncommitted)
    }

    /// Whether a version in this state is being loaded.
    pub open spec fn on_its_way(self) -> bool {
        ||| self is WaitingForMetadata
        ||| self is RequestingMetadata
        ||| self is RequestDependencies
        ||| self is WaitingForDependencies
        ||| self is WaitingForData
        ||| self is RequestingData
        ||| self is LoadingAsset
    }

    /// Returns whether a version in this state is being loaded.
    pub fn is_on_its_way(&self) -> (r: bool)
        ensures
            r == self.on_its_way(),
    {
        matches!(
            *self,
            LoadState::WaitingForMetadata
            | LoadState::RequestingMetadata
            | LoadState::RequestDependencies
            | LoadState::WaitingForDependencies
            | LoadState::WaitingForData
            | LoadState::RequestingData
            | LoadState::LoadingAsset
        )
    }
}

/// One version of an asset.
#[derive(Debug)]
pub struct AssetVersionLoad {
    pub state: LoadState,
    pub metadata: Option<ArtifactMetadata>,
    /// The type under which the storage holds the version.
    pub asset_type: Option<AssetTypeId>,
    /// Whether the version comes into use as soon as the storage has loaded it.
    pub auto_commit: bool,
    pub version: u32,
}

/// What an [`AssetVersionLoad`] holds.
pub struct VersionView {
    pub state: LoadState,
    pub metadata: Option<MetadataView>,
    pub asset_type: Option<AssetTypeId>,
    pub auto_commit: bool,
    pub version: u32,
}

impl VersionView {
    /// A version of which nothing is known yet.
    pub open spec fn fresh(version: u32, auto_commit: bool, metadata: Option<MetadataView>) -> Self {
        VersionView { state: LoadState::Idle, metadata, asset_type: None, auto_commit, version }
    }

    /// The version holds what its state needs, and waits for being committed only if it is not
    /// committed automatically.
    pub open spec fn wf(self) -> bool {
        &&& self.state.needs_metadata() ==> self.metadata is Some
        &&& self.state.needs_type() ==> self.asset_type is Some
        &&& self.state is LoadedUncommitted ==> !self.auto_commit
    }
}

/// The metadata that an optional description holds.
pub open spec fn metadata_view(metadata: Option<ArtifactMetadata>) -> Option<MetadataView> {
    match metadata {
        Some(m) => Some(m@),
        None => None,
    }
}

impl View for AssetVersionLoad {
    type V = VersionView;

    open spec fn view(&self) -> VersionView {
        VersionView {
            state: self.state,
            metadata: metadata_view(self.metadata),
            asset_type: self.asset_type,
            auto_commit: self.auto_commit,
            version: self.version,
        }
    }
}

impl AssetVersionLoad {
    /// A version of which nothing is known yet.
    pub fn new(version: u32, auto_commit: bool, metadata: Option<ArtifactMetadata>) -> (r: Self)
        ensures
            r@ == VersionView::fresh(version, auto_commit, metadata_view(metadata)),
    {
        AssetVersionLoad { state: LoadState::Idle, metadata, asset_type: None, auto_commit, version }
    }
}

impl Clone for AssetVersionLoad {
    fn clone(&self) -> (r: Self)
        ensures
            r@ == self@,
    {
        let metadata = match &self.metadata {
            Some(m) => Some(m.clone()),
            None => None,
        };
        AssetVersionLoad {
            state: self.state,
            metadata,
            asset_type: self.asset_type,
            auto_commit: self.auto_commit,
            version: self.version,
        }
    }
}

/// The versions of a list, in its order.
pub open spec fn version_views(versions: Seq<AssetVersionLoad>) -> Seq<VersionView> {
    versions.map_values(|v: AssetVersionLoad| v@)
}

/// What a version is looked up by.
#[derive(Copy, Clone, PartialEq, Eq, Structural, Debug)]
pub enum VersionQuery {
    /// Its number.
    Number(u32),
    /// That its metadata is not known.
    NoMetadata,
    /// Its state.
    InState(LoadState),
}

impl VersionQuery {
    /// Whether a version is what is looked for.
    pub open spec fn accepts(self, v: VersionView) -> bool {
        match self {
            VersionQuery::Number(version) => v.version == version,
            VersionQuery::NoMetadata => v.metadata is None,
            VersionQuery::InState(state) => v.state == state,
        }
    }

    fn check(&self, v: &AssetVersionLoad) -> (r: bool)
        ensures
            r == self.accepts(v@),
    {
        match self {
            VersionQuery::Number(version) => v.version == *version,
            VersionQuery::NoMetadata => v.metadata.is_none(),
            VersionQuery::InState(state) => v.state == *state,
        }
    }
}

/// `i` is the place of the first version that is looked for.
pub open spec fn is_first(versions: Seq<VersionView>, query: VersionQuery, i: int) -> bool {
    &&& 0 <= i < versions.len()
    &&& query.accepts(versions[i])
    &&& forall|j: int| 0 <= j < i ==> !query.accepts(#[trigger] versions[j])
}

/// The place of the first version that is looked for, if there is one.
pub open spec fn position(versions: Seq<VersionView>, query: VersionQuery) -> Option<int> {
    if exists|i: int| is_first(versions, query, i) {
        Some(choose|i: int| is_first(versions, query, i))
    } else {
        None
    }
}

/// A place is the first one exactly when [`position`] gives it.
pub proof fn lemma_position_some(versions: Seq<VersionView>, query: VersionQuery, i: int)
    requires
        is_first(versions, query, i),
    ensures
        position(versions, query) == Some(i),
{
    let k = choose|k: int| is_first(versions, query, k);
    assert(is_first(versions, query, k));
    if k < i {
        assert(!query.accepts(versions[k]));
    }
    if i < k {
        assert(!query.accepts(versions[i]));
    }
}

/// Nothing is found exactly when no version is what is looked for.
pub proof fn lemma_position_none(versions: Seq<VersionView>, query: VersionQuery)
    ensures
        position(versions, query) is None <==> (forall|j: int|
            0 <= j < versions.len() ==> !query.accepts(#[trigger] versions[j])),
        position(versions, query) matches Some(i) ==> is_first(versions, query, i),
{
    if position(versions, query) is None {
        assert forall|j: int| 0 <= j < versions.len() implies !query.accepts(
            #[trigger] versions[j],
        ) by {
            if query.accepts(versions[j]) {
                lemma_first_exists(versions, query, j);
            }
        }
    } else {
        let i = choose|i: int| is_first(versions, query, i);
        assert(query.accepts(versions[i]));
    }
}

proof fn lemma_first_exists(versions: Seq<VersionView>, query: VersionQuery, j: int)
    requires
        0 <= j < versions.len(),
        query.accepts(versions[j]),
    ensures
        exists|i: int| is_first(versions, query, i),
    decreases j,
{
    if forall|k: int| 0 <= k < j ==> !query.accepts(#[trigger] versions[k]) {
        assert(is_first(versions, query, j));
    } else {
        let k = choose|k: int| 0 <= k < j && query.accepts(#[trigger] versions[k]);
        lemma_first_exists(versions, query, k);
    }
}

/// The highest version number of a list, 0 if the list is empty.
pub open spec fn newest(versions: Seq<VersionView>) -> u32
    decreases versions.len(),
{
    if versions.len() == 0 {
        0
    } else if newest(versions.drop_last()) > versions.last().version {
        newest(versions.drop_last())
    } else {
        versions.last().version
    }
}

/// Every version of a list is loaded and in use.
pub open spec fn all_loaded(versions: Seq<VersionView>) -> bool {
    forall|i: int| 0 <= i < versions.len() ==> (#[trigger] versions[i]).state is Loaded
}

/// The storage has loaded every version of a list.
pub open spec fn all_in_storage(versions: Seq<VersionView>) -> bool {
    forall|i: int| 0 <= i < versions.len() ==> (#[trigger] versions[i]).state.in_storage()
}

/// The load of an asset.
#[derive(Debug)]
pub struct AssetLoad {
    pub asset_id: AssetUuid,
    pub refs: usize,
    pub versions: Vec<AssetVersionLoad>,
    pub version_counter: u32,
    pub pending_reload: bool,
}

/// What an [`AssetLoad`] holds.
#[verifier::ext_equal]
pub struct LoadView {
    /// The asset.
    pub asset_id: AssetUuid,
    /// How often the asset is referenced.
    pub refs: usize,
    /// The versions, oldest first.
    pub versions: Seq<VersionView>,
    /// The highest version number given so far.
    pub version_counter: u32,
    /// Whether a new version is to be loaded.
    pub pending_reload: bool,
}

impl View for AssetLoad {
    type V = LoadView;

    open spec fn view(&self) -> LoadView {
        LoadView {
            asset_id: self.asset_id,
            refs: self.refs,
            versions: version_views(self.versions@),
            version_counter: self.version_counter,
            pending_reload: self.pending_reload,
        }
    }
}

impl LoadView {
    /// The load of an asset that nothing refers to yet.
    pub open spec fn fresh(asset_id: AssetUuid) -> LoadView {
        LoadView {
            asset_id,
            refs: 0,
            versions: seq![VersionView::fresh(1, true, None)],
            version_counter: 1,
            pending_reload: false,
        }
    }

    /// There is a version, and each version holds what its state needs.
    pub open spec fn wf(self) -> bool {
        &&& self.versions.len() > 0
        &&& forall|i: int| 0 <= i < self.versions.len() ==> (#[trigger] self.versions[i]).wf()
    }

    /// The versions are in the order of their numbers, and every number comes from the counter.
    pub open spec fn numbered(self) -> bool {
        &&& forall|i: int, j: int|
            0 <= i < j < self.versions.len() ==> (#[trigger] self.versions[i]).version < (
            #[trigger] self.versions[j]).version
        &&& forall|i: int|
            0 <= i < self.versions.len() ==> (#[trigger] self.versions[i]).version
                <= self.version_counter
    }

    /// The load with one version replaced.
    pub open spec fn with_version(self, i: int, v: VersionView) -> LoadView {
        LoadView { versions: self.versions.update(i, v), ..self }
    }

    /// The load with one version in another state.
    pub open spec fn with_state(self, i: int, state: LoadState) -> LoadView {
        self.with_version(i, VersionView { state, ..self.versions[i] })
    }

    /// The load with a new version, which gets the next number.
    pub open spec fn with_new_version(
        self,
        auto_commit: bool,
        metadata: Option<MetadataView>,
    ) -> LoadView {
        let version = (self.version_counter + 1) as u32;
        LoadView {
            versions: self.versions.push(VersionView::fresh(version, auto_commit, metadata)),
            version_counter: version,
            ..self
        }
    }

    /// Whether a pass starts a new version: the asset is referenced, a reload is pending, and
    /// nothing is being loaded already.
    pub open spec fn starts_reload(self) -> bool {
        self.refs > 0 && self.pending_reload && all_loaded(self.versions)
    }

    /// The load with references added. The count wraps around.
    pub open spec fn refs_added(self, n: usize) -> LoadView {
        LoadView { refs: self.refs.wrapping_add(n), ..self }
    }

    /// The load with references removed. The count wraps around.
    pub open spec fn refs_removed(self, n: usize) -> LoadView {
        LoadView { refs: self.refs.wrapping_sub(n), ..self }
    }

    /// The type of the first version that is loaded and in use.
    pub open spec fn asset_type(self) -> Option<AssetTypeId> {
        match position(self.versions, VersionQuery::InState(LoadState::Loaded)) {
            Some(i) => self.versions[i].asset_type,
            None => None,
        }
    }

    /// What committing a version comes to: the version comes into use, every other version is to
    /// be unloaded, and the storage is told. It is refused unless the storage has loaded the
    /// version and every other version is in use.
    pub open spec fn commit(self, handle: LoadHandle, version: u32) -> Result<
        (LoadView, StorageCall),
        ErrorView,
    > {
        match position(self.versions, VersionQuery::Number(version)) {
            None => Err(ErrorView::MissingVersion(handle, version)),
            Some(i) => {
                let v = self.versions[i];
                if !(v.state is LoadingAsset || v.state is LoadedUncommitted) {
                    Err(ErrorView::UnexpectedState(handle, version))
                } else if v.asset_type is None {
                    Err(ErrorView::MissingAssetType(handle, version))
                } else {
                    match first_blocking(self.versions, version) {
                        Some(j) => Err(
                            ErrorView::UnexpectedState(handle, self.versions[j].version),
                        ),
                        None => Ok(
                            (
                                LoadView { versions: committed(self.versions, i, version), ..self },
                                StorageCall::Commit {
                                    asset_type: v.asset_type->0,
                                    handle,
                                    version,
                                },
                            ),
                        ),
                    }
                }
            },
        }
    }
}

/// A version stands in the way of committing another one: it is not in use.
pub open spec fn blocks_commit(v: VersionView, version: u32) -> bool {
    v.version != version && !(v.state is Loaded)
}

/// `i` is the place of the first version that stands in the way.
pub open spec fn is_first_blocking(versions: Seq<VersionView>, version: u32, i: int) -> bool {
    &&& 0 <= i < versions.len()
    &&& blocks_commit(versions[i], version)
    &&& forall|j: int| 0 <= j < i ==> !blocks_commit(#[trigger] versions[j], version)
}

/// The place of the first version that stands in the way of committing another one.
pub open spec fn first_blocking(versions: Seq<VersionView>, version: u32) -> Option<int> {
    if exists|i: int| is_first_blocking(versions, version, i) {
        Some(choose|i: int| is_first_blocking(versions, version, i))
    } else {
        None
    }
}

/// The versions after the one at place `i` came into use and those with other numbers did not.
pub open spec fn committed(versions: Seq<VersionView>, i: int, version: u32) -> Seq<VersionView> {
    Seq::new(
        versions.len(),
        |j: int|
            if j == i {
                VersionView { state: LoadState::Loaded, ..versions[j] }
            } else if versions[j].version != version {
                VersionView { state: LoadState::UnloadRequested, ..versions[j] }
            } else {
                versions[j]
            },
    )
}

impl AssetLoad {
    /// The load of an asset that nothing refers to yet.
    pub fn new(asset_id: AssetUuid) -> (r: Self)
        ensures
            r@ == LoadView::fresh(asset_id),
            r@.wf(),
    {
        let mut versions: Vec<AssetVersionLoad> = Vec::new();
        versions.push(AssetVersionLoad::new(1, true, None));
        let r = AssetLoad {
            asset_id,
            refs: 0,
            versions,
            version_counter: 1,
            pending_reload: false,
        };
        assert(r@.versions =~= LoadView::fresh(asset_id).versions);
        r
    }

    /// Returns the place of the first version that is looked for.
    pub fn find(&self, query: VersionQuery) -> (r: Option<usize>)
        ensures
            match (r, position(self@.versions, query)) {
                (Some(i), Some(k)) => i == k && is_first(self@.versions, query, k),
                (None, None) => true,
                _ => false,
            },
    {
        let mut i: usize = 0;
        while i < self.versions.len()
            invariant
                i <= self.versions.len(),
                forall|j: int| 0 <= j < i ==> !query.accepts(#[trigger] self@.versions[j]),
            decreases self.versions.len() - i,
        {
            assert(self@.versions[i as int] == self.versions@[i as int]@);
            if query.check(&self.versions[i]) {
                proof {
                    lemma_position_some(self@.versions, query, i as int);
                }
                return Some(i);
            }
            i = i + 1;
        }
        proof {
            lemma_position_none(self@.versions, query);
        }
        None
    }

    /// Returns whether every version is loaded and in use.
    pub fn is_all_loaded(&self) -> (r: bool)
        ensures
            r == all_loaded(self@.versions),
    {
        let mut i: usize = 0;
        while i < self.versions.len()
            invariant
                i <= self.versions.len(),
                forall|j: int| 0 <= j < i ==> (#[trigger] self@.versions[j]).state is Loaded,
            decreases self.versions.len() - i,
        {
            assert(self@.versions[i as int] == self.versions@[i as int]@);
            if self.versions[i].state != LoadState::Loaded {
                return false;
            }
            i = i + 1;
        }
        true
    }

    /// Returns whether the storage has loaded every version.
    pub fn is_all_in_storage(&self) -> (r: bool)
        ensures
            r == all_in_storage(self@.versions),
    {
        let mut i: usize = 0;
        while i < self.versions.len()
            invariant
                i <= self.versions.len(),
                forall|j: int| 0 <= j < i ==> (#[trigger] self@.versions[j]).state.in_storage(),
            decreases self.versions.len() - i,
        {
            assert(self@.versions[i as int] == self.versions@[i as int]@);
            if !self.versions[i].state.is_in_storage() {
                return false;
            }
            i = i + 1;
        }
        true
    }

    /// Returns the highest version number, 0 if there is no version.
    pub fn newest_version(&self) -> (r: u32)
        ensures
            r == newest(self@.versions),
    {
        let mut best: u32 = 0;
        let mut i: usize = 0;
        assert(self@.versions.take(0) =~= Seq::empty());
        while i < self.versions.len()
            invariant
                i <= self.versions.len(),
                best == newest(self@.versions.take(i as int)),
            decreases self.versions.len() - i,
        {
            assert(self@.versions.take(i + 1).drop_last() =~= self@.versions.take(i as int));
            assert(self@.versions.take(i + 1).last() == self.versions@[i as int]@);
            if !(best > self.versions[i].version) {
                best = self.versions[i].version;
            }
            i = i + 1;
        }
        assert(self@.versions.take(self.versions.len() as int) =~= self@.versions);
        best
    }

    /// Adds references. The count wraps around.
    pub fn add_refs(&mut self, n: usize)
        ensures
            final(self)@ == old(self)@.refs_added(n),
    {
        self.refs = self.refs.wrapping_add(n);
    }

    /// Removes references. The count wraps around.
    pub fn remove_refs(&mut self, n: usize)
        ensures
            final(self)@ == old(self)@.refs_removed(n),
    {
        self.refs = self.refs.wrapping_sub(n);
    }

    /// Puts a version into another state.
    pub fn set_state(&mut self, i: usize, state: LoadState)
        requires
            i < old(self)@.versions.len(),
        ensures
            final(self)@ == old(self)@.with_state(i as int, state),
    {
        self.versions[i].state = state;
        assert(self@.versions =~= old(self)@.with_state(i as int, state).versions);
    }

    /// Adds a version with the next number.
    pub fn push_version(&mut self, auto_commit: bool, metadata: Option<ArtifactMetadata>)
        requires
            old(self)@.version_counter < u32::MAX,
        ensures
            final(self)@ == old(self)@.with_new_version(auto_commit, metadata_view(metadata)),
    {
        self.version_counter = self.version_counter + 1;
        self.versions.push(AssetVersionLoad::new(self.version_counter, auto_commit, metadata));
        assert(self@.versions =~= old(self)@.with_new_version(
            auto_commit,
            metadata_view(metadata),
        ).versions);
    }

    /// Returns the type of the first version that is loaded and in use.
    pub fn get_asset_type(&self) -> (r: Option<AssetTypeId>)
        ensures
            r == self@.asset_type(),
    {
        match self.find(VersionQuery::InState(LoadState::Loaded)) {
            Some(i) => {
                assert(self@.versions[i as int] == self.versions@[i as int]@);
                self.versions[i].asset_type
            },
            None => None,
        }
    }

    /// Copies the versions.
    pub fn clone_versions(&self) -> (r: Vec<AssetVersionLoad>)
        ensures
            version_views(r@) == self@.versions,
    {
        let mut copy: Vec<AssetVersionLoad> = Vec::new();
        let mut i: usize = 0;
        while i < self.versions.len()
            invariant
                i <= self.versions.len(),
                copy.len() == i,
                forall|j: int| 0 <= j < i ==> (#[trigger] copy@[j])@ == self.versions@[j]@,
            decreases self.versions.len() - i,
        {
            copy.push(self.versions[i].clone());
            i = i + 1;
        }
        assert(version_views(copy@) =~= self@.versions);
        copy
    }
}

/// Brings a version of an asset into use, and has every other version unloaded.
pub fn commit_asset<S: AssetStorage + ?Sized>(
    handle: LoadHandle,
    load: &mut AssetLoad,
    version: u32,
    asset_storage: &mut S,
) -> (r: Result<(), LoaderError>)
    ensures
        match old(load)@.commit(handle, version) {
            Ok((after, call)) => {
                &&& r is Ok
                &&& final(load)@ == after
                &&& final(asset_storage).calls() == old(asset_storage).calls().push(call)
            },
            Err(e) => {
                &&& r matches Err(error) && error@ == e
                &&& final(load)@ == old(load)@
                &&& final(asset_storage).calls() == old(asset_storage).calls()
            },
        },
{
    let index = match load.find(VersionQuery::Number(version)) {
        Some(i) => i,
        None => {
            return Err(LoaderError::MissingVersion(handle, version));
        },
    };
    assert(load@.versions[index as int] == load.versions@[index as int]@);
    let state = load.versions[index].state;
    if state != LoadState::LoadingAsset && state != LoadState::LoadedUncommitted {
        return Err(LoaderError::UnexpectedState(handle, version));
    }
    let asset_type = match load.versions[index].asset_type {
        Some(t) => t,
        None => {
            return Err(LoaderError::MissingAssetType(handle, version));
        },
    };
    let mut i: usize = 0;
    while i < load.versions.len()
        invariant
            i <= load.versions.len(),
            load@ == old(load)@,
            asset_storage.calls() == old(asset_storage).calls(),
            forall|j: int| 0 <= j < i ==> !blocks_commit(#[trigger] load@.versions[j], version),
            position(load@.versions, VersionQuery::Number(version)) == Some(index as int),
            0 <= index < load@.versions.len(),
            load@.versions[index as int].asset_type == Some(asset_type),
            load@.versions[index as int].state is LoadingAsset
                || load@.versions[index as int].state is LoadedUncommitted,
        decreases load.versions.len() - i,
    {
        assert(load@.versions[i as int] == load.versions@[i as int]@);
        if load.versions[i].version != version && load.versions[i].state != LoadState::Loaded {
            proof {
                lemma_first_blocking_some(load@.versions, version, i as int);
            }
            return Err(LoaderError::UnexpectedState(handle, load.versions[i].version));
        }
        i = i + 1;
    }
    proof {
        assert(first_blocking(load@.versions, version) is None) by {
            if exists|k: int| is_first_blocking(load@.versions, version, k) {
                let k = choose|k: int| is_first_blocking(load@.versions, version, k);
                assert(blocks_commit(load@.versions[k], version));
            }
        }
    }
    asset_storage.commit_asset_version(&asset_type, handle, version);
    let mut i: usize = 0;
    while i < load.versions.len()
        invariant
            i <= load.versions.len(),
            load.versions.len() == old(load)@.versions.len(),
            load@ == (LoadView { versions: load@.versions, ..old(load)@ }),
            forall|j: int|
                0 <= j < i ==> #[trigger] load@.versions[j] == committed(
                    old(load)@.versions,
                    index as int,
                    version,
                )[j],
            forall|j: int|
                i <= j < load.versions.len() ==> #[trigger] load@.versions[j] == old(
                    load,
                )@.versions[j],
        decreases load.versions.len() - i,
    {
        assert(load@.versions[i as int] == load.versions@[i as int]@);
        if i == index {
            load.set_state(i, LoadState::Loaded);
        } else if load.versions[i].version != version {
            load.set_state(i, LoadState::UnloadRequested);
        }
        assert(load.versions.len() == load@.versions.len());
        i = i + 1;
    }
    assert(load@.versions =~= committed(old(load)@.versions, index as int, version));
    Ok(())
}

/// A place is the first one that blocks a commit exactly when [`first_blocking`] gives it.
proof fn lemma_first_blocking_some(versions: Seq<VersionView>, version: u32, i: int)
    requires
        is_first_blocking(versions, version, i),
    ensures
        first_blocking(versions, version) == Some(i),
{
    let k = choose|k: int| is_first_blocking(versions, version, k);
    assert(is_first_blocking(versions, version, k));
    if k < i {
        assert(!blocks_commit(versions[k], version));
    }
    if i < k {
        assert(!blocks_commit(versions[i], version));
    }
}

} // verus!
