//! The steps of a loader's state, one at a time.

use atelier_loader::data_requests::AssetLoadResult;
use atelier_loader::error::{Failure, LoaderError};
use atelier_loader::ids::{
    ArtifactId, AssetRef, AssetTypeId, AssetUuid, IndirectIdentifier, LoadHandle,
};
use atelier_loader::indirect::{IndirectHandleState, IndirectLoad};
use atelier_loader::load::{commit_asset, AssetLoad, AssetVersionLoad, LoadState, VersionQuery};
use atelier_loader::messages::{
    AssetLoadOp, DataResponse, HandleOp, MetadataResponse, ResolveResponse,
};
use atelier_loader::metadata::{ArtifactMetadata, AssetMetadata};
use atelier_loader::state::LoaderState;
use atelier_loader::storage::{
    AssetStorage, AtomicHandleAllocator, IndirectionResolver, LoaderInfoProvider,
};
use std::collections::HashMap;

const TEXT: AssetTypeId = AssetTypeId(0x7e);
const IMAGE: AssetTypeId = AssetTypeId(0x1a);

/// Counts the calls, and keeps the load operations.
#[derive(Default)]
struct Recorder {
    updates: Vec<(AssetTypeId, Vec<u8>, LoadHandle, u32)>,
    commits: Vec<(AssetTypeId, LoadHandle, u32)>,
    frees: Vec<(AssetTypeId, LoadHandle, u32)>,
    refuse: bool,
    ops: Vec<AssetLoadOp>,
}

impl AssetStorage for Recorder {
    fn update_asset(
        &mut self,
        _loader_info: &dyn LoaderInfoProvider,
        asset_type: &AssetTypeId,
        data: Vec<u8>,
        handle: LoadHandle,
        load_op: AssetLoadOp,
        version: u32,
    ) -> Result<(), String> {
        self.updates.push((*asset_type, data, handle, version));
        self.ops.push(load_op);
        if self.refuse {
            Err("no".to_string())
        } else {
            Ok(())
        }
    }

    fn commit_asset_version(&mut self, asset_type: &AssetTypeId, handle: LoadHandle, version: u32) {
        self.commits.push((*asset_type, handle, version));
    }

    fn free(&mut self, asset_type: &AssetTypeId, handle: LoadHandle, version: u32) {
        self.frees.push((*asset_type, handle, version));
    }
}

/// Picks the first candidate.
struct First;

impl IndirectionResolver for First {
    fn resolve(
        &self,
        _id: &IndirectIdentifier,
        candidates: Vec<(String, Vec<AssetMetadata>)>,
    ) -> Option<AssetUuid> {
        candidates.first().and_then(|(_, assets)| assets.first()).map(|asset| asset.id)
    }
}

fn new_state() -> LoaderState {
    LoaderState::new(Box::new(AtomicHandleAllocator::default()))
}

fn metadata(asset: u128, build: u64, deps: &[u128]) -> ArtifactMetadata {
    ArtifactMetadata {
        id: ArtifactId(build),
        asset_id: AssetUuid(asset),
        load_deps: deps.iter().map(|dep| AssetRef::Uuid(AssetUuid(*dep))).collect(),
        type_id: TEXT,
    }
}

fn version(number: u32, state: LoadState, asset_type: Option<AssetTypeId>) -> AssetVersionLoad {
    AssetVersionLoad { state, metadata: None, asset_type, auto_commit: true, version: number }
}

fn load_with(versions: Vec<AssetVersionLoad>) -> AssetLoad {
    let version_counter = versions.iter().map(|v| v.version).max().unwrap_or(0);
    AssetLoad {
        asset_id: AssetUuid(1),
        refs: 1,
        versions,
        version_counter,
        pending_reload: false,
    }
}

fn states(load: &AssetLoad) -> Vec<LoadState> {
    load.versions.iter().map(|v| v.state).collect()
}

/// Takes an asset to the point where its data is asked for, and returns its handle.
fn prepare(state: &mut LoaderState, asset: u128) -> LoadHandle {
    let mut storage = Recorder::default();
    let handle = state.add_refs(AssetUuid(asset), 1);
    state.process_load_states(&mut storage).unwrap();
    let requests = state.request_metadata();
    assert_eq!(requests.get(&asset), Some(&(handle, 1)));
    let response = MetadataResponse { result: Ok(vec![metadata(asset, 5, &[])]), requests };
    state.receive_metadata_response(response).unwrap();
    state.process_load_states(&mut storage).unwrap();
    state.process_load_states(&mut storage).unwrap();
    let requests = state.request_data();
    assert_eq!(requests.len(), 1);
    assert_eq!(requests[0].request.asset_id, AssetUuid(asset));
    assert_eq!(requests[0].request.artifact_id, ArtifactId(5));
    assert_eq!(requests[0].request.handle, handle);
    assert_eq!(requests[0].request.version, 1);
    handle
}

#[test]
fn result_from_state_keeps_the_type() {
    assert_eq!(
        AssetLoadResult::from_state(LoadState::WaitingForData),
        AssetLoadResult { new_state: LoadState::WaitingForData, asset_type: None }
    );
}

#[test]
fn commit_brings_one_version_into_use() {
    let mut storage = Recorder::default();
    let mut load = load_with(vec![
        version(1, LoadState::Loaded, Some(TEXT)),
        version(2, LoadState::LoadedUncommitted, Some(IMAGE)),
    ]);
    commit_asset(LoadHandle(7), &mut load, 2, &mut storage).unwrap();
    assert_eq!(states(&load), vec![LoadState::UnloadRequested, LoadState::Loaded]);
    assert_eq!(storage.commits, vec![(IMAGE, LoadHandle(7), 2)]);
    assert_eq!(load.get_asset_type(), Some(IMAGE));
}

#[test]
fn commit_is_refused_without_the_version() {
    let mut storage = Recorder::default();
    let mut load = load_with(vec![version(1, LoadState::LoadingAsset, Some(TEXT))]);
    let r = commit_asset(LoadHandle(7), &mut load, 2, &mut storage);
    assert!(matches!(r, Err(LoaderError::MissingVersion(LoadHandle(7), 2))));
    assert_eq!(states(&load), vec![LoadState::LoadingAsset]);
    assert!(storage.commits.is_empty());
}

#[test]
fn commit_is_refused_in_other_states() {
    let mut storage = Recorder::default();
    let mut load = load_with(vec![version(1, LoadState::RequestingData, Some(TEXT))]);
    let r = commit_asset(LoadHandle(7), &mut load, 1, &mut storage);
    assert!(matches!(r, Err(LoaderError::UnexpectedState(LoadHandle(7), 1))));
    // Another version that is not in use stands in the way.
    let mut load = load_with(vec![
        version(1, LoadState::Loaded, Some(TEXT)),
        version(2, LoadState::WaitingForData, None),
        version(3, LoadState::LoadingAsset, Some(TEXT)),
    ]);
    let r = commit_asset(LoadHandle(7), &mut load, 3, &mut storage);
    assert!(matches!(r, Err(LoaderError::UnexpectedState(LoadHandle(7), 2))));
    assert_eq!(
        states(&load),
        vec![LoadState::Loaded, LoadState::WaitingForData, LoadState::LoadingAsset]
    );
    assert!(storage.commits.is_empty());
}

#[test]
fn commit_is_refused_without_a_type() {
    let mut storage = Recorder::default();
    let mut load = load_with(vec![version(1, LoadState::LoadedUncommitted, None)]);
    let r = commit_asset(LoadHandle(7), &mut load, 1, &mut storage);
    assert!(matches!(r, Err(LoaderError::MissingAssetType(LoadHandle(7), 1))));
    assert!(storage.commits.is_empty());
}

#[test]
fn versions_are_found_by_what_is_asked() {
    let load = load_with(vec![
        version(3, LoadState::Loaded, Some(TEXT)),
        version(9, LoadState::LoadedUncommitted, Some(TEXT)),
        version(4, LoadState::Loaded, Some(IMAGE)),
    ]);
    assert_eq!(load.find(VersionQuery::Number(9)), Some(1));
    assert_eq!(load.find(VersionQuery::Number(5)), None);
    assert_eq!(load.find(VersionQuery::NoMetadata), Some(0));
    assert_eq!(load.find(VersionQuery::InState(LoadState::LoadedUncommitted)), Some(1));
    assert_eq!(load.newest_version(), 9);
    assert!(load.is_all_in_storage());
    assert!(!load.is_all_loaded());
    assert_eq!(load.get_asset_type(), Some(TEXT));
    assert_eq!(load_with(vec![]).newest_version(), 0);
    assert!(load_with(vec![]).is_all_loaded());
}

#[test]
fn indirect_references_take_steps() {
    let mut load = IndirectLoad::new(IndirectIdentifier::Path("a".to_string()));
    load.step();
    assert_eq!(load.state, IndirectHandleState::Idle);
    load.refs = 1;
    load.step();
    assert_eq!(load.state, IndirectHandleState::WaitingForMetadata);
    load.step();
    assert_eq!(load.state, IndirectHandleState::WaitingForMetadata);
    load.state = IndirectHandleState::Resolved;
    load.step();
    assert_eq!(load.state, IndirectHandleState::Resolved);
    load.pending_reresolve = true;
    load.step();
    assert_eq!(load.state, IndirectHandleState::WaitingForMetadata);
    assert!(!load.pending_reresolve);
}

#[test]
fn data_goes_to_the_storage() {
    let mut state = new_state();
    let handle = prepare(&mut state, 10);
    let mut storage = Recorder::default();
    let response = DataResponse { result: Ok(vec![1, 2, 3]), handle, version: 1 };
    state.receive_data_response(response, &mut storage).unwrap();
    assert_eq!(storage.updates, vec![(TEXT, vec![1, 2, 3], handle, 1)]);
    assert_eq!(state.get_asset(handle), None);
    state.receive_load_op(HandleOp::Complete(handle, 1), &mut storage).unwrap();
    assert_eq!(storage.commits, vec![(TEXT, handle, 1)]);
    assert_eq!(state.get_asset(handle), Some(TEXT));
}

#[test]
fn operations_report_to_the_loader() {
    let mut state = new_state();
    let handle = prepare(&mut state, 10);
    let mut storage = Recorder::default();
    let response = DataResponse { result: Ok(vec![1]), handle, version: 1 };
    state.receive_data_response(response, &mut storage).unwrap();
    state.process_load_ops(&mut storage).unwrap();
    assert!(storage.commits.is_empty());
    storage.ops.pop().unwrap().complete();
    state.process_load_ops(&mut storage).unwrap();
    assert_eq!(storage.commits, vec![(TEXT, handle, 1)]);
}

#[test]
fn data_that_is_missing_or_refused_is_asked_for_again() {
    let mut state = new_state();
    let handle = prepare(&mut state, 10);
    let mut storage = Recorder { refuse: true, ..Recorder::default() };
    let response = DataResponse { result: Ok(vec![1]), handle, version: 1 };
    state.receive_data_response(response, &mut storage).unwrap();
    assert_eq!(state.request_data().len(), 1);
    assert_eq!(state.request_data().len(), 0);
    let response = DataResponse { result: Err("gone".to_string()), handle, version: 1 };
    state.receive_data_response(response, &mut storage).unwrap();
    assert_eq!(state.request_data().len(), 0);
    assert_eq!(state.request_metadata().get(&10), Some(&(handle, 1)));
    assert_eq!(storage.updates.len(), 1);
    assert_eq!(state.failures().len(), 2);
    assert!(matches!(&state.failures()[0], Failure::Update(_, 1, text) if text == "no"));
    assert!(matches!(&state.failures()[1], Failure::Data(_, 1, text) if text == "gone"));
}

#[test]
fn answers_name_what_exists() {
    let mut state = new_state();
    let mut storage = Recorder::default();
    let nowhere = LoadHandle(55);
    let response = DataResponse { result: Ok(vec![1]), handle: nowhere, version: 1 };
    let r = state.receive_data_response(response, &mut storage);
    assert!(matches!(r, Err(LoaderError::MissingLoad(LoadHandle(55)))));
    let r = state.receive_load_op(HandleOp::Complete(nowhere, 1), &mut storage);
    assert!(matches!(r, Err(LoaderError::MissingLoad(LoadHandle(55)))));

    let handle = state.add_refs(AssetUuid(10), 1);
    let response = DataResponse { result: Ok(vec![1]), handle, version: 6 };
    let r = state.receive_data_response(response, &mut storage);
    assert!(matches!(r, Err(LoaderError::MissingVersion(LoadHandle(1), 6))));
    let r = state.receive_load_op(HandleOp::Complete(handle, 6), &mut storage);
    assert!(matches!(r, Err(LoaderError::MissingVersion(LoadHandle(1), 6))));
    let response = DataResponse { result: Ok(vec![1]), handle, version: 1 };
    let r = state.receive_data_response(response, &mut storage);
    assert!(matches!(r, Err(LoaderError::MissingMetadata(LoadHandle(1), 1))));
    let r = state.receive_load_op(HandleOp::Complete(handle, 1), &mut storage);
    assert!(matches!(r, Err(LoaderError::UnexpectedState(LoadHandle(1), 1))));

    let requests = HashMap::from([(10u128, (nowhere, 1u32))]);
    let response = MetadataResponse { result: Err("gone".to_string()), requests };
    let r = state.receive_metadata_response(response);
    assert!(matches!(r, Err(LoaderError::MissingLoad(LoadHandle(55)))));
    let requests = HashMap::from([(10u128, (handle, 6u32))]);
    let response = MetadataResponse { result: Ok(vec![]), requests };
    let r = state.receive_metadata_response(response);
    assert!(matches!(r, Err(LoaderError::MissingVersion(LoadHandle(1), 6))));

    let response = ResolveResponse {
        result: Ok(vec![]),
        id: IndirectIdentifier::Path("a".to_string()),
        handle: nowhere,
    };
    let r = state.receive_resolve_response(response, &First);
    assert!(matches!(r, Err(LoaderError::MissingIndirect(LoadHandle(55)))));
    assert!(matches!(
        state.bind(nowhere, Some(AssetUuid(1))),
        Err(LoaderError::MissingIndirect(LoadHandle(55)))
    ));
    assert!(storage.updates.is_empty());
}

#[test]
fn reports_of_failure_are_errors() {
    let mut state = new_state();
    let mut storage = Recorder::default();
    let handle = LoadHandle(3);
    let r = state.receive_load_op(HandleOp::Error(handle, 2, "bad".to_string()), &mut storage);
    match r {
        Err(LoaderError::LoadFailed(LoadHandle(3), 2, message)) => assert_eq!(message, "bad"),
        other => panic!("unexpected: {:?}", other),
    }
    let r = state.receive_load_op(HandleOp::Drop(handle, 2), &mut storage);
    assert!(matches!(r, Err(LoaderError::OpDropped(LoadHandle(3), 2))));
}

#[test]
fn released_dependencies_need_loads() {
    let mut state = new_state();
    let handle = prepare(&mut state, 10);
    let mut storage = Recorder::default();
    let response = DataResponse { result: Ok(vec![1]), handle, version: 1 };
    state.receive_data_response(response, &mut storage).unwrap();
    state.receive_load_op(HandleOp::Complete(handle, 1), &mut storage).unwrap();
    // The description changes while the version is in use.
    let requests = HashMap::from([(10u128, (handle, 1u32))]);
    let response = MetadataResponse { result: Ok(vec![metadata(10, 6, &[77])]), requests };
    state.receive_metadata_response(response).unwrap();
    state.remove_refs(handle, 1);
    state.process_load_states(&mut storage).unwrap();
    let r = state.process_load_states(&mut storage);
    assert!(matches!(r, Err(LoaderError::MissingDependency(AssetUuid(77)))));
    // By then the storage has given the version up.
    assert_eq!(storage.frees, vec![(TEXT, handle, 1)]);
}

#[test]
fn unasked_descriptions_find_their_version() {
    let mut state = new_state();
    let mut storage = Recorder::default();
    // The asset had no load: it gets one, and its first version is described.
    let response =
        MetadataResponse { result: Ok(vec![metadata(10, 5, &[])]), requests: HashMap::new() };
    state.receive_metadata_response(response).unwrap();
    let id = AssetRef::Uuid(AssetUuid(10));
    assert_eq!(state.get_load_handle(&id), Some(LoadHandle(1)));
    assert_eq!(state.get_asset_id(LoadHandle(1)), Some(AssetUuid(10)));
    assert_eq!(state.get_load_handle(&AssetRef::Uuid(AssetUuid(11))), None);
    assert_eq!(state.get_asset_id(LoadHandle(2)), None);
    // A further description makes a new version, which is the one that gets loaded.
    let response =
        MetadataResponse { result: Ok(vec![metadata(10, 6, &[])]), requests: HashMap::new() };
    state.receive_metadata_response(response).unwrap();
    state.add_refs(AssetUuid(10), 1);
    for _ in 0..3 {
        state.process_load_states(&mut storage).unwrap();
    }
    assert!(state.request_metadata().is_empty());
    let requests = state.request_data();
    assert_eq!(requests.len(), 1);
    assert_eq!(requests[0].request.artifact_id, ArtifactId(6));
    assert_eq!(requests[0].request.version, 2);
}

/// The assets that are referenced, out of those that have not been loaded yet.
fn referenced(state: &mut LoaderState) -> Vec<u128> {
    state.process_load_states(&mut Recorder::default()).unwrap();
    let mut assets: Vec<u128> = state.request_metadata().keys().copied().collect();
    assets.sort();
    assets
}

/// A state with two assets that nothing refers to, and an identifier that is held twice.
fn state_with_identifier() -> (LoaderState, LoadHandle) {
    let mut state = new_state();
    state.get_or_insert(AssetUuid(1));
    state.get_or_insert(AssetUuid(2));
    let id = IndirectIdentifier::Path("a".to_string());
    let handle = state.add_ref_indirect(id.clone());
    assert_eq!(state.add_ref_indirect(id), handle);
    (state, handle)
}

#[test]
fn binding_takes_references() {
    let (mut state, _) = state_with_identifier();
    assert_eq!(referenced(&mut state), Vec::<u128>::new());
    let (mut state, handle) = state_with_identifier();
    state.bind(handle, Some(AssetUuid(1))).unwrap();
    let one = state.get_or_insert(AssetUuid(1));
    // The identifier is held twice, and so is the asset.
    state.remove_refs(one, 1);
    assert_eq!(referenced(&mut state), vec![1]);
    let (mut state, handle) = state_with_identifier();
    state.bind(handle, Some(AssetUuid(1))).unwrap();
    state.remove_refs(one, 2);
    assert_eq!(referenced(&mut state), Vec::<u128>::new());
    let (mut state, handle) = state_with_identifier();
    state.bind(handle, Some(AssetUuid(1))).unwrap();
    state.bind(handle, None).unwrap();
    assert_eq!(referenced(&mut state), Vec::<u128>::new());
}

#[test]
fn rebinding_moves_references() {
    let (mut state, handle) = state_with_identifier();
    state.bind(handle, Some(AssetUuid(1))).unwrap();
    state.bind(handle, Some(AssetUuid(2))).unwrap();
    assert_eq!(referenced(&mut state), vec![2]);
    let (mut state, handle) = state_with_identifier();
    state.bind(handle, Some(AssetUuid(1))).unwrap();
    state.bind(handle, Some(AssetUuid(2))).unwrap();
    state.bind(handle, Some(AssetUuid(1))).unwrap();
    assert_eq!(referenced(&mut state), vec![1]);
}

#[test]
fn the_resolver_picks_the_asset() {
    let (mut state, handle) = state_with_identifier();
    let response = ResolveResponse {
        result: Ok(vec![(
            "a".to_string(),
            vec![AssetMetadata { id: AssetUuid(3), type_id: None }],
        )]),
        id: IndirectIdentifier::Path("a".to_string()),
        handle,
    };
    state.receive_resolve_response(response, &First).unwrap();
    assert_eq!(referenced(&mut state), vec![3]);
    let id = AssetRef::Uuid(AssetUuid(3));
    assert_eq!(state.get_load_handle(&id), Some(LoadHandle(4)));
}

#[test]
fn changes_are_noted_once() {
    let mut state = new_state();
    let mut storage = Recorder::default();
    let handle = prepare(&mut state, 10);
    state.invalidate_assets(&[AssetUuid(10), AssetUuid(10), AssetUuid(4)]);
    state.process_asset_changes(&mut storage).unwrap();
    assert!(!state.is_reload_all_finished());
    let response = DataResponse { result: Ok(vec![1]), handle, version: 1 };
    state.receive_data_response(response, &mut storage).unwrap();
    state.receive_load_op(HandleOp::Complete(handle, 1), &mut storage).unwrap();
    // The version that was loaded before does not count.
    assert!(!state.is_reload_all_finished());
    state.process_load_states(&mut storage).unwrap();
    let requests = state.request_metadata();
    assert_eq!(requests.get(&10), Some(&(handle, 2)));
    let response = MetadataResponse { result: Ok(vec![metadata(10, 6, &[])]), requests };
    state.receive_metadata_response(response).unwrap();
    state.process_load_states(&mut storage).unwrap();
    state.process_load_states(&mut storage).unwrap();
    assert_eq!(state.request_data()[0].request.artifact_id, ArtifactId(6));
    let response = DataResponse { result: Ok(vec![2]), handle, version: 2 };
    state.receive_data_response(response, &mut storage).unwrap();
    state.receive_load_op(HandleOp::Complete(handle, 2), &mut storage).unwrap();
    assert_eq!(storage.commits, vec![(TEXT, handle, 1)]);
    assert!(state.is_reload_all_finished());
    state.process_asset_changes(&mut storage).unwrap();
    assert_eq!(storage.commits, vec![(TEXT, handle, 1), (TEXT, handle, 2)]);
    state.process_load_states(&mut storage).unwrap();
    assert_eq!(storage.frees, vec![(TEXT, handle, 1)]);
}

#[test]
fn reloads_of_unreferenced_assets_are_finished() {
    let mut state = new_state();
    let mut storage = Recorder::default();
    let handle = prepare(&mut state, 10);
    state.invalidate_assets(&[AssetUuid(10)]);
    state.process_asset_changes(&mut storage).unwrap();
    assert!(!state.is_reload_all_finished());
    state.remove_refs(handle, 1);
    assert!(state.is_reload_all_finished());
    state.process_asset_changes(&mut storage).unwrap();
    assert!(storage.commits.is_empty());
}
